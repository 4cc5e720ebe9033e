//! The tar-style container: fixed 512-byte headers with octal number fields,
//! contents padded to whole blocks, and a 1024-byte zero terminator.

use vstd::prelude::*;

verus! {

// ---------------------------------------------------------------------------
// Octal digit strings
// ---------------------------------------------------------------------------

/// 8 raised to the power `k`.
pub open spec fn pow8(k: nat) -> nat
    decreases k,
{
    if k == 0 {
        1
    } else {
        8 * pow8((k - 1) as nat)
    }
}

/// `n` written as `k` zero-padded ASCII octal digits, most significant first.
pub open spec fn octal(n: nat, k: nat) -> Seq<u8>
    decreases k,
{
    if k == 0 {
        Seq::empty()
    } else {
        octal(n / 8, (k - 1) as nat).push((48 + n % 8) as u8)
    }
}

/// Every byte is an ASCII octal digit.
pub open spec fn is_octal_digits(s: Seq<u8>) -> bool {
    forall|i: int| 0 <= i < s.len() ==> 48 <= #[trigger] s[i] <= 55
}

/// The number an ASCII octal digit string denotes.
pub open spec fn octal_val(s: Seq<u8>) -> int
    decreases s.len(),
{
    if s.len() == 0 {
        0
    } else {
        octal_val(s.drop_last()) * 8 + s.last() - 48
    }
}

pub proof fn lemma_octal_len(n: nat, k: nat)
    ensures
        octal(n, k).len() == k,
    decreases k,
{
    if k > 0 {
        lemma_octal_len(n / 8, (k - 1) as nat);
    }
}

/// Writing a number in octal and reading it back returns the number.
pub proof fn lemma_octal_round_trip(n: nat, k: nat)
    requires
        n < pow8(k),
    ensures
        octal(n, k).len() == k,
        is_octal_digits(octal(n, k)),
        octal_val(octal(n, k)) == n,
    decreases k,
{
    lemma_octal_len(n, k);
    if k == 0 {
    } else {
        assert(n / 8 < pow8((k - 1) as nat)) by (nonlinear_arith)
            requires
                n < 8 * pow8((k - 1) as nat),
        ;
        lemma_octal_round_trip(n / 8, (k - 1) as nat);
        let s = octal(n, k);
        let t = octal(n / 8, (k - 1) as nat);
        assert(s == t.push((48 + n % 8) as u8));
        assert(s.drop_last() =~= t);
        assert(s.last() == 48 + n % 8);
        assert(octal_val(s) == octal_val(t) * 8 + n % 8);
        assert(n / 8 * 8 + n % 8 == n) by (nonlinear_arith);
        assert(forall|i: int| 0 <= i < k - 1 ==> s[i] == t[i]);
    }
}

// ---------------------------------------------------------------------------
// Byte sums (for the header checksum)
// ---------------------------------------------------------------------------

/// The sum of a byte string's values.
pub open spec fn sum_bytes(s: Seq<u8>) -> int
    decreases s.len(),
{
    if s.len() == 0 {
        0
    } else {
        sum_bytes(s.drop_last()) + s.last()
    }
}

// ---------------------------------------------------------------------------
// Header layout
// ---------------------------------------------------------------------------

/// `n` zero bytes.
pub open spec fn zeros(n: nat) -> Seq<u8> {
    Seq::new(n, |i: int| 0u8)
}

/// The 100-byte name field: the path, padded with NUL bytes.
pub open spec fn name_field(path: Seq<u8>) -> Seq<u8> {
    path + zeros((100 - path.len()) as nat)
}

/// An 8-byte numeric field: 7 octal digits and a NUL.
pub open spec fn num8(n: nat) -> Seq<u8> {
    octal(n, 7).push(0)
}

/// A 12-byte numeric field: 11 octal digits and a NUL.
pub open spec fn num12(n: nat) -> Seq<u8> {
    octal(n, 11).push(0)
}

/// The checksum field placeholder: 8 ASCII spaces.
pub open spec fn spaces8() -> Seq<u8> {
    Seq::new(8, |i: int| 32u8)
}

/// The 8-byte checksum field: 6 octal digits, a NUL and a space.
pub open spec fn cksum_field(c: nat) -> Seq<u8> {
    octal(c, 6).push(0).push(32)
}

/// The magic and version fields: `ustar\0` and `00`.
pub open spec fn magic_version() -> Seq<u8> {
    seq![117u8, 115u8, 116u8, 97u8, 114u8, 0u8, 48u8, 48u8]
}

/// The header with the checksum field still holding its placeholder: name,
/// mode 0644, uid 0, gid 0, size, mtime 0, eight spaces, typeflag `0`, empty
/// linkname, `ustar` magic, and zeroed remaining fields.
pub open spec fn header_pre(path: Seq<u8>, size: nat) -> Seq<u8> {
    name_field(path) + num8(420) + num8(0) + num8(0) + num12(size) + num12(0) + spaces8()
        + seq![48u8] + zeros(100) + magic_version() + zeros(247)
}

/// The finished 512-byte header: the placeholder header with its own byte sum
/// written into the checksum field.
pub open spec fn header_bytes(path: Seq<u8>, size: nat) -> Seq<u8> {
    let pre = header_pre(path, size);
    pre.take(148) + cksum_field(sum_bytes(pre) as nat) + pre.skip(156)
}

pub proof fn lemma_header_pre_len(path: Seq<u8>, size: nat)
    requires
        path.len() <= 100,
    ensures
        header_pre(path, size).len() == 512,
{
    lemma_octal_len(420, 7);
    lemma_octal_len(0, 7);
    lemma_octal_len(size, 11);
    lemma_octal_len(0, 11);
}

pub proof fn lemma_header_len(path: Seq<u8>, size: nat)
    requires
        path.len() <= 100,
    ensures
        header_bytes(path, size).len() == 512,
{
    lemma_header_pre_len(path, size);
    lemma_octal_len(sum_bytes(header_pre(path, size)) as nat, 6);
}

// ---------------------------------------------------------------------------
// Whole-stream layout
// ---------------------------------------------------------------------------

/// How many zero bytes pad contents of length `n` to a whole 512-byte block.
pub open spec fn pad_len(n: nat) -> nat {
    ((512 - n % 512) % 512) as nat
}

/// One entry's bytes: header, contents, padding.
pub open spec fn entry_bytes(e: crate::entry::EntryView) -> Seq<u8> {
    header_bytes(e.path, e.data.len()) + e.data + zeros(pad_len(e.data.len()))
}

/// The bytes of the entries from index `i` on, closed by the terminator.
pub open spec fn tar_bytes_from(es: Seq<crate::entry::EntryView>, i: int) -> Seq<u8>
    decreases es.len() - i,
{
    if i < 0 || i >= es.len() {
        zeros(1024)
    } else {
        entry_bytes(es[i]) + tar_bytes_from(es, i + 1)
    }
}

/// The whole stream: every entry in order, then two zero blocks.
pub open spec fn tar_bytes(es: Seq<crate::entry::EntryView>) -> Seq<u8> {
    tar_bytes_from(es, 0)
}

// ---------------------------------------------------------------------------
// Writer
// ---------------------------------------------------------------------------

/// Append `n` zero bytes.
fn push_zeros(out: &mut Vec<u8>, n: usize)
    ensures
        final(out)@ == old(out)@ + zeros(n as nat),
{
    let mut i: usize = 0;
    while i < n
        invariant
            0 <= i <= n,
            out@ == old(out)@ + zeros(i as nat),
        decreases n - i,
    {
        out.push(0);
        assert(old(out)@ + zeros(i as nat) + seq![0u8] =~= old(out)@ + zeros((i + 1) as nat));
        i += 1;
    }
}

/// Append `n` as `k` zero-padded octal digits.
fn push_octal(out: &mut Vec<u8>, n: u64, k: usize)
    ensures
        final(out)@ == old(out)@ + octal(n as nat, k as nat),
    decreases k,
{
    if k == 0 {
        assert(out@ =~= out@ + octal(n as nat, 0));
    } else {
        push_octal(out, n / 8, k - 1);
        out.push(48 + (n % 8) as u8);
    }
}

/// Append a whole 512-byte header for a `wf_entry`-shaped name and size.
fn push_header(out: &mut Vec<u8>, path: &Vec<u8>, size: u64)
    requires
        1 <= path@.len() <= 100,
        size <= crate::entry::max_entry_size(),
    ensures
        final(out)@ == old(out)@ + header_bytes(path@, size as nat),
{
    let ghost pre = header_pre(path@, size as nat);
    proof {
        lemma_header_pre_len(path@, size as nat);
    }
    // Build the header with the checksum placeholder in a scratch buffer.
    let mut hdr: Vec<u8> = Vec::new();
    let mut i: usize = 0;
    while i < path.len()
        invariant
            0 <= i <= path@.len(),
            hdr@ == path@.take(i as int),
        decreases path@.len() - i,
    {
        hdr.push(path[i]);
        assert(path@.take(i as int) + seq![path@[i as int]] =~= path@.take(i + 1));
        i += 1;
    }
    assert(hdr@ =~= path@);
    push_zeros(&mut hdr, 100 - path.len());
    assert(hdr@ =~= name_field(path@));
    push_octal(&mut hdr, 420, 7);
    hdr.push(0);
    assert(hdr@ =~= name_field(path@) + num8(420));
    push_octal(&mut hdr, 0, 7);
    hdr.push(0);
    push_octal(&mut hdr, 0, 7);
    hdr.push(0);
    assert(hdr@ =~= name_field(path@) + num8(420) + num8(0) + num8(0));
    push_octal(&mut hdr, size, 11);
    hdr.push(0);
    push_octal(&mut hdr, 0, 11);
    hdr.push(0);
    assert(hdr@ =~= name_field(path@) + num8(420) + num8(0) + num8(0) + num12(size as nat)
        + num12(0));
    let mut j: usize = 0;
    assert(hdr@ =~= name_field(path@) + num8(420) + num8(0) + num8(0) + num12(size as nat)
        + num12(0) + Seq::new(0 as nat, |x: int| 32u8));
    while j < 8
        invariant
            0 <= j <= 8,
            hdr@ == name_field(path@) + num8(420) + num8(0) + num8(0) + num12(size as nat)
                + num12(0) + Seq::new(j as nat, |x: int| 32u8),
        decreases 8 - j,
    {
        hdr.push(32);
        assert(Seq::new(j as nat, |x: int| 32u8) + seq![32u8] =~= Seq::new(
            (j + 1) as nat,
            |x: int| 32u8,
        ));
        assert(hdr@ =~= name_field(path@) + num8(420) + num8(0) + num8(0) + num12(size as nat)
            + num12(0) + Seq::new((j + 1) as nat, |x: int| 32u8));
        j += 1;
    }
    hdr.push(48);
    push_zeros(&mut hdr, 100);
    hdr.push(117);
    hdr.push(115);
    hdr.push(116);
    hdr.push(97);
    hdr.push(114);
    hdr.push(0);
    hdr.push(48);
    hdr.push(48);
    push_zeros(&mut hdr, 247);
    assert(hdr@ =~= pre);
    // Sum the placeholder header's bytes.
    let mut sum: u32 = 0;
    let mut p: usize = 0;
    while p < 512
        invariant
            0 <= p <= 512,
            hdr@ == pre,
            pre.len() == 512,
            sum == sum_bytes(pre.take(p as int)),
            sum <= 255 * p,
        decreases 512 - p,
    {
        proof {
            assert(pre.take(p + 1).drop_last() =~= pre.take(p as int));
            assert(pre.take(p + 1).last() == pre[p as int]);
        }
        sum = sum + hdr[p] as u32;
        p += 1;
    }
    assert(pre.take(512) =~= pre);
    // Emit the header: everything before the checksum field, the checksum,
    // everything after it.
    let ghost base = out@;
    let mut q: usize = 0;
    while q < 148
        invariant
            0 <= q <= 148,
            hdr@ == pre,
            pre.len() == 512,
            out@ == base + pre.take(q as int),
        decreases 148 - q,
    {
        out.push(hdr[q]);
        assert(pre.take(q as int) + seq![pre[q as int]] =~= pre.take(q + 1));
        q += 1;
    }
    push_octal(out, sum as u64, 6);
    out.push(0);
    out.push(32);
    assert(out@ =~= base + pre.take(148) + cksum_field(sum_bytes(pre) as nat));
    let ghost mid = out@;
    let mut q2: usize = 156;
    while q2 < 512
        invariant
            156 <= q2 <= 512,
            hdr@ == pre,
            pre.len() == 512,
            out@ == mid + pre.subrange(156, q2 as int),
        decreases 512 - q2,
    {
        out.push(hdr[q2]);
        assert(pre.subrange(156, q2 as int) + seq![pre[q2 as int]] =~= pre.subrange(
            156,
            q2 + 1,
        ));
        q2 += 1;
    }
    assert(pre.subrange(156, 512) =~= pre.skip(156));
    assert(out@ =~= old(out)@ + header_bytes(path@, size as nat));
}

/// Append one entry: header, contents, padding.
fn push_entry(out: &mut Vec<u8>, e: &crate::entry::Entry)
    requires
        crate::entry::wf_entry(e@),
    ensures
        final(out)@ == old(out)@ + entry_bytes(e@),
{
    push_header(out, &e.path, e.data.len() as u64);
    let ghost with_hdr = out@;
    let mut i: usize = 0;
    while i < e.data.len()
        invariant
            0 <= i <= e.data@.len(),
            out@ == with_hdr + e.data@.take(i as int),
        decreases e.data@.len() - i,
    {
        out.push(e.data[i]);
        assert(e.data@.take(i as int) + seq![e.data@[i as int]] =~= e.data@.take(i + 1));
        i += 1;
    }
    assert(out@ =~= with_hdr + e.data@);
    let rem = e.data.len() % 512;
    let pad = if rem == 0 {
        0
    } else {
        512 - rem
    };
    assert(pad == pad_len(e.data@.len()));
    push_zeros(out, pad);
    assert(out@ =~= old(out)@ + entry_bytes(e@));
}

/// Lay the entries out as a tar-style stream.
pub fn serialize_entries(entries: &Vec<crate::entry::Entry>) -> (r: Vec<u8>)
    requires
        crate::entry::wf_entries(crate::entry::views(entries@)),
    ensures
        r@ == tar_bytes(crate::entry::views(entries@)),
{
    let ghost es = crate::entry::views(entries@);
    let mut out: Vec<u8> = Vec::new();
    let mut i: usize = 0;
    assert(tar_bytes(es) =~= Seq::<u8>::empty() + tar_bytes_from(es, 0));
    while i < entries.len()
        invariant
            0 <= i <= entries@.len(),
            es == crate::entry::views(entries@),
            crate::entry::wf_entries(es),
            tar_bytes(es) == out@ + tar_bytes_from(es, i as int),
        decreases entries@.len() - i,
    {
        assert(es[i as int] == entries@[i as int]@);
        push_entry(&mut out, &entries[i]);
        proof {
            assert(tar_bytes_from(es, i as int) == entry_bytes(es[i as int]) + tar_bytes_from(
                es,
                i + 1,
            ));
            assert(out@ + tar_bytes_from(es, i + 1) =~= tar_bytes(es));
        }
        i += 1;
    }
    push_zeros(&mut out, 1024);
    assert(tar_bytes_from(es, i as int) == zeros(1024));
    assert(out@ =~= tar_bytes(es));
    out
}

// ---------------------------------------------------------------------------
// Parser
// ---------------------------------------------------------------------------

/// Why a byte stream is not a readable container.
#[derive(Debug, Clone, Copy, PartialEq, Eq, Structural)]
pub enum TarError {
    /// The stream stops inside a header or inside an entry's contents.
    Truncated,
    /// A header block has an empty name or a malformed size field.
    BadHeader,
}

/// Every byte of the block is zero.
pub open spec fn is_zero_block(b: Seq<u8>) -> bool {
    forall|i: int| 0 <= i < b.len() ==> #[trigger] b[i] == 0
}

/// The index of the first NUL in the name field at or after `i`, or 100.
pub open spec fn name_len_from(b: Seq<u8>, i: int) -> int
    decreases 100 - i,
{
    if i < 0 || i >= 100 {
        100
    } else if b[i] == 0 {
        i
    } else {
        name_len_from(b, i + 1)
    }
}

/// The length of the name stored in a header block.
pub open spec fn name_len(b: Seq<u8>) -> int {
    name_len_from(b, 0)
}

/// What reading the stream from `pos` yields: the remaining file entries, or
/// the first fault.  A zero block ends the stream; entries whose typeflag is
/// neither `0` nor NUL are carriers of metadata and are passed over.
pub open spec fn parse_from(bytes: Seq<u8>, pos: int) -> Result<
    Seq<crate::entry::EntryView>,
    TarError,
>
    decreases bytes.len() - pos,
{
    if pos < 0 || pos + 512 > bytes.len() {
        Err(TarError::Truncated)
    } else {
        let block = bytes.subrange(pos, pos + 512);
        if is_zero_block(block) {
            Ok(Seq::empty())
        } else {
            let nlen = name_len(block);
            let sd = block.subrange(124, 135);
            if nlen == 0 || !is_octal_digits(sd) || octal_val(sd) < 0 {
                Err(TarError::BadHeader)
            } else {
                let size = octal_val(sd);
                let pad = pad_len(size as nat);
                if pos + 512 + size + pad > bytes.len() {
                    Err(TarError::Truncated)
                } else {
                    let rest = parse_from(bytes, pos + 512 + size + pad);
                    if block[156] == 0 || block[156] == 48 {
                        match rest {
                            Ok(es) => Ok(
                                seq![
                                    crate::entry::EntryView {
                                        path: block.subrange(0, nlen),
                                        data: bytes.subrange(pos + 512, pos + 512 + size),
                                    }
                                ] + es,
                            ),
                            Err(e) => Err(e),
                        }
                    } else {
                        rest
                    }
                }
            }
        }
    }
}

/// The executable result mirrors the specification result: the same entries,
/// or the same error.
pub open spec fn parse_result_matches(
    r: Result<Vec<crate::entry::Entry>, TarError>,
    s: Result<Seq<crate::entry::EntryView>, TarError>,
) -> bool {
    match (r, s) {
        (Ok(v), Ok(es)) => crate::entry::views(v@) == es,
        (Err(a), Err(b)) => a == b,
        _ => false,
    }
}

fn check_zero_block(bytes: &Vec<u8>, pos: usize) -> (r: bool)
    requires
        pos + 512 <= bytes@.len(),
    ensures
        r == is_zero_block(bytes@.subrange(pos as int, pos as int + 512)),
{
    let ghost block = bytes@.subrange(pos as int, pos as int + 512);
    let len = bytes.len();
    let mut i: usize = 0;
    while i < 512
        invariant
            pos + 512 <= bytes@.len(),
            bytes@.len() == len,
            0 <= i <= 512,
            block == bytes@.subrange(pos as int, pos as int + 512),
            forall|j: int| 0 <= j < i ==> #[trigger] block[j] == 0,
        decreases 512 - i,
    {
        if bytes[pos + i] != 0 {
            assert(block[i as int] == bytes@[pos + i]);
            return false;
        }
        assert(block[i as int] == bytes@[pos + i]);
        i += 1;
    }
    true
}

fn find_name_len(bytes: &Vec<u8>, pos: usize, i: usize) -> (r: usize)
    requires
        pos + 512 <= bytes@.len(),
        i <= 100,
    ensures
        r == name_len_from(bytes@.subrange(pos as int, pos as int + 512), i as int),
        i <= r <= 100,
    decreases 100 - i,
{
    let ghost block = bytes@.subrange(pos as int, pos as int + 512);
    let len = bytes.len();
    if i == 100 {
        100
    } else {
        assert(pos + i < len);
        assert(block[i as int] == bytes@[pos + i]);
        if bytes[pos + i] == 0 {
            i
        } else {
            find_name_len(bytes, pos, i + 1)
        }
    }
}

proof fn lemma_pow8_values()
    ensures
        pow8(6) == 0x40000,
        pow8(11) == 0x2_0000_0000,
{
    assert(pow8(0) == 1);
    assert(pow8(1) == 8);
    assert(pow8(2) == 64);
    assert(pow8(3) == 512);
    assert(pow8(4) == 0x1000);
    assert(pow8(5) == 0x8000);
    assert(pow8(6) == 0x40000);
    assert(pow8(7) == 0x20_0000);
    assert(pow8(8) == 0x100_0000);
    assert(pow8(9) == 0x800_0000);
    assert(pow8(10) == 0x4000_0000);
    assert(pow8(11) == 0x2_0000_0000);
}

fn parse_octal11(bytes: &Vec<u8>, pos: usize) -> (r: Option<u64>)
    requires
        pos + 11 <= bytes@.len(),
    ensures
        ({
            let sd = bytes@.subrange(pos as int, pos as int + 11);
            match r {
                Some(v) => is_octal_digits(sd) && v == octal_val(sd) && v < 0x2_0000_0000,
                None => !is_octal_digits(sd),
            }
        }),
{
    let ghost sd = bytes@.subrange(pos as int, pos as int + 11);
    proof {
        lemma_pow8_values();
    }
    let len = bytes.len();
    let mut acc: u64 = 0;
    let mut i: usize = 0;
    while i < 11
        invariant
            pos + 11 <= bytes@.len(),
            bytes@.len() == len,
            0 <= i <= 11,
            sd == bytes@.subrange(pos as int, pos as int + 11),
            forall|j: int| 0 <= j < i ==> 48 <= #[trigger] sd[j] <= 55,
            acc == octal_val(sd.take(i as int)),
            acc < pow8(i as nat),
            pow8(11) == 0x2_0000_0000,
        decreases 11 - i,
    {
        let b = bytes[pos + i];
        assert(sd[i as int] == bytes@[pos + i]);
        if b < 48 || b > 55 {
            return None;
        }
        proof {
            assert(sd.take(i + 1).drop_last() =~= sd.take(i as int));
            assert(sd.take(i + 1).last() == sd[i as int]);
            assert(pow8((i + 1) as nat) == 8 * pow8(i as nat));
            assert(acc * 8 + 7 < 8 * pow8(i as nat)) by (nonlinear_arith)
                requires
                    acc < pow8(i as nat),
            ;
            assert(8 * pow8(i as nat) <= pow8(11)) by {
                lemma_pow8_mono((i + 1) as nat, 11);
            }
        }
        acc = acc * 8 + (b - 48) as u64;
        i += 1;
    }
    assert(sd.take(11) =~= sd);
    Some(acc)
}

proof fn lemma_pow8_mono(a: nat, b: nat)
    requires
        a <= b,
    ensures
        pow8(a) <= pow8(b),
    decreases b,
{
    if a < b {
        lemma_pow8_mono(a, (b - 1) as nat);
        assert(pow8(b) == 8 * pow8((b - 1) as nat));
        assert(pow8((b - 1) as nat) >= 0);
    }
}

/// Read a tar-style stream back into its entries.
pub fn parse_entries(bytes: &Vec<u8>) -> (r: Result<Vec<crate::entry::Entry>, TarError>)
    ensures
        parse_result_matches(r, parse_from(bytes@, 0)),
{
    parse_at(bytes, 0)
}

fn parse_at(bytes: &Vec<u8>, pos: usize) -> (r: Result<Vec<crate::entry::Entry>, TarError>)
    requires
        pos <= bytes@.len(),
    ensures
        parse_result_matches(r, parse_from(bytes@, pos as int)),
    decreases bytes@.len() - pos,
{
    if bytes.len() - pos < 512 {
        return Err(TarError::Truncated);
    }
    let ghost block = bytes@.subrange(pos as int, pos as int + 512);
    if check_zero_block(bytes, pos) {
        let r: Vec<crate::entry::Entry> = Vec::new();
        assert(crate::entry::views(r@) =~= Seq::<crate::entry::EntryView>::empty());
        return Ok(r);
    }
    let nlen = find_name_len(bytes, pos, 0);
    if nlen == 0 {
        return Err(TarError::BadHeader);
    }
    let ghost sd = block.subrange(124, 135);
    assert(sd =~= bytes@.subrange(pos as int + 124, pos as int + 135));
    let size64 = match parse_octal11(bytes, pos + 124) {
        Some(v) => v,
        None => {
            return Err(TarError::BadHeader);
        },
    };
    let remaining = bytes.len() - pos - 512;
    let rem512 = size64 % 512;
    let pad64: u64 = if rem512 == 0 {
        0
    } else {
        512 - rem512
    };
    assert(pad64 == pad_len(size64 as nat));
    if size64 > remaining as u64 || pad64 > remaining as u64 - size64 {
        assert(pos + 512 + octal_val(sd) + pad_len(octal_val(sd) as nat) > bytes@.len());
        return Err(TarError::Truncated);
    }
    let size = size64 as usize;
    let pad = pad64 as usize;
    let pos2 = pos + 512 + size + pad;
    let rest = parse_at(bytes, pos2);
    let tf = bytes[pos + 156];
    assert(block[156] == bytes@[pos + 156]);
    if tf == 0 || tf == 48 {
        match rest {
            Ok(mut v) => {
                let name = vstd::slice::slice_to_vec(
                    vstd::slice::slice_subrange(bytes.as_slice(), pos, pos + nlen),
                );
                let data = vstd::slice::slice_to_vec(
                    vstd::slice::slice_subrange(bytes.as_slice(), pos + 512, pos + 512 + size),
                );
                assert(name@ =~= block.subrange(0, nlen as int));
                assert(data@ =~= bytes@.subrange(pos as int + 512, pos as int + 512 + size64));
                let ghost old_v = v@;
                let e = crate::entry::Entry { path: name, data };
                v.insert(0, e);
                proof {
                    let ev = crate::entry::EntryView {
                        path: block.subrange(0, nlen as int),
                        data: bytes@.subrange(pos as int + 512, pos as int + 512 + octal_val(sd)),
                    };
                    assert(v@ == old_v.insert(0, e));
                    assert(crate::entry::views(v@) =~= seq![ev] + crate::entry::views(old_v));
                }
                Ok(v)
            },
            Err(e) => Err(e),
        }
    } else {
        rest
    }
}

// ---------------------------------------------------------------------------
// Round trip: reading what the writer laid out returns the entries
// ---------------------------------------------------------------------------

proof fn lemma_name_len_steps(b: Seq<u8>, plen: int, j: int)
    requires
        0 <= j <= plen <= 100,
        b.len() >= 512,
        forall|i: int| j <= i < plen ==> b[i] != 0,
        plen < 100 ==> b[plen] == 0,
    ensures
        name_len_from(b, j) == plen,
    decreases plen - j,
{
    if j < plen {
        lemma_name_len_steps(b, plen, j + 1);
    }
}

/// The facts the parser reads off a written header.
proof fn lemma_header_facts(path: Seq<u8>, size: nat)
    requires
        1 <= path.len() <= 100,
        forall|i: int| 0 <= i < path.len() ==> path[i] != 0,
        size <= crate::entry::max_entry_size(),
    ensures
        header_bytes(path, size).len() == 512,
        name_len(header_bytes(path, size)) == path.len(),
        header_bytes(path, size).subrange(0, path.len() as int) == path,
        header_bytes(path, size).subrange(124, 135) == octal(size, 11),
        is_octal_digits(header_bytes(path, size).subrange(124, 135)),
        octal_val(header_bytes(path, size).subrange(124, 135)) == size,
        header_bytes(path, size)[156] == 48,
        !is_zero_block(header_bytes(path, size)),
{
    let pre = header_pre(path, size);
    let h = header_bytes(path, size);
    lemma_header_pre_len(path, size);
    lemma_header_len(path, size);
    lemma_octal_len(420, 7);
    lemma_octal_len(0, 7);
    lemma_octal_len(size, 11);
    lemma_octal_len(0, 11);
    lemma_octal_len(sum_bytes(pre) as nat, 6);
    lemma_pow8_values();
    lemma_octal_round_trip(size, 11);
    assert(name_field(path).len() == 100);
    assert(num8(420).len() == 8);
    assert(num8(0).len() == 8);
    assert(num12(size).len() == 12);
    assert(num12(0).len() == 12);
    assert(cksum_field(sum_bytes(pre) as nat).len() == 8);
    // The header agrees with the placeholder header outside the checksum field.
    assert forall|j: int| 0 <= j < 148 implies h[j] == pre[j] by {}
    assert forall|j: int| 156 <= j < 512 implies h[j] == pre[j] by {
        assert(h[j] == pre.skip(156)[j - 156]);
    }
    // The name region holds the path, then NUL padding.
    assert forall|j: int| 0 <= j < path.len() implies h[j] == path[j] by {
        assert(pre[j] == name_field(path)[j]);
    }
    assert(h.subrange(0, path.len() as int) =~= path);
    if path.len() < 100 {
        assert(pre[path.len() as int] == name_field(path)[path.len() as int]);
        assert(h[path.len() as int] == 0);
    }
    lemma_name_len_steps(h, path.len() as int, 0);
    // The size field holds the octal digits of `size`.
    assert forall|j: int| 0 <= j < 11 implies h[124 + j] == octal(size, 11)[j] by {
        assert(pre[124 + j] == num12(size)[j]);
        assert(num12(size)[j] == octal(size, 11)[j]);
    }
    assert(h.subrange(124, 135) =~= octal(size, 11));
    // Typeflag and magic.
    assert(pre[156] == 48);
    assert(pre[257] == magic_version()[0]);
    assert(h[257] == 117);
    assert(!is_zero_block(h));
}

#[verifier::rlimit(60)]
proof fn lemma_parse_tar_bytes_from(
    bytes: Seq<u8>,
    pos: int,
    es: Seq<crate::entry::EntryView>,
    i: int,
)
    requires
        crate::entry::wf_entries(es),
        0 <= i <= es.len(),
        0 <= pos,
        bytes.len() == pos + tar_bytes_from(es, i).len(),
        bytes.subrange(pos, bytes.len() as int) == tar_bytes_from(es, i),
    ensures
        parse_from(bytes, pos) == Ok::<Seq<crate::entry::EntryView>, TarError>(es.skip(i)),
    decreases es.len() - i,
{
    let suffix = tar_bytes_from(es, i);
    if i == es.len() {
        assert(suffix == zeros(1024));
        assert(pos + 512 <= bytes.len());
        let block = bytes.subrange(pos, pos + 512);
        assert forall|j: int| 0 <= j < 512 implies #[trigger] block[j] == 0 by {
            assert(block[j] == bytes.subrange(pos, bytes.len() as int)[j]);
        }
        assert(is_zero_block(block));
        assert(es.skip(i) =~= Seq::<crate::entry::EntryView>::empty());
    } else {
        let e = es[i];
        assert(crate::entry::wf_entry(e));
        let dlen = e.data.len();
        let h = header_bytes(e.path, dlen);
        let eb = entry_bytes(e);
        let rest = tar_bytes_from(es, i + 1);
        lemma_header_facts(e.path, dlen);
        assert(eb.len() == 512 + dlen + pad_len(dlen));
        assert(suffix == eb + rest);
        assert(bytes.len() == pos + eb.len() + rest.len());
        assert(pos + 512 <= bytes.len());
        assert forall|j: int| 0 <= j < suffix.len() implies #[trigger] bytes[pos + j] == suffix[j] by {
            assert(suffix[j] == bytes.subrange(pos, bytes.len() as int)[j]);
        }
        let block = bytes.subrange(pos, pos + 512);
        assert forall|j: int| 0 <= j < 512 implies #[trigger] block[j] == h[j] by {
            assert(block[j] == bytes[pos + j]);
            assert(suffix[j] == eb[j]);
            assert(eb[j] == h[j]);
        }
        assert(block =~= h);
        assert(!is_zero_block(block));
        assert(name_len(block) == e.path.len());
        let nlen = name_len(block);
        assert(1 <= nlen <= 100);
        let sd = block.subrange(124, 135);
        assert(sd == octal(dlen, 11));
        assert(is_octal_digits(sd));
        assert(octal_val(sd) == dlen);
        let size = octal_val(sd);
        let pad = pad_len(size as nat);
        assert(pos + 512 + size + pad == pos + eb.len());
        assert(pos + 512 + size + pad <= bytes.len());
        let pos2 = pos + 512 + size + pad;
        // The remainder of the stream is the remaining entries' bytes.
        assert(bytes.len() == pos2 + rest.len());
        let tail = bytes.subrange(pos2, bytes.len() as int);
        assert(tail.len() == rest.len());
        assert forall|j: int| 0 <= j < rest.len() implies #[trigger] tail[j] == rest[j] by {
            assert(tail[j] == bytes[pos2 + j]);
            assert(pos2 + j == pos + (eb.len() + j));
            assert(bytes[pos + (eb.len() + j)] == suffix[eb.len() + j]);
            assert(suffix[eb.len() + j] == rest[j]);
        }
        assert(tail =~= rest);
        lemma_parse_tar_bytes_from(bytes, pos2, es, i + 1);
        assert(parse_from(bytes, pos2) == Ok::<Seq<crate::entry::EntryView>, TarError>(es.skip(i + 1)));
        // The parsed entry is the written one.
        assert(block[156] == 48);
        let pv = block.subrange(0, nlen);
        assert(pv =~= e.path) by {
            assert(h.subrange(0, e.path.len() as int) == e.path);
            assert forall|j: int| 0 <= j < nlen implies #[trigger] pv[j] == e.path[j] by {
                assert(pv[j] == block[j]);
                assert(h.subrange(0, e.path.len() as int)[j] == h[j]);
            }
        }
        let dv = bytes.subrange(pos + 512, pos + 512 + size);
        assert(dv =~= e.data) by {
            assert forall|j: int| 0 <= j < size implies #[trigger] dv[j] == e.data[j] by {
                assert(dv[j] == bytes[pos + (512 + j)]);
                assert(suffix[512 + j] == eb[512 + j]);
                assert(eb[512 + j] == e.data[j]);
            }
        }
        let ev = crate::entry::EntryView { path: pv, data: dv };
        assert(ev == e);
        assert(seq![e] + es.skip(i + 1) =~= es.skip(i));
        assert(parse_from(bytes, pos) == Ok::<Seq<crate::entry::EntryView>, TarError>(es.skip(i)));
    }
}

/// Reading a written stream returns exactly the entries that were written.
pub proof fn lemma_tar_round_trip(es: Seq<crate::entry::EntryView>)
    requires
        crate::entry::wf_entries(es),
    ensures
        parse_from(tar_bytes(es), 0) == Ok::<Seq<crate::entry::EntryView>, TarError>(es),
{
    let bytes = tar_bytes(es);
    assert(bytes.subrange(0, bytes.len() as int) =~= bytes);
    lemma_parse_tar_bytes_from(bytes, 0, es, 0);
    assert(es.skip(0) =~= es);
}

} // verus!
