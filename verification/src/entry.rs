//! The archive's data model: an entry is a named sequence of bytes.

use vstd::prelude::*;

verus! {

/// One member of an archive: a relative path and the file's contents.
pub struct Entry {
    pub path: Vec<u8>,
    pub data: Vec<u8>,
}

/// The mathematical value of an [`Entry`].
pub struct EntryView {
    pub path: Seq<u8>,
    pub data: Seq<u8>,
}

impl View for Entry {
    type V = EntryView;

    open spec fn view(&self) -> EntryView {
        EntryView { path: self.path@, data: self.data@ }
    }
}

/// The largest content size the 11-digit octal size field can record.
pub open spec fn max_entry_size() -> nat {
    0x1FFFFFFFF as nat
}

/// An entry that the tar-style layout can hold: the name fits the 100-byte
/// name field (nonempty, no NUL bytes) and the contents fit the size field.
pub open spec fn wf_entry(e: EntryView) -> bool {
    &&& 1 <= e.path.len() <= 100
    &&& forall|i: int| 0 <= i < e.path.len() ==> e.path[i] != 0
    &&& e.data.len() <= max_entry_size()
}

/// The views of a vector of entries.
pub open spec fn views(es: Seq<Entry>) -> Seq<EntryView> {
    es.map_values(|e: Entry| e@)
}

/// Every entry of the sequence is well formed.
pub open spec fn wf_entries(es: Seq<EntryView>) -> bool {
    forall|i: int| 0 <= i < es.len() ==> wf_entry(#[trigger] es[i])
}

impl Entry {
    /// Build an entry, checking that it fits the tar-style layout.
    pub fn new(path: Vec<u8>, data: Vec<u8>) -> (r: Option<Entry>)
        ensures
            r matches Some(e) ==> e@ == (EntryView { path: path@, data: data@ }) && wf_entry(e@),
            r is None <==> !wf_entry(EntryView { path: path@, data: data@ }),
    {
        if path.len() < 1 || path.len() > 100 {
            return None;
        }
        if data.len() as u64 > 0x1FFFFFFFFu64 {
            return None;
        }
        let mut i: usize = 0;
        while i < path.len()
            invariant
                0 <= i <= path.len(),
                forall|j: int| 0 <= j < i ==> path@[j] != 0,
            decreases path.len() - i,
        {
            if path[i] == 0 {
                return None;
            }
            i += 1;
        }
        Some(Entry { path, data })
    }
}

} // verus!
