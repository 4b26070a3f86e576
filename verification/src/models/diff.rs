use vstd::prelude::*;

verus! {

/// The mathematical value of a [`Diff`]: three sequences of paths.
pub struct DiffView {
    pub added: Seq<Seq<char>>,
    pub removed: Seq<Seq<char>>,
    pub modified: Seq<Seq<char>>,
}

impl DiffView {
    /// No path is listed at all.
    pub open spec fn is_empty(self) -> bool {
        self.added.len() == 0 && self.removed.len() == 0 && self.modified.len() == 0
    }

    /// No list names a path twice and no path stands in two lists.
    pub open spec fn is_partition(self) -> bool {
        &&& self.added.no_duplicates()
        &&& self.removed.no_duplicates()
        &&& self.modified.no_duplicates()
        &&& forall|p: Seq<char>| !(self.added.contains(p) && self.removed.contains(p))
        &&& forall|p: Seq<char>| !(self.added.contains(p) && self.modified.contains(p))
        &&& forall|p: Seq<char>| !(self.removed.contains(p) && self.modified.contains(p))
    }
}

/// What changed between two sets of file records: the paths that appeared,
/// the paths that disappeared and the paths whose content hash differs.
#[derive(Debug)]
pub struct Diff {
    pub added: Vec<String>,
    pub removed: Vec<String>,
    pub modified: Vec<String>,
}

impl View for Diff {
    type V = DiffView;

    open spec fn view(&self) -> DiffView {
        DiffView {
            added: self.added.deep_view(),
            removed: self.removed.deep_view(),
            modified: self.modified.deep_view(),
        }
    }
}

impl Diff {
    pub fn is_empty(&self) -> (empty: bool)
        ensures
            empty == self@.is_empty(),
    {
        self.added.is_empty() && self.removed.is_empty() && self.modified.is_empty()
    }
}

} // verus!
