//! The snapshot descriptor: a caller-supplied ordinal, the name the snapshot
//! directory is stored under, and an opaque date label.

use vstd::prelude::*;

verus! {

/// One snapshot's metadata record, as persisted in its `save.meta` sidecar.
#[derive(Debug)]
pub struct SnapShot {
    /// Caller-supplied ordinal; not generated and not checked for uniqueness.
    pub index: u32,
    /// The directory name the snapshot is stored under; must be a valid
    /// path segment.
    pub name: String,
    /// Caller-supplied label; never parsed as a timestamp.
    pub date: String,
}

/// The mathematical shape of a record: the index and the two field values
/// as character sequences.
pub struct SnapShotView {
    pub index: u32,
    pub name: Seq<char>,
    pub date: Seq<char>,
}

impl View for SnapShot {
    type V = SnapShotView;

    open spec fn view(&self) -> SnapShotView {
        SnapShotView { index: self.index, name: self.name@, date: self.date@ }
    }
}

impl DeepView for SnapShot {
    type V = SnapShotView;

    open spec fn deep_view(&self) -> SnapShotView {
        self.view()
    }
}

impl PartialEq for SnapShot {
    fn eq(&self, other: &SnapShot) -> bool {
        self.index == other.index && self.name == other.name && self.date == other.date
    }
}

impl Eq for SnapShot {

}

impl vstd::std_specs::cmp::PartialEqSpecImpl for SnapShot {
    open spec fn obeys_eq_spec() -> bool {
        true
    }

    open spec fn eq_spec(&self, other: &SnapShot) -> bool {
        self@ == other@
    }
}

} // verus!
