//! Where snapshots of the book are kept.
use vstd::prelude::*;

verus! {

/// The location of a book's snapshot.
pub struct Persistence {
    path: String,
}

impl Persistence {
    /// The location as text.
    pub closed spec fn spec_path(&self) -> Seq<char> {
        self.path@
    }

    /// Snapshots kept at `path`.
    pub fn new(path: &str) -> (r: Persistence)
        ensures
            r.spec_path() == path@,
    {
        Persistence { path: path.to_owned() }
    }

    /// The location of the snapshot.
    pub fn path(&self) -> (r: &str)
        ensures
            r@ == self.spec_path(),
    {
        self.path.as_str()
    }
}

} // verus!
