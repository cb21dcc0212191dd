use vstd::prelude::*;

verus! {

/// The persistent layer's root: the directory under which materialized
/// pages live.
pub struct PersistentLayer {
    pub dir: String,
}

impl PersistentLayer {
    pub fn new(dir: String) -> (r: Self)
        ensures
            r.dir@ == dir@,
    {
        PersistentLayer { dir }
    }
}

} // verus!
