use vstd::prelude::*;
use vstd::string::StringExecFns;

verus! {

/// The store's directory layout under one root: `wal` holds the log
/// segments; `snapshot`, `temp` and `persistent` are reserved.
pub struct FileSystem {
    pub root: String,
    pub wal: String,
    pub snapshot: String,
    pub temp: String,
    pub persistent: String,
}

impl FileSystem {
    pub fn new(root: String) -> (r: Self)
        ensures
            r.root@ == root@,
            r.wal@ == root@ + "/wal"@,
            r.snapshot@ == root@ + "/snapshot"@,
            r.temp@ == root@ + "/temp"@,
            r.persistent@ == root@ + "/persistent"@,
    {
        let wal = root.clone().concat("/wal");
        let snapshot = root.clone().concat("/snapshot");
        let temp = root.clone().concat("/temp");
        let persistent = root.clone().concat("/persistent");
        FileSystem { root, wal, snapshot, temp, persistent }
    }
}

} // verus!
