//! The one place that decides where the app's data lives.
//!
//! All consumers (history database, settings, instance lock) take their
//! location from a single `DataPaths`, so pointing the root elsewhere
//! isolates everything at once.

use crate::text::{push_str, string_from};
use vstd::prelude::*;

verus! {

/// `base` joined with `name` the way `PathBuf::join` joins on Unix: an
/// absolute `name` replaces `base`; otherwise a `/` separator is inserted
/// unless `base` is empty or already ends with one.
pub open spec fn path_join(base: Seq<char>, name: Seq<char>) -> Seq<char> {
    if name.len() > 0 && name[0] == '/' {
        name
    } else if base.len() == 0 || base.last() == '/' {
        base + name
    } else {
        base + seq!['/'] + name
    }
}

/// See [`path_join`].
pub fn join_path(base: &String, name: &str) -> (p: String)
    ensures
        p@ == path_join(base@, name@),
{
    let n = crate::text::chars_of(name);
    if n.len() > 0 && n[0] == '/' {
        return string_from(name);
    }
    let b = crate::text::chars_of(base.as_str());
    let mut p = base.clone();
    if b.len() > 0 && b[b.len() - 1] != '/' {
        p.push('/');
    }
    push_str(&mut p, name);
    p
}

/// Canonical set of filesystem locations the app reads and writes.
#[derive(Debug, Clone)]
pub struct DataPaths {
    /// Root data directory (already created and canonicalized by the caller).
    pub root: String,
}

impl DataPaths {
    pub fn db_path(&self) -> (p: String)
        ensures
            p@ == path_join(self.root@, "monitor.db"@),
    {
        join_path(&self.root, "monitor.db")
    }

    pub fn settings_dir(&self) -> (p: String)
        ensures
            p@ == self.root@,
    {
        self.root.clone()
    }

    pub fn lock_path(&self) -> (p: String)
        ensures
            p@ == path_join(self.root@, "monitor.lock"@),
    {
        join_path(&self.root, "monitor.lock")
    }
}

} // verus!
