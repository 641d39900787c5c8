//! Change-watcher decisions: the one-off synthetic rescan signal emitted at
//! startup, and the filter that turns a raw filesystem notification into a
//! changed path worth acting on.  The OS subscription itself lives outside;
//! the library decides what each normalized event yields.

use vstd::prelude::*;

verus! {

/// The normalized kind of a filesystem notification.
#[derive(Debug, Clone, Copy, PartialEq, Eq, Structural)]
pub enum WatchEventKind {
    Create,
    Modify,
    Other,
}

/// Only creations and modifications yield changed paths.
pub open spec fn relevant_kind(k: WatchEventKind) -> bool {
    k is Create || k is Modify
}

/// The first path of an event that still exists on disk.
pub open spec fn first_existing(ps: Seq<(String, bool)>) -> Option<Seq<char>>
    decreases ps.len(),
{
    if ps.len() == 0 {
        None
    } else if ps[0].1 {
        Some(ps[0].0@)
    } else {
        first_existing(ps.drop_first())
    }
}

/// Picks the changed path one event yields: the first still-existing path
/// of a creation or modification, nothing for any other event.
pub fn select_path(kind: &WatchEventKind, paths: &Vec<(String, bool)>) -> (r: Option<String>)
    ensures
        match r {
            Some(p) => relevant_kind(*kind) && first_existing(paths@) == Some(p@),
            None => !relevant_kind(*kind) || first_existing(paths@) is None,
        },
{
    match kind {
        WatchEventKind::Other => None,
        _ => {
            let mut i: usize = 0;
            proof {
                assert(paths@.skip(0) =~= paths@);
            }
            while i < paths.len()
                invariant
                    relevant_kind(*kind),
                    i <= paths@.len(),
                    first_existing(paths@) == first_existing(paths@.skip(i as int)),
                decreases paths@.len() - i,
            {
                proof {
                    assert(paths@.skip(i as int)[0] == paths@[i as int]);
                    assert(paths@.skip(i as int).drop_first() =~= paths@.skip(i as int + 1));
                }
                if paths[i].1 {
                    proof {
                        assert(first_existing(paths@.skip(i as int)) == Some(paths@[i as int].0@));
                        assert(relevant_kind(*kind));
                    }
                    let p = paths[i].0.clone();
                    proof {
                        assert(p@ == paths@[i as int].0@);
                    }
                    return Some(p);
                }
                i = i + 1;
            }
            proof {
                assert(paths@.skip(paths@.len() as int) =~= Seq::<(String, bool)>::empty());
            }
            None
        },
    }
}

/// The per-watcher state deciding the synthetic initial rescan.
#[derive(Debug, Clone, PartialEq, Eq)]
pub struct WatcherFilter {
    pub initial_pending: bool,
}

impl WatcherFilter {
    /// A fresh filter; `emit_initial` asks for one synthetic full-rescan
    /// signal before any real event.
    pub fn new(emit_initial: bool) -> (r: WatcherFilter)
        ensures
            r.initial_pending == emit_initial,
    {
        WatcherFilter { initial_pending: emit_initial }
    }

    /// Whether the consumer should make its initial full pass now; fires at
    /// most once.
    pub fn take_initial(&mut self) -> (r: bool)
        ensures
            r == old(self).initial_pending,
            !final(self).initial_pending,
    {
        let r = self.initial_pending;
        self.initial_pending = false;
        r
    }
}

} // verus!
