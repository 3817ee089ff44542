//! The decisions of a removal: how each listed path is deleted, and what the
//! ledger forgets. Reading the manifest and deleting below the install root
//! are the caller's part.

use vstd::prelude::*;
use crate::ledger::{Ledger, without};

verus! {

/// What is found at a listed path below the install root.
#[derive(Debug, Clone, Copy, PartialEq, Eq)]
pub enum TargetKind {
    Directory,
    File,
    /// Nothing is there, or nothing that a package could have installed.
    Missing,
}

/// How a listed path is deleted.
#[derive(Debug, Clone, Copy, PartialEq, Eq)]
pub enum Deletion {
    /// Delete the directory and everything below it.
    Tree,
    /// Delete the file.
    File,
    /// Nothing to delete: the target is gone already.
    Skip,
}

/// A manifest path that the ledger does not hold at the time of its removal.
#[derive(Debug, Clone, Copy, PartialEq, Eq)]
pub struct NotRecorded {
    /// The place of the path in the manifest.
    pub index: usize,
}

/// The deletion for a target: a directory goes with its contents, a file
/// alone, and a missing target is passed over.
pub fn deletion_for(kind: TargetKind) -> (deletion: Deletion)
    ensures
        deletion == (match kind {
            TargetKind::Directory => Deletion::Tree,
            TargetKind::File => Deletion::File,
            TargetKind::Missing => Deletion::Skip,
        }),
{
    match kind {
        TargetKind::Directory => Deletion::Tree,
        TargetKind::File => Deletion::File,
        TargetKind::Missing => Deletion::Skip,
    }
}

/// The table without the listed paths.
pub open spec fn removed(ledger: Map<Seq<char>, Seq<char>>, paths: Seq<Seq<char>>) -> Map<
    Seq<char>,
    Seq<char>,
> {
    Map::new(|p: Seq<char>| ledger.contains_key(p) && !paths.contains(p), |p: Seq<char>| ledger[p])
}

/// The records after the listed paths were taken out one after the other.
pub open spec fn released(entries: Seq<(Seq<char>, Seq<char>)>, paths: Seq<Seq<char>>) -> Seq<
    (Seq<char>, Seq<char>),
>
    decreases paths.len(),
{
    if paths.len() == 0 {
        entries
    } else {
        without(released(entries, paths.drop_last()), paths.last())
    }
}

/// Every listed path is owned, and none is listed twice.
pub open spec fn releasable(ledger: Map<Seq<char>, Seq<char>>, paths: Seq<Seq<char>>) -> bool {
    &&& paths.no_duplicates()
    &&& forall|i: int| 0 <= i < paths.len() ==> ledger.contains_key(#[trigger] paths[i])
}

/// Path `k` is the first that cannot be released: the ledger never held it,
/// or an earlier line of the manifest has released it already.
pub open spec fn first_unrecorded(
    ledger: Map<Seq<char>, Seq<char>>,
    paths: Seq<Seq<char>>,
    k: int,
) -> bool {
    &&& 0 <= k < paths.len()
    &&& releasable(ledger, paths.take(k))
    &&& (!ledger.contains_key(paths[k]) || paths.take(k).contains(paths[k]))
}

/// Releasing one more path.
proof fn lemma_removed_step(ledger: Map<Seq<char>, Seq<char>>, paths: Seq<Seq<char>>, i: int)
    requires
        0 <= i < paths.len(),
    ensures
        removed(ledger, paths.take(i + 1)) == removed(ledger, paths.take(i)).remove(paths[i]),
        removed(ledger, paths.take(i)).contains_key(paths[i]) <==> (ledger.contains_key(paths[i])
            && !paths.take(i).contains(paths[i])),
{
    let shorter = paths.take(i);
    let longer = paths.take(i + 1);
    assert forall|p: Seq<char>| longer.contains(p) <==> (shorter.contains(p) || p == paths[i]) by {
        if longer.contains(p) {
            let k = choose|k: int| 0 <= k < longer.len() && longer[k] == p;
            if k < i {
                assert(shorter[k] == p);
            }
        }
        if shorter.contains(p) {
            let k = choose|k: int| 0 <= k < shorter.len() && shorter[k] == p;
            assert(longer[k] == p);
        }
        if p == paths[i] {
            assert(longer[i] == p);
        }
    }
    assert(removed(ledger, longer) =~= removed(ledger, shorter).remove(paths[i]));
}

/// One more releasable path keeps the list releasable.
proof fn lemma_releasable_step(ledger: Map<Seq<char>, Seq<char>>, paths: Seq<Seq<char>>, i: int)
    requires
        0 <= i < paths.len(),
        releasable(ledger, paths.take(i)),
        ledger.contains_key(paths[i]),
        !paths.take(i).contains(paths[i]),
    ensures
        releasable(ledger, paths.take(i + 1)),
{
    let shorter = paths.take(i);
    let longer = paths.take(i + 1);
    assert forall|a: int, b: int| 0 <= a < longer.len() && 0 <= b < longer.len() && a != b implies longer[a]
        != longer[b] by {
        if a < i && b < i {
            assert(shorter[a] != shorter[b]);
        } else if a < i {
            assert(shorter[a] == longer[a]);
            assert(shorter.contains(longer[a]));
        } else if b < i {
            assert(shorter[b] == longer[b]);
            assert(shorter.contains(longer[b]));
        }
    }
    assert forall|j: int| 0 <= j < longer.len() implies ledger.contains_key(
        #[trigger] longer[j],
    ) by {
        if j < i {
            assert(shorter[j] == longer[j]);
        }
    }
}

/// Takes the paths of a manifest out of the ledger, one after the other.
///
/// Succeeds exactly when the ledger holds every listed path and none is
/// listed twice; the ledger then holds what it held before, without them.
/// Otherwise the error gives the place of the first path that the ledger did
/// not hold when its turn came; the paths before it have been released.
pub fn release_paths(ledger: &mut Ledger, paths: &Vec<String>) -> (result: Result<(), NotRecorded>)
    requires
        old(ledger).wf(),
    ensures
        final(ledger).wf(),
        match result {
            Ok(()) => {
                &&& releasable(old(ledger)@, paths.deep_view())
                &&& final(ledger)@ == removed(old(ledger)@, paths.deep_view())
                &&& final(ledger).entries() == released(old(ledger).entries(), paths.deep_view())
            },
            Err(e) => {
                &&& first_unrecorded(old(ledger)@, paths.deep_view(), e.index as int)
                &&& final(ledger)@ == removed(old(ledger)@, paths.deep_view().take(e.index as int))
                &&& final(ledger).entries() == released(
                    old(ledger).entries(),
                    paths.deep_view().take(e.index as int),
                )
            },
        },
{
    let ghost view = paths.deep_view();
    let mut i: usize = 0;
    proof {
        assert(view.take(0) =~= Seq::empty());
        assert(removed(ledger@, view.take(0)) =~= ledger@);
    }
    while i < paths.len()
        invariant
            i <= paths.len(),
            view == paths.deep_view(),
            ledger.wf(),
            releasable(old(ledger)@, view.take(i as int)),
            ledger@ == removed(old(ledger)@, view.take(i as int)),
            ledger.entries() == released(old(ledger).entries(), view.take(i as int)),
        decreases paths.len() - i,
    {
        proof {
            lemma_removed_step(old(ledger)@, view, i as int);
            assert(view.take(i + 1).drop_last() =~= view.take(i as int));
        }
        match ledger.remove(paths[i].as_str()) {
            Ok(()) => {
                proof {
                    lemma_releasable_step(old(ledger)@, view, i as int);
                }
            },
            Err(_) => {
                return Err(NotRecorded { index: i });
            },
        }
        i += 1;
    }
    assert(view.take(i as int) =~= view);
    Ok(())
}

} // verus!
