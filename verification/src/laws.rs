//! What holds across installs and removals, stated over the same tables and
//! lists as the contracts of the operations.

use vstd::prelude::*;
use crate::install::{
    added, any_owned, conflict_owners, copied_of, in_step, lemma_conflict_owners, missing_of,
    recordable, tagged, CopyResult, Destination,
};
use crate::ledger::{distinct_paths, lemma_table_lookup, owns, stored_table, table};
use crate::remove::{releasable, released, removed};

verus! {

/// Every path that an install is told to copy is a payload path whose
/// destination did not exist.
pub proof fn law_only_missing_is_copied(destinations: Seq<Destination>, k: int)
    requires
        0 <= k < missing_of(destinations).len(),
    ensures
        exists|i: int|
            0 <= i < destinations.len() && !(#[trigger] destinations[i]).exists
                && destinations[i].path@ == missing_of(destinations)[k],
    decreases destinations.len(),
{
    let shorter = destinations.drop_last();
    let last = destinations.len() - 1;
    if k < missing_of(shorter).len() {
        law_only_missing_is_copied(shorter, k);
        let i = choose|i: int|
            0 <= i < shorter.len() && !(#[trigger] shorter[i]).exists && shorter[i].path@
                == missing_of(shorter)[k];
        assert(destinations[i] == shorter[i]);
    } else {
        assert(!destinations[last].exists);
    }
}

/// Where every destination exists already there is nothing to copy.
pub proof fn law_nothing_missing_nothing_to_copy(destinations: Seq<Destination>)
    requires
        forall|i: int| 0 <= i < destinations.len() ==> (#[trigger] destinations[i]).exists,
    ensures
        missing_of(destinations) == Seq::<Seq<char>>::empty(),
    decreases destinations.len(),
{
    if destinations.len() > 0 {
        let shorter = destinations.drop_last();
        assert forall|i: int| 0 <= i < shorter.len() implies (#[trigger] shorter[i]).exists by {
            assert(destinations[i].exists);
        }
        law_nothing_missing_nothing_to_copy(shorter);
        assert(destinations[destinations.len() - 1].exists);
    }
}

/// Installing where every destination exists already records nothing,
/// however often it is repeated: the results of an install that copied only
/// what it was told to copy hold no copied path.
pub proof fn law_nothing_missing_nothing_recorded(
    destinations: Seq<Destination>,
    results: Seq<CopyResult>,
)
    requires
        forall|i: int| 0 <= i < destinations.len() ==> (#[trigger] destinations[i]).exists,
        forall|k: int|
            0 <= k < results.len() ==> missing_of(destinations).contains(
                (#[trigger] results[k]).path@,
            ),
    ensures
        copied_of(results) == Seq::<Seq<char>>::empty(),
{
    law_nothing_missing_nothing_to_copy(destinations);
    if results.len() > 0 {
        assert(missing_of(destinations).contains(results[0].path@));
    }
}

/// Installing the same archive again, after an install that copied at least
/// one of its paths, is a conflict that names exactly the package itself.
///
/// `first` is what the first install saw, `copied` what it recorded, and
/// `second` what the repeated install sees: the same payload paths, whatever
/// exists at their destinations by now.
pub proof fn law_repeated_install_conflicts(
    ledger: Map<Seq<char>, Seq<char>>,
    first: Seq<Destination>,
    copied: Seq<Seq<char>>,
    second: Seq<Destination>,
    package: Seq<char>,
)
    requires
        !any_owned(ledger, first),
        copied.len() > 0,
        forall|k: int|
            0 <= k < copied.len() ==> exists|i: int|
                0 <= i < first.len() && (#[trigger] first[i]).path@ == #[trigger] copied[k],
        second.len() == first.len(),
        forall|i: int| 0 <= i < first.len() ==> (#[trigger] second[i]).path@ == first[i].path@,
    ensures
        any_owned(added(ledger, copied, package), second),
        conflict_owners(added(ledger, copied, package), second) == seq![package],
{
    let after = added(ledger, copied, package);
    let owners = conflict_owners(after, second);
    let i0 = choose|i: int| 0 <= i < first.len() && (#[trigger] first[i]).path@ == copied[0];
    assert(copied.contains(copied[0]));
    assert(after.contains_key(second[i0].path@));
    lemma_conflict_owners(after, second);
    assert forall|k: int| 0 <= k < owners.len() implies owners[k] == package by {
        let i = choose|i: int|
            0 <= i < second.len() && after.contains_key((#[trigger] second[i]).path@)
                && after[second[i].path@] == owners[k];
        assert(second[i].path@ == first[i].path@);
        assert(!ledger.contains_key(first[i].path@));
    }
    if owners.len() > 1 {
        assert(owners[0] == owners[1]);
    }
    assert(owners =~= seq![package]);
}

/// Removing a package right after its install gives the ledger back as it
/// was: every recorded path can be released, the table is the old one, and
/// if the package owned nothing before, it owns nothing afterwards.
pub proof fn law_remove_undoes_install(
    ledger: Map<Seq<char>, Seq<char>>,
    copied: Seq<Seq<char>>,
    package: Seq<char>,
)
    requires
        recordable(ledger, copied),
    ensures
        releasable(added(ledger, copied, package), copied),
        removed(added(ledger, copied, package), copied) == ledger,
        (forall|p: Seq<char>| ledger.contains_key(p) ==> #[trigger] ledger[p] != package)
            ==> forall|p: Seq<char>|
            removed(added(ledger, copied, package), copied).contains_key(p) ==> #[trigger] removed(
                added(ledger, copied, package),
                copied,
            )[p] != package,
{
    let after = added(ledger, copied, package);
    assert forall|i: int| 0 <= i < copied.len() implies after.contains_key(
        #[trigger] copied[i],
    ) by {
        assert(copied.contains(copied[i]));
    }
    assert forall|p: Seq<char>| ledger.contains_key(p) implies !copied.contains(p) by {
        if copied.contains(p) {
            let k = choose|k: int| 0 <= k < copied.len() && copied[k] == p;
            assert(!ledger.contains_key(copied[k]));
        }
    }
    assert(removed(after, copied) =~= ledger);
}

/// The records of a ledger stay distinct when an install adds its paths.
proof fn lemma_recorded_distinct(
    entries: Seq<(Seq<char>, Seq<char>)>,
    copied: Seq<Seq<char>>,
    package: Seq<char>,
)
    requires
        distinct_paths(entries),
        recordable(table(entries), copied),
    ensures
        distinct_paths(entries + tagged(copied, package)),
{
    let all = entries + tagged(copied, package);
    assert forall|i: int, j: int| 0 <= i < j < all.len() implies all[i].0 != all[j].0 by {
        if j < entries.len() {
            assert(entries[i].0 != entries[j].0);
        } else if i < entries.len() {
            assert(!table(entries).contains_key(copied[j - entries.len()]));
            assert(owns(entries, entries[i].0));
        } else {
            assert(copied[i - entries.len()] != copied[j - entries.len()]);
        }
    }
}

/// Removing a package right after its install gives the stored records back
/// as they were, each where it was.
pub proof fn law_remove_restores_records(
    entries: Seq<(Seq<char>, Seq<char>)>,
    copied: Seq<Seq<char>>,
    package: Seq<char>,
)
    requires
        distinct_paths(entries),
        recordable(table(entries), copied),
    ensures
        released(entries + tagged(copied, package), copied) == entries,
{
    lemma_released_prefix(entries, copied, package, copied.len() as int);
    assert(copied.take(copied.len() as int) =~= copied);
    let added_records = tagged(copied, package);
    assert(entries + added_records.subrange(copied.len() as int, copied.len() as int)
        =~= entries);
}

/// After the first `k` of its paths were released, the records of an install
/// are the old ones and those of the paths that are left.
proof fn lemma_released_prefix(
    entries: Seq<(Seq<char>, Seq<char>)>,
    copied: Seq<Seq<char>>,
    package: Seq<char>,
    k: int,
)
    requires
        distinct_paths(entries),
        recordable(table(entries), copied),
        0 <= k <= copied.len(),
    ensures
        released(entries + tagged(copied, package), copied.take(k)) == entries + tagged(
            copied,
            package,
        ).subrange(k, copied.len() as int),
    decreases k,
{
    let n = copied.len() as int;
    let all = entries + tagged(copied, package);
    if k == 0 {
        assert(tagged(copied, package).subrange(0, n) =~= tagged(copied, package));
    } else {
        lemma_released_prefix(entries, copied, package, k - 1);
        assert(copied.take(k).drop_last() =~= copied.take(k - 1));
        assert(copied.take(k).last() == copied[k - 1]);
        let before = entries + tagged(copied, package).subrange(k - 1, n);
        lemma_recorded_distinct(entries, copied, package);
        assert(distinct_paths(before)) by {
            assert forall|i: int, j: int| 0 <= i < j < before.len() implies before[i].0
                != before[j].0 by {
                let i2 = if i < entries.len() { i } else { i + k - 1 };
                let j2 = if j < entries.len() { j } else { j + k - 1 };
                assert(before[i] == all[i2]);
                assert(before[j] == all[j2]);
                assert(all[i2].0 != all[j2].0);
            }
        }
        let at = entries.len() as int;
        assert(before[at].0 == copied[k - 1]);
        lemma_table_lookup(before, at);
        assert(before.remove(at) =~= entries + tagged(copied, package).subrange(k, n));
    }
}

/// What was written on closing is what is found after reopening: every pair
/// of the closed table is looked up unchanged in the reopened one.
pub proof fn law_reopened_ledger_keeps_pairs(
    closed: Seq<(Seq<char>, Seq<char>)>,
    bytes: Seq<u8>,
    reopened: Seq<(Seq<char>, Seq<char>)>,
    i: int,
)
    requires
        distinct_paths(closed),
        stored_table(bytes) == Some(closed),
        stored_table(bytes) == Some(reopened),
        0 <= i < closed.len(),
    ensures
        reopened == closed,
        table(reopened).contains_key(closed[i].0),
        table(reopened)[closed[i].0] == closed[i].1,
{
    lemma_table_lookup(closed, i);
}

/// After an install the package owns exactly the paths of its manifest,
/// provided it owned nothing before.
pub proof fn law_manifest_matches_ledger(
    ledger: Map<Seq<char>, Seq<char>>,
    copied: Seq<Seq<char>>,
    package: Seq<char>,
)
    requires
        recordable(ledger, copied),
        forall|p: Seq<char>| ledger.contains_key(p) ==> #[trigger] ledger[p] != package,
    ensures
        in_step(added(ledger, copied, package), package, copied),
{
}

} // verus!
