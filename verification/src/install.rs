//! The decisions of an install: which entries of an unpacked archive are
//! payload, whether the ledger allows the install, what has to be copied,
//! and what is recorded afterwards. Unpacking, probing the install root and
//! copying are the caller's part.

use vstd::prelude::*;
use crate::ledger::{Ledger, LedgerError, lemma_owned_by, owned_by};

verus! {

/// What an entry of the unpacked payload tree is.
#[derive(Debug, Clone, Copy, PartialEq, Eq)]
pub enum EntryKind {
    /// A regular file.
    File,
    /// A directory with nothing in it.
    EmptyDirectory,
    /// A directory that holds something.
    Directory,
    /// Anything else.
    Other,
}

/// An entry of the unpacked payload tree, by its path relative to that tree.
#[derive(Debug, Clone, PartialEq, Eq)]
pub struct TreeEntry {
    pub path: String,
    pub kind: EntryKind,
}

/// A payload path, and whether something already exists at its destination.
#[derive(Debug, Clone, PartialEq, Eq)]
pub struct Destination {
    pub path: String,
    pub exists: bool,
}

/// A path that was to be copied, and whether the copy succeeded.
#[derive(Debug, Clone, PartialEq, Eq)]
pub struct CopyResult {
    pub path: String,
    pub copied: bool,
}

/// The record of what a package installed.
#[derive(Debug, Clone, PartialEq, Eq)]
pub struct PackageManifest {
    pub package: String,
    pub paths: Vec<String>,
}

/// What the ledger allows.
#[derive(Debug, Clone, PartialEq, Eq)]
pub enum InstallPlan {
    /// Some payload path is owned already. Nothing may be copied; the list
    /// holds each owner once, in the order in which they were met.
    Conflict(Vec<String>),
    /// No payload path is owned. The list holds the paths to copy: those
    /// whose destination does not exist yet.
    Copy(Vec<String>),
}

/// How an install ended.
#[derive(Debug, Clone, PartialEq, Eq)]
pub enum InstallOutcome {
    /// No file was copied; nothing was recorded.
    NothingInstalled,
    /// The copied paths were recorded; this is the package's manifest.
    Installed(PackageManifest),
}

/// Leaf files and genuinely empty directories are payload.
pub open spec fn is_payload(kind: EntryKind) -> bool {
    kind is File || kind is EmptyDirectory
}

/// The paths of the payload entries, in order.
pub open spec fn payload_of(entries: Seq<TreeEntry>) -> Seq<Seq<char>>
    decreases entries.len(),
{
    if entries.len() == 0 {
        Seq::empty()
    } else if is_payload(entries.last().kind) {
        payload_of(entries.drop_last()).push(entries.last().path@)
    } else {
        payload_of(entries.drop_last())
    }
}

/// The paths whose destination does not exist yet, in order.
pub open spec fn missing_of(destinations: Seq<Destination>) -> Seq<Seq<char>>
    decreases destinations.len(),
{
    if destinations.len() == 0 {
        Seq::empty()
    } else if !destinations.last().exists {
        missing_of(destinations.drop_last()).push(destinations.last().path@)
    } else {
        missing_of(destinations.drop_last())
    }
}

/// The paths whose copy succeeded, in order.
pub open spec fn copied_of(results: Seq<CopyResult>) -> Seq<Seq<char>>
    decreases results.len(),
{
    if results.len() == 0 {
        Seq::empty()
    } else if results.last().copied {
        copied_of(results.drop_last()).push(results.last().path@)
    } else {
        copied_of(results.drop_last())
    }
}

/// Some payload path has an owner.
pub open spec fn any_owned(ledger: Map<Seq<char>, Seq<char>>, destinations: Seq<Destination>) -> bool {
    exists|i: int|
        0 <= i < destinations.len() && ledger.contains_key((#[trigger] destinations[i]).path@)
}

/// The owners of the owned payload paths, each once, in the order in which
/// the paths meet them.
pub open spec fn conflict_owners(
    ledger: Map<Seq<char>, Seq<char>>,
    destinations: Seq<Destination>,
) -> Seq<Seq<char>>
    decreases destinations.len(),
{
    if destinations.len() == 0 {
        Seq::empty()
    } else {
        let before = conflict_owners(ledger, destinations.drop_last());
        let path = destinations.last().path@;
        if ledger.contains_key(path) && !before.contains(ledger[path]) {
            before.push(ledger[path])
        } else {
            before
        }
    }
}

/// The conflict list is empty exactly when no payload path is owned, names
/// no owner twice, and names only owners of payload paths.
pub proof fn lemma_conflict_owners(
    ledger: Map<Seq<char>, Seq<char>>,
    destinations: Seq<Destination>,
)
    ensures
        conflict_owners(ledger, destinations).len() > 0 <==> any_owned(ledger, destinations),
        conflict_owners(ledger, destinations).no_duplicates(),
        forall|i: int|
            0 <= i < destinations.len() && ledger.contains_key((#[trigger] destinations[i]).path@)
                ==> conflict_owners(ledger, destinations).contains(ledger[destinations[i].path@]),
        forall|k: int|
            0 <= k < conflict_owners(ledger, destinations).len() ==> exists|i: int|
                0 <= i < destinations.len() && ledger.contains_key(
                    (#[trigger] destinations[i]).path@,
                ) && ledger[destinations[i].path@] == #[trigger] conflict_owners(
                    ledger,
                    destinations,
                )[k],
    decreases destinations.len(),
{
    let all = conflict_owners(ledger, destinations);
    if destinations.len() > 0 {
        let shorter = destinations.drop_last();
        let before = conflict_owners(ledger, shorter);
        let last = destinations.len() - 1;
        let path = destinations.last().path@;
        lemma_conflict_owners(ledger, shorter);
        assert forall|i: int| 0 <= i < shorter.len() implies shorter[i] == destinations[i] by {}
        if any_owned(ledger, shorter) {
            let i = choose|i: int|
                0 <= i < shorter.len() && ledger.contains_key((#[trigger] shorter[i]).path@);
            assert(ledger.contains_key(destinations[i].path@));
        }
        if any_owned(ledger, destinations) {
            let i = choose|i: int|
                0 <= i < destinations.len() && ledger.contains_key(
                    (#[trigger] destinations[i]).path@,
                );
            if i < last {
                assert(ledger.contains_key(shorter[i].path@));
            }
        }
        if ledger.contains_key(path) {
            assert(ledger.contains_key(destinations[last].path@));
        }
        assert forall|k: int| 0 <= k < before.len() implies all[k] == before[k] by {}
        assert forall|i: int|
            0 <= i < destinations.len() && ledger.contains_key(
                (#[trigger] destinations[i]).path@,
            ) implies all.contains(ledger[destinations[i].path@]) by {
            let owner = ledger[destinations[i].path@];
            if i < last {
                assert(ledger.contains_key(shorter[i].path@));
                assert(before.contains(owner));
                let k = choose|k: int| 0 <= k < before.len() && before[k] == owner;
                assert(all[k] == owner);
            } else if before.contains(owner) {
                let k = choose|k: int| 0 <= k < before.len() && before[k] == owner;
                assert(all[k] == owner);
            } else {
                assert(all[before.len() as int] == owner);
            }
        }
        assert forall|k: int| 0 <= k < all.len() implies exists|i: int|
            0 <= i < destinations.len() && ledger.contains_key((#[trigger] destinations[i]).path@)
                && ledger[destinations[i].path@] == #[trigger] all[k] by {
            if k < before.len() {
                let i = choose|i: int|
                    0 <= i < shorter.len() && ledger.contains_key((#[trigger] shorter[i]).path@)
                        && ledger[shorter[i].path@] == before[k];
                assert(destinations[i].path@ == shorter[i].path@);
            } else {
                assert(ledger[destinations[last].path@] == all[k]);
            }
        }
        assert(all.no_duplicates()) by {
            assert forall|a: int, b: int| 0 <= a < all.len() && 0 <= b < all.len() && a != b implies all[a]
                != all[b] by {
                if a < before.len() && b < before.len() {
                    assert(before[a] != before[b]);
                } else if a < before.len() {
                    assert(before.contains(before[a]));
                } else if b < before.len() {
                    assert(before.contains(before[b]));
                }
            }
        }
    } else {
        assert(!any_owned(ledger, destinations));
    }
}

/// The records that an install adds: each path, owned by the package.
pub open spec fn tagged(paths: Seq<Seq<char>>, package: Seq<char>) -> Seq<(Seq<char>, Seq<char>)> {
    Seq::new(paths.len(), |i: int| (paths[i], package))
}

/// The table after `package` has taken the paths.
pub open spec fn added(
    ledger: Map<Seq<char>, Seq<char>>,
    paths: Seq<Seq<char>>,
    package: Seq<char>,
) -> Map<Seq<char>, Seq<char>> {
    Map::new(
        |p: Seq<char>| ledger.contains_key(p) || paths.contains(p),
        |p: Seq<char>|
            if paths.contains(p) {
                package
            } else {
                ledger[p]
            },
    )
}

/// The paths can be recorded: none is owned, none occurs twice.
pub open spec fn recordable(ledger: Map<Seq<char>, Seq<char>>, paths: Seq<Seq<char>>) -> bool {
    &&& paths.no_duplicates()
    &&& forall|i: int| 0 <= i < paths.len() ==> !ledger.contains_key(#[trigger] paths[i])
}

/// The manifest and the ledger agree: the package owns the listed paths and
/// no others.
pub open spec fn in_step(
    ledger: Map<Seq<char>, Seq<char>>,
    package: Seq<char>,
    paths: Seq<Seq<char>>,
) -> bool {
    forall|p: Seq<char>|
        paths.contains(p) <==> (#[trigger] ledger.contains_key(p) && ledger[p] == package)
}

/// The payload of an unpacked tree: the paths of its files and of its empty
/// directories, in the order of the listing. A directory that holds
/// something is not itself payload.
pub fn payload_paths(entries: &Vec<TreeEntry>) -> (paths: Vec<String>)
    ensures
        paths.deep_view() == payload_of(entries@),
{
    let mut paths: Vec<String> = Vec::new();
    let mut i: usize = 0;
    assert(entries@.take(0) =~= Seq::empty());
    while i < entries.len()
        invariant
            i <= entries.len(),
            paths.deep_view() == payload_of(entries@.take(i as int)),
        decreases entries.len() - i,
    {
        let ghost before = paths.deep_view();
        assert(entries@.take(i + 1).drop_last() =~= entries@.take(i as int));
        let keep = match entries[i].kind {
            EntryKind::File => true,
            EntryKind::EmptyDirectory => true,
            _ => false,
        };
        if keep {
            paths.push(entries[i].path.clone());
            assert(paths.deep_view() =~= before.push(entries[i as int].path@));
        }
        i += 1;
    }
    assert(entries@.take(i as int) =~= entries@);
    paths
}

/// Whether `item` is in `list`.
fn holds(list: &Vec<String>, item: &String) -> (found: bool)
    ensures
        found == list.deep_view().contains(item@),
{
    let mut i: usize = 0;
    while i < list.len()
        invariant
            i <= list.len(),
            forall|j: int| 0 <= j < i ==> list.deep_view()[j] != item@,
        decreases list.len() - i,
    {
        if list[i] == *item {
            assert(list.deep_view()[i as int] == item@);
            return true;
        }
        i += 1;
    }
    false
}

/// Checks every payload path against the ledger, then says what to copy.
///
/// If any path has an owner the plan is a conflict and carries no path: the
/// install stops before the install root or the ledger is touched. Otherwise
/// the plan lists the paths whose destination does not exist yet; what
/// exists already is left alone.
pub fn plan_install(ledger: &Ledger, destinations: &Vec<Destination>) -> (plan: InstallPlan)
    requires
        ledger.wf(),
    ensures
        match plan {
            InstallPlan::Conflict(owners) => any_owned(ledger@, destinations@)
                && owners.deep_view() == conflict_owners(ledger@, destinations@) && owners.len()
                > 0,
            InstallPlan::Copy(paths) => !any_owned(ledger@, destinations@) && paths.deep_view()
                == missing_of(destinations@),
        },
{
    let mut owners: Vec<String> = Vec::new();
    let mut missing: Vec<String> = Vec::new();
    let mut i: usize = 0;
    assert(destinations@.take(0) =~= Seq::empty());
    while i < destinations.len()
        invariant
            i <= destinations.len(),
            ledger.wf(),
            owners.deep_view() == conflict_owners(ledger@, destinations@.take(i as int)),
            missing.deep_view() == missing_of(destinations@.take(i as int)),
        decreases destinations.len() - i,
    {
        let ghost owners_before = owners.deep_view();
        let ghost missing_before = missing.deep_view();
        assert(destinations@.take(i + 1).drop_last() =~= destinations@.take(i as int));
        let entry = &destinations[i];
        match ledger.lookup_owner(entry.path.as_str()) {
            Some(owner) => {
                if !holds(&owners, &owner) {
                    owners.push(owner);
                    assert(owners.deep_view() =~= owners_before.push(owner@));
                }
            },
            None => {},
        }
        if !entry.exists {
            missing.push(entry.path.clone());
            assert(missing.deep_view() =~= missing_before.push(entry.path@));
        }
        i += 1;
    }
    assert(destinations@.take(i as int) =~= destinations@);
    proof {
        lemma_conflict_owners(ledger@, destinations@);
    }
    if owners.len() > 0 {
        InstallPlan::Conflict(owners)
    } else {
        InstallPlan::Copy(missing)
    }
}

/// Whether a manifest and the ledger agree: every listed path is owned by
/// the manifest's package, and the package owns nothing else.
pub fn manifest_in_step(ledger: &Ledger, manifest: &PackageManifest) -> (yes: bool)
    requires
        ledger.wf(),
    ensures
        yes == in_step(ledger@, manifest.package@, manifest.paths.deep_view()),
{
    let ghost listed = manifest.paths.deep_view();
    let ghost package = manifest.package@;
    let mut i: usize = 0;
    while i < manifest.paths.len()
        invariant
            i <= manifest.paths.len(),
            ledger.wf(),
            listed == manifest.paths.deep_view(),
            package == manifest.package@,
            forall|j: int|
                0 <= j < i ==> ledger@.contains_key(#[trigger] listed[j]) && ledger@[listed[j]]
                    == package,
        decreases manifest.paths.len() - i,
    {
        let ghost path = listed[i as int];
        let owned = match ledger.lookup_owner(manifest.paths[i].as_str()) {
            Some(owner) => owner == manifest.package,
            None => false,
        };
        if !owned {
            assert(listed.contains(path));
            assert(!(ledger@.contains_key(path) && ledger@[path] == package));
            return false;
        }
        i += 1;
    }
    let owned = ledger.paths_of(manifest.package.as_str());
    let mut k: usize = 0;
    while k < owned.len()
        invariant
            k <= owned.len(),
            ledger.wf(),
            listed == manifest.paths.deep_view(),
            package == manifest.package@,
            owned.deep_view() == owned_by(ledger.entries(), package),
            forall|j: int| 0 <= j < k ==> listed.contains(#[trigger] owned.deep_view()[j]),
        decreases owned.len() - k,
    {
        if !holds(&manifest.paths, &owned[k]) {
            let ghost path = owned.deep_view()[k as int];
            proof {
                assert(owned.deep_view().contains(path));
                lemma_owned_by(ledger.entries(), package, path);
            }
            return false;
        }
        k += 1;
    }
    proof {
        assert forall|p: Seq<char>|
            listed.contains(p) <==> (#[trigger] ledger@.contains_key(p) && ledger@[p]
                == package) by {
            lemma_owned_by(ledger.entries(), package, p);
            if ledger@.contains_key(p) && ledger@[p] == package {
                let j = choose|j: int|
                    0 <= j < owned.deep_view().len() && owned.deep_view()[j] == p;
                assert(listed.contains(owned.deep_view()[j]));
            }
            if listed.contains(p) {
                let j = choose|j: int| 0 <= j < listed.len() && listed[j] == p;
                assert(ledger@.contains_key(listed[j]));
            }
        }
    }
    true
}

/// The paths whose copy succeeded, in order.
fn copied_paths(results: &Vec<CopyResult>) -> (paths: Vec<String>)
    ensures
        paths.deep_view() == copied_of(results@),
{
    let mut paths: Vec<String> = Vec::new();
    let mut i: usize = 0;
    assert(results@.take(0) =~= Seq::empty());
    while i < results.len()
        invariant
            i <= results.len(),
            paths.deep_view() == copied_of(results@.take(i as int)),
        decreases results.len() - i,
    {
        let ghost before = paths.deep_view();
        assert(results@.take(i + 1).drop_last() =~= results@.take(i as int));
        if results[i].copied {
            paths.push(results[i].path.clone());
            assert(paths.deep_view() =~= before.push(results[i as int].path@));
        }
        i += 1;
    }
    assert(results@.take(i as int) =~= results@);
    paths
}

/// Whether the ledger can take the paths: none is owned, none occurs twice.
fn can_record(ledger: &Ledger, paths: &Vec<String>) -> (ok: bool)
    requires
        ledger.wf(),
    ensures
        ok == recordable(ledger@, paths.deep_view()),
{
    let ghost view = paths.deep_view();
    let mut i: usize = 0;
    while i < paths.len()
        invariant
            i <= paths.len(),
            ledger.wf(),
            view == paths.deep_view(),
            forall|j: int| 0 <= j < i ==> !ledger@.contains_key(#[trigger] view[j]),
            forall|a: int, b: int| 0 <= a < b < i ==> view[a] != view[b],
        decreases paths.len() - i,
    {
        if ledger.lookup_owner(paths[i].as_str()).is_some() {
            assert(ledger@.contains_key(view[i as int]));
            return false;
        }
        let mut j: usize = 0;
        while j < i
            invariant
                j <= i,
                i < paths.len(),
                view == paths.deep_view(),
                forall|a: int| 0 <= a < j ==> #[trigger] view[a] != view[i as int],
            decreases i - j,
        {
            if paths[j] == paths[i] {
                assert(view[j as int] == view[i as int]);
                return false;
            }
            j += 1;
        }
        i += 1;
    }
    true
}

/// Adding one more path to what a package has taken.
proof fn lemma_added_step(
    ledger: Map<Seq<char>, Seq<char>>,
    paths: Seq<Seq<char>>,
    i: int,
    package: Seq<char>,
)
    requires
        0 <= i < paths.len(),
    ensures
        added(ledger, paths.take(i + 1), package) == added(ledger, paths.take(i), package).insert(
            paths[i],
            package,
        ),
        tagged(paths.take(i + 1), package) == tagged(paths.take(i), package).push(
            (paths[i], package),
        ),
{
    let shorter = paths.take(i);
    let longer = paths.take(i + 1);
    assert(longer =~= shorter.push(paths[i]));
    assert forall|p: Seq<char>| longer.contains(p) <==> (shorter.contains(p) || p == paths[i]) by {
        if longer.contains(p) {
            let k = choose|k: int| 0 <= k < longer.len() && longer[k] == p;
            if k < i {
                assert(shorter[k] == p);
            }
        }
        if shorter.contains(p) {
            let k = choose|k: int| 0 <= k < shorter.len() && shorter[k] == p;
            assert(longer[k] == p);
        }
        if p == paths[i] {
            assert(longer[i] == p);
        }
    }
    assert(added(ledger, longer, package) =~= added(ledger, shorter, package).insert(
        paths[i],
        package,
    ));
    assert(tagged(longer, package) =~= tagged(shorter, package).push((paths[i], package)));
}

/// Records what an install copied.
///
/// Only the paths whose copy succeeded count. If there is none, nothing was
/// installed and nothing is recorded. Otherwise each of them is entered in
/// the ledger under `package`, and the manifest lists them. The ledger
/// refuses the whole list, and stays as it was, if one of the paths is owned
/// already or occurs twice.
pub fn record_install(ledger: &mut Ledger, package: &str, results: &Vec<CopyResult>) -> (result:
    Result<InstallOutcome, LedgerError>)
    requires
        old(ledger).wf(),
    ensures
        final(ledger).wf(),
        match result {
            Ok(InstallOutcome::NothingInstalled) => copied_of(results@).len() == 0 && final(ledger).entries() == old(ledger).entries(),
            Ok(InstallOutcome::Installed(manifest)) => {
                &&& copied_of(results@).len() > 0
                &&& recordable(old(ledger)@, copied_of(results@))
                &&& manifest.package@ == package@
                &&& manifest.paths.deep_view() == copied_of(results@)
                &&& final(ledger).entries() == old(ledger).entries() + tagged(
                    copied_of(results@),
                    package@,
                )
                &&& final(ledger)@ == added(old(ledger)@, copied_of(results@), package@)
            },
            Err(e) => e == LedgerError::AlreadyOwned && copied_of(results@).len() > 0
                && !recordable(old(ledger)@, copied_of(results@)) && final(ledger).entries()
                == old(ledger).entries(),
        },
{
    let paths = copied_paths(results);
    if paths.len() == 0 {
        return Ok(InstallOutcome::NothingInstalled);
    }
    if !can_record(ledger, &paths) {
        return Err(LedgerError::AlreadyOwned);
    }
    let ghost view = paths.deep_view();
    let mut i: usize = 0;
    proof {
        assert(view.take(0) =~= Seq::empty());
        assert(tagged(view.take(0), package@) =~= Seq::empty());
        assert(ledger.entries() + tagged(view.take(0), package@) =~= ledger.entries());
        assert(added(ledger@, view.take(0), package@) =~= ledger@);
    }
    while i < paths.len()
        invariant
            i <= paths.len(),
            view == paths.deep_view(),
            recordable(old(ledger)@, view),
            ledger.wf(),
            ledger.entries() == old(ledger).entries() + tagged(view.take(i as int), package@),
            ledger@ == added(old(ledger)@, view.take(i as int), package@),
        decreases paths.len() - i,
    {
        let ghost before = ledger.entries();
        proof {
            lemma_added_step(old(ledger)@, view, i as int, package@);
            assert(!ledger@.contains_key(view[i as int])) by {
                assert(!old(ledger)@.contains_key(view[i as int]));
                if view.take(i as int).contains(view[i as int]) {
                    let k = choose|k: int|
                        0 <= k < view.take(i as int).len() && view.take(i as int)[k] == view[i as int];
                    assert(view[k] == view[i as int]);
                }
            }
        }
        match ledger.insert(paths[i].clone(), package.to_string()) {
            Ok(()) => {},
            Err(e) => {
                assert(false);
                return Err(e);
            },
        }
        assert(ledger.entries() =~= old(ledger).entries() + tagged(
            view.take(i + 1),
            package@,
        ));
        i += 1;
    }
    assert(view.take(i as int) =~= view);
    Ok(InstallOutcome::Installed(PackageManifest { package: package.to_string(), paths }))
}

} // verus!
