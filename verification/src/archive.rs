//! Package archives by name: the suffix that marks one, and the package
//! identifier that its name carries.

use vstd::prelude::*;
use crate::text::{chars_of, string_of};

verus! {

/// The name was not that of a package archive.
#[derive(Debug, Clone, Copy, PartialEq, Eq)]
pub enum UsageError {
    /// The archive's name does not end in the package suffix.
    WrongSuffix,
}

/// The suffix of a binary package archive.
pub open spec fn archive_suffix() -> Seq<char> {
    ".sbp.tar.xz"@
}

/// `text` ends in `suffix`.
pub open spec fn has_suffix(text: Seq<char>, suffix: Seq<char>) -> bool {
    text.len() >= suffix.len() && text.subrange(text.len() - suffix.len(), text.len() as int)
        == suffix
}

/// Where the last component of a path begins: behind its last slash, or at
/// the start if it has none.
pub open spec fn base_start(path: Seq<char>) -> int
    decreases path.len(),
{
    if path.len() == 0 {
        0
    } else if path.last() == '/' {
        path.len() as int
    } else {
        base_start(path.drop_last())
    }
}

/// The identifier of the package in the archive at `path`: the last
/// component of the path without the package suffix.
pub open spec fn package_id_of(path: Seq<char>) -> Seq<char> {
    path.subrange(base_start(path), path.len() - archive_suffix().len())
}

/// The suffix of a source package archive.
pub open spec fn source_suffix() -> Seq<char> {
    ".ssp.tar.xz"@
}

/// The suffix of the directory in which a binary package is put together.
pub open spec fn package_dir_suffix() -> Seq<char> {
    ".sbp"@
}

/// The directory in which the binary package of the source archive at `path`
/// is put together: the path with `.sbp` in place of the source suffix.
pub open spec fn package_dir_of(path: Seq<char>) -> Seq<char> {
    path.subrange(0, path.len() - source_suffix().len()) + package_dir_suffix()
}

/// The last component begins at `b` if a slash stands before `b` (or `b` is
/// the start) and none stands behind.
proof fn lemma_base_start(path: Seq<char>, b: int)
    requires
        0 <= b <= path.len(),
        b == 0 || path[b - 1] == '/',
        forall|j: int| b <= j < path.len() ==> path[j] != '/',
    ensures
        base_start(path) == b,
    decreases path.len(),
{
    if path.len() > 0 && b < path.len() {
        let shorter = path.drop_last();
        assert(path[path.len() - 1] != '/');
        assert forall|j: int| b <= j < shorter.len() implies shorter[j] != '/' by {
            assert(path[j] != '/');
        }
        lemma_base_start(shorter, b);
    }
}

/// Whether the last `suffix.len()` characters of `path` are `suffix`.
fn ends_with(path: &Vec<char>, suffix: &Vec<char>) -> (yes: bool)
    ensures
        yes == has_suffix(path@, suffix@),
{
    if path.len() < suffix.len() {
        return false;
    }
    let stem = path.len() - suffix.len();
    let mut i: usize = 0;
    while i < suffix.len()
        invariant
            i <= suffix.len(),
            stem + suffix.len() == path.len(),
            forall|j: int| 0 <= j < i ==> path[stem + j] == suffix[j],
        decreases suffix.len() - i,
    {
        if path[stem + i] != suffix[i] {
            assert(path@.subrange(stem as int, path.len() as int)[i as int] == path[stem + i]);
            return false;
        }
        i += 1;
    }
    assert(path@.subrange(stem as int, path.len() as int) =~= suffix@);
    true
}

/// Checks that `archive_path` names a package archive and gives the
/// package's identifier.
pub fn package_id(archive_path: &str) -> (result: Result<String, UsageError>)
    ensures
        match result {
            Ok(id) => has_suffix(archive_path@, archive_suffix()) && id@ == package_id_of(
                archive_path@,
            ),
            Err(e) => e == UsageError::WrongSuffix && !has_suffix(archive_path@, archive_suffix()),
        },
{
    let path = chars_of(archive_path);
    let suffix = chars_of(".sbp.tar.xz");
    proof {
        reveal_strlit(".sbp.tar.xz");
    }
    assert(suffix@.len() == 11);
    assert(forall|j: int| 0 <= j < suffix@.len() ==> suffix@[j] != '/');
    if !ends_with(&path, &suffix) {
        return Err(UsageError::WrongSuffix);
    }
    let stem = path.len() - suffix.len();
    assert forall|j: int| 0 <= j < suffix.len() implies path[stem + j] == suffix[j] by {
        assert(path@.subrange(stem as int, path.len() as int)[j] == suffix@[j]);
    }
    let mut start: usize = stem;
    while start > 0 && path[start - 1] != '/'
        invariant
            start <= stem,
            stem <= path.len(),
            forall|j: int| start <= j < stem ==> path[j] != '/',
        decreases start,
    {
        start -= 1;
    }
    proof {
        assert forall|j: int| start <= j < path.len() implies path[j] != '/' by {
            if j >= stem {
                assert(path[stem + (j - stem)] == suffix[j - stem]);
            }
        }
        lemma_base_start(path@, start as int);
    }
    Ok(string_of(&path, start, stem))
}

/// The name of the archive of package `id`.
pub fn archive_name(id: &str) -> (name: String)
    ensures
        name@ == id@ + archive_suffix(),
{
    let mut name = id.to_string();
    name.append(".sbp.tar.xz");
    name
}

/// Checks that `source_path` names a source package archive and gives the
/// directory in which its binary package is put together.
pub fn package_dir(source_path: &str) -> (result: Result<String, UsageError>)
    ensures
        match result {
            Ok(dir) => has_suffix(source_path@, source_suffix()) && dir@ == package_dir_of(
                source_path@,
            ),
            Err(e) => e == UsageError::WrongSuffix && !has_suffix(source_path@, source_suffix()),
        },
{
    let path = chars_of(source_path);
    let suffix = chars_of(".ssp.tar.xz");
    if !ends_with(&path, &suffix) {
        return Err(UsageError::WrongSuffix);
    }
    let mut dir = string_of(&path, 0, path.len() - suffix.len());
    dir.append(".sbp");
    Ok(dir)
}

/// An archive that is named after a package is recognised, and gives the
/// package's identifier back, provided the identifier holds no slash.
pub proof fn law_archive_name_round_trip(id: Seq<char>)
    requires
        forall|i: int| 0 <= i < id.len() ==> id[i] != '/',
    ensures
        has_suffix(id + archive_suffix(), archive_suffix()),
        package_id_of(id + archive_suffix()) == id,
{
    let name = id + archive_suffix();
    reveal_strlit(".sbp.tar.xz");
    assert(name.subrange(name.len() - archive_suffix().len(), name.len() as int)
        =~= archive_suffix());
    assert forall|j: int| 0 <= j < name.len() implies name[j] != '/' by {
        if j >= id.len() {
            assert(name[j] == archive_suffix()[j - id.len()]);
        }
    }
    lemma_base_start(name, 0);
    assert(name.subrange(0, name.len() - archive_suffix().len()) =~= id);
}

} // verus!
