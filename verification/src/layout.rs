//! Where things are kept below the install root.

use vstd::prelude::*;

verus! {

/// The path of the ledger's backing store.
pub open spec fn ledger_path_of(root: Seq<char>) -> Seq<char> {
    root + "/usr/spu/filedb"@
}

/// The directory of the manifests.
pub open spec fn manifest_dir_of(root: Seq<char>) -> Seq<char> {
    root + "/usr/spu/pkgs"@
}

/// The path of the manifest of a package.
pub open spec fn manifest_path_of(root: Seq<char>, package: Seq<char>) -> Seq<char> {
    manifest_dir_of(root) + "/"@ + package
}

/// The place of a payload path below the install root.
pub open spec fn destination_of(root: Seq<char>, path: Seq<char>) -> Seq<char> {
    root + "/"@ + path
}

/// The path of the ledger's backing store.
pub fn ledger_path(root: &str) -> (path: String)
    ensures
        path@ == ledger_path_of(root@),
{
    let mut path = root.to_string();
    path.append("/usr/spu/filedb");
    path
}

/// The directory that holds one manifest per installed package.
pub fn manifest_dir(root: &str) -> (path: String)
    ensures
        path@ == manifest_dir_of(root@),
{
    let mut path = root.to_string();
    path.append("/usr/spu/pkgs");
    path
}

/// The path of the manifest of a package.
pub fn manifest_path(root: &str, package: &str) -> (path: String)
    ensures
        path@ == manifest_path_of(root@, package@),
{
    let mut path = manifest_dir(root);
    path.append("/");
    path.append(package);
    path
}

/// Where a payload path is installed.
pub fn destination(root: &str, relative: &str) -> (path: String)
    ensures
        path@ == destination_of(root@, relative@),
{
    let mut path = root.to_string();
    path.append("/");
    path.append(relative);
    path
}

} // verus!
