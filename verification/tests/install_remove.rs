use spu::archive::{package_id, UsageError};
use spu::install::{
    payload_paths, plan_install, record_install, CopyResult, Destination, EntryKind, InstallOutcome,
    InstallPlan, PackageManifest, TreeEntry,
};
use spu::ledger::{Ledger, LedgerError};
use spu::remove::{deletion_for, release_paths, Deletion, NotRecorded, TargetKind};

fn entry(path: &str, kind: EntryKind) -> TreeEntry {
    TreeEntry { path: path.to_string(), kind }
}

fn dest(path: &str, exists: bool) -> Destination {
    Destination { path: path.to_string(), exists }
}

fn copy(path: &str, copied: bool) -> CopyResult {
    CopyResult { path: path.to_string(), copied }
}

fn strings(items: &[&str]) -> Vec<String> {
    items.iter().map(|s| s.to_string()).collect()
}

#[test]
fn package_id_is_the_name_without_the_suffix() {
    assert_eq!(package_id("tool-1.0.sbp.tar.xz"), Ok("tool-1.0".to_string()));
    assert_eq!(package_id("/tmp/build/tool-1.0.sbp.tar.xz"), Ok("tool-1.0".to_string()));
    assert_eq!(package_id("./tool.sbp.tar.xz"), Ok("tool".to_string()));
    assert_eq!(package_id("d\u{e9}p\u{f4}t/outil.sbp.tar.xz"), Ok("outil".to_string()));
}

#[test]
fn another_suffix_is_a_usage_error() {
    assert_eq!(package_id("tool-1.0.tar.xz"), Err(UsageError::WrongSuffix));
    assert_eq!(package_id("tool-1.0.ssp.tar.xz"), Err(UsageError::WrongSuffix));
    assert_eq!(package_id("sbp.tar.xz"), Err(UsageError::WrongSuffix));
    assert_eq!(package_id(""), Err(UsageError::WrongSuffix));
    assert_eq!(package_id("tool.sbp.tar.xz/"), Err(UsageError::WrongSuffix));
}

#[test]
fn files_and_empty_directories_are_payload() {
    let entries = vec![
        entry("usr", EntryKind::Directory),
        entry("usr/bin", EntryKind::Directory),
        entry("usr/bin/tool", EntryKind::File),
        entry("var/lib/tool", EntryKind::EmptyDirectory),
        entry("dev/null", EntryKind::Other),
        entry("etc/tool.conf", EntryKind::File),
    ];
    assert_eq!(payload_paths(&entries), strings(&["usr/bin/tool", "var/lib/tool", "etc/tool.conf"]));
    assert_eq!(payload_paths(&vec![]), Vec::<String>::new());
}

#[test]
fn one_owned_path_stops_the_whole_install() {
    let mut ledger = Ledger::new();
    ledger.insert("usr/bin/tool".to_string(), "other-2.0".to_string()).unwrap();
    let before = ledger.to_bytes().unwrap();
    let destinations =
        vec![dest("etc/tool.conf", false), dest("usr/bin/tool", false), dest("usr/lib/t.so", false)];
    let plan = plan_install(&ledger, &destinations);
    assert_eq!(plan, InstallPlan::Conflict(strings(&["other-2.0"])));
    assert_eq!(ledger.to_bytes().unwrap(), before);
}

#[test]
fn each_conflicting_owner_is_named_once() {
    let mut ledger = Ledger::new();
    ledger.insert("a".to_string(), "p".to_string()).unwrap();
    ledger.insert("b".to_string(), "q".to_string()).unwrap();
    ledger.insert("c".to_string(), "p".to_string()).unwrap();
    ledger.insert("d".to_string(), "r".to_string()).unwrap();
    let destinations =
        vec![dest("c", true), dest("x", false), dest("b", false), dest("a", false), dest("b", true)];
    assert_eq!(plan_install(&ledger, &destinations), InstallPlan::Conflict(strings(&["p", "q"])));
}

#[test]
fn only_missing_destinations_are_copied() {
    let ledger = Ledger::new();
    let destinations = vec![dest("a", false), dest("b", true), dest("c", false), dest("d", true)];
    assert_eq!(plan_install(&ledger, &destinations), InstallPlan::Copy(strings(&["a", "c"])));
    let all_there = vec![dest("a", true), dest("b", true)];
    assert_eq!(plan_install(&ledger, &all_there), InstallPlan::Copy(vec![]));
    assert_eq!(plan_install(&ledger, &vec![]), InstallPlan::Copy(vec![]));
}

#[test]
fn nothing_copied_means_nothing_installed() {
    let mut ledger = Ledger::new();
    ledger.insert("z".to_string(), "zed".to_string()).unwrap();
    let before = ledger.to_bytes().unwrap();
    assert_eq!(record_install(&mut ledger, "tool-1.0", &vec![]), Ok(InstallOutcome::NothingInstalled));
    let failed = vec![copy("a", false), copy("b", false)];
    assert_eq!(record_install(&mut ledger, "tool-1.0", &failed), Ok(InstallOutcome::NothingInstalled));
    assert_eq!(ledger.to_bytes().unwrap(), before);
}

#[test]
fn copied_paths_are_recorded_and_failed_ones_are_not() {
    let mut ledger = Ledger::new();
    let results = vec![copy("a", true), copy("b", false), copy("c", true)];
    let outcome = record_install(&mut ledger, "tool-1.0", &results).unwrap();
    assert_eq!(
        outcome,
        InstallOutcome::Installed(PackageManifest {
            package: "tool-1.0".to_string(),
            paths: strings(&["a", "c"]),
        })
    );
    assert_eq!(ledger.len(), 2);
    assert_eq!(ledger.lookup_owner("a"), Some("tool-1.0".to_string()));
    assert_eq!(ledger.lookup_owner("b"), None);
    assert_eq!(ledger.lookup_owner("c"), Some("tool-1.0".to_string()));
}

#[test]
fn recording_an_owned_or_repeated_path_is_refused_whole() {
    let mut ledger = Ledger::new();
    ledger.insert("b".to_string(), "other".to_string()).unwrap();
    let before = ledger.to_bytes().unwrap();
    let owned = vec![copy("a", true), copy("b", true)];
    assert_eq!(record_install(&mut ledger, "tool", &owned), Err(LedgerError::AlreadyOwned));
    assert_eq!(ledger.to_bytes().unwrap(), before);
    let twice = vec![copy("a", true), copy("c", true), copy("a", true)];
    assert_eq!(record_install(&mut ledger, "tool", &twice), Err(LedgerError::AlreadyOwned));
    assert_eq!(ledger.to_bytes().unwrap(), before);
    assert_eq!(ledger.lookup_owner("a"), None);
}

#[test]
fn installing_again_is_a_conflict_with_oneself() {
    let mut ledger = Ledger::new();
    let first = vec![dest("a", false), dest("b", true), dest("c", false)];
    let to_copy = match plan_install(&ledger, &first) {
        InstallPlan::Copy(paths) => paths,
        InstallPlan::Conflict(_) => panic!("no path is owned yet"),
    };
    let results: Vec<CopyResult> = to_copy.iter().map(|p| copy(p, true)).collect();
    record_install(&mut ledger, "tool-1.0", &results).unwrap();
    let after_first = ledger.to_bytes().unwrap();
    let second = vec![dest("a", true), dest("b", true), dest("c", true)];
    assert_eq!(plan_install(&ledger, &second), InstallPlan::Conflict(strings(&["tool-1.0"])));
    assert_eq!(ledger.to_bytes().unwrap(), after_first);
}

#[test]
fn installing_again_where_all_exists_installs_nothing_again() {
    let mut ledger = Ledger::new();
    let before = ledger.to_bytes().unwrap();
    let destinations = vec![dest("a", true), dest("b", true)];
    for _ in 0..2 {
        let to_copy = match plan_install(&ledger, &destinations) {
            InstallPlan::Copy(paths) => paths,
            InstallPlan::Conflict(_) => panic!("no path is owned"),
        };
        assert!(to_copy.is_empty());
        let results: Vec<CopyResult> = to_copy.iter().map(|p| copy(p, true)).collect();
        assert_eq!(record_install(&mut ledger, "tool-1.0", &results), Ok(InstallOutcome::NothingInstalled));
        assert_eq!(ledger.to_bytes().unwrap(), before);
    }
}

#[test]
fn remove_after_install_leaves_the_ledger_as_before() {
    let mut ledger = Ledger::new();
    ledger.insert("etc/other.conf".to_string(), "other-1".to_string()).unwrap();
    let before = ledger.to_bytes().unwrap();
    let destinations = vec![dest("usr/bin/tool", false), dest("etc/shared", true), dest("usr/lib/t.so", false)];
    let to_copy = match plan_install(&ledger, &destinations) {
        InstallPlan::Copy(paths) => paths,
        InstallPlan::Conflict(_) => panic!("no path is owned"),
    };
    assert_eq!(to_copy, strings(&["usr/bin/tool", "usr/lib/t.so"]));
    let results: Vec<CopyResult> = to_copy.iter().map(|p| copy(p, true)).collect();
    let manifest = match record_install(&mut ledger, "tool-1.0", &results).unwrap() {
        InstallOutcome::Installed(m) => m,
        InstallOutcome::NothingInstalled => panic!("two paths were copied"),
    };
    assert_eq!(manifest.paths, strings(&["usr/bin/tool", "usr/lib/t.so"]));
    assert!(!manifest.paths.contains(&"etc/shared".to_string()));
    assert_eq!(release_paths(&mut ledger, &manifest.paths), Ok(()));
    assert_eq!(ledger.lookup_owner("usr/bin/tool"), None);
    assert_eq!(ledger.lookup_owner("usr/lib/t.so"), None);
    assert_eq!(ledger.lookup_owner("etc/other.conf"), Some("other-1".to_string()));
    assert_eq!(ledger.to_bytes().unwrap(), before);
}

#[test]
fn release_stops_at_the_first_path_the_ledger_does_not_hold() {
    let mut ledger = Ledger::new();
    ledger.insert("a".to_string(), "p".to_string()).unwrap();
    ledger.insert("b".to_string(), "p".to_string()).unwrap();
    ledger.insert("c".to_string(), "p".to_string()).unwrap();
    assert_eq!(
        release_paths(&mut ledger, &strings(&["a", "x", "b"])),
        Err(NotRecorded { index: 1 })
    );
    assert_eq!(ledger.lookup_owner("a"), None);
    assert_eq!(ledger.lookup_owner("b"), Some("p".to_string()));
    assert_eq!(ledger.len(), 2);
}

#[test]
fn a_path_listed_twice_cannot_be_released_twice() {
    let mut ledger = Ledger::new();
    ledger.insert("a".to_string(), "p".to_string()).unwrap();
    ledger.insert("b".to_string(), "p".to_string()).unwrap();
    assert_eq!(
        release_paths(&mut ledger, &strings(&["a", "b", "a"])),
        Err(NotRecorded { index: 2 })
    );
    assert_eq!(ledger.len(), 0);
}

#[test]
fn releasing_nothing_changes_nothing() {
    let mut ledger = Ledger::new();
    ledger.insert("a".to_string(), "p".to_string()).unwrap();
    assert_eq!(release_paths(&mut ledger, &vec![]), Ok(()));
    assert_eq!(ledger.len(), 1);
}

#[test]
fn deletion_follows_what_is_found() {
    assert_eq!(deletion_for(TargetKind::Directory), Deletion::Tree);
    assert_eq!(deletion_for(TargetKind::File), Deletion::File);
    assert_eq!(deletion_for(TargetKind::Missing), Deletion::Skip);
}
