use spu::archive::{archive_name, package_dir, package_id, UsageError};
use spu::install::{manifest_in_step, PackageManifest};
use spu::layout::{destination, ledger_path, manifest_dir, manifest_path};
use spu::ledger::Ledger;
use spu::report::{exit_code, removal_prompt, Failure, EXIT_SUCCESS};
use spu::session::{step, Action, Event, Stage};

fn strings(items: &[&str]) -> Vec<String> {
    items.iter().map(|s| s.to_string()).collect()
}

#[test]
fn exit_codes_are_nonzero_and_differ() {
    let kinds = [Failure::Usage, Failure::Validation, Failure::Conflict, Failure::Fatal];
    assert_eq!(EXIT_SUCCESS, 0);
    assert_eq!(exit_code(Failure::Usage), 1);
    assert_eq!(exit_code(Failure::Validation), 2);
    assert_eq!(exit_code(Failure::Conflict), 3);
    assert_eq!(exit_code(Failure::Fatal), 4);
    for a in 0..kinds.len() {
        assert_ne!(exit_code(kinds[a]), EXIT_SUCCESS);
        for b in (a + 1)..kinds.len() {
            assert_ne!(exit_code(kinds[a]), exit_code(kinds[b]));
        }
    }
}

#[test]
fn the_prompt_lists_each_package() {
    assert_eq!(
        removal_prompt(&strings(&["other-1.0", "old-2"])),
        "The following packages need to be removed:\n   other-1.0\n   old-2\nDo you want to continue? [y/n] : "
    );
    assert_eq!(
        removal_prompt(&vec![]),
        "The following packages need to be removed:\nDo you want to continue? [y/n] : "
    );
}

#[test]
fn an_archive_is_named_after_its_package() {
    assert_eq!(archive_name("tool-1.0"), "tool-1.0.sbp.tar.xz");
    assert_eq!(package_id(&archive_name("tool-1.0")), Ok("tool-1.0".to_string()));
    assert_eq!(package_id(&format!("/tmp/out/{}", archive_name("a.b"))), Ok("a.b".to_string()));
}

#[test]
fn a_source_archive_gives_the_package_directory() {
    assert_eq!(package_dir("tool-1.0.ssp.tar.xz"), Ok("tool-1.0.sbp".to_string()));
    assert_eq!(package_dir("/src/tool.ssp.tar.xz"), Ok("/src/tool.sbp".to_string()));
    assert_eq!(package_dir("tool.sbp.tar.xz"), Err(UsageError::WrongSuffix));
    assert_eq!(package_dir("tool"), Err(UsageError::WrongSuffix));
}

#[test]
fn everything_has_its_place_below_the_root() {
    assert_eq!(ledger_path("/stage"), "/stage/usr/spu/filedb");
    assert_eq!(manifest_dir("/stage"), "/stage/usr/spu/pkgs");
    assert_eq!(manifest_path("/stage", "tool-1.0"), "/stage/usr/spu/pkgs/tool-1.0");
    assert_eq!(destination("/stage", "usr/bin/tool"), "/stage/usr/bin/tool");
    assert_eq!(ledger_path("/"), "//usr/spu/filedb");
}

#[test]
fn paths_are_listed_by_owner() {
    let mut ledger = Ledger::new();
    ledger.insert("a".to_string(), "p".to_string()).unwrap();
    ledger.insert("b".to_string(), "q".to_string()).unwrap();
    ledger.insert("c".to_string(), "p".to_string()).unwrap();
    assert_eq!(ledger.paths_of("p"), strings(&["a", "c"]));
    assert_eq!(ledger.paths_of("q"), strings(&["b"]));
    assert_eq!(ledger.paths_of("r"), Vec::<String>::new());
}

#[test]
fn manifest_and_ledger_are_in_step_when_they_list_the_same() {
    let mut ledger = Ledger::new();
    ledger.insert("a".to_string(), "p".to_string()).unwrap();
    ledger.insert("b".to_string(), "q".to_string()).unwrap();
    ledger.insert("c".to_string(), "p".to_string()).unwrap();
    let manifest = |package: &str, paths: &[&str]| PackageManifest {
        package: package.to_string(),
        paths: strings(paths),
    };
    assert!(manifest_in_step(&ledger, &manifest("p", &["c", "a"])));
    assert!(manifest_in_step(&ledger, &manifest("q", &["b"])));
    assert!(manifest_in_step(&ledger, &manifest("r", &[])));
    assert!(!manifest_in_step(&ledger, &manifest("p", &["a"])));
    assert!(!manifest_in_step(&ledger, &manifest("p", &["a", "b", "c"])));
    assert!(!manifest_in_step(&ledger, &manifest("q", &["b", "x"])));
    assert!(!manifest_in_step(&ledger, &manifest("r", &["a"])));
}

#[test]
fn an_install_that_goes_through_ends_the_command() {
    assert_eq!(step(Stage::Installing, Event::Installed), (Stage::Done, Action::Exit(None)));
    assert_eq!(step(Stage::Retrying, Event::Installed), (Stage::Done, Action::Exit(None)));
}

#[test]
fn a_conflict_leads_to_the_question() {
    let owners = strings(&["other-1.0"]);
    assert_eq!(
        step(Stage::Installing, Event::Conflict(owners.clone())),
        (Stage::Asking(owners.clone()), Action::Ask(removal_prompt(&owners)))
    );
}

#[test]
fn only_a_yes_leads_to_the_removal() {
    let owners = strings(&["other-1.0", "old-2"]);
    assert_eq!(
        step(Stage::Asking(owners.clone()), Event::Answered(Some(true))),
        (Stage::Removing, Action::Remove(owners.clone()))
    );
    for answer in [Some(false), None] {
        assert_eq!(
            step(Stage::Asking(owners.clone()), Event::Answered(answer)),
            (Stage::Done, Action::Exit(Some(Failure::Conflict)))
        );
    }
    assert_eq!(step(Stage::Removing, Event::Removed), (Stage::Retrying, Action::Install));
}

#[test]
fn a_conflict_after_the_removal_is_fatal() {
    assert_eq!(
        step(Stage::Retrying, Event::Conflict(strings(&["other-1.0"]))),
        (Stage::Done, Action::Exit(Some(Failure::Fatal)))
    );
}

#[test]
fn an_event_out_of_place_is_fatal() {
    let fatal = (Stage::Done, Action::Exit(Some(Failure::Fatal)));
    assert_eq!(step(Stage::Installing, Event::Removed), fatal);
    assert_eq!(step(Stage::Installing, Event::Answered(Some(true))), fatal);
    assert_eq!(step(Stage::Asking(vec![]), Event::Installed), fatal);
    assert_eq!(step(Stage::Removing, Event::Installed), fatal);
    assert_eq!(step(Stage::Retrying, Event::Removed), fatal);
    assert_eq!(step(Stage::Done, Event::Installed), fatal);
}
