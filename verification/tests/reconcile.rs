use mpm::manager::get;
use mpm::manager::brew::Brew;
use mpm::manager::cargo::Cargo;
use mpm::manager::{AnyManager, ALL};
use mpm::manager::arch::Arch;
use mpm::manifest::grammar::PackageSpec;
use mpm::package_map::PackageMap;
use mpm::presentation::{bold, dim, problem, render, summarize};
use mpm::reconcile::{archive_query, compute, pinned_entries, validate, Reconciliation, Repin, ValidateError};

fn map(specs: &[PackageSpec]) -> PackageMap {
    PackageMap::from_specs(&specs.to_vec())
}

fn changes_of(declared: &[PackageSpec], installed: &[PackageSpec], pinning: bool) -> Reconciliation {
    compute("test", &map(declared), &map(installed), pinning)
}

#[test]
fn matching_state_is_quiet() {
    let changes = changes_of(&[PackageSpec::new("vim")], &[PackageSpec::new("vim")], false);
    assert!(!changes.has_work());
    assert!(!changes.has_work());
}

#[test]
fn declared_but_missing_is_installed() {
    let changes = changes_of(&[PackageSpec::new("vim")], &[], false);
    assert_eq!(changes.install, vec![PackageSpec::new("vim")]);
    assert!(changes.remove.is_empty());
}

#[test]
fn installed_but_undeclared_is_removed() {
    let changes = changes_of(&[], &[PackageSpec::new("nano")], false);
    assert_eq!(changes.remove, vec!["nano"]);
    assert!(changes.install.is_empty());
}

#[test]
fn a_pin_mismatch_is_a_repin() {
    let changes = changes_of(
        &[PackageSpec::pinned("ripgrep", "14.1.0")],
        &[PackageSpec::pinned("ripgrep", "14.0.0")],
        true,
    );
    assert_eq!(
        changes.repin,
        vec![Repin { spec: PackageSpec::pinned("ripgrep", "14.1.0"), installed: "14.0.0".into() }]
    );
    assert!(changes.install.is_empty());
    assert!(changes.remove.is_empty());
}

#[test]
fn a_satisfied_pin_is_no_work() {
    let changes = changes_of(
        &[PackageSpec::pinned("ripgrep", "14.1.0")],
        &[PackageSpec::pinned("ripgrep", "14.1.0")],
        true,
    );
    assert!(!changes.has_work());
}

#[test]
fn an_unknown_installed_version_is_assumed_satisfied() {
    let changes =
        changes_of(&[PackageSpec::pinned("ripgrep", "14.1.0")], &[PackageSpec::new("ripgrep")], true);
    assert!(!changes.has_work());
}

#[test]
fn repins_are_installed_alongside_new_packages() {
    let changes = changes_of(
        &[PackageSpec::new("bat"), PackageSpec::pinned("ripgrep", "14.1.0")],
        &[PackageSpec::pinned("ripgrep", "14.0.0")],
        true,
    );
    assert_eq!(
        changes.to_install(),
        vec![PackageSpec::new("bat"), PackageSpec::pinned("ripgrep", "14.1.0")]
    );
}

#[test]
fn output_is_ordered_not_hash_ordered() {
    let declared = [PackageSpec::new("zsh"), PackageSpec::new("bat"), PackageSpec::new("micro")];
    let first = changes_of(&declared, &[], false);
    let second = changes_of(&declared, &[], false);
    assert_eq!(first.install, second.install);
    assert_eq!(
        first.install,
        vec![PackageSpec::new("bat"), PackageSpec::new("micro"), PackageSpec::new("zsh")]
    );
}

#[test]
fn a_manager_that_cannot_pin_never_repins() {
    let changes = changes_of(
        &[PackageSpec::pinned("ripgrep", "14.1.0")],
        &[PackageSpec::pinned("ripgrep", "14.0.0")],
        false,
    );
    assert!(!changes.has_work());
}

#[test]
fn a_later_entry_replaces_an_earlier_one() {
    let m = map(&[PackageSpec::pinned("vim", "1"), PackageSpec::new("bat"), PackageSpec::pinned("vim", "2")]);
    assert_eq!(m.len(), 2);
    assert_eq!(m.get("vim"), Some(&PackageSpec::pinned("vim", "2")));
    assert!(m.contains_key("bat"));
    assert!(!m.contains_key("zsh"));
    assert_eq!(m.entries(), &vec![PackageSpec::new("bat"), PackageSpec::pinned("vim", "2")]);
}

#[test]
fn applying_a_plan_leaves_nothing_to_do() {
    let declared = [PackageSpec::new("bat"), PackageSpec::pinned("ripgrep", "14.1.0")];
    let before = [PackageSpec::pinned("ripgrep", "14.0.0"), PackageSpec::new("nano")];
    let changes = changes_of(&declared, &before, true);
    assert_eq!(changes.remove, vec!["nano"]);
    // After installing what the plan installs and removing what it removes:
    let after = [PackageSpec::new("bat"), PackageSpec::pinned("ripgrep", "14.1.0")];
    assert!(!changes_of(&declared, &after, true).has_work());
}

#[test]
fn pinned_entries_are_listed_in_name_order() {
    let m = map(&[PackageSpec::pinned("zsh", "5"), PackageSpec::new("bat"), PackageSpec::pinned("fd", "9")]);
    assert_eq!(pinned_entries(&m), vec![PackageSpec::pinned("fd", "9"), PackageSpec::pinned("zsh", "5")]);
}

// ------------------------------------------------------------------ validation

#[test]
fn a_pin_on_a_manager_that_cannot_pin_is_an_error() {
    let brew = get("brew").expect("brew");
    let error = validate(&brew, &map(&[PackageSpec::pinned("ripgrep", "14.1.0")]), None).expect_err("must reject");
    assert!(error.to_string().contains("cannot install a specific version"));
}

#[test]
fn a_pin_on_a_manager_that_can_pin_is_accepted() {
    let cargo = get("cargo").expect("cargo");
    validate(&cargo, &map(&[PackageSpec::pinned("ripgrep", "14.1.0")]), None).expect("accepted");
}

#[test]
fn a_versioned_formula_plus_a_pin_is_a_contradiction() {
    let brew = get("brew").expect("brew");
    let error = validate(&brew, &map(&[PackageSpec::pinned("node@20", "20.11.0")]), None).expect_err("must reject");
    assert!(error.to_string().contains("already selects a version"));
}

#[test]
fn a_versioned_formula_alone_is_fine() {
    let brew = get("brew").expect("brew");
    validate(&brew, &map(&[PackageSpec::new("node@20")]), None).expect("accepted");
}

#[test]
fn unpinned_entries_are_always_fine() {
    for id in ALL {
        let manager = get(id).expect("registered");
        if let Err(error) = validate(&manager, &map(&[PackageSpec::new("vim")]), None) {
            panic!("`{id}` rejected an unpinned package: {}", error.to_string());
        }
    }
}

#[test]
fn every_problem_is_reported_at_once() {
    let brew = get("brew").expect("brew");
    let error = validate(
        &brew,
        &map(&[PackageSpec::pinned("ripgrep", "14.1.0"), PackageSpec::pinned("bat", "0.24.0")]),
        None,
    )
    .expect_err("must reject");
    assert!(error.to_string().contains("ripgrep"));
    assert!(error.to_string().contains("bat"));
}

#[test]
fn a_problem_reads_as_a_sentence() {
    let error = validate(&AnyManager::Brew(Brew), &map(&[PackageSpec::pinned("ripgrep", "14.1.0")]), None)
        .expect_err("must reject");
    assert!(matches!(&error, ValidateError::Pins(p) if p.problems.len() == 1));
    assert_eq!(
        error.to_string(),
        "`ripgrep 14.1.0`: brew cannot install a specific version -- declare `ripgrep` alone"
    );
    validate(&AnyManager::Cargo(Cargo), &map(&[]), None).expect("nothing declared");
}

// ------------------------------------------------------------------ presentation

fn changes() -> Reconciliation {
    Reconciliation {
        manager: "pacman".into(),
        install: vec![PackageSpec::new("ripgrep")],
        repin: vec![Repin { spec: PackageSpec::pinned("bat", "0.24.0"), installed: "0.23.0".into() }],
        remove: vec!["nano".into()],
    }
}

#[test]
fn a_clean_plan_renders_nothing() {
    let quiet = Reconciliation { manager: "pacman".into(), ..Reconciliation::default() };
    assert!(render(&quiet, false).is_empty());
}

#[test]
fn every_bucket_appears_in_the_rendering() {
    let text = render(&changes(), false);
    assert!(text.contains("ripgrep"));
    assert!(text.contains("bat 0.24.0"));
    assert!(text.contains("installed 0.23.0"));
    assert!(text.contains("nano"));
}

#[test]
fn the_summary_counts_each_bucket() {
    let text = summarize(&[changes()], false);
    assert!(text.contains("1 to install"));
    assert!(text.contains("1 to change"));
    assert!(text.contains("1 to remove"));
}

#[test]
fn a_clean_summary_says_so() {
    let quiet = Reconciliation { manager: "pacman".into(), ..Reconciliation::default() };
    assert!(summarize(&[quiet], false).contains("everything matches"));
}

#[test]
fn the_rendering_is_exact() {
    assert_eq!(
        render(&changes(), false),
        "pacman\n  + ripgrep\n  ~ bat 0.24.0 (installed 0.23.0)\n  - nano\n"
    );
    assert_eq!(summarize(&[changes(), changes()], false), "2 to install, 2 to change, 2 to remove");
    assert_eq!(summarize(&[], false), "everything matches your manifests");
}

#[test]
fn colour_wraps_text_in_escape_codes() {
    assert_eq!(bold("x", true), "\u{1b}[1mx\u{1b}[0m");
    assert_eq!(dim("x", true), "\u{1b}[2mx\u{1b}[0m");
    assert_eq!(problem("x", true), "\u{1b}[33mx\u{1b}[0m");
    assert_eq!(bold("x", false), "x");
    assert_eq!(
        render(&changes(), true),
        "\u{1b}[1mpacman\u{1b}[0m\n  \u{1b}[32m+\u{1b}[0m ripgrep\n  \u{1b}[33m~\u{1b}[0m bat 0.24.0 \u{1b}[2m(installed 0.23.0)\u{1b}[0m\n  \u{1b}[31m-\u{1b}[0m nano\n"
    );
}

const SI_RIPGREP: &str = "Repository      : extra\nName            : ripgrep\nArchitecture    : x86_64\n";

#[test]
fn a_pin_the_archive_cannot_supply_is_refused() {
    let pacman = AnyManager::Arch(Arch);
    let declared = map(&[PackageSpec::pinned("ripgrep", "14.1.0-1"), PackageSpec::pinned("my-aur-tool", "1.0")]);
    let query = archive_query(&pacman, &declared);
    assert_eq!(query, vec![PackageSpec::pinned("my-aur-tool", "1.0"), PackageSpec::pinned("ripgrep", "14.1.0-1")]);
    let error = validate(&pacman, &declared, Some(SI_RIPGREP)).expect_err("must refuse");
    assert!(matches!(&error, ValidateError::Unarchived(u) if u.missing == vec!["my-aur-tool".to_string()]));
    assert!(error.to_string().starts_with("no archived build exists for my-aur-tool"));

    let known = map(&[PackageSpec::pinned("ripgrep", "14.1.0-1"), PackageSpec::new("vim")]);
    validate(&pacman, &known, Some(SI_RIPGREP)).expect("archived");
}

#[test]
fn no_archive_query_is_owed_without_pacman_pins() {
    let pacman = AnyManager::Arch(Arch);
    assert!(archive_query(&pacman, &map(&[PackageSpec::new("vim")])).is_empty());
    let brew = get("brew").expect("brew");
    assert!(archive_query(&brew, &map(&[PackageSpec::pinned("vim", "9")])).is_empty());
    let cargo = get("cargo").expect("cargo");
    assert!(archive_query(&cargo, &map(&[PackageSpec::pinned("bat", "1")])).is_empty());
}
