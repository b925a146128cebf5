use mpm::commands::{
    accepts, adopt_into, apply_step, consent, next_command, ApplyStep, check_pin_request, failure_report, commands_for, edit_manifest, indent, manager_row, needs_root,
    nothing_managed, parse_specs, pin, pin_to_installed, pin_versions, queue_commands, reconcile_manager,
    require, require_present, select, status_drifted, status_footer, to_declare, unmatched_host, unpin_in,
    ApplyOpts, CommandError, Ctx, Edit,
};
use mpm::invocation::Invocation;
use mpm::manager::arch::{Arch, RepoLookup};
use mpm::manager::brew::Brew;
use mpm::manager::cargo::Cargo;
use mpm::manager::AnyManager;
use mpm::manifest::file::ManifestFile;
use mpm::manifest::grammar::PackageSpec;
use mpm::manifest::Layout;
use mpm::package_map::PackageMap;
use mpm::reconcile::{Reconciliation, Repin, ValidateError};

fn declared(common: &str, host: Option<&str>) -> PackageMap {
    Layout::at("/cfg")
        .resolve("brew", "testbox", &[Some(common.to_string()), host.map(|h| h.to_string())])
        .expect("resolves")
        .declared
}

/// Reconcile Homebrew, which lists `name version` and cannot pin.
fn run(common: &str, host: Option<&str>, listing: &str) -> Result<Reconciliation, ValidateError> {
    reconcile_manager(&AnyManager::Brew(Brew), &declared(common, host), None, listing)
}

#[test]
fn drift_is_computed_from_the_real_read_path() {
    let changes = run("ripgrep\nvim\n", None, "vim 9.1\nnano 8.0\n").expect("reconciles");
    assert_eq!(changes.install, vec![PackageSpec::new("ripgrep")]);
    assert_eq!(changes.remove, vec!["nano"]);
}

#[test]
fn a_declared_package_is_never_a_removal_candidate() {
    let changes = run("nano\n", None, "nano 8.0\nbat 0.24\n").expect("reconciles");
    assert_eq!(changes.remove, vec!["bat"]);
}

#[test]
fn the_host_layer_adds_to_the_shared_one() {
    let changes = run("vim\n", Some("tlp\n"), "vim 9.1\ntlp 1.6\n").expect("reconciles");
    assert!(!changes.has_work(), "both layers count as declared");
}

#[test]
fn an_unhonourable_version_stops_the_manager_before_any_work() {
    let error = run("ripgrep 14.1.0\n", None, "").expect_err("must refuse");
    assert!(error.to_string().contains("cannot install a specific version"));
}

#[test]
fn a_version_mismatch_becomes_a_repin() {
    // pacman lists `name version` too, and can pin.
    let si = "Name : ripgrep\nArchitecture : x86_64\n";
    let changes = reconcile_manager(&AnyManager::Arch(Arch), &declared("ripgrep 14.1.0\n", None), Some(si), "ripgrep 14.0.0\n")
        .expect("reconciles");
    assert_eq!(changes.repin.len(), 1);
    assert_eq!(changes.repin[0].installed, "14.0.0");
}

#[test]
fn declaring_appends_and_is_idempotent() {
    let mut manifest = ManifestFile::load("/cfg/cargo", Some("# tools\nvim\n")).expect("load");
    let specs = [PackageSpec::new("bat"), PackageSpec::new("vim")];
    let added = edit_manifest(&mut manifest, &specs, Edit::Declare);
    assert_eq!(added, vec![PackageSpec::new("bat")], "vim was already declared");
    assert_eq!(manifest.text(), "# tools\nvim\nbat\n");

    let again = edit_manifest(&mut manifest, &[PackageSpec::new("bat")], Edit::Declare);
    assert!(again.is_empty());
}

#[test]
fn withdrawing_removes_only_the_named_entry() {
    let mut manifest = ManifestFile::load("/cfg/cargo", Some("# tools\nvim\nbat\n")).expect("load");
    let removed = edit_manifest(&mut manifest, &[PackageSpec::new("bat")], Edit::Withdraw);
    assert_eq!(removed, vec![PackageSpec::new("bat")]);
    assert_eq!(manifest.text(), "# tools\nvim\n");
}

#[test]
fn a_malformed_package_argument_is_rejected() {
    let error = parse_specs(&["ripgrep 14.1.0 oops".into()]).expect_err("must reject");
    assert!(error.to_string().contains("<name> <version>"));
}

#[test]
fn nothing_needing_root_asks_for_nothing() {
    let queued = vec![("cargo".to_string(), vec![Invocation::new("true")])];
    assert!(!needs_root(&queued), "no elevation, no prompt");
    let elevated = vec![
        ("cargo".to_string(), vec![Invocation::new("true")]),
        ("pacman".to_string(), vec![Invocation::new("pacman").as_root()]),
    ];
    assert!(needs_root(&elevated));
}

#[test]
fn transcripts_are_indented_under_their_manager() {
    assert_eq!(indent("one\ntwo\n"), "    one\n    two\n");
    assert_eq!(indent(""), "");
}

#[test]
fn pinning_records_the_installed_version() {
    let pinned = pin_to_installed(
        &AnyManager::Arch(Arch),
        &[PackageSpec::new("ripgrep")],
        true,
        "ripgrep 14.0.0-1\nbat 0.24.0-1\n",
    )
    .expect("pins");
    assert_eq!(pinned, vec![PackageSpec::pinned("ripgrep", "14.0.0-1")]);
}

#[test]
fn pinning_what_is_not_installed_is_an_error() {
    let error = pin_to_installed(&AnyManager::Arch(Arch), &[PackageSpec::new("nano")], true, "ripgrep 14.0.0-1\n")
        .expect_err("must reject");
    assert!(error.to_string().contains("not installed"));
}

#[test]
fn pinning_a_manager_that_cannot_pin_is_an_error() {
    let error = pin_to_installed(&AnyManager::Brew(Brew), &[PackageSpec::new("ripgrep")], true, "ripgrep 14.0.0-1\n")
        .expect_err("must reject");
    assert!(error.to_string().contains("nothing to pin"));
}

#[test]
fn pinning_something_already_versioned_is_a_contradiction() {
    let error = pin_to_installed(
        &AnyManager::Arch(Arch),
        &[PackageSpec::pinned("ripgrep", "13.0.0-1")],
        true,
        "ripgrep 14.0.0-1\n",
    )
    .expect_err("must reject");
    assert!(error.to_string().contains("already names a version"));
}

// ------------------------------------------------------------------ more of the same

#[test]
fn pinning_needs_the_manager_on_this_machine() {
    let error = check_pin_request(&AnyManager::Arch(Arch), &[PackageSpec::new("ripgrep")], false)
        .expect_err("must reject");
    assert_eq!(error.to_string(), "`pacman` is not installed on this machine, so no version can be read");
    check_pin_request(&AnyManager::Arch(Arch), &[PackageSpec::new("ripgrep")], true).expect("fine");
}

#[test]
fn a_listing_without_versions_cannot_pin() {
    let error = pin_versions(&AnyManager::Arch(Arch), &[PackageSpec::new("vim")], "vim\n").expect_err("no version");
    assert_eq!(error.to_string(), "`pacman` does not report a version for `vim`");
}

#[test]
fn pin_and_add_declare_what_they_were_given() {
    let pinned = pin(&AnyManager::Cargo(Cargo), &["ripgrep".to_string()], true, "ripgrep v14.1.0:\n    rg\n")
        .expect("pins");
    assert_eq!(pinned, vec![PackageSpec::pinned("ripgrep", "14.1.0")]);
    let plain = to_declare(&AnyManager::Brew(Brew), &["vim".to_string(), "bat 1.0".to_string()], false, false, "")
        .expect("parses");
    assert_eq!(plain, vec![PackageSpec::new("vim"), PackageSpec::pinned("bat", "1.0")]);
    let none = to_declare(&AnyManager::Brew(Brew), &[], false, false, "").expect_err("needs a package");
    assert_eq!(none.to_string(), "name at least one package");
}

#[test]
fn the_first_bad_argument_is_the_error() {
    let error = parse_specs(&["vim".into(), "-x".into(), "a b c".into()]).expect_err("must reject");
    assert_eq!(
        error.to_string(),
        "a package is written `<name>` or, quoted, `<name> <version>`: `-x`: a package name cannot start with `-`"
    );
}

#[test]
fn an_unknown_manager_is_named() {
    let error = require("fisher").expect_err("unknown");
    assert_eq!(error.to_string(), "unknown package manager `fisher` (see `mpm managers`)");
    assert!(matches!(require("cargo"), Ok(AnyManager::Cargo(_))));
    assert!(matches!(require_present("fisher"), Err(CommandError::UnknownManager { .. })));
}

#[test]
fn selection_follows_presence_and_management() {
    let here = [true, false, true, true, false, false, true];
    let managed = [true, true, false, true, true, false, false];
    assert_eq!(select(None, &here, &managed).expect("selects"), vec!["pacman", "cargo"]);
    let absent = select(Some("brew"), &[false; 7], &managed).expect_err("absent");
    assert_eq!(absent.to_string(), "`brew` is not installed on this machine");
    let present = select(Some("brew"), &[true, false, false, false, false, false, false], &[false; 7]);
    assert_eq!(present.expect("present"), vec!["brew"]);
    assert!(matches!(select(Some("nope"), &[true; 7], &managed), Err(CommandError::UnknownManager { .. })));
}

#[test]
fn adoption_adds_bare_names_that_no_layer_declares() {
    let mut manifest = ManifestFile::load("/cfg/brew", Some("# mine\nvim 9.0\n")).expect("load");
    let layers = PackageMap::from_specs(&vec![PackageSpec::new("git")]);
    let installed = PackageMap::from_specs(&vec![
        PackageSpec::pinned("zsh", "5.9"),
        PackageSpec::pinned("git", "2.46"),
        PackageSpec::pinned("vim", "9.1"),
        PackageSpec::pinned("bat", "0.24"),
    ]);
    let (added, save) = adopt_into(&mut manifest, &layers, &installed);
    // `vim` is already declared in this file at a version: adoption never
    // rewrites a version, and never adds one.
    assert_eq!(added, vec!["bat", "vim", "zsh"]);
    assert!(save);
    assert_eq!(manifest.text(), "# mine\nvim\nbat\nzsh\n");

    let mut fresh = ManifestFile::load("/cfg/apt", None).expect("load");
    let (added, save) = adopt_into(&mut fresh, &layers, &PackageMap::new());
    assert!(added.is_empty());
    assert!(save, "a new file is written even when empty");
}

#[test]
fn unpinning_never_introduces_a_package() {
    let mut manifest = ManifestFile::load("/cfg/cargo", Some("ripgrep 14.1.0  # locked\nbat\n")).expect("load");
    let (changed, notes) =
        unpin_in(&mut manifest, &[PackageSpec::new("ripgrep"), PackageSpec::new("fd"), PackageSpec::new("bat")]);
    assert_eq!(changed, vec!["ripgrep"]);
    assert_eq!(notes, vec!["fd"]);
    assert_eq!(manifest.text(), "ripgrep  # locked\nbat\n");
}

#[test]
fn a_plan_becomes_installs_then_removals() {
    let changes = Reconciliation {
        manager: "cargo".into(),
        install: vec![PackageSpec::new("bat")],
        repin: vec![Repin { spec: PackageSpec::pinned("ripgrep", "14.1.0"), installed: "14.0.0".into() }],
        remove: vec!["nano".into()],
    };
    let commands = commands_for(&changes, &[]).expect("builds");
    let args: Vec<Vec<String>> = commands.iter().map(|c| c.args.clone()).collect();
    assert_eq!(
        args,
        vec![
            vec!["install".to_string(), "bat".to_string()],
            vec!["install".to_string(), "ripgrep".to_string(), "--version".to_string(), "14.1.0".to_string()],
            vec!["uninstall".to_string(), "nano".to_string()],
        ]
    );
    let unknown = Reconciliation { manager: "fisher".into(), ..Reconciliation::default() };
    assert!(matches!(commands_for(&unknown, &[]), Err(CommandError::UnknownManager { .. })));
}

#[test]
fn an_unobtainable_pin_refuses_the_whole_run() {
    let cargo = Reconciliation { manager: "cargo".into(), install: vec![PackageSpec::new("bat")], ..Reconciliation::default() };
    let clean = Reconciliation { manager: "brew".into(), ..Reconciliation::default() };
    let pacman = Reconciliation {
        manager: "pacman".into(),
        install: vec![PackageSpec::pinned("my-aur-tool", "1.0")],
        ..Reconciliation::default()
    };
    let queued = queue_commands(&[cargo, clean], &[vec![], vec![]]).expect("queues");
    assert_eq!(queued.len(), 1, "a clean plan queues nothing");
    assert_eq!(queued[0].0, "cargo");

    let cargo = Reconciliation { manager: "cargo".into(), install: vec![PackageSpec::new("bat")], ..Reconciliation::default() };
    let refused = queue_commands(
        &[cargo, pacman],
        &[vec![], vec![RepoLookup { found: false, stdout: String::new() }]],
    )
    .expect_err("must refuse");
    assert_eq!(refused.0, "pacman");
    assert!(refused.1.to_string().contains("not in the official repositories"));
}

#[test]
fn status_never_calls_an_unread_machine_clean() {
    let quiet = Reconciliation { manager: "brew".into(), ..Reconciliation::default() };
    let busy = Reconciliation { manager: "cargo".into(), remove: vec!["nano".into()], ..Reconciliation::default() };
    assert_eq!(status_footer(&[], 1, false), "1 manager(s) could not be read");
    assert_eq!(
        status_footer(&[busy], 2, false),
        "2 manager(s) could not be read; the rest: 1 to remove"
    );
    assert_eq!(status_footer(&[], 0, false), "everything matches your manifests");
    assert!(status_drifted(&[], 1));
    assert!(!status_drifted(&[quiet], 0));
    let busy = Reconciliation { manager: "cargo".into(), remove: vec!["nano".into()], ..Reconciliation::default() };
    assert!(status_drifted(&[busy], 0));
}

#[test]
fn messages_for_an_empty_setup() {
    assert_eq!(
        nothing_managed("/cfg"),
        "no package managers are managed yet.\nRun `mpm adopt` to put what is installed under management in /cfg"
    );
    assert_eq!(
        unmatched_host(&vec!["desktop".to_string(), "laptop".to_string()], "thinkpad"),
        Some("no host layer for `thinkpad`; `hosts/` has desktop, laptop".to_string())
    );
    assert_eq!(unmatched_host(&vec!["thinkpad".to_string()], "thinkpad"), None);
    // An empty `hosts/` tree has no layer for this machine either.
    assert_eq!(
        unmatched_host(&vec![], "thinkpad"),
        Some("no host layer for `thinkpad`; `hosts/` has ".to_string())
    );
}

#[test]
fn manager_rows_line_up() {
    assert_eq!(manager_row("npm", true, false), "npm      found   -");
    assert_eq!(manager_row("pacman", false, true), "pacman   -       managed");
}

#[test]
fn the_context_needs_a_tree_and_a_name() {
    let ctx = Ctx::discover(None, Some("/home/me/.config"), &[None, Some("box\n".to_string())]).expect("found");
    assert_eq!(ctx.layout.root(), "/home/me/.config/mpm");
    assert_eq!(ctx.host, "box");
    assert!(matches!(Ctx::discover(None, None, &[]), Err(CommandError::NoConfigDir)));
    let nameless = Ctx::discover(Some("/srv"), None, &[Some(" ".to_string())]).expect_err("no name");
    assert_eq!(nameless.to_string(), "could not determine this machine's hostname; set MPM_HOST to name it");
    let opts = ApplyOpts::default();
    assert!(!opts.dry_run && !opts.yes);
}

#[test]
fn failures_are_reported_in_name_order() {
    assert_eq!(failure_report(&[]), None);
    assert_eq!(
        failure_report(&["pacman".to_string(), "cargo".to_string(), "npm".to_string()]),
        Some("failed to apply: cargo, npm, pacman".to_string())
    );
}

#[test]
fn only_yes_means_yes() {
    for answer in ["y", "Y", "yes\n", "  YeS  ", "YES"] {
        assert!(accepts(answer), "`{answer}` is yes");
    }
    for answer in ["", "n", "no", "yeah", "ye", "y e s", "\n"] {
        assert!(!accepts(answer), "`{answer}` is not yes");
    }
}

#[test]
fn consent_needs_a_terminal_and_a_yes() {
    assert!(consent(true, Some("y\n")));
    assert!(!consent(false, Some("yes")));
    assert!(!consent(true, None));
    assert!(!consent(true, Some("no\n")));
}

#[test]
fn a_manager_stops_at_its_first_failing_command() {
    assert_eq!(next_command(3, 0, false), Some(0));
    assert_eq!(next_command(3, 2, false), Some(2));
    assert_eq!(next_command(3, 3, false), None);
    assert_eq!(next_command(3, 1, true), None);
}

fn busy() -> Reconciliation {
    Reconciliation { manager: "cargo".into(), install: vec![PackageSpec::new("bat")], ..Reconciliation::default() }
}

#[test]
fn apply_runs_only_after_every_safeguard() {
    let ids = vec!["cargo".to_string(), "brew".to_string()];
    let plain = ApplyOpts::default();
    let step = apply_step(&ids, &[true, false], &[busy()], true, &plain, None);
    assert!(matches!(step, ApplyStep::Refuse { ref id } if id == "brew"));
    let quiet = Reconciliation { manager: "brew".into(), ..Reconciliation::default() };
    assert!(matches!(apply_step(&ids, &[true, true], &[quiet], true, &plain, None), ApplyStep::Clean));
    let both = [busy(), busy()];
    assert!(matches!(apply_step(&ids, &[true, true], &both, false, &plain, None), ApplyStep::Unqueued));
    let dry = ApplyOpts { dry_run: true, yes: true };
    assert!(matches!(apply_step(&ids, &[true, true], &both, true, &dry, None), ApplyStep::DryRun));
    assert!(matches!(apply_step(&ids, &[true, true], &both, true, &plain, None), ApplyStep::Ask));
    assert!(matches!(apply_step(&ids, &[true, true], &both, true, &plain, Some(false)), ApplyStep::Abort));
    assert!(matches!(apply_step(&ids, &[true, true], &both, true, &plain, Some(true)), ApplyStep::Run));
    let yes = ApplyOpts { dry_run: false, yes: true };
    assert!(matches!(apply_step(&ids, &[true, true], &both, true, &yes, None), ApplyStep::Run));
}

#[test]
fn a_found_tree_and_name_always_give_a_context() {
    let ctx = Ctx::discover(Some("/srv/mpm"), None, &[Some("box".to_string())]).expect("found");
    assert_eq!(ctx.layout.root(), "/srv/mpm");
    assert_eq!(ctx.host, "box");
}
