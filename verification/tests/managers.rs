use mpm::manager::apt::Apt;
use mpm::manager::arch::{
    archive_url, helper_list, known_names, parse_architecture, Arch, InstallError, Installer, RepoLookup,
};
use mpm::manager::brew::Brew;
use mpm::manager::cargo::Cargo;
use mpm::manager::dotnet::Dotnet;
use mpm::manager::node::{Node, NodeTool};
use mpm::manager::{get, parse_two_column, partition_pinned, AnyManager, Manager, ALL};
use mpm::manifest::grammar::PackageSpec;

// ------------------------------------------------------------------ apt

#[test]
fn showmanual_output_is_parsed() {
    let out = "git\nripgrep\nvim\n";
    assert_eq!(
        Apt.parse_list(out),
        vec![PackageSpec::new("git"), PackageSpec::new("ripgrep"), PackageSpec::new("vim")]
    );
}

#[test]
fn pins_use_equals_syntax() {
    let cmds = Apt
        .install(&[PackageSpec::pinned("ripgrep", "14.1.0"), PackageSpec::new("vim")])
        .expect("builds");
    assert_eq!(cmds.len(), 1);
    assert_eq!(cmds[0].args, vec!["install", "-y", "ripgrep=14.1.0", "vim"]);
}

#[test]
fn removal_never_purges() {
    let names = vec!["vim".to_string()];
    assert_eq!(Apt.uninstall(&names)[0].args[0], "remove");
}

#[test]
fn removal_is_not_auto_confirmed() {
    let names = vec!["vim".to_string()];
    let cmd = &Apt.uninstall(&names)[0];
    assert!(!cmd.args.iter().any(|a| a == "-y"));
}

#[test]
fn install_and_remove_need_root() {
    assert!(Apt.install(&[PackageSpec::new("vim")]).expect("builds")[0].needs_root);
    assert!(Apt.uninstall(&["vim".to_string()])[0].needs_root);
}

// ------------------------------------------------------------------ pacman

const QE: &str = "\
git 2.46.0-1
linux 6.10.6.arch1-1
ripgrep 14.1.0-1
";

const SI: &str = "\
Repository      : extra
Name            : ripgrep
Version         : 14.1.1-1
Architecture    : x86_64
Depends On      : gcc-libs  pcre2
";

const SI_ANY: &str = "\
Repository      : extra
Name            : ttf-fira-code
Version         : 6.2-4
Architecture    : any
";

const SI_MULTI: &str = "\
Repository      : extra
Name            : ripgrep
Architecture    : x86_64

Repository      : extra
Name            : ttf-fira-code
Architecture    : any
";

#[test]
fn explicit_packages_are_parsed_with_versions() {
    assert_eq!(
        Arch.parse_list(QE),
        vec![
            PackageSpec::pinned("git", "2.46.0-1"),
            PackageSpec::pinned("linux", "6.10.6.arch1-1"),
            PackageSpec::pinned("ripgrep", "14.1.0-1"),
        ]
    );
}

#[test]
fn listing_always_uses_pacman() {
    let list = Arch.list();
    assert_eq!(list.program, "pacman");
    assert!(!list.needs_root, "a query needs no privileges");
}

#[test]
fn removal_keeps_configuration() {
    let commands = Arch.uninstall(&["vim".to_string()]);
    assert_eq!(commands[0].args[0], "-Rs");
    assert!(commands[0].needs_root);
}

#[test]
fn architecture_is_read_from_pacman_si() {
    assert_eq!(parse_architecture(SI).as_deref(), Some("x86_64"));
}

#[test]
fn an_any_architecture_package_is_recognised() {
    assert_eq!(parse_architecture(SI_ANY).as_deref(), Some("any"));
}

#[test]
fn archive_urls_are_built_from_name_version_and_architecture() {
    assert_eq!(
        archive_url("ripgrep", "14.1.0-1", "x86_64"),
        "https://archive.archlinux.org/packages/r/ripgrep/ripgrep-14.1.0-1-x86_64.pkg.tar.zst"
    );
    assert_eq!(
        archive_url("ttf-fira-code", "6.2-4", "any"),
        "https://archive.archlinux.org/packages/t/ttf-fira-code/ttf-fira-code-6.2-4-any.pkg.tar.zst"
    );
}

#[test]
fn unpinned_packages_share_one_command() {
    let commands =
        Arch.install(&[PackageSpec::new("vim"), PackageSpec::new("git")], &[]).expect("builds");
    assert_eq!(commands.len(), 1);
    assert_eq!(&commands[0].args[..2], &["-S", "--needed"]);
}

#[test]
fn names_are_collected_from_a_multi_package_query() {
    let known = known_names(SI_MULTI);
    assert!(known.contains(&"ripgrep".to_string()));
    assert!(known.contains(&"ttf-fira-code".to_string()));
    assert_eq!(known.len(), 2);
    assert!(!known.contains(&"my-aur-tool".to_string()));
}

#[test]
fn nothing_pinned_needs_no_query() {
    Arch.check_pins(&[], "").expect("no query, no failure");
}

#[test]
fn a_pin_is_fetched_from_the_archive() {
    let lookups = [RepoLookup { found: true, stdout: SI.to_string() }];
    let commands = Arch
        .install_with(&[PackageSpec::pinned("ripgrep", "14.1.0-1")], &Installer::Pacman, &lookups)
        .expect("builds");
    assert_eq!(commands.len(), 1);
    assert_eq!(commands[0].program, "pacman");
    assert!(commands[0].needs_root);
    assert_eq!(
        commands[0].args,
        vec![
            "-U".to_string(),
            "https://archive.archlinux.org/packages/r/ripgrep/ripgrep-14.1.0-1-x86_64.pkg.tar.zst"
                .to_string()
        ]
    );
}

#[test]
fn a_helper_installs_unpinned_packages_without_root() {
    let commands = Arch
        .install_with(&[PackageSpec::new("vim")], &Installer::Helper("paru".to_string()), &[])
        .expect("builds");
    assert_eq!(commands[0].program, "paru");
    assert!(!commands[0].needs_root);
    assert_eq!(commands[0].args, vec!["-S", "--needed", "vim"]);
}

#[test]
fn a_pin_outside_the_repositories_is_refused() {
    let lookups = [RepoLookup { found: false, stdout: String::new() }];
    let error = Arch
        .install_with(&[PackageSpec::pinned("my-aur-tool", "1.0")], &Installer::Pacman, &lookups)
        .expect_err("must refuse");
    assert!(matches!(error, InstallError::NotInRepos { .. }));
    assert!(error.to_string().contains("not in the official repositories"));

    let blank = [RepoLookup { found: true, stdout: "Name : x\n".to_string() }];
    let error = Arch
        .install_with(&[PackageSpec::pinned("x", "1.0")], &Installer::Pacman, &blank)
        .expect_err("must refuse");
    assert_eq!(error.to_string(), "could not read the architecture of `x` from `pacman -Si`");
}

#[test]
fn pins_the_archive_does_not_know_are_named() {
    let error = Arch
        .check_pins(
            &[PackageSpec::pinned("ripgrep", "1"), PackageSpec::pinned("my-aur-tool", "2")],
            SI_MULTI,
        )
        .expect_err("must refuse");
    assert_eq!(error.missing, vec!["my-aur-tool".to_string()]);
    assert!(error.to_string().starts_with("no archived build exists for my-aur-tool"));
    Arch.check_pins(&[PackageSpec::pinned("ripgrep", "1")], SI_MULTI).expect("known");
}

// ------------------------------------------------------------------ brew

#[test]
fn versions_output_is_parsed() {
    let out = "git 2.46.0\nripgrep 14.1.0\nvim 9.1.0750\n";
    assert_eq!(
        Brew.parse_list(out),
        vec![
            PackageSpec::pinned("git", "2.46.0"),
            PackageSpec::pinned("ripgrep", "14.1.0"),
            PackageSpec::pinned("vim", "9.1.0750"),
        ]
    );
}

#[test]
fn a_versioned_formula_keeps_its_name_intact() {
    assert_eq!(Brew.parse_list("node@20 20.11.0\n"), vec![PackageSpec::pinned("node@20", "20.11.0")]);
}

#[test]
fn a_formula_with_several_versions_keeps_the_first() {
    assert_eq!(Brew.parse_list("openssl 3.3.1 3.2.0\n"), vec![PackageSpec::pinned("openssl", "3.3.1")]);
}

#[test]
fn versioned_formulae_are_recognised() {
    for name in ["node@20", "python@3.12", "postgresql@16"] {
        assert!(Brew.name_selects_version(name), "`{name}` should select a version");
    }
    for name in ["ripgrep", "vim"] {
        assert!(!Brew.name_selects_version(name));
    }
}

#[test]
fn an_at_not_followed_by_a_digit_is_not_a_version() {
    assert!(!Brew.name_selects_version("@scope/pkg"));
    assert!(!Brew.name_selects_version("foo@bar"));
}

#[test]
fn brew_installs_everything_in_one_command() {
    let cmds = Brew.install(&[PackageSpec::new("vim"), PackageSpec::new("git")]).expect("builds");
    assert_eq!(cmds.len(), 1);
    assert_eq!(cmds[0].program, "brew");
    assert_eq!(cmds[0].args, vec!["install", "vim", "git"]);
    assert!(Brew.install(&[]).expect("builds").is_empty());
}

// ------------------------------------------------------------------ cargo

const CARGO_LIST: &str = "\
cargo-edit v0.12.2:
    cargo-add
    cargo-rm
ripgrep v14.1.0:
    rg
";

#[test]
fn crate_lines_are_parsed_and_binaries_ignored() {
    assert_eq!(
        Cargo.parse_list(CARGO_LIST),
        vec![PackageSpec::pinned("cargo-edit", "0.12.2"), PackageSpec::pinned("ripgrep", "14.1.0")]
    );
}

#[test]
fn pinned_crates_get_one_command_each() {
    let cmds = Cargo
        .install(&[
            PackageSpec::new("bat"),
            PackageSpec::pinned("ripgrep", "14.1.0"),
            PackageSpec::pinned("fd-find", "10.1.0"),
        ])
        .expect("builds");
    assert_eq!(cmds.len(), 3);
    assert_eq!(cmds[0].args, vec!["install", "bat"]);
    assert_eq!(cmds[1].args, vec!["install", "ripgrep", "--version", "14.1.0"]);
    assert_eq!(cmds[2].args, vec!["install", "fd-find", "--version", "10.1.0"]);
}

#[test]
fn unpinned_crates_share_one_command() {
    let cmds = Cargo.install(&[PackageSpec::new("bat"), PackageSpec::new("fd-find")]).expect("builds");
    assert_eq!(cmds.len(), 1);
    assert_eq!(cmds[0].args, vec!["install", "bat", "fd-find"]);
}

#[test]
fn nothing_to_install_means_no_commands() {
    assert!(Cargo.install(&[]).expect("builds").is_empty());
}

// ------------------------------------------------------------------ dotnet

const DOTNET_LIST: &str = "\
Package Id          Version      Commands
-------------------------------------------
dotnet-ef           8.0.8        dotnet-ef
csharpier           0.29.0       dotnet-csharpier
";

#[test]
fn header_and_separator_are_skipped() {
    assert_eq!(
        Dotnet.parse_list(DOTNET_LIST),
        vec![PackageSpec::pinned("dotnet-ef", "8.0.8"), PackageSpec::pinned("csharpier", "0.29.0")]
    );
}

#[test]
fn missing_separator_falls_back_to_skipping_two_lines() {
    let out = "Package Id Version Commands\ndotnet-ef 8.0.8 dotnet-ef\n";
    assert!(Dotnet.parse_list(out).is_empty());
}

#[test]
fn each_tool_gets_its_own_command() {
    let cmds = Dotnet.uninstall(&["dotnet-ef".to_string(), "csharpier".to_string()]);
    assert_eq!(cmds.len(), 2);
    assert_eq!(cmds[0].args, vec!["tool", "uninstall", "-g", "dotnet-ef"]);
    assert_eq!(cmds[1].args, vec!["tool", "uninstall", "-g", "csharpier"]);
}

#[test]
fn pins_use_the_version_flag() {
    let cmds = Dotnet.install(&[PackageSpec::pinned("dotnet-ef", "8.0.8")]).expect("builds");
    assert_eq!(cmds[0].args, vec!["tool", "install", "-g", "dotnet-ef", "--version", "8.0.8"]);
}

// ------------------------------------------------------------------ registry

#[test]
fn every_advertised_manager_is_constructible() {
    for id in ALL {
        let manager = get(id).unwrap_or_else(|| panic!("`{id}` is advertised but not registered"));
        assert_eq!(manager.id(), id);
    }
}

#[test]
fn unknown_manager_is_rejected() {
    assert!(get("fisher").is_none());
    assert!(get("paru").is_none(), "AUR helpers are an installer detail, not a manager");
    assert!(get("").is_none());
}

#[test]
fn only_managers_with_a_durable_index_accept_versions() {
    for id in ["cargo", "npm", "pnpm", "dotnet", "pacman"] {
        assert!(get(id).expect("registered").supports_pinning(), "`{id}` should accept versions");
    }
    for id in ["brew", "apt"] {
        assert!(!get(id).expect("registered").supports_pinning(), "`{id}` should reject versions");
    }
}

#[test]
fn two_column_rows_need_a_name_and_take_the_first_version() {
    assert_eq!(
        parse_two_column("vim 9.1\n\nzsh\n  git 2.46 extra\n"),
        vec![PackageSpec::pinned("vim", "9.1"), PackageSpec::new("zsh"), PackageSpec::pinned("git", "2.46")]
    );
}

#[test]
fn pinned_and_loose_packages_are_told_apart_in_order() {
    let (pinned, loose) = partition_pinned(&[
        PackageSpec::pinned("a", "1"),
        PackageSpec::new("b"),
        PackageSpec::pinned("c", "2"),
    ]);
    assert_eq!(pinned, vec![PackageSpec::pinned("a", "1"), PackageSpec::pinned("c", "2")]);
    assert_eq!(loose, vec![PackageSpec::new("b")]);
}

#[test]
fn any_manager_dispatches_to_its_own_kind() {
    let npm = get("npm").expect("npm");
    assert!(matches!(npm, AnyManager::Node(Node { tool: NodeTool::Npm })));
    let cmds = npm.install(&[PackageSpec::new("typescript")], &[]).expect("builds");
    assert_eq!(cmds[0].program, "npm");
    assert_eq!(npm.binary(), "npm");
}

// ------------------------------------------------------------------ node

const NPM_LIST: &str = "\
/usr/lib
├── @vue/cli-service@1.0.0
├── corepack@0.24.0
└── typescript@5.3.3
";

const PNPM_LIST: &str = "\
Legend: production dependency, optional only, dev only

/home/kerim/.local/share/pnpm/global/5

dependencies:
@vue/cli-service 1.0.0
typescript 5.3.3
";

#[test]
fn npm_scoped_packages_survive_parsing() {
    let npm = Node { tool: NodeTool::Npm };
    assert_eq!(
        npm.parse_list(NPM_LIST),
        vec![
            PackageSpec::pinned("@vue/cli-service", "1.0.0"),
            PackageSpec::pinned("corepack", "0.24.0"),
            PackageSpec::pinned("typescript", "5.3.3"),
        ]
    );
}

#[test]
fn pnpm_reads_the_dependencies_section() {
    let pnpm = Node { tool: NodeTool::Pnpm };
    assert_eq!(
        pnpm.parse_list(PNPM_LIST),
        vec![
            PackageSpec::pinned("@vue/cli-service", "1.0.0"),
            PackageSpec::pinned("typescript", "5.3.3"),
        ]
    );
}

#[test]
fn pnpm_adds_rather_than_installs() {
    let pnpm = Node { tool: NodeTool::Pnpm };
    assert_eq!(
        pnpm.install(&[PackageSpec::new("typescript")]).expect("builds")[0].args,
        vec!["add", "-g", "typescript"]
    );
}

#[test]
fn a_pin_becomes_registry_syntax_not_manifest_syntax() {
    let npm = Node { tool: NodeTool::Npm };
    let commands = npm.install(&[PackageSpec::pinned("typescript", "5.3.3")]).expect("builds");
    assert_eq!(commands[0].args, vec!["install", "-g", "typescript@5.3.3"]);
}

#[test]
fn scoped_pins_keep_the_scope() {
    let npm = Node { tool: NodeTool::Npm };
    let commands = npm.install(&[PackageSpec::pinned("@scope/pkg", "1.0.0")]).expect("builds");
    assert_eq!(commands[0].args, vec!["install", "-g", "@scope/pkg@1.0.0"]);
}

#[test]
fn uninstall_never_carries_a_version() {
    let npm = Node { tool: NodeTool::Npm };
    assert_eq!(npm.uninstall(&["typescript".to_string()])[0].args, vec!["uninstall", "-g", "typescript"]);
}

#[test]
fn paru_is_preferred_to_yay() {
    assert_eq!(Installer::from_found(true, true).command().program, "paru");
    assert_eq!(Installer::from_found(false, true).command().program, "yay");
    let pacman = Installer::from_found(false, false).command();
    assert_eq!(pacman.program, "pacman");
    assert!(pacman.needs_root);
}

#[test]
fn helpers_are_asked_about_paru_first() {
    assert_eq!(helper_list(), vec!["paru", "yay"]);
    let names = helper_list();
    assert_eq!(Installer::first_found(&names, &[false, true]).command().program, "yay");
    assert_eq!(Installer::first_found(&names, &[true]).command().program, "paru");
    assert_eq!(Installer::first_found(&names, &[false]).command().program, "pacman");
    assert_eq!(Installer::first_found(&names, &[]).command().program, "pacman");
}
