use mpm::commands::LayerArgs;
use mpm::manifest::file::ManifestFile;
use mpm::manifest::grammar::PackageSpec;
use mpm::manifest::{hostname, join_path, Layer, Layout, Resolved};

const SAMPLE: &str = "\
# editors
vim
neovim          # the good one

# search
ripgrep 14.1.0  # locked
";

fn names(resolved: &Resolved) -> Vec<String> {
    resolved.declared.entries().iter().map(|spec| spec.name.clone()).collect()
}

#[test]
fn missing_file_loads_as_empty() {
    let manifest = ManifestFile::load("/tmp/missing/pacman", None).expect("load");
    assert_eq!(manifest.specs().len(), 0);
    assert!(!manifest.existed());
}

#[test]
fn inline_comments_do_not_become_part_of_the_package() {
    let manifest = ManifestFile::load("pacman", Some(SAMPLE)).expect("load");
    let names: Vec<String> = manifest.specs().iter().map(|spec| spec.name.clone()).collect();
    assert_eq!(names, vec!["vim", "neovim", "ripgrep"]);
}

#[test]
fn comments_and_blank_lines_survive_an_edit() {
    let mut manifest = ManifestFile::load("pacman", Some(SAMPLE)).expect("load");
    assert!(manifest.declare(&PackageSpec::new("fd")));
    assert_eq!(manifest.text(), format!("{SAMPLE}fd\n"));
}

#[test]
fn rewriting_a_line_keeps_its_trailing_comment() {
    let mut manifest = ManifestFile::load("pacman", Some(SAMPLE)).expect("load");
    assert!(manifest.declare(&PackageSpec::pinned("ripgrep", "14.2.0")));
    let written = manifest.text();
    assert!(written.contains("ripgrep 14.2.0  # locked"), "got: {written}");
    assert!(!written.contains("14.1.0"));

    manifest.declare(&PackageSpec::new("ripgrep"));
    assert!(manifest.text().contains("ripgrep  # locked"));
}

#[test]
fn declaring_an_existing_package_is_a_no_op() {
    let mut manifest = ManifestFile::load("pacman", Some(SAMPLE)).expect("load");
    assert!(!manifest.declare(&PackageSpec::new("vim")));
}

#[test]
fn undeclare_removes_the_whole_line_including_its_comment() {
    let mut manifest = ManifestFile::load("pacman", Some(SAMPLE)).expect("load");
    assert!(manifest.undeclare("neovim"));
    assert!(!manifest.undeclare("neovim"));
    let written = manifest.text();
    assert!(!written.contains("neovim"));
    assert!(!written.contains("the good one"));
    assert!(written.contains("vim"));
    assert!(written.contains("# editors"));
}

#[test]
fn a_malformed_line_names_its_line_number() {
    let error = ManifestFile::load("pacman", Some("vim\nripgrep 1.0 oops\n")).expect_err("must reject");
    assert!(error.to_string().contains("pacman:2"));
    assert_eq!(error.line, 2);
}

#[test]
fn saved_text_reads_back_the_same() {
    let manifest = ManifestFile::load("pacman", Some(SAMPLE)).expect("load");
    assert_eq!(manifest.text(), SAMPLE);
    let again = ManifestFile::load("pacman", Some(manifest.text().as_str())).expect("reload");
    assert_eq!(again.specs(), manifest.specs());
    assert!(again.declares("neovim"));
    assert!(!again.declares("editors"));
}

#[test]
fn a_file_without_a_final_newline_gains_one() {
    let manifest = ManifestFile::load("pacman", Some("vim\r\nbat")).expect("load");
    assert_eq!(manifest.specs(), vec![PackageSpec::new("vim"), PackageSpec::new("bat")]);
    assert_eq!(manifest.text(), "vim\nbat\n");
    assert!(manifest.existed());
    assert_eq!(manifest.path(), "pacman");
}

// ------------------------------------------------------------------ layout

fn layout() -> Layout {
    Layout::at("/home/me/.config/mpm")
}

#[test]
fn common_alone_resolves() {
    let resolved =
        layout().resolve("pacman", "thinkpad", &[Some("vim\nripgrep\n".to_string()), None]).expect("resolve");
    assert_eq!(names(&resolved), vec!["ripgrep", "vim"]);
}

#[test]
fn another_hosts_layer_is_ignored() {
    // `hosts/desktop/pacman` exists, but thinkpad's own host layer does not.
    let l = layout();
    assert_eq!(l.host("desktop", "pacman"), "/home/me/.config/mpm/hosts/desktop/pacman");
    assert_ne!(l.layer_paths("pacman", "thinkpad")[1], l.host("desktop", "pacman"));
    let resolved = l.resolve("pacman", "thinkpad", &[Some("vim\n".to_string()), None]).expect("resolve");
    assert_eq!(names(&resolved), vec!["vim"]);
}

#[test]
fn layers_are_a_plain_union() {
    let resolved = layout()
        .resolve("pacman", "desktop", &[Some("vim\ntlp\n".to_string()), Some("nvidia\n".to_string())])
        .expect("resolve");
    assert_eq!(names(&resolved), vec!["nvidia", "tlp", "vim"]);
}

#[test]
fn the_host_layer_outranks_common() {
    let resolved = layout()
        .resolve(
            "cargo",
            "thinkpad",
            &[Some("ripgrep 14.0.0\n".to_string()), Some("ripgrep 14.2.0\n".to_string())],
        )
        .expect("resolve");
    assert_eq!(resolved.declared.get("ripgrep"), Some(&PackageSpec::pinned("ripgrep", "14.2.0")));
}

#[test]
fn an_undetectable_hostname_is_an_error_not_a_guess() {
    // A blank override falls through rather than being accepted.
    assert_eq!(hostname(&[Some("  ".to_string()), Some("thinkpad\n".to_string())]), Some("thinkpad".to_string()));
    assert_eq!(hostname(&[Some("  ".to_string()), None, Some("\n".to_string())]), None);
    assert_ne!(hostname(&[Some("  ".to_string())]).as_deref(), Some(""));
}

#[test]
fn a_malformed_line_names_its_file_and_line() {
    let error = layout()
        .resolve("cargo", "thinkpad", &[Some("# tools\nripgrep 14.1.0 oops\n".to_string()), None])
        .expect_err("must reject");
    let text = error.to_string();
    assert!(text.contains("/cargo:2"), "got: {text}");
}

#[test]
fn the_host_flag_chooses_the_layer() {
    let layer = |host: bool| LayerArgs { host }.resolve("thinkpad");
    assert_eq!(layer(false), Layer::Common);
    assert_eq!(layer(true), Layer::Host("thinkpad".into()));
}

#[test]
fn paths_follow_the_tree() {
    let l = layout();
    assert_eq!(l.common("pacman"), "/home/me/.config/mpm/pacman");
    assert_eq!(l.path_for(&Layer::Common, "cargo"), "/home/me/.config/mpm/cargo");
    assert_eq!(l.path_for(&Layer::Host("box".into()), "cargo"), "/home/me/.config/mpm/hosts/box/cargo");
    assert_eq!(l.hosts_dir(), "/home/me/.config/mpm/hosts");
    assert_eq!(l.root(), "/home/me/.config/mpm");
    assert_eq!(join_path("/etc/", "mpm"), "/etc/mpm");
    assert_eq!(join_path("", "mpm"), "mpm");
    assert_eq!(join_path("/a", "/b"), "/b");
}

#[test]
fn the_tree_is_found_from_the_setting_or_the_config_dir() {
    let chosen = Layout::discover(Some("  /srv/mpm \n"), Some("/home/me/.config")).expect("found");
    assert_eq!(chosen.root(), "/srv/mpm");
    let fallback = Layout::discover(Some("   "), Some("/home/me/.config")).expect("found");
    assert_eq!(fallback.root(), "/home/me/.config/mpm");
    assert!(Layout::discover(None, None).is_none());
}
