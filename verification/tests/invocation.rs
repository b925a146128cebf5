use mpm::invocation::{elevator, elevator_found, last_line, quote, Invocation};

#[test]
fn arguments_are_never_word_split() {
    let inv = Invocation::new("apt-get").arg("install").arg("weird name");
    assert_eq!(inv.args, vec!["install".to_string(), "weird name".to_string()]);
}

#[test]
fn display_quotes_unsafe_arguments() {
    let inv = Invocation::new("apt-get").arg("install").arg("weird name");
    assert_eq!(inv.display(&None), "apt-get install 'weird name'");
}

#[test]
fn display_leaves_ordinary_arguments_bare() {
    let inv = Invocation::new("cargo").args(&["install", "ripgrep", "--version", "14.1.0"]);
    assert_eq!(inv.display(&None), "cargo install ripgrep --version 14.1.0");
}

#[test]
fn empty_mpm_sudo_disables_escalation() {
    let chosen = elevator(Some(""));
    assert_eq!(chosen, None);
    assert_eq!(elevator(Some("   ")), None);
    let inv = Invocation::new("pacman").arg("-S").as_root();
    assert_eq!(inv.resolve(&chosen).0, "pacman");
}

#[test]
fn an_elevator_prefixes_only_root_commands() {
    let elevated = Some("doas".to_string());
    let root = Invocation::new("pacman").arg("-S").arg("vim").as_root();
    assert_eq!(
        root.resolve(&elevated),
        ("doas".to_string(), vec!["pacman".to_string(), "-S".to_string(), "vim".to_string()])
    );
    assert_eq!(root.display(&elevated), "doas pacman -S vim");
    let plain = Invocation::new("cargo").arg("install");
    assert_eq!(plain.resolve(&elevated), ("cargo".to_string(), vec!["install".to_string()]));
}

#[test]
fn quoting_escapes_single_quotes() {
    assert_eq!(quote("it's"), "'it'\\''s'");
    assert_eq!(quote(""), "''");
    assert_eq!(quote("a*b"), "'a*b'");
    assert_eq!(quote("@scope/pkg@1.0.0"), "@scope/pkg@1.0.0");
    // Letters are judged by Unicode, not ASCII.
    assert_eq!(quote("café"), "café");
}

#[test]
fn the_last_complaint_is_the_one_reported() {
    assert_eq!(last_line("warning: slow\nboom\n\n  \n"), "boom");
    assert_eq!(last_line("  error: no such package  \n"), "error: no such package");
    assert_eq!(last_line(""), "no output on stderr");
    assert_eq!(last_line("\n \n"), "no output on stderr");
}

#[test]
fn extending_appends_in_order() {
    let inv = Invocation::new("brew").extend(vec!["install".to_string(), "vim".to_string()]);
    assert_eq!(inv.args, vec!["install".to_string(), "vim".to_string()]);
    assert!(!inv.needs_root);
}

#[test]
fn an_elevator_is_used_only_when_found() {
    assert_eq!(elevator_found(None, true), Some("sudo".to_string()));
    assert_eq!(elevator_found(None, false), None);
    assert_eq!(elevator_found(Some(" doas "), true), Some("doas".to_string()));
    assert_eq!(elevator_found(Some("  "), true), None);
}
