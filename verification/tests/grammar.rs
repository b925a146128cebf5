use mpm::manifest::grammar::{parse_line, split_comment, PackageSpec};

fn spec(text: &str) -> PackageSpec {
    PackageSpec::parse(text).expect("parses")
}

fn line(text: &str) -> Option<PackageSpec> {
    parse_line(text).expect("parses")
}

#[test]
fn a_second_field_is_the_version() {
    assert_eq!(spec("ripgrep 14.1.0"), PackageSpec::pinned("ripgrep", "14.1.0"));
    assert_eq!(spec("ripgrep\t14.1.0"), PackageSpec::pinned("ripgrep", "14.1.0"));
}

#[test]
fn an_at_sign_is_part_of_the_name() {
    assert_eq!(spec("node@20"), PackageSpec::new("node@20"));
    assert_eq!(spec("@scope/pkg"), PackageSpec::new("@scope/pkg"));
}

#[test]
fn a_third_field_is_rejected() {
    assert!(PackageSpec::parse("ripgrep 14.1.0 extra").is_err());
}

#[test]
fn display_round_trips() {
    for text in ["ripgrep", "ripgrep 14.1.0", "node@20", "@scope/pkg 1.0.0"] {
        assert_eq!(spec(text).to_string(), text);
    }
}

#[test]
fn blank_and_comment_lines_declare_nothing() {
    for text in ["", "   ", "# editors", "   # indented"] {
        assert_eq!(line(text), None);
    }
}

#[test]
fn a_trailing_comment_is_ignored_when_parsing() {
    assert_eq!(line("vim # my editor"), Some(PackageSpec::new("vim")));
    assert_eq!(line("ripgrep 14.1.0 # locked"), Some(PackageSpec::pinned("ripgrep", "14.1.0")));
}

#[test]
fn a_name_cannot_start_with_a_dash() {
    assert!(PackageSpec::parse("--noconfirm").is_err());
    assert_eq!(spec("ttf-fira-code"), PackageSpec::new("ttf-fira-code"));
}

#[test]
fn double_slash_is_not_a_comment() {
    assert!(parse_line("// editors").is_err());
}

#[test]
fn split_comment_keeps_the_separating_whitespace() {
    assert_eq!(split_comment("vim   # my editor"), ("vim   ", Some("# my editor")));
    assert_eq!(split_comment("vim"), ("vim", None));
}

#[test]
fn each_rejection_says_why() {
    let empty = PackageSpec::parse("   ").expect_err("blank");
    assert_eq!(empty.to_string(), "empty package entry");
    let slash = PackageSpec::parse(" // editors ").expect_err("slashes");
    assert_eq!(slash.to_string(), "`// editors`: comments start with `#`");
    let dash = PackageSpec::parse("-x").expect_err("dash");
    assert_eq!(dash.to_string(), "`-x`: a package name cannot start with `-`");
    let extra = PackageSpec::parse("ripgrep 14.1.0 extra").expect_err("extra");
    assert_eq!(
        extra.to_string(),
        "`ripgrep 14.1.0 extra`: expected `<name>` or `<name> <version>`, found `extra`"
    );
}

#[test]
fn unicode_whitespace_separates_fields() {
    // U+2003 EM SPACE is whitespace to `split_whitespace`.
    assert_eq!(spec("ripgrep\u{2003}14.1.0"), PackageSpec::pinned("ripgrep", "14.1.0"));
    assert_eq!(spec("  vim  "), PackageSpec::new("vim"));
}

#[test]
fn only_the_first_hash_starts_a_comment() {
    assert_eq!(split_comment("a # b # c"), ("a ", Some("# b # c")));
    assert_eq!(split_comment("#"), ("", Some("#")));
}

#[test]
fn the_same_package_compares_equal() {
    assert!(PackageSpec::pinned("a", "1").same_as(&PackageSpec::pinned("a", "1")));
    assert!(!PackageSpec::pinned("a", "1").same_as(&PackageSpec::new("a")));
    assert!(!PackageSpec::new("a").same_as(&PackageSpec::new("b")));
}
