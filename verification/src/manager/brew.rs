use vstd::prelude::*;

use crate::manifest::grammar::{PackageSpec, PackageView};
use crate::invocation::{Invocation, InvocationView, invocation_views, texts};
use crate::manager::{Manager, name_texts, parse_two_column, rows_packages};
use crate::package_map::spec_views;
use crate::text::{chars_of, lines, is_ascii_digit};

verus! {

#[derive(Debug)]
pub struct Brew;

/// The first `'@'` at or after `i`, or the length.
pub open spec fn at_sign(s: Seq<char>, i: int) -> int
    decreases s.len() - i,
{
    if i < 0 || i >= s.len() || s[i] == '@' {
        i
    } else {
        at_sign(s, i + 1)
    }
}

/// A versioned formula: something before the first `@`, and a digit right after it.
pub open spec fn versioned_formula(name: Seq<char>) -> bool {
    let at = at_sign(name, 0);
    0 < at && at + 1 < name.len() && is_ascii_digit(name[at + 1])
}

/// The names of a list of packages.
pub fn names_of(packages: &[PackageSpec]) -> (r: Vec<String>)
    ensures
        texts(r@) == name_texts(spec_views(packages@)),
{
    let ghost ps = spec_views(packages@);
    let mut out: Vec<String> = Vec::new();
    let mut i: usize = 0;
    while i < packages.len()
        invariant
            i <= packages.len(),
            ps == spec_views(packages@),
            texts(out@) == name_texts(ps.take(i as int)),
        decreases packages.len() - i,
    {
        let n = packages[i].name.clone();
        let ghost before = out@;
        out.push(n);
        assert(texts(out@) =~= name_texts(ps.take(i + 1))) by {
            assert(texts(out@) =~= texts(before).push(n@));
            assert(ps.take(i + 1) =~= ps.take(i as int).push(ps[i as int]));
        }
        i += 1;
    }
    assert(ps.take(i as int) =~= ps);
    out
}

impl Brew {
    pub fn install(&self, packages: &[PackageSpec]) -> (r: Result<Vec<Invocation>, ()>)
        ensures
            r matches Ok(cmds) && invocation_views(cmds@) == (if packages@.len() == 0 {
                Seq::<InvocationView>::empty()
            } else {
                seq![InvocationView {
                    program: "brew"@,
                    args: seq!["install"@] + name_texts(spec_views(packages@)),
                    needs_root: false,
                }]
            }),
    {
        let mut cmds: Vec<Invocation> = Vec::new();
        if packages.len() == 0 {
            assert(invocation_views(cmds@) =~= Seq::<InvocationView>::empty());
            return Ok(cmds);
        }
        let command = Invocation::new("brew").arg("install").extend(names_of(packages));
        cmds.push(command);
        assert(invocation_views(cmds@) =~= seq![command@]);
        Ok(cmds)
    }
}

impl Manager for Brew {
    open spec fn spec_id(&self) -> Seq<char> {
        "brew"@
    }

    open spec fn spec_binary(&self) -> Seq<char> {
        "brew"@
    }

    open spec fn spec_supports_pinning(&self) -> bool {
        false
    }

    open spec fn spec_name_selects_version(&self, name: Seq<char>) -> bool {
        versioned_formula(name)
    }

    open spec fn spec_uninstall(&self, names: Seq<Seq<char>>) -> Seq<InvocationView> {
        if names.len() == 0 {
            seq![]
        } else {
            seq![InvocationView { program: "brew"@, args: seq!["uninstall"@] + names, needs_root: false }]
        }
    }

    open spec fn spec_list(&self) -> InvocationView {
        InvocationView {
            program: "brew"@,
            args: seq!["list"@, "--formula"@, "--versions"@],
            needs_root: false,
        }
    }

    open spec fn spec_parse_list(&self, stdout: Seq<char>) -> Seq<PackageView> {
        rows_packages(lines(stdout))
    }

    fn id(&self) -> (r: &'static str) {
        "brew"
    }

    fn binary(&self) -> (r: &'static str) {
        "brew"
    }

    fn uninstall(&self, names: &[String]) -> (r: Vec<Invocation>) {
        let mut cmds: Vec<Invocation> = Vec::new();
        if names.len() == 0 {
            assert(invocation_views(cmds@) =~= Seq::<InvocationView>::empty());
            return cmds;
        }
        let command = Invocation::new("brew").arg("uninstall").extend(
            crate::invocation::clone_strings(names),
        );
        cmds.push(command);
        assert(invocation_views(cmds@) =~= seq![command@]);
        cmds
    }

    fn list(&self) -> (r: Invocation) {
        let r = Invocation::new("brew").arg("list").arg("--formula").arg("--versions");
        assert(r@.args =~= seq!["list"@, "--formula"@, "--versions"@]);
        r
    }

    fn parse_list(&self, stdout: &str) -> (r: Vec<PackageSpec>) {
        parse_two_column(stdout)
    }

    /// Homebrew has no general mechanism for installing an arbitrary old
    /// version, so a pin here would be a promise mpm cannot keep. Pick the
    /// versioned formula instead.
    fn supports_pinning(&self) -> (r: bool) {
        false
    }

    /// Homebrew ships versioned formulae as distinct packages: `node@20`,
    /// `python@3.12`, `postgresql@16`. The `@` belongs to the name.
    fn name_selects_version(&self, name: &str) -> (r: bool) {
        let chars = chars_of(name);
        let mut at: usize = 0;
        while at < chars.len() && chars[at] != '@'
            invariant
                chars@ == name@,
                at <= chars.len(),
                at_sign(name@, 0) == at_sign(name@, at as int),
            decreases chars.len() - at,
        {
            at += 1;
        }
        at < chars.len() && 0 < at && at + 1 < chars.len() && '0' <= chars[at + 1] && chars[at + 1] <= '9'
    }
}

} // verus!
