use vstd::prelude::*;

use crate::manifest::grammar::{PackageSpec, PackageView};
use crate::invocation::{Invocation, InvocationView, invocation_views};
use crate::manager::{Manager, parse_rows, rows_packages};
use crate::package_map::spec_views;
use crate::text::{char_is_space, chars_of, lemma_skip_space, lines, skip_space, split_lines, views};

verus! {

#[derive(Debug)]
pub struct Dotnet;

/// Whether a line, once its indentation is dropped, starts with `---`.
pub open spec fn is_rule(line: Seq<char>) -> bool {
    let s = line.skip(skip_space(line, 0));
    s.len() >= 3 && s[0] == '-' && s[1] == '-' && s[2] == '-'
}

/// The first rule line at or after `i`, or the number of lines.
pub open spec fn rule_at(ls: Seq<Seq<char>>, i: int) -> int
    decreases ls.len() - i,
{
    if i < 0 || i >= ls.len() || is_rule(ls[i]) {
        i
    } else {
        rule_at(ls, i + 1)
    }
}

/// The rows below the table header: after the row of dashes, or, without
/// one, after the first two lines.
pub open spec fn table_body(ls: Seq<Seq<char>>) -> Seq<Seq<char>> {
    let r = rule_at(ls, 0);
    if r < ls.len() {
        ls.subrange(r + 1, ls.len() as int)
    } else if ls.len() >= 2 {
        ls.subrange(2, ls.len() as int)
    } else {
        seq![]
    }
}

pub open spec fn dotnet_install_one(p: PackageView) -> InvocationView {
    InvocationView {
        program: "dotnet"@,
        args: seq!["tool"@, "install"@, "-g"@, p.name] + match p.version {
            Some(v) => seq!["--version"@, v],
            None => Seq::<Seq<char>>::empty(),
        },
        needs_root: false,
    }
}

pub open spec fn dotnet_uninstall_one(name: Seq<char>) -> InvocationView {
    InvocationView {
        program: "dotnet"@,
        args: seq!["tool"@, "uninstall"@, "-g"@, name],
        needs_root: false,
    }
}

/// `dotnet` installs and removes tools globally, one command per tool: each
/// install is `tool install -g <name>`, pinned or not, with `--version <v>`
/// after it only for a pinned tool, and each removal `tool uninstall -g <name>`.
pub proof fn law_dotnet_acts_on_global_tools(
    packages: Seq<PackageView>,
    names: Seq<Seq<char>>,
    installer: crate::manager::arch::InstallerView,
    lookups: Seq<crate::manager::arch::RepoLookupView>,
)
    ensures
        crate::manager::install_plan(crate::manager::AnyManager::Dotnet(Dotnet), packages, installer, lookups) is Ok,
        crate::manager::install_plan(crate::manager::AnyManager::Dotnet(Dotnet), packages, installer, lookups)->Ok_0.len()
            == packages.len(),
        forall|k: int|
            0 <= k < packages.len() ==> {
                let c = #[trigger] crate::manager::install_plan(
                    crate::manager::AnyManager::Dotnet(Dotnet),
                    packages,
                    installer,
                    lookups,
                )->Ok_0[k];
                &&& c.program == "dotnet"@
                &&& !c.needs_root
                &&& c.args.len() >= 4
                &&& c.args.take(4) == seq!["tool"@, "install"@, "-g"@, packages[k].name]
                &&& c.args.skip(4) == (match packages[k].version {
                    Some(v) => seq!["--version"@, v],
                    None => Seq::<Seq<char>>::empty(),
                })
            },
        Dotnet.spec_uninstall(names).len() == names.len(),
        forall|k: int|
            0 <= k < names.len() ==> (#[trigger] Dotnet.spec_uninstall(names)[k]).args == seq![
                "tool"@,
                "uninstall"@,
                "-g"@,
                names[k],
            ],
{
    let cmds = crate::manager::install_plan(crate::manager::AnyManager::Dotnet(Dotnet), packages, installer, lookups)->Ok_0;
    assert forall|k: int| 0 <= k < packages.len() implies {
        let c = #[trigger] cmds[k];
        &&& c.program == "dotnet"@
        &&& !c.needs_root
        &&& c.args.len() >= 4
        &&& c.args.take(4) == seq!["tool"@, "install"@, "-g"@, packages[k].name]
        &&& c.args.skip(4) == (match packages[k].version {
            Some(v) => seq!["--version"@, v],
            None => Seq::<Seq<char>>::empty(),
        })
    } by {
        let c = cmds[k];
        assert(c == dotnet_install_one(packages[k]));
        let tail = match packages[k].version {
            Some(v) => seq!["--version"@, v],
            None => Seq::<Seq<char>>::empty(),
        };
        assert(c.args.take(4) =~= seq!["tool"@, "install"@, "-g"@, packages[k].name]);
        assert(c.args.skip(4) =~= tail);
    }
}

fn is_rule_line(line: &Vec<char>) -> (r: bool)
    ensures
        r == is_rule(line@),
{
    let mut i: usize = 0;
    proof {
        lemma_skip_space(line@, 0);
    }
    while i < line.len() && char_is_space(line[i])
        invariant
            i <= line.len(),
            skip_space(line@, 0) == skip_space(line@, i as int),
        decreases line.len() - i,
    {
        i += 1;
    }
    line.len() - i >= 3 && line[i] == '-' && line[i + 1] == '-' && line[i + 2] == '-'
}

impl Dotnet {
    pub fn install(&self, packages: &[PackageSpec]) -> (r: Result<Vec<Invocation>, ()>)
        ensures
            r matches Ok(cmds) && invocation_views(cmds@) == spec_views(packages@).map_values(
                |p: PackageView| dotnet_install_one(p),
            ),
    {
        let ghost ps = spec_views(packages@);
        let mut cmds: Vec<Invocation> = Vec::new();
        let mut i: usize = 0;
        while i < packages.len()
            invariant
                i <= packages.len(),
                ps == spec_views(packages@),
                invocation_views(cmds@) == ps.take(i as int).map_values(
                    |p: PackageView| dotnet_install_one(p),
                ),
            decreases packages.len() - i,
        {
            let spec = &packages[i];
            assert(ps[i as int] == spec@);
            let command = Invocation::new("dotnet").arg("tool").arg("install").arg("-g").arg(
                spec.name.as_str(),
            );
            let command = match &spec.version {
                Some(version) => command.arg("--version").arg(version.as_str()),
                None => command,
            };
            assert(command@ == dotnet_install_one(spec@)) by {
                assert(command@.args =~= dotnet_install_one(spec@).args);
            }
            let ghost before = cmds@;
            cmds.push(command);
            assert(invocation_views(cmds@) =~= ps.take(i + 1).map_values(
                |p: PackageView| dotnet_install_one(p),
            )) by {
                assert(ps.take(i + 1) =~= ps.take(i as int).push(ps[i as int]));
                assert(invocation_views(cmds@) =~= invocation_views(before).push(command@));
            }
            i += 1;
        }
        assert(ps.take(i as int) =~= ps);
        Ok(cmds)
    }
}

impl Manager for Dotnet {
    open spec fn spec_id(&self) -> Seq<char> {
        "dotnet"@
    }

    open spec fn spec_binary(&self) -> Seq<char> {
        "dotnet"@
    }

    open spec fn spec_supports_pinning(&self) -> bool {
        true
    }

    open spec fn spec_name_selects_version(&self, name: Seq<char>) -> bool {
        false
    }

    open spec fn spec_uninstall(&self, names: Seq<Seq<char>>) -> Seq<InvocationView> {
        names.map_values(|n: Seq<char>| dotnet_uninstall_one(n))
    }

    open spec fn spec_list(&self) -> InvocationView {
        InvocationView { program: "dotnet"@, args: seq!["tool"@, "list"@, "-g"@], needs_root: false }
    }

    open spec fn spec_parse_list(&self, stdout: Seq<char>) -> Seq<PackageView> {
        rows_packages(table_body(lines(stdout)))
    }

    fn id(&self) -> (r: &'static str) {
        "dotnet"
    }

    fn binary(&self) -> (r: &'static str) {
        "dotnet"
    }

    fn uninstall(&self, names: &[String]) -> (r: Vec<Invocation>) {
        let ghost ns = names@.map_values(|s: String| s@);
        let mut cmds: Vec<Invocation> = Vec::new();
        let mut i: usize = 0;
        while i < names.len()
            invariant
                i <= names.len(),
                ns == names@.map_values(|s: String| s@),
                invocation_views(cmds@) == ns.take(i as int).map_values(
                    |n: Seq<char>| dotnet_uninstall_one(n),
                ),
            decreases names.len() - i,
        {
            let command = Invocation::new("dotnet").arg("tool").arg("uninstall").arg("-g").arg(
                names[i].as_str(),
            );
            assert(command@.args =~= dotnet_uninstall_one(ns[i as int]).args);
            let ghost before = cmds@;
            cmds.push(command);
            assert(invocation_views(cmds@) =~= ns.take(i + 1).map_values(
                |n: Seq<char>| dotnet_uninstall_one(n),
            )) by {
                assert(ns.take(i + 1) =~= ns.take(i as int).push(ns[i as int]));
                assert(invocation_views(cmds@) =~= invocation_views(before).push(command@));
            }
            i += 1;
        }
        assert(ns.take(i as int) =~= ns);
        cmds
    }

    fn list(&self) -> (r: Invocation) {
        let r = Invocation::new("dotnet").arg("tool").arg("list").arg("-g");
        assert(r@.args =~= seq!["tool"@, "list"@, "-g"@]);
        r
    }

    fn parse_list(&self, stdout: &str) -> (r: Vec<PackageSpec>) {
        // Anchoring on the row of dashes survives header wording and locale.
        let rows = split_lines(&chars_of(stdout));
        let ghost ls = views(rows@);
        let mut i: usize = 0;
        while i < rows.len() && !is_rule_line(&rows[i])
            invariant
                i <= rows.len(),
                ls == views(rows@),
                rule_at(ls, 0) == rule_at(ls, i as int),
            decreases rows.len() - i,
        {
            assert(ls[i as int] == rows@[i as int]@);
            i += 1;
        }
        if i < rows.len() {
            assert(ls[i as int] == rows@[i as int]@);
            parse_rows(&rows, i + 1)
        } else {
            parse_rows(&rows, 2)
        }
    }

    fn supports_pinning(&self) -> (r: bool) {
        true
    }

    fn name_selects_version(&self, name: &str) -> (r: bool) {
        false
    }
}

} // verus!
