use vstd::prelude::*;

use crate::manifest::grammar::{PackageSpec, PackageView};
use crate::invocation::{Invocation, InvocationView, invocation_views, texts};
use crate::manager::brew::names_of;
use crate::manager::{Manager, parse_rows, rows_packages};
use crate::package_map::spec_views;
use crate::text::{
    char_is_alphanumeric, chars_of, is_alphanumeric, lines, push_char, split_lines, string_of,
    trim, trimmed, views,
};

verus! {

#[derive(Debug)]
pub enum NodeTool {
    Npm,
    Pnpm,
}

#[derive(Debug)]
pub struct Node {
    pub tool: NodeTool,
}

/// npm and pnpm both take `name@version` as a command-line argument.
pub open spec fn registry_text(p: PackageView) -> Seq<char> {
    match p.version {
        Some(v) => p.name + seq!['@'] + v,
        None => p.name,
    }
}

/// The last `'@'` before `j`, or -1.
pub open spec fn last_at(s: Seq<char>, j: int) -> int
    decreases j,
{
    if j <= 0 || j > s.len() {
        -1
    } else if s[j - 1] == '@' {
        j - 1
    } else {
        last_at(s, j - 1)
    }
}

/// npm's `name@version`, where a leading `@` starts a scope rather than a version.
pub open spec fn registry_package(text: Seq<char>) -> PackageView {
    let at = last_at(text, text.len() as int);
    if at > 0 {
        let version = trim(text.subrange(at + 1, text.len() as int));
        if version.len() == 0 {
            PackageView { name: text.subrange(0, at), version: None }
        } else {
            PackageView { name: text.subrange(0, at), version: Some(version) }
        }
    } else {
        PackageView { name: text, version: None }
    }
}

/// Where a package starts in a tree line: the first letter, digit or `@`.
pub open spec fn mark_at(s: Seq<char>, i: int) -> int
    decreases s.len() - i,
{
    if i < 0 || i >= s.len() || is_alphanumeric(s[i]) || s[i] == '@' {
        i
    } else {
        mark_at(s, i + 1)
    }
}

/// The package a line of npm's tree names, if any.
pub open spec fn npm_row(line: Seq<char>) -> Option<PackageView> {
    let start = mark_at(line, 0);
    if start >= line.len() {
        None
    } else {
        let p = registry_package(line.subrange(start, line.len() as int));
        if p.name.len() == 0 {
            None
        } else {
            Some(p)
        }
    }
}

pub open spec fn npm_rows(ls: Seq<Seq<char>>) -> Seq<PackageView>
    decreases ls.len(),
{
    if ls.len() == 0 {
        seq![]
    } else {
        let rest = npm_rows(ls.drop_last());
        match npm_row(ls.last()) {
            Some(p) => rest.push(p),
            None => rest,
        }
    }
}

/// npm prints the global prefix, then a tree of `name@version`.
pub open spec fn npm_listing(stdout: Seq<char>) -> Seq<PackageView> {
    let ls = lines(stdout);
    if ls.len() == 0 {
        seq![]
    } else {
        npm_rows(ls.drop_first())
    }
}

/// Whether `pat` occurs in `s`.
pub open spec fn mentions(s: Seq<char>, pat: Seq<char>) -> bool {
    exists|i: int| 0 <= i && i + pat.len() <= s.len() && #[trigger] s.subrange(i, i + pat.len()) == pat
}

/// The first line at or after `i` that mentions `dependencies:`, or the number of lines.
pub open spec fn dependencies_at(ls: Seq<Seq<char>>, i: int) -> int
    decreases ls.len() - i,
{
    if i < 0 || i >= ls.len() || mentions(ls[i], "dependencies:"@) {
        i
    } else {
        dependencies_at(ls, i + 1)
    }
}

/// pnpm prints a legend and prefix, then `name version` under `dependencies:`.
pub open spec fn pnpm_listing(stdout: Seq<char>) -> Seq<PackageView> {
    let ls = lines(stdout);
    let d = dependencies_at(ls, 0);
    if d < ls.len() {
        rows_packages(ls.subrange(d + 1, ls.len() as int))
    } else {
        seq![]
    }
}

fn registry_arg(spec: &PackageSpec) -> (r: String)
    ensures
        r@ == registry_text(spec@),
{
    match &spec.version {
        Some(version) => {
            let mut r = spec.name.clone();
            push_char(&mut r, '@');
            r.append(version.as_str());
            r
        },
        None => spec.name.clone(),
    }
}

/// Split npm's `name@version`, treating a leading `@` as a scope.
///
/// This is registry syntax, not manifest syntax: here the last `@` really is
/// the separator. The split lives in this backend precisely so that
/// `PackageSpec::parse` can keep manifest names opaque.
pub fn split_registry_spec(text: &Vec<char>) -> (r: PackageSpec)
    ensures
        r@ == registry_package(text@),
{
    let mut j = text.len();
    while j > 0 && text[j - 1] != '@'
        invariant
            j <= text.len(),
            last_at(text@, text@.len() as int) == last_at(text@, j as int),
        decreases j,
    {
        j -= 1;
    }
    if j > 1 {
        let at = j - 1;
        let rest = chars_range_of(text, at + 1, text.len());
        let version = trimmed(&rest);
        let name = string_of(text, 0, at);
        if version.len() == 0 {
            PackageSpec { name, version: None }
        } else {
            let v = string_of(&version, 0, version.len());
            assert(version@.subrange(0, version@.len() as int) =~= version@);
            PackageSpec { name, version: Some(v) }
        }
    } else {
        let name = string_of(text, 0, text.len());
        assert(text@.subrange(0, text@.len() as int) =~= text@);
        PackageSpec { name, version: None }
    }
}

fn chars_range_of(v: &Vec<char>, from: usize, to: usize) -> (r: Vec<char>)
    requires
        from <= to <= v.len(),
    ensures
        r@ == v@.subrange(from as int, to as int),
{
    crate::text::chars_range(v, from, to)
}

fn parse_npm(stdout: &str) -> (r: Vec<PackageSpec>)
    ensures
        spec_views(r@) == npm_listing(stdout@),
{
    let rows = split_lines(&chars_of(stdout));
    let ghost ls = views(rows@);
    let mut out: Vec<PackageSpec> = Vec::new();
    if rows.len() == 0 {
        assert(spec_views(out@) =~= Seq::<PackageView>::empty());
        return out;
    }
    let ghost body = ls.drop_first();
    let mut i: usize = 1;
    while i < rows.len()
        invariant
            1 <= i <= rows.len(),
            ls == views(rows@),
            body == ls.drop_first(),
            spec_views(out@) == npm_rows(body.take(i - 1)),
        decreases rows.len() - i,
    {
        assert(body.take(i as int).drop_last() =~= body.take(i - 1));
        assert(body.take(i as int).last() == rows@[i as int]@);
        let line = &rows[i];
        let mut start: usize = 0;
        while start < line.len() && !(char_is_alphanumeric(line[start]) || line[start] == '@')
            invariant
                start <= line.len(),
                mark_at(line@, 0) == mark_at(line@, start as int),
            decreases line.len() - start,
        {
            start += 1;
        }
        if start < line.len() {
            let text = chars_range_of(line, start, line.len());
            let spec = split_registry_spec(&text);
            if spec.name.as_str().unicode_len() > 0 {
                let ghost before = out@;
                out.push(spec);
                assert(spec_views(out@) =~= spec_views(before).push(spec@));
            }
        }
        i += 1;
    }
    assert(body.take(i - 1) =~= body);
    out
}

/// Whether `line` mentions `pat`.
fn line_mentions(line: &Vec<char>, pat: &Vec<char>) -> (r: bool)
    ensures
        r == mentions(line@, pat@),
{
    if pat.len() > line.len() {
        return false;
    }
    let mut i: usize = 0;
    while i <= line.len() - pat.len()
        invariant
            pat.len() <= line.len(),
            i <= line.len() - pat.len() + 1,
            forall|k: int| 0 <= k < i ==> #[trigger] line@.subrange(k, k + pat@.len()) != pat@,
        decreases line.len() - i,
    {
        let mut j: usize = 0;
        while j < pat.len() && line[i + j] == pat[j]
            invariant
                i + pat.len() <= line.len(),
                j <= pat.len(),
                forall|m: int| 0 <= m < j ==> line@[i + m] == pat@[m],
            decreases pat.len() - j,
        {
            j += 1;
        }
        if j == pat.len() {
            assert(line@.subrange(i as int, i + pat@.len()) =~= pat@);
            return true;
        }
        assert(line@.subrange(i as int, i + pat@.len())[j as int] != pat@[j as int]);
        i += 1;
    }
    false
}

fn parse_pnpm(stdout: &str) -> (r: Vec<PackageSpec>)
    ensures
        spec_views(r@) == pnpm_listing(stdout@),
{
    let rows = split_lines(&chars_of(stdout));
    let ghost ls = views(rows@);
    let marker = chars_of("dependencies:");
    let mut i: usize = 0;
    while i < rows.len() && !line_mentions(&rows[i], &marker)
        invariant
            i <= rows.len(),
            ls == views(rows@),
            marker@ == "dependencies:"@,
            dependencies_at(ls, 0) == dependencies_at(ls, i as int),
        decreases rows.len() - i,
    {
        assert(ls[i as int] == rows@[i as int]@);
        i += 1;
    }
    if i < rows.len() {
        assert(ls[i as int] == rows@[i as int]@);
        parse_rows(&rows, i + 1)
    } else {
        let out: Vec<PackageSpec> = Vec::new();
        assert(spec_views(out@) =~= Seq::<PackageView>::empty());
        out
    }
}

pub open spec fn node_program(tool: NodeTool) -> Seq<char> {
    match tool {
        NodeTool::Npm => "npm"@,
        NodeTool::Pnpm => "pnpm"@,
    }
}

pub open spec fn node_install(tool: NodeTool, packages: Seq<PackageView>) -> Seq<InvocationView> {
    if packages.len() == 0 {
        seq![]
    } else {
        seq![InvocationView {
            program: node_program(tool),
            args: match tool {
                NodeTool::Npm => seq!["install"@, "-g"@],
                NodeTool::Pnpm => seq!["add"@, "-g"@],
            } + packages.map_values(|p: PackageView| registry_text(p)),
            needs_root: false,
        }]
    }
}

/// npm and pnpm act on the global package set: every install, removal and
/// listing carries `-g` as its second argument, the verb first (`install` or
/// `add`, `uninstall` or `remove`) and the packages after it.
pub proof fn law_node_tools_act_globally(tool: NodeTool, packages: Seq<PackageView>, names: Seq<Seq<char>>)
    ensures
        packages.len() > 0 ==> node_install(tool, packages).len() == 1,
        packages.len() == 0 ==> node_install(tool, packages).len() == 0,
        packages.len() > 0 ==> {
            let c = node_install(tool, packages)[0];
            &&& c.program == node_program(tool)
            &&& c.args.len() == packages.len() + 2
            &&& c.args[0] == (match tool {
                NodeTool::Npm => "install"@,
                NodeTool::Pnpm => "add"@,
            })
            &&& c.args[1] == "-g"@
            &&& forall|k: int| 0 <= k < packages.len() ==> c.args[k + 2] == #[trigger] registry_text(packages[k])
        },
        names.len() > 0 ==> (Node { tool }).spec_uninstall(names).len() == 1,
        names.len() == 0 ==> (Node { tool }).spec_uninstall(names).len() == 0,
        names.len() > 0 ==> {
            let c = (Node { tool }).spec_uninstall(names)[0];
            &&& c.program == node_program(tool)
            &&& c.args.len() == names.len() + 2
            &&& c.args[0] == (match tool {
                NodeTool::Npm => "uninstall"@,
                NodeTool::Pnpm => "remove"@,
            })
            &&& c.args[1] == "-g"@
            &&& c.args.skip(2) == names
        },
        (Node { tool }).spec_list().args.len() >= 2,
        (Node { tool }).spec_list().args[1] == "-g"@,
{
    if names.len() > 0 {
        let c = (Node { tool }).spec_uninstall(names)[0];
        assert(c.args.skip(2) =~= names);
    }
}

impl Node {
    pub fn install(&self, packages: &[PackageSpec]) -> (r: Result<Vec<Invocation>, ()>)
        ensures
            r matches Ok(cmds) && invocation_views(cmds@) == node_install(self.tool, spec_views(packages@)),
    {
        let mut cmds: Vec<Invocation> = Vec::new();
        if packages.len() == 0 {
            assert(invocation_views(cmds@) =~= Seq::<InvocationView>::empty());
            return Ok(cmds);
        }
        // Built explicitly rather than from the manifest spelling, which is
        // `name version`: not what a registry client accepts on its command line.
        let ghost ps = spec_views(packages@);
        let mut specs: Vec<String> = Vec::new();
        let mut i: usize = 0;
        while i < packages.len()
            invariant
                i <= packages.len(),
                ps == spec_views(packages@),
                texts(specs@) == ps.take(i as int).map_values(|p: PackageView| registry_text(p)),
            decreases packages.len() - i,
        {
            let a = registry_arg(&packages[i]);
            let ghost before = specs@;
            specs.push(a);
            assert(texts(specs@) =~= ps.take(i + 1).map_values(|p: PackageView| registry_text(p))) by {
                assert(ps.take(i + 1) =~= ps.take(i as int).push(ps[i as int]));
                assert(texts(specs@) =~= texts(before).push(a@));
            }
            i += 1;
        }
        assert(ps.take(i as int) =~= ps);
        let command = match self.tool {
            NodeTool::Npm => Invocation::new("npm").arg("install").arg("-g").extend(specs),
            // `pnpm install -g` does not add a global package; `pnpm add -g` does.
            NodeTool::Pnpm => Invocation::new("pnpm").arg("add").arg("-g").extend(specs),
        };
        assert(command@.args =~= node_install(self.tool, ps)[0].args);
        cmds.push(command);
        assert(invocation_views(cmds@) =~= seq![command@]);
        Ok(cmds)
    }
}

impl Manager for Node {
    open spec fn spec_id(&self) -> Seq<char> {
        node_program(self.tool)
    }

    open spec fn spec_binary(&self) -> Seq<char> {
        node_program(self.tool)
    }

    open spec fn spec_supports_pinning(&self) -> bool {
        true
    }

    open spec fn spec_name_selects_version(&self, name: Seq<char>) -> bool {
        false
    }

    open spec fn spec_uninstall(&self, names: Seq<Seq<char>>) -> Seq<InvocationView> {
        if names.len() == 0 {
            seq![]
        } else {
            seq![InvocationView {
                program: node_program(self.tool),
                args: match self.tool {
                    NodeTool::Npm => seq!["uninstall"@, "-g"@],
                    NodeTool::Pnpm => seq!["remove"@, "-g"@],
                } + names,
                needs_root: false,
            }]
        }
    }

    open spec fn spec_list(&self) -> InvocationView {
        InvocationView {
            program: node_program(self.tool),
            args: seq!["list"@, "-g"@, "--depth=0"@],
            needs_root: false,
        }
    }

    open spec fn spec_parse_list(&self, stdout: Seq<char>) -> Seq<PackageView> {
        match self.tool {
            NodeTool::Npm => npm_listing(stdout),
            NodeTool::Pnpm => pnpm_listing(stdout),
        }
    }

    fn id(&self) -> (r: &'static str) {
        match self.tool {
            NodeTool::Npm => "npm",
            NodeTool::Pnpm => "pnpm",
        }
    }

    fn binary(&self) -> (r: &'static str) {
        self.id()
    }

    fn uninstall(&self, names: &[String]) -> (r: Vec<Invocation>) {
        let mut cmds: Vec<Invocation> = Vec::new();
        if names.len() == 0 {
            assert(invocation_views(cmds@) =~= Seq::<InvocationView>::empty());
            return cmds;
        }
        let ghost ns = names@.map_values(|s: String| s@);
        let names = crate::invocation::clone_strings(names);
        let command = match self.tool {
            NodeTool::Npm => Invocation::new("npm").arg("uninstall").arg("-g").extend(names),
            NodeTool::Pnpm => Invocation::new("pnpm").arg("remove").arg("-g").extend(names),
        };
        assert(command@.args =~= self.spec_uninstall(ns)[0].args);
        cmds.push(command);
        assert(invocation_views(cmds@) =~= seq![command@]);
        cmds
    }

    fn list(&self) -> (r: Invocation) {
        let r = match self.tool {
            NodeTool::Npm => Invocation::new("npm"),
            NodeTool::Pnpm => Invocation::new("pnpm"),
        }.arg("list").arg("-g").arg("--depth=0");
        assert(r@.args =~= seq!["list"@, "-g"@, "--depth=0"@]);
        r
    }

    fn parse_list(&self, stdout: &str) -> (r: Vec<PackageSpec>) {
        match self.tool {
            NodeTool::Npm => parse_npm(stdout),
            NodeTool::Pnpm => parse_pnpm(stdout),
        }
    }

    fn supports_pinning(&self) -> (r: bool) {
        true
    }

    fn name_selects_version(&self, name: &str) -> (r: bool) {
        false
    }
}

} // verus!
