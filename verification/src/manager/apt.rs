use vstd::prelude::*;

use crate::manifest::grammar::{PackageSpec, PackageView};
use crate::invocation::{Invocation, InvocationView, invocation_views, texts};
use crate::manager::Manager;
use crate::package_map::spec_views;
use crate::text::{chars_of, lines, push_char, split_lines, split_words, string_of, views, words};

verus! {

#[derive(Debug)]
pub struct Apt;

/// apt spells a version constraint `name=version`.
pub open spec fn apt_arg(p: PackageView) -> Seq<char> {
    match p.version {
        Some(v) => p.name + seq!['='] + v,
        None => p.name,
    }
}

pub open spec fn apt_install(packages: Seq<PackageView>) -> Seq<InvocationView> {
    if packages.len() == 0 {
        seq![]
    } else {
        seq![InvocationView {
            program: "apt-get"@,
            args: seq!["install"@, "-y"@] + packages.map_values(|p: PackageView| apt_arg(p)),
            needs_root: true,
        }]
    }
}

/// The first word of each non-blank line.
pub open spec fn first_words(ls: Seq<Seq<char>>) -> Seq<PackageView>
    decreases ls.len(),
{
    if ls.len() == 0 {
        seq![]
    } else {
        let rest = first_words(ls.drop_last());
        let ws = words(ls.last());
        if ws.len() == 0 {
            rest
        } else {
            rest.push(PackageView { name: ws[0], version: None })
        }
    }
}

fn spec_arg(spec: &PackageSpec) -> (r: String)
    ensures
        r@ == apt_arg(spec@),
{
    match &spec.version {
        Some(version) => {
            let mut r = spec.name.clone();
            push_char(&mut r, '=');
            r.append(version.as_str());
            r
        },
        None => spec.name.clone(),
    }
}

impl Apt {
    pub fn install(&self, packages: &[PackageSpec]) -> (r: Result<Vec<Invocation>, ()>)
        ensures
            r matches Ok(cmds) && invocation_views(cmds@) == apt_install(spec_views(packages@)),
    {
        if packages.len() == 0 {
            let v: Vec<Invocation> = Vec::new();
            assert(invocation_views(v@) =~= Seq::<InvocationView>::empty());
            return Ok(v);
        }
        let ghost ps = spec_views(packages@);
        let mut args: Vec<String> = Vec::new();
        let mut i: usize = 0;
        while i < packages.len()
            invariant
                i <= packages.len(),
                ps == spec_views(packages@),
                texts(args@) == ps.take(i as int).map_values(|p: PackageView| apt_arg(p)),
            decreases packages.len() - i,
        {
            let a = spec_arg(&packages[i]);
            let ghost before = args@;
            args.push(a);
            assert(texts(args@) =~= ps.take(i + 1).map_values(|p: PackageView| apt_arg(p))) by {
                assert(ps.take(i + 1) =~= ps.take(i as int).push(ps[i as int]));
                assert(texts(args@) =~= texts(before).push(a@));
            }
            i += 1;
        }
        assert(ps.take(i as int) =~= ps);
        // apt-get rather than apt: apt's own manual warns that its CLI is not
        // stable for scripting.
        //
        // -y is passed for installs because mpm has already shown the plan and
        // taken confirmation. It is deliberately *not* passed for removals
        // below, where apt's own prompt is a useful second gate.
        let command = Invocation::new("apt-get").as_root().arg("install").arg("-y").extend(args);
        assert(command@.args =~= seq!["install"@, "-y"@] + ps.map_values(|p: PackageView| apt_arg(p)));
        let mut cmds: Vec<Invocation> = Vec::new();
        cmds.push(command);
        assert(invocation_views(cmds@) =~= seq![command@]);
        Ok(cmds)
    }
}

impl Manager for Apt {
    open spec fn spec_id(&self) -> Seq<char> {
        "apt"@
    }

    open spec fn spec_binary(&self) -> Seq<char> {
        "apt"@
    }

    open spec fn spec_supports_pinning(&self) -> bool {
        false
    }

    open spec fn spec_name_selects_version(&self, name: Seq<char>) -> bool {
        false
    }

    open spec fn spec_uninstall(&self, names: Seq<Seq<char>>) -> Seq<InvocationView> {
        if names.len() == 0 {
            seq![]
        } else {
            seq![InvocationView { program: "apt-get"@, args: seq!["remove"@] + names, needs_root: true }]
        }
    }

    open spec fn spec_list(&self) -> InvocationView {
        InvocationView { program: "apt-mark"@, args: seq!["showmanual"@], needs_root: false }
    }

    open spec fn spec_parse_list(&self, stdout: Seq<char>) -> Seq<PackageView> {
        first_words(lines(stdout))
    }

    fn id(&self) -> (r: &'static str) {
        "apt"
    }

    fn binary(&self) -> (r: &'static str) {
        "apt"
    }

    fn uninstall(&self, names: &[String]) -> (r: Vec<Invocation>) {
        let mut cmds: Vec<Invocation> = Vec::new();
        if names.len() == 0 {
            assert(invocation_views(cmds@) =~= Seq::<InvocationView>::empty());
            return cmds;
        }
        // `remove`, never `purge`: purge also deletes the package's configuration
        // files, which is not something a package-list sync should decide.
        let command = Invocation::new("apt-get").as_root().arg("remove").extend(
            crate::invocation::clone_strings(names),
        );
        cmds.push(command);
        assert(invocation_views(cmds@) =~= seq![command@]);
        cmds
    }

    fn list(&self) -> (r: Invocation) {
        // Manual packages only; the rest are dependencies.
        Invocation::new("apt-mark").arg("showmanual")
    }

    fn parse_list(&self, stdout: &str) -> (r: Vec<PackageSpec>) {
        // apt-mark reports names without versions.
        let rows = split_lines(&chars_of(stdout));
        let ghost ls = views(rows@);
        let mut out: Vec<PackageSpec> = Vec::new();
        let mut i: usize = 0;
        while i < rows.len()
            invariant
                i <= rows.len(),
                ls == views(rows@),
                ls == lines(stdout@),
                spec_views(out@) == first_words(ls.take(i as int)),
            decreases rows.len() - i,
        {
            assert(ls.take(i + 1).drop_last() =~= ls.take(i as int));
            assert(ls.take(i + 1).last() == rows@[i as int]@);
            let fields = split_words(&rows[i]);
            assert(views(fields@) == words(rows@[i as int]@));
            if fields.len() > 0 {
                assert(fields@[0]@ == words(rows@[i as int]@)[0]);
                let name = string_of(&fields[0], 0, fields[0].len());
                assert(fields@[0]@.subrange(0, fields@[0]@.len() as int) =~= fields@[0]@);
                let ghost before = out@;
                let p = PackageSpec { name, version: None };
                out.push(p);
                assert(spec_views(out@) =~= spec_views(before).push(p@));
            }
            i += 1;
        }
        assert(ls.take(i as int) =~= ls);
        out
    }

    /// Declaring a version is rejected: Debian and Ubuntu prune old versions
    /// from their archives, so `name=version` works today and fails once the
    /// version is dropped. That is not a manifest that keeps its promise.
    fn supports_pinning(&self) -> (r: bool) {
        false
    }

    fn name_selects_version(&self, name: &str) -> (r: bool) {
        false
    }
}

} // verus!
