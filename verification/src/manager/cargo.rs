use vstd::prelude::*;

use crate::manifest::grammar::{PackageSpec, PackageView};
use crate::invocation::{Invocation, InvocationView, invocation_views};
use crate::manager::brew::names_of;
use crate::manager::{Manager, loose_of, name_texts, partition_pinned, pinned_of};
use crate::package_map::spec_views;
use crate::text::{
    char_is_space, chars_of, is_space, is_word, lines, split_lines, split_words, string_of, views, words,
};

verus! {

#[derive(Debug)]
pub struct Cargo;

/// `s` without every trailing `c`.
pub open spec fn drop_trailing(s: Seq<char>, c: char) -> Seq<char>
    decreases s.len(),
{
    if s.len() > 0 && s.last() == c {
        drop_trailing(s.drop_last(), c)
    } else {
        s
    }
}

/// `s` without every leading `c`.
pub open spec fn drop_leading(s: Seq<char>, c: char) -> Seq<char>
    decreases s.len(),
{
    if s.len() > 0 && s[0] == c {
        drop_leading(s.drop_first(), c)
    } else {
        s
    }
}

/// A crate row of `cargo install --list`: `name vX.Y.Z:` at column zero.
pub open spec fn crate_row(line: Seq<char>) -> Option<PackageView> {
    let ws = words(line);
    if line.len() == 0 || is_space(line[0]) || ws.len() == 0 {
        None
    } else if ws.len() == 1 {
        Some(PackageView { name: ws[0], version: None })
    } else {
        let v = drop_leading(drop_trailing(ws[1], ':'), 'v');
        if v.len() == 0 {
            Some(PackageView { name: ws[0], version: None })
        } else {
            Some(PackageView { name: ws[0], version: Some(v) })
        }
    }
}

pub open spec fn crate_rows(ls: Seq<Seq<char>>) -> Seq<PackageView>
    decreases ls.len(),
{
    if ls.len() == 0 {
        seq![]
    } else {
        let rest = crate_rows(ls.drop_last());
        match crate_row(ls.last()) {
            Some(p) => rest.push(p),
            None => rest,
        }
    }
}

/// One `cargo install <crate> --version <version>` per pinned crate.
pub open spec fn pinned_cargo_installs(pinned: Seq<PackageView>) -> Seq<InvocationView> {
    pinned.map_values(|p: PackageView| InvocationView {
        program: "cargo"@,
        args: seq!["install"@, p.name, "--version"@, p.version->0],
        needs_root: false,
    })
}

pub open spec fn cargo_install(packages: Seq<PackageView>) -> Seq<InvocationView> {
    let loose = loose_of(packages);
    (if loose.len() > 0 {
        seq![InvocationView { program: "cargo"@, args: seq!["install"@] + name_texts(loose), needs_root: false }]
    } else {
        Seq::<InvocationView>::empty()
    }) + pinned_cargo_installs(pinned_of(packages))
}

pub proof fn lemma_pinned_versions(s: Seq<PackageView>)
    ensures
        forall|i: int| 0 <= i < pinned_of(s).len() ==> (#[trigger] pinned_of(s)[i]).version is Some,
    decreases s.len(),
{
    if s.len() > 0 {
        lemma_pinned_versions(s.drop_last());
    }
}

proof fn lemma_crate_rows_cons(l: Seq<char>, ls: Seq<Seq<char>>)
    ensures
        crate_rows(seq![l] + ls) == crate_rows(seq![l]) + crate_rows(ls),
    decreases ls.len(),
{
    if ls.len() == 0 {
        assert(seq![l] + ls =~= seq![l]);
        assert(crate_rows(seq![l]) + crate_rows(ls) =~= crate_rows(seq![l]));
    } else {
        lemma_crate_rows_cons(l, ls.drop_last());
        assert((seq![l] + ls).drop_last() =~= seq![l] + ls.drop_last());
        assert((seq![l] + ls).last() == ls.last());
        match crate_row(ls.last()) {
            Some(p) => {
                assert(crate_rows(seq![l]) + crate_rows(ls) =~= (crate_rows(seq![l]) + crate_rows(
                    ls.drop_last(),
                )).push(p));
            },
            None => {},
        }
    }
}

/// A crate row of `cargo install --list` reads as the crate at the version its
/// second word names, `vX:` giving `X`, whatever else the line holds after it
/// (such as the source path of a crate installed with `--path`) and whatever
/// lines follow.
pub proof fn law_cargo_reads_the_version_after_the_name(
    name: Seq<char>,
    version: Seq<char>,
    rest: Seq<char>,
    more: Seq<char>,
)
    requires
        is_word(name),
        is_word(version),
        version[0] != 'v',
        version.last() != ':',
        rest.len() == 0 || is_space(rest[0]),
        forall|k: int| 0 <= k < rest.len() ==> #[trigger] rest[k] != '\n',
        rest.len() == 0 || rest.last() != '\r',
    ensures
        Cargo.spec_parse_list(name + seq![' ', 'v'] + version + seq![':'] + rest + seq!['\n'] + more).len() > 0,
        Cargo.spec_parse_list(name + seq![' ', 'v'] + version + seq![':'] + rest + seq!['\n'] + more)[0]
            == (PackageView { name, version: Some(version) }),
{
    let w = seq!['v'] + version + seq![':'];
    assert forall|k: int| 0 <= k < w.len() implies !is_space(#[trigger] w[k]) by {
        if 0 < k < w.len() - 1 {
            assert(w[k] == version[k - 1]);
        }
    }
    let line = name + seq![' '] + w + rest;
    assert(name + seq![' ', 'v'] + version + seq![':'] + rest =~= line);
    assert forall|k: int| 0 <= k < line.len() implies #[trigger] line[k] != '\n' by {
        let n = name.len() as int;
        if k < n {
            assert(line[k] == name[k]);
        } else if k == n {
        } else if k < n + 1 + w.len() {
            assert(line[k] == w[k - n - 1]);
        } else {
            assert(line[k] == rest[k - n - 1 - w.len()]);
        }
    }
    if rest.len() == 0 {
        assert(line.last() == ':');
    } else {
        assert(line.last() == rest.last());
    }
    crate::text::lemma_lines_cons(line, more);
    assert(line + seq!['\n'] + more =~= name + seq![' ', 'v'] + version + seq![':'] + rest + seq!['\n'] + more);
    lemma_crate_rows_cons(line, lines(more));
    crate::text::lemma_words_pair_then(name, w, rest);
    let ws = words(line);
    assert(line[0] == name[0]);
    assert(w.drop_last() =~= seq!['v'] + version);
    assert(drop_trailing(seq!['v'] + version, ':') == seq!['v'] + version);
    assert(drop_trailing(w, ':') == seq!['v'] + version);
    assert((seq!['v'] + version).drop_first() =~= version);
    assert(drop_leading(version, 'v') == version);
    assert(drop_leading(seq!['v'] + version, 'v') == version);
    assert(crate_row(line) == Some(PackageView { name, version: Some(version) }));
    assert(seq![line].drop_last() =~= Seq::<Seq<char>>::empty());
    assert(seq![line].last() == line);
    assert(crate_rows(Seq::<Seq<char>>::empty()) =~= Seq::<PackageView>::empty());
    assert(crate_rows(seq![line]) =~= seq![PackageView { name, version: Some(version) }]);
}

fn crate_version(word: &Vec<char>) -> (r: (usize, usize))
    ensures
        r.0 <= r.1 <= word.len(),
        word@.subrange(r.0 as int, r.1 as int) == drop_leading(drop_trailing(word@, ':'), 'v'),
{
    let mut end = word.len();
    assert(word@.subrange(0, end as int) =~= word@);
    while end > 0 && word[end - 1] == ':'
        invariant
            end <= word.len(),
            drop_trailing(word@, ':') == drop_trailing(word@.subrange(0, end as int), ':'),
        decreases end,
    {
        assert(word@.subrange(0, end as int).drop_last() =~= word@.subrange(0, end - 1));
        end -= 1;
    }
    let ghost trimmed = word@.subrange(0, end as int);
    assert(drop_trailing(trimmed, ':') == trimmed);
    let mut start: usize = 0;
    while start < end && word[start] == 'v'
        invariant
            start <= end <= word.len(),
            trimmed == word@.subrange(0, end as int),
            drop_leading(trimmed, 'v') == drop_leading(word@.subrange(start as int, end as int), 'v'),
        decreases end - start,
    {
        assert(word@.subrange(start as int, end as int).drop_first() =~= word@.subrange(
            start + 1,
            end as int,
        ));
        start += 1;
    }
    (start, end)
}

impl Cargo {
    pub fn install(&self, packages: &[PackageSpec]) -> (r: Result<Vec<Invocation>, ()>)
        ensures
            r matches Ok(cmds) && invocation_views(cmds@) == cargo_install(spec_views(packages@)),
    {
        // `--version` binds to the whole invocation, so every pinned crate
        // needs its own command. Unpinned crates still go out in one batch.
        let (pinned, loose) = partition_pinned(packages);
        let ghost ps = spec_views(pinned@);
        proof {
            lemma_pinned_versions(spec_views(packages@));
        }
        let mut commands: Vec<Invocation> = Vec::new();
        if loose.len() > 0 {
            let command = Invocation::new("cargo").arg("install").extend(names_of(loose.as_slice()));
            commands.push(command);
        }
        let ghost head = invocation_views(commands@);
        assert(head == (if loose_of(spec_views(packages@)).len() > 0 {
            seq![InvocationView { program: "cargo"@, args: seq!["install"@] + name_texts(loose_of(spec_views(packages@))), needs_root: false }]
        } else {
            Seq::<InvocationView>::empty()
        }));
        let mut i: usize = 0;
        while i < pinned.len()
            invariant
                i <= pinned.len(),
                ps == spec_views(pinned@),
                ps == pinned_of(spec_views(packages@)),
                forall|k: int| 0 <= k < ps.len() ==> (#[trigger] ps[k]).version is Some,
                invocation_views(commands@) == head + pinned_cargo_installs(ps.take(i as int)),
            decreases pinned.len() - i,
        {
            let spec = &pinned[i];
            assert(ps[i as int] == spec@);
            let version = match &spec.version {
                Some(v) => v.as_str(),
                None => "",
            };
            let command = Invocation::new("cargo").arg("install").arg(spec.name.as_str()).arg(
                "--version",
            ).arg(version);
            let ghost before = commands@;
            commands.push(command);
            assert(invocation_views(commands@) =~= head + pinned_cargo_installs(ps.take(i + 1))) by {
                assert(ps.take(i + 1) =~= ps.take(i as int).push(ps[i as int]));
                assert(command@.args =~= seq!["install"@, spec@.name, "--version"@, spec@.version->0]);
                assert(invocation_views(commands@) =~= invocation_views(before).push(command@));
            }
            i += 1;
        }
        assert(ps.take(i as int) =~= ps);
        Ok(commands)
    }
}

impl Manager for Cargo {
    open spec fn spec_id(&self) -> Seq<char> {
        "cargo"@
    }

    open spec fn spec_binary(&self) -> Seq<char> {
        "cargo"@
    }

    open spec fn spec_supports_pinning(&self) -> bool {
        true
    }

    open spec fn spec_name_selects_version(&self, name: Seq<char>) -> bool {
        false
    }

    open spec fn spec_uninstall(&self, names: Seq<Seq<char>>) -> Seq<InvocationView> {
        if names.len() == 0 {
            seq![]
        } else {
            seq![InvocationView { program: "cargo"@, args: seq!["uninstall"@] + names, needs_root: false }]
        }
    }

    open spec fn spec_list(&self) -> InvocationView {
        InvocationView { program: "cargo"@, args: seq!["install"@, "--list"@], needs_root: false }
    }

    open spec fn spec_parse_list(&self, stdout: Seq<char>) -> Seq<PackageView> {
        crate_rows(lines(stdout))
    }

    fn id(&self) -> (r: &'static str) {
        "cargo"
    }

    fn binary(&self) -> (r: &'static str) {
        "cargo"
    }

    fn uninstall(&self, names: &[String]) -> (r: Vec<Invocation>) {
        let mut cmds: Vec<Invocation> = Vec::new();
        if names.len() == 0 {
            assert(invocation_views(cmds@) =~= Seq::<InvocationView>::empty());
            return cmds;
        }
        let command = Invocation::new("cargo").arg("uninstall").extend(
            crate::invocation::clone_strings(names),
        );
        cmds.push(command);
        assert(invocation_views(cmds@) =~= seq![command@]);
        cmds
    }

    fn list(&self) -> (r: Invocation) {
        let r = Invocation::new("cargo").arg("install").arg("--list");
        assert(r@.args =~= seq!["install"@, "--list"@]);
        r
    }

    fn parse_list(&self, stdout: &str) -> (r: Vec<PackageSpec>) {
        // Crates start at column zero as `name vX.Y.Z:`; their binaries follow,
        // indented.
        let rows = split_lines(&chars_of(stdout));
        let ghost ls = views(rows@);
        let mut out: Vec<PackageSpec> = Vec::new();
        let mut i: usize = 0;
        while i < rows.len()
            invariant
                i <= rows.len(),
                ls == views(rows@),
                ls == lines(stdout@),
                spec_views(out@) == crate_rows(ls.take(i as int)),
            decreases rows.len() - i,
        {
            assert(ls.take(i + 1).drop_last() =~= ls.take(i as int));
            assert(ls.take(i + 1).last() == rows@[i as int]@);
            let line = &rows[i];
            if line.len() > 0 && !char_is_space(line[0]) {
                let fields = split_words(line);
                assert(views(fields@) == words(line@));
                if fields.len() > 0 {
                    assert(fields@[0]@ == words(line@)[0]);
                    let name = string_of(&fields[0], 0, fields[0].len());
                    assert(fields@[0]@.subrange(0, fields@[0]@.len() as int) =~= fields@[0]@);
                    let p = if fields.len() > 1 {
                        assert(fields@[1]@ == words(line@)[1]);
                        let (a, b) = crate_version(&fields[1]);
                        if a < b {
                            PackageSpec { name, version: Some(string_of(&fields[1], a, b)) }
                        } else {
                            PackageSpec { name, version: None }
                        }
                    } else {
                        PackageSpec { name, version: None }
                    };
                    let ghost before = out@;
                    out.push(p);
                    assert(spec_views(out@) =~= spec_views(before).push(p@));
                }
            }
            i += 1;
        }
        assert(ls.take(i as int) =~= ls);
        out
    }

    fn supports_pinning(&self) -> (r: bool) {
        true
    }

    fn name_selects_version(&self, name: &str) -> (r: bool) {
        false
    }
}

} // verus!
