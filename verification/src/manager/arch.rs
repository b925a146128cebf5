use vstd::prelude::*;

use crate::manifest::grammar::{PackageSpec, PackageView};
use crate::invocation::{Invocation, InvocationView, invocation_views, on_path, texts};
use crate::manager::brew::names_of;
use crate::manager::{
    Manager, loose_of, name_texts, parse_two_column, partition_pinned, pinned_of,
    rows_packages,
};
use crate::package_map::spec_views;
use crate::text::{
    chars_of, chars_eq, chars_range, copy_str, join, joined, lines, push_char, split_lines,
    string_of, trim, trimmed, views,
};

verus! {

#[derive(Debug)]
pub struct Arch;

/// The tool used to install packages on this machine.
///
/// All of pacman, paru and yay read the same local database, so there is only
/// ever one Arch package set. An AUR helper is an installation detail, not a
/// separate manager -- treating them separately would make each one see the
/// other's packages as drift.
#[derive(Debug)]
pub enum Installer {
    /// `paru` or `yay`. They wrap pacman, handle repo and AUR packages alike,
    /// and call `sudo` themselves -- so they must not be run through it.
    Helper(String),
    Pacman,
}

pub enum InstallerView {
    Helper(Seq<char>),
    Pacman,
}

impl View for Installer {
    type V = InstallerView;

    open spec fn view(&self) -> InstallerView {
        match self {
            Installer::Helper(h) => InstallerView::Helper(h@),
            Installer::Pacman => InstallerView::Pacman,
        }
    }
}

pub open spec fn installer_command(i: InstallerView) -> InvocationView {
    match i {
        InstallerView::Helper(h) => InvocationView { program: h, args: seq![], needs_root: false },
        InstallerView::Pacman => InvocationView { program: "pacman"@, args: seq![], needs_root: true },
    }
}

/// The installer, given whether `paru` and `yay` are on `$PATH`: `paru`
/// first, then `yay`, else pacman itself.
pub open spec fn installer_choice(paru: bool, yay: bool) -> InstallerView {
    if paru {
        InstallerView::Helper("paru"@)
    } else if yay {
        InstallerView::Helper("yay"@)
    } else {
        InstallerView::Pacman
    }
}

/// The AUR helpers looked for, in order of preference.
pub open spec fn helper_names() -> Seq<Seq<char>> {
    seq!["paru"@, "yay"@]
}

/// The AUR helpers looked for, in order of preference.
pub fn helper_list() -> (r: Vec<&'static str>)
    ensures
        r@.map_values(|s: &str| s@) == helper_names(),
{
    let mut r: Vec<&'static str> = Vec::new();
    r.push("paru");
    r.push("yay");
    assert(r@.map_values(|s: &str| s@) =~= helper_names());
    r
}

/// The installer, `found[k]` saying whether helper `names[k]` is on `$PATH`
/// (for the helpers asked about, from `i` on): the first helper found, else
/// pacman itself.
pub open spec fn installer_from(names: Seq<Seq<char>>, found: Seq<bool>, i: int) -> InstallerView
    decreases names.len() - i,
{
    if i < 0 || i >= names.len() || i >= found.len() {
        InstallerView::Pacman
    } else if found[i] {
        InstallerView::Helper(names[i])
    } else {
        installer_from(names, found, i + 1)
    }
}

proof fn lemma_installer_from_skips(names: Seq<Seq<char>>, found: Seq<bool>, i: int)
    requires
        0 <= i <= names.len(),
        i <= found.len(),
        forall|k: int| 0 <= k < i ==> !found[k],
    ensures
        installer_from(names, found, 0) == installer_from(names, found, i),
    decreases i,
{
    if i > 0 {
        lemma_installer_from_skips(names, found, i - 1);
    }
}

impl Installer {
    /// The first of the helpers `names` that `found` marks as on `$PATH`,
    /// else pacman itself.
    pub fn first_found(names: &[&str], found: &[bool]) -> (r: Self)
        ensures
            r@ == installer_from(names@.map_values(|s: &str| s@), found@, 0),
    {
        let ghost ns = names@.map_values(|s: &str| s@);
        let mut i: usize = 0;
        while i < names.len() && i < found.len()
            invariant
                i <= names.len(),
                ns == names@.map_values(|s: &str| s@),
                installer_from(ns, found@, 0) == installer_from(ns, found@, i as int),
            decreases names.len() - i,
        {
            if found[i] {
                return Installer::Helper(copy_str(names[i]));
            }
            i += 1;
        }
        Installer::Pacman
    }

    /// The first AUR helper of `helper_names` on `$PATH`, asked about in that
    /// order (`paru`, then `yay`), else pacman itself. Whether each is on
    /// `$PATH` is the machine's answer.
    pub fn detect() -> (r: Self)
        ensures
            exists|found: Seq<bool>|
                found.len() <= helper_names().len() && r@ == installer_from(helper_names(), found, 0),
            exists|paru: bool, yay: bool| r@ == installer_choice(paru, yay),
            r@ == InstallerView::Helper("paru"@) || r@ == InstallerView::Helper("yay"@) || r@
                == InstallerView::Pacman,
    {
        let names = helper_list();
        let ghost ns = helper_names();
        let mut found: Vec<bool> = Vec::new();
        let mut i: usize = 0;
        while i < names.len()
            invariant
                i <= names.len(),
                names@.map_values(|s: &str| s@) == ns,
                ns == helper_names(),
                found@.len() == i,
                forall|k: int| 0 <= k < i ==> !found@[k],
            decreases names.len() - i,
        {
            let here = on_path(names[i]);
            found.push(here);
            if here {
                let r = Installer::first_found(names.as_slice(), found.as_slice());
                proof {
                    lemma_installer_from_skips(ns, found@, i as int);
                    assert(r@ == InstallerView::Helper(ns[i as int]));
                    Installer::lemma_choice(r@, ns, found@, i as int);
                }
                return r;
            }
            i += 1;
        }
        let r = Installer::first_found(names.as_slice(), found.as_slice());
        proof {
            lemma_installer_from_skips(ns, found@, i as int);
            assert(r@ == InstallerView::Pacman);
            assert(r@ == installer_choice(false, false));
        }
        r
    }

    proof fn lemma_choice(v: InstallerView, ns: Seq<Seq<char>>, found: Seq<bool>, i: int)
        requires
            ns == helper_names(),
            0 <= i < 2,
            v == InstallerView::Helper(ns[i]),
            found.len() == i + 1,
            v == installer_from(ns, found, 0),
        ensures
            exists|paru: bool, yay: bool| v == installer_choice(paru, yay),
            exists|f: Seq<bool>| f.len() <= helper_names().len() && v == installer_from(helper_names(), f, 0),
    {
        if i == 0 {
            assert(v == installer_choice(true, false));
        } else {
            assert(v == installer_choice(false, true));
        }
    }

    /// The installer, given the machine's answers for `paru` and `yay`.
    pub fn from_found(paru: bool, yay: bool) -> (r: Self)
        ensures
            r@ == installer_choice(paru, yay),
    {
        if paru {
            Installer::Helper(copy_str("paru"))
        } else if yay {
            Installer::Helper(copy_str("yay"))
        } else {
            Installer::Pacman
        }
    }

    pub fn command(&self) -> (r: Invocation)
        ensures
            r@ == installer_command(self@),
    {
        match self {
            Installer::Helper(helper) => Invocation::new(helper.as_str()),
            Installer::Pacman => Invocation::new("pacman").as_root(),
        }
    }
}

/// What `pacman -Si <name>` answered: whether it succeeded, and what it printed.
#[derive(Debug)]
pub struct RepoLookup {
    pub found: bool,
    pub stdout: String,
}

pub struct RepoLookupView {
    pub found: bool,
    pub stdout: Seq<char>,
}

impl View for RepoLookup {
    type V = RepoLookupView;

    open spec fn view(&self) -> RepoLookupView {
        RepoLookupView { found: self.found, stdout: self.stdout@ }
    }
}

pub open spec fn lookup_views(v: Seq<RepoLookup>) -> Seq<RepoLookupView> {
    v.map_values(|l: RepoLookup| l@)
}

/// Why a pinned package could not be turned into a command.
#[derive(Debug)]
pub enum InstallError {
    /// `pacman -Si` did not know the package: it is not in the official repositories.
    NotInRepos { name: String },
    /// `pacman -Si` printed no architecture for the package.
    NoArchitecture { name: String },
}

pub enum InstallErrorView {
    NotInRepos { name: Seq<char> },
    NoArchitecture { name: Seq<char> },
}

impl View for InstallError {
    type V = InstallErrorView;

    open spec fn view(&self) -> InstallErrorView {
        match self {
            InstallError::NotInRepos { name } => InstallErrorView::NotInRepos { name: name@ },
            InstallError::NoArchitecture { name } => InstallErrorView::NoArchitecture { name: name@ },
        }
    }
}

pub open spec fn install_error_text(e: InstallErrorView) -> Seq<char> {
    match e {
        InstallErrorView::NotInRepos { name } => "`"@ + name
            + "` is not in the official repositories, so no archived build exists (AUR packages cannot be pinned -- declare `"@
            + name + "` without a version)"@,
        InstallErrorView::NoArchitecture { name } => "could not read the architecture of `"@ + name
            + "` from `pacman -Si`"@,
    }
}

impl InstallError {
    pub fn to_string(&self) -> (r: String)
        ensures
            r@ == install_error_text(self@),
    {
        match self {
            InstallError::NotInRepos { name } => {
                let mut r = copy_str("`");
                r.append(name.as_str());
                r.append(
                    "` is not in the official repositories, so no archived build exists (AUR packages cannot be pinned -- declare `",
                );
                r.append(name.as_str());
                r.append("` without a version)");
                r
            },
            InstallError::NoArchitecture { name } => {
                let mut r = copy_str("could not read the architecture of `");
                r.append(name.as_str());
                r.append("` from `pacman -Si`");
                r
            },
        }
    }
}

/// A `Field : value` line: the first `:` splits it, and both sides are trimmed.
pub open spec fn colon_at(s: Seq<char>, i: int) -> int
    decreases s.len() - i,
{
    if i < 0 || i >= s.len() || s[i] == ':' {
        i
    } else {
        colon_at(s, i + 1)
    }
}

pub open spec fn field_of(line: Seq<char>) -> Option<(Seq<char>, Seq<char>)> {
    let c = colon_at(line, 0);
    if c < line.len() {
        Some((trim(line.subrange(0, c)), trim(line.subrange(c + 1, line.len() as int))))
    } else {
        None
    }
}

/// The values of every `field : value` line whose field is `field`.
pub open spec fn values_of(ls: Seq<Seq<char>>, field: Seq<char>) -> Seq<Seq<char>>
    decreases ls.len(),
{
    if ls.len() == 0 {
        seq![]
    } else {
        let rest = values_of(ls.drop_last(), field);
        match field_of(ls.last()) {
            Some((f, v)) if f == field => rest.push(v),
            _ => rest,
        }
    }
}

/// The first non-empty value of a `field : value` line whose field is `field`.
pub open spec fn first_value(ls: Seq<Seq<char>>, field: Seq<char>) -> Option<Seq<char>>
    decreases ls.len(),
{
    if ls.len() == 0 {
        None
    } else {
        match field_of(ls[0]) {
            Some((f, v)) if f == field && v.len() > 0 => Some(v),
            _ => first_value(ls.drop_first(), field),
        }
    }
}

/// The architecture `pacman -Si` reports.
pub open spec fn architecture_of(stdout: Seq<char>) -> Option<Seq<char>> {
    first_value(lines(stdout), "Architecture"@)
}

/// Packages are filed under their first letter, named
/// `<name>-<version>-<architecture>.pkg.tar.zst`.
pub open spec fn archive_location(name: Seq<char>, version: Seq<char>, architecture: Seq<char>) -> Seq<
    char,
> {
    let initial = if name.len() > 0 { name[0] } else { '_' };
    "https://archive.archlinux.org/packages/"@ + seq![initial] + "/"@ + name + "/"@ + name + "-"@
        + version + "-"@ + architecture + ".pkg.tar.zst"@
}

pub open spec fn archive_install(p: PackageView, architecture: Seq<char>) -> InvocationView {
    InvocationView {
        program: "pacman"@,
        args: seq!["-U"@, archive_location(p.name, p.version->0, architecture)],
        needs_root: true,
    }
}

/// The archive command for each pinned package, or the first reason one
/// cannot be built.
pub open spec fn archive_installs(pinned: Seq<PackageView>, lookups: Seq<RepoLookupView>) -> Result<
    Seq<InvocationView>,
    InstallErrorView,
>
    decreases pinned.len(),
{
    if pinned.len() == 0 {
        Ok(seq![])
    } else {
        match archive_installs(pinned.drop_last(), lookups) {
            Err(e) => Err(e),
            Ok(cmds) => {
                let p = pinned.last();
                let l = lookups[pinned.len() - 1];
                if !l.found {
                    Err(InstallErrorView::NotInRepos { name: p.name })
                } else {
                    match architecture_of(l.stdout) {
                        None => Err(InstallErrorView::NoArchitecture { name: p.name }),
                        Some(a) => Ok(cmds.push(archive_install(p, a))),
                    }
                }
            },
        }
    }
}

/// Once building fails, it fails the same way however many more packages follow.
pub proof fn lemma_archive_error_sticks(pinned: Seq<PackageView>, lookups: Seq<RepoLookupView>, i: int, j: int)
    requires
        0 <= i <= j <= pinned.len(),
        archive_installs(pinned.take(i), lookups) is Err,
    ensures
        archive_installs(pinned.take(j), lookups) == archive_installs(pinned.take(i), lookups),
    decreases j - i,
{
    if j > i {
        lemma_archive_error_sticks(pinned, lookups, i, j - 1);
        assert(pinned.take(j).drop_last() =~= pinned.take(j - 1));
    }
}

/// The commands that install `packages` with a given installer.
pub open spec fn arch_install(
    packages: Seq<PackageView>,
    installer: InstallerView,
    lookups: Seq<RepoLookupView>,
) -> Result<Seq<InvocationView>, InstallErrorView> {
    if packages.len() == 0 {
        Ok(seq![])
    } else {
        let loose = loose_of(packages);
        let head = if loose.len() > 0 {
            seq![InvocationView {
                args: seq!["-S"@, "--needed"@] + name_texts(loose),
                ..installer_command(installer)
            }]
        } else {
            Seq::<InvocationView>::empty()
        };
        match archive_installs(pinned_of(packages), lookups) {
            Ok(rest) => Ok(head + rest),
            Err(e) => Err(e),
        }
    }
}

pub open spec fn install_outcome(r: Result<Vec<Invocation>, InstallError>) -> Result<
    Seq<InvocationView>,
    InstallErrorView,
> {
    match r {
        Ok(cmds) => Ok(invocation_views(cmds@)),
        Err(e) => Err(e@),
    }
}

fn field_split(line: &Vec<char>) -> (r: Option<(Vec<char>, Vec<char>)>)
    ensures
        r.is_some() == field_of(line@).is_some(),
        r matches Some((f, v)) ==> (f@, v@) == field_of(line@)->0,
{
    let mut c: usize = 0;
    while c < line.len() && line[c] != ':'
        invariant
            c <= line.len(),
            colon_at(line@, 0) == colon_at(line@, c as int),
        decreases line.len() - c,
    {
        c += 1;
    }
    if c < line.len() {
        let f = trimmed(&chars_range(line, 0, c));
        let v = trimmed(&chars_range(line, c + 1, line.len()));
        Some((f, v))
    } else {
        None
    }
}

/// Package names that `pacman -Si` recognised, from a multi-package query:
/// each name once.
pub fn known_names(stdout: &str) -> (r: Vec<String>)
    ensures
        texts(r@).to_set() == values_of(lines(stdout@), "Name"@).to_set(),
        texts(r@).no_duplicates(),
{
    let rows = split_lines(&chars_of(stdout));
    let ghost ls = views(rows@);
    let field = chars_of("Name");
    let mut out: Vec<String> = Vec::new();
    let mut i: usize = 0;
    while i < rows.len()
        invariant
            i <= rows.len(),
            ls == views(rows@),
            ls == lines(stdout@),
            field@ == "Name"@,
            texts(out@).to_set() == values_of(ls.take(i as int), "Name"@).to_set(),
            texts(out@).no_duplicates(),
        decreases rows.len() - i,
    {
        assert(ls.take(i + 1).drop_last() =~= ls.take(i as int));
        assert(ls.take(i + 1).last() == rows@[i as int]@);
        match field_split(&rows[i]) {
            Some((f, v)) => {
                if chars_eq(&f, &field) {
                    let name = string_of(&v, 0, v.len());
                    assert(v@.subrange(0, v@.len() as int) =~= v@);
                    let mut seen = false;
                    let mut k: usize = 0;
                    while k < out.len()
                        invariant
                            k <= out.len(),
                            seen == exists|m: int| 0 <= m < k && out@[m]@ == name@,
                        decreases out.len() - k,
                    {
                        if crate::text::str_eq(out[k].as_str(), name.as_str()) {
                            seen = true;
                        }
                        k += 1;
                    }
                    let ghost before = texts(out@);
                    assert(values_of(ls.take(i + 1), "Name"@) == values_of(ls.take(i as int), "Name"@).push(v@));
                    proof {
                        crate::text::lemma_push_contains(values_of(ls.take(i as int), "Name"@), v@);
                        crate::text::lemma_push_contains(before, v@);
                    }
                    if !seen {
                        out.push(name);
                        assert(texts(out@) =~= before.push(v@));
                        assert(texts(out@).to_set() == before.to_set().insert(v@));
                        assert forall|a: int, b: int| 0 <= a < b < texts(out@).len() implies texts(out@)[a] != texts(out@)[b] by {
                            if b == texts(out@).len() - 1 {
                                assert(texts(out@)[a] == out@[a]@);
                            }
                        }
                    } else {
                        proof {
                            let m = choose|m: int| 0 <= m < k && out@[m]@ == name@;
                            assert(before[m] == v@);
                            assert(before.contains(v@));
                            assert(before.to_set().insert(v@) =~= before.to_set());
                        }
                    }
                } else {
                    assert(values_of(ls.take(i + 1), "Name"@) == values_of(ls.take(i as int), "Name"@));
                }
            },
            None => {
                assert(values_of(ls.take(i + 1), "Name"@) == values_of(ls.take(i as int), "Name"@));
            },
        }
        i += 1;
    }
    assert(ls.take(i as int) =~= ls);
    out
}

/// The architecture the archive files a package under, as `pacman -Si` reports it.
///
/// Fonts, themes and pure-Python packages are `any`, so `uname -m` would 404
/// for all of them.
pub fn parse_architecture(stdout: &str) -> (r: Option<String>)
    ensures
        r.deep_view() == architecture_of(stdout@),
{
    let rows = split_lines(&chars_of(stdout));
    let ghost ls = views(rows@);
    let field = chars_of("Architecture");
    let mut i: usize = 0;
    assert(ls.skip(0) =~= ls);
    while i < rows.len()
        invariant
            i <= rows.len(),
            ls == views(rows@),
            ls == lines(stdout@),
            field@ == "Architecture"@,
            first_value(ls, "Architecture"@) == first_value(ls.skip(i as int), "Architecture"@),
        decreases rows.len() - i,
    {
        assert(ls.skip(i as int)[0] == rows@[i as int]@);
        assert(ls.skip(i as int).drop_first() =~= ls.skip(i + 1));
        match field_split(&rows[i]) {
            Some((f, v)) => {
                if chars_eq(&f, &field) && v.len() > 0 {
                    let value = string_of(&v, 0, v.len());
                    assert(v@.subrange(0, v@.len() as int) =~= v@);
                    return Some(value);
                }
            },
            None => {},
        }
        i += 1;
    }
    assert(ls.skip(i as int) =~= Seq::<Seq<char>>::empty());
    None
}

/// The Arch Linux Archive address of one build.
pub fn archive_url(name: &str, version: &str, architecture: &str) -> (r: String)
    ensures
        r@ == archive_location(name@, version@, architecture@),
{
    let chars = chars_of(name);
    let initial = if chars.len() > 0 {
        chars[0]
    } else {
        '_'
    };
    let mut r = copy_str("https://archive.archlinux.org/packages/");
    push_char(&mut r, initial);
    r.append("/");
    r.append(name);
    r.append("/");
    r.append(name);
    r.append("-");
    r.append(version);
    r.append("-");
    r.append(architecture);
    r.append(".pkg.tar.zst");
    r
}

/// Why pinned packages cannot be fetched from the archive.
#[derive(Debug)]
pub struct UnarchivedPins {
    /// The pinned names `pacman -Si` did not recognise, in declared order.
    pub missing: Vec<String>,
}

pub open spec fn unarchived_text(missing: Seq<Seq<char>>) -> Seq<char> {
    "no archived build exists for "@ + joined(missing, ", "@)
        + " -- these are not in the official repositories, and AUR packages cannot be pinned. Declare them without a version"@
}

impl UnarchivedPins {
    pub fn to_string(&self) -> (r: String)
        ensures
            r@ == unarchived_text(texts(self.missing@)),
    {
        let mut r = copy_str("no archived build exists for ");
        let list = join(&self.missing, ", ");
        r.append(list.as_str());
        r.append(
            " -- these are not in the official repositories, and AUR packages cannot be pinned. Declare them without a version",
        );
        r
    }
}

/// The pinned names a `pacman -Si` query did not recognise, in order.
pub open spec fn unrecognised(names: Seq<Seq<char>>, known: Set<Seq<char>>) -> Seq<Seq<char>>
    decreases names.len(),
{
    if names.len() == 0 {
        seq![]
    } else {
        let rest = unrecognised(names.drop_last(), known);
        if known.contains(names.last()) {
            rest
        } else {
            rest.push(names.last())
        }
    }
}

impl Arch {
    /// The commands that install `packages`, given the installer and, for each
    /// pinned package in order, what `pacman -Si` said about it.
    pub fn install_with(
        &self,
        packages: &[PackageSpec],
        installer: &Installer,
        lookups: &[RepoLookup],
    ) -> (r: Result<Vec<Invocation>, InstallError>)
        requires
            lookups@.len() == pinned_of(spec_views(packages@)).len(),
        ensures
            install_outcome(r) == arch_install(spec_views(packages@), installer@, lookup_views(lookups@)),
    {
        let mut commands: Vec<Invocation> = Vec::new();
        if packages.len() == 0 {
            assert(invocation_views(commands@) =~= Seq::<InvocationView>::empty());
            return Ok(commands);
        }
        let (pinned, loose) = partition_pinned(packages);
        let ghost ps = spec_views(pinned@);
        let ghost ls = lookup_views(lookups@);
        if loose.len() > 0 {
            // `--needed` keeps an already-satisfied package from being
            // reinstalled when a partly-applied run is retried.
            let command = installer.command().arg("-S").arg("--needed").extend(
                names_of(loose.as_slice()),
            );
            assert(command@.args =~= seq!["-S"@, "--needed"@] + name_texts(loose_of(spec_views(packages@))));
            commands.push(command);
        }
        let ghost head = invocation_views(commands@);
        assert(head =~= (if loose_of(spec_views(packages@)).len() > 0 {
            seq![InvocationView {
                args: seq!["-S"@, "--needed"@] + name_texts(loose_of(spec_views(packages@))),
                ..installer_command(installer@)
            }]
        } else {
            Seq::<InvocationView>::empty()
        }));
        // The Arch Linux Archive keeps every build the official repositories
        // have shipped, and `pacman -U` takes the URL directly.
        let mut i: usize = 0;
        while i < pinned.len()
            invariant
                i <= pinned.len(),
                ps == spec_views(pinned@),
                ps == pinned_of(spec_views(packages@)),
                ls == lookup_views(lookups@),
                ls.len() == ps.len(),
                archive_installs(ps.take(i as int), ls) matches Ok(cmds) && invocation_views(
                    commands@,
                ) == head + cmds,
            decreases pinned.len() - i,
        {
            let spec = &pinned[i];
            assert(ps[i as int] == spec@);
            assert(ps.take(i + 1).drop_last() =~= ps.take(i as int));
            assert(ps.take(i + 1).last() == spec@);
            assert(ls[i as int] == lookups@[i as int]@);
            let lookup = &lookups[i];
            if !lookup.found {
                proof {
                    lemma_archive_error_sticks(ps, ls, i + 1, ps.len() as int);
                    assert(ps.take(ps.len() as int) =~= ps);
                }
                return Err(InstallError::NotInRepos { name: spec.name.clone() });
            }
            let architecture = match parse_architecture(lookup.stdout.as_str()) {
                Some(a) => a,
                None => {
                    proof {
                        lemma_archive_error_sticks(ps, ls, i + 1, ps.len() as int);
                        assert(ps.take(ps.len() as int) =~= ps);
                    }
                    return Err(InstallError::NoArchitecture { name: spec.name.clone() });
                },
            };
            let version = match &spec.version {
                Some(v) => v.as_str(),
                None => "",
            };
            let url = archive_url(spec.name.as_str(), version, architecture.as_str());
            let command = Invocation::new("pacman").as_root().arg("-U").arg(url.as_str());
            let ghost before = commands@;
            commands.push(command);
            proof {
                crate::manager::cargo::lemma_pinned_versions(spec_views(packages@));
                assert(spec@.version is Some);
                assert(command@ == archive_install(spec@, architecture@)) by {
                    assert(command@.args =~= seq!["-U"@, url@]);
                }
                assert(invocation_views(commands@) =~= invocation_views(before).push(command@));
            }
            i += 1;
        }
        assert(ps.take(i as int) =~= ps);
        Ok(commands)
    }

    /// The commands that install `packages`, with the AUR helper found on
    /// this machine.
    pub fn install(&self, packages: &[PackageSpec], lookups: &[RepoLookup]) -> (r: Result<
        Vec<Invocation>,
        InstallError,
    >)
        requires
            lookups@.len() == pinned_of(spec_views(packages@)).len(),
        ensures
            exists|i: InstallerView|
                (i == InstallerView::Helper("paru"@) || i == InstallerView::Helper("yay"@) || i
                    == InstallerView::Pacman) && install_outcome(r) == arch_install(
                    spec_views(packages@),
                    i,
                    lookup_views(lookups@),
                ),
    {
        let installer = if loose_count(packages) > 0 {
            Installer::detect()
        } else {
            Installer::Pacman
        };
        self.install_with(packages, &installer, lookups)
    }

    /// Confirm the pinned packages can be fetched from the archive, given what
    /// one `pacman -Si` query for all of them printed. Nothing pinned needs no
    /// query, and always passes.
    ///
    /// The archive only holds the official repositories, so a name `pacman -Si`
    /// does not know is an AUR package -- and AUR builds are archived nowhere.
    pub fn check_pins(&self, specs: &[PackageSpec], si_stdout: &str) -> (r: Result<(), UnarchivedPins>)
        ensures
            specs@.len() == 0 ==> r is Ok,
            specs@.len() > 0 ==> {
                let missing = unrecognised(
                    name_texts(spec_views(specs@)),
                    values_of(lines(si_stdout@), "Name"@).to_set(),
                );
                &&& r is Ok <==> missing.len() == 0
                &&& r matches Err(e) ==> texts(e.missing@) == missing
            },
    {
        if specs.len() == 0 {
            return Ok(());
        }
        let known = known_names(si_stdout);
        let ghost kset = values_of(lines(si_stdout@), "Name"@).to_set();
        let names = names_of(specs);
        let ghost ns = name_texts(spec_views(specs@));
        let mut missing: Vec<String> = Vec::new();
        let mut i: usize = 0;
        while i < names.len()
            invariant
                i <= names.len(),
                texts(names@) == ns,
                texts(known@).to_set() == kset,
                texts(missing@) == unrecognised(ns.take(i as int), kset),
            decreases names.len() - i,
        {
            assert(ns.take(i + 1).drop_last() =~= ns.take(i as int));
            assert(ns.take(i + 1).last() == names@[i as int]@);
            let mut found = false;
            let mut k: usize = 0;
            while k < known.len()
                invariant
                    k <= known.len(),
                    i < names.len(),
                    found == exists|m: int| 0 <= m < k && known@[m]@ == names@[i as int]@,
                decreases known.len() - k,
            {
                if crate::text::str_eq(known[k].as_str(), names[i].as_str()) {
                    found = true;
                }
                k += 1;
            }
            proof {
                if found {
                    let m = choose|m: int| 0 <= m < k && known@[m]@ == names@[i as int]@;
                    assert(texts(known@)[m] == names@[i as int]@);
                    assert(texts(known@).contains(names@[i as int]@));
                } else {
                    if kset.contains(names@[i as int]@) {
                        assert(texts(known@).contains(names@[i as int]@));
                        let m = choose|m: int| 0 <= m < texts(known@).len() && texts(known@)[m] == names@[i as int]@;
                        assert(known@[m]@ == names@[i as int]@);
                    }
                }
            }
            if !found {
                let ghost before = texts(missing@);
                missing.push(names[i].clone());
                assert(texts(missing@) =~= before.push(names@[i as int]@));
            }
            i += 1;
        }
        assert(ns.take(i as int) =~= ns);
        if missing.len() == 0 {
            Ok(())
        } else {
            Err(UnarchivedPins { missing })
        }
    }
}

fn loose_count(packages: &[PackageSpec]) -> (r: usize)
    ensures
        r == loose_of(spec_views(packages@)).len(),
{
    let (_, loose) = partition_pinned(packages);
    loose.len()
}

impl Manager for Arch {
    open spec fn spec_id(&self) -> Seq<char> {
        "pacman"@
    }

    open spec fn spec_binary(&self) -> Seq<char> {
        "pacman"@
    }

    open spec fn spec_supports_pinning(&self) -> bool {
        true
    }

    open spec fn spec_name_selects_version(&self, name: Seq<char>) -> bool {
        false
    }

    open spec fn spec_uninstall(&self, names: Seq<Seq<char>>) -> Seq<InvocationView> {
        if names.len() == 0 {
            seq![]
        } else {
            seq![InvocationView { program: "pacman"@, args: seq!["-Rs"@] + names, needs_root: true }]
        }
    }

    open spec fn spec_list(&self) -> InvocationView {
        InvocationView { program: "pacman"@, args: seq!["-Qe"@], needs_root: false }
    }

    open spec fn spec_parse_list(&self, stdout: Seq<char>) -> Seq<PackageView> {
        rows_packages(lines(stdout))
    }

    fn id(&self) -> (r: &'static str) {
        "pacman"
    }

    fn binary(&self) -> (r: &'static str) {
        "pacman"
    }

    fn uninstall(&self, names: &[String]) -> (r: Vec<Invocation>) {
        let mut cmds: Vec<Invocation> = Vec::new();
        if names.len() == 0 {
            assert(invocation_views(cmds@) =~= Seq::<InvocationView>::empty());
            return cmds;
        }
        // -Rs removes now-orphaned dependencies but keeps configuration. -Rns
        // would delete config too, which a package-list sync must not decide.
        let command = Invocation::new("pacman").as_root().arg("-Rs").extend(
            crate::invocation::clone_strings(names),
        );
        cmds.push(command);
        assert(invocation_views(cmds@) =~= seq![command@]);
        cmds
    }

    fn list(&self) -> (r: Invocation) {
        // -Qe lists explicitly-installed packages only, so dependencies pulled
        // in automatically never show up as undeclared drift.
        Invocation::new("pacman").arg("-Qe")
    }

    fn parse_list(&self, stdout: &str) -> (r: Vec<PackageSpec>) {
        parse_two_column(stdout)
    }

    /// The Arch Linux Archive keeps every historical build permanently, so a
    /// version declared today is still installable years from now.
    ///
    /// The version must include the pkgrel exactly as `pacman -Qe` reports it
    /// (`14.1.0-1`), which is what `mpm adopt` writes.
    fn supports_pinning(&self) -> (r: bool) {
        true
    }

    fn name_selects_version(&self, name: &str) -> (r: bool) {
        false
    }
}

} // verus!
