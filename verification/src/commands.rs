use vstd::prelude::*;

use crate::invocation::{Invocation, InvocationView, invocation_views};
use crate::manager::arch::{
    Arch, InstallError, InstallErrorView, InstallerView, RepoLookup, RepoLookupView, install_error_text,
    install_outcome, lookup_views,
};
use crate::manager::{AnyManager, ALL, Manager, get, install_plan, manager_for, pinned_of, present};
use crate::manifest::file::{
    LineView, ManifestFile, ManifestView, declare_lines, declares_name, first_declaring, law_declare,
    lemma_first_declaring, rewritten, without_name,
};
use crate::manifest::grammar::{
    PackageSpec, PackageView, SpecError, SpecErrorView, parse_entry, spec_error_text, spec_text,
};
use crate::manifest::{Layer, Layout, discovered_root, first_named, hostname, opt_string_view, opt_view};
use crate::package_map::{PackageMap, listing, map_of, spec_views};
use crate::presentation::{
    painted, plan_views, problem, summarize, summary, total_install, total_remove, total_repin,
};
use crate::reconcile::{
    PinProblems, Reconciliation, ReconciliationView, ValidateError, ValidateErrorView, archive_query_of,
    compute, pin_problems, plan, plan_has_work, plan_installs, problem_views, string_views, validate,
    validation,
};
use crate::order::{sorted_texts, string_texts, texts_sorted};
use crate::text::{
    chars_of, copy_str, decimal, decimal_string, join, joined, lines, push_char, split_lines, str_eq, trim,
    trimmed, views,
};

verus! {

/// Everything mpm needs to know about this machine.
#[derive(Debug)]
pub struct Ctx {
    pub layout: Layout,
    pub host: String,
}

impl Ctx {
    /// Everything about this machine, from what it was found to say: the
    /// `$MPM_CONFIG_DIR` setting and the config directory (see
    /// `Layout::discover`), and the hostname candidates (see `hostname`).
    pub fn discover(setting: Option<&str>, config_dir: Option<&str>, host_candidates: &[Option<String>]) -> (r:
        Result<Ctx, CommandError>)
        ensures
            discovered_root(opt_view(setting), opt_view(config_dir)) is None ==> (r matches Err(e) && e@
                == CommandErrorView::NoConfigDir),
            discovered_root(opt_view(setting), opt_view(config_dir)) is Some && first_named(
                host_candidates@.map_values(|o: Option<String>| opt_string_view(o)),
            ) is None ==> (r matches Err(e) && e@ == CommandErrorView::NoHostname),
            discovered_root(opt_view(setting), opt_view(config_dir)) is Some && first_named(
                host_candidates@.map_values(|o: Option<String>| opt_string_view(o)),
            ) is Some ==> r is Ok,
            r matches Ok(c) ==> Some(c.layout@) == discovered_root(opt_view(setting), opt_view(config_dir))
                && Some(c.host@) == first_named(host_candidates@.map_values(|o: Option<String>| opt_string_view(o))),
    {
        let layout = match Layout::discover(setting, config_dir) {
            Some(l) => l,
            None => {
                return Err(CommandError::NoConfigDir);
            },
        };
        let host = match hostname(host_candidates) {
            Some(h) => h,
            None => {
                return Err(CommandError::NoHostname);
            },
        };
        Ok(Ctx { layout, host })
    }
}

#[derive(Debug)]
pub struct ApplyOpts {
    /// Show the plan and stop.
    pub dry_run: bool,
    /// Skip the confirmation prompt.
    pub yes: bool,
}

impl Default for ApplyOpts {
    fn default() -> (r: Self)
        ensures
            !r.dry_run && !r.yes,
    {
        ApplyOpts { dry_run: false, yes: false }
    }
}

/// Which layer an edit targets. Defaults to `common`.
pub struct LayerArgs {
    /// Target this machine's host layer instead of common.
    pub host: bool,
}

impl LayerArgs {
    pub fn resolve(&self, host: &str) -> (r: Layer)
        ensures
            r@ == (if self.host { crate::manifest::LayerView::Host(host@) } else { crate::manifest::LayerView::Common }),
    {
        if self.host {
            Layer::Host(copy_str(host))
        } else {
            Layer::Common
        }
    }
}

// ------------------------------------------------------------------ errors

/// Why a command refused to go on.
#[derive(Debug)]
pub enum CommandError {
    UnknownManager { id: String },
    NotInstalled { id: String },
    NoPackages,
    BadPackage { cause: SpecError },
    CannotPin { id: String },
    CannotReadVersions { id: String },
    AlreadyVersioned { spec: PackageSpec },
    NotInstalledPackage { name: String },
    NoVersionReported { id: String, name: String },
    Install { cause: InstallError },
    NoConfigDir,
    NoHostname,
}

pub enum CommandErrorView {
    UnknownManager { id: Seq<char> },
    NotInstalled { id: Seq<char> },
    NoPackages,
    BadPackage { cause: SpecErrorView },
    CannotPin { id: Seq<char> },
    CannotReadVersions { id: Seq<char> },
    AlreadyVersioned { spec: PackageView },
    NotInstalledPackage { name: Seq<char> },
    NoVersionReported { id: Seq<char>, name: Seq<char> },
    Install { cause: InstallErrorView },
    NoConfigDir,
    NoHostname,
}

impl View for CommandError {
    type V = CommandErrorView;

    open spec fn view(&self) -> CommandErrorView {
        match self {
            CommandError::UnknownManager { id } => CommandErrorView::UnknownManager { id: id@ },
            CommandError::NotInstalled { id } => CommandErrorView::NotInstalled { id: id@ },
            CommandError::NoPackages => CommandErrorView::NoPackages,
            CommandError::BadPackage { cause } => CommandErrorView::BadPackage { cause: cause@ },
            CommandError::CannotPin { id } => CommandErrorView::CannotPin { id: id@ },
            CommandError::CannotReadVersions { id } => CommandErrorView::CannotReadVersions { id: id@ },
            CommandError::AlreadyVersioned { spec } => CommandErrorView::AlreadyVersioned { spec: spec@ },
            CommandError::NotInstalledPackage { name } => CommandErrorView::NotInstalledPackage { name: name@ },
            CommandError::NoVersionReported { id, name } => CommandErrorView::NoVersionReported {
                id: id@,
                name: name@,
            },
            CommandError::Install { cause } => CommandErrorView::Install { cause: cause@ },
            CommandError::NoConfigDir => CommandErrorView::NoConfigDir,
            CommandError::NoHostname => CommandErrorView::NoHostname,
        }
    }
}

pub open spec fn command_error_text(e: CommandErrorView) -> Seq<char> {
    match e {
        CommandErrorView::UnknownManager { id } => "unknown package manager `"@ + id
            + "` (see `mpm managers`)"@,
        CommandErrorView::NotInstalled { id } => "`"@ + id + "` is not installed on this machine"@,
        CommandErrorView::NoPackages => "name at least one package"@,
        CommandErrorView::BadPackage { cause } => "a package is written `<name>` or, quoted, `<name> <version>`: "@
            + spec_error_text(cause),
        CommandErrorView::CannotPin { id } => "`"@ + id
            + "` cannot install a specific version, so there is nothing to pin"@,
        CommandErrorView::CannotReadVersions { id } => "`"@ + id
            + "` is not installed on this machine, so no version can be read"@,
        CommandErrorView::AlreadyVersioned { spec } => "`"@ + spec_text(spec)
            + "` already names a version -- drop `--pin`, or drop the version"@,
        CommandErrorView::NotInstalledPackage { name } => "`"@ + name
            + "` is not installed, so there is no version to pin"@,
        CommandErrorView::NoVersionReported { id, name } => "`"@ + id
            + "` does not report a version for `"@ + name + "`"@,
        CommandErrorView::Install { cause } => install_error_text(cause),
        CommandErrorView::NoConfigDir => "could not determine your config directory"@,
        CommandErrorView::NoHostname => "could not determine this machine's hostname; set MPM_HOST to name it"@,
    }
}

impl CommandError {
    pub fn to_string(&self) -> (r: String)
        ensures
            r@ == command_error_text(self@),
    {
        match self {
            CommandError::UnknownManager { id } => {
                let mut r = copy_str("unknown package manager `");
                r.append(id.as_str());
                r.append("` (see `mpm managers`)");
                r
            },
            CommandError::NotInstalled { id } => {
                let mut r = copy_str("`");
                r.append(id.as_str());
                r.append("` is not installed on this machine");
                r
            },
            CommandError::NoPackages => copy_str("name at least one package"),
            CommandError::BadPackage { cause } => {
                let mut r = copy_str("a package is written `<name>` or, quoted, `<name> <version>`: ");
                let c = cause.to_string();
                r.append(c.as_str());
                r
            },
            CommandError::CannotPin { id } => {
                let mut r = copy_str("`");
                r.append(id.as_str());
                r.append("` cannot install a specific version, so there is nothing to pin");
                r
            },
            CommandError::CannotReadVersions { id } => {
                let mut r = copy_str("`");
                r.append(id.as_str());
                r.append("` is not installed on this machine, so no version can be read");
                r
            },
            CommandError::AlreadyVersioned { spec } => {
                let mut r = copy_str("`");
                let t = spec.to_string();
                r.append(t.as_str());
                r.append("` already names a version -- drop `--pin`, or drop the version");
                r
            },
            CommandError::NotInstalledPackage { name } => {
                let mut r = copy_str("`");
                r.append(name.as_str());
                r.append("` is not installed, so there is no version to pin");
                r
            },
            CommandError::NoVersionReported { id, name } => {
                let mut r = copy_str("`");
                r.append(id.as_str());
                r.append("` does not report a version for `");
                r.append(name.as_str());
                r.append("`");
                r
            },
            CommandError::Install { cause } => cause.to_string(),
            CommandError::NoConfigDir => copy_str("could not determine your config directory"),
            CommandError::NoHostname => copy_str(
                "could not determine this machine's hostname; set MPM_HOST to name it",
            ),
        }
    }
}

// ------------------------------------------------------------ manager set

/// A command's result, with its error taken by view.
pub open spec fn error_outcome<T>(r: Result<T, CommandError>) -> Result<T, CommandErrorView> {
    match r {
        Ok(v) => Ok(v),
        Err(e) => Err(e@),
    }
}

/// The manager registered under `id`, or the refusal that names it.
pub open spec fn required(id: Seq<char>) -> Result<AnyManager, CommandErrorView> {
    match manager_for(id) {
        Some(m) => Ok(m),
        None => Err(CommandErrorView::UnknownManager { id }),
    }
}

/// As `required`, where `here` says whether the manager's program is on this machine.
pub open spec fn required_present(id: Seq<char>, here: bool) -> Result<AnyManager, CommandErrorView> {
    match manager_for(id) {
        Some(m) => if here {
            Ok(m)
        } else {
            Err(CommandErrorView::NotInstalled { id })
        },
        None => Err(CommandErrorView::UnknownManager { id }),
    }
}

/// The manager named `id`, or an error naming it.
pub fn require(id: &str) -> (r: Result<AnyManager, CommandError>)
    ensures
        error_outcome(r) == required(id@),
{
    match get(id) {
        Some(m) => Ok(m),
        None => Err(CommandError::UnknownManager { id: copy_str(id) }),
    }
}

/// The manager named `id`, if it is also present on this machine. Whether it
/// is present is the machine's answer; the result is `required_present` of it.
pub fn require_present(id: &str) -> (r: Result<AnyManager, CommandError>)
    ensures
        exists|here: bool| error_outcome(r) == required_present(id@, here),
{
    let found = require(id)?;
    let here = present(&found);
    if !here {
        let e = CommandError::NotInstalled { id: copy_str(id) };
        assert(error_outcome(Err::<AnyManager, CommandError>(e)) == required_present(id@, false));
        return Err(e);
    }
    assert(error_outcome(Ok::<AnyManager, CommandError>(found)) == required_present(id@, true));
    Ok(found)
}

/// Whether `id` names a manager that is present here; never for an unknown id.
pub fn present_by_id(id: &str) -> (r: bool)
    ensures
        manager_for(id@) is None ==> !r,
{
    match get(id) {
        Some(found) => present(&found),
        None => false,
    }
}

/// Every supported manager id, in the order they are listed and acted on.
pub open spec fn all_ids() -> Seq<Seq<char>> {
    seq!["pacman"@, "apt"@, "brew"@, "cargo"@, "npm"@, "pnpm"@, "dotnet"@]
}

/// The ids whose flags in both `here` and `managed` are set, in order.
pub open spec fn chosen_ids(ids: Seq<Seq<char>>, here: Seq<bool>, managed: Seq<bool>) -> Seq<Seq<char>>
    decreases ids.len(),
{
    if ids.len() == 0 {
        seq![]
    } else {
        let k = ids.len() - 1;
        chosen_ids(ids.drop_last(), here, managed) + (if here[k] && managed[k] {
            seq![ids.last()]
        } else {
            seq![]
        })
    }
}

/// Which managers a command acts on: the one named, if it exists and is
/// present (`here[0]`), else every manager that is both present and managed,
/// `here` and `managed` giving each answer in the order of `all_ids`.
pub open spec fn selection(requested: Option<Seq<char>>, here: Seq<bool>, managed: Seq<bool>) -> Result<
    Seq<Seq<char>>,
    CommandErrorView,
> {
    match requested {
        Some(id) => match required_present(id, here[0]) {
            Ok(_) => Ok(seq![id]),
            Err(e) => Err(e),
        },
        None => Ok(chosen_ids(all_ids(), here, managed)),
    }
}

pub open spec fn ids_outcome(r: Result<Vec<String>, CommandError>) -> Result<Seq<Seq<char>>, CommandErrorView> {
    match r {
        Ok(v) => Ok(string_views(v@)),
        Err(e) => Err(e@),
    }
}

pub open spec fn requested_view(requested: Option<&str>) -> Option<Seq<char>> {
    match requested {
        Some(id) => Some(id@),
        None => None,
    }
}

/// The selection, given the machine's answers on presence.
pub fn select(requested: Option<&str>, here: &[bool], managed: &[bool]) -> (r: Result<Vec<String>, CommandError>)
    requires
        here.len() == 7,
        managed.len() == 7,
    ensures
        ids_outcome(r) == selection(requested_view(requested), here@, managed@),
{
    match requested {
        Some(id) => {
            match get(id) {
                None => Err(CommandError::UnknownManager { id: copy_str(id) }),
                Some(_) => {
                    if here[0] {
                        let mut v: Vec<String> = Vec::new();
                        v.push(copy_str(id));
                        assert(string_views(v@) =~= seq![id@]);
                        Ok(v)
                    } else {
                        Err(CommandError::NotInstalled { id: copy_str(id) })
                    }
                },
            }
        },
        None => {
            let mut out: Vec<String> = Vec::new();
            let ghost ids = all_ids();
            proof {
                reveal_strlit("pacman");
                reveal_strlit("apt");
                reveal_strlit("brew");
                reveal_strlit("cargo");
                reveal_strlit("npm");
                reveal_strlit("pnpm");
                reveal_strlit("dotnet");
            }
            assert(ids.take(0) =~= Seq::<Seq<char>>::empty());
            let mut i: usize = 0;
            while i < 7
                invariant
                    i <= 7,
                    here.len() == 7,
                    managed.len() == 7,
                    ids == all_ids(),
                    forall|k: int| 0 <= k < 7 ==> (#[trigger] ALL@[k])@ == ids[k],
                    string_views(out@) == chosen_ids(ids.take(i as int), here@, managed@),
                decreases 7 - i,
            {
                assert(ids.take(i + 1).drop_last() =~= ids.take(i as int));
                assert(ids.take(i + 1).last() == ids[i as int]);
                if here[i] && managed[i] {
                    let id = ALL[i];
                    let ghost before = out@;
                    out.push(copy_str(id));
                    assert(string_views(out@) =~= string_views(before).push(id@));
                }
                i += 1;
            }
            assert(ids.take(7) =~= ids);
            Ok(out)
        },
    }
}

/// Managers to act on: the one named, else every managed one present here.
/// `managed` says, in the order of `all_ids`, which have a manifest.
pub fn selected(requested: Option<&str>, managed: &[bool]) -> (r: Result<Vec<String>, CommandError>)
    requires
        managed.len() == 7,
    ensures
        exists|here: Seq<bool>|
            here.len() == 7 && ids_outcome(r) == selection(requested_view(requested), here, managed@),
{
    let mut here: Vec<bool> = Vec::new();
    match requested {
        Some(id) => {
            here.push(present_by_id(id));
            let mut k: usize = 1;
            while k < 7
                invariant
                    1 <= k <= 7,
                    here.len() == k,
                decreases 7 - k,
            {
                here.push(false);
                k += 1;
            }
        },
        None => {
            let mut k: usize = 0;
            while k < 7
                invariant
                    k <= 7,
                    here.len() == k,
                decreases 7 - k,
            {
                let found = get(ALL[k]);
                let answer = match found {
                    Some(m) => present(&m),
                    None => false,
                };
                here.push(answer);
                k += 1;
            }
        },
    }
    select(requested, here.as_slice(), managed)
}

// ------------------------------------------------------------------ reading

/// What a manager's listing says is installed, by name.
pub fn installed_map(manager: &AnyManager, stdout: &str) -> (r: PackageMap)
    ensures
        r@ == map_of(manager.spec_parse_list(stdout@)),
        r.specs() == listing(r@),
{
    let specs = manager.parse_list(stdout);
    PackageMap::from_specs(&specs)
}

/// Reconcile one manager: refuse a declared state it cannot honour (see
/// `validate`; `si_stdout` is what `pacman -Si` printed for `archive_query`),
/// then compare what is declared with what its listing `stdout` says is
/// installed.
pub fn reconcile_manager(manager: &AnyManager, declared: &PackageMap, si_stdout: Option<&str>, stdout: &str) -> (r:
    Result<Reconciliation, ValidateError>)
    requires
        archive_query_of(*manager, listing(declared@)).len() > 0 ==> si_stdout is Some,
    ensures
        (r is Ok) == (validation(*manager, listing(declared@), opt_view(si_stdout)) is Ok),
        r matches Err(e) ==> validation(*manager, listing(declared@), opt_view(si_stdout)) == Err::<
            (),
            ValidateErrorView,
        >(e@),
        r matches Ok(c) ==> c@ == plan(
            manager.spec_id(),
            listing(declared@),
            listing(map_of(manager.spec_parse_list(stdout@))),
            manager.spec_supports_pinning(),
        ),
{
    let _ = declared.entries();
    match validate(manager, declared, si_stdout) {
        Ok(()) => {},
        Err(e) => {
            return Err(e);
        },
    }
    let installed = installed_map(manager, stdout);
    let id = manager.id();
    Ok(compute(id, declared, &installed, manager.supports_pinning()))
}

// ------------------------------------------------------------------ applying

/// The commands a plan turns into for manager `m`: installs first, then
/// removals; a pin that cannot be fetched refuses the whole plan.
pub open spec fn planned_commands(
    m: AnyManager,
    c: ReconciliationView,
    installer: InstallerView,
    lookups: Seq<RepoLookupView>,
) -> Result<Seq<InvocationView>, CommandErrorView> {
    match install_plan(m, plan_installs(c), installer, lookups) {
        Ok(cmds) => Ok(cmds + m.spec_uninstall(c.remove)),
        Err(e) => Err(CommandErrorView::Install { cause: e }),
    }
}

pub open spec fn commands_outcome(r: Result<Vec<Invocation>, CommandError>) -> Result<
    Seq<InvocationView>,
    CommandErrorView,
> {
    match r {
        Ok(v) => Ok(invocation_views(v@)),
        Err(e) => Err(e@),
    }
}

pub open spec fn is_installer(i: InstallerView) -> bool {
    i == InstallerView::Helper("paru"@) || i == InstallerView::Helper("yay"@) || i == InstallerView::Pacman
}

/// Whether `changes` belongs to pacman, which needs a `pacman -Si` answer for
/// each pinned package it installs.
pub open spec fn needs_lookups(c: ReconciliationView) -> bool {
    manager_for(c.manager) == Some(AnyManager::Arch(Arch))
}

/// Build every command a reconciliation implies, without running any of them.
///
/// Separated from execution so that a version mpm cannot actually obtain is
/// discovered *before* the confirmation prompt, rather than half way through a
/// run that has already changed the system. Which pacman front end installs is
/// the machine's answer.
pub fn commands_for(changes: &Reconciliation, lookups: &[RepoLookup]) -> (r: Result<Vec<Invocation>, CommandError>)
    requires
        needs_lookups(changes@) ==> lookups@.len() == pinned_of(plan_installs(changes@)).len(),
    ensures
        manager_for(changes@.manager) is None ==> commands_outcome(r) == Err::<Seq<InvocationView>, CommandErrorView>(
            CommandErrorView::UnknownManager { id: changes@.manager },
        ),
        manager_for(changes@.manager) is Some ==> exists|i: InstallerView|
            is_installer(i) && commands_outcome(r) == planned_commands(
                manager_for(changes@.manager)->0,
                changes@,
                i,
                lookup_views(lookups@),
            ),
{
    let manager = match get(changes.manager.as_str()) {
        Some(m) => m,
        None => {
            return Err(CommandError::UnknownManager { id: copy_str(changes.manager.as_str()) });
        },
    };
    // Install first: a package moving between managers is never briefly absent,
    // and an interrupted run leaves more installed rather than less.
    let wanted = changes.to_install();
    proof {
        if manager is Arch {
            assert(manager == AnyManager::Arch(Arch));
        }
    }
    let installs = manager.install(wanted.as_slice(), lookups);
    let ghost i = choose|i: InstallerView|
        (i == InstallerView::Helper("paru"@) || i == InstallerView::Helper("yay"@) || i
            == InstallerView::Pacman) && install_outcome(installs) == install_plan(
            manager,
            spec_views(wanted@),
            i,
            lookup_views(lookups@),
        );
    let res = match installs {
        Err(cause) => {
            assert(install_plan(manager, plan_installs(changes@), i, lookup_views(lookups@)) == Err::<Seq<InvocationView>, InstallErrorView>(cause@));
            Err(CommandError::Install { cause })
        },
        Ok(mut commands) => {
            let mut removals = manager.uninstall(changes.remove.as_slice());
            let ghost before = commands@;
            let ghost more = removals@;
            commands.append(&mut removals);
            assert(invocation_views(commands@) =~= invocation_views(before) + invocation_views(more));
            assert(changes.remove@.map_values(|s: String| s@) == changes@.remove);
            Ok(commands)
        },
    };
    assert(manager == manager_for(changes@.manager)->0);
    assert(is_installer(i) && commands_outcome(res) == planned_commands(manager, changes@, i, lookup_views(lookups@)));
    res
}

/// Whether any queued command has to run as root.
pub fn needs_root(queued: &[(String, Vec<Invocation>)]) -> (r: bool)
    ensures
        r == exists|i: int, j: int|
            0 <= i < queued.len() && 0 <= j < queued@[i].1.len() && (#[trigger] queued@[i].1@[j]).needs_root,
{
    let mut i: usize = 0;
    while i < queued.len()
        invariant
            i <= queued.len(),
            forall|a: int, b: int|
                0 <= a < i && 0 <= b < queued@[a].1.len() ==> !(#[trigger] queued@[a].1@[b]).needs_root,
        decreases queued.len() - i,
    {
        let commands = &queued[i].1;
        let mut j: usize = 0;
        while j < commands.len()
            invariant
                i < queued.len(),
                commands == queued@[i as int].1,
                j <= commands.len(),
                forall|a: int, b: int|
                    0 <= a < i && 0 <= b < queued@[a].1.len() ==> !(#[trigger] queued@[a].1@[b]).needs_root,
                forall|b: int| 0 <= b < j ==> !(#[trigger] commands@[b]).needs_root,
            decreases commands.len() - j,
        {
            if commands[j].needs_root {
                assert(queued@[i as int].1@[j as int].needs_root);
                return true;
            }
            j += 1;
        }
        i += 1;
    }
    false
}

/// Each line of `ls` indented four spaces and ended with a newline.
pub open spec fn indented(ls: Seq<Seq<char>>) -> Seq<char>
    decreases ls.len(),
{
    if ls.len() == 0 {
        seq![]
    } else {
        indented(ls.drop_last()) + "    "@ + ls.last() + "\n"@
    }
}

/// A transcript, indented under its manager.
pub fn indent(output: &str) -> (r: String)
    ensures
        r@ == indented(lines(output@)),
{
    let rows = split_lines(&chars_of(output));
    let ghost ls = views(rows@);
    let mut out = String::new();
    let mut i: usize = 0;
    proof {
        reveal_strlit("    ");
        reveal_strlit("\n");
    }
    assert(ls.take(0) =~= Seq::<Seq<char>>::empty());
    while i < rows.len()
        invariant
            i <= rows.len(),
            ls == views(rows@),
            out@ == indented(ls.take(i as int)),
            "    "@ == seq![' ', ' ', ' ', ' '],
            "\n"@ == seq!['\n'],
        decreases rows.len() - i,
    {
        let row = &rows[i];
        assert(ls.take(i + 1).drop_last() =~= ls.take(i as int));
        assert(ls.take(i + 1).last() == row@);
        let ghost start = out@;
        out.append("    ");
        let mut j: usize = 0;
        while j < row.len()
            invariant
                j <= row.len(),
                out@ == start + "    "@ + row@.take(j as int),
            decreases row.len() - j,
        {
            push_char(&mut out, row[j]);
            assert(row@.take(j + 1) =~= row@.take(j as int).push(row@[j as int]));
            j += 1;
        }
        assert(row@.take(j as int) =~= row@);
        push_char(&mut out, '\n');
        assert(out@ =~= start + "    "@ + row@ + "\n"@);
        i += 1;
    }
    assert(ls.take(i as int) =~= ls);
    out
}

/// What `status` and `apply` say when no manager is under management yet.
pub open spec fn nothing_managed_text(root: Seq<char>) -> Seq<char> {
    "no package managers are managed yet.\nRun `mpm adopt` to put what is installed under management in "@
        + root
}

pub fn nothing_managed(root: &str) -> (r: String)
    ensures
        r@ == nothing_managed_text(root@),
{
    let mut r = copy_str("no package managers are managed yet.\nRun `mpm adopt` to put what is installed under management in ");
    r.append(root);
    r
}

/// The warning for a `hosts/` tree in which nothing is for this machine,
/// `known` being the host directories it holds -- none at all included.
///
/// A mistyped directory is otherwise silent: its packages simply never count as
/// declared, and every one of them becomes a removal candidate.
pub open spec fn unmatched_host_text(known: Seq<Seq<char>>, host: Seq<char>) -> Option<Seq<char>> {
    if known.contains(host) {
        None
    } else {
        Some("no host layer for `"@ + host + "`; `hosts/` has "@ + joined(known, ", "@))
    }
}

pub fn unmatched_host(known: &Vec<String>, host: &str) -> (r: Option<String>)
    ensures
        match r {
            Some(t) => unmatched_host_text(string_views(known@), host@) == Some(t@),
            None => unmatched_host_text(string_views(known@), host@) is None,
        },
{
    let ghost ks = string_views(known@);
    let mut i: usize = 0;
    while i < known.len()
        invariant
            i <= known.len(),
            ks == string_views(known@),
            forall|k: int| 0 <= k < i ==> ks[k] != host@,
        decreases known.len() - i,
    {
        if str_eq(known[i].as_str(), host) {
            assert(ks[i as int] == host@);
            return None;
        }
        i += 1;
    }
    assert(!ks.contains(host@));
    let mut r = copy_str("no host layer for `");
    r.append(host);
    r.append("`; `hosts/` has ");
    let names = join(known, ", ");
    r.append(names.as_str());
    assert(known@.map_values(|s: String| s@) == ks);
    Some(r)
}

// ------------------------------------------------------------------ adopting

/// Adopting installed packages into a layer's lines: each installed name, in
/// name order, that no layer declares is declared without a version. Returns
/// the new lines and the names that changed the file.
pub open spec fn adopted(
    ls: Seq<LineView>,
    declared: Map<Seq<char>, PackageView>,
    installed: Seq<PackageView>,
) -> (Seq<LineView>, Seq<Seq<char>>)
    decreases installed.len(),
{
    if installed.len() == 0 {
        (ls, seq![])
    } else {
        let (before, added) = adopted(ls, declared, installed.drop_last());
        let name = installed.last().name;
        if declared.dom().contains(name) {
            (before, added)
        } else {
            let (after, changed) = declare_lines(before, PackageView { name, version: None });
            (after, if changed { added.push(name) } else { added })
        }
    }
}

/// Put what is installed under management in one layer.
///
/// Packages any layer already declares are skipped: adding them here would
/// duplicate them. Nothing is pinned: pinning everything on adoption would
/// freeze the whole system at today's versions. Returns the names added, and
/// whether the file has to be written (something was added, or it is new).
pub fn adopt_into(manifest: &mut ManifestFile, declared: &PackageMap, installed: &PackageMap) -> (r: (
    Vec<String>,
    bool,
))
    ensures
        final(manifest)@.path == old(manifest)@.path,
        final(manifest)@.existed == old(manifest)@.existed,
        (final(manifest)@.lines, string_views(r.0@)) == adopted(
            old(manifest)@.lines,
            declared@,
            listing(installed@),
        ),
        r.1 == (r.0.len() > 0 || !old(manifest)@.existed),
{
    let names = installed.entries();
    let ghost s = listing(installed@);
    let ghost ls = manifest@.lines;
    let mut added: Vec<String> = Vec::new();
    let mut i: usize = 0;
    while i < names.len()
        invariant
            i <= names.len(),
            spec_views(names@) == s,
            manifest@.path == old(manifest)@.path,
            manifest@.existed == old(manifest)@.existed,
            ls == old(manifest)@.lines,
            (manifest@.lines, string_views(added@)) == adopted(ls, declared@, s.take(i as int)),
        decreases names.len() - i,
    {
        let name = &names[i].name;
        assert(s.take(i + 1).drop_last() =~= s.take(i as int));
        assert(s.take(i + 1).last().name == name@);
        if !declared.contains_key(name.as_str()) {
            let bare = PackageSpec::new(name.as_str());
            if manifest.declare(&bare) {
                let ghost before = added@;
                added.push(name.clone());
                assert(string_views(added@) =~= string_views(before).push(name@));
            }
        }
        i += 1;
    }
    assert(s.take(i as int) =~= s);
    let save = added.len() > 0 || !manifest.existed();
    (added, save)
}

/// Adoption adds only names that are installed and that no layer declares,
/// and writes no version: every line it leaves was there before or declares
/// a package without one.
pub proof fn law_adoption_adds_bare_names(
    ls: Seq<LineView>,
    declared: Map<Seq<char>, PackageView>,
    installed: Seq<PackageView>,
)
    ensures
        forall|k: int|
            0 <= k < adopted(ls, declared, installed).1.len() ==> !declared.dom().contains(
                #[trigger] adopted(ls, declared, installed).1[k],
            ) && exists|j: int|
                0 <= j < installed.len() && installed[j].name == adopted(ls, declared, installed).1[k],
        forall|k: int|
            0 <= k < adopted(ls, declared, installed).0.len() ==> ls.contains(
                #[trigger] adopted(ls, declared, installed).0[k],
            ) || (adopted(ls, declared, installed).0[k] matches LineView::Declared(p, _) && p.version is None),
    decreases installed.len(),
{
    if installed.len() > 0 {
        let t = installed.drop_last();
        law_adoption_adds_bare_names(ls, declared, t);
        let (before, added) = adopted(ls, declared, t);
        let name = installed.last().name;
        let (after, all) = adopted(ls, declared, installed);
        assert forall|k: int| 0 <= k < all.len() implies !declared.dom().contains(#[trigger] all[k])
            && exists|j: int| 0 <= j < installed.len() && installed[j].name == all[k] by {
            if k < added.len() {
                assert(all[k] == added[k]);
                let j = choose|j: int| 0 <= j < t.len() && t[j].name == added[k];
                assert(installed[j] == t[j]);
            } else {
                assert(all[k] == name);
                assert(installed[installed.len() - 1].name == name);
            }
        }
        if !declared.dom().contains(name) {
            let wanted = PackageView { name, version: None };
            law_declare(before, wanted);
            let i = first_declaring(before, name, 0);
            assert forall|k: int| 0 <= k < after.len() implies ls.contains(#[trigger] after[k])
                || (after[k] matches LineView::Declared(p, _) && p.version is None) by {
                if k < before.len() && k != i {
                    assert(after[k] == before[k]);
                } else if k == i && i < before.len() {
                    match before[i] {
                        LineView::Declared(p, raw) => {
                            if p != wanted {
                                assert(after[k] == LineView::Declared(wanted, rewritten(raw, wanted)));
                            }
                        },
                        LineView::Other(_) => {},
                    }
                } else {
                    assert(after[k] == LineView::Declared(wanted, spec_text(wanted)));
                }
            }
        }
    }
}

// ------------------------------------------------------------------ manifest edits

/// Package arguments read left to right; the first one that is not a valid
/// entry is the error.
pub open spec fn parse_all(texts: Seq<Seq<char>>) -> Result<Seq<PackageView>, SpecErrorView>
    decreases texts.len(),
{
    if texts.len() == 0 {
        Ok(seq![])
    } else {
        match parse_all(texts.drop_last()) {
            Err(e) => Err(e),
            Ok(ps) => match parse_entry(texts.last()) {
                Ok(p) => Ok(ps.push(p)),
                Err(e) => Err(e),
            },
        }
    }
}

pub open spec fn specs_outcome(r: Result<Vec<PackageSpec>, CommandError>) -> Result<
    Seq<PackageView>,
    CommandErrorView,
> {
    match r {
        Ok(v) => Ok(spec_views(v@)),
        Err(e) => Err(e@),
    }
}

/// What a list of package arguments parses to: at least one is needed.
pub open spec fn parsed_arguments(texts: Seq<Seq<char>>) -> Result<Seq<PackageView>, CommandErrorView> {
    if texts.len() == 0 {
        Err(CommandErrorView::NoPackages)
    } else {
        match parse_all(texts) {
            Ok(ps) => Ok(ps),
            Err(e) => Err(CommandErrorView::BadPackage { cause: e }),
        }
    }
}

/// Parse command-line package arguments into manifest entries.
pub fn parse_specs(packages: &[String]) -> (r: Result<Vec<PackageSpec>, CommandError>)
    ensures
        specs_outcome(r) == parsed_arguments(string_views(packages@)),
{
    if packages.len() == 0 {
        return Err(CommandError::NoPackages);
    }
    let ghost ts = string_views(packages@);
    let mut out: Vec<PackageSpec> = Vec::new();
    let mut i: usize = 0;
    assert(ts.take(0) =~= Seq::<Seq<char>>::empty());
    assert(spec_views(out@) =~= Seq::<PackageView>::empty());
    while i < packages.len()
        invariant
            i <= packages.len(),
            ts == string_views(packages@),
            parse_all(ts.take(i as int)) == Ok::<Seq<PackageView>, SpecErrorView>(spec_views(out@)),
        decreases packages.len() - i,
    {
        assert(ts.take(i + 1).drop_last() =~= ts.take(i as int));
        assert(ts.take(i + 1).last() == packages@[i as int]@);
        match PackageSpec::parse(packages[i].as_str()) {
            Ok(p) => {
                let ghost before = out@;
                out.push(p);
                assert(spec_views(out@) =~= spec_views(before).push(p@));
            },
            Err(cause) => {
                proof {
                    lemma_parse_error_sticks(ts, i as int + 1);
                    assert(ts.take(ts.len() as int) =~= ts);
                }
                return Err(CommandError::BadPackage { cause });
            },
        }
        i += 1;
    }
    assert(ts.take(i as int) =~= ts);
    Ok(out)
}

/// Once a prefix fails to parse, every longer prefix fails the same way.
proof fn lemma_parse_error_sticks(ts: Seq<Seq<char>>, i: int)
    requires
        0 <= i <= ts.len(),
        parse_all(ts.take(i)) is Err,
    ensures
        parse_all(ts) == parse_all(ts.take(i)),
    decreases ts.len() - i,
{
    if i < ts.len() {
        assert(ts.take(i + 1).drop_last() =~= ts.take(i));
        lemma_parse_error_sticks(ts, i + 1);
    } else {
        assert(ts.take(i) =~= ts);
    }
}

/// The two edits a command makes to a layer.
#[derive(Debug, Clone, Copy, PartialEq, Eq, Structural)]
pub enum Edit {
    Declare,
    Withdraw,
}

/// One edit applied to each entry in turn; returns the new lines and the
/// entries that actually changed something.
pub open spec fn edited(ls: Seq<LineView>, specs: Seq<PackageView>, edit: Edit) -> (Seq<LineView>, Seq<
    PackageView,
>)
    decreases specs.len(),
{
    if specs.len() == 0 {
        (ls, seq![])
    } else {
        let (before, changed) = edited(ls, specs.drop_last(), edit);
        let spec = specs.last();
        let (after, touched) = match edit {
            Edit::Declare => declare_lines(before, spec),
            Edit::Withdraw => {
                let rest = without_name(before, spec.name);
                (rest, rest.len() != before.len())
            },
        };
        (after, if touched { changed.push(spec) } else { changed })
    }
}

/// Apply an edit to one layer, returning the entries that actually changed;
/// the file needs writing back exactly when that is not empty.
pub fn edit_manifest(manifest: &mut ManifestFile, specs: &[PackageSpec], edit: Edit) -> (r: Vec<PackageSpec>)
    ensures
        final(manifest)@.path == old(manifest)@.path,
        final(manifest)@.existed == old(manifest)@.existed,
        (final(manifest)@.lines, spec_views(r@)) == edited(old(manifest)@.lines, spec_views(specs@), edit),
{
    let ghost ss = spec_views(specs@);
    let ghost ls = manifest@.lines;
    let mut changed: Vec<PackageSpec> = Vec::new();
    let mut i: usize = 0;
    while i < specs.len()
        invariant
            i <= specs.len(),
            ss == spec_views(specs@),
            ls == old(manifest)@.lines,
            manifest@.path == old(manifest)@.path,
            manifest@.existed == old(manifest)@.existed,
            (manifest@.lines, spec_views(changed@)) == edited(ls, ss.take(i as int), edit),
        decreases specs.len() - i,
    {
        let spec = &specs[i];
        assert(ss.take(i + 1).drop_last() =~= ss.take(i as int));
        assert(ss.take(i + 1).last() == spec@);
        let touched = match edit {
            Edit::Declare => manifest.declare(spec),
            Edit::Withdraw => manifest.undeclare(spec.name.as_str()),
        };
        if touched {
            let ghost before = changed@;
            changed.push(spec.clone());
            assert(spec_views(changed@) =~= spec_views(before).push(spec@));
        }
        i += 1;
    }
    assert(ss.take(i as int) =~= ss);
    changed
}

/// Whether any line of `ls` declares `name`.
pub open spec fn declared_in(ls: Seq<LineView>, name: Seq<char>) -> bool {
    exists|i: int| 0 <= i < ls.len() && declares_name(ls[i], name)
}

/// Unpinning each entry in turn: a name the layer does not declare is only
/// noted (unpinning it would declare it); a declared one is rewritten without
/// its version. Returns the new lines, the names that changed, and the names noted.
pub open spec fn unpinned(ls: Seq<LineView>, specs: Seq<PackageView>) -> (Seq<LineView>, Seq<Seq<char>>, Seq<
    Seq<char>,
>)
    decreases specs.len(),
{
    if specs.len() == 0 {
        (ls, seq![], seq![])
    } else {
        let (before, changed, notes) = unpinned(ls, specs.drop_last());
        let name = specs.last().name;
        if !declared_in(before, name) {
            (before, changed, notes.push(name))
        } else {
            let (after, touched) = declare_lines(before, PackageView { name, version: None });
            (after, if touched { changed.push(name) } else { changed }, notes)
        }
    }
}

/// Unpinning never introduces or withdraws a package: a name is declared
/// after unpinning exactly when it was declared before.
pub proof fn law_unpinning_keeps_the_declared_names(ls: Seq<LineView>, specs: Seq<PackageView>)
    ensures
        forall|n: Seq<char>| #[trigger] declared_in(unpinned(ls, specs).0, n) == declared_in(ls, n),
    decreases specs.len(),
{
    if specs.len() > 0 {
        let t = specs.drop_last();
        law_unpinning_keeps_the_declared_names(ls, t);
        let (before, _, _) = unpinned(ls, t);
        let name = specs.last().name;
        if declared_in(before, name) {
            let wanted = PackageView { name, version: None };
            lemma_first_declaring(before, name, 0);
            let i = first_declaring(before, name, 0);
            let after = declare_lines(before, wanted).0;
            assert(i < before.len()) by {
                let k = choose|k: int| 0 <= k < before.len() && declares_name(before[k], name);
                if i >= before.len() {
                    assert(!declares_name(before[k], name));
                }
            }
            assert forall|n: Seq<char>| #[trigger] declared_in(after, n) == declared_in(before, n) by {
                assert(after.len() == before.len());
                assert forall|k: int| 0 <= k < before.len() implies declares_name(#[trigger] after[k], n)
                    == declares_name(before[k], n) by {
                    if k == i {
                        match before[i] {
                            LineView::Declared(p, raw) => {
                                assert(p.name == name);
                            },
                            LineView::Other(_) => {},
                        }
                    }
                }
                if declared_in(after, n) {
                    let k = choose|k: int| 0 <= k < after.len() && declares_name(after[k], n);
                    assert(declares_name(before[k], n));
                }
                if declared_in(before, n) {
                    let k = choose|k: int| 0 <= k < before.len() && declares_name(before[k], n);
                    assert(declares_name(after[k], n));
                }
            }
        }
    }
}

/// Drop the version from packages a layer declares, letting them track
/// whatever is current. Never introduces a package.
pub fn unpin_in(manifest: &mut ManifestFile, specs: &[PackageSpec]) -> (r: (Vec<String>, Vec<String>))
    ensures
        final(manifest)@.path == old(manifest)@.path,
        final(manifest)@.existed == old(manifest)@.existed,
        (final(manifest)@.lines, string_views(r.0@), string_views(r.1@)) == unpinned(
            old(manifest)@.lines,
            spec_views(specs@),
        ),
{
    let ghost ss = spec_views(specs@);
    let ghost ls = manifest@.lines;
    let mut changed: Vec<String> = Vec::new();
    let mut notes: Vec<String> = Vec::new();
    let mut i: usize = 0;
    while i < specs.len()
        invariant
            i <= specs.len(),
            ss == spec_views(specs@),
            ls == old(manifest)@.lines,
            manifest@.path == old(manifest)@.path,
            manifest@.existed == old(manifest)@.existed,
            (manifest@.lines, string_views(changed@), string_views(notes@)) == unpinned(
                ls,
                ss.take(i as int),
            ),
        decreases specs.len() - i,
    {
        let name = &specs[i].name;
        assert(ss.take(i + 1).drop_last() =~= ss.take(i as int));
        assert(ss.take(i + 1).last().name == name@);
        if !manifest.declares(name.as_str()) {
            let ghost before = notes@;
            notes.push(name.clone());
            assert(string_views(notes@) =~= string_views(before).push(name@));
        } else {
            let bare = PackageSpec::new(name.as_str());
            if manifest.declare(&bare) {
                let ghost before = changed@;
                changed.push(name.clone());
                assert(string_views(changed@) =~= string_views(before).push(name@));
            }
        }
        i += 1;
    }
    assert(ss.take(i as int) =~= ss);
    (changed, notes)
}

// ------------------------------------------------------------------ pinning

/// The first entry that already names a version.
pub open spec fn first_versioned(s: Seq<PackageView>) -> Option<PackageView>
    decreases s.len(),
{
    if s.len() == 0 {
        None
    } else {
        match first_versioned(s.drop_last()) {
            Some(p) => Some(p),
            None => if s.last().version is Some {
                Some(s.last())
            } else {
                None
            },
        }
    }
}

/// Why a request to pin `specs` with manager `m` is refused before anything is
/// read, if it is: the manager cannot pin, it is not here (`here`) to report
/// versions, or an entry already names a version.
pub open spec fn pin_request(m: AnyManager, specs: Seq<PackageView>, here: bool) -> Option<CommandErrorView> {
    if !m.spec_supports_pinning() {
        Some(CommandErrorView::CannotPin { id: m.spec_id() })
    } else if !here {
        Some(CommandErrorView::CannotReadVersions { id: m.spec_id() })
    } else {
        match first_versioned(specs) {
            Some(p) => Some(CommandErrorView::AlreadyVersioned { spec: p }),
            None => None,
        }
    }
}

/// Check that `specs` can be pinned with `manager`, `here` being whether its
/// program is on this machine.
pub fn check_pin_request(manager: &AnyManager, specs: &[PackageSpec], here: bool) -> (r: Result<(), CommandError>)
    ensures
        match r {
            Ok(()) => pin_request(*manager, spec_views(specs@), here) is None,
            Err(e) => pin_request(*manager, spec_views(specs@), here) == Some(e@),
        },
{
    if !manager.supports_pinning() {
        return Err(CommandError::CannotPin { id: copy_str(manager.id()) });
    }
    if !here {
        return Err(CommandError::CannotReadVersions { id: copy_str(manager.id()) });
    }
    let ghost ss = spec_views(specs@);
    let mut i: usize = 0;
    while i < specs.len()
        invariant
            i <= specs.len(),
            ss == spec_views(specs@),
            first_versioned(ss.take(i as int)) is None,
            manager.spec_supports_pinning(),
            here,
        decreases specs.len() - i,
    {
        assert(ss.take(i + 1).drop_last() =~= ss.take(i as int));
        assert(ss.take(i + 1).last() == specs@[i as int]@);
        if specs[i].version.is_some() {
            proof {
                assert(first_versioned(ss.take(i + 1)) == Some(specs@[i as int]@));
                lemma_first_versioned_sticks(ss, i as int + 1);
            }
            let e = CommandError::AlreadyVersioned { spec: specs[i].clone() };
            assert(pin_request(*manager, ss, here) == Some(e@));
            return Err(e);
        }
        i += 1;
    }
    assert(ss.take(i as int) =~= ss);
    Ok(())
}

/// Once a prefix holds a versioned entry, the whole list's first one is it.
proof fn lemma_first_versioned_sticks(s: Seq<PackageView>, i: int)
    requires
        0 <= i <= s.len(),
        first_versioned(s.take(i)) is Some,
    ensures
        first_versioned(s) == first_versioned(s.take(i)),
    decreases s.len() - i,
{
    if i < s.len() {
        assert(s.take(i + 1).drop_last() =~= s.take(i));
        lemma_first_versioned_sticks(s, i + 1);
    } else {
        assert(s.take(i) =~= s);
    }
}

/// Each entry rewritten to the version `installed` has for it, in order; the
/// first entry that is not installed, or whose version the manager `id` does
/// not report, is the error.
pub open spec fn pinned_from(
    id: Seq<char>,
    specs: Seq<PackageView>,
    installed: Map<Seq<char>, PackageView>,
) -> Result<Seq<PackageView>, CommandErrorView>
    decreases specs.len(),
{
    if specs.len() == 0 {
        Ok(seq![])
    } else {
        match pinned_from(id, specs.drop_last(), installed) {
            Err(e) => Err(e),
            Ok(ps) => {
                let name = specs.last().name;
                if !installed.dom().contains(name) {
                    Err(CommandErrorView::NotInstalledPackage { name })
                } else {
                    match installed[name].version {
                        None => Err(CommandErrorView::NoVersionReported { id, name }),
                        Some(v) => Ok(ps.push(PackageView { name, version: Some(v) })),
                    }
                }
            },
        }
    }
}

proof fn lemma_pinned_error_sticks(
    id: Seq<char>,
    s: Seq<PackageView>,
    installed: Map<Seq<char>, PackageView>,
    i: int,
)
    requires
        0 <= i <= s.len(),
        pinned_from(id, s.take(i), installed) is Err,
    ensures
        pinned_from(id, s, installed) == pinned_from(id, s.take(i), installed),
    decreases s.len() - i,
{
    if i < s.len() {
        assert(s.take(i + 1).drop_last() =~= s.take(i));
        lemma_pinned_error_sticks(id, s, installed, i + 1);
    } else {
        assert(s.take(i) =~= s);
    }
}

/// Rewrite each package to the version the manager's listing `stdout` reports.
pub fn pin_versions(manager: &AnyManager, specs: &[PackageSpec], stdout: &str) -> (r: Result<
    Vec<PackageSpec>,
    CommandError,
>)
    ensures
        specs_outcome(r) == pinned_from(
            manager.spec_id(),
            spec_views(specs@),
            map_of(manager.spec_parse_list(stdout@)),
        ),
{
    let installed = installed_map(manager, stdout);
    let id = manager.id();
    let ghost ss = spec_views(specs@);
    let ghost m = installed@;
    let mut out: Vec<PackageSpec> = Vec::new();
    let mut i: usize = 0;
    assert(spec_views(out@) =~= Seq::<PackageView>::empty());
    while i < specs.len()
        invariant
            i <= specs.len(),
            ss == spec_views(specs@),
            m == installed@,
            m == map_of(manager.spec_parse_list(stdout@)),
            id@ == manager.spec_id(),
            pinned_from(id@, ss.take(i as int), m) == Ok::<Seq<PackageView>, CommandErrorView>(spec_views(out@)),
        decreases specs.len() - i,
    {
        let spec = &specs[i];
        assert(ss.take(i + 1).drop_last() =~= ss.take(i as int));
        assert(ss.take(i + 1).last() == spec@);
        match installed.get(spec.name.as_str()) {
            None => {
                let e = CommandError::NotInstalledPackage { name: spec.name.clone() };
                proof {
                    assert(pinned_from(id@, ss.take(i + 1), m) == Err::<Seq<PackageView>, CommandErrorView>(e@));
                    lemma_pinned_error_sticks(id@, ss, m, i + 1);
                }
                return Err(e);
            },
            Some(found) => match &found.version {
                None => {
                    let e = CommandError::NoVersionReported { id: copy_str(id), name: spec.name.clone() };
                    proof {
                        assert(pinned_from(id@, ss.take(i + 1), m) == Err::<Seq<PackageView>, CommandErrorView>(e@));
                        lemma_pinned_error_sticks(id@, ss, m, i + 1);
                    }
                    return Err(e);
                },
                Some(version) => {
                    let p = PackageSpec::pinned(spec.name.as_str(), version.as_str());
                    let ghost before = out@;
                    out.push(p);
                    assert(spec_views(out@) =~= spec_views(before).push(p@));
                },
            },
        }
        i += 1;
    }
    assert(ss.take(i as int) =~= ss);
    Ok(out)
}

/// Rewrite each package to the version it is installed at, `here` being
/// whether the manager is on this machine and `stdout` its listing.
///
/// Pinning is always a deliberate act: nothing else in mpm ever writes a
/// version into a manifest, so ordinary upgrades are none of its business.
pub fn pin_to_installed(manager: &AnyManager, specs: &[PackageSpec], here: bool, stdout: &str) -> (r: Result<
    Vec<PackageSpec>,
    CommandError,
>)
    ensures
        specs_outcome(r) == match pin_request(*manager, spec_views(specs@), here) {
            Some(e) => Err(e),
            None => pinned_from(
                manager.spec_id(),
                spec_views(specs@),
                map_of(manager.spec_parse_list(stdout@)),
            ),
        },
{
    match check_pin_request(manager, specs, here) {
        Err(e) => Err(e),
        Ok(()) => pin_versions(manager, specs, stdout),
    }
}

/// A pinned entry records exactly the version the listing reports for it:
/// pinning names one entry per argument, in order, each installed and each
/// at the version installed.
pub proof fn law_pins_record_installed_versions(
    id: Seq<char>,
    specs: Seq<PackageView>,
    installed: Map<Seq<char>, PackageView>,
    pins: Seq<PackageView>,
)
    requires
        pinned_from(id, specs, installed) == Ok::<Seq<PackageView>, CommandErrorView>(pins),
    ensures
        pins.len() == specs.len(),
        forall|k: int|
            0 <= k < specs.len() ==> (#[trigger] pins[k]).name == specs[k].name && installed.dom().contains(
                pins[k].name,
            ) && pins[k].version is Some && installed[pins[k].name].version == pins[k].version,
    decreases specs.len(),
{
    if specs.len() > 0 {
        let t = specs.drop_last();
        let ps = pinned_from(id, t, installed)->Ok_0;
        law_pins_record_installed_versions(id, t, installed, ps);
        assert forall|k: int| 0 <= k < specs.len() implies (#[trigger] pins[k]).name == specs[k].name
            && installed.dom().contains(pins[k].name) && pins[k].version is Some
            && installed[pins[k].name].version == pins[k].version by {
            if k < t.len() {
                assert(pins[k] == ps[k]);
                assert(specs[k] == t[k]);
            }
        }
    }
}

// ------------------------------------------------------------------ reporting

/// The last line of `status`: the summary, or, when some manager could not be
/// read, a warning that says so. An unreadable manager is unknown state, not
/// matching state, so the machine is never called clean while one is.
pub open spec fn status_footer_text(results: Seq<ReconciliationView>, unreadable: nat, colored: bool) -> Seq<
    char,
> {
    if unreadable > 0 {
        painted(
            "33"@,
            decimal(unreadable) + " manager(s) could not be read"@ + (if results.len() == 0 {
                seq![]
            } else {
                "; the rest: "@ + summary(results, colored)
            }),
            colored,
        )
    } else {
        summary(results, colored)
    }
}

pub fn status_footer(results: &[Reconciliation], unreadable: usize, colored: bool) -> (r: String)
    requires
        total_install(plan_views(results@)) <= usize::MAX,
        total_repin(plan_views(results@)) <= usize::MAX,
        total_remove(plan_views(results@)) <= usize::MAX,
    ensures
        r@ == status_footer_text(plan_views(results@), unreadable as nat, colored),
{
    if unreadable > 0 {
        let mut text = decimal_string(unreadable);
        text.append(" manager(s) could not be read");
        if results.len() > 0 {
            text.append("; the rest: ");
            let rest = summarize(results, colored);
            text.append(rest.as_str());
        }
        problem(text.as_str(), colored)
    } else {
        summarize(results, colored)
    }
}

/// Whether `status` reports drift: some plan has work, or some manager could
/// not be read.
pub fn status_drifted(results: &[Reconciliation], unreadable: usize) -> (r: bool)
    ensures
        r == (unreadable > 0 || exists|i: int| 0 <= i < results.len() && plan_has_work(#[trigger] results@[i]@)),
{
    if unreadable > 0 {
        return true;
    }
    let mut i: usize = 0;
    while i < results.len()
        invariant
            i <= results.len(),
            forall|k: int| 0 <= k < i ==> !plan_has_work(#[trigger] results@[k]@),
        decreases results.len() - i,
    {
        if results[i].has_work() {
            return true;
        }
        i += 1;
    }
    false
}

/// `t` padded with spaces to at least `width` characters.
pub open spec fn padded(t: Seq<char>, width: nat) -> Seq<char> {
    if t.len() >= width {
        t
    } else {
        t + Seq::new((width - t.len()) as nat, |i: int| ' ')
    }
}

/// One row of `mpm managers`: the id, whether it is found here, whether it is managed.
pub open spec fn manager_row_text(id: Seq<char>, here: bool, managed: bool) -> Seq<char> {
    padded(id, 8) + " "@ + padded(if here { "found"@ } else { "-"@ }, 7) + " "@ + (if managed {
        "managed"@
    } else {
        "-"@
    })
}

fn pad_to(out: &mut String, text: &str, width: usize)
    ensures
        final(out)@ == old(out)@ + padded(text@, width as nat),
{
    let ghost start = out@;
    out.append(text);
    let n = chars_of(text).len();
    if n >= width {
        assert(out@ =~= start + padded(text@, width as nat));
        return;
    }
    let mut k: usize = n;
    assert(Seq::new((k - n) as nat, |i: int| ' ') =~= Seq::<char>::empty());
    while k < width
        invariant
            n == text@.len(),
            n <= k <= width,
            out@ == start + text@ + Seq::new((k - n) as nat, |i: int| ' '),
        decreases width - k,
    {
        push_char(out, ' ');
        assert(Seq::new((k + 1 - n) as nat, |i: int| ' ') =~= Seq::new((k - n) as nat, |i: int| ' ').push(' '));
        k += 1;
    }
    assert(out@ =~= start + padded(text@, width as nat));
}

pub fn manager_row(id: &str, here: bool, managed: bool) -> (r: String)
    ensures
        r@ == manager_row_text(id@, here, managed),
{
    let mut out = String::new();
    pad_to(&mut out, id, 8);
    out.append(" ");
    pad_to(&mut out, if here { "found" } else { "-" }, 7);
    out.append(" ");
    out.append(if managed { "managed" } else { "-" });
    assert(out@ =~= manager_row_text(id@, here, managed));
    out
}

// ------------------------------------------------------------------ queueing

/// The commands `apply` queues, manager by manager, for the plans that have
/// work, `installers` giving the pacman front end each one would use; the
/// first plan that cannot be turned into commands refuses the whole run,
/// named by its manager.
pub open spec fn queued_from(
    plans: Seq<ReconciliationView>,
    lookups: Seq<Seq<RepoLookupView>>,
    installers: Seq<InstallerView>,
) -> Result<Seq<(Seq<char>, Seq<InvocationView>)>, (Seq<char>, CommandErrorView)>
    decreases plans.len(),
{
    if plans.len() == 0 {
        Ok(seq![])
    } else {
        let k = plans.len() - 1;
        let c = plans[k];
        match queued_from(plans.drop_last(), lookups, installers) {
            Err(e) => Err(e),
            Ok(q) => if !plan_has_work(c) {
                Ok(q)
            } else {
                match manager_for(c.manager) {
                    None => Err((c.manager, CommandErrorView::UnknownManager { id: c.manager })),
                    Some(m) => match planned_commands(m, c, installers[k], lookups[k]) {
                        Ok(cmds) => Ok(q.push((c.manager, cmds))),
                        Err(e) => Err((c.manager, e)),
                    },
                }
            },
        }
    }
}

pub open spec fn queue_views(q: Seq<(String, Vec<Invocation>)>) -> Seq<(Seq<char>, Seq<InvocationView>)> {
    q.map_values(|e: (String, Vec<Invocation>)| (e.0@, invocation_views(e.1@)))
}

pub open spec fn queue_outcome(r: Result<Vec<(String, Vec<Invocation>)>, (String, CommandError)>) -> Result<
    Seq<(Seq<char>, Seq<InvocationView>)>,
    (Seq<char>, CommandErrorView),
> {
    match r {
        Ok(q) => Ok(queue_views(q@)),
        Err(e) => Err((e.0@, e.1@)),
    }
}

pub open spec fn lookup_table(v: Seq<Vec<RepoLookup>>) -> Seq<Seq<RepoLookupView>> {
    v.map_values(|l: Vec<RepoLookup>| lookup_views(l@))
}

proof fn lemma_queue_error_sticks(
    plans: Seq<ReconciliationView>,
    lookups: Seq<Seq<RepoLookupView>>,
    installers: Seq<InstallerView>,
    i: int,
)
    requires
        0 <= i <= plans.len(),
        queued_from(plans.take(i), lookups, installers) is Err,
    ensures
        queued_from(plans, lookups, installers) == queued_from(plans.take(i), lookups, installers),
    decreases plans.len() - i,
{
    if i < plans.len() {
        assert(plans.take(i + 1).drop_last() =~= plans.take(i));
        lemma_queue_error_sticks(plans, lookups, installers, i + 1);
    } else {
        assert(plans.take(i) =~= plans);
    }
}

/// Build every command `apply` will run, before anything runs: a version mpm
/// cannot obtain must stop the run before the prompt, not half way through it.
/// `lookups[k]` holds the `pacman -Si` answers for plan `k`.
pub fn queue_commands(results: &[Reconciliation], lookups: &[Vec<RepoLookup>]) -> (r: Result<
    Vec<(String, Vec<Invocation>)>,
    (String, CommandError),
>)
    requires
        lookups.len() == results.len(),
        forall|k: int|
            0 <= k < results.len() && needs_lookups(#[trigger] results@[k]@) ==> lookups@[k]@.len()
                == pinned_of(plan_installs(results@[k]@)).len(),
    ensures
        exists|installers: Seq<InstallerView>|
            installers.len() == results.len() && (forall|k: int| 0 <= k < installers.len() ==> is_installer(#[trigger] installers[k]))
                && queue_outcome(r) == queued_from(plan_views(results@), lookup_table(lookups@), installers),
{
    let ghost plans = plan_views(results@);
    let ghost table = lookup_table(lookups@);
    let ghost mut installers: Seq<InstallerView> = seq![];
    let mut queued: Vec<(String, Vec<Invocation>)> = Vec::new();
    let mut i: usize = 0;
    assert(plans.take(0) =~= Seq::<ReconciliationView>::empty());
    assert(queue_views(queued@) =~= Seq::<(Seq<char>, Seq<InvocationView>)>::empty());
    while i < results.len()
        invariant
            i <= results.len(),
            lookups.len() == results.len(),
            plans == plan_views(results@),
            table == lookup_table(lookups@),
            forall|k: int|
                0 <= k < results.len() && needs_lookups(#[trigger] results@[k]@) ==> lookups@[k]@.len()
                    == pinned_of(plan_installs(results@[k]@)).len(),
            installers.len() == i,
            forall|k: int| 0 <= k < installers.len() ==> is_installer(#[trigger] installers[k]),
            forall|n: Seq<InstallerView>|
                #![trigger queued_from(plans.take(i as int), table, n)]
                n.len() >= i && n.take(i as int) == installers ==> queued_from(plans.take(i as int), table, n)
                    == Ok::<Seq<(Seq<char>, Seq<InvocationView>)>, (Seq<char>, CommandErrorView)>(
                    queue_views(queued@),
                ),
        decreases results.len() - i,
    {
        let changes = &results[i];
        assert(plans.take(i + 1).drop_last() =~= plans.take(i as int));
        assert(plans.take(i + 1).last() == changes@);
        assert(table[i as int] == lookup_views(lookups@[i as int]@));
        if !changes.has_work() {
            proof {
                let old_inst = installers;
                installers = installers.push(InstallerView::Pacman);
                assert forall|n: Seq<InstallerView>|
                    n.len() >= i + 1 && n.take(i + 1) == installers implies #[trigger] queued_from(
                    plans.take(i + 1),
                    table,
                    n,
                ) == Ok::<Seq<(Seq<char>, Seq<InvocationView>)>, (Seq<char>, CommandErrorView)>(
                    queue_views(queued@),
                ) by {
                    assert(n.take(i as int) =~= n.take(i + 1).take(i as int));
                    assert(n.take(i as int) =~= old_inst);
                    assert(queued_from(plans.take(i as int), table, n) == Ok::<Seq<(Seq<char>, Seq<InvocationView>)>, (Seq<char>, CommandErrorView)>(queue_views(queued@)));
                }
            }
        } else {
            let outcome = commands_for(changes, lookups[i].as_slice());
            let ghost chosen: InstallerView = if manager_for(changes@.manager) is Some {
                choose|c: InstallerView|
                    is_installer(c) && commands_outcome(outcome) == planned_commands(
                        manager_for(changes@.manager)->0,
                        changes@,
                        c,
                        lookup_views(lookups@[i as int]@),
                    )
            } else {
                InstallerView::Pacman
            };
            let ghost old_inst = installers;
            proof {
                installers = installers.push(chosen);
            }
            match outcome {
                Err(e) => {
                    let named = (copy_str(changes.manager.as_str()), e);
                    proof {
                        let n = installers;
                        assert(n.take(i as int) =~= old_inst);
                        assert(queued_from(plans.take(i as int), table, n) == Ok::<Seq<(Seq<char>, Seq<InvocationView>)>, (Seq<char>, CommandErrorView)>(queue_views(queued@)));
                        assert(queued_from(plans.take(i + 1), table, n) == Err::<Seq<(Seq<char>, Seq<InvocationView>)>, (Seq<char>, CommandErrorView)>((named.0@, named.1@)));
                        lemma_queue_error_sticks(plans, table, n, i + 1);
                        let full = n + Seq::new((results.len() - i - 1) as nat, |k: int| InstallerView::Pacman);
                        assert(full.take(i + 1) =~= n);
                        assert forall|k: int| 0 <= k < full.len() implies is_installer(#[trigger] full[k]) by {
                            if k < n.len() {
                                assert(full[k] == n[k]);
                            }
                        }
                        assert(queued_from(plans.take(i + 1), table, full) == queued_from(plans.take(i + 1), table, n)) by {
                            lemma_queue_prefix(plans.take(i + 1), table, n, full);
                        }
                        lemma_queue_error_sticks(plans, table, full, i + 1);
                        assert(queue_outcome(Err::<Vec<(String, Vec<Invocation>)>, (String, CommandError)>(named)) == queued_from(plans, table, full));
                    }
                    return Err(named);
                },
                Ok(commands) => {
                    let ghost before = queued@;
                    let entry = (copy_str(changes.manager.as_str()), commands);
                    queued.push(entry);
                    assert(queue_views(queued@) =~= queue_views(before).push((entry.0@, invocation_views(entry.1@))));
                    proof {
                        assert forall|n: Seq<InstallerView>|
                            n.len() >= i + 1 && n.take(i + 1) == installers implies #[trigger] queued_from(
                            plans.take(i + 1),
                            table,
                            n,
                        ) == Ok::<Seq<(Seq<char>, Seq<InvocationView>)>, (Seq<char>, CommandErrorView)>(
                            queue_views(queued@),
                        ) by {
                            assert(n.take(i as int) =~= n.take(i + 1).take(i as int));
                            assert(n.take(i as int) =~= old_inst);
                            assert(n[i as int] == installers[i as int]);
                            assert(queued_from(plans.take(i as int), table, n) == Ok::<Seq<(Seq<char>, Seq<InvocationView>)>, (Seq<char>, CommandErrorView)>(queue_views(before)));
                        }
                    }
                },
            }
        }
        i += 1;
    }
    assert(plans.take(i as int) =~= plans);
    proof {
        assert(installers.take(i as int) =~= installers);
    }
    Ok(queued)
}

/// Only the installers of the plans read so far matter.
proof fn lemma_queue_prefix(
    plans: Seq<ReconciliationView>,
    lookups: Seq<Seq<RepoLookupView>>,
    a: Seq<InstallerView>,
    b: Seq<InstallerView>,
)
    requires
        a.len() >= plans.len(),
        b.len() >= plans.len(),
        forall|k: int| 0 <= k < plans.len() ==> a[k] == b[k],
    ensures
        queued_from(plans, lookups, a) == queued_from(plans, lookups, b),
    decreases plans.len(),
{
    if plans.len() > 0 {
        lemma_queue_prefix(plans.drop_last(), lookups, a, b);
    }
}

// ------------------------------------------------------------------ declaring

/// The entries `mpm add` declares for `packages`: parsed, and, with `pin`,
/// each rewritten to the version installed right now (`here` and `stdout`
/// being the manager's presence and listing).
pub open spec fn entries_to_declare(
    m: AnyManager,
    packages: Seq<Seq<char>>,
    pin: bool,
    here: bool,
    stdout: Seq<char>,
) -> Result<Seq<PackageView>, CommandErrorView> {
    match parsed_arguments(packages) {
        Err(e) => Err(e),
        Ok(ps) => if !pin {
            Ok(ps)
        } else {
            match pin_request(m, ps, here) {
                Some(e) => Err(e),
                None => pinned_from(m.spec_id(), ps, map_of(m.spec_parse_list(stdout))),
            }
        },
    }
}

pub fn to_declare(manager: &AnyManager, packages: &[String], pin: bool, here: bool, stdout: &str) -> (r: Result<
    Vec<PackageSpec>,
    CommandError,
>)
    ensures
        specs_outcome(r) == entries_to_declare(*manager, string_views(packages@), pin, here, stdout@),
{
    let specs = parse_specs(packages)?;
    if !pin {
        return Ok(specs);
    }
    pin_to_installed(manager, specs.as_slice(), here, stdout)
}

/// Lock packages to the version installed right now: the entries `mpm pin`
/// declares. The same operation as `add --pin`, reachable on its own so that
/// pinning is something you do *to* a package you already have.
pub fn pin(manager: &AnyManager, packages: &[String], here: bool, stdout: &str) -> (r: Result<
    Vec<PackageSpec>,
    CommandError,
>)
    ensures
        specs_outcome(r) == entries_to_declare(*manager, string_views(packages@), true, here, stdout@),
{
    to_declare(manager, packages, true, here, stdout)
}

// ------------------------------------------------------------------ finishing

/// How `apply` ends when managers failed: their names, sorted, in one line.
pub fn failure_report(failures: &[String]) -> (r: Option<String>)
    ensures
        failures.len() == 0 <==> r is None,
        r matches Some(t) ==> exists|s: Seq<Seq<char>>|
            s.to_multiset() == string_views(failures@).to_multiset() && texts_sorted(s) && t@ == "failed to apply: "@
                + joined(s, ", "@),
{
    if failures.len() == 0 {
        return None;
    }
    let names = sorted_texts(failures);
    let mut text = copy_str("failed to apply: ");
    let joined_names = join(&names, ", ");
    text.append(joined_names.as_str());
    assert(string_texts(names@) == names@.map_values(|s: String| s@));
    assert(string_texts(failures@) == string_views(failures@));
    Some(text)
}

/// Whether an answer to a yes/no question is yes: `y` or `yes` in any case,
/// surrounding whitespace ignored.
pub open spec fn says_yes(answer: Seq<char>) -> bool {
    let w = trim(answer);
    ||| w.len() == 1 && (w[0] == 'y' || w[0] == 'Y')
    ||| w.len() == 3 && (w[0] == 'y' || w[0] == 'Y') && (w[1] == 'e' || w[1] == 'E') && (w[2] == 's'
        || w[2] == 'S')
}

pub fn accepts(answer: &str) -> (r: bool)
    ensures
        r == says_yes(answer@),
{
    let w = trimmed(&chars_of(answer));
    if w.len() == 1 {
        w[0] == 'y' || w[0] == 'Y'
    } else if w.len() == 3 {
        (w[0] == 'y' || w[0] == 'Y') && (w[1] == 'e' || w[1] == 'E') && (w[2] == 's' || w[2] == 'S')
    } else {
        false
    }
}

/// Whether a confirmation was given: only on a terminal, and only when a line
/// was read that says yes. A non-terminal stdin answers no: a pipeline must
/// pass `--yes` rather than have consent inferred from the absence of a
/// terminal, and end of input is no answer at all.
pub fn consent(stdin_is_terminal: bool, line: Option<&str>) -> (r: bool)
    ensures
        r == (stdin_is_terminal && line is Some && says_yes(line->0@)),
{
    if !stdin_is_terminal {
        return false;
    }
    match line {
        Some(answer) => accepts(answer),
        None => false,
    }
}

/// Which of a manager's `count` commands runs next, once `ran` have run and
/// the last of them failed or not: the run stops at the first failure.
pub fn next_command(count: usize, ran: usize, last_failed: bool) -> (r: Option<usize>)
    ensures
        r == (if last_failed || ran >= count {
            None::<usize>
        } else {
            Some(ran)
        }),
{
    if last_failed || ran >= count {
        None
    } else {
        Some(ran)
    }
}

// ------------------------------------------------------------------ apply

/// Where `apply` stands.
#[derive(Debug)]
pub enum ApplyStep {
    /// A manager could not be read: acting on a half-known system is how the
    /// wrong things get uninstalled.
    Refuse { id: String },
    /// Nothing needs doing.
    Clean,
    /// Some plan could not be turned into commands, so the run stops before
    /// the prompt.
    Unqueued,
    /// `--dry-run`: the plan is shown, nothing is changed.
    DryRun,
    /// Consent is still to be asked for.
    Ask,
    /// Consent was refused.
    Abort,
    /// Run the queued commands.
    Run,
}

pub enum ApplyStepView {
    Refuse { id: Seq<char> },
    Clean,
    Unqueued,
    DryRun,
    Ask,
    Abort,
    Run,
}

impl View for ApplyStep {
    type V = ApplyStepView;

    open spec fn view(&self) -> ApplyStepView {
        match self {
            ApplyStep::Refuse { id } => ApplyStepView::Refuse { id: id@ },
            ApplyStep::Clean => ApplyStepView::Clean,
            ApplyStep::Unqueued => ApplyStepView::Unqueued,
            ApplyStep::DryRun => ApplyStepView::DryRun,
            ApplyStep::Ask => ApplyStepView::Ask,
            ApplyStep::Abort => ApplyStepView::Abort,
            ApplyStep::Run => ApplyStepView::Run,
        }
    }
}

/// The first index at or after `i` whose manager could not be read, or the
/// number of managers.
pub open spec fn first_unreadable(readable: Seq<bool>, i: int) -> int
    decreases readable.len() - i,
{
    if i < 0 || i >= readable.len() || !readable[i] {
        i
    } else {
        first_unreadable(readable, i + 1)
    }
}

pub proof fn lemma_first_unreadable(readable: Seq<bool>, i: int)
    requires
        0 <= i <= readable.len(),
    ensures
        i <= first_unreadable(readable, i) <= readable.len(),
        forall|k: int| i <= k < first_unreadable(readable, i) ==> #[trigger] readable[k],
        first_unreadable(readable, i) < readable.len() ==> !readable[first_unreadable(readable, i)],
    decreases readable.len() - i,
{
    if i < readable.len() && readable[i] {
        lemma_first_unreadable(readable, i + 1);
    }
}

/// The next step of `apply`: refuse on the first manager that could not be
/// read; finish when no plan has work; stop when the commands could not be
/// queued; stop after showing the plan on a dry run; run with `--yes`;
/// otherwise ask, and run or abort on the answer.
pub open spec fn apply_step_of(
    ids: Seq<Seq<char>>,
    readable: Seq<bool>,
    results: Seq<ReconciliationView>,
    queued_ok: bool,
    dry_run: bool,
    yes: bool,
    consent: Option<bool>,
) -> ApplyStepView {
    let k = first_unreadable(readable, 0);
    if k < readable.len() {
        ApplyStepView::Refuse { id: ids[k] }
    } else if !(exists|i: int| 0 <= i < results.len() && plan_has_work(#[trigger] results[i])) {
        ApplyStepView::Clean
    } else if !queued_ok {
        ApplyStepView::Unqueued
    } else if dry_run {
        ApplyStepView::DryRun
    } else if yes {
        ApplyStepView::Run
    } else {
        match consent {
            None => ApplyStepView::Ask,
            Some(true) => ApplyStepView::Run,
            Some(false) => ApplyStepView::Abort,
        }
    }
}

/// Decide the next step of `apply`. `readable[k]` says whether manager
/// `ids[k]` could be read, `results` are the plans of those that could,
/// `queued_ok` whether their commands could be built, and `consent` the
/// answer to the prompt, if it was asked.
pub fn apply_step(
    ids: &[String],
    readable: &[bool],
    results: &[Reconciliation],
    queued_ok: bool,
    opts: &ApplyOpts,
    consent: Option<bool>,
) -> (r: ApplyStep)
    requires
        readable.len() == ids.len(),
    ensures
        r@ == apply_step_of(
            string_views(ids@),
            readable@,
            plan_views(results@),
            queued_ok,
            opts.dry_run,
            opts.yes,
            consent,
        ),
{
    proof {
        lemma_first_unreadable(readable@, 0);
    }
    let mut k: usize = 0;
    while k < readable.len() && readable[k]
        invariant
            k <= readable.len(),
            first_unreadable(readable@, 0) == first_unreadable(readable@, k as int),
        decreases readable.len() - k,
    {
        k += 1;
    }
    if k < readable.len() {
        return ApplyStep::Refuse { id: ids[k].clone() };
    }
    let work = status_drifted(results, 0);
    assert(work == exists|i: int| 0 <= i < plan_views(results@).len() && plan_has_work(#[trigger] plan_views(results@)[i])) by {
        if work {
            let i = choose|i: int| 0 <= i < results.len() && plan_has_work(#[trigger] results@[i]@);
            assert(plan_views(results@)[i] == results@[i]@);
        }
        if exists|i: int| 0 <= i < plan_views(results@).len() && plan_has_work(#[trigger] plan_views(results@)[i]) {
            let i = choose|i: int| 0 <= i < plan_views(results@).len() && plan_has_work(#[trigger] plan_views(results@)[i]);
            assert(plan_views(results@)[i] == results@[i]@);
        }
    }
    if !work {
        ApplyStep::Clean
    } else if !queued_ok {
        ApplyStep::Unqueued
    } else if opts.dry_run {
        ApplyStep::DryRun
    } else if opts.yes {
        ApplyStep::Run
    } else {
        match consent {
            None => ApplyStep::Ask,
            Some(true) => ApplyStep::Run,
            Some(false) => ApplyStep::Abort,
        }
    }
}

/// `apply` changes the machine only when every manager was read, some plan
/// has work, all of its commands could be built, it is no dry run, and
/// `--yes` was given or the prompt was answered yes.
pub proof fn law_apply_runs_only_when_safe(
    ids: Seq<Seq<char>>,
    readable: Seq<bool>,
    results: Seq<ReconciliationView>,
    queued_ok: bool,
    dry_run: bool,
    yes: bool,
    consent: Option<bool>,
)
    requires
        readable.len() == ids.len(),
    ensures
        apply_step_of(ids, readable, results, queued_ok, dry_run, yes, consent) is Run ==> {
            &&& forall|k: int| 0 <= k < readable.len() ==> #[trigger] readable[k]
            &&& exists|i: int| 0 <= i < results.len() && plan_has_work(#[trigger] results[i])
            &&& queued_ok
            &&& !dry_run
            &&& (yes || consent == Some(true))
        },
{
    lemma_first_unreadable(readable, 0);
}

} // verus!
