use vstd::prelude::*;

use crate::manifest::grammar::{PackageSpec, PackageView};
use crate::package_map::{
    PackageMap, listing, map_of, names_sorted, names_unique, lemma_map_of_sorted, lemma_sorted_unique,
    spec_views,
};
use crate::invocation::texts;
use crate::manager::arch::{UnarchivedPins, unarchived_text, unrecognised, values_of};
use crate::manager::{AnyManager, Manager, name_texts, pinned_of};
use crate::manifest::opt_view;
use crate::order::text_lt;
use crate::text::{copy_str, join, joined, lines, push_char, str_eq};

verus! {

/// A declared pin that does not match the installed version.
#[derive(Debug)]
pub struct Repin {
    pub spec: PackageSpec,
    pub installed: String,
}

pub struct RepinView {
    pub spec: PackageView,
    pub installed: Seq<char>,
}

impl View for Repin {
    type V = RepinView;

    open spec fn view(&self) -> RepinView {
        RepinView { spec: self.spec@, installed: self.installed@ }
    }
}

impl Clone for Repin {
    fn clone(&self) -> (r: Self)
        ensures
            r@ == self@,
    {
        Repin { spec: self.spec.clone(), installed: self.installed.clone() }
    }
}

impl PartialEq for Repin {
    fn eq(&self, other: &Self) -> (r: bool) {
        self.spec.same_as(&other.spec) && str_eq(self.installed.as_str(), other.installed.as_str())
    }
}

impl vstd::std_specs::cmp::PartialEqSpecImpl for Repin {
    open spec fn obeys_eq_spec() -> bool {
        true
    }

    open spec fn eq_spec(&self, other: &Repin) -> bool {
        self@ == other@
    }
}

impl Eq for Repin {}

/// The changes that would bring one manager in line with its manifest.
///
/// `status`, `apply --dry-run` and `apply` all render and execute *this* value,
/// so a preview cannot drift away from the action it previews.
#[derive(Debug)]
pub struct Reconciliation {
    pub manager: String,
    /// Declared but not installed.
    pub install: Vec<PackageSpec>,
    /// Installed at the wrong version.
    pub repin: Vec<Repin>,
    /// Installed but not declared.
    pub remove: Vec<String>,
}

pub struct ReconciliationView {
    pub manager: Seq<char>,
    pub install: Seq<PackageView>,
    pub repin: Seq<RepinView>,
    pub remove: Seq<Seq<char>>,
}

pub open spec fn repin_views(v: Seq<Repin>) -> Seq<RepinView> {
    v.map_values(|r: Repin| r@)
}

pub open spec fn string_views(v: Seq<String>) -> Seq<Seq<char>> {
    v.map_values(|s: String| s@)
}

impl View for Reconciliation {
    type V = ReconciliationView;

    open spec fn view(&self) -> ReconciliationView {
        ReconciliationView {
            manager: self.manager@,
            install: spec_views(self.install@),
            repin: repin_views(self.repin@),
            remove: string_views(self.remove@),
        }
    }
}

impl Default for Reconciliation {
    fn default() -> (r: Self)
        ensures
            r@ == (ReconciliationView {
                manager: Seq::empty(),
                install: Seq::empty(),
                repin: Seq::empty(),
                remove: Seq::empty(),
            }),
    {
        let r = Reconciliation {
            manager: String::new(),
            install: Vec::new(),
            repin: Vec::new(),
            remove: Vec::new(),
        };
        assert(r@.install =~= Seq::<PackageView>::empty());
        assert(r@.repin =~= Seq::<RepinView>::empty());
        assert(r@.remove =~= Seq::<Seq<char>>::empty());
        r
    }
}

fn clone_specs(v: &Vec<PackageSpec>) -> (r: Vec<PackageSpec>)
    ensures
        spec_views(r@) == spec_views(v@),
{
    let mut r: Vec<PackageSpec> = Vec::new();
    let mut i: usize = 0;
    while i < v.len()
        invariant
            i <= v.len(),
            spec_views(r@) == spec_views(v@).take(i as int),
        decreases v.len() - i,
    {
        let x = v[i].clone();
        assert(x@ == v@[i as int]@);
        let ghost before = r@;
        r.push(x);
        assert(r@ == before.push(x));
        assert(spec_views(r@) =~= spec_views(before).push(x@));
        assert(spec_views(v@).take(i + 1) =~= spec_views(v@).take(i as int).push(v@[i as int]@));
        i += 1;
    }
    assert(spec_views(v@).take(i as int) =~= spec_views(v@));
    r
}

fn clone_repins(v: &Vec<Repin>) -> (r: Vec<Repin>)
    ensures
        repin_views(r@) == repin_views(v@),
{
    let mut r: Vec<Repin> = Vec::new();
    let mut i: usize = 0;
    while i < v.len()
        invariant
            i <= v.len(),
            repin_views(r@) == repin_views(v@).take(i as int),
        decreases v.len() - i,
    {
        let x = v[i].clone();
        assert(x@ == v@[i as int]@);
        let ghost before = r@;
        r.push(x);
        assert(r@ == before.push(x));
        assert(repin_views(r@) =~= repin_views(before).push(x@));
        assert(repin_views(v@).take(i + 1) =~= repin_views(v@).take(i as int).push(v@[i as int]@));
        i += 1;
    }
    assert(repin_views(v@).take(i as int) =~= repin_views(v@));
    r
}

fn clone_strings(v: &Vec<String>) -> (r: Vec<String>)
    ensures
        string_views(r@) == string_views(v@),
{
    let mut r: Vec<String> = Vec::new();
    let mut i: usize = 0;
    while i < v.len()
        invariant
            i <= v.len(),
            string_views(r@) == string_views(v@).take(i as int),
        decreases v.len() - i,
    {
        let x = v[i].clone();
        assert(x@ == v@[i as int]@);
        let ghost before = r@;
        r.push(x);
        assert(r@ == before.push(x));
        assert(string_views(r@) =~= string_views(before).push(x@));
        assert(string_views(v@).take(i + 1) =~= string_views(v@).take(i as int).push(v@[i as int]@));
        i += 1;
    }
    assert(string_views(v@).take(i as int) =~= string_views(v@));
    r
}

impl Clone for Reconciliation {
    fn clone(&self) -> (r: Self)
        ensures
            r@ == self@,
    {
        Reconciliation {
            manager: self.manager.clone(),
            install: clone_specs(&self.install),
            repin: clone_repins(&self.repin),
            remove: clone_strings(&self.remove),
        }
    }
}

/// Whether a plan changes anything.
pub open spec fn plan_has_work(r: ReconciliationView) -> bool {
    r.install.len() > 0 || r.repin.len() > 0 || r.remove.len() > 0
}

/// Everything a plan installs: new packages first, then repins.
pub open spec fn plan_installs(r: ReconciliationView) -> Seq<PackageView> {
    r.install + r.repin.map_values(|c: RepinView| c.spec)
}

impl Reconciliation {
    /// Whether applying this would change anything.
    pub fn has_work(&self) -> (r: bool)
        ensures
            r == plan_has_work(self@),
    {
        self.install.len() > 0 || self.repin.len() > 0 || self.remove.len() > 0
    }

    /// Packages to install, including repins.
    pub fn to_install(&self) -> (r: Vec<PackageSpec>)
        ensures
            spec_views(r@) == plan_installs(self@),
    {
        let mut specs = clone_specs(&self.install);
        let mut i: usize = 0;
        while i < self.repin.len()
            invariant
                i <= self.repin.len(),
                spec_views(specs@) == spec_views(self.install@) + repin_views(self.repin@).take(
                    i as int,
                ).map_values(|c: RepinView| c.spec),
            decreases self.repin.len() - i,
        {
            let x = self.repin[i].spec.clone();
            let ghost before = specs@;
            specs.push(x);
            assert(spec_views(specs@) =~= spec_views(before).push(x@));
            assert(repin_views(self.repin@).take(i + 1) =~= repin_views(self.repin@).take(i as int).push(self.repin@[i as int]@));
            i += 1;
            assert(spec_views(specs@) =~= spec_views(self.install@) + repin_views(
                self.repin@,
            ).take(i as int).map_values(|c: RepinView| c.spec));
        }
        assert(repin_views(self.repin@).take(i as int) =~= repin_views(self.repin@));
        specs
    }
}

// ------------------------------------------------------------------ planning

/// Whether a declared pin and an installed version disagree. An unknown
/// installed version never disagrees.
pub open spec fn pins_differ(want: PackageView, have: PackageView) -> bool {
    want.version is Some && have.version is Some && want.version != have.version
}

/// Declared packages that are not installed, in declared order.
pub open spec fn missing(declared: Seq<PackageView>, installed: Map<Seq<char>, PackageView>) -> Seq<
    PackageView,
>
    decreases declared.len(),
{
    if declared.len() == 0 {
        seq![]
    } else {
        let rest = missing(declared.drop_last(), installed);
        let p = declared.last();
        if installed.dom().contains(p.name) {
            rest
        } else {
            rest.push(p)
        }
    }
}

/// Declared pins that the installed version does not match, in declared order.
pub open spec fn mismatched(
    declared: Seq<PackageView>,
    installed: Map<Seq<char>, PackageView>,
    pinning: bool,
) -> Seq<RepinView>
    decreases declared.len(),
{
    if declared.len() == 0 {
        seq![]
    } else {
        let rest = mismatched(declared.drop_last(), installed, pinning);
        let p = declared.last();
        if pinning && installed.dom().contains(p.name) && pins_differ(p, installed[p.name]) {
            rest.push(RepinView { spec: p, installed: installed[p.name].version->0 })
        } else {
            rest
        }
    }
}

/// Installed packages that nothing declares, in installed order.
pub open spec fn undeclared(installed: Seq<PackageView>, declared: Map<Seq<char>, PackageView>) -> Seq<
    Seq<char>,
>
    decreases installed.len(),
{
    if installed.len() == 0 {
        seq![]
    } else {
        let rest = undeclared(installed.drop_last(), declared);
        let name = installed.last().name;
        if declared.dom().contains(name) {
            rest
        } else {
            rest.push(name)
        }
    }
}

/// The plan for one manager: install what is declared and missing, repin what
/// is installed at the wrong version (only where the manager can pin), and
/// remove what is installed but declared nowhere.
pub open spec fn plan(
    manager: Seq<char>,
    declared: Seq<PackageView>,
    installed: Seq<PackageView>,
    pinning: bool,
) -> ReconciliationView {
    ReconciliationView {
        manager,
        install: missing(declared, map_of(installed)),
        repin: mismatched(declared, map_of(installed), pinning),
        remove: undeclared(installed, map_of(declared)),
    }
}

/// Compare declared state against installed state.
///
/// Pure: no process is spawned and no file is read, so the safety-critical
/// decision of *what gets uninstalled* is directly testable.
pub fn compute(
    manager: &str,
    declared: &PackageMap,
    installed: &PackageMap,
    supports_pinning: bool,
) -> (r: Reconciliation)
    ensures
        r@ == plan(manager@, declared.specs(), installed.specs(), supports_pinning),
{
    let mut install: Vec<PackageSpec> = Vec::new();
    let mut repin: Vec<Repin> = Vec::new();
    let mut remove: Vec<String> = Vec::new();
    let wanted_all = declared.entries();
    let present_all = installed.entries();
    let ghost d = declared.specs();
    let ghost inst = installed@;

    let mut i: usize = 0;
    while i < wanted_all.len()
        invariant
            i <= wanted_all.len(),
            spec_views(wanted_all@) == d,
            inst == installed@,
            spec_views(install@) == missing(d.take(i as int), inst),
            repin_views(repin@) == mismatched(d.take(i as int), inst, supports_pinning),
        decreases wanted_all.len() - i,
    {
        let wanted = &wanted_all[i];
        assert(d[i as int] == wanted@);
        assert(d.take(i + 1).drop_last() =~= d.take(i as int));
        assert(d.take(i + 1).last() == wanted@);
        match installed.get(wanted.name.as_str()) {
            None => {
                install.push(wanted.clone());
                assert(spec_views(install@) =~= missing(d.take(i as int), inst).push(wanted@));
            },
            Some(present) => {
                // An unknown installed version counts as satisfied, rather than
                // reinstalling on every single run.
                if supports_pinning {
                    match (&wanted.version, &present.version) {
                        (Some(want), Some(have)) => {
                            if !str_eq(want.as_str(), have.as_str()) {
                                let change = Repin { spec: wanted.clone(), installed: have.clone() };
                                repin.push(change);
                                assert(repin_views(repin@) =~= mismatched(
                                    d.take(i as int),
                                    inst,
                                    supports_pinning,
                                ).push(RepinView { spec: wanted@, installed: have@ }));
                            }
                        },
                        _ => {},
                    }
                }
            },
        }
        i += 1;
    }
    assert(d.take(i as int) =~= d);

    let ghost s = installed.specs();
    let ghost dm = declared@;
    let mut j: usize = 0;
    while j < present_all.len()
        invariant
            j <= present_all.len(),
            spec_views(present_all@) == s,
            dm == declared@,
            string_views(remove@) == undeclared(s.take(j as int), dm),
        decreases present_all.len() - j,
    {
        let name = &present_all[j].name;
        assert(s[j as int].name == name@);
        assert(s.take(j + 1).drop_last() =~= s.take(j as int));
        assert(s.take(j + 1).last() == s[j as int]);
        if !declared.contains_key(name.as_str()) {
            remove.push(name.clone());
            assert(string_views(remove@) =~= undeclared(s.take(j as int), dm).push(name@));
        }
        j += 1;
    }
    assert(s.take(j as int) =~= s);
    Reconciliation { manager: copy_str(manager), install, repin, remove }
}


// ------------------------------------------------------------------ validation

/// A declared pin this manager cannot carry out.
#[derive(Debug)]
pub enum PinProblem {
    /// `node@20 20.11.0` on Homebrew: the name already chose a version.
    NameSelectsVersion { name: String, version: String },
    /// A version declared for a manager that cannot install one.
    CannotPin { name: String, version: String, manager: String },
}

pub enum PinProblemView {
    NameSelectsVersion { name: Seq<char>, version: Seq<char> },
    CannotPin { name: Seq<char>, version: Seq<char>, manager: Seq<char> },
}

impl View for PinProblem {
    type V = PinProblemView;

    open spec fn view(&self) -> PinProblemView {
        match self {
            PinProblem::NameSelectsVersion { name, version } => PinProblemView::NameSelectsVersion {
                name: name@,
                version: version@,
            },
            PinProblem::CannotPin { name, version, manager } => PinProblemView::CannotPin {
                name: name@,
                version: version@,
                manager: manager@,
            },
        }
    }
}

pub open spec fn problem_text(p: PinProblemView) -> Seq<char> {
    match p {
        PinProblemView::NameSelectsVersion { name, version } => "`"@ + name + " "@ + version
            + "`: the name `"@ + name + "` already selects a version -- drop `"@ + version + "`"@,
        PinProblemView::CannotPin { name, version, manager } => "`"@ + name + " "@ + version
            + "`: "@ + manager + " cannot install a specific version -- declare `"@ + name
            + "` alone"@,
    }
}

impl PinProblem {
    pub fn to_string(&self) -> (r: String)
        ensures
            r@ == problem_text(self@),
    {
        match self {
            PinProblem::NameSelectsVersion { name, version } => {
                let mut r = copy_str("`");
                r.append(name.as_str());
                r.append(" ");
                r.append(version.as_str());
                r.append("`: the name `");
                r.append(name.as_str());
                r.append("` already selects a version -- drop `");
                r.append(version.as_str());
                r.append("`");
                r
            },
            PinProblem::CannotPin { name, version, manager } => {
                let mut r = copy_str("`");
                r.append(name.as_str());
                r.append(" ");
                r.append(version.as_str());
                r.append("`: ");
                r.append(manager.as_str());
                r.append(" cannot install a specific version -- declare `");
                r.append(name.as_str());
                r.append("` alone");
                r
            },
        }
    }
}

/// Every pin a manager cannot honour, reported at once.
#[derive(Debug)]
pub struct PinProblems {
    pub problems: Vec<PinProblem>,
}

pub open spec fn problem_views(v: Seq<PinProblem>) -> Seq<PinProblemView> {
    v.map_values(|p: PinProblem| p@)
}

impl PinProblems {
    /// One problem per line.
    pub fn to_string(&self) -> (r: String)
        ensures
            r@ == joined(problem_views(self.problems@).map_values(|p: PinProblemView| problem_text(p)), "\n  "@),
    {
        let mut texts: Vec<String> = Vec::new();
        let ghost ps = problem_views(self.problems@);
        let mut i: usize = 0;
        while i < self.problems.len()
            invariant
                i <= self.problems.len(),
                ps == problem_views(self.problems@),
                texts@.map_values(|s: String| s@) == ps.take(i as int).map_values(
                    |p: PinProblemView| problem_text(p),
                ),
            decreases self.problems.len() - i,
        {
            let t = self.problems[i].to_string();
            let ghost before = texts@;
            texts.push(t);
            assert(texts@.map_values(|s: String| s@) =~= ps.take(i + 1).map_values(
                |p: PinProblemView| problem_text(p),
            )) by {
                assert(ps.take(i + 1) =~= ps.take(i as int).push(ps[i as int]));
                assert(texts@ == before.push(t));
                assert(texts@.map_values(|s: String| s@) =~= before.map_values(|s: String| s@).push(t@));
            }
            i += 1;
        }
        assert(ps.take(i as int) =~= ps);
        join(&texts, "\n  ")
    }
}

/// The problem a declared entry poses for a manager, if any.
pub open spec fn pin_problem<M: Manager>(manager: M, p: PackageView) -> Option<PinProblemView> {
    match p.version {
        None => None,
        Some(v) => if manager.spec_name_selects_version(p.name) {
            Some(PinProblemView::NameSelectsVersion { name: p.name, version: v })
        } else if !manager.spec_supports_pinning() {
            Some(PinProblemView::CannotPin { name: p.name, version: v, manager: manager.spec_id() })
        } else {
            None
        },
    }
}

/// The problems of each declared entry, in declared order.
pub open spec fn pin_problems<M: Manager>(manager: M, s: Seq<PackageView>) -> Seq<PinProblemView>
    decreases s.len(),
{
    if s.len() == 0 {
        seq![]
    } else {
        let rest = pin_problems(manager, s.drop_last());
        match pin_problem(manager, s.last()) {
            Some(q) => rest.push(q),
            None => rest,
        }
    }
}

/// The pins this manager cannot carry out, all of them at once.
///
/// A pin mpm cannot honour is an error, not a warning: installing an arbitrary
/// version when an exact one was asked for is the kind of quiet substitution
/// this tool exists to avoid.
pub fn find_pin_problems<M: Manager>(manager: &M, declared: &PackageMap) -> (r: Result<(), PinProblems>)
    ensures
        r is Ok <==> pin_problems(*manager, declared.specs()).len() == 0,
        r matches Err(e) ==> problem_views(e.problems@) == pin_problems(*manager, declared.specs()),
{
    let entries = declared.entries();
    let ghost d = declared.specs();
    let mut problems: Vec<PinProblem> = Vec::new();
    let mut i: usize = 0;
    while i < entries.len()
        invariant
            i <= entries.len(),
            d == spec_views(entries@),
            problem_views(problems@) == pin_problems(*manager, d.take(i as int)),
        decreases entries.len() - i,
    {
        let spec = &entries[i];
        assert(d[i as int] == spec@);
        assert(d.take(i + 1).drop_last() =~= d.take(i as int));
        assert(d.take(i + 1).last() == spec@);
        match &spec.version {
            None => {},
            Some(version) => {
                let problem = if manager.name_selects_version(spec.name.as_str()) {
                    Some(PinProblem::NameSelectsVersion { name: spec.name.clone(), version: version.clone() })
                } else if !manager.supports_pinning() {
                    Some(
                        PinProblem::CannotPin {
                            name: spec.name.clone(),
                            version: version.clone(),
                            manager: copy_str(manager.id()),
                        },
                    )
                } else {
                    None
                };
                match problem {
                    Some(q) => {
                        let ghost before = problems@;
                        problems.push(q);
                        assert(problem_views(problems@) =~= problem_views(before).push(q@));
                    },
                    None => {},
                }
            },
        }
        i += 1;
    }
    assert(d.take(i as int) =~= d);
    if problems.len() > 0 {
        Err(PinProblems { problems })
    } else {
        Ok(())
    }
}

/// What `pacman -Si` has to be asked about before a declared state is
/// accepted: for pacman, once no pin is refused outright, every pinned entry;
/// for any other manager, nothing.
pub open spec fn archive_query_of(m: AnyManager, declared: Seq<PackageView>) -> Seq<PackageView> {
    if m is Arch && pin_problems(m, declared).len() == 0 {
        pinned_of(declared)
    } else {
        seq![]
    }
}

/// Why a declared state is refused.
#[derive(Debug)]
pub enum ValidateError {
    /// Pins this manager cannot carry out.
    Pins(PinProblems),
    /// Pins the Arch Linux Archive cannot supply.
    Unarchived(UnarchivedPins),
}

pub enum ValidateErrorView {
    Pins { problems: Seq<PinProblemView> },
    Unarchived { missing: Seq<Seq<char>> },
}

impl View for ValidateError {
    type V = ValidateErrorView;

    open spec fn view(&self) -> ValidateErrorView {
        match self {
            ValidateError::Pins(p) => ValidateErrorView::Pins { problems: problem_views(p.problems@) },
            ValidateError::Unarchived(u) => ValidateErrorView::Unarchived { missing: texts(u.missing@) },
        }
    }
}

pub open spec fn validate_error_text(e: ValidateErrorView) -> Seq<char> {
    match e {
        ValidateErrorView::Pins { problems } => joined(
            problems.map_values(|p: PinProblemView| problem_text(p)),
            "\n  "@,
        ),
        ValidateErrorView::Unarchived { missing } => unarchived_text(missing),
    }
}

impl ValidateError {
    pub fn to_string(&self) -> (r: String)
        ensures
            r@ == validate_error_text(self@),
    {
        match self {
            ValidateError::Pins(p) => p.to_string(),
            ValidateError::Unarchived(u) => u.to_string(),
        }
    }
}

pub open spec fn validate_outcome(r: Result<(), ValidateError>) -> Result<(), ValidateErrorView> {
    match r {
        Ok(()) => Ok(()),
        Err(e) => Err(e@),
    }
}

/// Whether manager `m` accepts a declared state, `si` being what `pacman -Si`
/// printed for `archive_query_of(m, declared)`: pins it cannot carry out are
/// refused first, all of them; then, for pacman, pins whose names the query
/// did not recognise, which no archive holds; else the state is accepted.
pub open spec fn validation(m: AnyManager, declared: Seq<PackageView>, si: Option<Seq<char>>) -> Result<
    (),
    ValidateErrorView,
> {
    if pin_problems(m, declared).len() > 0 {
        Err(ValidateErrorView::Pins { problems: pin_problems(m, declared) })
    } else if archive_query_of(m, declared).len() > 0 {
        let printed = match si {
            Some(t) => t,
            None => seq![],
        };
        let missing = unrecognised(
            name_texts(archive_query_of(m, declared)),
            values_of(lines(printed), "Name"@).to_set(),
        );
        if missing.len() == 0 {
            Ok(())
        } else {
            Err(ValidateErrorView::Unarchived { missing })
        }
    } else {
        Ok(())
    }
}

/// The entries `pacman -Si` has to be asked about before `validate` can
/// answer: empty when no query is owed.
pub fn archive_query(manager: &AnyManager, declared: &PackageMap) -> (r: Vec<PackageSpec>)
    ensures
        spec_views(r@) == archive_query_of(*manager, listing(declared@)),
{
    let _ = declared.entries();
    match manager {
        AnyManager::Arch(_) => match find_pin_problems(manager, declared) {
            Ok(()) => pinned_entries(declared),
            Err(_) => Vec::new(),
        },
        _ => Vec::new(),
    }
}

/// Reject a manifest this manager cannot honour.
///
/// Pins the manager cannot carry out come first, every one of them. Then, for
/// pacman, the pins are checked against what `pacman -Si` printed for
/// `archive_query` (`si_stdout`): here rather than at install time, so a
/// version nothing can supply is reported by `status` too, not only when mpm
/// goes to act on it.
pub fn validate(manager: &AnyManager, declared: &PackageMap, si_stdout: Option<&str>) -> (r: Result<
    (),
    ValidateError,
>)
    requires
        archive_query_of(*manager, listing(declared@)).len() > 0 ==> si_stdout is Some,
    ensures
        validate_outcome(r) == validation(*manager, listing(declared@), opt_view(si_stdout)),
{
    let _ = declared.entries();
    if let Err(problems) = find_pin_problems(manager, declared) {
        return Err(ValidateError::Pins(problems));
    }
    let query = archive_query(manager, declared);
    if query.len() == 0 {
        return Ok(());
    }
    let printed = match si_stdout {
        Some(t) => t,
        None => "",
    };
    match manager {
        AnyManager::Arch(arch) => match arch.check_pins(query.as_slice(), printed) {
            Ok(()) => Ok(()),
            Err(missing) => Err(ValidateError::Unarchived(missing)),
        },
        _ => Ok(()),
    }
}

/// The pinned entries of a declared state, in name order: what a manager has
/// to confirm it can obtain.
pub fn pinned_entries(declared: &PackageMap) -> (r: Vec<PackageSpec>)
    ensures
        spec_views(r@) == crate::manager::pinned_of(declared.specs()),
{
    let (pinned, _) = crate::manager::partition_pinned(declared.entries().as_slice());
    pinned
}

// ------------------------------------------------------------------ laws

/// No drift: the same packages are declared and installed, and, where the
/// manager can pin, no installed version contradicts a declared pin.
pub open spec fn in_sync(
    declared: Map<Seq<char>, PackageView>,
    installed: Map<Seq<char>, PackageView>,
    pinning: bool,
) -> bool {
    &&& declared.dom() == installed.dom()
    &&& pinning ==> forall|k: Seq<char>| #[trigger]
        declared.dom().contains(k) ==> !pins_differ(declared[k], installed[k])
}

/// The installed state after a plan is carried out: what it removes is gone,
/// and what it installs is there as declared.
pub open spec fn applied(
    installed: Map<Seq<char>, PackageView>,
    p: ReconciliationView,
) -> Map<Seq<char>, PackageView> {
    installed.remove_keys(p.remove.to_set()).union_prefer_right(map_of(plan_installs(p)))
}

pub proof fn lemma_missing(d: Seq<PackageView>, inst: Map<Seq<char>, PackageView>)
    ensures
        forall|q: PackageView| #[trigger]
            missing(d, inst).contains(q) <==> (d.contains(q) && !inst.dom().contains(q.name)),
    decreases d.len(),
{
    if d.len() > 0 {
        let t = d.drop_last();
        lemma_missing(t, inst);
        let m = missing(d, inst);
        let mt = missing(t, inst);
        assert forall|q: PackageView| #[trigger]
            m.contains(q) <==> (d.contains(q) && !inst.dom().contains(q.name)) by {
            if m.contains(q) {
                let i = choose|i: int| 0 <= i < m.len() && m[i] == q;
                if i < mt.len() {
                    assert(mt[i] == q);
                    assert(mt.contains(q));
                    let j = choose|j: int| 0 <= j < t.len() && t[j] == q;
                    assert(d[j] == q);
                } else {
                    assert(q == d.last());
                    assert(d[d.len() - 1] == q);
                }
            }
            if d.contains(q) && !inst.dom().contains(q.name) {
                let j = choose|j: int| 0 <= j < d.len() && d[j] == q;
                if j < d.len() - 1 {
                    assert(t[j] == q);
                    assert(t.contains(q));
                    assert(mt.contains(q));
                    let i = choose|i: int| 0 <= i < mt.len() && mt[i] == q;
                    assert(m[i] == q);
                } else {
                    assert(m[m.len() - 1] == q);
                }
            }
        }
    }
}

pub proof fn lemma_mismatched(d: Seq<PackageView>, inst: Map<Seq<char>, PackageView>, pinning: bool)
    ensures
        forall|i: int|
            0 <= i < mismatched(d, inst, pinning).len() ==> {
                let c = #[trigger] mismatched(d, inst, pinning)[i];
                &&& d.contains(c.spec)
                &&& pinning && inst.dom().contains(c.spec.name)
                &&& pins_differ(c.spec, inst[c.spec.name])
                &&& c.installed == inst[c.spec.name].version->0
            },
        forall|q: PackageView|
            d.contains(q) && pinning && inst.dom().contains(q.name) && pins_differ(
                q,
                inst[q.name],
            ) ==> exists|i: int|
                0 <= i < mismatched(d, inst, pinning).len() && #[trigger] mismatched(
                    d,
                    inst,
                    pinning,
                )[i].spec == q,
    decreases d.len(),
{
    if d.len() > 0 {
        let t = d.drop_last();
        lemma_mismatched(t, inst, pinning);
        let m = mismatched(d, inst, pinning);
        let mt = mismatched(t, inst, pinning);
        assert forall|i: int| 0 <= i < m.len() implies {
            let c = #[trigger] m[i];
            &&& d.contains(c.spec)
            &&& pinning && inst.dom().contains(c.spec.name)
            &&& pins_differ(c.spec, inst[c.spec.name])
            &&& c.installed == inst[c.spec.name].version->0
        } by {
            if i < mt.len() {
                assert(m[i] == mt[i]);
                let j = choose|j: int| 0 <= j < t.len() && t[j] == mt[i].spec;
                assert(d[j] == t[j]);
            } else {
                assert(d[d.len() - 1] == d.last());
            }
        }
        assert forall|q: PackageView|
            d.contains(q) && pinning && inst.dom().contains(q.name) && pins_differ(
                q,
                inst[q.name],
            ) implies exists|i: int| 0 <= i < m.len() && #[trigger] m[i].spec == q by {
            let j = choose|j: int| 0 <= j < d.len() && d[j] == q;
            if j < d.len() - 1 {
                assert(t[j] == q);
                assert(t.contains(q));
                let i = choose|i: int| 0 <= i < mt.len() && #[trigger] mt[i].spec == q;
                assert(m[i] == mt[i]);
            } else {
                assert(m[m.len() - 1].spec == q);
            }
        }
    }
}

pub proof fn lemma_undeclared(s: Seq<PackageView>, decl: Map<Seq<char>, PackageView>)
    ensures
        forall|n: Seq<char>| #[trigger]
            undeclared(s, decl).contains(n) <==> ((exists|j: int| 0 <= j < s.len() && s[j].name == n)
                && !decl.dom().contains(n)),
    decreases s.len(),
{
    if s.len() > 0 {
        let t = s.drop_last();
        lemma_undeclared(t, decl);
        let u = undeclared(s, decl);
        let ut = undeclared(t, decl);
        assert forall|n: Seq<char>| #[trigger]
            u.contains(n) <==> ((exists|j: int| 0 <= j < s.len() && s[j].name == n)
                && !decl.dom().contains(n)) by {
            if u.contains(n) {
                let i = choose|i: int| 0 <= i < u.len() && u[i] == n;
                if i < ut.len() {
                    assert(ut[i] == n);
                    assert(ut.contains(n));
                    let j = choose|j: int| 0 <= j < t.len() && t[j].name == n;
                    assert(s[j] == t[j]);
                } else {
                    assert(s[s.len() - 1].name == n);
                }
            }
            if (exists|j: int| 0 <= j < s.len() && s[j].name == n) && !decl.dom().contains(n) {
                let j = choose|j: int| 0 <= j < s.len() && s[j].name == n;
                if j < s.len() - 1 {
                    assert(t[j] == s[j]);
                    assert(ut.contains(n));
                    let i = choose|i: int| 0 <= i < ut.len() && ut[i] == n;
                    assert(u[i] == n);
                } else {
                    assert(u[u.len() - 1] == n);
                }
            }
        }
    }
}

/// If every entry named `k` is `v`, and one is, `map_of` maps `k` to `v`.
pub proof fn lemma_map_of_value(s: Seq<PackageView>, k: Seq<char>, v: PackageView)
    requires
        exists|i: int| 0 <= i < s.len() && s[i].name == k,
        forall|i: int| 0 <= i < s.len() && #[trigger] s[i].name == k ==> s[i] == v,
    ensures
        map_of(s).dom().contains(k),
        map_of(s)[k] == v,
    decreases s.len(),
{
    let t = s.drop_last();
    if s.last().name != k {
        let i = choose|i: int| 0 <= i < s.len() && s[i].name == k;
        assert(t[i] == s[i]);
        assert forall|j: int| 0 <= j < t.len() && #[trigger] t[j].name == k implies t[j] == v by {
            assert(t[j] == s[j]);
        }
        lemma_map_of_value(t, k, v);
    } else {
        assert(s[s.len() - 1] == v);
    }
}

/// Removal only ever targets packages no manifest declares, and every
/// installed package that nothing declares is a removal candidate.
pub proof fn law_only_undeclared_packages_are_removed(
    manager: Seq<char>,
    declared: Seq<PackageView>,
    installed: Seq<PackageView>,
    pinning: bool,
)
    ensures
        forall|i: int|
            0 <= i < plan(manager, declared, installed, pinning).remove.len() ==> {
                let n = #[trigger] plan(manager, declared, installed, pinning).remove[i];
                !map_of(declared).dom().contains(n) && map_of(installed).dom().contains(n)
            },
        forall|n: Seq<char>|
            map_of(installed).dom().contains(n) && !map_of(declared).dom().contains(n)
                ==> #[trigger] plan(manager, declared, installed, pinning).remove.contains(n),
{
    let p = plan(manager, declared, installed, pinning);
    lemma_undeclared(installed, map_of(declared));
    crate::package_map::lemma_map_of(installed);
    assert forall|i: int| 0 <= i < p.remove.len() implies {
        let n = #[trigger] p.remove[i];
        !map_of(declared).dom().contains(n) && map_of(installed).dom().contains(n)
    } by {
        assert(p.remove.contains(p.remove[i]));
    }
}

/// Every package the plan installs is declared, exactly as declared, and not
/// installed; every declared package that is not installed is in the plan.
pub proof fn law_missing_packages_are_installed(
    manager: Seq<char>,
    declared: Seq<PackageView>,
    installed: Seq<PackageView>,
    pinning: bool,
)
    requires
        names_sorted(declared),
    ensures
        forall|i: int|
            0 <= i < plan(manager, declared, installed, pinning).install.len() ==> {
                let q = #[trigger] plan(manager, declared, installed, pinning).install[i];
                &&& map_of(declared).dom().contains(q.name)
                &&& map_of(declared)[q.name] == q
                &&& !map_of(installed).dom().contains(q.name)
            },
        forall|n: Seq<char>|
            map_of(declared).dom().contains(n) && !map_of(installed).dom().contains(n) ==> plan(
                manager,
                declared,
                installed,
                pinning,
            ).install.contains(#[trigger] map_of(declared)[n]),
{
    let p = plan(manager, declared, installed, pinning);
    lemma_missing(declared, map_of(installed));
    lemma_sorted_unique(declared);
    lemma_map_of_sorted(declared);
    assert forall|i: int| 0 <= i < p.install.len() implies {
        let q = #[trigger] p.install[i];
        &&& map_of(declared).dom().contains(q.name)
        &&& map_of(declared)[q.name] == q
        &&& !map_of(installed).dom().contains(q.name)
    } by {
        assert(p.install.contains(p.install[i]));
        let j = choose|j: int| 0 <= j < declared.len() && declared[j] == p.install[i];
        assert(map_of(declared)[declared[j].name] == declared[j]);
    }
    assert forall|n: Seq<char>|
        map_of(declared).dom().contains(n) && !map_of(installed).dom().contains(n) implies p.install.contains(
        #[trigger] map_of(declared)[n],
    ) by {
        let j = choose|j: int| 0 <= j < declared.len() && declared[j].name == n;
        assert(map_of(declared)[declared[j].name] == declared[j]);
        assert(declared.contains(declared[j]));
    }
}

/// A plan has work exactly when the machine has drifted from its manifests.
pub proof fn law_work_iff_drift(
    manager: Seq<char>,
    declared: Seq<PackageView>,
    installed: Seq<PackageView>,
    pinning: bool,
)
    requires
        names_sorted(declared),
        names_sorted(installed),
    ensures
        plan_has_work(plan(manager, declared, installed, pinning)) <==> !in_sync(
            map_of(declared),
            map_of(installed),
            pinning,
        ),
{
    let p = plan(manager, declared, installed, pinning);
    let dm = map_of(declared);
    let im = map_of(installed);
    lemma_missing(declared, im);
    lemma_mismatched(declared, im, pinning);
    lemma_undeclared(installed, dm);
    lemma_sorted_unique(declared);
    lemma_map_of_sorted(declared);
    lemma_sorted_unique(installed);
    lemma_map_of_sorted(installed);
    if p.install.len() > 0 {
        let q = p.install[0];
        assert(p.install.contains(q));
        let j = choose|j: int| 0 <= j < declared.len() && declared[j] == q;
        assert(dm.dom().contains(q.name));
        assert(!im.dom().contains(q.name));
        assert(dm.dom() != im.dom());
    } else if p.repin.len() > 0 {
        let c = p.repin[0];
        let j = choose|j: int| 0 <= j < declared.len() && declared[j] == c.spec;
        assert(dm[declared[j].name] == declared[j]);
        assert(dm.dom().contains(c.spec.name));
        assert(!in_sync(dm, im, pinning));
    } else if p.remove.len() > 0 {
        let n = p.remove[0];
        assert(p.remove.contains(n));
        assert(im.dom().contains(n));
        assert(dm.dom() != im.dom());
    } else {
        assert forall|k: Seq<char>| dm.dom().contains(k) implies im.dom().contains(k) by {
            let j = choose|j: int| 0 <= j < declared.len() && declared[j].name == k;
            assert(declared.contains(declared[j]));
            if !im.dom().contains(k) {
                assert(p.install.contains(declared[j]));
            }
        }
        assert forall|k: Seq<char>| im.dom().contains(k) implies dm.dom().contains(k) by {
            if !dm.dom().contains(k) {
                assert(p.remove.contains(k));
            }
        }
        assert(dm.dom() =~= im.dom());
        if pinning {
            assert forall|k: Seq<char>| #[trigger] dm.dom().contains(k) implies !pins_differ(
                dm[k],
                im[k],
            ) by {
                let j = choose|j: int| 0 <= j < declared.len() && declared[j].name == k;
                assert(dm[declared[j].name] == declared[j]);
                assert(declared.contains(declared[j]));
                if pins_differ(dm[k], im[k]) {
                    let i = choose|i: int| 0 <= i < p.repin.len() && #[trigger] p.repin[i].spec == declared[j];
                }
            }
        }
    }
}

/// Names in strictly increasing order.
pub open spec fn names_increasing(s: Seq<Seq<char>>) -> bool {
    forall|i: int, j: int| 0 <= i < j < s.len() ==> text_lt(#[trigger] s[i], #[trigger] s[j])
}

proof fn lemma_prefix_sorted(s: Seq<PackageView>)
    requires
        names_sorted(s),
        s.len() > 0,
    ensures
        names_sorted(s.drop_last()),
        forall|k: int| 0 <= k < s.len() - 1 ==> text_lt(#[trigger] s[k].name, s.last().name),
{
    let t = s.drop_last();
    assert forall|i: int, j: int| 0 <= i < j < t.len() implies text_lt(
        #[trigger] t[i].name,
        #[trigger] t[j].name,
    ) by {
        assert(t[i] == s[i] && t[j] == s[j]);
    }
    assert forall|k: int| 0 <= k < s.len() - 1 implies text_lt(#[trigger] s[k].name, s.last().name) by {
        assert(s.last() == s[s.len() - 1]);
    }
}

proof fn lemma_missing_in_order(d: Seq<PackageView>, inst: Map<Seq<char>, PackageView>)
    requires
        names_sorted(d),
    ensures
        names_sorted(missing(d, inst)),
        forall|k: int|
            0 <= k < missing(d, inst).len() ==> exists|j: int|
                0 <= j < d.len() && #[trigger] missing(d, inst)[k] == d[j],
    decreases d.len(),
{
    if d.len() > 0 {
        let t = d.drop_last();
        lemma_prefix_sorted(d);
        lemma_missing_in_order(t, inst);
        let rest = missing(t, inst);
        let m = missing(d, inst);
        assert forall|k: int| 0 <= k < m.len() implies exists|j: int| 0 <= j < d.len() && #[trigger] m[k] == d[j] by {
            if k < rest.len() {
                let j = choose|j: int| 0 <= j < t.len() && rest[k] == t[j];
                assert(m[k] == rest[k] && t[j] == d[j]);
            } else {
                assert(m[k] == d[d.len() - 1]);
            }
        }
        assert forall|i: int, j: int| 0 <= i < j < m.len() implies text_lt(
            #[trigger] m[i].name,
            #[trigger] m[j].name,
        ) by {
            if j < rest.len() {
                assert(m[i] == rest[i] && m[j] == rest[j]);
            } else {
                let x = choose|x: int| 0 <= x < t.len() && rest[i] == t[x];
                assert(m[i] == t[x] && t[x] == d[x]);
                assert(m[j] == d.last());
            }
        }
    }
}

proof fn lemma_mismatched_in_order(d: Seq<PackageView>, inst: Map<Seq<char>, PackageView>, pinning: bool)
    requires
        names_sorted(d),
    ensures
        forall|i: int, j: int|
            0 <= i < j < mismatched(d, inst, pinning).len() ==> text_lt(
                #[trigger] mismatched(d, inst, pinning)[i].spec.name,
                #[trigger] mismatched(d, inst, pinning)[j].spec.name,
            ),
        forall|k: int|
            0 <= k < mismatched(d, inst, pinning).len() ==> exists|j: int|
                0 <= j < d.len() && #[trigger] mismatched(d, inst, pinning)[k].spec == d[j],
    decreases d.len(),
{
    if d.len() > 0 {
        let t = d.drop_last();
        lemma_prefix_sorted(d);
        lemma_mismatched_in_order(t, inst, pinning);
        let rest = mismatched(t, inst, pinning);
        let m = mismatched(d, inst, pinning);
        assert forall|k: int| 0 <= k < m.len() implies exists|j: int| 0 <= j < d.len() && #[trigger] m[k].spec == d[j] by {
            if k < rest.len() {
                let j = choose|j: int| 0 <= j < t.len() && rest[k].spec == t[j];
                assert(m[k] == rest[k] && t[j] == d[j]);
            } else {
                assert(m[k].spec == d[d.len() - 1]);
            }
        }
        assert forall|i: int, j: int| 0 <= i < j < m.len() implies text_lt(
            #[trigger] m[i].spec.name,
            #[trigger] m[j].spec.name,
        ) by {
            if j < rest.len() {
                assert(m[i] == rest[i] && m[j] == rest[j]);
            } else {
                let x = choose|x: int| 0 <= x < t.len() && rest[i].spec == t[x];
                assert(m[i] == rest[i] && t[x] == d[x]);
                assert(m[j].spec == d.last());
            }
        }
    }
}

proof fn lemma_undeclared_in_order(s: Seq<PackageView>, decl: Map<Seq<char>, PackageView>)
    requires
        names_sorted(s),
    ensures
        names_increasing(undeclared(s, decl)),
        forall|k: int|
            0 <= k < undeclared(s, decl).len() ==> exists|j: int|
                0 <= j < s.len() && #[trigger] undeclared(s, decl)[k] == s[j].name,
    decreases s.len(),
{
    if s.len() > 0 {
        let t = s.drop_last();
        lemma_prefix_sorted(s);
        lemma_undeclared_in_order(t, decl);
        let rest = undeclared(t, decl);
        let m = undeclared(s, decl);
        assert forall|k: int| 0 <= k < m.len() implies exists|j: int| 0 <= j < s.len() && #[trigger] m[k] == s[j].name by {
            if k < rest.len() {
                let j = choose|j: int| 0 <= j < t.len() && rest[k] == t[j].name;
                assert(m[k] == rest[k] && t[j] == s[j]);
            } else {
                assert(m[k] == s[s.len() - 1].name);
            }
        }
        assert forall|i: int, j: int| 0 <= i < j < m.len() implies text_lt(#[trigger] m[i], #[trigger] m[j]) by {
            if j < rest.len() {
                assert(m[i] == rest[i] && m[j] == rest[j]);
            } else {
                let x = choose|x: int| 0 <= x < t.len() && rest[i] == t[x].name;
                assert(m[i] == t[x].name && t[x] == s[x]);
                assert(m[j] == s.last().name);
            }
        }
    }
}

/// A plan lists its installs, repins and removals each in name order, so its
/// output is the same from one run to the next and can be diffed or scripted.
pub proof fn law_plans_are_in_name_order(
    manager: Seq<char>,
    declared: Seq<PackageView>,
    installed: Seq<PackageView>,
    pinning: bool,
)
    requires
        names_sorted(declared),
        names_sorted(installed),
    ensures
        names_sorted(plan(manager, declared, installed, pinning).install),
        forall|i: int, j: int|
            0 <= i < j < plan(manager, declared, installed, pinning).repin.len() ==> text_lt(
                #[trigger] plan(manager, declared, installed, pinning).repin[i].spec.name,
                #[trigger] plan(manager, declared, installed, pinning).repin[j].spec.name,
            ),
        names_increasing(plan(manager, declared, installed, pinning).remove),
{
    lemma_missing_in_order(declared, map_of(installed));
    lemma_mismatched_in_order(declared, map_of(installed), pinning);
    lemma_undeclared_in_order(installed, map_of(declared));
}

/// Carrying out a plan leaves nothing to do: afterwards the installed state
/// is in sync with the manifests.
pub proof fn law_applying_the_plan_converges(
    manager: Seq<char>,
    declared: Seq<PackageView>,
    installed: Seq<PackageView>,
    pinning: bool,
)
    requires
        names_sorted(declared),
        names_sorted(installed),
    ensures
        in_sync(
            map_of(declared),
            applied(map_of(installed), plan(manager, declared, installed, pinning)),
            pinning,
        ),
{
    let p = plan(manager, declared, installed, pinning);
    let dm = map_of(declared);
    let im = map_of(installed);
    let pi = plan_installs(p);
    let after = applied(im, p);
    lemma_missing(declared, im);
    lemma_mismatched(declared, im, pinning);
    lemma_undeclared(installed, dm);
    lemma_sorted_unique(declared);
    lemma_map_of_sorted(declared);
    lemma_sorted_unique(installed);
    lemma_map_of_sorted(installed);
    crate::package_map::lemma_map_of(pi);
    // Every package the plan installs is the declared entry for its name.
    assert forall|i: int| 0 <= i < pi.len() implies #[trigger] dm.dom().contains(pi[i].name)
        && dm[pi[i].name] == pi[i] by {
        if i < p.install.len() {
            assert(pi[i] == p.install[i]);
            assert(p.install.contains(p.install[i]));
            let j = choose|j: int| 0 <= j < declared.len() && declared[j] == p.install[i];
            assert(dm[declared[j].name] == declared[j]);
        } else {
            let r = i - p.install.len();
            assert(pi[i] == p.repin[r].spec);
            let j = choose|j: int| 0 <= j < declared.len() && declared[j] == p.repin[r].spec;
            assert(dm[declared[j].name] == declared[j]);
        }
    }
    assert forall|k: Seq<char>| #[trigger] dm.dom().contains(k) implies after.dom().contains(k) && (
    map_of(pi).dom().contains(k) ==> after[k] == dm[k]) && (!map_of(pi).dom().contains(k)
        ==> after[k] == im[k]) by {
        let j = choose|j: int| 0 <= j < declared.len() && declared[j].name == k;
        assert(dm[declared[j].name] == declared[j]);
        assert(declared.contains(declared[j]));
        if map_of(pi).dom().contains(k) {
            let i = choose|i: int| 0 <= i < pi.len() && pi[i].name == k;
            assert(dm[pi[i].name] == pi[i]);
            assert forall|x: int| 0 <= x < pi.len() && #[trigger] pi[x].name == k implies pi[x]
                == dm[k] by {
                assert(dm[pi[x].name] == pi[x]);
            }
            lemma_map_of_value(pi, k, dm[k]);
        } else {
            if !im.dom().contains(k) {
                assert(p.install.contains(declared[j]));
                let i = choose|i: int| 0 <= i < p.install.len() && p.install[i] == declared[j];
                assert(pi[i] == declared[j]);
            }
            assert(!p.remove.contains(k));
            assert(!p.remove.to_set().contains(k));
        }
    }
    assert forall|k: Seq<char>| after.dom().contains(k) implies dm.dom().contains(k) by {
        if map_of(pi).dom().contains(k) {
            let i = choose|i: int| 0 <= i < pi.len() && pi[i].name == k;
            assert(dm.dom().contains(pi[i].name));
        } else {
            assert(im.dom().contains(k) && !p.remove.to_set().contains(k));
            assert(!p.remove.contains(k));
        }
    }
    assert(dm.dom() =~= after.dom());
    if pinning {
        assert forall|k: Seq<char>| #[trigger] dm.dom().contains(k) implies !pins_differ(
            dm[k],
            after[k],
        ) by {
            if !map_of(pi).dom().contains(k) {
                let j = choose|j: int| 0 <= j < declared.len() && declared[j].name == k;
                assert(dm[declared[j].name] == declared[j]);
                assert(declared.contains(declared[j]));
                if im.dom().contains(k) && pins_differ(dm[k], im[k]) {
                    let i = choose|i: int| 0 <= i < p.repin.len() && #[trigger] p.repin[i].spec == declared[j];
                    assert(pi[p.install.len() + i] == declared[j]);
                }
            }
        }
    }
}

} // verus!
