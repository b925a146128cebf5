use vstd::prelude::*;

use crate::manifest::grammar::{PackageSpec, PackageView};
use crate::invocation::{Invocation, InvocationView, invocation_views, on_path};
use crate::package_map::spec_views;
use crate::text::{chars_of, copy_str, lines, split_lines, split_words, str_eq, string_of, views, words};

pub mod apt;
pub mod arch;
pub mod brew;
pub mod cargo;
pub mod dotnet;
pub mod node;

use apt::{Apt, apt_install};
use arch::{Arch, InstallError, InstallerView, RepoLookup, arch_install, install_outcome, lookup_views};
use brew::Brew;
use cargo::{Cargo, cargo_install};
use dotnet::{Dotnet, dotnet_install_one};
use node::{Node, NodeTool, node_install};


verus! {

/// Every package manager mpm can drive, in the order they are reported.
pub const ALL: [&'static str; 7] = ["pacman", "apt", "brew", "cargo", "npm", "pnpm", "dotnet"];

/// One package manager, described as argument vectors rather than shell strings.
///
/// `uninstall` returns a *list* of invocations because some managers accept
/// only one package at a time (`dotnet tool uninstall`).
pub trait Manager {
    spec fn spec_id(&self) -> Seq<char>;

    spec fn spec_binary(&self) -> Seq<char>;

    spec fn spec_supports_pinning(&self) -> bool;

    spec fn spec_name_selects_version(&self, name: Seq<char>) -> bool;

    spec fn spec_uninstall(&self, names: Seq<Seq<char>>) -> Seq<InvocationView>;

    spec fn spec_list(&self) -> InvocationView;

    spec fn spec_parse_list(&self, stdout: Seq<char>) -> Seq<PackageView>;

    fn id(&self) -> (r: &'static str)
        ensures
            r@ == self.spec_id(),
    ;

    /// Executable probed with `which` to decide whether this manager exists here.
    fn binary(&self) -> (r: &'static str)
        ensures
            r@ == self.spec_binary(),
    ;

    fn uninstall(&self, names: &[String]) -> (r: Vec<Invocation>)
        ensures
            invocation_views(r@) == self.spec_uninstall(names@.map_values(|s: String| s@)),
    ;

    fn list(&self) -> (r: Invocation)
        ensures
            r@ == self.spec_list(),
    ;

    /// Turn the output of [`Manager::list`] into installed packages, with
    /// versions where the manager reports them.
    fn parse_list(&self, stdout: &str) -> (r: Vec<PackageSpec>)
        ensures
            spec_views(r@) == self.spec_parse_list(stdout@),
    ;

    /// Whether an exact version can be installed *and installed again later*.
    ///
    /// A claim about reproducibility, not about today: a manager whose old
    /// versions vanish from its index does not qualify. Where this is false,
    /// declaring a version is rejected rather than approximated.
    fn supports_pinning(&self) -> (r: bool)
        ensures
            r == self.spec_supports_pinning(),
    ;

    /// Whether this manager's package *names* can themselves select a version.
    ///
    /// Homebrew ships `node@20` and `python@3.12` as formula names. Declaring
    /// such a name *and* a version is a contradiction, and is rejected rather
    /// than silently resolved one way or the other.
    fn name_selects_version(&self, name: &str) -> (r: bool)
        ensures
            r == self.spec_name_selects_version(name@),
    ;
}

/// Whether this manager is present on the current machine.
pub fn present<M: Manager>(manager: &M) -> bool {
    on_path(manager.binary())
}

// ------------------------------------------------------------ shared helpers

pub open spec fn name_texts(s: Seq<PackageView>) -> Seq<Seq<char>> {
    s.map_values(|p: PackageView| p.name)
}

/// The pinned entries, in order.
pub open spec fn pinned_of(s: Seq<PackageView>) -> Seq<PackageView>
    decreases s.len(),
{
    if s.len() == 0 {
        seq![]
    } else if s.last().version is Some {
        pinned_of(s.drop_last()).push(s.last())
    } else {
        pinned_of(s.drop_last())
    }
}

/// The unpinned entries, in order.
pub open spec fn loose_of(s: Seq<PackageView>) -> Seq<PackageView>
    decreases s.len(),
{
    if s.len() == 0 {
        seq![]
    } else if s.last().version is None {
        loose_of(s.drop_last()).push(s.last())
    } else {
        loose_of(s.drop_last())
    }
}

/// Split packages into pinned and unpinned groups, keeping their order.
pub fn partition_pinned(packages: &[PackageSpec]) -> (r: (Vec<PackageSpec>, Vec<PackageSpec>))
    ensures
        spec_views(r.0@) == pinned_of(spec_views(packages@)),
        spec_views(r.1@) == loose_of(spec_views(packages@)),
{
    let ghost all = spec_views(packages@);
    let mut pinned: Vec<PackageSpec> = Vec::new();
    let mut loose: Vec<PackageSpec> = Vec::new();
    let mut i: usize = 0;
    while i < packages.len()
        invariant
            i <= packages.len(),
            all == spec_views(packages@),
            spec_views(pinned@) == pinned_of(all.take(i as int)),
            spec_views(loose@) == loose_of(all.take(i as int)),
        decreases packages.len() - i,
    {
        let spec = packages[i].clone();
        assert(all.take(i + 1).drop_last() =~= all.take(i as int));
        assert(all.take(i + 1).last() == spec@);
        if spec.version.is_some() {
            let ghost before = pinned@;
            pinned.push(spec);
            assert(spec_views(pinned@) =~= spec_views(before).push(all[i as int]));
        } else {
            let ghost before = loose@;
            loose.push(spec);
            assert(spec_views(loose@) =~= spec_views(before).push(all[i as int]));
        }
        i += 1;
    }
    assert(all.take(i as int) =~= all);
    (pinned, loose)
}

/// A `name version` row: its first two words, if it has any.
pub open spec fn row_package(line: Seq<char>) -> Option<PackageView> {
    let ws = words(line);
    if ws.len() == 0 {
        None
    } else if ws.len() == 1 {
        Some(PackageView { name: ws[0], version: None })
    } else {
        Some(PackageView { name: ws[0], version: Some(ws[1]) })
    }
}

/// The packages of a list of `name version` rows, blank rows skipped.
pub open spec fn rows_packages(ls: Seq<Seq<char>>) -> Seq<PackageView>
    decreases ls.len(),
{
    if ls.len() == 0 {
        seq![]
    } else {
        let rest = rows_packages(ls.drop_last());
        match row_package(ls.last()) {
            Some(p) => rest.push(p),
            None => rest,
        }
    }
}

/// The package of one `name version` row.
pub fn parse_row(line: &Vec<char>) -> (r: Option<PackageSpec>)
    ensures
        r.is_some() == row_package(line@).is_some(),
        r matches Some(p) ==> p@ == row_package(line@)->0,
{
    let fields = split_words(line);
    assert(views(fields@) == words(line@));
    if fields.len() == 0 {
        return None;
    }
    assert(fields@[0]@ == words(line@)[0]);
    let name = string_of(&fields[0], 0, fields[0].len());
    assert(fields@[0]@.subrange(0, fields@[0]@.len() as int) =~= fields@[0]@);
    if fields.len() == 1 {
        Some(PackageSpec { name, version: None })
    } else {
        assert(fields@[1]@ == words(line@)[1]);
        let version = string_of(&fields[1], 0, fields[1].len());
        assert(fields@[1]@.subrange(0, fields@[1]@.len() as int) =~= fields@[1]@);
        Some(PackageSpec { name, version: Some(version) })
    }
}

/// The packages of `rows[from..]`.
pub fn parse_rows(rows: &Vec<Vec<char>>, from: usize) -> (r: Vec<PackageSpec>)
    ensures
        spec_views(r@) == rows_packages(views(rows@).subrange(
            if from <= rows.len() { from as int } else { rows.len() as int },
            rows.len() as int,
        )),
{
    let start = if from <= rows.len() {
        from
    } else {
        rows.len()
    };
    let ghost all = views(rows@).subrange(start as int, rows.len() as int);
    let mut out: Vec<PackageSpec> = Vec::new();
    let mut i = start;
    while i < rows.len()
        invariant
            start <= i <= rows.len(),
            all == views(rows@).subrange(start as int, rows.len() as int),
            spec_views(out@) == rows_packages(all.take(i - start)),
        decreases rows.len() - i,
    {
        assert(all.take(i - start + 1).drop_last() =~= all.take(i - start));
        assert(all.take(i - start + 1).last() == rows@[i as int]@);
        match parse_row(&rows[i]) {
            Some(p) => {
                let ghost before = out@;
                out.push(p);
                assert(spec_views(out@) =~= spec_views(before).push(p@));
            },
            None => {},
        }
        i += 1;
    }
    assert(all.take(i - start) =~= all);
    out
}

/// Parse `name version` lines, tolerating extra trailing columns and blanks.
pub fn parse_two_column(stdout: &str) -> (r: Vec<PackageSpec>)
    ensures
        spec_views(r@) == rows_packages(lines(stdout@)),
{
    let rows = split_lines(&chars_of(stdout));
    let r = parse_rows(&rows, 0);
    assert(views(rows@).subrange(0, rows@.len() as int) =~= views(rows@));
    r
}


// ------------------------------------------------------------ registry

/// Any of the supported package managers.
#[derive(Debug)]
pub enum AnyManager {
    Arch(Arch),
    Apt(Apt),
    Brew(Brew),
    Cargo(Cargo),
    Node(Node),
    Dotnet(Dotnet),
}

/// The manager registered under `id`.
pub open spec fn manager_for(id: Seq<char>) -> Option<AnyManager> {
    if id == "pacman"@ {
        Some(AnyManager::Arch(Arch))
    } else if id == "apt"@ {
        Some(AnyManager::Apt(Apt))
    } else if id == "brew"@ {
        Some(AnyManager::Brew(Brew))
    } else if id == "cargo"@ {
        Some(AnyManager::Cargo(Cargo))
    } else if id == "npm"@ {
        Some(AnyManager::Node(Node { tool: NodeTool::Npm }))
    } else if id == "pnpm"@ {
        Some(AnyManager::Node(Node { tool: NodeTool::Pnpm }))
    } else if id == "dotnet"@ {
        Some(AnyManager::Dotnet(Dotnet))
    } else {
        None
    }
}

pub fn get(id: &str) -> (r: Option<AnyManager>)
    ensures
        r == manager_for(id@),
{
    if str_eq(id, "pacman") {
        Some(AnyManager::Arch(Arch))
    } else if str_eq(id, "apt") {
        Some(AnyManager::Apt(Apt))
    } else if str_eq(id, "brew") {
        Some(AnyManager::Brew(Brew))
    } else if str_eq(id, "cargo") {
        Some(AnyManager::Cargo(Cargo))
    } else if str_eq(id, "npm") {
        Some(AnyManager::Node(Node { tool: NodeTool::Npm }))
    } else if str_eq(id, "pnpm") {
        Some(AnyManager::Node(Node { tool: NodeTool::Pnpm }))
    } else if str_eq(id, "dotnet") {
        Some(AnyManager::Dotnet(Dotnet))
    } else {
        None
    }
}

/// The commands a manager uses to install `packages`; for pacman, with the
/// given installer and the `pacman -Si` answer for each pinned package.
pub open spec fn install_plan(
    m: AnyManager,
    packages: Seq<PackageView>,
    installer: InstallerView,
    lookups: Seq<arch::RepoLookupView>,
) -> Result<Seq<InvocationView>, arch::InstallErrorView> {
    match m {
        AnyManager::Arch(_) => arch_install(packages, installer, lookups),
        AnyManager::Apt(_) => Ok(apt_install(packages)),
        AnyManager::Brew(_) => Ok(if packages.len() == 0 {
            Seq::<InvocationView>::empty()
        } else {
            seq![InvocationView {
                program: "brew"@,
                args: seq!["install"@] + name_texts(packages),
                needs_root: false,
            }]
        }),
        AnyManager::Cargo(_) => Ok(cargo_install(packages)),
        AnyManager::Node(n) => Ok(node_install(n.tool, packages)),
        AnyManager::Dotnet(_) => Ok(packages.map_values(|p: PackageView| dotnet_install_one(p))),
    }
}

impl AnyManager {
    /// Build the commands that install these packages.
    ///
    /// Fallible because working out how to fetch an exact version can itself
    /// fail -- a pinned Arch package has to be located in the archive first;
    /// `lookups` holds what `pacman -Si` said of each pinned package, in order,
    /// and is not read for other managers.
    pub fn install(&self, packages: &[PackageSpec], lookups: &[RepoLookup]) -> (r: Result<
        Vec<Invocation>,
        InstallError,
    >)
        requires
            self is Arch ==> lookups@.len() == pinned_of(spec_views(packages@)).len(),
        ensures
            exists|i: InstallerView|
                (i == InstallerView::Helper("paru"@) || i == InstallerView::Helper("yay"@) || i
                    == InstallerView::Pacman) && install_outcome(r) == install_plan(
                    *self,
                    spec_views(packages@),
                    i,
                    lookup_views(lookups@),
                ),
    {
        match self {
            AnyManager::Arch(m) => {
                let r = m.install(packages, lookups);
                proof {
                    let i = choose|i: InstallerView|
                        (i == InstallerView::Helper("paru"@) || i == InstallerView::Helper("yay"@)
                            || i == InstallerView::Pacman) && install_outcome(r) == arch_install(
                            spec_views(packages@),
                            i,
                            lookup_views(lookups@),
                        );
                    assert(install_plan(*self, spec_views(packages@), i, lookup_views(lookups@))
                        == arch_install(spec_views(packages@), i, lookup_views(lookups@)));
                }
                r
            },
            AnyManager::Apt(m) => {
                let r = m.install(packages);
                let cmds = match r {
                    Ok(c) => c,
                    Err(_) => Vec::new(),
                };
                assert(install_outcome(Ok(cmds)) == install_plan(*self, spec_views(packages@), InstallerView::Pacman, lookup_views(lookups@)));
                Ok(cmds)
            },
            AnyManager::Brew(m) => {
                let r = m.install(packages);
                let cmds = match r {
                    Ok(c) => c,
                    Err(_) => Vec::new(),
                };
                assert(install_outcome(Ok(cmds)) == install_plan(*self, spec_views(packages@), InstallerView::Pacman, lookup_views(lookups@)));
                Ok(cmds)
            },
            AnyManager::Cargo(m) => {
                let r = m.install(packages);
                let cmds = match r {
                    Ok(c) => c,
                    Err(_) => Vec::new(),
                };
                assert(install_outcome(Ok(cmds)) == install_plan(*self, spec_views(packages@), InstallerView::Pacman, lookup_views(lookups@)));
                Ok(cmds)
            },
            AnyManager::Node(m) => {
                let r = m.install(packages);
                let cmds = match r {
                    Ok(c) => c,
                    Err(_) => Vec::new(),
                };
                assert(install_outcome(Ok(cmds)) == install_plan(*self, spec_views(packages@), InstallerView::Pacman, lookup_views(lookups@)));
                Ok(cmds)
            },
            AnyManager::Dotnet(m) => {
                let r = m.install(packages);
                let cmds = match r {
                    Ok(c) => c,
                    Err(_) => Vec::new(),
                };
                assert(install_outcome(Ok(cmds)) == install_plan(*self, spec_views(packages@), InstallerView::Pacman, lookup_views(lookups@)));
                Ok(cmds)
            },
        }
    }
}

impl Manager for AnyManager {
    open spec fn spec_id(&self) -> Seq<char> {
        match self {
            AnyManager::Arch(m) => m.spec_id(),
            AnyManager::Apt(m) => m.spec_id(),
            AnyManager::Brew(m) => m.spec_id(),
            AnyManager::Cargo(m) => m.spec_id(),
            AnyManager::Node(m) => m.spec_id(),
            AnyManager::Dotnet(m) => m.spec_id(),
        }
    }

    open spec fn spec_binary(&self) -> Seq<char> {
        match self {
            AnyManager::Arch(m) => m.spec_binary(),
            AnyManager::Apt(m) => m.spec_binary(),
            AnyManager::Brew(m) => m.spec_binary(),
            AnyManager::Cargo(m) => m.spec_binary(),
            AnyManager::Node(m) => m.spec_binary(),
            AnyManager::Dotnet(m) => m.spec_binary(),
        }
    }

    open spec fn spec_supports_pinning(&self) -> bool {
        match self {
            AnyManager::Arch(m) => m.spec_supports_pinning(),
            AnyManager::Apt(m) => m.spec_supports_pinning(),
            AnyManager::Brew(m) => m.spec_supports_pinning(),
            AnyManager::Cargo(m) => m.spec_supports_pinning(),
            AnyManager::Node(m) => m.spec_supports_pinning(),
            AnyManager::Dotnet(m) => m.spec_supports_pinning(),
        }
    }

    open spec fn spec_name_selects_version(&self, name: Seq<char>) -> bool {
        match self {
            AnyManager::Arch(m) => m.spec_name_selects_version(name),
            AnyManager::Apt(m) => m.spec_name_selects_version(name),
            AnyManager::Brew(m) => m.spec_name_selects_version(name),
            AnyManager::Cargo(m) => m.spec_name_selects_version(name),
            AnyManager::Node(m) => m.spec_name_selects_version(name),
            AnyManager::Dotnet(m) => m.spec_name_selects_version(name),
        }
    }

    open spec fn spec_uninstall(&self, names: Seq<Seq<char>>) -> Seq<InvocationView> {
        match self {
            AnyManager::Arch(m) => m.spec_uninstall(names),
            AnyManager::Apt(m) => m.spec_uninstall(names),
            AnyManager::Brew(m) => m.spec_uninstall(names),
            AnyManager::Cargo(m) => m.spec_uninstall(names),
            AnyManager::Node(m) => m.spec_uninstall(names),
            AnyManager::Dotnet(m) => m.spec_uninstall(names),
        }
    }

    open spec fn spec_list(&self) -> InvocationView {
        match self {
            AnyManager::Arch(m) => m.spec_list(),
            AnyManager::Apt(m) => m.spec_list(),
            AnyManager::Brew(m) => m.spec_list(),
            AnyManager::Cargo(m) => m.spec_list(),
            AnyManager::Node(m) => m.spec_list(),
            AnyManager::Dotnet(m) => m.spec_list(),
        }
    }

    open spec fn spec_parse_list(&self, stdout: Seq<char>) -> Seq<PackageView> {
        match self {
            AnyManager::Arch(m) => m.spec_parse_list(stdout),
            AnyManager::Apt(m) => m.spec_parse_list(stdout),
            AnyManager::Brew(m) => m.spec_parse_list(stdout),
            AnyManager::Cargo(m) => m.spec_parse_list(stdout),
            AnyManager::Node(m) => m.spec_parse_list(stdout),
            AnyManager::Dotnet(m) => m.spec_parse_list(stdout),
        }
    }

    fn id(&self) -> (r: &'static str) {
        match self {
            AnyManager::Arch(m) => m.id(),
            AnyManager::Apt(m) => m.id(),
            AnyManager::Brew(m) => m.id(),
            AnyManager::Cargo(m) => m.id(),
            AnyManager::Node(m) => m.id(),
            AnyManager::Dotnet(m) => m.id(),
        }
    }

    fn binary(&self) -> (r: &'static str) {
        match self {
            AnyManager::Arch(m) => m.binary(),
            AnyManager::Apt(m) => m.binary(),
            AnyManager::Brew(m) => m.binary(),
            AnyManager::Cargo(m) => m.binary(),
            AnyManager::Node(m) => m.binary(),
            AnyManager::Dotnet(m) => m.binary(),
        }
    }

    fn uninstall(&self, names: &[String]) -> (r: Vec<Invocation>) {
        match self {
            AnyManager::Arch(m) => m.uninstall(names),
            AnyManager::Apt(m) => m.uninstall(names),
            AnyManager::Brew(m) => m.uninstall(names),
            AnyManager::Cargo(m) => m.uninstall(names),
            AnyManager::Node(m) => m.uninstall(names),
            AnyManager::Dotnet(m) => m.uninstall(names),
        }
    }

    fn list(&self) -> (r: Invocation) {
        match self {
            AnyManager::Arch(m) => m.list(),
            AnyManager::Apt(m) => m.list(),
            AnyManager::Brew(m) => m.list(),
            AnyManager::Cargo(m) => m.list(),
            AnyManager::Node(m) => m.list(),
            AnyManager::Dotnet(m) => m.list(),
        }
    }

    fn parse_list(&self, stdout: &str) -> (r: Vec<PackageSpec>) {
        match self {
            AnyManager::Arch(m) => m.parse_list(stdout),
            AnyManager::Apt(m) => m.parse_list(stdout),
            AnyManager::Brew(m) => m.parse_list(stdout),
            AnyManager::Cargo(m) => m.parse_list(stdout),
            AnyManager::Node(m) => m.parse_list(stdout),
            AnyManager::Dotnet(m) => m.parse_list(stdout),
        }
    }

    fn supports_pinning(&self) -> (r: bool) {
        match self {
            AnyManager::Arch(m) => m.supports_pinning(),
            AnyManager::Apt(m) => m.supports_pinning(),
            AnyManager::Brew(m) => m.supports_pinning(),
            AnyManager::Cargo(m) => m.supports_pinning(),
            AnyManager::Node(m) => m.supports_pinning(),
            AnyManager::Dotnet(m) => m.supports_pinning(),
        }
    }

    fn name_selects_version(&self, name: &str) -> (r: bool) {
        match self {
            AnyManager::Arch(m) => m.name_selects_version(name),
            AnyManager::Apt(m) => m.name_selects_version(name),
            AnyManager::Brew(m) => m.name_selects_version(name),
            AnyManager::Cargo(m) => m.name_selects_version(name),
            AnyManager::Node(m) => m.name_selects_version(name),
            AnyManager::Dotnet(m) => m.name_selects_version(name),
        }
    }
}

} // verus!
