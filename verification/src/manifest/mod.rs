pub mod file;
pub mod grammar;

use vstd::prelude::*;

use crate::manifest::file::{ManifestError, ManifestFile, ManifestView, declared_specs, read_lines};
use crate::manifest::grammar::SpecErrorView;
use crate::package_map::{PackageMap, listing, map_of, spec_views};
use crate::text::{chars_of, copy_str, lines, push_char, str_eq, trim, trim_str};

verus! {

/// Which layer an edit should be written to.
#[derive(Debug)]
pub enum Layer {
    /// Applies to every machine.
    Common,
    /// Applies only to the named host.
    Host(String),
}

pub enum LayerView {
    Common,
    Host(Seq<char>),
}

impl View for Layer {
    type V = LayerView;

    open spec fn view(&self) -> LayerView {
        match self {
            Layer::Common => LayerView::Common,
            Layer::Host(h) => LayerView::Host(h@),
        }
    }
}

impl Clone for Layer {
    fn clone(&self) -> (r: Self)
        ensures
            r@ == self@,
    {
        match self {
            Layer::Common => Layer::Common,
            Layer::Host(h) => Layer::Host(h.clone()),
        }
    }
}

impl PartialEq for Layer {
    fn eq(&self, other: &Self) -> (r: bool) {
        match (self, other) {
            (Layer::Common, Layer::Common) => true,
            (Layer::Host(a), Layer::Host(b)) => str_eq(a.as_str(), b.as_str()),
            _ => false,
        }
    }
}

impl vstd::std_specs::cmp::PartialEqSpecImpl for Layer {
    open spec fn obeys_eq_spec() -> bool {
        true
    }

    open spec fn eq_spec(&self, other: &Layer) -> bool {
        self@ == other@
    }
}

impl Eq for Layer {}

/// `part` appended to the path `base`, as `Path::join` does it on Unix: an
/// absolute `part` replaces `base`, and a separator is added unless `base` is
/// empty or already ends in one.
pub open spec fn path_join(base: Seq<char>, part: Seq<char>) -> Seq<char> {
    if part.len() > 0 && part[0] == '/' {
        part
    } else if base.len() == 0 || base.last() == '/' {
        base + part
    } else {
        base + seq!['/'] + part
    }
}

pub fn join_path(base: &str, part: &str) -> (r: String)
    ensures
        r@ == path_join(base@, part@),
{
    let b = chars_of(base);
    let p = chars_of(part);
    if p.len() > 0 && p[0] == '/' {
        return copy_str(part);
    }
    let mut r = copy_str(base);
    if !(b.len() == 0 || b[b.len() - 1] == '/') {
        push_char(&mut r, '/');
    }
    r.append(part);
    r
}

/// The on-disk manifest tree.
///
/// ```text
/// ~/.config/mpm/
/// |- pacman             # declared on every machine
/// |- cargo
/// `- hosts/<host>/pacman
/// ```
///
/// A manifest is a top-level file named after its manager. `hosts` is a
/// reserved directory name; since the set of manager ids is closed, it can
/// never collide with a manifest.
#[derive(Debug)]
pub struct Layout {
    root: String,
}

impl View for Layout {
    type V = Seq<char>;

    closed spec fn view(&self) -> Seq<char> {
        self.root@
    }
}

impl Clone for Layout {
    fn clone(&self) -> (r: Self)
        ensures
            r@ == self@,
    {
        Layout { root: self.root.clone() }
    }
}

pub open spec fn common_path(root: Seq<char>, manager: Seq<char>) -> Seq<char> {
    path_join(root, manager)
}

pub open spec fn host_path(root: Seq<char>, host: Seq<char>, manager: Seq<char>) -> Seq<char> {
    path_join(path_join(path_join(root, "hosts"@), host), manager)
}

pub open spec fn layer_path(root: Seq<char>, layer: LayerView, manager: Seq<char>) -> Seq<char> {
    match layer {
        LayerView::Common => common_path(root, manager),
        LayerView::Host(h) => host_path(root, h, manager),
    }
}

impl Layout {
    /// The tree rooted at `root`.
    pub fn at(root: &str) -> (r: Self)
        ensures
            r@ == root@,
    {
        Layout { root: copy_str(root) }
    }

    pub fn root(&self) -> (r: &str)
        ensures
            r@ == self@,
    {
        self.root.as_str()
    }

    /// The manifest that applies to every machine.
    pub fn common(&self, manager: &str) -> (r: String)
        ensures
            r@ == common_path(self@, manager@),
    {
        join_path(self.root.as_str(), manager)
    }

    pub fn host(&self, host: &str, manager: &str) -> (r: String)
        ensures
            r@ == host_path(self@, host@, manager@),
    {
        let hosts = join_path(self.root.as_str(), "hosts");
        let dir = join_path(hosts.as_str(), host);
        join_path(dir.as_str(), manager)
    }

    /// The directory that holds the host layers.
    pub fn hosts_dir(&self) -> (r: String)
        ensures
            r@ == path_join(self@, "hosts"@),
    {
        join_path(self.root.as_str(), "hosts")
    }

    pub fn path_for(&self, layer: &Layer, manager: &str) -> (r: String)
        ensures
            r@ == layer_path(self@, layer@, manager@),
    {
        match layer {
            Layer::Common => self.common(manager),
            Layer::Host(host) => self.host(host.as_str(), manager),
        }
    }

    /// Layer files for a manager, lowest priority first.
    ///
    /// `common` is the base and the host layer has the final say, because it is
    /// the more specific of the two.
    pub fn layer_paths(&self, manager: &str, host: &str) -> (r: Vec<String>)
        ensures
            r@.map_values(|s: String| s@) == seq![common_path(self@, manager@), host_path(self@, host@, manager@)],
    {
        let mut r: Vec<String> = Vec::new();
        r.push(self.common(manager));
        r.push(self.host(host, manager));
        assert(r@.map_values(|s: String| s@) =~= seq![common_path(self@, manager@), host_path(self@, host@, manager@)]);
        r
    }

    /// Locate the manifest tree: the `$MPM_CONFIG_DIR` setting, when it is
    /// not blank, else `<config dir>/mpm`; `None` when there is neither.
    pub fn discover(setting: Option<&str>, config_dir: Option<&str>) -> (r: Option<Self>)
        ensures
            match r {
                Some(l) => discovered_root(opt_view(setting), opt_view(config_dir)) == Some(l@),
                None => discovered_root(opt_view(setting), opt_view(config_dir)) is None,
            },
    {
        if let Some(value) = setting {
            let value = trim_str(value);
            if value.as_str().unicode_len() > 0 {
                return Some(Layout { root: value });
            }
        }
        match config_dir {
            Some(base) => Some(Layout { root: join_path(base, "mpm") }),
            None => None,
        }
    }

    /// Collapse every layer into one declared state, `contents` holding the
    /// text of each of `layer_paths`, `None` for a file that does not exist.
    /// The first layer that cannot be read is the error.
    pub fn resolve(&self, manager: &str, host: &str, contents: &[Option<String>]) -> (r: Result<
        Resolved,
        ManifestError,
    >)
        requires
            contents.len() == 2,
        ensures
            match layer_reading(common_path(self@, manager@), opt_string_view(contents@[0])) {
                Err((i, e)) => (r matches Err(x) && x.path@ == common_path(self@, manager@) && x.line == i + 1
                    && x.cause@ == e),
                Ok(a) => match layer_reading(host_path(self@, host@, manager@), opt_string_view(contents@[1])) {
                    Err((i, e)) => (r matches Err(x) && x.path@ == host_path(self@, host@, manager@) && x.line
                        == i + 1 && x.cause@ == e),
                    Ok(b) => (r matches Ok(res) && res.declared@ == map_of(layered_specs(seq![a, b]))
                        && res.declared.specs() == listing(res.declared@)),
                },
            },
    {
        let common = self.common(manager);
        let first = match ManifestFile::load(common.as_str(), as_text(&contents[0])) {
            Ok(m) => m,
            Err(e) => {
                return Err(e);
            },
        };
        let own = self.host(host, manager);
        let second = match ManifestFile::load(own.as_str(), as_text(&contents[1])) {
            Ok(m) => m,
            Err(e) => {
                return Err(e);
            },
        };
        let ghost a = first@;
        let ghost b = second@;
        let mut layers: Vec<ManifestFile> = Vec::new();
        layers.push(first);
        layers.push(second);
        assert(manifest_views(layers@) =~= seq![a, b]);
        Ok(Resolved::from_layers(layers.as_slice()))
    }
}

pub open spec fn opt_view(o: Option<&str>) -> Option<Seq<char>> {
    match o {
        Some(s) => Some(s@),
        None => None,
    }
}

pub open spec fn opt_string_view(o: Option<String>) -> Option<Seq<char>> {
    match o {
        Some(s) => Some(s@),
        None => None,
    }
}

fn as_text(o: &Option<String>) -> (r: Option<&str>)
    ensures
        opt_view(r) == opt_string_view(*o),
{
    match o {
        Some(s) => Some(s.as_str()),
        None => None,
    }
}

/// Where the manifest tree is: a non-blank setting, trimmed, else `mpm` under
/// the config directory.
pub open spec fn discovered_root(setting: Option<Seq<char>>, config_dir: Option<Seq<char>>) -> Option<Seq<char>> {
    if setting is Some && trim(setting->0).len() > 0 {
        Some(trim(setting->0))
    } else {
        match config_dir {
            Some(base) => Some(path_join(base, "mpm"@)),
            None => None,
        }
    }
}

/// What reading one layer gives: `None` is a file that does not exist, an
/// empty layer; otherwise its lines, or the first that cannot be read.
pub open spec fn layer_reading(path: Seq<char>, contents: Option<Seq<char>>) -> Result<
    ManifestView,
    (int, SpecErrorView),
> {
    match contents {
        None => Ok(ManifestView { path, existed: false, lines: seq![] }),
        Some(t) => match read_lines(lines(t)) {
            Ok(ls) => Ok(ManifestView { path, existed: true, lines: ls }),
            Err(e) => Err(e),
        },
    }
}

/// The first candidate that is not blank, trimmed.
pub open spec fn first_named(candidates: Seq<Option<Seq<char>>>) -> Option<Seq<char>>
    decreases candidates.len(),
{
    if candidates.len() == 0 {
        None
    } else {
        match first_named(candidates.drop_last()) {
            Some(n) => Some(n),
            None => match candidates.last() {
                Some(t) => if trim(t).len() > 0 {
                    Some(trim(t))
                } else {
                    None
                },
                None => None,
            },
        }
    }
}

/// This machine's name, used to select the host layer: the first of the
/// candidates (the `$MPM_HOST` setting, `/etc/hostname`, what the `hostname`
/// program printed) that is not blank, trimmed. Guessing would silently
/// select the wrong layer, so `None` is for the caller to report, not to
/// paper over.
pub fn hostname(candidates: &[Option<String>]) -> (r: Option<String>)
    ensures
        match r {
            Some(n) => first_named(candidates@.map_values(|o: Option<String>| opt_string_view(o))) == Some(n@),
            None => first_named(candidates@.map_values(|o: Option<String>| opt_string_view(o))) is None,
        },
{
    let ghost cs = candidates@.map_values(|o: Option<String>| opt_string_view(o));
    let mut i: usize = 0;
    while i < candidates.len()
        invariant
            i <= candidates.len(),
            cs == candidates@.map_values(|o: Option<String>| opt_string_view(o)),
            first_named(cs.take(i as int)) is None,
        decreases candidates.len() - i,
    {
        assert(cs.take(i + 1).drop_last() =~= cs.take(i as int));
        assert(cs.take(i + 1).last() == opt_string_view(candidates@[i as int]));
        if let Some(value) = &candidates[i] {
            let value = trim_str(value.as_str());
            if value.as_str().unicode_len() > 0 {
                proof {
                    lemma_first_named_sticks(cs, i + 1);
                }
                return Some(value);
            }
        }
        i += 1;
    }
    assert(cs.take(i as int) =~= cs);
    None
}

proof fn lemma_first_named_sticks(cs: Seq<Option<Seq<char>>>, i: int)
    requires
        0 <= i <= cs.len(),
        first_named(cs.take(i)) is Some,
    ensures
        first_named(cs) == first_named(cs.take(i)),
    decreases cs.len() - i,
{
    if i < cs.len() {
        assert(cs.take(i + 1).drop_last() =~= cs.take(i));
        lemma_first_named_sticks(cs, i + 1);
    } else {
        assert(cs.take(i) =~= cs);
    }
}

/// The declared state for one manager, after every layer is applied.
#[derive(Debug)]
pub struct Resolved {
    /// Declared packages by name.
    pub declared: PackageMap,
}

/// Every declaration of the layers that exist, lowest priority first.
pub open spec fn layered_specs(layers: Seq<crate::manifest::file::ManifestView>) -> Seq<crate::manifest::grammar::PackageView>
    decreases layers.len(),
{
    if layers.len() == 0 {
        seq![]
    } else if layers.last().existed {
        layered_specs(layers.drop_last()) + declared_specs(layers.last().lines)
    } else {
        layered_specs(layers.drop_last())
    }
}

pub open spec fn manifest_views(v: Seq<ManifestFile>) -> Seq<crate::manifest::file::ManifestView> {
    v.map_values(|m: ManifestFile| m@)
}

impl Resolved {
    /// Collapse every layer into one declared state; `layers` are lowest
    /// priority first, and a layer whose file does not exist adds nothing.
    pub fn from_layers(layers: &[ManifestFile]) -> (r: Self)
        ensures
            r.declared@ == map_of(layered_specs(manifest_views(layers@))),
            r.declared.specs() == listing(r.declared@),
    {
        let ghost ls = manifest_views(layers@);
        let mut all: Vec<crate::manifest::grammar::PackageSpec> = Vec::new();
        let mut i: usize = 0;
        while i < layers.len()
            invariant
                i <= layers.len(),
                ls == manifest_views(layers@),
                spec_views(all@) == layered_specs(ls.take(i as int)),
            decreases layers.len() - i,
        {
            assert(ls.take(i + 1).drop_last() =~= ls.take(i as int));
            assert(ls.take(i + 1).last() == layers@[i as int]@);
            if layers[i].existed() {
                let mut specs = layers[i].specs();
                let ghost before = all@;
                let ghost added = specs@;
                all.append(&mut specs);
                assert(spec_views(all@) =~= spec_views(before) + spec_views(added));
            }
            i += 1;
        }
        assert(ls.take(i as int) =~= ls);
        // A later layer can change a version but never take a package away:
        // declared is the plain union of every layer.
        Resolved { declared: PackageMap::from_specs(&all) }
    }
}


/// Declared packages are the union of the layers: a package any layer
/// declares is declared, and nothing else is. A later layer can change a
/// package's version -- the more specific layer has the final say -- but can
/// never take a package away.
pub proof fn law_layers_are_a_plain_union(
    lower: Seq<crate::manifest::grammar::PackageView>,
    upper: Seq<crate::manifest::grammar::PackageView>,
)
    ensures
        map_of(lower + upper).dom() == map_of(lower).dom().union(map_of(upper).dom()),
        forall|k: Seq<char>| #[trigger]
            map_of(upper).dom().contains(k) ==> map_of(lower + upper)[k] == map_of(upper)[k],
        forall|k: Seq<char>|
            map_of(lower).dom().contains(k) && !map_of(upper).dom().contains(k) ==> #[trigger] map_of(
                lower + upper,
            )[k] == map_of(lower)[k],
    decreases upper.len(),
{
    if upper.len() == 0 {
        assert(lower + upper =~= lower);
        assert(map_of(upper) =~= Map::<Seq<char>, crate::manifest::grammar::PackageView>::empty());
        assert(map_of(lower).dom().union(map_of(upper).dom()) =~= map_of(lower).dom());
    } else {
        let u = upper.drop_last();
        law_layers_are_a_plain_union(lower, u);
        assert((lower + upper).drop_last() =~= lower + u);
        assert((lower + upper).last() == upper.last());
        assert(map_of(lower + upper).dom() =~= map_of(lower).dom().union(map_of(upper).dom()));
    }
}

/// The two layers of a manager, as `Resolved::from_layers` sees them: the
/// shared layer's declarations, then the host layer's, each only if its file
/// exists.
pub proof fn law_resolving_two_layers(
    common: crate::manifest::file::ManifestView,
    host: crate::manifest::file::ManifestView,
)
    ensures
        layered_specs(seq![common, host]) == (if common.existed {
            declared_specs(common.lines)
        } else {
            seq![]
        }) + (if host.existed {
            declared_specs(host.lines)
        } else {
            seq![]
        }),
{
    let two = seq![common, host];
    let one = seq![common];
    let none = Seq::<crate::manifest::file::ManifestView>::empty();
    assert(two.drop_last() =~= one);
    assert(two.last() == host);
    assert(one.drop_last() =~= none);
    assert(one.last() == common);
    assert(layered_specs(none) == Seq::<crate::manifest::grammar::PackageView>::empty());
    assert(layered_specs(one) == if common.existed { layered_specs(none) + declared_specs(common.lines) } else { layered_specs(none) });
    assert(layered_specs(two) == if host.existed { layered_specs(one) + declared_specs(host.lines) } else { layered_specs(one) });
    assert(Seq::<crate::manifest::grammar::PackageView>::empty() + declared_specs(common.lines) =~= declared_specs(common.lines));
    if common.existed {
        if host.existed {
        } else {
            assert(declared_specs(common.lines) + Seq::<crate::manifest::grammar::PackageView>::empty() =~= declared_specs(common.lines));
        }
    } else {
        assert(Seq::<crate::manifest::grammar::PackageView>::empty() + declared_specs(host.lines) =~= declared_specs(host.lines));
        assert(Seq::<crate::manifest::grammar::PackageView>::empty() + Seq::<crate::manifest::grammar::PackageView>::empty() =~= Seq::<crate::manifest::grammar::PackageView>::empty());
    }
}

} // verus!
