use vstd::prelude::*;

use crate::manifest::grammar::{PackageSpec, PackageView};
use crate::order::{
    lemma_text_lt_asymmetric, lemma_text_lt_irreflexive, lemma_text_lt_total,
    lemma_text_lt_transitive, str_lt, text_lt,
};
use crate::text::str_eq;

verus! {

/// The packages of a list, by name: later entries replace earlier ones.
pub open spec fn map_of(s: Seq<PackageView>) -> Map<Seq<char>, PackageView>
    decreases s.len(),
{
    if s.len() == 0 {
        Map::empty()
    } else {
        map_of(s.drop_last()).insert(s.last().name, s.last())
    }
}

/// Strictly increasing names: no name twice, in name order.
pub open spec fn names_sorted(s: Seq<PackageView>) -> bool {
    forall|i: int, j: int| 0 <= i < j < s.len() ==> text_lt(#[trigger] s[i].name, #[trigger] s[j].name)
}

pub open spec fn names_unique(s: Seq<PackageView>) -> bool {
    forall|i: int, j: int| 0 <= i < s.len() && 0 <= j < s.len() && i != j ==> #[trigger] s[i].name
        != #[trigger] s[j].name
}

pub proof fn lemma_sorted_unique(s: Seq<PackageView>)
    requires
        names_sorted(s),
    ensures
        names_unique(s),
{
    assert forall|i: int, j: int|
        0 <= i < s.len() && 0 <= j < s.len() && i != j implies #[trigger] s[i].name
        != #[trigger] s[j].name by {
        if i < j {
            assert(text_lt(s[i].name, s[j].name));
            lemma_text_lt_irreflexive(s[i].name);
        } else {
            assert(text_lt(s[j].name, s[i].name));
            lemma_text_lt_irreflexive(s[i].name);
        }
    }
}

/// Which names `map_of` holds, and, for the last occurrence of a name, what.
pub proof fn lemma_map_of(s: Seq<PackageView>)
    ensures
        forall|k: Seq<char>| #[trigger]
            map_of(s).dom().contains(k) <==> exists|i: int| 0 <= i < s.len() && s[i].name == k,
        forall|i: int|
            0 <= i < s.len() && (forall|j: int| i < j < s.len() ==> s[j].name != s[i].name)
                ==> #[trigger] map_of(s)[s[i].name] == s[i],
        map_of(s).dom().finite(),
    decreases s.len(),
{
    if s.len() > 0 {
        let t = s.drop_last();
        lemma_map_of(t);
        assert forall|k: Seq<char>| #[trigger]
            map_of(s).dom().contains(k) <==> exists|i: int| 0 <= i < s.len() && s[i].name == k by {
            if map_of(s).dom().contains(k) && k != s.last().name {
                let i = choose|i: int| 0 <= i < t.len() && t[i].name == k;
                assert(s[i] == t[i]);
            }
            if exists|i: int| 0 <= i < s.len() && s[i].name == k {
                let i = choose|i: int| 0 <= i < s.len() && s[i].name == k;
                if i < t.len() {
                    assert(t[i] == s[i]);
                }
            }
        }
        assert forall|i: int|
            0 <= i < s.len() && (forall|j: int| i < j < s.len() ==> s[j].name != s[i].name)
                implies #[trigger] map_of(s)[s[i].name] == s[i] by {
            if i < s.len() - 1 {
                assert(s[s.len() - 1].name != s[i].name);
                assert(t[i] == s[i]);
                assert forall|j: int| i < j < t.len() implies t[j].name != t[i].name by {
                    assert(t[j] == s[j]);
                }
            }
        }
    }
}

/// For names in strictly increasing order, `map_of` holds exactly the entries.
pub proof fn lemma_map_of_sorted(s: Seq<PackageView>)
    requires
        names_unique(s),
    ensures
        forall|k: Seq<char>| #[trigger]
            map_of(s).dom().contains(k) <==> exists|i: int| 0 <= i < s.len() && s[i].name == k,
        forall|i: int| 0 <= i < s.len() ==> #[trigger] map_of(s)[s[i].name] == s[i],
{
    lemma_map_of(s);
    assert forall|i: int| 0 <= i < s.len() implies #[trigger] map_of(s)[s[i].name] == s[i] by {
        assert forall|j: int| i < j < s.len() implies s[j].name != s[i].name by {
            assert(s[j].name != s[i].name);
        }
    }
}

/// A map's entries in strictly increasing name order.
pub open spec fn listing(m: Map<Seq<char>, PackageView>) -> Seq<PackageView> {
    choose|s: Seq<PackageView>| names_sorted(s) && map_of(s) == m
}

/// Two name-sorted lists that hold the same packages are the same list, so a
/// map has exactly one listing.
pub proof fn lemma_listing_unique(a: Seq<PackageView>, b: Seq<PackageView>)
    requires
        names_sorted(a),
        names_sorted(b),
        map_of(a) == map_of(b),
    ensures
        a == b,
    decreases a.len(),
{
    lemma_map_of(a);
    lemma_map_of(b);
    lemma_sorted_unique(a);
    lemma_sorted_unique(b);
    lemma_map_of_sorted(a);
    lemma_map_of_sorted(b);
    if a.len() == 0 {
        if b.len() > 0 {
            assert(map_of(b).dom().contains(b.last().name));
        }
        assert(a =~= b);
    } else {
        assert(map_of(a).dom().contains(a.last().name));
        if b.len() == 0 {
            assert(false);
        }
        let ka = a.last().name;
        let kb = b.last().name;
        assert(map_of(b).dom().contains(ka));
        assert(map_of(a).dom().contains(kb));
        let j = choose|j: int| 0 <= j < b.len() && b[j].name == ka;
        let i = choose|i: int| 0 <= i < a.len() && a[i].name == kb;
        if ka != kb {
            assert(j != b.len() - 1);
            assert(i != a.len() - 1);
            assert(text_lt(b[j].name, b[b.len() - 1].name));
            assert(text_lt(a[i].name, a[a.len() - 1].name));
            lemma_text_lt_asymmetric(ka, kb);
        }
        assert(a.last() == map_of(a)[ka]);
        assert(b.last() == map_of(b)[kb]);
        let ta = a.drop_last();
        let tb = b.drop_last();
        lemma_map_of(ta);
        lemma_map_of(tb);
        assert(!map_of(ta).dom().contains(ka)) by {
            if map_of(ta).dom().contains(ka) {
                let x = choose|x: int| 0 <= x < ta.len() && ta[x].name == ka;
                assert(a[x].name == a[a.len() - 1].name);
            }
        }
        assert(!map_of(tb).dom().contains(kb)) by {
            if map_of(tb).dom().contains(kb) {
                let x = choose|x: int| 0 <= x < tb.len() && tb[x].name == kb;
                assert(b[x].name == b[b.len() - 1].name);
            }
        }
        assert(map_of(ta) =~= map_of(a).remove(ka));
        assert(map_of(tb) =~= map_of(b).remove(kb));
        assert(names_sorted(ta)) by {
            assert forall|x: int, y: int| 0 <= x < y < ta.len() implies text_lt(
                #[trigger] ta[x].name,
                #[trigger] ta[y].name,
            ) by {
                assert(ta[x] == a[x] && ta[y] == a[y]);
            }
        }
        assert(names_sorted(tb)) by {
            assert forall|x: int, y: int| 0 <= x < y < tb.len() implies text_lt(
                #[trigger] tb[x].name,
                #[trigger] tb[y].name,
            ) by {
                assert(tb[x] == b[x] && tb[y] == b[y]);
            }
        }
        lemma_listing_unique(ta, tb);
        assert(a =~= ta.push(a.last()));
        assert(b =~= tb.push(b.last()));
    }
}

/// A name-sorted list is the listing of its own map.
pub proof fn lemma_listing_of_sorted(s: Seq<PackageView>)
    requires
        names_sorted(s),
    ensures
        listing(map_of(s)) == s,
{
    let l = listing(map_of(s));
    assert(names_sorted(l) && map_of(l) == map_of(s));
    lemma_listing_unique(l, s);
}

pub open spec fn spec_views(v: Seq<PackageSpec>) -> Seq<PackageView> {
    v.map_values(|p: PackageSpec| p@)
}

/// Packages by name, kept in name order.
#[derive(Debug)]
pub struct PackageMap {
    entries: Vec<PackageSpec>,
}

impl PackageMap {
    #[verifier::type_invariant]
    closed spec fn sorted(self) -> bool {
        names_sorted(spec_views(self.entries@))
    }

    /// The entries, in name order.
    pub closed spec fn specs(&self) -> Seq<PackageView> {
        spec_views(self.entries@)
    }
}

impl View for PackageMap {
    type V = Map<Seq<char>, PackageView>;

    open spec fn view(&self) -> Map<Seq<char>, PackageView> {
        map_of(self.specs())
    }
}

impl PackageMap {
    pub fn new() -> (r: Self)
        ensures
            r.specs() == Seq::<PackageView>::empty(),
            r@ == Map::<Seq<char>, PackageView>::empty(),
    {
        let r = PackageMap { entries: Vec::new() };
        assert(r.specs() =~= Seq::<PackageView>::empty());
        r
    }

    /// The entries, in strictly increasing name order.
    pub fn entries(&self) -> (r: &Vec<PackageSpec>)
        ensures
            spec_views(r@) == self.specs(),
            names_sorted(self.specs()),
            names_unique(self.specs()),
            forall|k: Seq<char>| #[trigger]
                self@.dom().contains(k) <==> exists|i: int|
                    0 <= i < self.specs().len() && self.specs()[i].name == k,
            forall|i: int|
                0 <= i < self.specs().len() ==> #[trigger] self@[self.specs()[i].name]
                    == self.specs()[i],
            self@.dom().finite(),
            self.specs() == listing(self@),
    {
        proof {
            use_type_invariant(self);
            lemma_listing_of_sorted(self.specs());
            lemma_sorted_unique(self.specs());
            lemma_map_of_sorted(self.specs());
            lemma_map_of(self.specs());
        }
        &self.entries
    }

    pub fn len(&self) -> (r: usize)
        ensures
            r == self.specs().len(),
    {
        self.entries.len()
    }

    /// Where `name` is, or would go.
    fn position(&self, name: &str) -> (r: (usize, bool))
        ensures
            r.0 <= self.specs().len(),
            forall|i: int| 0 <= i < r.0 ==> text_lt(#[trigger] self.specs()[i].name, name@),
            r.1 <==> r.0 < self.specs().len() && self.specs()[r.0 as int].name == name@,
            r.0 < self.specs().len() && !r.1 ==> text_lt(name@, self.specs()[r.0 as int].name),
    {
        proof {
            use_type_invariant(self);
        }
        let ghost s = self.specs();
        let mut i: usize = 0;
        while i < self.entries.len() && str_lt(self.entries[i].name.as_str(), name)
            invariant
                s == spec_views(self.entries@),
                names_sorted(s),
                i <= s.len(),
                forall|k: int| 0 <= k < i ==> text_lt(#[trigger] s[k].name, name@),
            decreases self.entries.len() - i,
        {
            assert(s[i as int] == self.entries@[i as int]@);
            i += 1;
        }
        if i < self.entries.len() {
            assert(s[i as int] == self.entries@[i as int]@);
            let found = str_eq(self.entries[i].name.as_str(), name);
            proof {
                lemma_text_lt_total(s[i as int].name, name@);
            }
            (i, found)
        } else {
            (i, false)
        }
    }

    /// The package named `name`, if any.
    pub fn get(&self, name: &str) -> (r: Option<&PackageSpec>)
        ensures
            r is Some <==> self@.dom().contains(name@),
            r matches Some(p) ==> p@ == self@[name@],
    {
        let _ = self.entries();
        let (i, found) = self.position(name);
        proof {
            use_type_invariant(self);
            lemma_sorted_unique(self.specs());
            lemma_map_of_sorted(self.specs());
        }
        if found {
            assert(self.specs()[i as int] == self.entries@[i as int]@);
            Some(&self.entries[i])
        } else {
            proof {
                let s = self.specs();
                if self@.dom().contains(name@) {
                    let k = choose|k: int| 0 <= k < s.len() && s[k].name == name@;
                    if k < i {
                        assert(text_lt(s[k].name, name@));
                        lemma_text_lt_irreflexive(name@);
                    } else if k > i {
                        assert(text_lt(s[i as int].name, s[k].name));
                        lemma_text_lt_asymmetric(name@, s[i as int].name);
                        lemma_text_lt_transitive(name@, s[i as int].name, s[k].name);
                        lemma_text_lt_irreflexive(name@);
                    }
                }
            }
            None
        }
    }

    pub fn contains_key(&self, name: &str) -> (r: bool)
        ensures
            r == self@.dom().contains(name@),
    {
        self.get(name).is_some()
    }

    /// Record `spec` under its name, replacing whatever had that name.
    pub fn insert(&mut self, spec: PackageSpec)
        ensures
            final(self)@ == old(self)@.insert(spec@.name, spec@),
    {
        let (i, found) = self.position(spec.name.as_str());
        proof {
            use_type_invariant(&*self);
        }
        let ghost s = self.specs();
        let ghost p = spec@;
        let mut entries: Vec<PackageSpec> = Vec::new();
        std::mem::swap(&mut entries, &mut self.entries);
        assert(spec_views(entries@) == s);
        if found {
            entries.set(i, spec);
            proof {
                let t = spec_views(entries@);
                assert(t =~= s.update(i as int, p));
                assert forall|a: int, b: int| 0 <= a < b < t.len() implies text_lt(
                    #[trigger] t[a].name,
                    #[trigger] t[b].name,
                ) by {
                    assert(s[a].name == t[a].name);
                    assert(s[b].name == t[b].name);
                }
            }
        } else {
            entries.insert(i, spec);
            proof {
                let t = spec_views(entries@);
                assert(t =~= s.insert(i as int, p));
                assert forall|a: int, b: int| 0 <= a < b < t.len() implies text_lt(
                    #[trigger] t[a].name,
                    #[trigger] t[b].name,
                ) by {
                    if b < i {
                        assert(t[a] == s[a] && t[b] == s[b]);
                    } else if b == i {
                        assert(t[a] == s[a]);
                    } else if a == i {
                        assert(t[b] == s[b - 1]);
                        if b - 1 > i {
                            assert(text_lt(s[i as int].name, s[b - 1].name));
                            lemma_text_lt_transitive(p.name, s[i as int].name, s[b - 1].name);
                        }
                    } else if a < i {
                        assert(t[a] == s[a] && t[b] == s[b - 1]);
                        if i < s.len() {
                            lemma_text_lt_transitive(s[a].name, p.name, s[b - 1].name);
                            if b - 1 > i {
                                assert(text_lt(s[i as int].name, s[b - 1].name));
                                lemma_text_lt_transitive(p.name, s[i as int].name, s[b - 1].name);
                            }
                        }
                        if a < b - 1 {
                            assert(text_lt(s[a].name, s[b - 1].name));
                        }
                    } else {
                        assert(t[a] == s[a - 1] && t[b] == s[b - 1]);
                    }
                }
            }
        }
        self.entries = entries;
        proof {
            let t = self.specs();
            lemma_sorted_unique(s);
            lemma_map_of_sorted(s);
            use_type_invariant(&*self);
            lemma_sorted_unique(t);
            lemma_map_of_sorted(t);
            let want = map_of(s).insert(p.name, p);
            assert forall|k: Seq<char>| #[trigger] map_of(t).dom().contains(k) <==> want.dom().contains(k) by {
                if map_of(t).dom().contains(k) && k != p.name {
                    let j = choose|j: int| 0 <= j < t.len() && t[j].name == k;
                    if found {
                        assert(s[j].name == t[j].name);
                    } else if j < i {
                        assert(s[j] == t[j]);
                    } else {
                        assert(s[j - 1] == t[j]);
                    }
                }
                if want.dom().contains(k) {
                    if k == p.name {
                        assert(t[i as int] == p);
                    } else {
                        let j = choose|j: int| 0 <= j < s.len() && s[j].name == k;
                        if found {
                            assert(t[j].name == s[j].name);
                        } else if j < i {
                            assert(t[j] == s[j]);
                        } else {
                            assert(t[j + 1] == s[j]);
                        }
                    }
                }
            }
            assert forall|k: Seq<char>| #[trigger] map_of(t).dom().contains(k) implies map_of(t)[k] == want[k] by {
                let j = choose|j: int| 0 <= j < t.len() && t[j].name == k;
                assert(map_of(t)[t[j].name] == t[j]);
                if k == p.name {
                    if found {
                        assert(t[i as int] == p);
                    } else {
                        assert(t[i as int] == p);
                    }
                } else if found {
                    assert(t[j] == s[j]);
                    assert(map_of(s)[s[j].name] == s[j]);
                } else if j < i {
                    assert(t[j] == s[j]);
                    assert(map_of(s)[s[j].name] == s[j]);
                } else {
                    assert(t[j] == s[j - 1]);
                    assert(map_of(s)[s[j - 1].name] == s[j - 1]);
                }
            }
            assert(map_of(t) =~= want);
        }
    }

    /// The packages of `specs`, by name; a later entry replaces an earlier one.
    pub fn from_specs(specs: &Vec<PackageSpec>) -> (r: Self)
        ensures
            r@ == map_of(spec_views(specs@)),
            r.specs() == listing(r@),
    {
        let mut r = PackageMap::new();
        let mut i: usize = 0;
        while i < specs.len()
            invariant
                i <= specs.len(),
                r@ == map_of(spec_views(specs@).take(i as int)),
            decreases specs.len() - i,
        {
            r.insert(specs[i].clone());
            proof {
                let v = spec_views(specs@);
                assert(v.take(i + 1).drop_last() =~= v.take(i as int));
                assert(v.take(i + 1).last() == specs@[i as int]@);
            }
            i += 1;
        }
        assert(spec_views(specs@).take(i as int) =~= spec_views(specs@));
        proof {
            use_type_invariant(&r);
            lemma_listing_of_sorted(r.specs());
        }
        r
    }
}

} // verus!
