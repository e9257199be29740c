//! The catalog of benchmarkable units: categories ("pallets"), each owning a
//! set of unit names ("extrinsics"), kept in deterministic lexicographic
//! order so that listings and reports are reproducible.

use vstd::prelude::*;

use crate::order::{
    lemma_lex_lt_total, lemma_lex_lt_transitive, lex_lt, str_eq, str_lt,
};

verus! {

/// Mathematical view of one category: its name and its units, in order.
pub struct PalletView {
    pub name: Seq<char>,
    pub extrinsics: Seq<Seq<char>>,
}

/// A sequence of character sequences is strictly lexicographically sorted
/// (hence free of duplicates).
pub open spec fn strictly_sorted(s: Seq<Seq<char>>) -> bool {
    forall|i: int, j: int| 0 <= i < j < s.len() ==> lex_lt(s[i], s[j])
}

/// One category and the units that belong to it.
pub struct Pallet {
    pub name: String,
    pub extrinsics: Vec<String>,
}

impl View for Pallet {
    type V = PalletView;

    open spec fn view(&self) -> PalletView {
        PalletView {
            name: self.name@,
            extrinsics: self.extrinsics@.map_values(|s: String| s@),
        }
    }
}

impl PalletView {
    /// A category is well formed when its name and every unit name are
    /// non-empty and its units are strictly sorted.
    pub open spec fn wf(self) -> bool {
        &&& self.name.len() > 0
        &&& self.extrinsics.len() > 0
        &&& strictly_sorted(self.extrinsics)
        &&& forall|k: int|
            0 <= k < self.extrinsics.len() ==> (#[trigger] self.extrinsics[k]).len() > 0
    }
}

impl Pallet {
    pub open spec fn wf(&self) -> bool {
        self@.wf()
    }

    /// Copies the category, preserving its view exactly.
    pub fn duplicate(&self) -> (r: Pallet)
        ensures
            r@ == self@,
    {
        let mut exts: Vec<String> = Vec::new();
        let n = self.extrinsics.len();
        let mut k: usize = 0;
        while k < n
            invariant
                k <= n,
                n == self.extrinsics.len(),
                exts@.len() == k as int,
                forall|i: int| 0 <= i < k as int ==> #[trigger] exts@[i]@ == self.extrinsics@[i]@,
            decreases n - k,
        {
            exts.push(self.extrinsics[k].clone());
            k += 1;
        }
        let r = Pallet { name: self.name.clone(), extrinsics: exts };
        proof {
            assert(r@.extrinsics =~= self@.extrinsics);
        }
        r
    }

    /// Renders the category with its units, one indented line per unit, as
    /// the listing subcommand prints it.
    pub fn render(&self) -> (r: String)
        ensures
            r@ == self@.name + " {\n"@ + block_lines(self@.extrinsics) + "}\n"@,
    {
        let ghost exts = self@.extrinsics;
        let mut out = self.name.clone();
        out.append(" {\n");
        let n = self.extrinsics.len();
        let mut i: usize = 0;
        proof {
            assert(block_lines(exts.take(0)) =~= Seq::<char>::empty());
            assert(out@ =~= self@.name + " {\n"@ + block_lines(exts.take(0)));
        }
        while i < n
            invariant
                i <= n,
                n == self.extrinsics@.len(),
                exts == self@.extrinsics,
                out@ == self@.name + " {\n"@ + block_lines(exts.take(i as int)),
            decreases n - i,
        {
            proof {
                assert(exts.take(i as int + 1).drop_last() =~= exts.take(i as int));
                assert(exts.take(i as int + 1).last() == exts[i as int]);
                assert(exts[i as int] == self.extrinsics@[i as int]@);
            }
            out.append("    ");
            out.append(self.extrinsics[i].as_str());
            out.append(",\n");
            proof {
                assert(out@ =~= self@.name + " {\n"@ + block_lines(exts.take(i as int + 1)));
            }
            i += 1;
        }
        out.append("}\n");
        proof {
            assert(exts.take(n as int) =~= exts);
        }
        out
    }
}

/// The text block the listing subcommand prints for a category's units: one
/// indented line per unit.
pub open spec fn block_lines(exts: Seq<Seq<char>>) -> Seq<char>
    decreases exts.len(),
{
    if exts.len() == 0 {
        Seq::empty()
    } else {
        block_lines(exts.drop_last()) + "    "@ + exts.last() + ",\n"@
    }
}

/// The complete discovered catalog: categories sorted by name.
pub struct Pallets {
    pub items: Vec<Pallet>,
}

/// The views of a sequence of categories, in order.
pub open spec fn views_of(items: Seq<Pallet>) -> Seq<PalletView> {
    items.map_values(|p: Pallet| p@)
}

impl View for Pallets {
    type V = Seq<PalletView>;

    open spec fn view(&self) -> Seq<PalletView> {
        views_of(self.items@)
    }
}

/// The mapping a sequence of categories denotes: category name to the set of
/// its unit names.
pub open spec fn catalog_map(ps: Seq<PalletView>) -> Map<Seq<char>, Set<Seq<char>>>
    decreases ps.len(),
{
    if ps.len() == 0 {
        Map::empty()
    } else {
        catalog_map(ps.drop_last()).insert(ps.last().name, ps.last().extrinsics.to_set())
    }
}

/// How one discovered `(category, unit)` pair extends a catalog mapping:
/// the unit joins the category's set, creating the category if needed.
pub open spec fn insert_unit_spec(
    m: Map<Seq<char>, Set<Seq<char>>>,
    cat: Seq<char>,
    unit: Seq<char>,
) -> Map<Seq<char>, Set<Seq<char>>> {
    let exts = if m.contains_key(cat) {
        m[cat]
    } else {
        Set::empty()
    };
    m.insert(cat, exts.insert(unit))
}

impl Pallets {
    /// The catalog is well formed when every category is well formed and the
    /// categories are strictly sorted by name.
    pub open spec fn wf(&self) -> bool {
        &&& forall|i: int| 0 <= i < self@.len() ==> (#[trigger] self@[i]).wf()
        &&& forall|i: int, j: int|
            0 <= i < j < self@.len() ==> lex_lt(self@[i].name, self@[j].name)
    }

    pub open spec fn catalog(&self) -> Map<Seq<char>, Set<Seq<char>>> {
        catalog_map(self@)
    }

    /// An empty catalog, which discovery then fills pair by pair.
    pub fn empty() -> (r: Pallets)
        ensures
            r.wf(),
            r@ =~= Seq::<PalletView>::empty(),
            r.catalog() == Map::<Seq<char>, Set<Seq<char>>>::empty(),
    {
        let r = Pallets { items: Vec::new() };
        proof {
            assert(r@ =~= Seq::<PalletView>::empty());
        }
        r
    }
}

/// Inserting a category whose name is new denotes adding its entry.
proof fn lemma_catalog_map_insert(ps: Seq<PalletView>, j: int, pv: PalletView)
    requires
        0 <= j <= ps.len(),
        forall|i: int| 0 <= i < ps.len() ==> (#[trigger] ps[i]).name != pv.name,
    ensures
        catalog_map(ps.insert(j, pv)) == catalog_map(ps).insert(pv.name, pv.extrinsics.to_set()),
    decreases ps.len(),
{
    if j == ps.len() {
        assert(ps.insert(j, pv) =~= ps.push(pv));
        assert(ps.push(pv).drop_last() =~= ps);
    } else {
        let q = ps.insert(j, pv);
        assert(q.drop_last() =~= ps.drop_last().insert(j, pv));
        assert(q.last() == ps.last());
        assert(forall|i: int|
            0 <= i < ps.drop_last().len() ==> (#[trigger] ps.drop_last()[i]).name != pv.name);
        lemma_catalog_map_insert(ps.drop_last(), j, pv);
        assert(catalog_map(q) =~= catalog_map(ps).insert(pv.name, pv.extrinsics.to_set()));
    }
}

/// Replacing one category by another of the same name denotes overwriting
/// that entry, provided no other category shares the name.
proof fn lemma_catalog_map_update(ps: Seq<PalletView>, i: int, pv: PalletView)
    requires
        0 <= i < ps.len(),
        ps[i].name == pv.name,
        forall|k: int| 0 <= k < ps.len() && k != i ==> (#[trigger] ps[k]).name != pv.name,
    ensures
        catalog_map(ps.update(i, pv)) == catalog_map(ps).insert(pv.name, pv.extrinsics.to_set()),
    decreases ps.len(),
{
    let q = ps.update(i, pv);
    if i == ps.len() - 1 {
        assert(q.drop_last() =~= ps.drop_last());
        assert(q.last() == pv);
        assert(catalog_map(q) =~= catalog_map(ps).insert(pv.name, pv.extrinsics.to_set()));
    } else {
        assert(q.drop_last() =~= ps.drop_last().update(i, pv));
        assert(q.last() == ps.last());
        lemma_catalog_map_update(ps.drop_last(), i, pv);
        assert(catalog_map(q) =~= catalog_map(ps).insert(pv.name, pv.extrinsics.to_set()));
    }
}

/// Inserting into a sorted sequence of strings keeps it sorted and denotes
/// adding the element to the set of members.
fn insert_sorted_string(v: &mut Vec<String>, s: &str)
    requires
        strictly_sorted(old(v)@.map_values(|x: String| x@)),
    ensures
        strictly_sorted(final(v)@.map_values(|x: String| x@)),
        final(v)@.map_values(|x: String| x@).to_set() == old(v)@.map_values(
            |x: String| x@,
        ).to_set().insert(s@),
        final(v)@.len() >= 1,
        forall|k: int|
            0 <= k < final(v)@.len() ==> (#[trigger] final(v)@[k])@ == s@ || old(v)@.map_values(
                |x: String| x@,
            ).contains(final(v)@[k]@),
{
    let ghost w = old(v)@.map_values(|x: String| x@);
    let n = v.len();
    let mut i: usize = 0;
    loop
        invariant_except_break
            i <= n,
            n == v@.len(),
            v@ == old(v)@,
            w == v@.map_values(|x: String| x@),
            forall|k: int| 0 <= k < i as int ==> lex_lt(#[trigger] w[k], s@),
        ensures
            i <= n,
            v@ == old(v)@,
            n == v@.len(),
            w == v@.map_values(|x: String| x@),
            forall|k: int| 0 <= k < i as int ==> lex_lt(#[trigger] w[k], s@),
            i < n ==> !lex_lt(w[i as int], s@),
        decreases n - i,
    {
        if i == n {
            break;
        }
        if !str_lt(v[i].as_str(), s) {
            break;
        }
        i += 1;
    }
    if i < n && str_eq(v[i].as_str(), s) {
        // Already present: sets are idempotent.
        proof {
            assert(w[i as int] == s@);
            assert(w.contains(s@));
            assert(w.to_set() =~= w.to_set().insert(s@));
            assert forall|k: int| 0 <= k < v@.len() implies w.contains(#[trigger] v@[k]@) by {
                assert(w[k] == v@[k]@);
            }
        }
    } else {
        proof {
            if i < n {
                lemma_lex_lt_total(w[i as int], s@);
                assert(lex_lt(s@, w[i as int]));
            }
        }
        v.insert(i, s.to_owned());
        proof {
            let nw = v@.map_values(|x: String| x@);
            assert(nw =~= w.insert(i as int, s@));
            assert(nw =~= w.take(i as int) + seq![s@] + w.skip(i as int));
            assert(strictly_sorted(nw)) by {
                assert forall|a: int, b: int| 0 <= a < b < nw.len() implies lex_lt(
                    nw[a],
                    nw[b],
                ) by {
                    let ii = i as int;
                    if b < ii {
                        assert(nw[a] == w[a]);
                        assert(nw[b] == w[b]);
                    } else if a < ii && b == ii {
                        assert(nw[a] == w[a]);
                    } else if a < ii && b > ii {
                        assert(nw[a] == w[a]);
                        assert(nw[b] == w[b - 1]);
                    } else if a == ii && b > ii {
                        assert(nw[b] == w[b - 1]);
                        if b - 1 == ii {
                            assert(lex_lt(s@, w[ii]));
                        } else {
                            lemma_lex_lt_transitive(s@, w[ii], w[b - 1]);
                        }
                    } else {
                        assert(nw[a] == w[a - 1]);
                        assert(nw[b] == w[b - 1]);
                    }
                }
            }
            assert(nw.to_set() =~= w.to_set().insert(s@)) by {
                assert forall|e: Seq<char>| nw.to_set().contains(e) implies w.to_set().insert(
                    s@,
                ).contains(e) by {
                    assert(nw.contains(e));
                    let k = choose|k: int| 0 <= k < nw.len() && nw[k] == e;
                    if k != i as int {
                        let k0 = if k < i as int {
                            k
                        } else {
                            k - 1
                        };
                        assert(w[k0] == e);
                        assert(w.contains(e));
                    }
                }
                assert forall|e: Seq<char>| w.to_set().insert(s@).contains(e) implies nw.to_set()
                    .contains(e) by {
                    if e == s@ {
                        assert(nw[i as int] == e);
                        assert(nw.contains(e));
                    } else {
                        assert(w.contains(e));
                        let k = choose|k: int| 0 <= k < w.len() && w[k] == e;
                        let k1 = if k < i as int {
                            k
                        } else {
                            k + 1
                        };
                        assert(nw[k1] == e);
                        assert(nw.contains(e));
                    }
                }
            }
            assert forall|k: int| 0 <= k < v@.len() implies (#[trigger] v@[k])@ == s@
                || w.contains(v@[k]@) by {
                assert(v@[k]@ == nw[k]);
                if k != i as int {
                    let k0 = if k < i as int {
                        k
                    } else {
                        k - 1
                    };
                    assert(w[k0] == nw[k]);
                }
            }
        }
    }
}

impl Pallets {
    /// Records one discovered `(category, unit)` pair: the unit joins the
    /// category's set (idempotently), and the category is created at its
    /// sorted position when it is new.
    pub fn insert_unit(&mut self, cat: &str, unit: &str)
        requires
            old(self).wf(),
            cat@.len() > 0,
            unit@.len() > 0,
        ensures
            final(self).wf(),
            final(self).catalog() == insert_unit_spec(old(self).catalog(), cat@, unit@),
    {
        let ghost w = old(self)@;
        let n = self.items.len();
        let mut i: usize = 0;
        loop
            invariant_except_break
                i <= n,
                n == self.items@.len(),
                self == old(self),
                w == self@,
                forall|k: int| 0 <= k < i as int ==> lex_lt(#[trigger] w[k].name, cat@),
            ensures
                i <= n,
                self == old(self),
                n == self.items@.len(),
                w == self@,
                forall|k: int| 0 <= k < i as int ==> lex_lt(#[trigger] w[k].name, cat@),
                i < n ==> !lex_lt(w[i as int].name, cat@),
            decreases n - i,
        {
            if i == n {
                break;
            }
            if !str_lt(self.items[i].name.as_str(), cat) {
                break;
            }
            i += 1;
        }
        proof {
            // Names are pairwise distinct: sortedness is strict.
            assert forall|a: int, b: int| 0 <= a < w.len() && 0 <= b < w.len() && a != b implies (
            #[trigger] w[a].name) != #[trigger] w[b].name by {
                if a < b {
                    crate::order::lemma_lex_lt_irreflexive(w[a].name);
                } else {
                    crate::order::lemma_lex_lt_irreflexive(w[b].name);
                }
            }
        }
        if i < n && str_eq(self.items[i].name.as_str(), cat) {
            let mut p = self.items.remove(i);
            let ghost old_pv = w[i as int];
            insert_sorted_string(&mut p.extrinsics, unit);
            proof {
                assert(p@.extrinsics.to_set() =~= old_pv.extrinsics.to_set().insert(unit@));
            }
            self.items.insert(i, p);
            proof {
                let pv = self.items@[i as int]@;
                assert(self@ =~= w.update(i as int, pv));
                assert(pv.name == old_pv.name);
                assert(pv.wf()) by {
                    assert forall|k: int|
                        0 <= k < pv.extrinsics.len() implies (#[trigger] pv.extrinsics[k]).len()
                        > 0 by {
                        if pv.extrinsics[k] != unit@ {
                            assert(old_pv.extrinsics.contains(pv.extrinsics[k]));
                            let m = choose|m: int|
                                0 <= m < old_pv.extrinsics.len() && old_pv.extrinsics[m]
                                    == pv.extrinsics[k];
                            assert(old_pv.extrinsics[m].len() > 0);
                        }
                    }
                }
                assert(self.wf()) by {
                    assert forall|a: int, b: int|
                        0 <= a < b < self@.len() implies lex_lt(
                        self@[a].name,
                        self@[b].name,
                    ) by {
                        assert(w[a].name == self@[a].name || a == i as int);
                        assert(w[b].name == self@[b].name || b == i as int);
                    }
                }
                lemma_catalog_map_update(w, i as int, pv);
                assert(old_pv.extrinsics.to_set() =~= {
                    let m = catalog_map(w);
                    if m.contains_key(cat@) {
                        m[cat@]
                    } else {
                        Set::empty()
                    }
                }) by {
                    lemma_catalog_map_lookup(w, i as int);
                }
                assert(self.catalog() =~= insert_unit_spec(catalog_map(w), cat@, unit@));
            }
        } else {
            proof {
                if i < n {
                    lemma_lex_lt_total(w[i as int].name, cat@);
                    assert(lex_lt(cat@, w[i as int].name));
                }
                assert forall|k: int| 0 <= k < w.len() implies (#[trigger] w[k].name)
                    != cat@ by {
                    if k < i as int {
                        crate::order::lemma_lex_lt_irreflexive(cat@);
                    } else if k == i as int {
                    } else {
                        lemma_lex_lt_transitive(cat@, w[i as int].name, w[k].name);
                        crate::order::lemma_lex_lt_irreflexive(cat@);
                    }
                }
            }
            let mut exts: Vec<String> = Vec::new();
            exts.push(unit.to_owned());
            let p = Pallet { name: cat.to_owned(), extrinsics: exts };
            proof {
                assert(p@.extrinsics =~= seq![unit@]);
            }
            self.items.insert(i, p);
            proof {
                let pv = self.items@[i as int]@;
                assert(self@ =~= w.insert(i as int, pv));
                assert(pv.wf());
                assert(self.wf()) by {
                    assert forall|a: int, b: int|
                        0 <= a < b < self@.len() implies lex_lt(
                        self@[a].name,
                        self@[b].name,
                    ) by {
                        let ii = i as int;
                        if b < ii {
                            assert(self@[a] == w[a]);
                            assert(self@[b] == w[b]);
                        } else if a < ii && b == ii {
                            assert(self@[a] == w[a]);
                            assert(self@[b as int].name == cat@);
                        } else if a < ii && b > ii {
                            assert(self@[a] == w[a]);
                            assert(self@[b] == w[b - 1]);
                        } else if a == ii && b > ii {
                            assert(self@[b] == w[b - 1]);
                            if b - 1 == ii {
                                assert(lex_lt(cat@, w[ii].name));
                            } else {
                                lemma_lex_lt_transitive(cat@, w[ii].name, w[b - 1].name);
                            }
                        } else {
                            assert(self@[a] == w[a - 1]);
                            assert(self@[b] == w[b - 1]);
                        }
                    }
                }
                lemma_catalog_map_insert(w, i as int, pv);
                assert(pv.extrinsics.to_set() =~= Set::<Seq<char>>::empty().insert(unit@)) by {
                    assert(pv.extrinsics =~= seq![unit@]);
                    assert(pv.extrinsics[0] == unit@);
                    assert(pv.extrinsics.contains(unit@));
                    assert forall|e: Seq<char>|
                        pv.extrinsics.to_set().contains(e) implies e == unit@ by {
                        let k = choose|k: int|
                            0 <= k < pv.extrinsics.len() && pv.extrinsics[k] == e;
                    }
                }
                assert(!catalog_map(w).contains_key(cat@)) by {
                    lemma_catalog_map_keys(w);
                }
                assert(self.catalog() =~= insert_unit_spec(catalog_map(w), cat@, unit@));
            }
        }
    }
}

/// Every key of the catalog mapping is the name of some category.
proof fn lemma_catalog_map_keys(ps: Seq<PalletView>)
    ensures
        forall|k: Seq<char>|
            catalog_map(ps).contains_key(k) ==> exists|i: int|
                0 <= i < ps.len() && (#[trigger] ps[i]).name == k,
    decreases ps.len(),
{
    if ps.len() > 0 {
        lemma_catalog_map_keys(ps.drop_last());
        assert forall|k: Seq<char>| catalog_map(ps).contains_key(k) implies exists|i: int|
            0 <= i < ps.len() && (#[trigger] ps[i]).name == k by {
            if k == ps.last().name {
                assert(ps[ps.len() - 1].name == k);
            } else {
                assert(catalog_map(ps.drop_last()).contains_key(k));
                let i = choose|i: int|
                    0 <= i < ps.drop_last().len() && (#[trigger] ps.drop_last()[i]).name == k;
                assert(ps[i].name == k);
            }
        }
    }
}

/// With pairwise-distinct names, the mapping's entry for a category's name is
/// exactly that category's unit set.
proof fn lemma_catalog_map_lookup(ps: Seq<PalletView>, i: int)
    requires
        0 <= i < ps.len(),
        forall|a: int, b: int|
            0 <= a < ps.len() && 0 <= b < ps.len() && a != b ==> (#[trigger] ps[a].name)
                != #[trigger] ps[b].name,
    ensures
        catalog_map(ps).contains_key(ps[i].name),
        catalog_map(ps)[ps[i].name] == ps[i].extrinsics.to_set(),
    decreases ps.len(),
{
    if i == ps.len() - 1 {
    } else {
        lemma_catalog_map_lookup(ps.drop_last(), i);
        assert(ps.drop_last()[i] == ps[i]);
        assert(ps.last().name != ps[i].name);
    }
}

} // verus!
