//! The filter engine: narrows a catalog to the categories and units a caller
//! requested, or rejects an invalid request.

use vstd::prelude::*;

use crate::catalog::{views_of, Pallet, PalletView, Pallets};
use crate::order::str_eq;

verus! {

/// Why a filtering request was rejected.
#[derive(Clone, Copy, Debug, PartialEq, Eq, Structural)]
pub enum FilterError {
    /// No category matched the request, or the catalog itself was empty.
    PalletNotFound,
    /// A unit filter was supplied while more than one category was selected.
    ExtrinsicWithoutPallet,
    /// The selected category does not contain the requested unit.
    ExtrinsicNotFound,
}

impl FilterError {
    /// The rejection concerns a name that does not exist in the catalog.
    pub open spec fn is_not_found(self) -> bool {
        self is PalletNotFound || self is ExtrinsicNotFound
    }

    /// The rejection concerns a request that is invalid in itself.
    pub open spec fn is_invalid_request(self) -> bool {
        self is ExtrinsicWithoutPallet
    }

    /// The human-readable message for this rejection.
    pub fn message(&self) -> (r: String)
        ensures
            *self is PalletNotFound ==> r@ == "Pallet not found"@,
            *self is ExtrinsicWithoutPallet ==> r@
                == "An exernality can only be supplied when also filtering the pallets"@,
            *self is ExtrinsicNotFound ==> r@ == "Extrinsic not found"@,
    {
        match self {
            FilterError::PalletNotFound => "Pallet not found".to_owned(),
            FilterError::ExtrinsicWithoutPallet => {
                "An exernality can only be supplied when also filtering the pallets".to_owned()
            },
            FilterError::ExtrinsicNotFound => "Extrinsic not found".to_owned(),
        }
    }
}

/// The view of an optional filter argument.
pub open spec fn opt_view(o: Option<&str>) -> Option<Seq<char>> {
    match o {
        Option::None => Option::None,
        Option::Some(s) => Option::Some(s@),
    }
}

/// The categories selected by an optional category filter: all of them, or
/// exactly those whose name matches.
pub open spec fn spec_selected(ps: Seq<PalletView>, pallet: Option<Seq<char>>) -> Seq<
    PalletView,
> {
    match pallet {
        Option::None => ps,
        Option::Some(p) => ps.filter(|pv: PalletView| pv.name == p),
    }
}

/// What filtering a catalog returns: the selected categories (narrowed to a
/// single unit when a unit filter is given), or the rejection.
pub open spec fn spec_filtered(
    ps: Seq<PalletView>,
    pallet: Option<Seq<char>>,
    ext: Option<Seq<char>>,
) -> Result<Seq<PalletView>, FilterError> {
    let sel = spec_selected(ps, pallet);
    if sel.len() == 0 {
        Result::Err(FilterError::PalletNotFound)
    } else {
        match ext {
            Option::None => Result::Ok(sel),
            Option::Some(e) => {
                if sel.len() != 1 {
                    Result::Err(FilterError::ExtrinsicWithoutPallet)
                } else if !sel[0].extrinsics.contains(e) {
                    Result::Err(FilterError::ExtrinsicNotFound)
                } else {
                    Result::Ok(seq![PalletView { name: sel[0].name, extrinsics: seq![e] }])
                }
            },
        }
    }
}

/// The view of a filtering result.
pub open spec fn filtered_view(r: Result<Vec<Pallet>, FilterError>) -> Result<
    Seq<PalletView>,
    FilterError,
> {
    match r {
        Result::Ok(v) => Result::Ok(views_of(v@)),
        Result::Err(e) => Result::Err(e),
    }
}

/// Decides whether a vector of strings contains the given string.
fn contains_string(v: &Vec<String>, s: &str) -> (r: bool)
    ensures
        r == v@.map_values(|x: String| x@).contains(s@),
{
    let ghost w = v@.map_values(|x: String| x@);
    let n = v.len();
    let mut i: usize = 0;
    while i < n
        invariant
            i <= n,
            n == v@.len(),
            w == v@.map_values(|x: String| x@),
            forall|k: int| 0 <= k < i as int ==> #[trigger] w[k] != s@,
        decreases n - i,
    {
        if str_eq(v[i].as_str(), s) {
            proof {
                assert(w[i as int] == s@);
            }
            return true;
        }
        i += 1;
    }
    proof {
        if w.contains(s@) {
            let k = choose|k: int| 0 <= k < w.len() && w[k] == s@;
        }
    }
    false
}

impl Pallets {
    /// Narrows the catalog by an optional category filter and an optional
    /// unit filter, per [`spec_filtered`]: with no category filter every
    /// category is selected; a category filter selects exactly the category
    /// of that name or fails as not found; an empty selection fails as not
    /// found; a unit filter demands a single selected category and a unit of
    /// that category, and narrows it to that single unit.
    pub fn filtered(&self, pallet: Option<&str>, ext: Option<&str>) -> (r: Result<
        Vec<Pallet>,
        FilterError,
    >)
        requires
            self.wf(),
        ensures
            filtered_view(r) == spec_filtered(self@, opt_view(pallet), opt_view(ext)),
            r matches Result::Ok(v) ==> forall|i: int|
                0 <= i < v@.len() ==> (#[trigger] v@[i]@).wf(),
    {
        let n = self.items.len();
        let mut sel: Vec<Pallet> = Vec::new();
        match pallet {
            Some(p) => {
                let ghost pred = |pv: PalletView| pv.name == p@;
                let mut i: usize = 0;
                while i < n
                    invariant
                        i <= n,
                        n == self@.len(),
                        self.wf(),
                        pred == (|pv: PalletView| pv.name == p@),
                        views_of(sel@) =~= self@.take(i as int).filter(pred),
                        forall|k: int| 0 <= k < sel@.len() ==> (#[trigger] sel@[k]@).wf(),
                    decreases n - i,
                {
                    let ghost prefix = self@.take(i as int);
                    let ghost sel0 = sel@;
                    proof {
                        reveal(Seq::filter);
                        assert(self@.take(i as int + 1).drop_last() =~= prefix);
                        assert(self@.take(i as int + 1).last() == self@[i as int]);
                    }
                    if str_eq(self.items[i].name.as_str(), p) {
                        sel.push(self.items[i].duplicate());
                        proof {
                            reveal(Seq::filter);
                            assert(pred(self@[i as int]));
                            assert(self@.take(i as int + 1).filter(pred) == prefix.filter(
                                pred,
                            ).push(self@[i as int]));
                            assert(sel@ == sel0.push(sel@[sel0.len() as int]));
                            assert(views_of(self.items@)[i as int] == self.items@[i as int]@);
                            assert(sel@[sel0.len() as int]@ == self@[i as int]);
                            assert(views_of(sel@) =~= prefix.filter(pred).push(
                                self@[i as int],
                            )) by {
                                assert forall|k: int| 0 <= k < sel@.len() implies #[trigger]
                                    views_of(sel@)[k] == views_of(sel0).push(
                                    self@[i as int],
                                )[k] by {
                                    assert(views_of(sel@)[k] == sel@[k]@);
                                    if k < sel0.len() {
                                        assert(sel@[k] == sel0[k]);
                                        assert(views_of(sel0)[k] == sel0[k]@);
                                    }
                                }
                            }
                        }
                    } else {
                        proof {
                            reveal(Seq::filter);
                            assert(!pred(self@[i as int]));
                            assert(self@.take(i as int + 1).filter(pred) == prefix.filter(pred));
                        }
                    }
                    i += 1;
                }
                proof {
                    assert(self@.take(n as int) =~= self@);
                }
            },
            None => {
                let mut i: usize = 0;
                while i < n
                    invariant
                        i <= n,
                        n == self@.len(),
                        self.wf(),
                        views_of(sel@) =~= self@.take(i as int),
                        forall|k: int| 0 <= k < sel@.len() ==> (#[trigger] sel@[k]@).wf(),
                    decreases n - i,
                {
                    let ghost sel0 = sel@;
                    sel.push(self.items[i].duplicate());
                    proof {
                        assert(sel@ == sel0.push(sel@[sel0.len() as int]));
                        assert(views_of(self.items@)[i as int] == self.items@[i as int]@);
                        assert(sel@[sel0.len() as int]@ == self@[i as int]);
                        assert(views_of(sel0).len() == sel0.len());
                        assert(views_of(sel0) =~= self@.take(i as int));
                        assert(sel0.len() == i as int);
                        assert(sel@.len() == i as int + 1);
                        assert(views_of(sel@).len() == i as int + 1);
                        assert(views_of(sel@) =~= self@.take(i as int + 1)) by {
                            assert forall|k: int|
                                0 <= k < i as int + 1 implies #[trigger] views_of(sel@)[k]
                                == self@.take(i as int + 1)[k] by {
                                assert(views_of(sel@)[k] == sel@[k]@);
                                assert(self@.take(i as int + 1)[k] == self@[k]);
                                if k < i as int {
                                    assert(sel@[k] == sel0[k]);
                                    assert(views_of(sel0)[k] == sel0[k]@);
                                    assert(views_of(sel0)[k] == self@.take(i as int)[k]);
                                    assert(self@.take(i as int)[k] == self@[k]);
                                } else {
                                    assert(k == i as int);
                                    assert(sel@[k]@ == self@[i as int]);
                                }
                            }
                        }
                    }
                    i += 1;
                }
                proof {
                    assert(self@.take(n as int) =~= self@);
                }
            },
        }
        let ghost sel_spec = spec_selected(self@, opt_view(pallet));
        proof {
            assert(views_of(sel@) == sel_spec);
        }
        if sel.len() == 0 {
            return Err(FilterError::PalletNotFound);
        }
        match ext {
            None => Ok(sel),
            Some(e) => {
                if sel.len() != 1 {
                    Err(FilterError::ExtrinsicWithoutPallet)
                } else if !contains_string(&sel[0].extrinsics, e) {
                    proof {
                        assert(sel@[0]@ == sel_spec[0]);
                    }
                    Err(FilterError::ExtrinsicNotFound)
                } else {
                    let name = sel[0].name.clone();
                    let mut exts: Vec<String> = Vec::new();
                    exts.push(e.to_owned());
                    let narrowed = Pallet { name, extrinsics: exts };
                    let mut out: Vec<Pallet> = Vec::new();
                    out.push(narrowed);
                    proof {
                        assert(sel@[0]@ == sel_spec[0]);
                        assert(out@[0]@.extrinsics =~= seq![e@]);
                        assert(views_of(out@) =~= seq![
                            PalletView { name: sel_spec[0].name, extrinsics: seq![e@] },
                        ]);
                        assert(out@[0]@.wf()) by {
                            assert(sel_spec[0].extrinsics.contains(e@));
                            let k = choose|k: int|
                                0 <= k < sel_spec[0].extrinsics.len() && sel_spec[0].extrinsics[k]
                                    == e@;
                            assert(sel_spec[0].extrinsics[k].len() > 0);
                        }
                    }
                    Ok(out)
                }
            },
        }
    }
}

/// With no category and no unit filter, filtering returns every category
/// with its full unit set; only an empty catalog is rejected, as not found.
pub proof fn lemma_filter_no_filters(ps: Seq<PalletView>)
    ensures
        ps.len() == 0 ==> spec_filtered(ps, Option::None, Option::None) == Result::<
            Seq<PalletView>,
            FilterError,
        >::Err(FilterError::PalletNotFound),
        ps.len() > 0 ==> spec_filtered(ps, Option::None, Option::None) == Result::<
            Seq<PalletView>,
            FilterError,
        >::Ok(ps),
{
}

/// A unit filter without a category filter is an invalid request whenever
/// more than one category exists.
pub proof fn lemma_unit_filter_needs_category(ps: Seq<PalletView>, e: Seq<char>)
    requires
        ps.len() >= 2,
    ensures
        spec_filtered(ps, Option::None, Option::Some(e)) == Result::<
            Seq<PalletView>,
            FilterError,
        >::Err(FilterError::ExtrinsicWithoutPallet),
{
}

/// Filtering by a predicate nothing satisfies selects nothing.
proof fn lemma_filter_none(ps: Seq<PalletView>, pred: spec_fn(PalletView) -> bool)
    requires
        forall|i: int| 0 <= i < ps.len() ==> !pred(#[trigger] ps[i]),
    ensures
        ps.filter(pred) == Seq::<PalletView>::empty(),
    decreases ps.len(),
{
    reveal(Seq::filter);
    if ps.len() > 0 {
        assert(ps[ps.len() - 1] == ps.last());
        lemma_filter_none(ps.drop_last(), pred);
    }
}

/// Filtering by a predicate that exactly one element satisfies selects
/// exactly that element.
proof fn lemma_filter_single(ps: Seq<PalletView>, pred: spec_fn(PalletView) -> bool, i: int)
    requires
        0 <= i < ps.len(),
        pred(ps[i]),
        forall|k: int| 0 <= k < ps.len() && k != i ==> !pred(#[trigger] ps[k]),
    ensures
        ps.filter(pred) == seq![ps[i]],
    decreases ps.len(),
{
    reveal(Seq::filter);
    if i == ps.len() - 1 {
        lemma_filter_none(ps.drop_last(), pred);
        assert(ps.filter(pred) =~= seq![ps[i]]);
    } else {
        assert(ps[ps.len() - 1] == ps.last());
        lemma_filter_single(ps.drop_last(), pred, i);
        assert(ps.drop_last()[i] == ps[i]);
    }
}

/// Filtering with a category name that no category bears is rejected as not
/// found, whatever the unit filter says.
pub proof fn lemma_missing_category_not_found(
    ps: Seq<PalletView>,
    p: Seq<char>,
    ext: Option<Seq<char>>,
)
    requires
        forall|i: int| 0 <= i < ps.len() ==> (#[trigger] ps[i]).name != p,
    ensures
        spec_filtered(ps, Option::Some(p), ext) == Result::<Seq<PalletView>, FilterError>::Err(
            FilterError::PalletNotFound,
        ),
{
    lemma_filter_none(ps, |pv: PalletView| pv.name == p);
}

/// A category filter matching exactly one category, combined with a unit
/// filter matching a unit of that category, yields exactly that category
/// narrowed to a unit set of size one.
pub proof fn lemma_single_category_unit(ps: Seq<PalletView>, i: int, e: Seq<char>)
    requires
        0 <= i < ps.len(),
        forall|k: int| 0 <= k < ps.len() && k != i ==> (#[trigger] ps[k]).name != ps[i].name,
        ps[i].extrinsics.contains(e),
    ensures
        spec_filtered(ps, Option::Some(ps[i].name), Option::Some(e)) == Result::<
            Seq<PalletView>,
            FilterError,
        >::Ok(seq![PalletView { name: ps[i].name, extrinsics: seq![e] }]),
{
    lemma_filter_single(ps, |pv: PalletView| pv.name == ps[i].name, i);
}

} // verus!

