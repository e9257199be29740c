//! The execution runner: walks the filtered selection one unit at a time in
//! deterministic order, records the wall-clock measurement the caller hands
//! back for each invocation, aborts on the first failure, and renders the
//! report sorted by elapsed duration, longest first.

use vstd::prelude::*;

use crate::catalog::{views_of, Pallet, PalletView};
use crate::node::ExecFailure;

verus! {

/// One completed measurement: the qualified `category/unit` name and the
/// elapsed wall-clock time in nanoseconds.
pub struct Measurement {
    pub name: String,
    pub elapsed_nanos: u64,
}

/// Mathematical view of a measurement.
pub struct MeasurementView {
    pub name: Seq<char>,
    pub elapsed_nanos: u64,
}

impl View for Measurement {
    type V = MeasurementView;

    open spec fn view(&self) -> MeasurementView {
        MeasurementView { name: self.name@, elapsed_nanos: self.elapsed_nanos }
    }
}

/// The views of a sequence of measurements, in order.
pub open spec fn measurement_views(s: Seq<Measurement>) -> Seq<MeasurementView> {
    s.map_values(|m: Measurement| m@)
}

/// The qualified name of a unit: `category/unit`.
pub open spec fn qualified_spec(pallet: Seq<char>, ext: Seq<char>) -> Seq<char> {
    pallet + seq!['/'] + ext
}

/// Builds the qualified `category/unit` name.
pub fn qualified_name(pallet: &str, ext: &str) -> (r: String)
    ensures
        r@ == qualified_spec(pallet@, ext@),
{
    let mut s = pallet.to_owned();
    s.append("/");
    s.append(ext);
    proof {
        reveal_strlit("/");
        assert("/"@ =~= seq!['/']);
    }
    s
}

/// What the external crate renders for a duration of the given number of
/// milliseconds.
pub uninterp spec fn human_duration(millis: u64) -> Seq<char>;

/// Relies on humantime::format_duration: its rendering of a duration depends
/// on nothing but that duration, here given in whole milliseconds.
#[verifier::external_body]
fn human_millis(millis: u64) -> (r: String)
    ensures
        r@ == human_duration(millis),
{
    humantime::format_duration(core::time::Duration::from_millis(millis)).to_string()
}

/// Formats a duration of the given number of nanoseconds: floored to whole
/// milliseconds, then rendered in the short human-readable unit format.
pub fn format_duration(nanos: u64) -> (r: String)
    ensures
        r@ == human_duration(nanos / 1000000),
{
    human_millis(nanos / 1000000)
}

/// Formats a summed duration the same way; a sum too large for the formatter
/// keeps only the low 64 bits of its millisecond count, as a cast does.
pub fn format_duration_total(nanos: u128) -> (r: String)
    ensures
        r@ == human_duration(((nanos / 1000000) % 0x10000000000000000) as u64),
{
    let millis = ((nanos / 1000000) % 0x10000000000000000) as u64;
    human_millis(millis)
}

/// `n` spaces.
pub open spec fn spaces(n: int) -> Seq<char>
    decreases n,
{
    if n <= 0 {
        Seq::empty()
    } else {
        spaces(n - 1).push(' ')
    }
}

/// `s` padded with spaces on the right to at least width `w`.
pub open spec fn pad_right(s: Seq<char>, w: int) -> Seq<char> {
    if s.len() >= w {
        s
    } else {
        s + spaces(w - s.len())
    }
}

/// The report line for one measurement: the qualified name padded to the
/// fixed column width, then the elapsed duration floored to milliseconds.
pub open spec fn render_line_spec(name: Seq<char>, nanos: u64) -> Seq<char> {
    pad_right(name, 80) + ": "@ + human_duration(nanos / 1000000)
}

/// Pads a string with spaces on the right to at least width 80.
fn pad_to_column(s: &str) -> (r: String)
    ensures
        r@ == pad_right(s@, 80),
{
    let mut out = s.to_owned();
    let mut len = out.unicode_len();
    proof {
        reveal_strlit(" ");
        assert(" "@ =~= seq![' ']);
        assert(out@ =~= s@ + spaces(0));
    }
    while len < 80
        invariant
            len == out@.len(),
            out@ == s@ + spaces(len - s@.len()),
            s@.len() <= len,
            len <= 80 || len == s@.len(),
        decreases 80 - len,
    {
        out.append(" ");
        len = len + 1;
        proof {
            reveal_strlit(" ");
            assert(" "@ =~= seq![' ']);
            assert(out@ =~= s@ + spaces(len - s@.len()));
        }
    }
    proof {
        if s@.len() >= 80 {
            assert(out@ =~= s@);
        }
    }
    out
}

/// Renders the report line for one measurement, per [`render_line_spec`].
pub fn render_line(name: &str, elapsed_nanos: u64) -> (r: String)
    ensures
        r@ == render_line_spec(name@, elapsed_nanos),
{
    let mut out = pad_to_column(name);
    out.append(": ");
    let d = format_duration(elapsed_nanos);
    out.append(d.as_str());
    out
}

/// The report line that labels the summed duration.
pub fn sum_line(total_nanos: u128) -> (r: String)
    ensures
        r@ == pad_right("Sum"@, 80) + ": "@ + human_duration(
            ((total_nanos / 1000000) % 0x10000000000000000) as u64,
        ),
{
    let mut out = pad_to_column("Sum");
    out.append(": ");
    let d = format_duration_total(total_nanos);
    out.append(d.as_str());
    out
}

/// The sum of the elapsed durations, in nanoseconds.
pub open spec fn sum_nanos(s: Seq<MeasurementView>) -> int
    decreases s.len(),
{
    if s.len() == 0 {
        0int
    } else {
        sum_nanos(s.drop_last()) + s.last().elapsed_nanos
    }
}

/// Sums the elapsed durations of the measurements; no overflow is possible.
pub fn total_nanos(results: &Vec<Measurement>) -> (r: u128)
    ensures
        r as int == sum_nanos(measurement_views(results@)),
{
    let ghost w = measurement_views(results@);
    let n = results.len();
    let mut total: u128 = 0;
    let mut i: usize = 0;
    while i < n
        invariant
            i <= n,
            n == results@.len(),
            w == measurement_views(results@),
            total as int == sum_nanos(w.take(i as int)),
            total as int <= (i as int) * 0xffffffffffffffff,
        decreases n - i,
    {
        proof {
            assert(w.take(i as int + 1).drop_last() =~= w.take(i as int));
            assert(w.take(i as int + 1).last() == w[i as int]);
            assert((i as int + 1) * 0xffffffffffffffff == (i as int) * 0xffffffffffffffff
                + 0xffffffffffffffff) by (nonlinear_arith);
            assert((i as int) * 0xffffffffffffffff <= 0xffffffffffffffff
                * 0xffffffffffffffff) by (nonlinear_arith)
                requires
                    0 <= i as int <= 0xffffffffffffffff,
            ;
        }
        total = total + results[i].elapsed_nanos as u128;
        i += 1;
    }
    proof {
        assert(w.take(n as int) =~= w);
    }
    total
}

/// The measurements in non-increasing order of elapsed duration; ties keep
/// the order they already had.
pub open spec fn sorted_desc(s: Seq<MeasurementView>) -> bool {
    forall|i: int, j: int|
        0 <= i <= j < s.len() ==> s[i].elapsed_nanos >= s[j].elapsed_nanos
}

/// Inserts a measurement behind every element at least as slow: the step of
/// a stable insertion sort by descending elapsed duration.
pub open spec fn insert_desc(s: Seq<MeasurementView>, m: MeasurementView) -> Seq<MeasurementView>
    decreases s.len(),
{
    if s.len() == 0 {
        seq![m]
    } else if s.last().elapsed_nanos >= m.elapsed_nanos {
        s.push(m)
    } else {
        insert_desc(s.drop_last(), m).push(s.last())
    }
}

/// The stable sort of the measurements by descending elapsed duration.
pub open spec fn sort_desc(s: Seq<MeasurementView>) -> Seq<MeasurementView>
    decreases s.len(),
{
    if s.len() == 0 {
        Seq::empty()
    } else {
        insert_desc(sort_desc(s.drop_last()), s.last())
    }
}

/// The measurements with one particular elapsed duration.
pub open spec fn same_duration(d: u64) -> spec_fn(MeasurementView) -> bool {
    |mv: MeasurementView| mv.elapsed_nanos == d
}

proof fn lemma_insert_desc_ensures(s: Seq<MeasurementView>, m: MeasurementView)
    requires
        sorted_desc(s),
    ensures
        sorted_desc(insert_desc(s, m)),
        insert_desc(s, m).len() == s.len() + 1,
        insert_desc(s, m).to_multiset() == s.to_multiset().insert(m),
        forall|k: int|
            0 <= k < insert_desc(s, m).len() ==> #[trigger] insert_desc(s, m)[k] == m
                || s.contains(insert_desc(s, m)[k]),
    decreases s.len(),
{
    broadcast use vstd::seq_lib::group_to_multiset_ensures;
    broadcast use vstd::multiset::group_multiset_axioms;

    let r = insert_desc(s, m);
    if s.len() == 0 {
        assert(r =~= Seq::empty().push(m));
        assert(r.to_multiset() =~= s.to_multiset().insert(m));
        assert(r[0] == m);
    } else if s.last().elapsed_nanos >= m.elapsed_nanos {
        assert(forall|k: int| 0 <= k < s.len() ==> s.contains(#[trigger] s[k]));
    } else {
        let q = insert_desc(s.drop_last(), m);
        assert(sorted_desc(s.drop_last()));
        lemma_insert_desc_ensures(s.drop_last(), m);
        assert(r == q.push(s.last()));
        assert(sorted_desc(r)) by {
            assert forall|i: int, j: int|
                0 <= i <= j < r.len() implies r[i].elapsed_nanos >= r[j].elapsed_nanos by {
                if j < q.len() {
                } else {
                    assert(r[j] == s.last());
                    if i < q.len() {
                        if q[i] == m {
                        } else {
                            assert(s.drop_last().contains(q[i]));
                            let x = choose|x: int|
                                0 <= x < s.drop_last().len() && s.drop_last()[x] == q[i];
                            assert(s[x] == q[i]);
                            assert(s[x].elapsed_nanos >= s[s.len() - 1].elapsed_nanos);
                        }
                    }
                }
            }
        }
        assert(r.to_multiset() =~= s.to_multiset().insert(m)) by {
            assert(r.to_multiset() == q.to_multiset().insert(s.last()));
            assert(q.to_multiset() == s.drop_last().to_multiset().insert(m));
            assert(s.drop_last().push(s.last()) =~= s);
            assert(s.to_multiset() == s.drop_last().to_multiset().insert(s.last()));
        }
        assert forall|k: int| 0 <= k < r.len() implies #[trigger] r[k] == m || s.contains(
            r[k],
        ) by {
            if k < q.len() {
                if q[k] != m {
                    assert(s.drop_last().contains(q[k]));
                    let x = choose|x: int|
                        0 <= x < s.drop_last().len() && s.drop_last()[x] == q[k];
                    assert(s[x] == q[k]);
                }
            } else {
                assert(r[k] == s.last());
                assert(s[s.len() - 1] == s.last());
            }
        }
    }
}

proof fn lemma_insert_desc_filter(s: Seq<MeasurementView>, m: MeasurementView, d: u64)
    ensures
        insert_desc(s, m).filter(same_duration(d)) == if m.elapsed_nanos == d {
            s.filter(same_duration(d)).push(m)
        } else {
            s.filter(same_duration(d))
        },
    decreases s.len(),
{
    reveal(Seq::filter);
    let p = same_duration(d);
    let r = insert_desc(s, m);
    if s.len() == 0 {
        assert(r =~= Seq::empty().push(m));
        assert(r.drop_last() =~= Seq::<MeasurementView>::empty());
        assert(r.last() == m);
        assert(r.filter(p) == if p(m) {
            Seq::<MeasurementView>::empty().filter(p).push(m)
        } else {
            Seq::<MeasurementView>::empty().filter(p)
        });
        assert(Seq::<MeasurementView>::empty().filter(p) =~= Seq::empty());
        assert(s.filter(p) =~= Seq::empty());
    } else if s.last().elapsed_nanos >= m.elapsed_nanos {
        assert(r == s.push(m));
        assert(r.drop_last() =~= s);
        assert(r.last() == m);
        assert(r.filter(p) == if p(m) {
            s.filter(p).push(m)
        } else {
            s.filter(p)
        });
    } else {
        let q = insert_desc(s.drop_last(), m);
        lemma_insert_desc_filter(s.drop_last(), m, d);
        assert(r == q.push(s.last()));
        assert(r.drop_last() =~= q);
        assert(r.last() == s.last());
        assert(r.filter(p) == if p(s.last()) {
            q.filter(p).push(s.last())
        } else {
            q.filter(p)
        });
        assert(s.drop_last().push(s.last()) =~= s);
        assert(s.filter(p) == if p(s.last()) {
            s.drop_last().filter(p).push(s.last())
        } else {
            s.drop_last().filter(p)
        });
        if m.elapsed_nanos == d {
            // The displaced elements are strictly faster, so none has
            // duration `d`, and the filtered order is untouched.
            assert(!p(s.last()));
        }
    }
}

/// The laws of the report order. The sorted report is a permutation of the
/// measurements, in non-increasing order of elapsed duration, and stable:
/// the measurements of any one duration keep their original relative order.
pub proof fn lemma_sort_desc_properties(s: Seq<MeasurementView>)
    ensures
        sorted_desc(sort_desc(s)),
        sort_desc(s).len() == s.len(),
        sort_desc(s).to_multiset() == s.to_multiset(),
        forall|d: u64| #[trigger] sort_desc(s).filter(same_duration(d)) == s.filter(
            same_duration(d),
        ),
    decreases s.len(),
{
    broadcast use vstd::seq_lib::group_to_multiset_ensures;

    if s.len() == 0 {
    } else {
        lemma_sort_desc_properties(s.drop_last());
        lemma_insert_desc_ensures(sort_desc(s.drop_last()), s.last());
        assert(s.drop_last().push(s.last()) =~= s);
        assert(s.to_multiset() == s.drop_last().to_multiset().insert(s.last()));
        assert forall|d: u64| #[trigger] sort_desc(s).filter(same_duration(d)) == s.filter(
            same_duration(d),
        ) by {
            reveal(Seq::filter);
            lemma_insert_desc_filter(sort_desc(s.drop_last()), s.last(), d);
            assert(s.drop_last() == s.take(s.len() - 1));
        }
    }
}

/// Sorts the measurements by elapsed duration, longest first, with a stable
/// insertion sort, per [`sort_desc`].
pub fn sort_measurements(results: &Vec<Measurement>) -> (r: Vec<Measurement>)
    ensures
        measurement_views(r@) == sort_desc(measurement_views(results@)),
{
    let ghost w = measurement_views(results@);
    let n = results.len();
    let mut out: Vec<Measurement> = Vec::new();
    let mut i: usize = 0;
    while i < n
        invariant
            i <= n,
            n == results@.len(),
            w == measurement_views(results@),
            measurement_views(out@) == sort_desc(w.take(i as int)),
        decreases n - i,
    {
        proof {
            assert(w.take(i as int + 1).drop_last() =~= w.take(i as int));
            assert(w.take(i as int + 1).last() == w[i as int]);
            assert(measurement_views(results@)[i as int] == results@[i as int]@);
        }
        let m = Measurement {
            name: results[i].name.clone(),
            elapsed_nanos: results[i].elapsed_nanos,
        };
        proof {
            assert(m@ == w[i as int]);
        }
        insert_measurement(&mut out, m);
        i += 1;
    }
    proof {
        assert(w.take(n as int) =~= w);
    }
    out
}

/// Inserts one measurement behind every element at least as slow, per
/// [`insert_desc`].
fn insert_measurement(out: &mut Vec<Measurement>, m: Measurement)
    ensures
        measurement_views(final(out)@) == insert_desc(measurement_views(old(out)@), m@),
{
    let ghost w = measurement_views(old(out)@);
    let n = out.len();
    let mut j = n;
    proof {
        assert(measurement_views(out@).len() == out@.len());
    }
    while j > 0 && out[j - 1].elapsed_nanos < m.elapsed_nanos
        invariant
            j <= n,
            n == out@.len(),
            out@ == old(out)@,
            w == measurement_views(out@),
            forall|k: int| j as int <= k < n as int ==> (#[trigger] w[k]).elapsed_nanos
                < m@.elapsed_nanos,
        decreases j,
    {
        proof {
            assert(w[j as int - 1] == out@[j as int - 1]@);
        }
        j = j - 1;
    }
    proof {
        if j > 0 {
            assert(w[j as int - 1] == out@[j as int - 1]@);
            assert(w[j as int - 1].elapsed_nanos >= m@.elapsed_nanos);
        }
        lemma_insert_desc_at(w, m@, j as int);
    }
    out.insert(j, m);
    proof {
        let nw = measurement_views(out@);
        assert(nw =~= w.take(j as int).push(m@) + w.skip(j as int)) by {
            assert(nw.len() == out@.len());
            assert forall|k: int| 0 <= k < nw.len() implies #[trigger] nw[k] == (w.take(
                j as int,
            ).push(m@) + w.skip(j as int))[k] by {
                assert(nw[k] == out@[k]@);
                if k < j as int {
                    assert(out@[k] == old(out)@[k]);
                    assert(w[k] == old(out)@[k]@);
                } else if k == j as int {
                } else {
                    assert(out@[k] == old(out)@[k - 1]);
                    assert(w[k - 1] == old(out)@[k - 1]@);
                }
            }
        }
    }
}

/// Where the insertion lands: behind every element at least as slow.
proof fn lemma_insert_desc_at(s: Seq<MeasurementView>, m: MeasurementView, j: int)
    requires
        0 <= j <= s.len(),
        forall|k: int| j <= k < s.len() ==> (#[trigger] s[k]).elapsed_nanos < m.elapsed_nanos,
        j > 0 ==> s[j - 1].elapsed_nanos >= m.elapsed_nanos,
    ensures
        insert_desc(s, m) == s.take(j).push(m) + s.skip(j),
    decreases s.len(),
{
    if s.len() == 0 {
        assert(insert_desc(s, m) =~= s.take(j).push(m) + s.skip(j));
    } else if s.last().elapsed_nanos >= m.elapsed_nanos {
        assert(s[s.len() - 1] == s.last());
        assert(j == s.len());
        assert(s.take(j) =~= s);
        assert(insert_desc(s, m) =~= s.take(j).push(m) + s.skip(j));
    } else {
        assert(j < s.len()) by {
            if j == s.len() {
                assert(s[j - 1] == s.last());
            }
        }
        lemma_insert_desc_at(s.drop_last(), m, j);
        assert(s.drop_last().take(j) =~= s.take(j));
        assert(insert_desc(s, m) == (s.drop_last().take(j).push(m) + s.drop_last().skip(j)).push(
            s.last(),
        ));
        assert(insert_desc(s, m) =~= s.take(j).push(m) + s.skip(j));
    }
}

/// How a single-unit execution failed, with everything the report needs.
#[derive(Debug)]
pub struct ExecutionError {
    /// The qualified name of the unit whose invocation failed.
    pub name: String,
    /// What was violated: the exit status, or the empty-stdout contract.
    pub failure: ExecFailure,
    /// The exit status, as the caller rendered it.
    pub status: String,
    /// The captured standard-error text.
    pub stderr: String,
}

impl ExecutionError {
    /// The human-readable message for this failure.
    pub open spec fn message_spec(self) -> Seq<char> {
        "Failed to execute: "@ + self.name@ + ": "@ + if self.failure is NonZeroStatus {
            "Benchmark returned non zero exit status: "@ + self.status@ + ". stderr:\n"@
                + self.stderr@
        } else {
            "Stdout should never return anything (it is directed to /dev/null)"@
        }
    }

    pub fn message(&self) -> (r: String)
        ensures
            r@ == self.message_spec(),
    {
        let mut out = "Failed to execute: ".to_owned();
        out.append(self.name.as_str());
        out.append(": ");
        match self.failure {
            ExecFailure::NonZeroStatus => {
                out.append("Benchmark returned non zero exit status: ");
                out.append(self.status.as_str());
                out.append(". stderr:\n");
                out.append(self.stderr.as_str());
            },
            ExecFailure::UnexpectedStdout => {
                out.append("Stdout should never return anything (it is directed to /dev/null)");
            },
        }
        out
    }
}

/// The `(category, unit)` pairs of a selection, in its order: categories as
/// selected, units in their per-category order.
pub open spec fn with_name(name: Seq<char>, exts: Seq<Seq<char>>) -> Seq<(Seq<char>, Seq<char>)> {
    exts.map_values(|e: Seq<char>| (name, e))
}

pub open spec fn pairs_of(sel: Seq<PalletView>) -> Seq<(Seq<char>, Seq<char>)>
    decreases sel.len(),
{
    if sel.len() == 0 {
        Seq::empty()
    } else {
        pairs_of(sel.drop_last()) + with_name(sel.last().name, sel.last().extrinsics)
    }
}

/// The views of the pending unit pairs.
pub open spec fn units_seq(units: Seq<(String, String)>) -> Seq<(Seq<char>, Seq<char>)> {
    units.map_values(|u: (String, String)| (u.0@, u.1@))
}

/// The runner's per-run state: the flattened unit pairs, how many have run,
/// and the measurements collected so far. A failure aborts the run, so every
/// finished unit has exactly one measurement, under its qualified name.
pub struct Runner {
    pub units: Vec<(String, String)>,
    pub next: usize,
    pub results: Vec<Measurement>,
}

impl Runner {
    pub open spec fn units_view(&self) -> Seq<(Seq<char>, Seq<char>)> {
        units_seq(self.units@)
    }

    pub open spec fn results_view(&self) -> Seq<MeasurementView> {
        measurement_views(self.results@)
    }

    pub open spec fn wf(&self) -> bool {
        &&& self.next as int <= self.units@.len()
        &&& self.results@.len() == self.next as int
        &&& forall|k: int|
            0 <= k < self.next as int ==> (#[trigger] self.results_view()[k]).name
                == qualified_spec(self.units_view()[k].0, self.units_view()[k].1)
    }

    /// Every unit of the selection is pending, in order; nothing has run.
    pub fn new(selection: &Vec<Pallet>) -> (r: Runner)
        ensures
            r.wf(),
            r.units_view() == pairs_of(views_of(selection@)),
            r.next == 0,
            r.results@.len() == 0,
    {
        let ghost sv = views_of(selection@);
        let n = selection.len();
        let mut units: Vec<(String, String)> = Vec::new();
        let mut i: usize = 0;
        while i < n
            invariant
                i <= n,
                n == selection@.len(),
                sv == views_of(selection@),
                units_seq(units@) == pairs_of(sv.take(i as int)),
            decreases n - i,
        {
            proof {
                assert(sv.take(i as int + 1).drop_last() =~= sv.take(i as int));
                assert(sv.take(i as int + 1).last() == sv[i as int]);
                assert(views_of(selection@)[i as int] == selection@[i as int]@);
            }
            let m = selection[i].extrinsics.len();
            let mut j: usize = 0;
            while j < m
                invariant
                    j <= m,
                    i < n,
                    n == selection@.len(),
                    sv == views_of(selection@),
                    m == selection@[i as int].extrinsics@.len(),
                    sv[i as int] == selection@[i as int]@,
                    units_seq(units@) == pairs_of(sv.take(i as int)) + with_name(
                        sv[i as int].name,
                        sv[i as int].extrinsics.take(j as int),
                    ),
                decreases m - j,
            {
                let ghost u0 = units@;
                let pair = (selection[i].name.clone(), selection[i].extrinsics[j].clone());
                proof {
                    assert(sv[i as int].extrinsics[j as int] == selection@[i as
                        int].extrinsics@[j as int]@);
                    assert((pair.0@, pair.1@) == (sv[i as int].name, sv[i as int].extrinsics[j as
                        int]));
                }
                units.push(pair);
                proof {
                    let tail_new = with_name(
                        sv[i as int].name,
                        sv[i as int].extrinsics.take(j as int + 1),
                    );
                    let tail_old = with_name(
                        sv[i as int].name,
                        sv[i as int].extrinsics.take(j as int),
                    );
                    assert(units_seq(units@).len() == units@.len());
                    assert(units_seq(u0).len() == u0.len());
                    assert(units_seq(units@) =~= pairs_of(sv.take(i as int)) + tail_new) by {
                        assert forall|k: int| 0 <= k < units@.len() implies #[trigger] units_seq(
                            units@,
                        )[k] == (pairs_of(sv.take(i as int)) + tail_new)[k] by {
                            assert(units_seq(units@)[k] == (units@[k].0@, units@[k].1@));
                            if k < u0.len() {
                                assert(units@[k] == u0[k]);
                                assert(units_seq(u0)[k] == (u0[k].0@, u0[k].1@));
                            } else {
                                assert(units@[k] == pair);
                            }
                        }
                    }
                }
                j += 1;
            }
            proof {
                assert(sv[i as int].extrinsics.take(m as int) =~= sv[i as int].extrinsics);
                assert(units_seq(units@) =~= pairs_of(sv.take(i as int + 1)));
            }
            i += 1;
        }
        proof {
            assert(sv.take(n as int) =~= sv);
        }
        let r = Runner { units, next: 0, results: Vec::new() };
        proof {
            assert(r.results_view() =~= Seq::<MeasurementView>::empty());
        }
        r
    }

    /// How many units the run comprises, for progress reporting.
    pub fn total_units(&self) -> (r: usize)
        ensures
            r as int == self.units_view().len(),
    {
        self.units.len()
    }

    /// The next pending unit, as a `(category, unit)` pair, if any is left.
    pub fn next_unit(&self) -> (r: Option<(String, String)>)
        requires
            self.wf(),
        ensures
            match r {
                Option::Some(u) => {
                    &&& (self.next as int) < self.units_view().len()
                    &&& u.0@ == self.units_view()[self.next as int].0
                    &&& u.1@ == self.units_view()[self.next as int].1
                },
                Option::None => self.next as int == self.units_view().len(),
            },
    {
        if self.next < self.units.len() {
            let u = (self.units[self.next].0.clone(), self.units[self.next].1.clone());
            Some(u)
        } else {
            None
        }
    }

    /// Records what the invocation of the current unit returned. On a zero
    /// exit status with empty standard output, the measurement is appended
    /// under the unit's qualified name and its report line is returned; any
    /// violation aborts the run with an error naming the unit, and the state
    /// is unchanged.
    pub fn record(
        &mut self,
        status_ok: bool,
        stdout: &Vec<u8>,
        status: String,
        stderr: String,
        elapsed_nanos: u64,
    ) -> (r: Result<String, ExecutionError>)
        requires
            old(self).wf(),
            (old(self).next as int) < old(self).units@.len(),
        ensures
            final(self).wf(),
            final(self).units_view() == old(self).units_view(),
            ({
                let name = qualified_spec(
                    old(self).units_view()[old(self).next as int].0,
                    old(self).units_view()[old(self).next as int].1,
                );
                if status_ok && stdout@.len() == 0 {
                    &&& final(self).next as int == old(self).next as int + 1
                    &&& final(self).results_view() == old(self).results_view().push(
                        MeasurementView { name, elapsed_nanos },
                    )
                    &&& r matches Result::Ok(line) && line@ == render_line_spec(
                        name,
                        elapsed_nanos,
                    )
                } else {
                    &&& *final(self) == *old(self)
                    &&& r matches Result::Err(e) && e.name@ == name && e.status == status
                        && e.stderr == stderr && e.failure == (if !status_ok {
                        ExecFailure::NonZeroStatus
                    } else {
                        ExecFailure::UnexpectedStdout
                    })
                }
            }),
    {
        let n = self.units.len();
        let name = qualified_name(self.units[self.next].0.as_str(), self.units[self.next].1.as_str());
        proof {
            assert(self.next < n);
        }
        match crate::node::judge_execution(status_ok, stdout) {
            Ok(()) => {
                let line = render_line(name.as_str(), elapsed_nanos);
                let ghost r0 = self.results_view();
                self.results.push(Measurement { name, elapsed_nanos });
                self.next = self.next + 1;
                proof {
                    let ghost rn = self.results_view();
                    assert(rn =~= r0.push(self.results@[self.results@.len() - 1]@)) by {
                        assert forall|k: int| 0 <= k < rn.len() implies #[trigger] rn[k] == r0.push(
                            self.results@[self.results@.len() - 1]@,
                        )[k] by {
                            assert(rn[k] == self.results@[k]@);
                            if k < r0.len() {
                                assert(self.results@[k] == old(self).results@[k]);
                                assert(r0[k] == old(self).results@[k]@);
                            }
                        }
                    }
                }
                Ok(line)
            },
            Err(failure) => {
                Err(ExecutionError { name, failure, status, stderr })
            },
        }
    }

    /// Whether every unit has run.
    pub fn finished(&self) -> (r: bool)
        ensures
            r == (self.next as int == self.units@.len()),
    {
        self.next == self.units.len()
    }
}

} // verus!
