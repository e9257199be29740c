//! The catalog parser: turns the external binary's textual listing into a
//! structured catalog. The first line is a header and is discarded; every
//! further line of the form `<category>, <unit>` (split at the first `", "`
//! with text on both sides) contributes one pair; other lines are skipped.

use vstd::prelude::*;

use crate::catalog::{catalog_map, insert_unit_spec, Pallets};

verus! {

/// The index of the first newline at or after `i`, if any.
pub open spec fn nl_index_from(t: Seq<char>, i: int) -> Option<int>
    decreases t.len() - i,
{
    if i < 0 || i >= t.len() {
        Option::None
    } else if t[i] == '\n' {
        Option::Some(i)
    } else {
        nl_index_from(t, i + 1)
    }
}

/// A line with a trailing carriage return removed.
pub open spec fn strip_cr(line: Seq<char>) -> Seq<char> {
    if line.len() > 0 && line.last() == '\r' {
        line.drop_last()
    } else {
        line
    }
}

/// A found newline index lies within the text, at or after where the search
/// began.
pub proof fn lemma_nl_index_bounds(t: Seq<char>, i0: int)
    ensures
        nl_index_from(t, i0) matches Option::Some(j) ==> i0 <= j < t.len() && t[j] == '\n',
    decreases t.len() - i0,
{
    if 0 <= i0 < t.len() && t[i0] != '\n' {
        lemma_nl_index_bounds(t, i0 + 1);
    }
}

/// The lines of a text, split at `'\n'` with a `'\r'` before the split
/// removed; a final line ending is optional.
pub open spec fn split_lines(t: Seq<char>) -> Seq<Seq<char>>
    decreases t.len(),
        via split_lines_decreases
{
    if t.len() == 0 {
        Seq::empty()
    } else {
        match nl_index_from(t, 0) {
            Option::None => seq![t],
            Option::Some(i) => seq![strip_cr(t.take(i))] + split_lines(t.skip(i + 1)),
        }
    }
}

#[via_fn]
proof fn split_lines_decreases(t: Seq<char>) {
    lemma_nl_index_bounds(t, 0);
}

/// The index of the first `", "` separator at or after `i` that leaves at
/// least one character on each side, if any.
pub open spec fn sep_index_from(line: Seq<char>, i: int) -> Option<int>
    decreases line.len() - i,
{
    if i < 1 || i + 2 >= line.len() {
        Option::None
    } else if line[i] == ',' && line[i + 1] == ' ' {
        Option::Some(i)
    } else {
        sep_index_from(line, i + 1)
    }
}

/// What one listing line contributes: the category before the first `", "`
/// and the unit after it, or nothing when the line does not match.
pub open spec fn parse_line_spec(line: Seq<char>) -> Option<(Seq<char>, Seq<char>)> {
    match sep_index_from(line, 1) {
        Option::None => Option::None,
        Option::Some(i) => Option::Some((line.take(i), line.skip(i + 2))),
    }
}

/// The catalog mapping that a sequence of listing lines denotes.
pub open spec fn catalog_of_lines(ls: Seq<Seq<char>>) -> Map<Seq<char>, Set<Seq<char>>>
    decreases ls.len(),
{
    if ls.len() == 0 {
        Map::empty()
    } else {
        let m = catalog_of_lines(ls.drop_last());
        match parse_line_spec(ls.last()) {
            Option::None => m,
            Option::Some((cat, unit)) => insert_unit_spec(m, cat, unit),
        }
    }
}

/// The lines of a listing that carry data: all but the header line.
pub open spec fn listing_lines(t: Seq<char>) -> Seq<Seq<char>> {
    let ls = split_lines(t);
    if ls.len() == 0 {
        ls
    } else {
        ls.skip(1)
    }
}

/// The catalog mapping a whole listing text denotes.
pub open spec fn spec_catalog(t: Seq<char>) -> Map<Seq<char>, Set<Seq<char>>> {
    catalog_of_lines(listing_lines(t))
}

/// Finds the first newline at or after `from`.
fn next_newline(s: &str, from: usize) -> (r: Option<usize>)
    ensures
        match r {
            Option::Some(j) => nl_index_from(s@, from as int) == Option::Some(j as int) && from
                <= j < s@.len(),
            Option::None => nl_index_from(s@, from as int) is None,
        },
{
    let n = s.unicode_len();
    let mut i = from;
    loop
        invariant_except_break
            from <= i,
            n == s@.len(),
            nl_index_from(s@, from as int) == nl_index_from(s@, i as int),
        ensures
            n == s@.len(),
            from <= i,
            i < n ==> nl_index_from(s@, from as int) == Option::Some(i as int),
            i >= n ==> nl_index_from(s@, from as int) is None,
        decreases n - i,
    {
        if i >= n {
            break;
        }
        if s.get_char(i) == '\n' {
            break;
        }
        proof {
            assert(nl_index_from(s@, i as int) == nl_index_from(s@, i as int + 1));
        }
        i += 1;
    }
    if i < n {
        Some(i)
    } else {
        None
    }
}

/// Finds the first `", "` separator of a line, per [`sep_index_from`].
fn find_sep(line: &str) -> (r: Option<usize>)
    ensures
        match r {
            Option::Some(j) => {
                &&& sep_index_from(line@, 1) == Option::Some(j as int)
                &&& 1 <= j
                &&& j + 2 < line@.len()
                &&& line@[j as int] == ','
                &&& line@[j as int + 1] == ' '
            },
            Option::None => sep_index_from(line@, 1) is None,
        },
{
    let n = line.unicode_len();
    let mut i: usize = 1;
    loop
        invariant_except_break
            1 <= i,
            n == line@.len(),
            sep_index_from(line@, 1) == sep_index_from(line@, i as int),
        ensures
            n == line@.len(),
            1 <= i,
            i + 2 < n ==> sep_index_from(line@, 1) == Option::Some(i as int) && line@[i as int]
                == ',' && line@[i as int + 1] == ' ',
            i + 2 >= n ==> sep_index_from(line@, 1) is None,
        decreases n - i,
    {
        if i >= n || n - i <= 2 {
            break;
        }
        if line.get_char(i) == ',' && line.get_char(i + 1) == ' ' {
            break;
        }
        proof {
            assert(sep_index_from(line@, i as int) == sep_index_from(line@, i as int + 1));
        }
        i += 1;
    }
    if i < n && n - i > 2 {
        Some(i)
    } else {
        None
    }
}

impl Pallets {
    /// Parses the listing text into a catalog whose mapping is exactly what
    /// the text denotes, with categories and units in sorted order.
    pub fn parse_listing(text: &str) -> (r: Pallets)
        ensures
            r.wf(),
            r.catalog() == spec_catalog(text@),
    {
        let mut pallets = Pallets::empty();
        let mut rest: &str = text;
        let mut first = true;
        let ghost mut done: Seq<Seq<char>> = Seq::empty();
        loop
            invariant_except_break
                pallets.wf(),
                split_lines(text@) =~= done + split_lines(rest@),
                first == (done.len() == 0),
                done.len() == 0 ==> pallets@.len() == 0,
                done.len() >= 1 ==> pallets.catalog() == catalog_of_lines(done.skip(1)),
            ensures
                pallets.wf(),
                split_lines(text@) =~= done,
                done.len() == 0 ==> pallets@.len() == 0,
                done.len() >= 1 ==> pallets.catalog() == catalog_of_lines(done.skip(1)),
            decreases rest@.len(),
        {
            let rest_len = rest.unicode_len();
            if rest_len == 0 {
                proof {
                    assert(split_lines(rest@) =~= Seq::<Seq<char>>::empty());
                    assert(split_lines(text@) =~= done);
                }
                break;
            }
            let ghost old_rest = rest@;
            let ghost old_done = done;
            let line: &str;
            match next_newline(rest, 0) {
                Some(j) => {
                    let raw = rest.substring_char(0, j);
                    let raw_len = raw.unicode_len();
                    if raw_len > 0 && raw.get_char(raw_len - 1) == '\r' {
                        line = raw.substring_char(0, raw_len - 1);
                        proof {
                            assert(line@ =~= strip_cr(old_rest.take(j as int)));
                        }
                    } else {
                        line = raw;
                        proof {
                            assert(line@ =~= strip_cr(old_rest.take(j as int)));
                        }
                    }
                    rest = rest.substring_char(j + 1, rest_len);
                    proof {
                        assert(split_lines(old_rest) =~= seq![line@] + split_lines(rest@));
                    }
                },
                None => {
                    line = rest;
                    rest = rest.substring_char(rest_len, rest_len);
                    proof {
                        assert(rest@ =~= Seq::<char>::empty());
                        assert(split_lines(old_rest) =~= seq![line@] + split_lines(rest@));
                    }
                },
            }
            proof {
                done = done.push(line@);
                assert(split_lines(text@) =~= done + split_lines(rest@)) by {
                    assert(split_lines(text@) =~= old_done + split_lines(old_rest));
                }
            }
            if first {
                first = false;
                proof {
                    assert(done.skip(1) =~= Seq::<Seq<char>>::empty());
                    assert(pallets@ =~= Seq::<crate::catalog::PalletView>::empty());
                }
            } else {
                proof {
                    assert(done.skip(1) =~= old_done.skip(1).push(line@));
                    assert(done.skip(1).drop_last() =~= old_done.skip(1));
                    assert(done.skip(1).last() == line@);
                }
                let line_len = line.unicode_len();
                match find_sep(line) {
                    Some(j) => {
                        let cat = line.substring_char(0, j);
                        let unit = line.substring_char(j + 2, line_len);
                        proof {
                            assert(cat@ =~= line@.take(j as int));
                            assert(unit@ =~= line@.skip(j as int + 2));
                            assert(parse_line_spec(line@) == Option::Some((cat@, unit@)));
                        }
                        pallets.insert_unit(cat, unit);
                        proof {
                            assert(catalog_of_lines(done.skip(1)) == insert_unit_spec(
                                catalog_of_lines(old_done.skip(1)),
                                cat@,
                                unit@,
                            ));
                        }
                    },
                    None => {
                        proof {
                            assert(parse_line_spec(line@) is None);
                            assert(catalog_of_lines(done.skip(1)) == catalog_of_lines(
                                old_done.skip(1),
                            ));
                        }
                    },
                }
            }
        }
        proof {
            if done.len() == 0 {
                assert(listing_lines(text@) =~= Seq::<Seq<char>>::empty());
                assert(pallets@ =~= Seq::<crate::catalog::PalletView>::empty());
                assert(pallets.catalog() =~= spec_catalog(text@));
            } else {
                assert(listing_lines(text@) == done.skip(1));
            }
        }
        pallets
    }
}

/// Parsing is deterministic, hence idempotent: any two catalogs obtained from
/// the same listing text have the same category names and, for each name, the
/// same set of unit names.
pub proof fn lemma_parse_idempotent(a: Pallets, b: Pallets, t: Seq<char>)
    requires
        a.catalog() == spec_catalog(t),
        b.catalog() == spec_catalog(t),
    ensures
        a.catalog().dom() == b.catalog().dom(),
        forall|k: Seq<char>|
            a.catalog().dom().contains(k) ==> a.catalog()[k] == b.catalog()[k],
{
}

} // verus!
