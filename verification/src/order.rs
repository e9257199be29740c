//! Lexicographic order on character sequences, used to keep category and
//! unit names in a deterministic sorted order.

use vstd::prelude::*;

verus! {

broadcast use vstd::utf8::char_u32_cast, vstd::utf8::char_is_scalar;

/// `a` comes strictly before `b` in lexicographic order (by Unicode scalar
/// value, character by character; a proper prefix comes first).
pub open spec fn lex_lt(a: Seq<char>, b: Seq<char>) -> bool
    decreases a.len(),
{
    if b.len() == 0 {
        false
    } else if a.len() == 0 {
        true
    } else if (a[0] as u32) < (b[0] as u32) {
        true
    } else if a[0] == b[0] {
        lex_lt(a.skip(1), b.skip(1))
    } else {
        false
    }
}

/// No sequence comes strictly before itself.
pub proof fn lemma_lex_lt_irreflexive(a: Seq<char>)
    ensures
        !lex_lt(a, a),
    decreases a.len(),
{
    if a.len() > 0 {
        lemma_lex_lt_irreflexive(a.skip(1));
    }
}

/// Any two sequences are ordered one way or the other, or are equal.
pub proof fn lemma_lex_lt_total(a: Seq<char>, b: Seq<char>)
    ensures
        lex_lt(a, b) || lex_lt(b, a) || a == b,
    decreases a.len(),
{
    if a.len() == 0 && b.len() == 0 {
        assert(a =~= b);
    } else if a.len() > 0 && b.len() > 0 {
        if a[0] == b[0] {
            lemma_lex_lt_total(a.skip(1), b.skip(1));
            if !lex_lt(a.skip(1), b.skip(1)) && !lex_lt(b.skip(1), a.skip(1)) {
                assert(a.skip(1) == b.skip(1));
                assert(a =~= b) by {
                    assert(a.skip(1).len() == b.skip(1).len());
                    assert(forall|i: int|
                        1 <= i < a.len() ==> #[trigger] a[i] == a.skip(1)[i - 1]);
                    assert(forall|i: int|
                        1 <= i < b.len() ==> #[trigger] b[i] == b.skip(1)[i - 1]);
                }
            }
        } else {
            assert((a[0] as u32) != (b[0] as u32)) by {
                vstd::utf8::char_u32_cast(a[0], a[0] as u32);
                vstd::utf8::char_u32_cast(b[0], b[0] as u32);
            }
        }
    }
}

/// Lexicographic order is transitive.
pub proof fn lemma_lex_lt_transitive(a: Seq<char>, b: Seq<char>, c: Seq<char>)
    requires
        lex_lt(a, b),
        lex_lt(b, c),
    ensures
        lex_lt(a, c),
    decreases a.len(),
{
    if a.len() > 0 && b.len() > 0 && c.len() > 0 {
        if a[0] == b[0] && b[0] == c[0] {
            lemma_lex_lt_transitive(a.skip(1), b.skip(1), c.skip(1));
        }
    }
}

/// Decides the strict lexicographic order on two string slices.
pub fn str_lt(a: &str, b: &str) -> (r: bool)
    ensures
        r == lex_lt(a@, b@),
    decreases a@.len(),
{
    let a_len = a.unicode_len();
    let b_len = b.unicode_len();
    if b_len == 0 {
        false
    } else if a_len == 0 {
        true
    } else {
        let ca = a.get_char(0);
        let cb = b.get_char(0);
        if (ca as u32) < (cb as u32) {
            true
        } else if ca == cb {
            let ra = a.substring_char(1, a_len);
            let rb = b.substring_char(1, b_len);
            assert(ra@ == a@.skip(1));
            assert(rb@ == b@.skip(1));
            str_lt(ra, rb)
        } else {
            false
        }
    }
}

/// Decides equality of two string slices, character by character.
pub fn str_eq(a: &str, b: &str) -> (r: bool)
    ensures
        r == (a@ == b@),
    decreases a@.len(),
{
    let a_len = a.unicode_len();
    let b_len = b.unicode_len();
    if a_len != b_len {
        false
    } else if a_len == 0 {
        assert(a@ =~= b@);
        true
    } else {
        let ca = a.get_char(0);
        let cb = b.get_char(0);
        if ca == cb {
            let ra = a.substring_char(1, a_len);
            let rb = b.substring_char(1, b_len);
            assert(ra@ == a@.skip(1));
            assert(rb@ == b@.skip(1));
            let r = str_eq(ra, rb);
            proof {
                if ra@ == rb@ {
                    assert(a@ =~= b@) by {
                        assert(a@.len() == b@.len());
                        assert(a@[0] == ca);
                        assert(b@[0] == cb);
                        assert(forall|i: int|
                            1 <= i < a@.len() ==> #[trigger] a@[i] == a@.skip(1)[i - 1]);
                        assert(forall|i: int|
                            1 <= i < b@.len() ==> #[trigger] b@[i] == b@.skip(1)[i - 1]);
                    }
                } else {
                    assert(a@ != b@) by {
                        if a@ == b@ {
                            assert(a@.skip(1) =~= b@.skip(1));
                        }
                    }
                }
            }
            r
        } else {
            assert(a@ != b@) by {
                if a@ == b@ {
                    assert(a@[0] == b@[0]);
                }
            }
            false
        }
    }
}

} // verus!
