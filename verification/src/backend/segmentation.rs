//! Orders and sorted sequences used by the hotword segmenter.
use vstd::prelude::*;

verus! {

/// Every earlier element is below every later one.
pub open spec fn strictly_sorted<T>(s: Seq<T>, lt: spec_fn(T, T) -> bool) -> bool {
    forall|i: int, j: int| 0 <= i < j < s.len() ==> #[trigger] lt(s[i], s[j])
}

/// `lt` is irreflexive, transitive and relates any two distinct values.
pub open spec fn is_strict_total_order<T>(lt: spec_fn(T, T) -> bool) -> bool {
    &&& forall|a: T| !#[trigger] lt(a, a)
    &&& forall|a: T, b: T, c: T| #[trigger] lt(a, b) && #[trigger] lt(b, c) ==> lt(a, c)
    &&& forall|a: T, b: T| a != b ==> #[trigger] lt(a, b) || lt(b, a)
}

/// Two sequences sorted by the same strict total order and holding the same
/// elements are equal: sorting without duplicates has one result.
pub proof fn lemma_sorted_with_same_elements_is_unique<T>(
    a: Seq<T>,
    b: Seq<T>,
    lt: spec_fn(T, T) -> bool,
)
    requires
        is_strict_total_order(lt),
        strictly_sorted(a, lt),
        strictly_sorted(b, lt),
        forall|x: T| a.contains(x) <==> b.contains(x),
    ensures
        a == b,
    decreases a.len(),
{
    if a.len() == 0 {
        if b.len() > 0 {
            assert(b.contains(b[0]));
        }
        assert(a =~= b);
    } else {
        assert(a.contains(a[0]));
        assert(b.len() > 0);
        assert(b.contains(b[0]));
        let j = choose|j: int| 0 <= j < b.len() && b[j] == a[0];
        let i = choose|i: int| 0 <= i < a.len() && a[i] == b[0];
        if j > 0 && i > 0 {
            assert(lt(b[0], b[j]));
            assert(lt(a[0], a[i]));
            assert(lt(a[0], a[0]));
        }
        assert(a[0] == b[0]);
        let a1 = a.drop_first();
        let b1 = b.drop_first();
        assert forall|x: T| a1.contains(x) implies b1.contains(x) by {
            let k = choose|k: int| 0 <= k < a1.len() && a1[k] == x;
            assert(a[k + 1] == x);
            assert(lt(a[0], a[k + 1]));
            assert(b.contains(x));
            let m = choose|m: int| 0 <= m < b.len() && b[m] == x;
            if m == 0 {
                assert(lt(x, x));
            }
            assert(b1[m - 1] == x);
        }
        assert forall|x: T| b1.contains(x) implies a1.contains(x) by {
            let k = choose|k: int| 0 <= k < b1.len() && b1[k] == x;
            assert(b[k + 1] == x);
            assert(lt(b[0], b[k + 1]));
            assert(a.contains(x));
            let m = choose|m: int| 0 <= m < a.len() && a[m] == x;
            if m == 0 {
                assert(lt(x, x));
            }
            assert(a1[m - 1] == x);
        }
        assert forall|p: int, q: int| 0 <= p < q < a1.len() implies #[trigger] lt(a1[p], a1[q]) by {
            assert(lt(a[p + 1], a[q + 1]));
        }
        assert forall|p: int, q: int| 0 <= p < q < b1.len() implies #[trigger] lt(b1[p], b1[q]) by {
            assert(lt(b[p + 1], b[q + 1]));
        }
        lemma_sorted_with_same_elements_is_unique(a1, b1, lt);
        assert(a =~= b) by {
            assert forall|k: int| 0 <= k < a.len() implies a[k] == b[k] by {
                if k > 0 {
                    assert(a[k] == a1[k - 1]);
                    assert(b[k] == b1[k - 1]);
                }
            }
        }
    }
}

/// Lexicographic order of token sequences, a proper prefix first, as `Ord`
/// orders vectors.
pub open spec fn lex_lt(a: Seq<usize>, b: Seq<usize>) -> bool
    decreases a.len(),
{
    if a.len() == 0 {
        b.len() > 0
    } else if b.len() == 0 {
        false
    } else if a[0] != b[0] {
        a[0] < b[0]
    } else {
        lex_lt(a.drop_first(), b.drop_first())
    }
}

/// The order of segmentations: fewer tokens first, then lexicographic.
pub open spec fn path_lt(a: Seq<usize>, b: Seq<usize>) -> bool {
    a.len() < b.len() || (a.len() == b.len() && lex_lt(a, b))
}

pub proof fn lemma_lex_irreflexive(a: Seq<usize>)
    ensures
        !lex_lt(a, a),
    decreases a.len(),
{
    if a.len() > 0 {
        lemma_lex_irreflexive(a.drop_first());
    }
}

pub proof fn lemma_lex_transitive(a: Seq<usize>, b: Seq<usize>, c: Seq<usize>)
    requires
        lex_lt(a, b),
        lex_lt(b, c),
    ensures
        lex_lt(a, c),
    decreases a.len(),
{
    if a.len() > 0 && b.len() > 0 && c.len() > 0 && a[0] == b[0] && b[0] == c[0] {
        lemma_lex_transitive(a.drop_first(), b.drop_first(), c.drop_first());
    }
}

pub proof fn lemma_lex_total(a: Seq<usize>, b: Seq<usize>)
    requires
        a != b,
    ensures
        lex_lt(a, b) || lex_lt(b, a),
    decreases a.len(),
{
    if a.len() == 0 {
        if b.len() == 0 {
            assert(a =~= b);
        }
    } else if b.len() == 0 {
    } else if a[0] == b[0] {
        let da = a.drop_first();
        let db = b.drop_first();
        if da =~= db {
            assert(da.len() == a.len() - 1);
            assert(db.len() == b.len() - 1);
            assert forall|k: int| 0 <= k < a.len() implies a[k] == b[k] by {
                if k > 0 {
                    assert(a[k] == da[k - 1]);
                    assert(b[k] == db[k - 1]);
                }
            }
            assert(a =~= b);
        }
        lemma_lex_total(a.drop_first(), b.drop_first());
    }
}

pub proof fn lemma_path_lt_irreflexive(a: Seq<usize>)
    ensures
        !path_lt(a, a),
{
    lemma_lex_irreflexive(a);
}

pub proof fn lemma_path_lt_transitive(a: Seq<usize>, b: Seq<usize>, c: Seq<usize>)
    requires
        path_lt(a, b),
        path_lt(b, c),
    ensures
        path_lt(a, c),
{
    if a.len() == b.len() && b.len() == c.len() {
        lemma_lex_transitive(a, b, c);
    }
}

pub proof fn lemma_path_lt_total(a: Seq<usize>, b: Seq<usize>)
    requires
        a != b,
    ensures
        path_lt(a, b) || path_lt(b, a),
{
    if a.len() == b.len() {
        lemma_lex_total(a, b);
    }
}

/// Segmentations ordered by length, then lexicographically, form a strict
/// total order.
pub proof fn lemma_path_order_is_strict_total()
    ensures
        is_strict_total_order(|a: Seq<usize>, b: Seq<usize>| path_lt(a, b)),
{
    let lt = |a: Seq<usize>, b: Seq<usize>| path_lt(a, b);
    assert forall|a: Seq<usize>| !#[trigger] lt(a, a) by {
        lemma_lex_irreflexive(a);
    }
    assert forall|a: Seq<usize>, b: Seq<usize>, c: Seq<usize>|
        #[trigger] lt(a, b) && #[trigger] lt(b, c) implies lt(a, c) by {
        if a.len() == b.len() && b.len() == c.len() {
            lemma_lex_transitive(a, b, c);
        }
    }
    assert forall|a: Seq<usize>, b: Seq<usize>| a != b implies #[trigger] lt(a, b) || lt(b, a) by {
        if a.len() == b.len() {
            lemma_lex_total(a, b);
        }
    }
}

/// Whether every earlier segmentation is below every later one.
pub open spec fn paths_sorted(s: Seq<Seq<usize>>) -> bool {
    forall|i: int, j: int| 0 <= i < j < s.len() ==> path_lt(#[trigger] s[i], #[trigger] s[j])
}

/// The order of piece candidates `(end, token id, length)`: longer pieces
/// first, then lower token ids (the end breaks the remaining ties).
pub open spec fn candidate_lt(a: (usize, usize, usize), b: (usize, usize, usize)) -> bool {
    a.2 > b.2 || (a.2 == b.2 && (a.1 < b.1 || (a.1 == b.1 && a.0 < b.0)))
}

pub proof fn lemma_candidate_order_is_strict_total()
    ensures
        is_strict_total_order(
            |a: (usize, usize, usize), b: (usize, usize, usize)| candidate_lt(a, b),
        ),
{
}

/// Whether every earlier candidate is below every later one.
pub open spec fn candidates_sorted(s: Seq<(usize, usize, usize)>) -> bool {
    forall|i: int, j: int| 0 <= i < j < s.len() ==> candidate_lt(#[trigger] s[i], #[trigger] s[j])
}

/// Two sorted segmentation lists with the same elements are equal.
pub proof fn lemma_sorted_paths_unique(a: Seq<Seq<usize>>, b: Seq<Seq<usize>>)
    requires
        paths_sorted(a),
        paths_sorted(b),
        forall|x: Seq<usize>| a.contains(x) <==> b.contains(x),
    ensures
        a == b,
{
    let lt = |p: Seq<usize>, q: Seq<usize>| path_lt(p, q);
    lemma_path_order_is_strict_total();
    assert(strictly_sorted(a, lt));
    assert(strictly_sorted(b, lt));
    lemma_sorted_with_same_elements_is_unique(a, b, lt);
}

/// Two sorted candidate lists with the same elements are equal.
pub proof fn lemma_sorted_candidates_unique(
    a: Seq<(usize, usize, usize)>,
    b: Seq<(usize, usize, usize)>,
)
    requires
        candidates_sorted(a),
        candidates_sorted(b),
        forall|x: (usize, usize, usize)| a.contains(x) <==> b.contains(x),
    ensures
        a == b,
{
    let lt = |p: (usize, usize, usize), q: (usize, usize, usize)| candidate_lt(p, q);
    lemma_candidate_order_is_strict_total();
    assert(strictly_sorted(a, lt));
    assert(strictly_sorted(b, lt));
    lemma_sorted_with_same_elements_is_unique(a, b, lt);
}

} // verus!
