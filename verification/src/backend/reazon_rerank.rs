//! Lattice states of the `ReazonSpeech` one-splice reranker.
use vstd::prelude::*;
use crate::backend::parakeet::{copy_path, same_path};
use crate::backend::segmentation::{lemma_lex_total, lemma_lex_transitive, lex_lt};

verus! {

/// The recombination state after `count` tokens: the count and the last two
/// tokens, with zeros before the start.
pub open spec fn spec_state_at(token_ids: Seq<usize>, count: int) -> (usize, usize, usize) {
    if count == 0 {
        (0, 0, 0)
    } else if count == 1 {
        (1, 0, token_ids[0])
    } else {
        (count as usize, token_ids[count - 2], token_ids[count - 1])
    }
}

pub fn state_at(token_ids: &[usize], count: usize) -> (r: (usize, usize, usize))
    requires
        count <= token_ids.len(),
    ensures
        r == spec_state_at(token_ids@, count as int),
{
    match count {
        0 => (0, 0, 0),
        1 => (1, 0, token_ids[0]),
        _ => (count, token_ids[count - 2], token_ids[count - 1]),
    }
}

/// The prefix of `prefix` and the rest of `suffix` after `count` tokens.
pub open spec fn splice(prefix: Seq<usize>, suffix: Seq<usize>, count: int) -> Seq<usize> {
    prefix.take(count) + suffix.skip(count)
}

/// Whether two seeds reach the same recombination state after `count`
/// tokens, so that one may continue where the other stops.
pub open spec fn can_splice(prefix: Seq<usize>, suffix: Seq<usize>, count: int) -> bool {
    &&& 0 <= count <= prefix.len()
    &&& count <= suffix.len()
    &&& spec_state_at(prefix, count) == spec_state_at(suffix, count)
}

/// Whether `x` is a seed or a one-splice recombination of two seeds.
pub open spec fn is_one_splice(seeds: Seq<Seq<usize>>, x: Seq<usize>) -> bool {
    ||| seeds.contains(x)
    ||| exists|p: int, q: int, count: int|
        0 <= p < seeds.len() && 0 <= q < seeds.len() && #[trigger] can_splice(seeds[p], seeds[q], count)
            && x == splice(seeds[p], seeds[q], count)
}

/// Whether `(p, q, count)` joins seeds `p` and `q` into `x` and comes
/// before `(bound_p, bound_q, bound_count)` in the order they are tried.
pub open spec fn splice_witness(
    seeds: Seq<Seq<usize>>,
    x: Seq<usize>,
    p: int,
    q: int,
    count: int,
    bound_p: int,
    bound_q: int,
    bound_count: int,
) -> bool {
    &&& 0 <= p < seeds.len()
    &&& 0 <= q < seeds.len()
    &&& can_splice(seeds[p], seeds[q], count)
    &&& x == splice(seeds[p], seeds[q], count)
    &&& (p < bound_p || (p == bound_p && (q < bound_q || (q == bound_q && count < bound_count))))
}

/// Whether `x` is a splice tried before `(bound_p, bound_q, bound_count)`.
pub open spec fn spliced_before(
    seeds: Seq<Seq<usize>>,
    x: Seq<usize>,
    bound_p: int,
    bound_q: int,
    bound_count: int,
) -> bool {
    exists|p: int, q: int, count: int|
        #[trigger] splice_witness(seeds, x, p, q, count, bound_p, bound_q, bound_count)
}

proof fn lemma_spliced_step(seeds: Seq<Seq<usize>>, p: int, q: int, count: int, next: int)
    requires
        0 <= p < seeds.len(),
        0 <= q < seeds.len(),
        0 <= count,
        next == count + 1,
    ensures
        forall|x: Seq<usize>|
            #[trigger] spliced_before(seeds, x, p, q, next) <==> (spliced_before(
                seeds,
                x,
                p,
                q,
                count,
            ) || (can_splice(seeds[p], seeds[q], count) && x == splice(seeds[p], seeds[q], count))),
{
    assert forall|x: Seq<usize>|
        #[trigger] spliced_before(seeds, x, p, q, next) <==> (spliced_before(seeds, x, p, q, count)
            || (can_splice(seeds[p], seeds[q], count) && x == splice(seeds[p], seeds[q], count))) by {
        if spliced_before(seeds, x, p, q, next) {
            let (a, b, c) = choose|a: int, b: int, c: int|
                splice_witness(seeds, x, a, b, c, p, q, next);
            if !(a == p && b == q && c == count) {
                assert(splice_witness(seeds, x, a, b, c, p, q, count));
            }
        }
        if spliced_before(seeds, x, p, q, count) {
            let (a, b, c) = choose|a: int, b: int, c: int| splice_witness(seeds, x, a, b, c, p, q, count);
            assert(splice_witness(seeds, x, a, b, c, p, q, next));
        }
        if can_splice(seeds[p], seeds[q], count) && x == splice(seeds[p], seeds[q], count) {
            assert(splice_witness(seeds, x, p, q, count, p, q, next));
        }
    }
}

proof fn lemma_spliced_next_suffix(seeds: Seq<Seq<usize>>, p: int, q: int, next_q: int, bound: int)
    requires
        0 <= p < seeds.len(),
        0 <= q < seeds.len(),
        next_q == q + 1,
        bound == (if seeds[p].len() < seeds[q].len() { seeds[p].len() } else { seeds[q].len() }) + 1,
    ensures
        forall|x: Seq<usize>|
            #[trigger] spliced_before(seeds, x, p, next_q, 0) <==> spliced_before(seeds, x, p, q, bound),
{
    assert forall|x: Seq<usize>|
        #[trigger] spliced_before(seeds, x, p, next_q, 0) <==> spliced_before(seeds, x, p, q, bound) by {
        if spliced_before(seeds, x, p, next_q, 0) {
            let (a, b, c) = choose|a: int, b: int, c: int| splice_witness(seeds, x, a, b, c, p, next_q, 0);
            assert(splice_witness(seeds, x, a, b, c, p, q, bound));
        }
        if spliced_before(seeds, x, p, q, bound) {
            let (a, b, c) = choose|a: int, b: int, c: int| splice_witness(seeds, x, a, b, c, p, q, bound);
            assert(splice_witness(seeds, x, a, b, c, p, next_q, 0));
        }
    }
}

proof fn lemma_spliced_next_prefix(seeds: Seq<Seq<usize>>, p: int, next_p: int, total: int)
    requires
        0 <= p < seeds.len(),
        next_p == p + 1,
        total == seeds.len(),
    ensures
        forall|x: Seq<usize>|
            #[trigger] spliced_before(seeds, x, next_p, 0, 0) <==> spliced_before(seeds, x, p, total, 0),
{
    assert forall|x: Seq<usize>|
        #[trigger] spliced_before(seeds, x, next_p, 0, 0) <==> spliced_before(seeds, x, p, total, 0) by {
        if spliced_before(seeds, x, next_p, 0, 0) {
            let (a, b, c) = choose|a: int, b: int, c: int| splice_witness(seeds, x, a, b, c, next_p, 0, 0);
            assert(splice_witness(seeds, x, a, b, c, p, total, 0));
        }
        if spliced_before(seeds, x, p, total, 0) {
            let (a, b, c) = choose|a: int, b: int, c: int| splice_witness(seeds, x, a, b, c, p, total, 0);
            assert(splice_witness(seeds, x, a, b, c, next_p, 0, 0));
        }
    }
}

/// Whether every earlier sequence is lexicographically below every later one.
pub open spec fn lex_sorted(s: Seq<Seq<usize>>) -> bool {
    forall|i: int, j: int| 0 <= i < j < s.len() ==> lex_lt(#[trigger] s[i], #[trigger] s[j])
}

pub open spec fn sequences_view(v: Seq<Vec<usize>>) -> Seq<Seq<usize>> {
    v.map_values(|s: Vec<usize>| s@)
}

/// Whether `a` is lexicographically below `b`.
fn lex_less(a: &Vec<usize>, b: &Vec<usize>) -> (r: bool)
    ensures
        r == lex_lt(a@, b@),
{
    assert(a@.skip(0) =~= a@);
    assert(b@.skip(0) =~= b@);
    let mut k: usize = 0;
    while k < a.len() && k < b.len()
        invariant
            k <= a.len(),
            k <= b.len(),
            lex_lt(a@, b@) == lex_lt(a@.skip(k as int), b@.skip(k as int)),
        decreases a.len() - k,
    {
        assert(a@.skip(k as int)[0] == a@[k as int]);
        assert(b@.skip(k as int)[0] == b@[k as int]);
        if a[k] != b[k] {
            return a[k] < b[k];
        }
        assert(a@.skip(k as int).drop_first() =~= a@.skip(k + 1));
        assert(b@.skip(k as int).drop_first() =~= b@.skip(k + 1));
        k = k + 1;
    }
    assert(a@.skip(k as int).len() == a.len() - k);
    assert(b@.skip(k as int).len() == b.len() - k);
    k == a.len() && k < b.len()
}

fn same_sequence(a: &Vec<usize>, b: &Vec<usize>) -> (r: bool)
    ensures
        r == (a@ == b@),
{
    if a.len() != b.len() {
        return false;
    }
    let mut k: usize = 0;
    while k < a.len()
        invariant
            k <= a.len(),
            a.len() == b.len(),
            forall|i: int| 0 <= i < k ==> a@[i] == b@[i],
        decreases a.len() - k,
    {
        if a[k] != b[k] {
            return false;
        }
        k = k + 1;
    }
    assert(a@ =~= b@);
    true
}

/// Adds `x` to a lexicographically sorted list without repeats.
fn insert_sorted(set: &mut Vec<Vec<usize>>, x: Vec<usize>)
    requires
        lex_sorted(sequences_view(old(set)@)),
    ensures
        lex_sorted(sequences_view(final(set)@)),
        forall|y: Seq<usize>|
            sequences_view(final(set)@).contains(y) <==> (sequences_view(old(set)@).contains(y)
                || y == x@),
{
    let ghost before = sequences_view(set@);
    let ghost p = x@;
    let mut j: usize = 0;
    while j < set.len()
        invariant
            j <= set.len(),
            before == sequences_view(set@),
            p == x@,
            forall|q: int| 0 <= q < j ==> lex_lt(#[trigger] before[q], p),
        ensures
            j <= set.len(),
            forall|q: int| 0 <= q < j ==> lex_lt(#[trigger] before[q], p),
            j < set.len() ==> !lex_lt(before[j as int], p),
        decreases set.len() - j,
    {
        if !lex_less(&set[j], &x) {
            break;
        }
        j = j + 1;
    }
    if j < set.len() && same_sequence(&set[j], &x) {
        assert(before[j as int] == p);
        assert(before.contains(p));
        return;
    }
    set.insert(j, x);
    proof {
        let after = sequences_view(set@);
        assert(after =~= before.insert(j as int, p));
        if j < before.len() {
            lemma_lex_total(before[j as int], p);
        }
        assert forall|a: int, b: int| 0 <= a < b < after.len() implies lex_lt(
            #[trigger] after[a],
            #[trigger] after[b],
        ) by {
            if b < j {
            } else if b == j {
            } else if a < j {
                assert(after[b] == before[b - 1]);
                if b - 1 > j {
                    lemma_lex_transitive(after[a], p, before[j as int]);
                }
            } else if a == j {
                assert(after[b] == before[b - 1]);
                if b - 1 > j {
                    lemma_lex_transitive(p, before[j as int], before[b - 1]);
                }
            } else {
                assert(after[a] == before[a - 1]);
                assert(after[b] == before[b - 1]);
            }
        }
        assert forall|y: Seq<usize>| after.contains(y) <==> (before.contains(y) || y == p) by {
            if after.contains(y) {
                let k = choose|k: int| 0 <= k < after.len() && after[k] == y;
                if k < j {
                    assert(before[k] == y);
                } else if k > j {
                    assert(before[k - 1] == y);
                }
            }
            if before.contains(y) {
                let k = choose|k: int| 0 <= k < before.len() && before[k] == y;
                if k < j {
                    assert(after[k] == y);
                } else {
                    assert(after[k + 1] == y);
                }
            }
            if y == p {
                assert(after[j as int] == p);
            }
        }
    }
}

/// Whether `set` holds exactly the seeds and the splices tried before
/// `(bound_p, bound_q, bound_count)`.
pub open spec fn covers(
    set: Seq<Seq<usize>>,
    seeds: Seq<Seq<usize>>,
    bound_p: int,
    bound_q: int,
    bound_count: int,
) -> bool {
    forall|x: Seq<usize>|
        #[trigger] set.contains(x) <==> (seeds.contains(x) || spliced_before(
            seeds,
            x,
            bound_p,
            bound_q,
            bound_count,
        ))
}

/// The seeds and every one-splice recombination of two seeds: the prefix of
/// one up to a point where both seeds are in the same state, then the rest
/// of the other; sorted lexicographically, without repeats.
pub fn one_splice_sequences(seeds: &Vec<Vec<usize>>) -> (r: Vec<Vec<usize>>)
    ensures
        lex_sorted(sequences_view(r@)),
        forall|x: Seq<usize>|
            sequences_view(r@).contains(x) <==> is_one_splice(sequences_view(seeds@), x),
{
    let ghost s = sequences_view(seeds@);
    let mut set: Vec<Vec<usize>> = Vec::new();
    let mut i: usize = 0;
    while i < seeds.len()
        invariant
            i <= seeds.len(),
            s == sequences_view(seeds@),
            lex_sorted(sequences_view(set@)),
            forall|x: Seq<usize>| sequences_view(set@).contains(x) <==> s.take(i as int).contains(x),
        decreases seeds.len() - i,
    {
        let copy = copy_path(&seeds[i]);
        insert_sorted(&mut set, copy);
        assert forall|x: Seq<usize>| sequences_view(set@).contains(x) <==> s.take(i + 1).contains(
            x,
        ) by {
            let next = s.take(i + 1);
            let prev = s.take(i as int);
            if next.contains(x) {
                let k = choose|k: int| 0 <= k < next.len() && next[k] == x;
                if k < i {
                    assert(prev[k] == x);
                }
            }
            if prev.contains(x) {
                let k = choose|k: int| 0 <= k < prev.len() && prev[k] == x;
                assert(next[k] == x);
            }
            if x == s[i as int] {
                assert(next[i as int] == x);
            }
        }
        i = i + 1;
    }
    assert(s.take(seeds.len() as int) =~= s);
    let n = seeds.len();
    proof {
        assert forall|x: Seq<usize>| !spliced_before(s, x, 0, 0, 0) by {
            if spliced_before(s, x, 0, 0, 0) {
                let (a, b, c) = choose|a: int, b: int, c: int| splice_witness(s, x, a, b, c, 0, 0, 0);
            }
        }
        assert(covers(sequences_view(set@), s, 0, 0, 0));
    }
    let mut p: usize = 0;
    while p < n
        invariant
            p <= n,
            n == seeds.len(),
            s == sequences_view(seeds@),
            lex_sorted(sequences_view(set@)),
            covers(sequences_view(set@), s, p as int, 0, 0),
        decreases n - p,
    {
        let mut q: usize = 0;
        while q < n
            invariant
                p < n,
                q <= n,
                n == seeds.len(),
                s == sequences_view(seeds@),
                lex_sorted(sequences_view(set@)),
                covers(sequences_view(set@), s, p as int, q as int, 0),
            decreases n - q,
        {
            let prefix = &seeds[p];
            let suffix = &seeds[q];
            let shared = if prefix.len() < suffix.len() { prefix.len() } else { suffix.len() };
            let mut count: usize = 0;
            loop
                invariant_except_break
                    covers(sequences_view(set@), s, p as int, q as int, count as int),
                invariant
                    p < n,
                    q < n,
                    n == seeds.len(),
                    s == sequences_view(seeds@),
                    prefix@ == s[p as int],
                    suffix@ == s[q as int],
                    shared == if prefix.len() < suffix.len() { prefix.len() } else { suffix.len() },
                    count <= shared,
                    lex_sorted(sequences_view(set@)),
                ensures
                    lex_sorted(sequences_view(set@)),
                    covers(sequences_view(set@), s, p as int, q as int, shared + 1),
                decreases shared - count,
            {
                let a = state_at(prefix.as_slice(), count);
                let b = state_at(suffix.as_slice(), count);
                let joinable = a.0 == b.0 && a.1 == b.1 && a.2 == b.2;
                let ghost before = sequences_view(set@);
                proof {
                    lemma_spliced_step(s, p as int, q as int, count as int, count + 1);
                }
                if joinable {
                    let sequence = spliced(prefix, suffix, count);
                    assert(can_splice(s[p as int], s[q as int], count as int));
                    insert_sorted(&mut set, sequence);
                } else {
                    assert(!can_splice(s[p as int], s[q as int], count as int));
                }
                assert(covers(sequences_view(set@), s, p as int, q as int, count + 1));
                if count == shared {
                    break;
                }
                count = count + 1;
            }
            proof {
                lemma_spliced_next_suffix(s, p as int, q as int, q + 1, shared + 1);
            }
            assert(covers(sequences_view(set@), s, p as int, q + 1, 0));
            q = q + 1;
        }
        proof {
            lemma_spliced_next_prefix(s, p as int, p + 1, n as int);
        }
        assert(covers(sequences_view(set@), s, p + 1, 0, 0));
        p = p + 1;
    }
    proof {
        assert forall|x: Seq<usize>| sequences_view(set@).contains(x) <==> is_one_splice(s, x) by {
            if is_one_splice(s, x) && !s.contains(x) {
                let (a, b, c) = choose|a: int, b: int, c: int|
                    0 <= a < s.len() && 0 <= b < s.len() && #[trigger] can_splice(s[a], s[b], c)
                        && x == splice(s[a], s[b], c);
                assert(splice_witness(s, x, a, b, c, n as int, 0, 0));
            }
            if spliced_before(s, x, n as int, 0, 0) {
                let (a, b, c) = choose|a: int, b: int, c: int| splice_witness(s, x, a, b, c, n as int, 0, 0);
                assert(can_splice(s[a], s[b], c));
            }
        }
    }
    set
}

/// The first `count` tokens of `prefix` followed by `suffix` after its first
/// `count` tokens.
fn spliced(prefix: &Vec<usize>, suffix: &Vec<usize>, count: usize) -> (r: Vec<usize>)
    requires
        count <= prefix.len(),
        count <= suffix.len(),
    ensures
        r@ == splice(prefix@, suffix@, count as int),
{
    let mut sequence: Vec<usize> = Vec::new();
    let mut k: usize = 0;
    while k < count
        invariant
            k <= count <= prefix.len(),
            sequence@ == prefix@.take(k as int),
        decreases count - k,
    {
        sequence.push(prefix[k]);
        assert(prefix@.take(k + 1) =~= prefix@.take(k as int).push(prefix@[k as int]));
        k = k + 1;
    }
    let mut k: usize = count;
    while k < suffix.len()
        invariant
            count <= k <= suffix.len(),
            sequence@ == prefix@.take(count as int) + suffix@.subrange(count as int, k as int),
        decreases suffix.len() - k,
    {
        sequence.push(suffix[k]);
        assert(suffix@.subrange(count as int, k + 1) =~= suffix@.subrange(count as int, k as int).push(
            suffix@[k as int],
        ));
        k = k + 1;
    }
    assert(suffix@.subrange(count as int, suffix.len() as int) =~= suffix@.skip(count as int));
    sequence
}


/// Whether bit `j` of `mask` is set.
pub open spec fn bit_set(mask: u64, j: u64) -> bool {
    (mask >> j) & 1u64 == 1u64
}

proof fn lemma_set_bit(mask: u64, i: u64, j: u64)
    requires
        i < 64,
        j < 64,
    ensures
        bit_set(mask | (1u64 << i), j) <==> (bit_set(mask, j) || i == j),
{
    assert(((mask | (1u64 << i)) >> j) & 1u64 == 1u64 <==> (((mask >> j) & 1u64 == 1u64) || i == j))
        by (bit_vector)
        requires
            i < 64,
            j < 64,
    ;
}

proof fn lemma_empty_mask(j: u64)
    requires
        j < 64,
    ensures
        !bit_set(0, j),
{
    assert((0u64 >> j) & 1u64 != 1u64) by (bit_vector)
        requires
            j < 64,
    ;
}

/// Whether `seed` passes through `state`.
pub open spec fn visits(seed: Seq<usize>, state: (usize, usize, usize)) -> bool {
    exists|count: int| 0 <= count <= seed.len() && #[trigger] spec_state_at(seed, count) == state
}

/// Whether `seed` leaves `state` by `token`.
pub open spec fn uses_edge(seed: Seq<usize>, state: (usize, usize, usize), token: usize) -> bool {
    exists|count: int|
        0 <= count < seed.len() && #[trigger] spec_state_at(seed, count) == state && seed[count] == token
}

/// Whether `seed` ends in `state`.
pub open spec fn ends_at(seed: Seq<usize>, state: (usize, usize, usize)) -> bool {
    spec_state_at(seed, seed.len() as int) == state
}

/// The evidence a lattice step can have: a seed visiting a state, leaving
/// it by a token, or ending there.
pub enum EvidenceKind {
    Visitor,
    Edge { token: usize },
    Terminal,
}

/// Whether `seed` is evidence of `kind` at `state`.
pub open spec fn is_evidence(seed: Seq<usize>, state: (usize, usize, usize), kind: EvidenceKind) -> bool {
    match kind {
        EvidenceKind::Visitor => visits(seed, state),
        EvidenceKind::Edge { token } => uses_edge(seed, state, token),
        EvidenceKind::Terminal => ends_at(seed, state),
    }
}

fn same_state(a: (usize, usize, usize), b: (usize, usize, usize)) -> (r: bool)
    ensures
        r == (a == b),
{
    a.0 == b.0 && a.1 == b.1 && a.2 == b.2
}

fn seed_is_evidence(seed: &Vec<usize>, state: (usize, usize, usize), kind: &EvidenceKind) -> (r: bool)
    ensures
        r == is_evidence(seed@, state, *kind),
{
    match kind {
        EvidenceKind::Terminal => same_state(state_at(seed.as_slice(), seed.len()), state),
        EvidenceKind::Visitor => {
            let mut count: usize = 0;
            while count < seed.len()
                invariant
                    count <= seed.len(),
                    *kind == EvidenceKind::Visitor,
                    forall|c: int| 0 <= c < count ==> #[trigger] spec_state_at(seed@, c) != state,
                decreases seed.len() - count,
            {
                if same_state(state_at(seed.as_slice(), count), state) {
                    proof {
                        assert(spec_state_at(seed@, count as int) == state);
                    }
                    return true;
                }
                count = count + 1;
            }
            let last = same_state(state_at(seed.as_slice(), count), state);
            proof {
                if last {
                    assert(spec_state_at(seed@, count as int) == state);
                }
            }
            last
        },
        EvidenceKind::Edge { token } => {
            let mut count: usize = 0;
            while count < seed.len()
                invariant
                    count <= seed.len(),
                    *kind == (EvidenceKind::Edge { token: *token }),
                    forall|c: int|
                        0 <= c < count ==> !(#[trigger] spec_state_at(seed@, c) == state && seed@[c] == *token),
                decreases seed.len() - count,
            {
                if same_state(state_at(seed.as_slice(), count), state) && seed[count] == *token {
                    proof {
                        assert(spec_state_at(seed@, count as int) == state && seed@[count as int] == *token);
                    }
                    return true;
                }
                count = count + 1;
            }
            false
        },
    }
}

/// The seeds that are evidence of `kind` at `state`, one bit per seed: the
/// masks from which the reranker weighs a lattice step.
pub fn evidence_mask(seeds: &[Vec<usize>], state: (usize, usize, usize), kind: EvidenceKind) -> (r: u64)
    requires
        seeds.len() <= 64,
    ensures
        forall|j: u64|
            j < 64 ==> (bit_set(r, j) <==> (j < seeds.len() && is_evidence(seeds@[j as int]@, state, kind))),
{
    let mut mask: u64 = 0;
    let mut i: usize = 0;
    proof {
        assert forall|j: u64| j < 64 implies !bit_set(mask, j) by {
            lemma_empty_mask(j);
        }
    }
    while i < seeds.len()
        invariant
            i <= seeds.len() <= 64,
            forall|j: u64| j < 64 ==> (bit_set(mask, j) <==> (j < i && is_evidence(seeds@[j as int]@, state, kind))),
        decreases seeds.len() - i,
    {
        if seed_is_evidence(&seeds[i], state, &kind) {
            let ghost before = mask;
            mask = mask | (1u64 << (i as u64));
            proof {
                assert forall|j: u64| j < 64 implies (bit_set(mask, j) <==> (j < i + 1 && is_evidence(
                    seeds@[j as int]@,
                    state,
                    kind,
                ))) by {
                    lemma_set_bit(before, i as u64, j);
                }
            }
        }
        i = i + 1;
    }
    mask
}

/// Why a one-splice reranking request is refused.
#[derive(Debug, Clone, Copy, PartialEq, Eq, Structural)]
pub enum OneSpliceRequestError {
    NoSeeds,
    ZeroRetainedWidth,
    TooManySeeds,
}

impl OneSpliceRequestError {
    /// The error's text.
    pub fn message(self) -> (r: &'static str)
        ensures
            r@ == match self {
                OneSpliceRequestError::NoSeeds => "ReazonSpeech one-splice reranking requires at least one seed"@,
                OneSpliceRequestError::ZeroRetainedWidth => "ReazonSpeech one-splice retained width must be positive"@,
                OneSpliceRequestError::TooManySeeds => "ReazonSpeech one-splice evidence supports at most 64 seeds"@,
            },
    {
        match self {
            OneSpliceRequestError::NoSeeds => "ReazonSpeech one-splice reranking requires at least one seed",
            OneSpliceRequestError::ZeroRetainedWidth => "ReazonSpeech one-splice retained width must be positive",
            OneSpliceRequestError::TooManySeeds => "ReazonSpeech one-splice evidence supports at most 64 seeds",
        }
    }
}

/// Checks a reranking request: some seeds, a positive retained width, and
/// no more seeds than a 64-bit evidence mask can name.
pub fn validate_one_splice_request(seed_count: usize, retained_candidates: usize) -> (r: Result<
    (),
    OneSpliceRequestError,
>)
    ensures
        r == if seed_count == 0 {
            Err(OneSpliceRequestError::NoSeeds)
        } else if retained_candidates == 0 {
            Err(OneSpliceRequestError::ZeroRetainedWidth)
        } else if seed_count > 64 {
            Err(OneSpliceRequestError::TooManySeeds)
        } else {
            Ok(())
        },
{
    if seed_count == 0 {
        Err(OneSpliceRequestError::NoSeeds)
    } else if retained_candidates == 0 {
        Err(OneSpliceRequestError::ZeroRetainedWidth)
    } else if seed_count > 64 {
        Err(OneSpliceRequestError::TooManySeeds)
    } else {
        Ok(())
    }
}

/// The first seed that spells `token_ids`, if any: the seed a recombined
/// candidate came from unchanged.
pub fn source_seed(seeds: &[Vec<usize>], token_ids: &Vec<usize>) -> (r: Option<usize>)
    ensures
        match r {
            Some(i) => i < seeds.len() && seeds@[i as int]@ == token_ids@ && forall|k: int|
                0 <= k < i ==> (#[trigger] seeds@[k])@ != token_ids@,
            None => forall|k: int| 0 <= k < seeds.len() ==> (#[trigger] seeds@[k])@ != token_ids@,
        },
{
    let mut i: usize = 0;
    while i < seeds.len()
        invariant
            i <= seeds.len(),
            forall|k: int| 0 <= k < i ==> (#[trigger] seeds@[k])@ != token_ids@,
        decreases seeds.len() - i,
    {
        if same_path(&seeds[i], token_ids) {
            return Some(i);
        }
        i = i + 1;
    }
    None
}

/// Why a static-embedding weight file is refused.
#[derive(Debug, Clone, Copy, PartialEq, Eq, Structural)]
pub enum EmbeddingTensorError {
    HeaderInvalid,
    HeaderTooLarge,
    HeaderTruncated,
    /// The header is not JSON.
    HeaderNotJson,
    MissingTensor,
    NotF32,
    NotMatrix,
    InvalidRowCount,
    InvalidDimension,
    InvalidOffsets,
    InvalidDataStart,
    InvalidDataEnd,
    MatrixTooLarge,
    ByteCountMismatch,
    DataOffsetTooLarge,
    VocabularyTooSmall,
    TensorBeyondFile,
}

/// The text of each error.
pub open spec fn embedding_error_text(e: EmbeddingTensorError) -> Seq<char> {
    match e {
        EmbeddingTensorError::HeaderInvalid => "static embedding safetensors header is invalid"@,
        EmbeddingTensorError::HeaderTooLarge => "static embedding safetensors header is too large"@,
        EmbeddingTensorError::HeaderTruncated => "static embedding safetensors header is truncated"@,
        EmbeddingTensorError::HeaderNotJson => "failed to parse static embedding safetensors header"@,
        EmbeddingTensorError::MissingTensor => "static embedding has no embedding.weight tensor"@,
        EmbeddingTensorError::NotF32 => "static embedding.weight must use F32"@,
        EmbeddingTensorError::NotMatrix => "static embedding.weight must be a matrix"@,
        EmbeddingTensorError::InvalidRowCount => "static embedding row count is invalid"@,
        EmbeddingTensorError::InvalidDimension => "static embedding dimension is invalid"@,
        EmbeddingTensorError::InvalidOffsets => "static embedding data offsets are invalid"@,
        EmbeddingTensorError::InvalidDataStart => "static embedding data start is invalid"@,
        EmbeddingTensorError::InvalidDataEnd => "static embedding data end is invalid"@,
        EmbeddingTensorError::MatrixTooLarge => "static embedding matrix is too large"@,
        EmbeddingTensorError::ByteCountMismatch => "static embedding tensor byte count does not match its shape"@,
        EmbeddingTensorError::DataOffsetTooLarge => "static embedding data offset is too large"@,
        EmbeddingTensorError::VocabularyTooSmall => "static embedding vocabulary is smaller than its unknown token id"@,
        EmbeddingTensorError::TensorBeyondFile => "static embedding tensor extends beyond model.safetensors"@,
    }
}

impl EmbeddingTensorError {
    /// The error's text.
    pub fn message(self) -> (r: &'static str)
        ensures
            r@ == embedding_error_text(self),
    {
        match self {
            EmbeddingTensorError::HeaderInvalid => "static embedding safetensors header is invalid",
            EmbeddingTensorError::HeaderTooLarge => "static embedding safetensors header is too large",
            EmbeddingTensorError::HeaderTruncated => "static embedding safetensors header is truncated",
            EmbeddingTensorError::HeaderNotJson => "failed to parse static embedding safetensors header",
            EmbeddingTensorError::MissingTensor => "static embedding has no embedding.weight tensor",
            EmbeddingTensorError::NotF32 => "static embedding.weight must use F32",
            EmbeddingTensorError::NotMatrix => "static embedding.weight must be a matrix",
            EmbeddingTensorError::InvalidRowCount => "static embedding row count is invalid",
            EmbeddingTensorError::InvalidDimension => "static embedding dimension is invalid",
            EmbeddingTensorError::InvalidOffsets => "static embedding data offsets are invalid",
            EmbeddingTensorError::InvalidDataStart => "static embedding data start is invalid",
            EmbeddingTensorError::InvalidDataEnd => "static embedding data end is invalid",
            EmbeddingTensorError::MatrixTooLarge => "static embedding matrix is too large",
            EmbeddingTensorError::ByteCountMismatch => "static embedding tensor byte count does not match its shape",
            EmbeddingTensorError::DataOffsetTooLarge => "static embedding data offset is too large",
            EmbeddingTensorError::VocabularyTooSmall => "static embedding vocabulary is smaller than its unknown token id",
            EmbeddingTensorError::TensorBeyondFile => "static embedding tensor extends beyond model.safetensors",
        }
    }
}

/// `256` to the power `n`.
pub open spec fn pow256(n: nat) -> nat
    decreases n,
{
    if n == 0 {
        1
    } else {
        256 * pow256((n - 1) as nat)
    }
}

/// The little-endian value of `bytes[from..to]`.
pub open spec fn le_value(bytes: Seq<u8>, from: int, to: int) -> nat
    decreases to - from,
{
    if from >= to {
        0
    } else {
        bytes[from] as nat + 256 * le_value(bytes, from + 1, to)
    }
}

proof fn lemma_le_value_bound(bytes: Seq<u8>, from: int, to: int)
    requires
        from <= to,
    ensures
        le_value(bytes, from, to) < pow256((to - from) as nat),
    decreases to - from,
{
    if from < to {
        lemma_le_value_bound(bytes, from + 1, to);
        let rest = le_value(bytes, from + 1, to);
        let bound = pow256((to - from - 1) as nat);
        assert(bytes[from] as nat + 256 * rest < 256 * bound) by (nonlinear_arith)
            requires
                rest < bound,
                bytes[from] < 256,
        ;
    }
}

/// The header end that the first eight bytes of a safetensors file announce.
pub open spec fn spec_header_end(bytes: Seq<u8>) -> Result<usize, EmbeddingTensorError> {
    if bytes.len() < 8 || le_value(bytes, 0, 8) > usize::MAX {
        Err(EmbeddingTensorError::HeaderInvalid)
    } else if 8 + le_value(bytes, 0, 8) > usize::MAX {
        Err(EmbeddingTensorError::HeaderTooLarge)
    } else if bytes.len() < 8 + le_value(bytes, 0, 8) {
        Err(EmbeddingTensorError::HeaderTruncated)
    } else {
        Ok((8 + le_value(bytes, 0, 8)) as usize)
    }
}

/// Reads the little-endian header length of a safetensors file and returns
/// where its JSON header ends.
pub fn safetensors_header_end(bytes: &[u8]) -> (r: Result<usize, EmbeddingTensorError>)
    ensures
        r == spec_header_end(bytes@),
{
    if bytes.len() < 8 {
        return Err(EmbeddingTensorError::HeaderInvalid);
    }
    let mut value: u64 = 0;
    let mut k: usize = 8;
    while k > 0
        invariant
            k <= 8,
            bytes@.len() >= 8,
            value as nat == le_value(bytes@, k as int, 8),
        decreases k,
    {
        proof {
            lemma_le_value_bound(bytes@, k as int, 8);
            reveal_with_fuel(pow256, 8);
            assert(pow256((8 - k) as nat) <= pow256(7)) by {
                lemma_pow256_monotone((8 - k) as nat, 7);
            }
            assert(value * 256 + 255 <= u64::MAX) by (nonlinear_arith)
                requires
                    value < pow256(7),
                    pow256(7) == 72057594037927936,
            ;
        }
        value = value * 256 + bytes[k - 1] as u64;
        k = k - 1;
    }
    if value > usize::MAX as u64 {
        return Err(EmbeddingTensorError::HeaderInvalid);
    }
    let length = value as usize;
    if length > usize::MAX - 8 {
        return Err(EmbeddingTensorError::HeaderTooLarge);
    }
    let end = 8 + length;
    if bytes.len() < end {
        return Err(EmbeddingTensorError::HeaderTruncated);
    }
    Ok(end)
}

proof fn lemma_pow256_monotone(a: nat, b: nat)
    requires
        a <= b,
    ensures
        pow256(a) <= pow256(b),
    decreases b,
{
    if a < b {
        lemma_pow256_monotone(a, (b - 1) as nat);
    }
}

/// What the JSON header says of the `embedding.weight` tensor: the dtype when
/// it is a string, and the shape and data offsets when they are arrays, with
/// each entry when it is an unsigned integer.
#[derive(Debug, Clone, PartialEq)]
pub struct EmbeddingTensorHeader {
    pub dtype: Option<String>,
    pub shape: Option<Vec<Option<u64>>>,
    pub data_offsets: Option<Vec<Option<u64>>>,
}

/// Where the embedding matrix lies in the weight file.
#[derive(Debug, Clone, Copy, PartialEq, Eq, Structural)]
pub struct EmbeddingTensorLayout {
    pub rows: usize,
    pub dimensions: usize,
    pub data_offset: usize,
    pub data_length: usize,
}

/// An unsigned header entry that fits `usize`.
pub open spec fn entry_usize(entry: Option<u64>) -> Option<usize> {
    match entry {
        Some(v) => if v <= usize::MAX {
            Some(v as usize)
        } else {
            None
        },
        None => None,
    }
}

/// An optional array of header entries, as a sequence.
pub open spec fn entries_view(entries: Option<Vec<Option<u64>>>) -> Option<Seq<Option<u64>>> {
    match entries {
        Some(values) => Some(values@),
        None => None,
    }
}

/// What a decoded `embedding.weight` entry holds, as plain values: the
/// dtype, the shape entries and the data-offset entries.
pub open spec fn tensor_header_view(header: EmbeddingTensorHeader) -> (
    Option<Seq<char>>,
    Option<Seq<Option<u64>>>,
    Option<Seq<Option<u64>>>,
) {
    (
        match header.dtype {
            Some(text) => Some(text@),
            None => None,
        },
        entries_view(header.shape),
        entries_view(header.data_offsets),
    )
}

/// Whether a header array is present with exactly two entries.
pub open spec fn is_pair(entries: Option<Seq<Option<u64>>>) -> bool {
    entries is Some && entries->0.len() == 2
}

/// The layout of the matrix that a decoded `embedding.weight` entry
/// describes, or why it is refused, for a header ending at `header_end`.
pub open spec fn spec_entry_layout(
    header_end: usize,
    entry: Option<(Option<Seq<char>>, Option<Seq<Option<u64>>>, Option<Seq<Option<u64>>>)>,
) -> Result<EmbeddingTensorLayout, EmbeddingTensorError> {
    match entry {
        None => Err(EmbeddingTensorError::MissingTensor),
        Some((dtype, shape, offsets)) => {
            if !(dtype is Some && dtype->0 == seq!['F', '3', '2']) {
                Err(EmbeddingTensorError::NotF32)
            } else if !is_pair(shape) {
                Err(EmbeddingTensorError::NotMatrix)
            } else if entry_usize(shape->0[0]) is None {
                Err(EmbeddingTensorError::InvalidRowCount)
            } else if entry_usize(shape->0[1]) is None {
                Err(EmbeddingTensorError::InvalidDimension)
            } else if !is_pair(offsets) {
                Err(EmbeddingTensorError::InvalidOffsets)
            } else if entry_usize(offsets->0[0]) is None {
                Err(EmbeddingTensorError::InvalidDataStart)
            } else if entry_usize(offsets->0[1]) is None {
                Err(EmbeddingTensorError::InvalidDataEnd)
            } else {
                let rows = entry_usize(shape->0[0])->0;
                let dimensions = entry_usize(shape->0[1])->0;
                let start = entry_usize(offsets->0[0])->0;
                let end = entry_usize(offsets->0[1])->0;
                let expected = rows * dimensions * 4;
                if expected > usize::MAX {
                    Err(EmbeddingTensorError::MatrixTooLarge)
                } else if end < start || end - start != expected {
                    Err(EmbeddingTensorError::ByteCountMismatch)
                } else if header_end + start > usize::MAX {
                    Err(EmbeddingTensorError::DataOffsetTooLarge)
                } else {
                    Ok(
                        EmbeddingTensorLayout {
                            rows,
                            dimensions,
                            data_offset: (header_end + start) as usize,
                            data_length: expected as usize,
                        },
                    )
                }
            }
        },
    }
}

/// The layout of the `embedding.weight` tensor, or why it is refused, for a
/// header ending at `header_end`.
pub open spec fn spec_tensor_layout(header_end: usize, tensor: Option<EmbeddingTensorHeader>) -> Result<
    EmbeddingTensorLayout,
    EmbeddingTensorError,
> {
    spec_entry_layout(
        header_end,
        match tensor {
            Some(t) => Some(tensor_header_view(t)),
            None => None,
        },
    )
}

fn entry_to_usize(entry: Option<u64>) -> (r: Option<usize>)
    ensures
        r == entry_usize(entry),
{
    match entry {
        Some(v) => if v <= usize::MAX as u64 {
            Some(v as usize)
        } else {
            None
        },
        None => None,
    }
}

fn pair_of(entries: &Option<Vec<Option<u64>>>) -> (r: Option<(Option<u64>, Option<u64>)>)
    ensures
        match r {
            Some((a, b)) => is_pair(entries_view(*entries)) && a == entries->0@[0] && b == entries->0@[1],
            None => !is_pair(entries_view(*entries)),
        },
{
    match entries {
        Some(values) => if values.len() == 2 {
            Some((values[0], values[1]))
        } else {
            None
        },
        None => None,
    }
}

fn is_f32_dtype(dtype: &Option<String>) -> (r: bool)
    ensures
        r == (dtype is Some && dtype->0@ == seq!['F', '3', '2']),
{
    match dtype {
        Some(text) => {
            let chars = crate::text::chars_of(text.as_str());
            let r = chars.len() == 3 && chars[0] == 'F' && chars[1] == '3' && chars[2] == '2';
            proof {
                if r {
                    assert(chars@ =~= seq!['F', '3', '2']);
                }
            }
            r
        },
        None => false,
    }
}

/// Checks the `embedding.weight` entry of a safetensors header that ends at
/// `header_end` and locates the matrix it describes.
pub fn embedding_tensor_layout(header_end: usize, tensor: &Option<EmbeddingTensorHeader>) -> (r: Result<
    EmbeddingTensorLayout,
    EmbeddingTensorError,
>)
    ensures
        r == spec_tensor_layout(header_end, *tensor),
{
    let t = match tensor {
        None => {
            return Err(EmbeddingTensorError::MissingTensor);
        },
        Some(t) => t,
    };
    if !is_f32_dtype(&t.dtype) {
        return Err(EmbeddingTensorError::NotF32);
    }
    let (row_entry, dimension_entry) = match pair_of(&t.shape) {
        Some(pair) => pair,
        None => {
            return Err(EmbeddingTensorError::NotMatrix);
        },
    };
    let rows = match entry_to_usize(row_entry) {
        Some(v) => v,
        None => {
            return Err(EmbeddingTensorError::InvalidRowCount);
        },
    };
    let dimensions = match entry_to_usize(dimension_entry) {
        Some(v) => v,
        None => {
            return Err(EmbeddingTensorError::InvalidDimension);
        },
    };
    let (start_entry, end_entry) = match pair_of(&t.data_offsets) {
        Some(pair) => pair,
        None => {
            return Err(EmbeddingTensorError::InvalidOffsets);
        },
    };
    let start = match entry_to_usize(start_entry) {
        Some(v) => v,
        None => {
            return Err(EmbeddingTensorError::InvalidDataStart);
        },
    };
    let end = match entry_to_usize(end_entry) {
        Some(v) => v,
        None => {
            return Err(EmbeddingTensorError::InvalidDataEnd);
        },
    };
    let values = match rows.checked_mul(dimensions) {
        Some(v) => v,
        None => {
            proof {
                assert(rows * dimensions * 4 > usize::MAX) by (nonlinear_arith)
                    requires
                        rows * dimensions > usize::MAX,
                ;
            }
            return Err(EmbeddingTensorError::MatrixTooLarge);
        },
    };
    let expected = match values.checked_mul(4) {
        Some(v) => v,
        None => {
            return Err(EmbeddingTensorError::MatrixTooLarge);
        },
    };
    if end < start || end - start != expected {
        return Err(EmbeddingTensorError::ByteCountMismatch);
    }
    match header_end.checked_add(start) {
        Some(data_offset) => Ok(EmbeddingTensorLayout { rows, dimensions, data_offset, data_length: expected }),
        None => Err(EmbeddingTensorError::DataOffsetTooLarge),
    }
}

/// What `serde_json` decodes from a safetensors JSON header, as far as the
/// `embedding.weight` entry goes: nothing when the header is not JSON,
/// `Some(None)` when it has no such entry.
pub uninterp spec fn json_embedding_entry(header: Seq<u8>) -> Option<
    Option<(Option<Seq<char>>, Option<Seq<Option<u64>>>, Option<Seq<Option<u64>>>)>,
>;

/// Decodes a JSON header with `serde_json::from_slice` into a
/// `serde_json::Value` and reads its `embedding.weight` entry with
/// `Value::get`, `as_str`, `as_array` and `as_u64`. Trusted: the result is
/// only named (`json_embedding_entry` of the header bytes); what JSON text
/// decodes to what is left to `serde_json`.
#[verifier::external_body]
fn decode_embedding_entry(header: &[u8]) -> (r: Option<Option<EmbeddingTensorHeader>>)
    ensures
        match r {
            None => json_embedding_entry(header@) is None,
            Some(None) => json_embedding_entry(header@) == Some(
                None::<(Option<Seq<char>>, Option<Seq<Option<u64>>>, Option<Seq<Option<u64>>>)>,
            ),
            Some(Some(h)) => json_embedding_entry(header@) == Some(Some(tensor_header_view(h))),
        },
{
    let value: serde_json::Value = serde_json::from_slice(header).ok()?;
    let tensor = match value.get("embedding.weight") {
        Some(tensor) => tensor,
        None => return Some(None),
    };
    let entries = |key: &str| tensor.get(key).and_then(serde_json::Value::as_array);
    Some(Some(EmbeddingTensorHeader {
        dtype: tensor.get("dtype").and_then(serde_json::Value::as_str).map(str::to_owned),
        shape: entries("shape").map(|a| a.iter().map(serde_json::Value::as_u64).collect()),
        data_offsets: entries("data_offsets").map(|a| a.iter().map(serde_json::Value::as_u64).collect()),
    }))
}

/// The matrix layout of a static-embedding weight file, or why it is
/// refused: the header length, then the JSON header, then its
/// `embedding.weight` entry.
pub open spec fn spec_parse_embedding_tensor(bytes: Seq<u8>) -> Result<EmbeddingTensorLayout, EmbeddingTensorError> {
    match spec_header_end(bytes) {
        Err(e) => Err(e),
        Ok(end) => match json_embedding_entry(bytes.subrange(8, end as int)) {
            None => Err(EmbeddingTensorError::HeaderNotJson),
            Some(entry) => spec_entry_layout(end, entry),
        },
    }
}

/// Locates the `embedding.weight` matrix of a safetensors file's bytes.
pub fn parse_embedding_tensor(bytes: &[u8]) -> (r: Result<EmbeddingTensorLayout, EmbeddingTensorError>)
    ensures
        r == spec_parse_embedding_tensor(bytes@),
{
    let end = match safetensors_header_end(bytes) {
        Ok(end) => end,
        Err(e) => {
            return Err(e);
        },
    };
    let header = vstd::slice::slice_subrange(bytes, 8, end);
    match decode_embedding_entry(header) {
        None => Err(EmbeddingTensorError::HeaderNotJson),
        Some(entry) => {
            let r = embedding_tensor_layout(end, &entry);
            proof {
                assert(json_embedding_entry(bytes@.subrange(8, end as int)) == Some(
                    match entry {
                        Some(t) => Some(tensor_header_view(t)),
                        None => None,
                    },
                ));
            }
            r
        },
    }
}

/// Whether the matrix covers the tokenizer's unknown token and lies inside
/// a weight file of `file_len` bytes.
pub open spec fn spec_check_embedding_fits(
    layout: EmbeddingTensorLayout,
    unknown_id: usize,
    file_len: usize,
) -> Result<(), EmbeddingTensorError> {
    if layout.rows <= unknown_id {
        Err(EmbeddingTensorError::VocabularyTooSmall)
    } else if layout.data_offset + layout.data_length > file_len {
        Err(EmbeddingTensorError::TensorBeyondFile)
    } else {
        Ok(())
    }
}

/// Checks that the located matrix can serve the tokenizer and the file.
pub fn check_embedding_fits(layout: EmbeddingTensorLayout, unknown_id: usize, file_len: usize) -> (r: Result<
    (),
    EmbeddingTensorError,
>)
    ensures
        r == spec_check_embedding_fits(layout, unknown_id, file_len),
{
    if layout.rows <= unknown_id {
        return Err(EmbeddingTensorError::VocabularyTooSmall);
    }
    match layout.data_offset.checked_add(layout.data_length) {
        Some(end) => if end > file_len {
            Err(EmbeddingTensorError::TensorBeyondFile)
        } else {
            Ok(())
        },
        None => Err(EmbeddingTensorError::TensorBeyondFile),
    }
}

} // verus!
