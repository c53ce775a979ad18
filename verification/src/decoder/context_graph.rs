//! The token trie of the hotword context graph: one node per distinct token
//! prefix of the registered paths, with failure and output links that make
//! it an Aho-Corasick automaton over token ids.
use vstd::prelude::*;
use crate::decoder::hotword::{
    find_hotword_matches,
    match_views,
    spec_find_matches,
    spec_validate_hotword_paths,
    validate_hotword_paths,
    HotwordGraphError,
    HotwordMatch,
    HotwordTokenPath,
};
use crate::decoder::rnnt::{first_occurrences, no_duplicates};

verus! {

/// One trie node; its token prefix is kept in the trie's ghost state.
struct ContextNode {
    terminal: bool,
    terminal_paths: Vec<usize>,
    depth: usize,
    parent: usize,
    token: usize,
    fail: usize,
    output: Option<usize>,
    children: Vec<(usize, usize)>,
    injectable_children: Vec<usize>,
}

/// A trie of hotword token paths with Aho-Corasick links, used to bias a
/// decoder towards registered hotwords. A state is a node of the trie and
/// stands for the longest suffix of the emitted tokens that is also a prefix
/// of a registered path; completing a path returns to the root, so the next
/// hotword can start at once.
pub struct HotwordContextGraph {
    nodes: Vec<ContextNode>,
    continuations: Vec<Vec<usize>>,
    paths: Vec<HotwordTokenPath>,
    injects: Ghost<Seq<bool>>,
    prefixes: Ghost<Seq<Seq<usize>>>,
}

/// What one token does to a graph state.
#[derive(Debug, Clone, Copy, PartialEq, Eq)]
pub struct HotwordStep {
    /// The state of the longest suffix that is a hotword prefix.
    pub reached: usize,
    /// The state of the longest suffix that is a whole registered path.
    pub matched: Option<usize>,
    /// The state to continue from: the root after a completed path.
    pub next_state: usize,
}

/// The prefixes of length 1 to `count` of `tokens`.
pub open spec fn path_walk(tokens: Seq<usize>, count: int) -> Seq<Seq<usize>>
    decreases count,
{
    if count <= 0 {
        Seq::empty()
    } else {
        path_walk(tokens, count - 1).push(tokens.take(count))
    }
}

/// The empty prefix, then every non-empty prefix of the first `count` paths
/// in path order: the order in which the build meets them.
pub open spec fn trie_walk(paths: Seq<HotwordTokenPath>, count: int) -> Seq<Seq<usize>>
    decreases count,
{
    if count <= 0 {
        seq![Seq::<usize>::empty()]
    } else {
        trie_walk(paths, count - 1) + path_walk(
            paths[count - 1].tokens@,
            paths[count - 1].tokens@.len() as int,
        )
    }
}

/// The ids, in order, of the first `count` paths that spell exactly `x`.
pub open spec fn paths_spelling(paths: Seq<HotwordTokenPath>, x: Seq<usize>, count: int) -> Seq<usize>
    decreases count,
{
    if count <= 0 {
        Seq::empty()
    } else {
        paths_spelling(paths, x, count - 1) + if paths[count - 1].tokens@ == x {
            seq![(count - 1) as usize]
        } else {
            Seq::empty()
        }
    }
}

/// The token that path `p` spells right after `x`, when `x` is a proper
/// prefix of it and the path injects continuations.
pub open spec fn injected_after(
    paths: Seq<HotwordTokenPath>,
    injects: Seq<bool>,
    x: Seq<usize>,
    p: int,
    limit: int,
) -> Seq<usize> {
    let tokens = paths[p].tokens@;
    if injects[p] && x.len() < limit && x.len() < tokens.len() && tokens.take(x.len() as int) == x {
        seq![tokens[x.len() as int]]
    } else {
        Seq::empty()
    }
}

/// The continuation tokens after `x` of the first `count` paths, in path
/// order, repeats included.
pub open spec fn continuations_after(
    paths: Seq<HotwordTokenPath>,
    injects: Seq<bool>,
    x: Seq<usize>,
    count: int,
) -> Seq<usize>
    decreases count,
{
    if count <= 0 {
        Seq::empty()
    } else {
        continuations_after(paths, injects, x, count - 1) + injected_after(
            paths,
            injects,
            x,
            count - 1,
            paths[count - 1].tokens@.len() as int,
        )
    }
}

/// Every edge leads to a later node whose prefix extends its parent's by
/// the edge's token.
#[verifier::opaque]
spec fn trie_edges(nodes: Seq<ContextNode>, prefixes: Seq<Seq<usize>>) -> bool {
    forall|i: int, k: int|
        #![trigger nodes[i].children@[k]]
        0 <= i < nodes.len() && 0 <= k < nodes[i].children@.len() ==> {
            let (token, child) = nodes[i].children@[k];
            &&& 0 < child < nodes.len()
            &&& prefixes[child as int] == prefixes[i].push(token)
        }
}

/// No node has two edges on one token.
#[verifier::opaque]
spec fn trie_edges_distinct(nodes: Seq<ContextNode>) -> bool {
    forall|i: int, k1: int, k2: int|
        0 <= i < nodes.len() && 0 <= k1 < nodes[i].children@.len() && 0 <= k2
            < nodes[i].children@.len() && k1 != k2 ==> (#[trigger] nodes[i].children@[k1]).0 != (
        #[trigger] nodes[i].children@[k2]).0
}

/// Every node but the root is the target of an edge on its last token.
#[verifier::opaque]
spec fn trie_reached(nodes: Seq<ContextNode>, prefixes: Seq<Seq<usize>>) -> bool {
    forall|c: int|
        #![trigger prefixes[c]]
        1 <= c < nodes.len() ==> prefixes[c].len() >= 1 && exists|i: int, k: int|
            #[trigger] is_edge_to(nodes, i, k, prefixes[c].last(), c)
}

/// Edge `k` of node `i` leads on `token` to node `c`.
spec fn is_edge_to(nodes: Seq<ContextNode>, i: int, k: int, token: usize, c: int) -> bool {
    &&& 0 <= i < nodes.len()
    &&& 0 <= k < nodes[i].children@.len()
    &&& nodes[i].children@[k].0 == token
    &&& nodes[i].children@[k].1 == c
}

/// Every node but the root records its parent and the token leading to it.
#[verifier::opaque]
spec fn trie_parents(nodes: Seq<ContextNode>, prefixes: Seq<Seq<usize>>) -> bool {
    forall|c: int|
        1 <= c < nodes.len() ==> prefixes[c].len() >= 1 && (#[trigger] nodes[c]).parent < nodes.len()
            && prefixes[nodes[c].parent as int] == prefixes[c].drop_last() && nodes[c].token
            == prefixes[c].last()
}

/// The structure of a trie: node 0 is the empty prefix, every node spells a
/// distinct prefix, every edge extends its parent's prefix by its token,
/// and every other node hangs below the node of its prefix without the last
/// token.
#[verifier::opaque]
spec fn trie_structure(nodes: Seq<ContextNode>, prefixes: Seq<Seq<usize>>) -> bool {
    &&& nodes.len() == prefixes.len()
    &&& 1 <= nodes.len() <= usize::MAX
    &&& prefixes[0] == Seq::<usize>::empty()
    &&& no_duplicates(prefixes)
    &&& forall|n: int| 0 <= n < nodes.len() ==> (#[trigger] nodes[n]).depth == prefixes[n].len()
    &&& trie_edges(nodes, prefixes)
    &&& trie_edges_distinct(nodes)
    &&& trie_reached(nodes, prefixes)
    &&& trie_parents(nodes, prefixes)
}

/// The facts of the structure that the construction loops need.
proof fn lemma_structure_basics(nodes: Seq<ContextNode>, prefixes: Seq<Seq<usize>>)
    requires
        trie_structure(nodes, prefixes),
    ensures
        nodes.len() == prefixes.len(),
        1 <= nodes.len() <= usize::MAX,
        prefixes[0] == Seq::<usize>::empty(),
        no_duplicates(prefixes),
        forall|n: int| 0 <= n < nodes.len() ==> (#[trigger] nodes[n]).depth == prefixes[n].len(),
        forall|c: int|
            1 <= c < nodes.len() ==> (#[trigger] nodes[c]).parent < nodes.len() && prefixes[nodes[c].parent as int]
                == prefixes[c].drop_last() && nodes[c].token == prefixes[c].last() && prefixes[c].len() >= 1,
{
    reveal(trie_structure);
    reveal(trie_parents);
}

/// The child of node `parent` on `token`, if any.
fn child_of(nodes: &Vec<ContextNode>, Ghost(prefixes): Ghost<Seq<Seq<usize>>>, parent: usize, token: usize) -> (r: Option<usize>)
    requires
        trie_structure(nodes@, prefixes),
        parent < nodes.len(),
    ensures
        match r {
            Some(c) => c < nodes.len() && prefixes[c as int] == prefixes[parent as int].push(token),
            None => !prefixes.contains(prefixes[parent as int].push(token)),
        },
{
    proof {
        reveal(trie_structure);
        reveal(trie_edges);
        reveal(trie_reached);
    }
    let children = &nodes[parent].children;
    let mut k: usize = 0;
    while k < children.len()
        invariant
            trie_structure(nodes@, prefixes),
            parent < nodes.len(),
            children == &nodes@[parent as int].children,
            k <= children@.len(),
            forall|j: int| 0 <= j < k ==> (#[trigger] children@[j]).0 != token,
        decreases children.len() - k,
    {
        let (t, c) = children[k];
        if t == token {
            proof {
                reveal(trie_structure);
                reveal(trie_edges);
                assert(nodes@[parent as int].children@[k as int] == (t, c));
            }
            return Some(c);
        }
        k = k + 1;
    }
    proof {
        let wanted = prefixes[parent as int].push(token);
        if prefixes.contains(wanted) {
            let c = choose|c: int| 0 <= c < prefixes.len() && prefixes[c] == wanted;
            assert(c != 0) by {
                assert(wanted.len() >= 1);
            }
            assert(prefixes[c] == prefixes[c]);
            let (i, kk) = choose|i: int, kk: int| is_edge_to(nodes@, i, kk, prefixes[c].last(), c);
            assert(prefixes[c] == prefixes[i].push(prefixes[c].last()));
            assert(prefixes[i] =~= prefixes[c].drop_last());
            assert(prefixes[parent as int] =~= wanted.drop_last());
            assert(i == parent as int);
            assert(children@[kk].0 == token);
        }
    }
    None
}

/// The elements of the first-occurrence list are those of the list, and
/// none repeats.
pub proof fn lemma_first_occurrences<T>(items: Seq<T>)
    ensures
        forall|x: T| first_occurrences(items).contains(x) <==> items.contains(x),
        no_duplicates(first_occurrences(items)),
    decreases items.len(),
{
    if items.len() > 0 {
        let rest = items.drop_last();
        lemma_first_occurrences(rest);
        let earlier = first_occurrences(rest);
        let last = items.last();
        assert(items =~= rest.push(last));
        assert forall|x: T| items.contains(x) <==> (rest.contains(x) || x == last) by {
            if items.contains(x) {
                let k = choose|k: int| 0 <= k < items.len() && items[k] == x;
                if k < rest.len() {
                    assert(rest[k] == x);
                }
            }
            if rest.contains(x) {
                let k = choose|k: int| 0 <= k < rest.len() && rest[k] == x;
                assert(items[k] == x);
            }
            if x == last {
                assert(items[items.len() - 1] == x);
            }
        }
        if !earlier.contains(last) {
            let pushed = earlier.push(last);
            assert forall|x: T| pushed.contains(x) <==> (earlier.contains(x) || x == last) by {
                if pushed.contains(x) {
                    let k = choose|k: int| 0 <= k < pushed.len() && pushed[k] == x;
                    if k < earlier.len() {
                        assert(earlier[k] == x);
                    }
                }
                if earlier.contains(x) {
                    let k = choose|k: int| 0 <= k < earlier.len() && earlier[k] == x;
                    assert(pushed[k] == x);
                }
                if x == last {
                    assert(pushed[earlier.len() as int] == x);
                }
            }
        }
        if !earlier.contains(items.last()) {
            let pushed = earlier.push(items.last());
            assert forall|a: int, b: int|
                0 <= a < pushed.len() && 0 <= b < pushed.len() && a != b implies pushed[a] != pushed[b] by {
                if a == earlier.len() {
                    assert(earlier.contains(pushed[b]));
                } else if b == earlier.len() {
                    assert(earlier.contains(pushed[a]));
                }
            }
        }
    }
}

proof fn lemma_path_walk_contains(tokens: Seq<usize>, count: int, j: int)
    requires
        1 <= j <= count,
    ensures
        path_walk(tokens, count).contains(tokens.take(j)),
    decreases count,
{
    if j < count {
        lemma_path_walk_contains(tokens, count - 1, j);
        let shorter = path_walk(tokens, count - 1);
        let k = choose|k: int| 0 <= k < shorter.len() && shorter[k] == tokens.take(j);
        assert(path_walk(tokens, count)[k] == tokens.take(j));
    } else {
        let w = path_walk(tokens, count);
        assert(w[w.len() - 1] == tokens.take(j));
    }
}

proof fn lemma_path_walk_len(tokens: Seq<usize>, count: int)
    requires
        0 <= count,
    ensures
        path_walk(tokens, count).len() == count,
    decreases count,
{
    if count > 0 {
        lemma_path_walk_len(tokens, count - 1);
    }
}

/// Every non-empty prefix of an earlier path occurs in the walk.
proof fn lemma_trie_walk_contains(paths: Seq<HotwordTokenPath>, count: int, q: int, j: int)
    requires
        0 <= q < count,
        1 <= j <= paths[q].tokens@.len(),
    ensures
        trie_walk(paths, count).contains(paths[q].tokens@.take(j)),
    decreases count,
{
    let x = paths[q].tokens@.take(j);
    let before = trie_walk(paths, count - 1);
    let tail = path_walk(paths[count - 1].tokens@, paths[count - 1].tokens@.len() as int);
    if q < count - 1 {
        lemma_trie_walk_contains(paths, count - 1, q, j);
        let k = choose|k: int| 0 <= k < before.len() && before[k] == x;
        assert((before + tail)[k] == x);
    } else {
        lemma_path_walk_contains(paths[q].tokens@, paths[q].tokens@.len() as int, j);
        let k = choose|k: int| 0 <= k < tail.len() && tail[k] == x;
        assert((before + tail)[before.len() + k] == x);
    }
}

/// The empty prefix is in every walk.
proof fn lemma_trie_walk_starts_empty(paths: Seq<HotwordTokenPath>, count: int)
    ensures
        trie_walk(paths, count).len() >= 1,
        trie_walk(paths, count)[0] == Seq::<usize>::empty(),
    decreases count,
{
    if count > 0 {
        lemma_trie_walk_starts_empty(paths, count - 1);
    }
}

/// No earlier path spells `x` when `x` is not in the walk.
proof fn lemma_unseen_prefix_has_no_paths(
    paths: Seq<HotwordTokenPath>,
    injects: Seq<bool>,
    x: Seq<usize>,
    count: int,
)
    requires
        0 <= count <= paths.len(),
        x.len() >= 1,
        !trie_walk(paths, count).contains(x),
    ensures
        paths_spelling(paths, x, count) == Seq::<usize>::empty(),
        continuations_after(paths, injects, x, count) == Seq::<usize>::empty(),
    decreases count,
{
    if count > 0 {
        let q = count - 1;
        let tokens = paths[q].tokens@;
        assert(!trie_walk(paths, q).contains(x)) by {
            if trie_walk(paths, q).contains(x) {
                let k = choose|k: int| 0 <= k < trie_walk(paths, q).len() && trie_walk(paths, q)[k] == x;
                assert(trie_walk(paths, count)[k] == x);
            }
        }
        lemma_unseen_prefix_has_no_paths(paths, injects, x, q);
        if tokens == x {
            assert(tokens.take(tokens.len() as int) =~= tokens);
            lemma_trie_walk_contains(paths, count, q, tokens.len() as int);
        }
        if x.len() < tokens.len() && tokens.take(x.len() as int) == x {
            lemma_trie_walk_contains(paths, count, q, x.len() as int);
        }
        assert(paths_spelling(paths, x, count) =~= Seq::<usize>::empty());
        assert(continuations_after(paths, injects, x, count) =~= Seq::<usize>::empty());
    }
}

/// The structure only depends on the children and depths of the nodes.
proof fn lemma_structure_frame(
    before: Seq<ContextNode>,
    after: Seq<ContextNode>,
    prefixes: Seq<Seq<usize>>,
)
    requires
        trie_structure(before, prefixes),
        before.len() == after.len(),
        forall|n: int|
            0 <= n < before.len() ==> (#[trigger] after[n]).children == before[n].children
                && after[n].depth == before[n].depth && after[n].parent == before[n].parent
                && after[n].token == before[n].token,
    ensures
        trie_structure(after, prefixes),
{
    reveal(trie_structure);
    assert forall|n: int| 0 <= n < after.len() implies (#[trigger] after[n]).depth == prefixes[n].len() by {
        assert(before[n].depth == prefixes[n].len());
    }
    assert(trie_edges(after, prefixes)) by {
        reveal(trie_edges);
        assert forall|i: int, k: int|
            0 <= i < after.len() && 0 <= k < after[i].children@.len() implies {
                let (token, child) = #[trigger] after[i].children@[k];
                &&& 0 < child < after.len()
                &&& prefixes[child as int] == prefixes[i].push(token)
            } by {
            assert(after[i].children == before[i].children);
            assert(before[i].children@[k] == after[i].children@[k]);
        }
    }
    assert(trie_edges_distinct(after)) by {
        reveal(trie_edges_distinct);
        assert forall|i: int, k1: int, k2: int|
            0 <= i < after.len() && 0 <= k1 < after[i].children@.len() && 0 <= k2
                < after[i].children@.len() && k1 != k2 implies (#[trigger] after[i].children@[k1]).0 != (
            #[trigger] after[i].children@[k2]).0 by {
            assert(after[i].children == before[i].children);
            assert(before[i].children@[k1] == after[i].children@[k1]);
            assert(before[i].children@[k2] == after[i].children@[k2]);
        }
    }
    assert(trie_reached(after, prefixes)) by {
        reveal(trie_reached);
        assert forall|c: int|
            #![trigger prefixes[c]]
            1 <= c < after.len() implies prefixes[c].len() >= 1 && exists|i: int, k: int|
                #[trigger] is_edge_to(after, i, k, prefixes[c].last(), c) by {
            let (i, k) = choose|i: int, k: int| is_edge_to(before, i, k, prefixes[c].last(), c);
            assert(after[i].children == before[i].children);
            assert(is_edge_to(after, i, k, prefixes[c].last(), c));
        }
    }
    assert(trie_parents(after, prefixes)) by {
        reveal(trie_parents);
        assert forall|c: int| 1 <= c < after.len() implies prefixes[c].len() >= 1 && (#[trigger] after[c]).parent
            < after.len() && prefixes[after[c].parent as int] == prefixes[c].drop_last() && after[c].token
            == prefixes[c].last() by {
            assert(before[c].parent == after[c].parent);
        }
    }
}

fn contains_token(tokens: &Vec<usize>, token: usize) -> (r: bool)
    ensures
        r == tokens@.contains(token),
{
    let mut k: usize = 0;
    while k < tokens.len()
        invariant
            k <= tokens.len(),
            forall|j: int| 0 <= j < k ==> tokens@[j] != token,
        decreases tokens.len() - k,
    {
        if tokens[k] == token {
            return true;
        }
        k = k + 1;
    }
    false
}

/// What each node records after the first `p` paths and the first `i`
/// tokens of path `p`: the paths it ends, and the continuation tokens that
/// injecting paths spell after it, first occurrences in path order.
spec fn node_contents(
    nodes: Seq<ContextNode>,
    prefixes: Seq<Seq<usize>>,
    paths: Seq<HotwordTokenPath>,
    injects: Seq<bool>,
    p: int,
    i: int,
) -> bool {
    forall|n: int|
        #![trigger nodes[n]]
        0 <= n < nodes.len() ==> {
            let x = prefixes[n];
            &&& nodes[n].terminal == (paths_spelling(paths, x, p).len() > 0)
            &&& nodes[n].terminal_paths@ == paths_spelling(paths, x, p)
            &&& nodes[n].injectable_children@ == first_occurrences(
                continuations_after(paths, injects, x, p) + injected_after(paths, injects, x, p, i),
            )
        }
}

/// Adding a child below `parent` keeps the trie structure.
proof fn lemma_structure_add_child(
    before: Seq<ContextNode>,
    after: Seq<ContextNode>,
    prefixes: Seq<Seq<usize>>,
    parent: int,
    token: usize,
)
    requires
        trie_structure(before, prefixes),
        0 <= parent < before.len(),
        !prefixes.contains(prefixes[parent].push(token)),
        after.len() == before.len() + 1,
        after.len() <= usize::MAX,
        forall|n: int|
            0 <= n < before.len() && n != parent ==> (#[trigger] after[n]).children == before[n].children
                && after[n].depth == before[n].depth && after[n].parent == before[n].parent
                && after[n].token == before[n].token,
        after[parent].children@ == before[parent].children@.push((token, before.len() as usize)),
        after[parent].depth == before[parent].depth,
        after[parent].parent == before[parent].parent,
        after[parent].token == before[parent].token,
        after[before.len() as int].children@.len() == 0,
        after[before.len() as int].depth == prefixes[parent].len() + 1,
        after[before.len() as int].parent == parent,
        after[before.len() as int].token == token,
    ensures
        trie_structure(after, prefixes.push(prefixes[parent].push(token))),
{
    reveal(trie_structure);
    let c = before.len() as int;
    let x = prefixes[parent].push(token);
    let grown = prefixes.push(x);
    assert(grown[c] == x);
    assert forall|a: int, b: int| 0 <= a < grown.len() && 0 <= b < grown.len() && a != b implies grown[a]
        != grown[b] by {
        if a == c {
            assert(prefixes.contains(grown[b]));
        } else if b == c {
            assert(prefixes.contains(grown[a]));
        }
    }
    assert forall|n: int| 0 <= n < after.len() implies (#[trigger] after[n]).depth == grown[n].len() by {
        if n < c {
            assert(grown[n] == prefixes[n]);
            assert(before[n].depth == prefixes[n].len());
        }
    }
    lemma_add_child_edges(before, after, prefixes, parent, token);
    lemma_add_child_distinct(before, after, prefixes, parent, token);
    lemma_add_child_reached(before, after, prefixes, parent, token);
    lemma_add_child_parents(before, after, prefixes, parent, token);
}

proof fn lemma_add_child_edges(
    before: Seq<ContextNode>,
    after: Seq<ContextNode>,
    prefixes: Seq<Seq<usize>>,
    parent: int,
    token: usize,
)
    requires
        trie_edges(before, prefixes),
        before.len() == prefixes.len(),
        0 <= parent < before.len(),
        after.len() == before.len() + 1,
        after.len() <= usize::MAX,
        forall|n: int|
            0 <= n < before.len() && n != parent ==> (#[trigger] after[n]).children == before[n].children,
        after[parent].children@ == before[parent].children@.push((token, before.len() as usize)),
        after[before.len() as int].children@.len() == 0,
    ensures
        trie_edges(after, prefixes.push(prefixes[parent].push(token))),
{
    reveal(trie_edges);
    let c = before.len() as int;
    let grown = prefixes.push(prefixes[parent].push(token));
    assert forall|i: int, k: int|
        0 <= i < after.len() && 0 <= k < after[i].children@.len() implies {
            let (t, child) = #[trigger] after[i].children@[k];
            &&& 0 < child < after.len()
            &&& grown[child as int] == grown[i].push(t)
        } by {
        if i == parent {
            if k < before[parent].children@.len() {
                assert(after[i].children@[k] == before[i].children@[k]);
            }
        } else if i < c {
            assert(after[i].children@[k] == before[i].children@[k]);
        }
    }
}

proof fn lemma_add_child_distinct(
    before: Seq<ContextNode>,
    after: Seq<ContextNode>,
    prefixes: Seq<Seq<usize>>,
    parent: int,
    token: usize,
)
    requires
        trie_edges(before, prefixes),
        trie_edges_distinct(before),
        before.len() == prefixes.len(),
        0 <= parent < before.len(),
        !prefixes.contains(prefixes[parent].push(token)),
        after.len() == before.len() + 1,
        forall|n: int|
            0 <= n < before.len() && n != parent ==> (#[trigger] after[n]).children == before[n].children,
        after[parent].children@ == before[parent].children@.push((token, before.len() as usize)),
        after[before.len() as int].children@.len() == 0,
    ensures
        trie_edges_distinct(after),
{
    reveal(trie_edges);
    reveal(trie_edges_distinct);
    let c = before.len() as int;
    assert forall|i: int, k1: int, k2: int|
        0 <= i < after.len() && 0 <= k1 < after[i].children@.len() && 0 <= k2
            < after[i].children@.len() && k1 != k2 implies (#[trigger] after[i].children@[k1]).0 != (
        #[trigger] after[i].children@[k2]).0 by {
        if i == parent {
            let n = before[parent].children@.len() as int;
            if k1 < n && k2 < n {
                assert(after[i].children@[k1] == before[i].children@[k1]);
                assert(after[i].children@[k2] == before[i].children@[k2]);
            } else if k1 == n {
                assert(after[i].children@[k2] == before[i].children@[k2]);
                let (t2, c2) = before[i].children@[k2];
                assert(prefixes[c2 as int] == prefixes[i].push(t2));
                if t2 == token {
                    assert(prefixes.contains(prefixes[c2 as int]));
                }
            } else {
                assert(after[i].children@[k1] == before[i].children@[k1]);
                let (t1, c1) = before[i].children@[k1];
                assert(prefixes[c1 as int] == prefixes[i].push(t1));
                if t1 == token {
                    assert(prefixes.contains(prefixes[c1 as int]));
                }
            }
        } else if i < c {
            assert(after[i].children@[k1] == before[i].children@[k1]);
            assert(after[i].children@[k2] == before[i].children@[k2]);
        }
    }
}

proof fn lemma_add_child_reached(
    before: Seq<ContextNode>,
    after: Seq<ContextNode>,
    prefixes: Seq<Seq<usize>>,
    parent: int,
    token: usize,
)
    requires
        trie_reached(before, prefixes),
        before.len() == prefixes.len(),
        0 <= parent < before.len(),
        after.len() == before.len() + 1,
        after.len() <= usize::MAX,
        forall|n: int|
            0 <= n < before.len() && n != parent ==> (#[trigger] after[n]).children == before[n].children,
        after[parent].children@ == before[parent].children@.push((token, before.len() as usize)),
    ensures
        trie_reached(after, prefixes.push(prefixes[parent].push(token))),
{
    reveal(trie_reached);
    let c = before.len() as int;
    let x = prefixes[parent].push(token);
    let grown = prefixes.push(x);
    assert forall|m: int|
        #![trigger grown[m]]
        1 <= m < after.len() implies grown[m].len() >= 1 && exists|i: int, k: int|
            #[trigger] is_edge_to(after, i, k, grown[m].last(), m) by {
        if m == c {
            let k = before[parent].children@.len() as int;
            assert(after[parent].children@[k] == (token, before.len() as usize));
            assert(grown[m].last() == token);
            assert(is_edge_to(after, parent, k, grown[m].last(), m));
        } else {
            assert(grown[m] == prefixes[m]);
            let (i, k) = choose|i: int, k: int| is_edge_to(before, i, k, prefixes[m].last(), m);
            if i == parent {
                assert(after[i].children@[k] == before[i].children@[k]);
            } else {
                assert(after[i].children == before[i].children);
            }
            assert(is_edge_to(after, i, k, grown[m].last(), m));
        }
    }
}

proof fn lemma_add_child_parents(
    before: Seq<ContextNode>,
    after: Seq<ContextNode>,
    prefixes: Seq<Seq<usize>>,
    parent: int,
    token: usize,
)
    requires
        trie_parents(before, prefixes),
        before.len() == prefixes.len(),
        0 <= parent < before.len(),
        after.len() == before.len() + 1,
        forall|n: int|
            0 <= n < before.len() && n != parent ==> (#[trigger] after[n]).parent == before[n].parent
                && after[n].token == before[n].token,
        after[parent].parent == before[parent].parent,
        after[parent].token == before[parent].token,
        after[before.len() as int].parent == parent,
        after[before.len() as int].token == token,
    ensures
        trie_parents(after, prefixes.push(prefixes[parent].push(token))),
{
    reveal(trie_parents);
    let c = before.len() as int;
    let x = prefixes[parent].push(token);
    let grown = prefixes.push(x);
    assert forall|m: int| 1 <= m < after.len() implies grown[m].len() >= 1 && (#[trigger] after[m]).parent
        < after.len() && grown[after[m].parent as int] == grown[m].drop_last() && after[m].token
        == grown[m].last() by {
        if m == c {
            assert(grown[parent] == prefixes[parent]);
            assert(x.drop_last() =~= prefixes[parent]);
        } else {
            assert(grown[m] == prefixes[m]);
            assert(after[m].parent == before[m].parent);
            assert(before[m] == before[m]);
            assert(grown[before[m].parent as int] == prefixes[before[m].parent as int]);
        }
    }
}

/// Recording the continuation token of path `p` at its node after `i`
/// tokens moves the node contents on to `i + 1` tokens.
proof fn lemma_contents_after_injection(
    before: Seq<ContextNode>,
    after: Seq<ContextNode>,
    prefixes: Seq<Seq<usize>>,
    paths: Seq<HotwordTokenPath>,
    injects: Seq<bool>,
    p: int,
    i: int,
    state: int,
)
    requires
        trie_structure(before, prefixes),
        node_contents(before, prefixes, paths, injects, p, i),
        0 <= p < paths.len(),
        injects.len() == paths.len(),
        0 <= i < paths[p].tokens@.len(),
        0 <= state < before.len(),
        prefixes[state] == paths[p].tokens@.take(i),
        after.len() == before.len(),
        forall|n: int| 0 <= n < before.len() && n != state ==> after[n] == before[n],
        after[state].terminal == before[state].terminal,
        after[state].terminal_paths == before[state].terminal_paths,
        after[state].injectable_children@ == if injects[p] && !before[state].injectable_children@.contains(
            paths[p].tokens@[i],
        ) {
            before[state].injectable_children@.push(paths[p].tokens@[i])
        } else {
            before[state].injectable_children@
        },
    ensures
        node_contents(after, prefixes, paths, injects, p, i + 1),
{
    reveal(trie_structure);
    let tokens = paths[p].tokens@;
    let x = prefixes[state];
    let token = tokens[i];
    assert forall|n: int| 0 <= n < after.len() implies {
        let y = prefixes[n];
        &&& (#[trigger] after[n]).terminal == (paths_spelling(paths, y, p).len() > 0)
        &&& after[n].terminal_paths@ == paths_spelling(paths, y, p)
        &&& after[n].injectable_children@ == first_occurrences(
            continuations_after(paths, injects, y, p) + injected_after(paths, injects, y, p, i + 1),
        )
    } by {
        let y = prefixes[n];
        let c0 = continuations_after(paths, injects, y, p);
        assert(before[n] == before[n]);
        if n != state {
            if y.len() == i && y.len() < tokens.len() && tokens.take(y.len() as int) == y {
                assert(y == x);
            }
            assert(injected_after(paths, injects, y, p, i + 1) == injected_after(paths, injects, y, p, i));
        } else {
            assert(injected_after(paths, injects, x, p, i) =~= Seq::<usize>::empty());
            assert(c0 + Seq::<usize>::empty() =~= c0);
            if injects[p] {
                assert(injected_after(paths, injects, x, p, i + 1) == seq![token]);
                assert((c0 + seq![token]).drop_last() =~= c0);
                assert((c0 + seq![token]).last() == token);
            } else {
                assert(injected_after(paths, injects, x, p, i + 1) =~= Seq::<usize>::empty());
            }
        }
    }
}

/// A node created for a prefix met for the first time ends no earlier path
/// and has no continuation yet; the other nodes keep their contents.
proof fn lemma_contents_after_new_node(
    before: Seq<ContextNode>,
    after: Seq<ContextNode>,
    prefixes: Seq<Seq<usize>>,
    paths: Seq<HotwordTokenPath>,
    injects: Seq<bool>,
    p: int,
    i: int,
    next: Seq<usize>,
)
    requires
        node_contents(before, prefixes, paths, injects, p, i + 1),
        before.len() == prefixes.len(),
        0 <= p < paths.len(),
        0 <= i,
        next.len() == i + 1,
        !trie_walk(paths, p).contains(next),
        after.len() == before.len() + 1,
        forall|n: int|
            0 <= n < before.len() ==> (#[trigger] after[n]).terminal == before[n].terminal
                && after[n].terminal_paths == before[n].terminal_paths
                && after[n].injectable_children == before[n].injectable_children,
        !after[before.len() as int].terminal,
        after[before.len() as int].terminal_paths@.len() == 0,
        after[before.len() as int].injectable_children@.len() == 0,
    ensures
        node_contents(after, prefixes.push(next), paths, injects, p, i + 1),
{
    let grown = prefixes.push(next);
    lemma_unseen_prefix_has_no_paths(paths, injects, next, p);
    assert(injected_after(paths, injects, next, p, i + 1) =~= Seq::<usize>::empty());
    assert(Seq::<usize>::empty() + Seq::<usize>::empty() =~= Seq::<usize>::empty());
    assert(first_occurrences(Seq::<usize>::empty()) =~= Seq::<usize>::empty());
    assert forall|n: int| 0 <= n < after.len() implies {
        let y = grown[n];
        &&& (#[trigger] after[n]).terminal == (paths_spelling(paths, y, p).len() > 0)
        &&& after[n].terminal_paths@ == paths_spelling(paths, y, p)
        &&& after[n].injectable_children@ == first_occurrences(
            continuations_after(paths, injects, y, p) + injected_after(paths, injects, y, p, i + 1),
        )
    } by {
        if n < before.len() {
            assert(grown[n] == prefixes[n]);
            assert(before[n] == before[n]);
        } else {
            assert(grown[n] == next);
        }
    }
}

fn new_node(depth: usize, parent: usize, token: usize) -> (r: ContextNode)
    ensures
        r.depth == depth,
        r.parent == parent,
        r.token == token,
        !r.terminal,
        r.terminal_paths@.len() == 0,
        r.children@.len() == 0,
        r.injectable_children@.len() == 0,
        r.fail == 0,
        r.output is None,
{
    ContextNode {
        terminal: false,
        terminal_paths: Vec::new(),
        depth,
        parent,
        token,
        fail: 0,
        output: None,
        children: Vec::new(),
        injectable_children: Vec::new(),
    }
}

/// Builds the trie nodes of the paths, in the order their prefixes are met.
#[verifier::rlimit(40)]
fn build_nodes(paths: &[HotwordTokenPath], injects: &[bool]) -> (r: (Vec<ContextNode>, Ghost<Seq<Seq<usize>>>))
    requires
        injects.len() == paths.len(),
    ensures
        trie_structure(r.0@, r.1@),
        r.1@ == first_occurrences(trie_walk(paths@, paths@.len() as int)),
        node_contents(r.0@, r.1@, paths@, injects@, paths@.len() as int, 0),
{
    let ghost all = paths@;
    let ghost flags = injects@;
    let mut nodes: Vec<ContextNode> = Vec::new();
    nodes.push(new_node(0, 0, 0));
    let ghost mut prefixes: Seq<Seq<usize>> = seq![Seq::<usize>::empty()];
    proof {
        assert(first_occurrences(Seq::<Seq<usize>>::empty()) =~= Seq::<Seq<usize>>::empty());
        assert(trie_walk(all, 0).drop_last() =~= Seq::<Seq<usize>>::empty());
        assert(first_occurrences(trie_walk(all, 0)) =~= prefixes);
        reveal(trie_structure);
        reveal(trie_edges);
        reveal(trie_edges_distinct);
        reveal(trie_reached);
        reveal(trie_parents);
        assert(trie_structure(nodes@, prefixes));
        assert forall|n: int| 0 <= n < nodes@.len() implies {
            let x = prefixes[n];
            &&& (#[trigger] nodes@[n]).terminal == (paths_spelling(all, x, 0).len() > 0)
            &&& nodes@[n].terminal_paths@ == paths_spelling(all, x, 0)
            &&& nodes@[n].injectable_children@ == first_occurrences(
                continuations_after(all, flags, x, 0) + injected_after(all, flags, x, 0, 0),
            )
        } by {
            let x = prefixes[n];
            assert(injected_after(all, flags, x, 0, 0) =~= Seq::<usize>::empty());
            assert(continuations_after(all, flags, x, 0) + injected_after(all, flags, x, 0, 0)
                =~= Seq::<usize>::empty());
            assert(first_occurrences(Seq::<usize>::empty()) =~= Seq::<usize>::empty());
            assert(paths_spelling(all, x, 0) =~= Seq::<usize>::empty());
        }
    }
    let mut p: usize = 0;
    while p < paths.len()
        invariant
            p <= paths.len(),
            all == paths@,
            flags == injects@,
            injects.len() == paths.len(),
            trie_structure(nodes@, prefixes),
            prefixes == first_occurrences(trie_walk(all, p as int)),
            node_contents(nodes@, prefixes, all, flags, p as int, 0),
        decreases paths.len() - p,
    {
        let tokens = &paths[p].tokens;
        let ghost walk0 = trie_walk(all, p as int);
        let mut state: usize = 0;
        proof {
            lemma_structure_basics(nodes@, prefixes);
            lemma_trie_walk_starts_empty(all, p as int);
            lemma_first_occurrences(walk0);
            assert(walk0.contains(Seq::<usize>::empty())) by {
                assert(walk0[0] == Seq::<usize>::empty());
            }
            assert(prefixes[0] == Seq::<usize>::empty());
            assert(tokens@.take(0) =~= Seq::<usize>::empty());
            assert(walk0 + path_walk(tokens@, 0) =~= walk0);
        }
        let mut i: usize = 0;
        while i < tokens.len()
            invariant
                p < paths.len(),
                i <= tokens.len(),
                all == paths@,
                flags == injects@,
                injects.len() == paths.len(),
                tokens@ == all[p as int].tokens@,
                walk0 == trie_walk(all, p as int),
                trie_structure(nodes@, prefixes),
                prefixes == first_occurrences(walk0 + path_walk(tokens@, i as int)),
                state < nodes.len(),
                prefixes[state as int] == tokens@.take(i as int),
                node_contents(nodes@, prefixes, all, flags, p as int, i as int),
            decreases tokens.len() - i,
        {
            let token = tokens[i];
            let ghost before = nodes@;
            proof {
                lemma_structure_basics(nodes@, prefixes);
            }
            let add = injects[p] && !contains_token(&nodes[state].injectable_children, token);
            if add {
                nodes[state].injectable_children.push(token);
            }
            proof {
                lemma_structure_frame(before, nodes@, prefixes);
                lemma_contents_after_injection(
                    before,
                    nodes@,
                    prefixes,
                    all,
                    flags,
                    p as int,
                    i as int,
                    state as int,
                );
            }
            let ghost next = tokens@.take(i + 1);
            let ghost walk = walk0 + path_walk(tokens@, i as int);
            proof {
                assert(next =~= prefixes[state as int].push(token));
                assert(walk0 + path_walk(tokens@, i + 1) =~= walk.push(next));
                assert((walk.push(next)).drop_last() =~= walk);
                lemma_first_occurrences(walk);
            }
            match child_of(&nodes, Ghost(prefixes), state, token) {
                Some(c) => {
                    proof {
                        assert(prefixes.contains(next)) by {
                            assert(prefixes[c as int] == next);
                        }
                    }
                    state = c;
                },
                None => {
                    let ghost mid = nodes@;
                    let c = nodes.len();
                    proof {
                        assert(!walk.contains(next));
                        assert(!walk0.contains(next)) by {
                            if walk0.contains(next) {
                                let k = choose|k: int| 0 <= k < walk0.len() && walk0[k] == next;
                                assert(walk[k] == next);
                            }
                        }
                    }
                    nodes.push(new_node(i + 1, state, token));
                    nodes[state].children.push((token, c));
                    proof {
                        assert(nodes@.len() == nodes.len());
                        lemma_structure_add_child(mid, nodes@, prefixes, state as int, token);
                        lemma_contents_after_new_node(
                            mid,
                            nodes@,
                            prefixes,
                            all,
                            flags,
                            p as int,
                            i as int,
                            next,
                        );
                        prefixes = prefixes.push(next);
                    }
                    state = c;
                },
            }
            i = i + 1;
        }
        assert(tokens@.take(tokens.len() as int) =~= tokens@);
        let ghost before = nodes@;
        let ghost x = prefixes[state as int];
        nodes[state].terminal = true;
        nodes[state].terminal_paths.push(p);
        proof {
            lemma_structure_frame(before, nodes@, prefixes);
            lemma_structure_basics(nodes@, prefixes);
            assert forall|n: int| 0 <= n < nodes@.len() implies {
                let y = prefixes[n];
                &&& (#[trigger] nodes@[n]).terminal == (paths_spelling(all, y, p + 1).len() > 0)
                &&& nodes@[n].terminal_paths@ == paths_spelling(all, y, p + 1)
                &&& nodes@[n].injectable_children@ == first_occurrences(
                    continuations_after(all, flags, y, p + 1) + injected_after(all, flags, y, p + 1, 0),
                )
            } by {
                let y = prefixes[n];
                assert(injected_after(all, flags, y, p + 1, 0) =~= Seq::<usize>::empty());
                assert(continuations_after(all, flags, y, p + 1) + Seq::<usize>::empty() =~= continuations_after(
                    all,
                    flags,
                    y,
                    p as int,
                ) + injected_after(all, flags, y, p as int, tokens@.len() as int));
                if n != state as int {
                    assert(y != x);
                    assert(paths_spelling(all, y, p + 1) =~= paths_spelling(all, y, p as int));
                } else {
                    assert(paths_spelling(all, y, p + 1) =~= paths_spelling(all, y, p as int).push(p));
                }
            }
        }
        p = p + 1;
    }
    (nodes, Ghost(prefixes))
}


/// `y` ends `x`.
pub open spec fn is_suffix(y: Seq<usize>, x: Seq<usize>) -> bool {
    y.len() <= x.len() && x.subrange(x.len() - y.len(), x.len() as int) == y
}

proof fn lemma_suffix_trans(z: Seq<usize>, y: Seq<usize>, x: Seq<usize>)
    requires
        is_suffix(z, y),
        is_suffix(y, x),
    ensures
        is_suffix(z, x),
{
    assert forall|i: int| 0 <= i < z.len() implies x.subrange(x.len() - z.len(), x.len() as int)[i] == z[i] by {
        assert(y[y.len() - z.len() + i] == x[x.len() - y.len() + (y.len() - z.len() + i)]);
        assert(z[i] == y.subrange(y.len() - z.len(), y.len() as int)[i]);
    }
    assert(x.subrange(x.len() - z.len(), x.len() as int) =~= z);
}

proof fn lemma_suffix_of_suffix(z: Seq<usize>, y: Seq<usize>, x: Seq<usize>)
    requires
        is_suffix(z, x),
        is_suffix(y, x),
        z.len() <= y.len(),
    ensures
        is_suffix(z, y),
{
    assert forall|i: int| 0 <= i < z.len() implies y.subrange(y.len() - z.len(), y.len() as int)[i] == z[i] by {
        assert(y[y.len() - z.len() + i] == x.subrange(x.len() - y.len(), x.len() as int)[y.len() - z.len() + i]);
        assert(z[i] == x.subrange(x.len() - z.len(), x.len() as int)[i]);
    }
    assert(y.subrange(y.len() - z.len(), y.len() as int) =~= z);
}

proof fn lemma_suffix_same_len(a: Seq<usize>, b: Seq<usize>, x: Seq<usize>)
    requires
        is_suffix(a, x),
        is_suffix(b, x),
        a.len() == b.len(),
    ensures
        a == b,
{
}

proof fn lemma_suffix_push(z: Seq<usize>, x: Seq<usize>, t: usize)
    requires
        is_suffix(z, x),
    ensures
        is_suffix(z.push(t), x.push(t)),
{
    let w = x.push(t);
    assert forall|i: int| 0 <= i < z.len() + 1 implies w.subrange(w.len() - (z.len() + 1), w.len() as int)[i]
        == z.push(t)[i] by {
        if i < z.len() {
            assert(z[i] == x.subrange(x.len() - z.len(), x.len() as int)[i]);
        }
    }
    assert(w.subrange(w.len() - (z.len() + 1), w.len() as int) =~= z.push(t));
}

proof fn lemma_suffix_pop(w: Seq<usize>, x: Seq<usize>, t: usize)
    requires
        is_suffix(w, x.push(t)),
        w.len() >= 1,
    ensures
        w.last() == t,
        is_suffix(w.drop_last(), x),
{
    let xt = x.push(t);
    assert(w[w.len() - 1] == xt.subrange(xt.len() - w.len(), xt.len() as int)[w.len() - 1]);
    let z = w.drop_last();
    assert forall|i: int| 0 <= i < z.len() implies x.subrange(x.len() - z.len(), x.len() as int)[i] == z[i] by {
        assert(w[i] == xt.subrange(xt.len() - w.len(), xt.len() as int)[i]);
    }
    assert(x.subrange(x.len() - z.len(), x.len() as int) =~= z);
}

proof fn lemma_suffix_trivial(x: Seq<usize>)
    ensures
        is_suffix(x, x),
        is_suffix(Seq::<usize>::empty(), x),
{
    assert(x.subrange(0, x.len() as int) =~= x);
    assert(x.subrange(x.len() as int, x.len() as int) =~= Seq::<usize>::empty());
}


/// Node `f` spells the longest suffix of `x` shorter than `limit` that is
/// spelled by a node.
spec fn longest_suffix_node(prefixes: Seq<Seq<usize>>, x: Seq<usize>, limit: int, f: int) -> bool {
    &&& 0 <= f < prefixes.len()
    &&& is_suffix(prefixes[f], x)
    &&& prefixes[f].len() < limit
    &&& forall|m: int|
        0 <= m < prefixes.len() && #[trigger] is_suffix(prefixes[m], x) && prefixes[m].len() < limit
            ==> prefixes[m].len() <= prefixes[f].len()
}

/// `o` is the node spelling the longest suffix of `x` shorter than `limit`
/// at which a path ends, if there is one.
spec fn longest_terminal_suffix(
    nodes: Seq<ContextNode>,
    prefixes: Seq<Seq<usize>>,
    x: Seq<usize>,
    limit: int,
    o: Option<usize>,
) -> bool {
    match o {
        Some(f) => {
            &&& f < nodes.len()
            &&& nodes[f as int].terminal
            &&& is_suffix(prefixes[f as int], x)
            &&& prefixes[f as int].len() < limit
            &&& forall|m: int|
                0 <= m < nodes.len() && nodes[m].terminal && #[trigger] is_suffix(prefixes[m], x)
                    && prefixes[m].len() < limit ==> prefixes[m].len() <= prefixes[f as int].len()
        },
        None => forall|m: int|
            0 <= m < nodes.len() && nodes[m].terminal && #[trigger] is_suffix(prefixes[m], x) ==> prefixes[m].len()
                >= limit,
    }
}

/// The failure and output links of node `n`: the longest proper suffix of
/// its prefix spelled by a node, and the longest one at which a path ends.
spec fn node_linked(nodes: Seq<ContextNode>, prefixes: Seq<Seq<usize>>, n: int) -> bool {
    if n == 0 {
        nodes[0].fail == 0 && nodes[0].output is None
    } else {
        &&& longest_suffix_node(prefixes, prefixes[n], prefixes[n].len() as int, nodes[n].fail as int)
        &&& longest_terminal_suffix(nodes, prefixes, prefixes[n], prefixes[n].len() as int, nodes[n].output)
    }
}

/// A node other than the root whose prefix ends in `t` hangs below the node
/// of its prefix without `t`.
proof fn lemma_suffix_node_parent(
    nodes: Seq<ContextNode>,
    prefixes: Seq<Seq<usize>>,
    m: int,
    xp: Seq<usize>,
    t: usize,
)
    requires
        trie_structure(nodes, prefixes),
        0 <= m < nodes.len(),
        prefixes[m].len() >= 1,
        is_suffix(prefixes[m], xp.push(t)),
    ensures
        nodes[m].parent < nodes.len(),
        prefixes[nodes[m].parent as int] == prefixes[m].drop_last(),
        prefixes[m].drop_last().push(t) == prefixes[m],
        is_suffix(prefixes[m].drop_last(), xp),
{
    lemma_structure_basics(nodes, prefixes);
    lemma_suffix_pop(prefixes[m], xp, t);
    assert(m != 0);
    assert(prefixes[m].drop_last().push(t) =~= prefixes[m]);
}

/// Every suffix node of `xp` shorter than `limit` whose extension by `t` is
/// a node is no longer than node `fb`.
spec fn bounds_extensions(prefixes: Seq<Seq<usize>>, xp: Seq<usize>, t: usize, limit: int, fb: int) -> bool {
    forall|m: int|
        0 <= m < prefixes.len() && #[trigger] is_suffix(prefixes[m], xp) && prefixes[m].len() < limit
            && prefixes.contains(prefixes[m].push(t)) ==> prefixes[m].len() <= prefixes[fb].len()
}

/// One step down the failure chain keeps every shorter candidate below the
/// new fallback.
proof fn lemma_fallback_step(
    nodes: Seq<ContextNode>,
    prefixes: Seq<Seq<usize>>,
    xp: Seq<usize>,
    t: usize,
    limit: int,
    fb: int,
)
    requires
        trie_structure(nodes, prefixes),
        0 < fb < nodes.len(),
        node_linked(nodes, prefixes, fb),
        is_suffix(prefixes[fb], xp),
        prefixes[fb].len() < limit,
        !prefixes.contains(prefixes[fb].push(t)),
        bounds_extensions(prefixes, xp, t, limit, fb),
    ensures
        ({
            let g = nodes[fb].fail as int;
            &&& 0 <= g < nodes.len()
            &&& is_suffix(prefixes[g], xp)
            &&& prefixes[g].len() < prefixes[fb].len()
            &&& bounds_extensions(prefixes, xp, t, limit, g)
        }),
{
    lemma_structure_basics(nodes, prefixes);
    let g = nodes[fb].fail as int;
    lemma_suffix_trans(prefixes[g], prefixes[fb], xp);
    assert forall|m: int|
        0 <= m < prefixes.len() && #[trigger] is_suffix(prefixes[m], xp) && prefixes[m].len() < limit
            && prefixes.contains(prefixes[m].push(t)) implies prefixes[m].len() <= prefixes[g].len() by {
        if prefixes[m].len() == prefixes[fb].len() {
            lemma_suffix_same_len(prefixes[m], prefixes[fb], xp);
        }
        lemma_suffix_of_suffix(prefixes[m], prefixes[fb], xp);
    }
}

/// Where the failure chain stops, the edge on `t` (or the root) spells the
/// longest suffix of `xp` extended by `t` that is shorter than `limit + 1`
/// and spelled by a node.
proof fn lemma_extension_target(
    nodes: Seq<ContextNode>,
    prefixes: Seq<Seq<usize>>,
    xp: Seq<usize>,
    t: usize,
    limit: int,
    fb: int,
    found: Option<usize>,
)
    requires
        trie_structure(nodes, prefixes),
        1 <= limit,
        0 <= fb < nodes.len(),
        is_suffix(prefixes[fb], xp),
        prefixes[fb].len() < limit,
        bounds_extensions(prefixes, xp, t, limit, fb),
        match found {
            Some(c) => c < nodes.len() && prefixes[c as int] == prefixes[fb].push(t),
            None => fb == 0 && !prefixes.contains(prefixes[fb].push(t)),
        },
    ensures
        longest_suffix_node(
            prefixes,
            xp.push(t),
            limit + 1,
            match found {
                Some(c) => c as int,
                None => 0,
            },
        ),
{
    lemma_structure_basics(nodes, prefixes);
    let x = xp.push(t);
    let f = match found {
        Some(c) => c as int,
        None => 0,
    };
    match found {
        Some(c) => {
            lemma_suffix_push(prefixes[fb], xp, t);
        },
        None => {
            lemma_suffix_trivial(x);
        },
    }
    assert forall|m: int|
        0 <= m < prefixes.len() && #[trigger] is_suffix(prefixes[m], x) && prefixes[m].len() < limit + 1
            implies prefixes[m].len() <= prefixes[f].len() by {
        if prefixes[m].len() >= 1 {
            lemma_suffix_node_parent(nodes, prefixes, m, xp, t);
            let q = nodes[m].parent as int;
            assert(prefixes.contains(prefixes[q].push(t))) by {
                assert(prefixes[m] == prefixes[q].push(t));
            }
            assert(is_suffix(prefixes[q], xp));
            assert(prefixes[q].len() <= prefixes[fb].len());
            if found is None {
                assert(prefixes[q].len() == 0);
                assert(prefixes[q] =~= prefixes[0]);
                assert(false);
            }
        }
    }
}

/// The longest suffix below `limit` at which a path ends is the node found
/// for `x` itself when a path ends there, and else that node's output link.
proof fn lemma_output_target(
    nodes: Seq<ContextNode>,
    prefixes: Seq<Seq<usize>>,
    x: Seq<usize>,
    limit: int,
    f: int,
)
    requires
        trie_structure(nodes, prefixes),
        longest_suffix_node(prefixes, x, limit, f),
        node_linked(nodes, prefixes, f),
    ensures
        longest_terminal_suffix(
            nodes,
            prefixes,
            x,
            limit,
            if nodes[f].terminal {
                Some(f as usize)
            } else {
                nodes[f].output
            },
        ),
{
    lemma_structure_basics(nodes, prefixes);
    if nodes[f].terminal {
    } else if f == 0 {
        assert forall|m: int|
            0 <= m < nodes.len() && nodes[m].terminal && #[trigger] is_suffix(prefixes[m], x) implies prefixes[m].len()
                >= limit by {
            if prefixes[m].len() < limit {
                assert(prefixes[m].len() <= prefixes[f].len());
                assert(prefixes[m] =~= prefixes[0]);
            }
        }
    } else {
        let y = prefixes[f];
        match nodes[f].output {
            Some(g) => {
                lemma_suffix_trans(prefixes[g as int], y, x);
                assert forall|m: int|
                    0 <= m < nodes.len() && nodes[m].terminal && #[trigger] is_suffix(prefixes[m], x)
                        && prefixes[m].len() < limit implies prefixes[m].len() <= prefixes[g as int].len() by {
                    if prefixes[m].len() == y.len() {
                        lemma_suffix_same_len(prefixes[m], y, x);
                    }
                    lemma_suffix_of_suffix(prefixes[m], y, x);
                }
            },
            None => {
                assert forall|m: int|
                    0 <= m < nodes.len() && nodes[m].terminal && #[trigger] is_suffix(prefixes[m], x) implies prefixes[m].len()
                        >= limit by {
                    if prefixes[m].len() < limit {
                        if prefixes[m].len() == y.len() {
                            lemma_suffix_same_len(prefixes[m], y, x);
                        }
                        lemma_suffix_of_suffix(prefixes[m], y, x);
                    }
                }
            },
        }
    }
}

/// Two node lists with the same trie and the same path contents; only the
/// links may differ.
spec fn same_shape(before: Seq<ContextNode>, after: Seq<ContextNode>) -> bool {
    &&& before.len() == after.len()
    &&& forall|n: int|
        0 <= n < before.len() ==> {
            &&& (#[trigger] after[n]).children == before[n].children
            &&& after[n].depth == before[n].depth
            &&& after[n].parent == before[n].parent
            &&& after[n].token == before[n].token
            &&& after[n].terminal == before[n].terminal
            &&& after[n].terminal_paths == before[n].terminal_paths
            &&& after[n].injectable_children == before[n].injectable_children
        }
}

/// The links of node `m` stay valid when only other nodes' links change.
proof fn lemma_linked_frame(before: Seq<ContextNode>, after: Seq<ContextNode>, prefixes: Seq<Seq<usize>>, m: int)
    requires
        before.len() == after.len(),
        0 <= m < before.len(),
        forall|k: int| 0 <= k < before.len() ==> (#[trigger] after[k]).terminal == before[k].terminal,
        after[m].fail == before[m].fail,
        after[m].output == before[m].output,
        node_linked(before, prefixes, m),
    ensures
        node_linked(after, prefixes, m),
{
    if m != 0 {
        let x = prefixes[m];
        match after[m].output {
            Some(f) => {
                assert(after[f as int].terminal == before[f as int].terminal);
                assert forall|k: int|
                    0 <= k < after.len() && after[k].terminal && #[trigger] is_suffix(prefixes[k], x)
                        && prefixes[k].len() < x.len() implies prefixes[k].len() <= prefixes[f as int].len() by {
                    assert(before[k].terminal);
                }
            },
            None => {
                assert forall|k: int|
                    0 <= k < after.len() && after[k].terminal && #[trigger] is_suffix(prefixes[k], x)
                        implies prefixes[k].len() >= x.len() by {
                    assert(before[k].terminal);
                }
            },
        }
    }
}

/// Walks the failure chain down from `start`, the longest suffix node of
/// `xp` below `limit`, to the longest suffix node of `xp` extended by `t`
/// below `limit + 1`. The nodes passed on the way are linked already.
fn longest_extension(
    nodes: &Vec<ContextNode>,
    Ghost(prefixes): Ghost<Seq<Seq<usize>>>,
    start: usize,
    t: usize,
    Ghost(xp): Ghost<Seq<usize>>,
    Ghost(limit): Ghost<int>,
) -> (f: usize)
    requires
        trie_structure(nodes@, prefixes),
        1 <= limit,
        longest_suffix_node(prefixes, xp, limit, start as int),
        forall|m: int|
            0 <= m < nodes@.len() && 1 <= #[trigger] nodes@[m].depth < limit ==> node_linked(nodes@, prefixes, m),
    ensures
        longest_suffix_node(prefixes, xp.push(t), limit + 1, f as int),
{
    proof {
        lemma_structure_basics(nodes@, prefixes);
    }
    let mut fb: usize = start;
    let mut found = child_of(nodes, Ghost(prefixes), fb, t);
    while fb != 0 && found.is_none()
        invariant
            trie_structure(nodes@, prefixes),
            nodes@.len() == prefixes.len(),
            prefixes[0] == Seq::<usize>::empty(),
            no_duplicates(prefixes),
            forall|m: int| 0 <= m < nodes@.len() ==> (#[trigger] nodes@[m]).depth == prefixes[m].len(),
            forall|m: int|
                0 <= m < nodes@.len() && 1 <= #[trigger] nodes@[m].depth < limit ==> node_linked(nodes@, prefixes, m),
            1 <= limit,
            fb < nodes.len(),
            is_suffix(prefixes[fb as int], xp),
            prefixes[fb as int].len() < limit,
            bounds_extensions(prefixes, xp, t, limit, fb as int),
            match found {
                Some(c) => c < nodes.len() && prefixes[c as int] == prefixes[fb as int].push(t),
                None => !prefixes.contains(prefixes[fb as int].push(t)),
            },
        decreases prefixes[fb as int].len(),
    {
        proof {
            if prefixes[fb as int].len() == 0 {
                assert(prefixes[fb as int] =~= prefixes[0]);
            }
            assert(1 <= nodes@[fb as int].depth < limit);
            lemma_fallback_step(nodes@, prefixes, xp, t, limit, fb as int);
        }
        fb = nodes[fb].fail;
        found = child_of(nodes, Ghost(prefixes), fb, t);
    }
    proof {
        lemma_extension_target(nodes@, prefixes, xp, t, limit, fb as int, found);
    }
    match found {
        Some(c) => c,
        None => 0,
    }
}

/// The failure target of node `n`; every shallower node is linked already.
fn fail_target(nodes: &Vec<ContextNode>, Ghost(prefixes): Ghost<Seq<Seq<usize>>>, n: usize) -> (f: usize)
    requires
        trie_structure(nodes@, prefixes),
        1 <= n < nodes.len(),
        forall|m: int|
            0 <= m < nodes@.len() && 1 <= #[trigger] nodes@[m].depth < nodes@[n as int].depth ==> node_linked(
                nodes@,
                prefixes,
                m,
            ),
    ensures
        longest_suffix_node(prefixes, prefixes[n as int], prefixes[n as int].len() as int, f as int),
{
    proof {
        lemma_structure_basics(nodes@, prefixes);
    }
    let ghost x = prefixes[n as int];
    let p = nodes[n].parent;
    let t = nodes[n].token;
    if nodes[n].depth == 1 {
        proof {
            lemma_suffix_trivial(x);
        }
        return 0;
    }
    let ghost xp = prefixes[p as int];
    proof {
        assert(xp == x.drop_last());
        assert(xp.push(t) =~= x);
        assert(p != 0);
        assert(nodes@[p as int].depth == nodes@[n as int].depth - 1);
    }
    longest_extension(nodes, Ghost(prefixes), nodes[p].fail, t, Ghost(xp), Ghost(xp.len() as int))
}

/// Sets the failure and output links of every node, shallow nodes first.
fn build_failure_links(nodes: Vec<ContextNode>, Ghost(prefixes): Ghost<Seq<Seq<usize>>>) -> (r: Vec<ContextNode>)
    requires
        trie_structure(nodes@, prefixes),
    ensures
        same_shape(nodes@, r@),
        trie_structure(r@, prefixes),
        forall|n: int| 0 <= n < r@.len() ==> node_linked(r@, prefixes, n),
{
    let mut nodes = nodes;
    let ghost original = nodes@;
    proof {
        lemma_structure_basics(nodes@, prefixes);
    }
    let mut max_depth: usize = 0;
    let mut k: usize = 0;
    while k < nodes.len()
        invariant
            k <= nodes.len(),
            forall|m: int| 0 <= m < k ==> (#[trigger] nodes@[m]).depth <= max_depth,
        decreases nodes.len() - k,
    {
        if nodes[k].depth > max_depth {
            max_depth = nodes[k].depth;
        }
        k = k + 1;
    }
    let ghost before = nodes@;
    nodes[0].fail = 0;
    nodes[0].output = None;
    proof {
        lemma_structure_frame(before, nodes@, prefixes);
    }
    let mut d: usize = 0;
    while d < max_depth
        invariant
            d <= max_depth,
            same_shape(original, nodes@),
            trie_structure(nodes@, prefixes),
            forall|m: int| 0 <= m < nodes@.len() ==> (#[trigger] nodes@[m]).depth <= max_depth,
            node_linked(nodes@, prefixes, 0),
            forall|m: int| 0 <= m < nodes@.len() && 1 <= #[trigger] nodes@[m].depth <= d ==> node_linked(nodes@, prefixes, m),
        decreases max_depth - d,
    {
        let layer = d + 1;
        let mut n: usize = 1;
        proof {
            lemma_structure_basics(nodes@, prefixes);
        }
        while n < nodes.len()
            invariant
                layer == d + 1,
                d < max_depth,
                1 <= n <= nodes.len(),
                same_shape(original, nodes@),
                trie_structure(nodes@, prefixes),
                forall|m: int| 0 <= m < nodes@.len() ==> (#[trigger] nodes@[m]).depth <= max_depth,
                node_linked(nodes@, prefixes, 0),
                forall|m: int|
                    0 <= m < nodes@.len() && (1 <= #[trigger] nodes@[m].depth <= d || (nodes@[m].depth == layer && m
                        < n)) ==> node_linked(nodes@, prefixes, m),
            decreases nodes.len() - n,
        {
            if nodes[n].depth == layer {
                let f = fail_target(&nodes, Ghost(prefixes), n);
                proof {
                    lemma_structure_basics(nodes@, prefixes);
                    if f != 0 {
                        assert(prefixes[f as int] != prefixes[0]);
                        assert(nodes@[f as int].depth == prefixes[f as int].len());
                    }
                    lemma_output_target(
                        nodes@,
                        prefixes,
                        prefixes[n as int],
                        prefixes[n as int].len() as int,
                        f as int,
                    );
                }
                let o = if nodes[f].terminal {
                    Some(f)
                } else {
                    nodes[f].output
                };
                let ghost mid = nodes@;
                nodes[n].fail = f;
                nodes[n].output = o;
                proof {
                    lemma_structure_frame(mid, nodes@, prefixes);
                    assert forall|m: int|
                        0 <= m < nodes@.len() && (1 <= #[trigger] nodes@[m].depth <= d || (nodes@[m].depth == layer
                            && m < n + 1)) implies node_linked(nodes@, prefixes, m) by {
                        if m != n {
                            assert(mid[m] == nodes@[m]);
                            lemma_linked_frame(mid, nodes@, prefixes, m);
                        }
                    }
                    lemma_linked_frame(mid, nodes@, prefixes, 0);
                }
            }
            n = n + 1;
        }
        d = d + 1;
    }
    proof {
        assert forall|n: int| 0 <= n < nodes@.len() implies node_linked(nodes@, prefixes, n) by {
            lemma_structure_basics(nodes@, prefixes);
            if n != 0 {
                assert(prefixes[n] != prefixes[0]);
                assert(nodes@[n].depth >= 1);
            }
        }
    }
    nodes
}


/// Each element is smaller than the next.
pub open spec fn strictly_ascending(s: Seq<usize>) -> bool {
    forall|a: int, b: int| 0 <= a < b < s.len() ==> s[a] < s[b]
}

/// Adds `t` to an ascending list unless it is there already.
pub(crate) fn insert_sorted(v: Vec<usize>, t: usize) -> (r: Vec<usize>)
    requires
        strictly_ascending(v@),
    ensures
        strictly_ascending(r@),
        forall|x: usize| r@.contains(x) <==> (v@.contains(x) || x == t),
{
    let mut v = v;
    let mut k: usize = 0;
    while k < v.len() && v[k] < t
        invariant
            k <= v.len(),
            forall|j: int| 0 <= j < k ==> v@[j] < t,
        decreases v.len() - k,
    {
        k = k + 1;
    }
    if k < v.len() && v[k] == t {
        return v;
    }
    let ghost s = v@;
    v.insert(k, t);
    proof {
        let w = v@;
        assert forall|a: int, b: int| 0 <= a < b < w.len() implies w[a] < w[b] by {
            if b < k {
                assert(w[a] == s[a] && w[b] == s[b]);
            } else if b == k {
                assert(w[a] == s[a]);
            } else if a < k {
                assert(w[a] == s[a] && w[b] == s[b - 1]);
                assert(s[k as int] > t);
                if b - 1 > k {
                    assert(s[k as int] < s[b - 1]);
                }
            } else if a == k {
                assert(w[b] == s[b - 1]);
                assert(s[k as int] > t);
                if b - 1 > k {
                    assert(s[k as int] < s[b - 1]);
                }
            } else {
                assert(w[a] == s[a - 1] && w[b] == s[b - 1]);
            }
        }
        assert forall|x: usize| w.contains(x) <==> (s.contains(x) || x == t) by {
            if w.contains(x) {
                let j = choose|j: int| 0 <= j < w.len() && w[j] == x;
                if j < k {
                    assert(s[j] == x);
                } else if j > k {
                    assert(s[j - 1] == x);
                }
            }
            if s.contains(x) {
                let j = choose|j: int| 0 <= j < s.len() && s[j] == x;
                if j < k {
                    assert(w[j] == x);
                } else {
                    assert(w[j + 1] == x);
                }
            }
            if x == t {
                assert(w[k as int] == x);
            }
        }
    }
    v
}

/// `x` occurs among the first `k` elements of `s`.
spec fn occurs_before(s: Seq<usize>, k: int, x: usize) -> bool {
    exists|j: int| 0 <= j < k && s[j] == x
}

/// Adds every element of `src` to an ascending list.
pub(crate) fn insert_all_sorted(acc: Vec<usize>, src: &Vec<usize>) -> (r: Vec<usize>)
    requires
        strictly_ascending(acc@),
    ensures
        strictly_ascending(r@),
        forall|x: usize| r@.contains(x) <==> (acc@.contains(x) || src@.contains(x)),
{
    let ghost start = acc@;
    let mut out = acc;
    let mut k: usize = 0;
    while k < src.len()
        invariant
            k <= src.len(),
            strictly_ascending(out@),
            forall|x: usize| out@.contains(x) <==> (start.contains(x) || occurs_before(src@, k as int, x)),
        decreases src.len() - k,
    {
        let ghost before = out@;
        let ghost k0 = k as int;
        assert(forall|x: usize| before.contains(x) <==> (start.contains(x) || occurs_before(src@, k0, x)));
        out = insert_sorted(out, src[k]);
        k = k + 1;
        proof {
            assert forall|x: usize| out@.contains(x) <==> (start.contains(x) || occurs_before(src@, k as int, x)) by {
                assert(out@.contains(x) <==> (before.contains(x) || x == src@[k0]));
                assert(before.contains(x) <==> (start.contains(x) || occurs_before(src@, k0, x)));
                if x == src@[k0] {
                    assert(0 <= k0 < k && src@[k0] == x);
                }
                if occurs_before(src@, k as int, x) {
                    let j = choose|j: int| 0 <= j < k && src@[j] == x;
                    if j < k0 {
                        assert(0 <= j < k0 && src@[j] == x);
                    }
                }
                if occurs_before(src@, k0, x) {
                    let j = choose|j: int| 0 <= j < k0 && src@[j] == x;
                    assert(0 <= j < k && src@[j] == x);
                }
            }
        }
    }
    proof {
        assert forall|x: usize| out@.contains(x) <==> (start.contains(x) || src@.contains(x)) by {
            assert(out@.contains(x) <==> (start.contains(x) || occurs_before(src@, k as int, x)));
            if occurs_before(src@, k as int, x) {
                let j = choose|j: int| 0 <= j < k && src@[j] == x;
                assert(src@[j] == x);
            }
            if src@.contains(x) {
                let j = choose|j: int| 0 <= j < src@.len() && src@[j] == x;
                assert(0 <= j < k && src@[j] == x);
            }
        }
    }
    out
}

/// The continuation tokens of node `n`: those recorded at any node whose
/// prefix ends the prefix of `n`, ascending.
spec fn continuations_ok(nodes: Seq<ContextNode>, prefixes: Seq<Seq<usize>>, n: int, c: Seq<usize>) -> bool {
    &&& strictly_ascending(c)
    &&& forall|t: usize|
        c.contains(t) <==> exists|m: int|
            0 <= m < nodes.len() && #[trigger] is_suffix(prefixes[m], prefixes[n])
                && nodes[m].injectable_children@.contains(t)
}

/// Collects the continuation tokens of node `n` along its failure chain.
fn collect_continuations(nodes: &Vec<ContextNode>, Ghost(prefixes): Ghost<Seq<Seq<usize>>>, n: usize) -> (r: Vec<
    usize,
>)
    requires
        trie_structure(nodes@, prefixes),
        n < nodes.len(),
        forall|m: int| 0 <= m < nodes@.len() ==> node_linked(nodes@, prefixes, m),
    ensures
        continuations_ok(nodes@, prefixes, n as int, r@),
{
    proof {
        lemma_structure_basics(nodes@, prefixes);
        lemma_suffix_trivial(prefixes[n as int]);
    }
    let ghost x = prefixes[n as int];
    let mut acc: Vec<usize> = Vec::new();
    let mut cursor: usize = n;
    while cursor != 0
        invariant
            trie_structure(nodes@, prefixes),
            nodes@.len() == prefixes.len(),
            prefixes[0] == Seq::<usize>::empty(),
            no_duplicates(prefixes),
            forall|m: int| 0 <= m < nodes@.len() ==> node_linked(nodes@, prefixes, m),
            cursor < nodes.len(),
            is_suffix(prefixes[cursor as int], x),
            strictly_ascending(acc@),
            forall|t: usize|
                acc@.contains(t) <==> exists|m: int|
                    0 <= m < nodes@.len() && #[trigger] is_suffix(prefixes[m], x) && prefixes[m].len()
                        > prefixes[cursor as int].len() && nodes@[m].injectable_children@.contains(t),
        decreases prefixes[cursor as int].len(),
    {
        let ghost before = acc@;
        let ghost c = cursor as int;
        acc = insert_all_sorted(acc, &nodes[cursor].injectable_children);
        let next = nodes[cursor].fail;
        proof {
            assert(node_linked(nodes@, prefixes, c));
            let g = next as int;
            lemma_suffix_trans(prefixes[g], prefixes[c], x);
            assert(prefixes[g].len() < prefixes[c].len());
            assert forall|t: usize|
                acc@.contains(t) <==> exists|m: int|
                    0 <= m < nodes@.len() && #[trigger] is_suffix(prefixes[m], x) && prefixes[m].len()
                        > prefixes[g].len() && nodes@[m].injectable_children@.contains(t) by {
                assert(acc@.contains(t) <==> (before.contains(t) || nodes@[c].injectable_children@.contains(t)));
                assert(before.contains(t) <==> exists|m: int|
                    0 <= m < nodes@.len() && #[trigger] is_suffix(prefixes[m], x) && prefixes[m].len()
                        > prefixes[c].len() && nodes@[m].injectable_children@.contains(t));
                if acc@.contains(t) {
                    if before.contains(t) {
                        let m = choose|m: int|
                            0 <= m < nodes@.len() && #[trigger] is_suffix(prefixes[m], x) && prefixes[m].len()
                                > prefixes[c].len() && nodes@[m].injectable_children@.contains(t);
                        assert(prefixes[m].len() > prefixes[g].len());
                    } else {
                        assert(is_suffix(prefixes[c], x));
                    }
                }
                if exists|m: int|
                    0 <= m < nodes@.len() && #[trigger] is_suffix(prefixes[m], x) && prefixes[m].len()
                        > prefixes[g].len() && nodes@[m].injectable_children@.contains(t) {
                    let m = choose|m: int|
                        0 <= m < nodes@.len() && #[trigger] is_suffix(prefixes[m], x) && prefixes[m].len()
                            > prefixes[g].len() && nodes@[m].injectable_children@.contains(t);
                    if prefixes[m].len() <= prefixes[c].len() {
                        lemma_suffix_of_suffix(prefixes[m], prefixes[c], x);
                        if prefixes[m].len() < prefixes[c].len() {
                            assert(is_suffix(prefixes[m], prefixes[c]));
                            assert(prefixes[m].len() <= prefixes[g].len());
                        }
                        lemma_suffix_same_len(prefixes[m], prefixes[c], x);
                        assert(m == c);
                    }
                }
            }
        }
        cursor = next;
    }
    let ghost before = acc@;
    acc = insert_all_sorted(acc, &nodes[0].injectable_children);
    proof {
        assert forall|t: usize|
            acc@.contains(t) <==> exists|m: int|
                0 <= m < nodes@.len() && #[trigger] is_suffix(prefixes[m], x) && nodes@[m].injectable_children@.contains(
                    t,
                ) by {
            assert(acc@.contains(t) <==> (before.contains(t) || nodes@[0].injectable_children@.contains(t)));
            assert(before.contains(t) <==> exists|m: int|
                0 <= m < nodes@.len() && #[trigger] is_suffix(prefixes[m], x) && prefixes[m].len()
                    > prefixes[0].len() && nodes@[m].injectable_children@.contains(t));
            if exists|m: int|
                0 <= m < nodes@.len() && #[trigger] is_suffix(prefixes[m], x)
                    && nodes@[m].injectable_children@.contains(t) {
                let m = choose|m: int|
                    0 <= m < nodes@.len() && #[trigger] is_suffix(prefixes[m], x)
                        && nodes@[m].injectable_children@.contains(t);
                if prefixes[m].len() == 0 {
                    assert(prefixes[m] =~= prefixes[0]);
                }
            }
            if acc@.contains(t) {
                if before.contains(t) {
                    let m = choose|m: int|
                        0 <= m < nodes@.len() && #[trigger] is_suffix(prefixes[m], x) && prefixes[m].len()
                            > prefixes[0].len() && nodes@[m].injectable_children@.contains(t);
                } else {
                    assert(is_suffix(prefixes[0], x));
                }
            }
        }
    }
    acc
}


/// `x` is empty or a non-empty prefix of a registered path.
pub open spec fn is_hotword_prefix(paths: Seq<HotwordTokenPath>, x: Seq<usize>) -> bool {
    x.len() == 0 || exists|q: int, j: int|
        0 <= q < paths.len() && 1 <= j <= paths[q].tokens@.len() && #[trigger] paths[q].tokens@.take(j) == x
}

/// Some registered path spells exactly `x`.
pub open spec fn is_whole_path(paths: Seq<HotwordTokenPath>, x: Seq<usize>) -> bool {
    exists|q: int| 0 <= q < paths.len() && #[trigger] paths[q].tokens@ == x
}

/// Some suffix of `x` is followed by `t` on a path that injects its
/// continuations.
pub open spec fn continues_after_suffix(
    paths: Seq<HotwordTokenPath>,
    injects: Seq<bool>,
    x: Seq<usize>,
    t: usize,
) -> bool {
    exists|y: Seq<usize>| #[trigger] is_suffix(y, x) && continues_with(paths, injects, y, t)
}

/// Some path that injects its continuations spells `y` followed by `t`.
pub open spec fn continues_with(paths: Seq<HotwordTokenPath>, injects: Seq<bool>, y: Seq<usize>, t: usize) -> bool {
    exists|q: int|
        0 <= q < paths.len() && injects[q] && y.len() < paths[q].tokens@.len() && #[trigger] paths[q].tokens@.take(
            y.len() + 1 as int,
        ) == y.push(t)
}

proof fn lemma_paths_spelling_nonempty(paths: Seq<HotwordTokenPath>, x: Seq<usize>, count: int)
    requires
        0 <= count <= paths.len(),
    ensures
        paths_spelling(paths, x, count).len() > 0 <==> exists|q: int| 0 <= q < count && #[trigger] paths[q].tokens@ == x,
    decreases count,
{
    if count > 0 {
        lemma_paths_spelling_nonempty(paths, x, count - 1);
        if paths[count - 1].tokens@ == x {
            assert(paths[count - 1].tokens@ == x);
        }
    }
}

proof fn lemma_continuations_after_contains(
    paths: Seq<HotwordTokenPath>,
    injects: Seq<bool>,
    x: Seq<usize>,
    t: usize,
    count: int,
)
    requires
        0 <= count <= paths.len(),
    ensures
        continuations_after(paths, injects, x, count).contains(t) <==> exists|q: int|
            0 <= q < count && injects[q] && x.len() < paths[q].tokens@.len() && #[trigger] paths[q].tokens@.take(
                x.len() + 1 as int,
            ) == x.push(t),
    decreases count,
{
    if count > 0 {
        let q = count - 1;
        lemma_continuations_after_contains(paths, injects, x, t, q);
        let before = continuations_after(paths, injects, x, q);
        let extra = injected_after(paths, injects, x, q, paths[q].tokens@.len() as int);
        let all = before + extra;
        let tokens = paths[q].tokens@;
        assert(all.contains(t) <==> (before.contains(t) || extra.contains(t))) by {
            if all.contains(t) {
                let k = choose|k: int| 0 <= k < all.len() && all[k] == t;
                if k >= before.len() {
                    assert(extra[k - before.len()] == t);
                }
            }
            if before.contains(t) {
                let k = choose|k: int| 0 <= k < before.len() && before[k] == t;
                assert(all[k] == t);
            }
            if extra.contains(t) {
                let k = choose|k: int| 0 <= k < extra.len() && extra[k] == t;
                assert(all[before.len() + k] == t);
            }
        }
        let here = injects[q] && x.len() < tokens.len() && tokens.take(x.len() + 1 as int) == x.push(t);
        assert(extra.contains(t) <==> here) by {
            if injects[q] && x.len() < tokens.len() {
                if tokens.take(x.len() as int) == x {
                    assert(extra =~= seq![tokens[x.len() as int]]);
                    if tokens[x.len() as int] == t {
                        assert(tokens.take(x.len() + 1 as int) =~= x.push(t));
                        assert(extra[0] == t);
                    } else {
                        assert(tokens.take(x.len() + 1 as int)[x.len() as int] != x.push(t)[x.len() as int]);
                    }
                } else {
                    if tokens.take(x.len() + 1 as int) == x.push(t) {
                        assert(tokens.take(x.len() as int) =~= tokens.take(x.len() + 1 as int).drop_last());
                        assert(x.push(t).drop_last() =~= x);
                    }
                    assert(extra =~= Seq::<usize>::empty());
                }
            } else {
                assert(extra =~= Seq::<usize>::empty());
            }
        }
    }
}

proof fn lemma_path_walk_members(tokens: Seq<usize>, count: int, x: Seq<usize>)
    requires
        0 <= count,
        path_walk(tokens, count).contains(x),
    ensures
        exists|j: int| 1 <= j <= count && x == tokens.take(j),
    decreases count,
{
    if count > 0 {
        let w = path_walk(tokens, count);
        let before = path_walk(tokens, count - 1);
        let k = choose|k: int| 0 <= k < w.len() && w[k] == x;
        lemma_path_walk_len(tokens, count - 1);
        if k < before.len() {
            assert(before[k] == x);
            lemma_path_walk_members(tokens, count - 1, x);
        } else {
            assert(x == tokens.take(count));
        }
    }
}

proof fn lemma_trie_walk_members(paths: Seq<HotwordTokenPath>, count: int, x: Seq<usize>)
    requires
        0 <= count <= paths.len(),
        trie_walk(paths, count).contains(x),
    ensures
        is_hotword_prefix(paths, x),
    decreases count,
{
    if count > 0 {
        let q = count - 1;
        let before = trie_walk(paths, q);
        let tail = path_walk(paths[q].tokens@, paths[q].tokens@.len() as int);
        let all = before + tail;
        let k = choose|k: int| 0 <= k < all.len() && all[k] == x;
        if k < before.len() {
            assert(before[k] == x);
            lemma_trie_walk_members(paths, q, x);
        } else {
            assert(tail[k - before.len()] == x);
            lemma_path_walk_members(paths[q].tokens@, paths[q].tokens@.len() as int, x);
            let j = choose|j: int| 1 <= j <= paths[q].tokens@.len() && x == paths[q].tokens@.take(j);
            assert(paths[q].tokens@.take(j) == x);
        }
    } else {
        let k = choose|k: int| 0 <= k < trie_walk(paths, count).len() && trie_walk(paths, count)[k] == x;
        assert(x.len() == 0);
    }
}

/// The nodes of a built trie spell exactly the hotword prefixes.
proof fn lemma_prefixes_are_hotword_prefixes(paths: Seq<HotwordTokenPath>, prefixes: Seq<Seq<usize>>)
    requires
        prefixes == first_occurrences(trie_walk(paths, paths.len() as int)),
    ensures
        forall|x: Seq<usize>| prefixes.contains(x) <==> is_hotword_prefix(paths, x),
{
    let walk = trie_walk(paths, paths.len() as int);
    lemma_first_occurrences(walk);
    lemma_trie_walk_starts_empty(paths, paths.len() as int);
    assert forall|x: Seq<usize>| prefixes.contains(x) <==> is_hotword_prefix(paths, x) by {
        assert(prefixes.contains(x) <==> walk.contains(x));
        if prefixes.contains(x) {
            lemma_trie_walk_members(paths, paths.len() as int, x);
        }
        if is_hotword_prefix(paths, x) {
            if x.len() == 0 {
                assert(x =~= walk[0]);
                assert(walk.contains(x));
            } else {
                let (q, j) = choose|q: int, j: int|
                    0 <= q < paths.len() && 1 <= j <= paths[q].tokens@.len() && #[trigger] paths[q].tokens@.take(j)
                        == x;
                lemma_trie_walk_contains(paths, paths.len() as int, q, j);
                assert(walk.contains(x));
            }
        }
    }
}


/// A node's recorded contents and its continuation tokens describe the
/// registered paths.
proof fn lemma_node_facts(
    nodes: Seq<ContextNode>,
    prefixes: Seq<Seq<usize>>,
    paths: Seq<HotwordTokenPath>,
    injects: Seq<bool>,
    n: int,
)
    requires
        node_contents(nodes, prefixes, paths, injects, paths.len() as int, 0),
        nodes.len() == prefixes.len(),
        0 <= n < nodes.len(),
    ensures
        nodes[n].terminal <==> is_whole_path(paths, prefixes[n]),
        forall|t: usize| nodes[n].injectable_children@.contains(t) <==> continues_with(paths, injects, prefixes[n], t),
        nodes[n].injectable_children@ == first_occurrences(
            continuations_after(paths, injects, prefixes[n], paths.len() as int),
        ),
{
    let x = prefixes[n];
    let all = paths.len() as int;
    assert(nodes[n] == nodes[n]);
    lemma_paths_spelling_nonempty(paths, x, all);
    let c = continuations_after(paths, injects, x, all);
    assert(injected_after(paths, injects, x, all, 0) =~= Seq::<usize>::empty());
    assert(c + Seq::<usize>::empty() =~= c);
    lemma_first_occurrences(c);
    assert forall|t: usize| nodes[n].injectable_children@.contains(t) <==> continues_with(paths, injects, x, t) by {
        lemma_continuations_after_contains(paths, injects, x, t, all);
    }
}

/// A whole path and a path continued by a token are hotword prefixes.
proof fn lemma_hotword_prefix_of_path(paths: Seq<HotwordTokenPath>, injects: Seq<bool>, y: Seq<usize>, t: usize)
    ensures
        is_whole_path(paths, y) && y.len() > 0 ==> is_hotword_prefix(paths, y),
        continues_with(paths, injects, y, t) ==> is_hotword_prefix(paths, y),
{
    if is_whole_path(paths, y) && y.len() > 0 {
        let q = choose|q: int| 0 <= q < paths.len() && #[trigger] paths[q].tokens@ == y;
        assert(paths[q].tokens@.take(y.len() as int) =~= y);
    }
    if continues_with(paths, injects, y, t) && y.len() > 0 {
        let q = choose|q: int|
            0 <= q < paths.len() && injects[q] && y.len() < paths[q].tokens@.len() && #[trigger] paths[q].tokens@.take(
                y.len() + 1 as int,
            ) == y.push(t);
        assert(paths[q].tokens@.take(y.len() as int) =~= paths[q].tokens@.take(y.len() + 1 as int).drop_last());
        assert(y.push(t).drop_last() =~= y);
    }
}

impl HotwordContextGraph {
    /// The registered paths, in order.
    pub closed spec fn token_paths(self) -> Seq<HotwordTokenPath> {
        self.paths@
    }

    /// For each path, whether it offers its next token as a continuation.
    pub closed spec fn injecting(self) -> Seq<bool> {
        self.injects@
    }

    /// The number of states.
    pub closed spec fn state_count(self) -> nat {
        self.nodes@.len()
    }

    /// The token prefix that state `s` stands for.
    pub closed spec fn state_prefix(self, s: int) -> Seq<usize> {
        self.prefixes@[s]
    }

    /// The graph is the linked trie of its paths.
    pub closed spec fn wf(self) -> bool {
        let paths = self.paths@;
        &&& self.injects@.len() == paths.len()
        &&& forall|q: int| 0 <= q < paths.len() ==> (#[trigger] paths[q]).tokens@.len() > 0
        &&& trie_structure(self.nodes@, self.prefixes@)
        &&& self.prefixes@ == first_occurrences(trie_walk(paths, paths.len() as int))
        &&& node_contents(self.nodes@, self.prefixes@, paths, self.injects@, paths.len() as int, 0)
        &&& forall|n: int| 0 <= n < self.nodes@.len() ==> node_linked(self.nodes@, self.prefixes@, n)
        &&& self.continuations@.len() == self.nodes@.len()
        &&& forall|n: int|
            0 <= n < self.nodes@.len() ==> continuations_ok(
                self.nodes@,
                self.prefixes@,
                n,
                (#[trigger] self.continuations@[n])@,
            )
    }

    /// Builds the graph of `paths` once they pass `validate_hotword_paths`;
    /// `injects[p]` says whether path `p` offers its next token as a
    /// continuation.
    pub fn build(paths: Vec<HotwordTokenPath>, phrase_admissible: &[bool], injects: &[bool]) -> (r: Result<
        HotwordContextGraph,
        HotwordGraphError,
    >)
        requires
            phrase_admissible.len() == paths.len(),
            injects.len() == paths.len(),
        ensures
            match r {
                Ok(g) => {
                    &&& spec_validate_hotword_paths(paths@, phrase_admissible@) is Ok
                    &&& g.wf()
                    &&& g.token_paths() == paths@
                    &&& g.injecting() == injects@
                },
                Err(e) => spec_validate_hotword_paths(paths@, phrase_admissible@) == Err::<(), HotwordGraphError>(e),
            },
    {
        match validate_hotword_paths(paths.as_slice(), phrase_admissible) {
            Err(e) => {
                return Err(e);
            },
            Ok(()) => {},
        }
        proof {
            assert forall|q: int| 0 <= q < paths@.len() implies (#[trigger] paths@[q]).tokens@.len() > 0 by {
                if paths@[q].tokens@.len() == 0 {
                    assert(exists|p: int| 0 <= p < paths@.len() && paths@[p].tokens@.len() == 0);
                }
            }
        }
        let (built, Ghost(prefixes)) = build_nodes(paths.as_slice(), injects);
        let nodes = build_failure_links(built, Ghost(prefixes));
        proof {
            assert forall|n: int| 0 <= n < nodes@.len() implies {
                let x = prefixes[n];
                &&& (#[trigger] nodes@[n]).terminal == (paths_spelling(paths@, x, paths@.len() as int).len() > 0)
                &&& nodes@[n].terminal_paths@ == paths_spelling(paths@, x, paths@.len() as int)
                &&& nodes@[n].injectable_children@ == first_occurrences(
                    continuations_after(paths@, injects@, x, paths@.len() as int) + injected_after(
                        paths@,
                        injects@,
                        x,
                        paths@.len() as int,
                        0,
                    ),
                )
            } by {
                assert(built@[n] == built@[n]);
            }
        }
        let mut continuations: Vec<Vec<usize>> = Vec::new();
        let mut n: usize = 0;
        while n < nodes.len()
            invariant
                n <= nodes.len(),
                continuations@.len() == n,
                trie_structure(nodes@, prefixes),
                forall|m: int| 0 <= m < nodes@.len() ==> node_linked(nodes@, prefixes, m),
                forall|m: int|
                    0 <= m < n ==> continuations_ok(nodes@, prefixes, m, (#[trigger] continuations@[m])@),
            decreases nodes.len() - n,
        {
            let c = collect_continuations(&nodes, Ghost(prefixes), n);
            continuations.push(c);
            n = n + 1;
        }
        Ok(HotwordContextGraph {
            nodes,
            continuations,
            paths,
            injects: Ghost(injects@),
            prefixes: Ghost(prefixes),
        })
    }

    /// The root state, which stands for the empty prefix.
    pub fn root(&self) -> (r: usize)
        ensures
            r == 0,
    {
        0
    }

    /// The number of states.
    pub fn num_states(&self) -> (r: usize)
        ensures
            r == self.state_count(),
    {
        self.nodes.len()
    }

    /// The state reached from `state` by the edge on `token`, if the trie has
    /// that edge.
    pub fn child(&self, state: usize, token: usize) -> (r: Option<usize>)
        requires
            self.wf(),
            state < self.state_count(),
        ensures
            match r {
                Some(c) => c < self.state_count() && self.state_prefix(c as int) == self.state_prefix(
                    state as int,
                ).push(token),
                None => !is_hotword_prefix(self.token_paths(), self.state_prefix(state as int).push(token)),
            },
    {
        proof {
            lemma_prefixes_are_hotword_prefixes(self.paths@, self.prefixes@);
        }
        child_of(&self.nodes, Ghost(self.prefixes@), state, token)
    }

    /// What one step of [`Self::forward`] from `state` on `token` answers:
    /// the longest suffix of the state's prefix and `token` that is a hotword
    /// prefix, the longest such suffix that is a whole registered path, and the
    /// state to continue from.
    pub open spec fn is_forward_step(&self, state: usize, token: usize, r: HotwordStep) -> bool {
        &&& r.reached < self.state_count()
        &&& is_suffix(self.state_prefix(r.reached as int), self.state_prefix(state as int).push(token))
        &&& forall|y: Seq<usize>|
            #[trigger] is_suffix(y, self.state_prefix(state as int).push(token)) && is_hotword_prefix(
                self.token_paths(),
                y,
            ) ==> y.len() <= self.state_prefix(r.reached as int).len()
        &&& match r.matched {
            Some(m) => {
                &&& m < self.state_count()
                &&& is_whole_path(self.token_paths(), self.state_prefix(m as int))
                &&& is_suffix(self.state_prefix(m as int), self.state_prefix(state as int).push(token))
                &&& forall|y: Seq<usize>|
                    #[trigger] is_suffix(y, self.state_prefix(state as int).push(token)) && is_whole_path(
                        self.token_paths(),
                        y,
                    ) ==> y.len() <= self.state_prefix(m as int).len()
            },
            None => forall|y: Seq<usize>|
                #[trigger] is_suffix(y, self.state_prefix(state as int).push(token)) ==> !is_whole_path(
                    self.token_paths(),
                    y,
                ),
        }
        &&& r.next_state == match r.matched {
            Some(_) => 0,
            None => r.reached,
        }
    }

    /// Advances `state` by one emitted token. The reached state spells the
    /// longest suffix of the state's prefix and `token` that is a hotword
    /// prefix; when some suffix is a whole registered path, the longest such
    /// is reported and the next state is the root.
    pub fn forward(&self, state: usize, token: usize) -> (r: HotwordStep)
        requires
            self.wf(),
            state < self.state_count(),
        ensures
            self.is_forward_step(state, token, r),
    {
        let ghost prefixes = self.prefixes@;
        let ghost paths = self.paths@;
        let ghost xp = prefixes[state as int];
        let ghost h = xp.push(token);
        proof {
            lemma_structure_basics(self.nodes@, prefixes);
            lemma_suffix_trivial(xp);
        }
        let reached = longest_extension(&self.nodes, Ghost(prefixes), state, token, Ghost(xp), Ghost(xp.len() + 1 as int));
        proof {
            lemma_output_target(self.nodes@, prefixes, h, h.len() + 1 as int, reached as int);
        }
        let matched = if self.nodes[reached].terminal {
            Some(reached)
        } else {
            self.nodes[reached].output
        };
        proof {
            lemma_prefixes_are_hotword_prefixes(paths, prefixes);
            assert forall|y: Seq<usize>| #[trigger] is_suffix(y, h) && is_hotword_prefix(paths, y) implies y.len()
                <= prefixes[reached as int].len() by {
                assert(prefixes.contains(y));
                let m = choose|m: int| 0 <= m < prefixes.len() && prefixes[m] == y;
                assert(is_suffix(prefixes[m], h));
            }
            assert forall|m: int| 0 <= m < self.nodes@.len() implies (#[trigger] self.nodes@[m]).terminal
                <==> is_whole_path(paths, prefixes[m]) by {
                lemma_node_facts(self.nodes@, prefixes, paths, self.injects@, m);
            }
            assert forall|y: Seq<usize>| #[trigger] is_suffix(y, h) && is_whole_path(paths, y) implies exists|m: int|
                0 <= m < prefixes.len() && prefixes[m] == y && self.nodes@[m].terminal && is_suffix(prefixes[m], h) by {
                let q = choose|q: int| 0 <= q < paths.len() && #[trigger] paths[q].tokens@ == y;
                assert(paths[q] == paths[q]);
                lemma_hotword_prefix_of_path(paths, self.injects@, y, token);
                assert(prefixes.contains(y));
                let m = choose|m: int| 0 <= m < prefixes.len() && prefixes[m] == y;
                assert(self.nodes@[m].terminal);
            }
            match matched {
                Some(m) => {
                    assert(is_whole_path(paths, prefixes[m as int]));
                },
                None => {},
            }
        }
        let next_state = match matched {
            Some(_) => 0,
            None => reached,
        };
        HotwordStep { reached, matched, next_state }
    }

    /// The tokens that continue `state`'s prefix, or one of its suffixes, along
    /// an injecting path, ascending: the current prefix, a failure fallback,
    /// or a fresh start from the root.
    pub fn continuation_tokens(&self, state: usize) -> (r: &[usize])
        requires
            self.wf(),
            state < self.state_count(),
        ensures
            strictly_ascending(r@),
            forall|t: usize|
                r@.contains(t) <==> continues_after_suffix(
                    self.token_paths(),
                    self.injecting(),
                    self.state_prefix(state as int),
                    t,
                ),
    {
        let ghost prefixes = self.prefixes@;
        let ghost paths = self.paths@;
        let ghost x = prefixes[state as int];
        let r = self.continuations[state].as_slice();
        proof {
            lemma_structure_basics(self.nodes@, prefixes);
            lemma_prefixes_are_hotword_prefixes(paths, prefixes);
            assert(continuations_ok(self.nodes@, prefixes, state as int, self.continuations@[state as int]@));
            assert forall|t: usize| r@.contains(t) <==> continues_after_suffix(paths, self.injects@, x, t) by {
                if r@.contains(t) {
                    let m = choose|m: int|
                        0 <= m < self.nodes@.len() && #[trigger] is_suffix(prefixes[m], x)
                            && self.nodes@[m].injectable_children@.contains(t);
                    lemma_node_facts(self.nodes@, prefixes, paths, self.injects@, m);
                    assert(is_suffix(prefixes[m], x) && continues_with(paths, self.injects@, prefixes[m], t));
                }
                if exists|y: Seq<usize>| #[trigger] is_suffix(y, x) && continues_with(paths, self.injects@, y, t) {
                    let y = choose|y: Seq<usize>| #[trigger] is_suffix(y, x) && continues_with(paths, self.injects@, y, t);
                    lemma_hotword_prefix_of_path(paths, self.injects@, y, t);
                    assert(prefixes.contains(y));
                    let m = choose|m: int| 0 <= m < prefixes.len() && prefixes[m] == y;
                    lemma_node_facts(self.nodes@, prefixes, paths, self.injects@, m);
                    assert(0 <= m < self.nodes@.len() && is_suffix(prefixes[m], x)
                        && self.nodes@[m].injectable_children@.contains(t));
                }
            }
        }
        r
    }

    /// The tokens on injecting paths right after `state`'s own prefix, in path
    /// order, each once; failure fallbacks and fresh starts are not included.
    pub fn direct_continuation_tokens(&self, state: usize) -> (r: &[usize])
        requires
            self.wf(),
            state < self.state_count(),
        ensures
            r@ == first_occurrences(
                continuations_after(
                    self.token_paths(),
                    self.injecting(),
                    self.state_prefix(state as int),
                    self.token_paths().len() as int,
                ),
            ),
            forall|t: usize|
                r@.contains(t) <==> continues_with(
                    self.token_paths(),
                    self.injecting(),
                    self.state_prefix(state as int),
                    t,
                ),
    {
        proof {
            lemma_structure_basics(self.nodes@, self.prefixes@);
            lemma_node_facts(self.nodes@, self.prefixes@, self.paths@, self.injects@, state as int);
        }
        self.nodes[state].injectable_children.as_slice()
    }

    /// Non-overlapping longest registered paths in a completed token
    /// sequence, left to right.
    pub fn find_matches(&self, token_ids: &[usize]) -> (r: Vec<HotwordMatch>)
        requires
            self.wf(),
        ensures
            match_views(r@) == spec_find_matches(self.token_paths(), token_ids@, 0),
    {
        find_hotword_matches(self.paths.as_slice(), token_ids)
    }
}

/// The states of a graph are exactly the hotword prefixes of its paths, one
/// state for each, and the root stands for the empty prefix.
pub proof fn lemma_states_are_hotword_prefixes(g: HotwordContextGraph)
    requires
        g.wf(),
    ensures
        g.state_count() >= 1,
        g.state_prefix(0) == Seq::<usize>::empty(),
        forall|s: int| 0 <= s < g.state_count() ==> is_hotword_prefix(g.token_paths(), #[trigger] g.state_prefix(s)),
        forall|x: Seq<usize>|
            is_hotword_prefix(g.token_paths(), x) ==> exists|s: int| 0 <= s < g.state_count() && #[trigger] g.state_prefix(s) == x,
        forall|s1: int, s2: int|
            0 <= s1 < g.state_count() && 0 <= s2 < g.state_count() && s1 != s2 ==> g.state_prefix(s1)
                != g.state_prefix(s2),
{
    lemma_structure_basics(g.nodes@, g.prefixes@);
    lemma_prefixes_are_hotword_prefixes(g.paths@, g.prefixes@);
    assert forall|s: int| 0 <= s < g.state_count() implies is_hotword_prefix(g.token_paths(), #[trigger] g.state_prefix(s)) by {
        assert(g.prefixes@.contains(g.prefixes@[s]));
    }
    assert forall|x: Seq<usize>| is_hotword_prefix(g.token_paths(), x) implies exists|s: int|
        0 <= s < g.state_count() && #[trigger] g.state_prefix(s) == x by {
        assert(g.prefixes@.contains(x));
        let i = choose|i: int| 0 <= i < g.prefixes@.len() && g.prefixes@[i] == x;
        assert(g.state_prefix(i) == x);
    }
}

} // verus!
