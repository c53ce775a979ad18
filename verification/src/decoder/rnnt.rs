//! Configuration and bookkeeping of the stateless two-token RNN-T search.
use vstd::prelude::*;
use std::time::Duration;
use crate::decoder::context_graph::{
    continues_after_suffix, insert_all_sorted, insert_sorted, lemma_first_occurrences, strictly_ascending,
    HotwordContextGraph, HotwordStep,
};

verus! {

/// A frame-synchronous hypothesis of a stateful RNN-T predictor.
#[derive(Debug, Clone, PartialEq)]
pub struct RnntHypothesis<S> {
    pub token_ids: Vec<usize>,
    pub timestamps: Vec<usize>,
    pub state: S,
    pub last_token: Option<usize>,
    pub frame_offset: usize,
}

/// Accumulated wall-clock timings and operation counts of one profiled search.
#[derive(Debug, Clone, Copy, Default, PartialEq, Eq)]
pub struct StatelessRnntSearchProfile {
    pub frames: usize,
    pub active_hypotheses: usize,
    pub network_context_rows: usize,
    pub logit_values: usize,
    pub network_output_values: usize,
    pub network_output_bytes: usize,
    pub scalar_exp_terms_evaluated: usize,
    pub scalar_exp_terms_skipped: usize,
    pub candidates_generated: usize,
    pub states_after_dominance: usize,
    pub context_layout: Duration,
    pub network_logits: Duration,
    pub log_softmax: Duration,
    pub top_token_selection: Duration,
    pub candidate_generation: Duration,
    pub state_dominance: Duration,
    pub score_pruning: Duration,
    pub materialization: Duration,
    pub final_ranking_and_reconstruction: Duration,
}

/// The bounded top-token data structure used by the search.
#[derive(Debug, Clone, Copy, PartialEq, Eq, Structural)]
pub enum StatelessRnntTopTokenAlgorithm {
    BinarySearch,
    CutoffBinarySearch,
    WorstFirstHeap,
}

impl Default for StatelessRnntTopTokenAlgorithm {
    fn default() -> (r: Self)
        ensures
            r == StatelessRnntTopTokenAlgorithm::CutoffBinarySearch,
    {
        StatelessRnntTopTokenAlgorithm::CutoffBinarySearch
    }
}

/// Where joiner logits become log probabilities.
#[derive(Debug, Clone, Copy, PartialEq, Eq, Structural)]
pub enum StatelessRnntScoreNormalization {
    FullLogSoftmax,
    SparseLogNormalizer,
    SparseLogNormalizerEpsilon1e8,
    SparseLogNormalizerEpsilon1e7,
    SparseLogNormalizerEpsilon1e6,
    PrecomputedLogProbabilities,
}

impl Default for StatelessRnntScoreNormalization {
    fn default() -> (r: Self)
        ensures
            r == StatelessRnntScoreNormalization::SparseLogNormalizer,
    {
        StatelessRnntScoreNormalization::SparseLogNormalizer
    }
}

/// Which hypothesis identity owns one beam slot.
#[derive(Debug, Clone, Copy, PartialEq, Eq, Structural)]
pub enum StatelessRnntPruning {
    StateDominance,
    FullPrefix,
    Sherpa,
}

impl Default for StatelessRnntPruning {
    fn default() -> (r: Self)
        ensures
            r == StatelessRnntPruning::StateDominance,
    {
        StatelessRnntPruning::StateDominance
    }
}

/// Length normalization applied when ranking hypotheses.
#[derive(Debug, Clone, Copy, PartialEq, Eq, Structural)]
pub enum StatelessRnntLengthNormalization {
    Raw,
    Quarter,
    Half,
    ThreeQuarters,
    PerToken,
}

impl Default for StatelessRnntLengthNormalization {
    fn default() -> (r: Self)
        ensures
            r == StatelessRnntLengthNormalization::Raw,
    {
        StatelessRnntLengthNormalization::Raw
    }
}

impl StatelessRnntLengthNormalization {
    /// The normalization exponent in quarters: the score is divided by the
    /// length raised to `exponent_quarters / 4`.
    pub fn exponent_quarters(self) -> (r: u8)
        ensures
            r == (match self {
                StatelessRnntLengthNormalization::Raw => 0u8,
                StatelessRnntLengthNormalization::Quarter => 1u8,
                StatelessRnntLengthNormalization::Half => 2u8,
                StatelessRnntLengthNormalization::ThreeQuarters => 3u8,
                StatelessRnntLengthNormalization::PerToken => 4u8,
            }),
    {
        match self {
            StatelessRnntLengthNormalization::Raw => 0,
            StatelessRnntLengthNormalization::Quarter => 1,
            StatelessRnntLengthNormalization::Half => 2,
            StatelessRnntLengthNormalization::ThreeQuarters => 3,
            StatelessRnntLengthNormalization::PerToken => 4,
        }
    }
}

/// How occurrences projected onto one time-free lattice arc are combined.
#[derive(Debug, Clone, Copy, PartialEq, Eq, Structural)]
pub enum StatelessRnntLatticeArcMerge {
    Maximum,
    LogMeanExp,
}

impl Default for StatelessRnntLatticeArcMerge {
    fn default() -> (r: Self)
        ensures
            r == StatelessRnntLatticeArcMerge::Maximum,
    {
        StatelessRnntLatticeArcMerge::Maximum
    }
}

/// Controls of the stateless RNN-T modified beam search.
#[derive(Debug, Clone, Copy, PartialEq, Eq)]
pub struct StatelessRnntBeamConfig {
    pub beam_size: usize,
    pub initial_context: [i64; 2],
    pub additional_non_emitting_id: Option<usize>,
    pub pruning: StatelessRnntPruning,
    pub deduplicate_contexts: bool,
    pub search_length_normalization: StatelessRnntLengthNormalization,
    pub final_length_normalization: StatelessRnntLengthNormalization,
}

/// A token id as a predictor context value; ids beyond `i64` saturate.
pub open spec fn spec_token_context_id(token_id: usize) -> i64 {
    if token_id <= i64::MAX {
        token_id as i64
    } else {
        i64::MAX
    }
}

pub fn token_context_id(token_id: usize) -> (r: i64)
    ensures
        r == spec_token_context_id(token_id),
{
    if token_id as u64 <= 0x7FFF_FFFF_FFFF_FFFFu64 {
        token_id as i64
    } else {
        i64::MAX
    }
}

impl StatelessRnntBeamConfig {
    /// The contract used by the `ReazonSpeech` reference search.
    pub fn model_reference(beam_size: usize, blank_id: usize) -> (r: Self)
        ensures
            r.beam_size == beam_size,
            r.initial_context[0] == spec_token_context_id(blank_id),
            r.initial_context[1] == spec_token_context_id(blank_id),
            r.additional_non_emitting_id.is_none(),
            r.pruning == StatelessRnntPruning::StateDominance,
            r.deduplicate_contexts,
            r.search_length_normalization == StatelessRnntLengthNormalization::Raw,
            r.final_length_normalization == StatelessRnntLengthNormalization::PerToken,
    {
        let blank = token_context_id(blank_id);
        StatelessRnntBeamConfig {
            beam_size,
            initial_context: [blank, blank],
            additional_non_emitting_id: None,
            pruning: StatelessRnntPruning::StateDominance,
            deduplicate_contexts: true,
            search_length_normalization: StatelessRnntLengthNormalization::Raw,
            final_length_normalization: StatelessRnntLengthNormalization::PerToken,
        }
    }
}

/// One complete beam candidate and its representative emission alignment.
#[derive(Debug, Clone, Copy)]
pub struct StatelessRnntAlignedSeed<'a> {
    pub token_ids: &'a [usize],
    pub emission_frames: &'a [usize],
}


/// The predictor context after emitting `tokens` from `initial`: the last two
/// tokens, each as a context id.
pub open spec fn context_after(initial: [i64; 2], tokens: Seq<usize>) -> [i64; 2]
    decreases tokens.len(),
{
    if tokens.len() == 0 {
        initial
    } else {
        [context_after(initial, tokens.drop_last())[1], spec_token_context_id(tokens.last())]
    }
}

/// One node of the shared token-prefix trie.
#[derive(Debug)]
pub struct TokenPrefixNode {
    pub parent: Option<usize>,
    pub token_id: Option<usize>,
    pub token_count: usize,
    pub context: [i64; 2],
    pub children: Vec<(usize, usize)>,
}

/// Interned token prefixes: every distinct emitted prefix is one node.
#[derive(Debug)]
pub struct TokenPrefixArena {
    nodes: Vec<TokenPrefixNode>,
}

/// The token sequence spelled by the path from the root to node `id`.
pub open spec fn prefix_tokens(nodes: Seq<TokenPrefixNode>, id: int) -> Seq<usize>
    decreases id,
{
    if id <= 0 || id >= nodes.len() {
        Seq::empty()
    } else {
        match nodes[id].parent {
            Some(parent) => if parent < id {
                prefix_tokens(nodes, parent as int).push(nodes[id].token_id.unwrap())
            } else {
                Seq::empty()
            },
            None => Seq::empty(),
        }
    }
}

pub open spec fn prefix_nodes_wf(nodes: Seq<TokenPrefixNode>) -> bool {
    &&& 1 <= nodes.len() <= usize::MAX
    &&& nodes[0].parent.is_none()
    &&& nodes[0].token_id.is_none()
    &&& nodes[0].token_count == 0
    &&& forall|i: int|
        #![trigger nodes[i].parent]
        1 <= i < nodes.len() ==> {
            &&& nodes[i].parent is Some
            &&& nodes[i].parent.unwrap() < i
            &&& nodes[i].token_id is Some
            &&& nodes[i].token_count == nodes[nodes[i].parent.unwrap() as int].token_count + 1
            &&& nodes[i].context[0] == nodes[nodes[i].parent.unwrap() as int].context[1]
            &&& nodes[i].context[1] == spec_token_context_id(nodes[i].token_id.unwrap())
        }
    &&& forall|i: int, k: int|
        #![trigger nodes[i].children@[k]]
        0 <= i < nodes.len() && 0 <= k < nodes[i].children@.len() ==> {
            let (token, child) = nodes[i].children@[k];
            &&& 1 <= child < nodes.len()
            &&& nodes[child as int].parent == Some(i as usize)
            &&& nodes[child as int].token_id == Some(token)
        }
    &&& forall|i: int, k1: int, k2: int|
        0 <= i < nodes.len() && 0 <= k1 < nodes[i].children@.len() && 0 <= k2
            < nodes[i].children@.len() && k1 != k2 ==> (#[trigger] nodes[i].children@[k1]).0 != (
        #[trigger] nodes[i].children@[k2]).0
    &&& forall|c: int|
        #![trigger nodes[c].token_id]
        1 <= c < nodes.len() ==> exists|k: int|
            0 <= k < nodes[nodes[c].parent.unwrap() as int].children@.len() && nodes[nodes[
                c
            ].parent.unwrap() as int].children@[k] == (nodes[c].token_id.unwrap(), c as usize)
}

impl TokenPrefixArena {
    pub closed spec fn wf(&self) -> bool {
        prefix_nodes_wf(self.nodes@)
    }

    /// Number of interned prefixes, the empty root included.
    pub closed spec fn spec_len(&self) -> nat {
        self.nodes@.len()
    }

    /// The tokens of prefix `id`.
    pub closed spec fn prefix(&self, id: int) -> Seq<usize> {
        prefix_tokens(self.nodes@, id)
    }

    /// The predictor context of prefix `id`.
    pub closed spec fn context(&self, id: int) -> [i64; 2] {
        self.nodes@[id].context
    }

    /// The number of tokens of prefix `id`.
    pub closed spec fn count(&self, id: int) -> nat {
        self.nodes@[id].token_count as nat
    }

    pub fn new(initial_context: [i64; 2]) -> (r: Self)
        ensures
            r.wf(),
            r.spec_len() == 1,
            r.prefix(0) == Seq::<usize>::empty(),
            r.context(0) == initial_context,
            r.count(0) == 0,
    {
        let mut nodes: Vec<TokenPrefixNode> = Vec::new();
        nodes.push(
            TokenPrefixNode {
                parent: None,
                token_id: None,
                token_count: 0,
                context: initial_context,
                children: Vec::new(),
            },
        );
        TokenPrefixArena { nodes }
    }

    /// Number of interned prefixes.
    pub fn len(&self) -> (r: usize)
        ensures
            r == self.spec_len(),
    {
        self.nodes.len()
    }

    /// The token count and predictor context of prefix `prefix_id`.
    pub fn count_and_context(&self, prefix_id: usize) -> (r: (usize, [i64; 2]))
        requires
            self.wf(),
            prefix_id < self.spec_len(),
        ensures
            r.0 == self.count(prefix_id as int),
            r.1 == self.context(prefix_id as int),
            r.0 < self.spec_len(),
            r.0 == self.prefix(prefix_id as int).len(),
    {
        proof {
            lemma_prefix_len(self.nodes@, prefix_id as int);
        }
        (self.nodes[prefix_id].token_count, self.nodes[prefix_id].context)
    }

    /// The node extending `parent` by `token_id`, if it was interned.
    pub fn child(&self, parent: usize, token_id: usize) -> (r: Option<usize>)
        requires
            self.wf(),
            parent < self.spec_len(),
        ensures
            r is Some ==> r->0 < self.spec_len() && self.prefix(r->0 as int) == self.prefix(
                parent as int,
            ).push(token_id),
            r is None ==> forall|id: int|
                0 <= id < self.spec_len() ==> self.prefix(id) != self.prefix(parent as int).push(
                    token_id,
                ),
    {
        let children = &self.nodes[parent].children;
        let mut k: usize = 0;
        while k < children.len()
            invariant
                prefix_nodes_wf(self.nodes@),
                parent < self.nodes@.len(),
                children == &self.nodes@[parent as int].children,
                k <= children@.len(),
                forall|j: int| 0 <= j < k ==> (#[trigger] children@[j]).0 != token_id,
            decreases children.len() - k,
        {
            let (token, child) = children[k];
            if token == token_id {
                proof {
                    assert(self.nodes@[parent as int].children@[k as int] == (token, child));
                }
                return Some(child);
            }
            k = k + 1;
        }
        proof {
            assert forall|id: int| 0 <= id < self.spec_len() implies self.prefix(id) != self.prefix(
                parent as int,
            ).push(token_id) by {
                if self.prefix(id) == self.prefix(parent as int).push(token_id) {
                    lemma_prefix_len(self.nodes@, id);
                    assert(id != 0);
                    let p = self.nodes@[id].parent.unwrap() as int;
                    assert(self.prefix(p) == self.prefix(parent as int)) by {
                        assert(self.prefix(id).drop_last() == self.prefix(p));
                        assert(self.prefix(parent as int).push(token_id).drop_last() =~= self.prefix(
                            parent as int,
                        ));
                    }
                    lemma_prefixes_are_unique(self.nodes@, p, parent as int);
                    let kk = choose|kk: int|
                        0 <= kk < self.nodes@[p].children@.len() && self.nodes@[p].children@[kk]
                            == (self.nodes@[id].token_id.unwrap(), id as usize);
                    assert(children@[kk].0 == token_id);
                }
            }
        }
        None
    }

    /// Returns the node for `prefix(parent) + [token_id]`, creating it once.
    pub fn intern_child(&mut self, parent: usize, token_id: usize) -> (r: usize)
        requires
            old(self).wf(),
            parent < old(self).spec_len(),
            old(self).spec_len() < usize::MAX,
        ensures
            final(self).wf(),
            r < final(self).spec_len(),
            final(self).prefix(r as int) == old(self).prefix(parent as int).push(token_id),
            final(self).context(r as int) == [
                old(self).context(parent as int)[1],
                spec_token_context_id(token_id),
            ],
            final(self).count(r as int) == old(self).count(parent as int) + 1,
            old(self).spec_len() <= final(self).spec_len() <= old(self).spec_len() + 1,
            forall|id: int|
                0 <= id < old(self).spec_len() ==> final(self).prefix(id) == old(self).prefix(id)
                    && final(self).context(id) == old(self).context(id) && final(self).count(id)
                    == old(self).count(id),
    {
        let existing = self.child(parent, token_id);
        if let Some(child) = existing {
            proof {
                let p = self.nodes@[child as int].parent.unwrap() as int;
                lemma_prefix_len(self.nodes@, child as int);
                assert(self.prefix(child as int).drop_last() == self.prefix(p));
                assert(self.prefix(parent as int).push(token_id).drop_last() =~= self.prefix(
                    parent as int,
                ));
                lemma_prefixes_are_unique(self.nodes@, p, parent as int);
            }
            return child;
        }
        let ghost old_nodes = self.nodes@;
        proof {
            lemma_prefix_len(self.nodes@, parent as int);
            assert forall|id: int| 0 <= id < old_nodes.len() implies prefix_tokens(old_nodes, id)
                != prefix_tokens(old_nodes, parent as int).push(token_id) by {
                assert(self.prefix(id) != self.prefix(parent as int).push(token_id));
            }
        }
        let token_count = self.nodes[parent].token_count + 1;
        let context = [self.nodes[parent].context[1], token_context_id(token_id)];
        let child = self.nodes.len();
        self.nodes.push(
            TokenPrefixNode {
                parent: Some(parent),
                token_id: Some(token_id),
                token_count,
                context,
                children: Vec::new(),
            },
        );
        let ghost mid_nodes = self.nodes@;
        self.nodes[parent].children.push((token_id, child));
        proof {
            lemma_push_child_keeps_wf(old_nodes, self.nodes@, parent as int, token_id);
        }
        child
    }

    /// The prefix one token shorter than `id` and that last token; nothing
    /// for the empty root.
    pub closed spec fn step_of(&self, id: int) -> Option<(usize, usize)> {
        if id == 0 {
            None
        } else {
            Some((self.nodes@[id].parent.unwrap(), self.nodes@[id].token_id.unwrap()))
        }
    }

    /// The parent prefix of `prefix_id` and the token that extends it.
    pub fn last_step(&self, prefix_id: usize) -> (r: Option<(usize, usize)>)
        requires
            self.wf(),
            prefix_id < self.spec_len(),
        ensures
            r == self.step_of(prefix_id as int),
            match r {
                Some((parent, token)) => parent < prefix_id && self.prefix(prefix_id as int) == self.prefix(
                    parent as int,
                ).push(token),
                None => prefix_id == 0,
            },
    {
        if prefix_id == 0 {
            return None;
        }
        proof {
            assert(self.nodes@[prefix_id as int].parent is Some);
        }
        let parent = match self.nodes[prefix_id].parent {
            Some(p) => p,
            None => 0,
        };
        let token = match self.nodes[prefix_id].token_id {
            Some(t) => t,
            None => 0,
        };
        Some((parent, token))
    }

    /// The tokens of prefix `prefix_id`, from first to last.
    pub fn token_ids(&self, prefix_id: usize) -> (r: Vec<usize>)
        requires
            self.wf(),
            prefix_id < self.spec_len(),
        ensures
            r@ == self.prefix(prefix_id as int),
    {
        let mut reversed: Vec<usize> = Vec::new();
        let mut id = prefix_id;
        while id != 0
            invariant
                prefix_nodes_wf(self.nodes@),
                id < self.nodes@.len(),
                prefix_tokens(self.nodes@, prefix_id as int) == prefix_tokens(self.nodes@, id as int)
                    + reversed@.reverse(),
            decreases id,
        {
            let node = &self.nodes[id];
            let parent = node.parent.unwrap();
            let token = node.token_id.unwrap();
            proof {
                assert(reversed@.push(token).reverse() =~= seq![token] + reversed@.reverse());
            }
            reversed.push(token);
            id = parent;
        }
        let mut tokens: Vec<usize> = Vec::new();
        let mut k = reversed.len();
        while k > 0
            invariant
                k <= reversed.len(),
                tokens@ == reversed@.subrange(k as int, reversed.len() as int).reverse(),
            decreases k,
        {
            k = k - 1;
            tokens.push(reversed[k]);
            assert(reversed@.subrange(k as int, reversed.len() as int).reverse() =~= reversed@.subrange(
                k + 1,
                reversed.len() as int,
            ).reverse().push(reversed@[k as int]));
        }
        assert(reversed@.subrange(0, reversed.len() as int) =~= reversed@);
        tokens
    }
}

/// The token count stored in a node is the length of its prefix, and a
/// non-root prefix ends with the node's own token.
pub proof fn lemma_prefix_len(nodes: Seq<TokenPrefixNode>, id: int)
    requires
        prefix_nodes_wf(nodes),
        0 <= id < nodes.len(),
    ensures
        prefix_tokens(nodes, id).len() == nodes[id].token_count,
        nodes[id].token_count <= id,
        id >= 1 ==> prefix_tokens(nodes, id).len() >= 1 && prefix_tokens(nodes, id).drop_last()
            == prefix_tokens(nodes, nodes[id].parent.unwrap() as int) && prefix_tokens(nodes, id).last()
            == nodes[id].token_id.unwrap(),
    decreases id,
{
    if id >= 1 {
        let p = nodes[id].parent.unwrap() as int;
        lemma_prefix_len(nodes, p);
        assert(prefix_tokens(nodes, id) == prefix_tokens(nodes, p).push(nodes[id].token_id.unwrap()));
        assert(prefix_tokens(nodes, id).drop_last() =~= prefix_tokens(nodes, p));
    }
}

/// Distinct nodes spell distinct prefixes: the arena interns every prefix once.
pub proof fn lemma_prefixes_are_unique(nodes: Seq<TokenPrefixNode>, a: int, b: int)
    requires
        prefix_nodes_wf(nodes),
        0 <= a < nodes.len(),
        0 <= b < nodes.len(),
        prefix_tokens(nodes, a) == prefix_tokens(nodes, b),
    ensures
        a == b,
    decreases a + b,
{
    lemma_prefix_len(nodes, a);
    lemma_prefix_len(nodes, b);
    if a != 0 && b != 0 {
        let pa = nodes[a].parent.unwrap() as int;
        let pb = nodes[b].parent.unwrap() as int;
        lemma_prefixes_are_unique(nodes, pa, pb);
        let ka = choose|k: int|
            0 <= k < nodes[pa].children@.len() && nodes[pa].children@[k] == (
                nodes[a].token_id.unwrap(),
                a as usize,
            );
        let kb = choose|k: int|
            0 <= k < nodes[pb].children@.len() && nodes[pb].children@[k] == (
                nodes[b].token_id.unwrap(),
                b as usize,
            );
        if ka != kb {
            assert(nodes[pa].children@[ka].0 != nodes[pa].children@[kb].0);
        }
    }
}

/// Appending a new child of `parent` for a token it has no child for keeps
/// the arena well formed and every existing prefix unchanged.
proof fn lemma_push_child_keeps_wf(
    old_nodes: Seq<TokenPrefixNode>,
    nodes: Seq<TokenPrefixNode>,
    parent: int,
    token: usize,
)
    requires
        prefix_nodes_wf(old_nodes),
        0 <= parent < old_nodes.len(),
        old_nodes.len() < usize::MAX,
        forall|id: int|
            0 <= id < old_nodes.len() ==> prefix_tokens(old_nodes, id) != prefix_tokens(
                old_nodes,
                parent,
            ).push(token),
        nodes.len() == old_nodes.len() + 1,
        nodes.last().parent == Some(parent as usize),
        nodes.last().token_id == Some(token),
        nodes.last().token_count == old_nodes[parent].token_count + 1,
        nodes.last().context == [old_nodes[parent].context[1], spec_token_context_id(token)],
        nodes.last().children@.len() == 0,
        forall|i: int| 0 <= i < old_nodes.len() && i != parent ==> nodes[i] == old_nodes[i],
        nodes[parent].parent == old_nodes[parent].parent,
        nodes[parent].token_id == old_nodes[parent].token_id,
        nodes[parent].token_count == old_nodes[parent].token_count,
        nodes[parent].context == old_nodes[parent].context,
        nodes[parent].children@ == old_nodes[parent].children@.push(
            (token, old_nodes.len() as usize),
        ),
    ensures
        prefix_nodes_wf(nodes),
        forall|id: int|
            0 <= id < old_nodes.len() ==> prefix_tokens(nodes, id) == prefix_tokens(old_nodes, id),
        prefix_tokens(nodes, old_nodes.len() as int) == prefix_tokens(old_nodes, parent).push(token),
{
    let child = old_nodes.len() as int;
    assert forall|id: int| 0 <= id < old_nodes.len() implies prefix_tokens(nodes, id)
        == prefix_tokens(old_nodes, id) by {
        lemma_prefix_extend(old_nodes, nodes, id);
    }
    assert forall|i: int|
        #![trigger nodes[i].parent]
        1 <= i < nodes.len() implies {
        &&& nodes[i].parent is Some
        &&& nodes[i].parent.unwrap() < i
        &&& nodes[i].token_id is Some
        &&& nodes[i].token_count == nodes[nodes[i].parent.unwrap() as int].token_count + 1
        &&& nodes[i].context[0] == nodes[nodes[i].parent.unwrap() as int].context[1]
        &&& nodes[i].context[1] == spec_token_context_id(nodes[i].token_id.unwrap())
    } by {
        if i < child {
            assert(old_nodes[i].parent is Some);
        }
    }
    assert forall|i: int, k: int|
        0 <= i < nodes.len() && 0 <= k < nodes[i].children@.len() implies {
        let (t, c) = #[trigger] nodes[i].children@[k];
        &&& 1 <= c < nodes.len()
        &&& nodes[c as int].parent == Some(i as usize)
        &&& nodes[c as int].token_id == Some(t)
    } by {
        if i == parent && k == nodes[i].children@.len() - 1 {
        } else {
            assert(nodes[i].children@[k] == old_nodes[i].children@[k]);
        }
    }
    assert forall|i: int, k1: int, k2: int|
        0 <= i < nodes.len() && 0 <= k1 < nodes[i].children@.len() && 0 <= k2
            < nodes[i].children@.len() && k1 != k2 implies (#[trigger] nodes[i].children@[k1]).0
        != (#[trigger] nodes[i].children@[k2]).0 by {
        if i == parent {
            let last = nodes[i].children@.len() - 1;
            if k1 == last || k2 == last {
                let other = if k1 == last { k2 } else { k1 };
                let c = old_nodes[i].children@[other].1 as int;
                lemma_prefix_len(old_nodes, c);
                assert(prefix_tokens(old_nodes, c) =~= prefix_tokens(old_nodes, i).push(
                    old_nodes[i].children@[other].0,
                ));
                assert(nodes[i].children@[other] == old_nodes[i].children@[other]);
            } else {
                assert(nodes[i].children@[k1] == old_nodes[i].children@[k1]);
                assert(nodes[i].children@[k2] == old_nodes[i].children@[k2]);
            }
        } else if i < child {
            assert(nodes[i].children@[k1] == old_nodes[i].children@[k1]);
            assert(nodes[i].children@[k2] == old_nodes[i].children@[k2]);
        }
    }
    assert forall|c: int|
        #![trigger nodes[c].token_id]
        1 <= c < nodes.len() implies exists|k: int|
        0 <= k < nodes[nodes[c].parent.unwrap() as int].children@.len() && nodes[nodes[
            c
        ].parent.unwrap() as int].children@[k] == (nodes[c].token_id.unwrap(), c as usize) by {
        if c == child {
            let k = nodes[parent].children@.len() - 1;
            assert(nodes[parent].children@[k] == (token, child as usize));
        } else {
            let p = old_nodes[c].parent.unwrap() as int;
            let k = choose|k: int|
                0 <= k < old_nodes[p].children@.len() && old_nodes[p].children@[k] == (
                    old_nodes[c].token_id.unwrap(),
                    c as usize,
                );
            assert(nodes[p].children@[k] == old_nodes[p].children@[k]);
        }
    }
}

proof fn lemma_prefix_same_parents(nodes: Seq<TokenPrefixNode>, other: Seq<TokenPrefixNode>, id: int)
    requires
        nodes.len() == other.len(),
        forall|i: int|
            0 <= i < nodes.len() ==> (#[trigger] nodes[i]).parent == other[i].parent
                && nodes[i].token_id == other[i].token_id,
    ensures
        prefix_tokens(nodes, id) == prefix_tokens(other, id),
    decreases id,
{
    if 0 < id < nodes.len() {
        if let Some(p) = nodes[id].parent {
            if p < id {
                lemma_prefix_same_parents(nodes, other, p as int);
            }
        }
    }
}

proof fn lemma_prefix_extend(old_nodes: Seq<TokenPrefixNode>, nodes: Seq<TokenPrefixNode>, id: int)
    requires
        old_nodes.len() <= nodes.len(),
        forall|i: int|
            0 <= i < old_nodes.len() ==> (#[trigger] nodes[i]).parent == old_nodes[i].parent
                && nodes[i].token_id == old_nodes[i].token_id,
        0 <= id < old_nodes.len(),
    ensures
        prefix_tokens(nodes, id) == prefix_tokens(old_nodes, id),
    decreases id,
{
    if 0 < id {
        if let Some(p) = nodes[id].parent {
            if p < id {
                lemma_prefix_extend(old_nodes, nodes, p as int);
            }
        }
    }
}


/// One node of the emission-frame trie.
#[derive(Debug)]
pub struct AlignmentNode {
    pub parent: Option<usize>,
    pub frame: Option<usize>,
}

/// Shared representative emission frames of beam hypotheses.
#[derive(Debug)]
pub struct AlignmentArena {
    nodes: Vec<AlignmentNode>,
}

/// The emission frames on the path from the root to node `id`.
pub open spec fn alignment_frames(nodes: Seq<AlignmentNode>, id: int) -> Seq<usize>
    decreases id,
{
    if id <= 0 || id >= nodes.len() {
        Seq::empty()
    } else {
        match nodes[id].parent {
            Some(parent) => if parent < id {
                alignment_frames(nodes, parent as int).push(nodes[id].frame.unwrap())
            } else {
                Seq::empty()
            },
            None => Seq::empty(),
        }
    }
}

pub open spec fn alignment_nodes_wf(nodes: Seq<AlignmentNode>) -> bool {
    &&& 1 <= nodes.len() <= usize::MAX
    &&& nodes[0].parent.is_none()
    &&& forall|i: int|
        #![trigger nodes[i].parent]
        1 <= i < nodes.len() ==> nodes[i].parent is Some && nodes[i].parent.unwrap() < i
            && nodes[i].frame is Some
}

proof fn lemma_alignment_extend(old_nodes: Seq<AlignmentNode>, nodes: Seq<AlignmentNode>, id: int)
    requires
        old_nodes.len() <= nodes.len(),
        forall|i: int| 0 <= i < old_nodes.len() ==> #[trigger] nodes[i] == old_nodes[i],
        0 <= id < old_nodes.len(),
    ensures
        alignment_frames(nodes, id) == alignment_frames(old_nodes, id),
    decreases id,
{
    if 0 < id {
        if let Some(p) = nodes[id].parent {
            if p < id {
                lemma_alignment_extend(old_nodes, nodes, p as int);
            }
        }
    }
}

impl AlignmentArena {
    pub closed spec fn wf(&self) -> bool {
        alignment_nodes_wf(self.nodes@)
    }

    pub closed spec fn spec_len(&self) -> nat {
        self.nodes@.len()
    }

    /// The emission frames recorded for alignment `id`.
    pub closed spec fn frames(&self, id: int) -> Seq<usize> {
        alignment_frames(self.nodes@, id)
    }

    pub fn new() -> (r: Self)
        ensures
            r.wf(),
            r.spec_len() == 1,
            r.frames(0) == Seq::<usize>::empty(),
    {
        let mut nodes: Vec<AlignmentNode> = Vec::new();
        nodes.push(AlignmentNode { parent: None, frame: None });
        AlignmentArena { nodes }
    }

    /// Number of recorded alignments, the empty root included.
    pub fn len(&self) -> (r: usize)
        ensures
            r == self.spec_len(),
    {
        self.nodes.len()
    }

    /// Records an emission at `frame` after alignment `parent`.
    pub fn push(&mut self, parent: usize, frame: usize) -> (r: usize)
        requires
            old(self).wf(),
            parent < old(self).spec_len(),
            old(self).spec_len() < usize::MAX,
        ensures
            final(self).wf(),
            r == old(self).spec_len(),
            final(self).spec_len() == old(self).spec_len() + 1,
            final(self).frames(r as int) == old(self).frames(parent as int).push(frame),
            forall|id: int|
                0 <= id < old(self).spec_len() ==> final(self).frames(id) == old(self).frames(id),
    {
        let ghost old_nodes = self.nodes@;
        let child = self.nodes.len();
        self.nodes.push(AlignmentNode { parent: Some(parent), frame: Some(frame) });
        proof {
            assert forall|id: int| 0 <= id < old_nodes.len() implies alignment_frames(
                self.nodes@,
                id,
            ) == alignment_frames(old_nodes, id) by {
                lemma_alignment_extend(old_nodes, self.nodes@, id);
            }
            lemma_alignment_extend(old_nodes, self.nodes@, parent as int);
        }
        child
    }

    /// The emission frames of alignment `alignment_id`, first to last.
    pub fn timestamps(&self, alignment_id: usize) -> (r: Vec<usize>)
        requires
            self.wf(),
            alignment_id < self.spec_len(),
        ensures
            r@ == self.frames(alignment_id as int),
    {
        let mut reversed: Vec<usize> = Vec::new();
        let mut id = alignment_id;
        while id != 0
            invariant
                alignment_nodes_wf(self.nodes@),
                id < self.nodes@.len(),
                alignment_frames(self.nodes@, alignment_id as int) == alignment_frames(
                    self.nodes@,
                    id as int,
                ) + reversed@.reverse(),
            decreases id,
        {
            let node = &self.nodes[id];
            let parent = node.parent.unwrap();
            let frame = node.frame.unwrap();
            proof {
                assert(reversed@.push(frame).reverse() =~= seq![frame] + reversed@.reverse());
            }
            reversed.push(frame);
            id = parent;
        }
        let mut frames: Vec<usize> = Vec::new();
        let mut k = reversed.len();
        while k > 0
            invariant
                k <= reversed.len(),
                frames@ == reversed@.subrange(k as int, reversed.len() as int).reverse(),
            decreases k,
        {
            k = k - 1;
            frames.push(reversed[k]);
            assert(reversed@.subrange(k as int, reversed.len() as int).reverse() =~= reversed@.subrange(
                k + 1,
                reversed.len() as int,
            ).reverse().push(reversed@[k as int]));
        }
        assert(reversed@.subrange(0, reversed.len() as int) =~= reversed@);
        frames
    }
}

/// Where the prefix of a hypothesis proposed during a frame will live: a node
/// that is already interned, or the extension of `parent` by `token_id`, interned
/// only if the hypothesis survives pruning.
#[derive(Debug, Clone, Copy, PartialEq, Eq)]
pub enum PendingPrefix {
    Existing(usize),
    New { parent: usize, token_id: usize },
}

/// The search state by which proposed hypotheses are recombined.
#[derive(Debug, Clone, Copy, PartialEq, Eq)]
pub struct StatelessSearchState {
    pub token_count: usize,
    pub context: [i64; 2],
    pub hotword_state: usize,
}

/// What extending one active hypothesis by one token proposes.
#[derive(Debug, Clone, Copy, PartialEq, Eq)]
pub struct PendingTransition {
    pub prefix: PendingPrefix,
    pub state: StatelessSearchState,
    /// The frame recorded as the emission time; nothing for blank.
    pub emitted_frame: Option<usize>,
    /// The hotword-graph step taken by an emitted token, when a graph is used.
    pub hotword_step: Option<HotwordStep>,
}

impl TokenPrefixArena {
    /// The tokens that a pending prefix stands for.
    pub open spec fn pending_tokens(&self, prefix: PendingPrefix) -> Seq<usize> {
        match prefix {
            PendingPrefix::Existing(id) => self.prefix(id as int),
            PendingPrefix::New { parent, token_id } => self.prefix(parent as int).push(token_id),
        }
    }

    /// Whether the ids named by a pending prefix are nodes of the arena.
    pub open spec fn pending_in_range(&self, prefix: PendingPrefix) -> bool {
        match prefix {
            PendingPrefix::Existing(id) => id < self.spec_len(),
            PendingPrefix::New { parent, .. } => parent < self.spec_len(),
        }
    }
}

/// Proposes the successor of the hypothesis at prefix `prefix_id` and hotword
/// state `hotword_state` when `token_id` is read at frame `frame_index`.
///
/// Blank keeps the prefix, its predictor state and the hotword state. An emitted
/// token extends the prefix (reusing the interned node when there is one),
/// shifts the token into the two-token context, records the frame, and advances
/// the hotword graph (its state is the root when no graph is used).
pub fn pending_transition(
    prefix_arena: &TokenPrefixArena,
    prefix_id: usize,
    hotword_state: usize,
    token_id: usize,
    blank_id: usize,
    frame_index: usize,
    hotwords: Option<&HotwordContextGraph>,
) -> (r: PendingTransition)
    requires
        prefix_arena.wf(),
        prefix_id < prefix_arena.spec_len(),
        match hotwords {
            Some(graph) => graph.wf() && hotword_state < graph.state_count(),
            None => true,
        },
    ensures
        prefix_arena.pending_in_range(r.prefix),
        token_id == blank_id ==> {
            &&& r.prefix == PendingPrefix::Existing(prefix_id)
            &&& r.state == (StatelessSearchState {
                token_count: prefix_arena.count(prefix_id as int) as usize,
                context: prefix_arena.context(prefix_id as int),
                hotword_state,
            })
            &&& r.emitted_frame is None
            &&& r.hotword_step is None
        },
        token_id != blank_id ==> {
            &&& prefix_arena.pending_tokens(r.prefix) == prefix_arena.prefix(prefix_id as int).push(
                token_id,
            )
            &&& (r.prefix is New <==> forall|id: int|
                0 <= id < prefix_arena.spec_len() ==> prefix_arena.prefix(id) != prefix_arena.prefix(
                    prefix_id as int,
                ).push(token_id))
            &&& r.prefix is New ==> r.prefix == (PendingPrefix::New { parent: prefix_id, token_id })
            &&& r.state.token_count == prefix_arena.count(prefix_id as int) + 1
            &&& r.state.context == [
                prefix_arena.context(prefix_id as int)[1],
                spec_token_context_id(token_id),
            ]
            &&& r.emitted_frame == Some(frame_index)
            &&& match hotwords {
                Some(graph) => r.hotword_step matches Some(step) && graph.is_forward_step(
                    hotword_state,
                    token_id,
                    step,
                ) && r.state.hotword_state == step.next_state,
                None => r.hotword_step is None && r.state.hotword_state == 0,
            }
        },
{
    let (token_count, context) = prefix_arena.count_and_context(prefix_id);
    if token_id == blank_id {
        return PendingTransition {
            prefix: PendingPrefix::Existing(prefix_id),
            state: StatelessSearchState { token_count, context, hotword_state },
            emitted_frame: None,
            hotword_step: None,
        };
    }
    let (hotword_step, next_hotword_state) = match hotwords {
        Some(graph) => {
            let step = graph.forward(hotword_state, token_id);
            (Some(step), step.next_state)
        },
        None => (None, 0),
    };
    let prefix = match prefix_arena.child(prefix_id, token_id) {
        Some(child) => PendingPrefix::Existing(child),
        None => PendingPrefix::New { parent: prefix_id, token_id },
    };
    PendingTransition {
        prefix,
        state: StatelessSearchState {
            token_count: token_count + 1,
            context: [context[1], token_context_id(token_id)],
            hotword_state: next_hotword_state,
        },
        emitted_frame: Some(frame_index),
        hotword_step,
    }
}

/// A proposed hypothesis that survived pruning, without its score.
#[derive(Debug, Clone, Copy, PartialEq, Eq)]
pub struct PendingSurvivor {
    pub prefix: PendingPrefix,
    pub hotword_state: usize,
    pub source_alignment_id: usize,
    pub emitted_frame: Option<usize>,
}

/// A survivor once its prefix and alignment are interned.
#[derive(Debug, Clone, Copy, PartialEq, Eq)]
pub struct MaterializedHypothesis {
    pub prefix_id: usize,
    pub alignment_id: usize,
    pub hotword_state: usize,
}

/// The beam kept no hypothesis.
#[derive(Debug, Clone, Copy, PartialEq, Eq)]
pub struct EmptyBeamError;

impl EmptyBeamError {
    pub fn message(self) -> (r: &'static str)
        ensures
            r@ == "stateless RNNT beam search produced no hypotheses"@,
    {
        "stateless RNNT beam search produced no hypotheses"
    }
}

/// The frames that a survivor's alignment stands for.
pub open spec fn survivor_frames(arena: AlignmentArena, survivor: PendingSurvivor) -> Seq<usize> {
    match survivor.emitted_frame {
        Some(frame) => arena.frames(survivor.source_alignment_id as int).push(frame),
        None => arena.frames(survivor.source_alignment_id as int),
    }
}

/// Interns the prefixes and alignments of the survivors of one frame, in
/// order. Fails when nothing survived.
pub fn materialize_survivors(
    survivors: &Vec<PendingSurvivor>,
    prefix_arena: &mut TokenPrefixArena,
    alignment_arena: &mut AlignmentArena,
) -> (r: Result<Vec<MaterializedHypothesis>, EmptyBeamError>)
    requires
        old(prefix_arena).wf(),
        old(alignment_arena).wf(),
        old(prefix_arena).spec_len() + survivors.len() < usize::MAX,
        old(alignment_arena).spec_len() + survivors.len() < usize::MAX,
        forall|i: int|
            0 <= i < survivors.len() ==> old(prefix_arena).pending_in_range(
                #[trigger] survivors@[i].prefix,
            ) && survivors@[i].source_alignment_id < old(alignment_arena).spec_len(),
    ensures
        final(prefix_arena).wf(),
        final(alignment_arena).wf(),
        forall|id: int|
            0 <= id < old(prefix_arena).spec_len() ==> #[trigger] final(prefix_arena).prefix(id) == old(
                prefix_arena,
            ).prefix(id),
        forall|id: int|
            0 <= id < old(alignment_arena).spec_len() ==> #[trigger] final(alignment_arena).frames(id)
                == old(alignment_arena).frames(id),
        r is Err <==> survivors.len() == 0,
        match r {
            Ok(kept) => {
                &&& kept.len() == survivors.len()
                &&& forall|i: int|
                    0 <= i < kept.len() ==> {
                        let s = #[trigger] survivors@[i];
                        &&& kept@[i].prefix_id < final(prefix_arena).spec_len()
                        &&& final(prefix_arena).prefix(kept@[i].prefix_id as int) == old(
                            prefix_arena,
                        ).pending_tokens(s.prefix)
                        &&& (s.prefix matches PendingPrefix::Existing(id) ==> kept@[i].prefix_id == id)
                        &&& kept@[i].alignment_id < final(alignment_arena).spec_len()
                        &&& final(alignment_arena).frames(kept@[i].alignment_id as int)
                            == survivor_frames(*old(alignment_arena), s)
                        &&& (s.emitted_frame is None ==> kept@[i].alignment_id
                            == s.source_alignment_id)
                        &&& kept@[i].hotword_state == s.hotword_state
                    }
            },
            Err(_) => true,
        },
{
    if survivors.len() == 0 {
        return Err(EmptyBeamError);
    }
    let ghost old_prefix = *prefix_arena;
    let ghost old_alignment = *alignment_arena;
    let mut kept: Vec<MaterializedHypothesis> = Vec::new();
    let mut i: usize = 0;
    while i < survivors.len()
        invariant
            i <= survivors.len(),
            kept.len() == i,
            prefix_arena.wf(),
            alignment_arena.wf(),
            old_prefix.spec_len() <= prefix_arena.spec_len() <= old_prefix.spec_len() + i,
            old_alignment.spec_len() <= alignment_arena.spec_len() <= old_alignment.spec_len() + i,
            old_prefix.spec_len() + survivors.len() < usize::MAX,
            old_alignment.spec_len() + survivors.len() < usize::MAX,
            forall|j: int|
                0 <= j < survivors.len() ==> old_prefix.pending_in_range(#[trigger] survivors@[j].prefix)
                    && survivors@[j].source_alignment_id < old_alignment.spec_len(),
            forall|id: int|
                0 <= id < old_prefix.spec_len() ==> #[trigger] prefix_arena.prefix(id)
                    == old_prefix.prefix(id),
            forall|id: int|
                0 <= id < old_alignment.spec_len() ==> #[trigger] alignment_arena.frames(id)
                    == old_alignment.frames(id),
            forall|j: int|
                0 <= j < i ==> {
                    let s = #[trigger] survivors@[j];
                    &&& kept@[j].prefix_id < prefix_arena.spec_len()
                    &&& prefix_arena.prefix(kept@[j].prefix_id as int) == old_prefix.pending_tokens(
                        s.prefix,
                    )
                    &&& (s.prefix matches PendingPrefix::Existing(id) ==> kept@[j].prefix_id == id)
                    &&& kept@[j].alignment_id < alignment_arena.spec_len()
                    &&& alignment_arena.frames(kept@[j].alignment_id as int) == survivor_frames(
                        old_alignment,
                        s,
                    )
                    &&& (s.emitted_frame is None ==> kept@[j].alignment_id == s.source_alignment_id)
                    &&& kept@[j].hotword_state == s.hotword_state
                },
        decreases survivors.len() - i,
    {
        let candidate = survivors[i];
        let ghost before_prefix = *prefix_arena;
        let ghost before_alignment = *alignment_arena;
        assert(old_prefix.pending_in_range(survivors@[i as int].prefix));
        let prefix_id = match candidate.prefix {
            PendingPrefix::Existing(id) => id,
            PendingPrefix::New { parent, token_id } => prefix_arena.intern_child(parent, token_id),
        };
        let alignment_id = match candidate.emitted_frame {
            Some(frame) => alignment_arena.push(candidate.source_alignment_id, frame),
            None => candidate.source_alignment_id,
        };
        kept.push(
            MaterializedHypothesis { prefix_id, alignment_id, hotword_state: candidate.hotword_state },
        );
        proof {
            assert forall|j: int| 0 <= j < i implies {
                let s = #[trigger] survivors@[j];
                &&& kept@[j].prefix_id < prefix_arena.spec_len()
                &&& prefix_arena.prefix(kept@[j].prefix_id as int) == old_prefix.pending_tokens(
                    s.prefix,
                )
                &&& (s.prefix matches PendingPrefix::Existing(id) ==> kept@[j].prefix_id == id)
                &&& kept@[j].alignment_id < alignment_arena.spec_len()
                &&& alignment_arena.frames(kept@[j].alignment_id as int) == survivor_frames(
                    old_alignment,
                    s,
                )
                &&& (s.emitted_frame is None ==> kept@[j].alignment_id == s.source_alignment_id)
                &&& kept@[j].hotword_state == s.hotword_state
            } by {
                assert(before_prefix.prefix(kept@[j].prefix_id as int) == old_prefix.pending_tokens(
                    survivors@[j].prefix,
                ));
                assert(before_alignment.frames(kept@[j].alignment_id as int) == survivor_frames(
                    old_alignment,
                    survivors@[j],
                ));
            }
        }
        i = i + 1;
    }
    Ok(kept)
}

/// Why a stateless RNN-T beam search cannot start.
#[derive(Debug, Clone, Copy, PartialEq, Eq, Structural)]
pub enum StatelessBeamError {
    ZeroBeam,
    /// The encoder output is not `frames` (at least one) rows of a nonzero width.
    EncoderShape,
    /// The vocabulary is empty or does not hold blank.
    Vocabulary,
    /// An initial context value is below `-1` or a token outside the vocabulary.
    InitialContext,
    /// The extra non-emitting token is blank or outside the vocabulary.
    AdditionalNonEmitting,
    /// Global top-K pruning ranks by raw scores only.
    SherpaNormalization,
    /// A hotword graph needs a pruning that refills the beam.
    SherpaHotwords,
}

impl StatelessBeamError {
    pub fn message(self) -> (r: &'static str)
        ensures
            r@ == match self {
                StatelessBeamError::ZeroBeam => "RNNT beam size must be positive"@,
                StatelessBeamError::EncoderShape => "invalid stateless RNNT encoder shape"@,
                StatelessBeamError::Vocabulary => "invalid stateless RNNT vocabulary"@,
                StatelessBeamError::InitialContext => "invalid stateless RNNT initial context"@,
                StatelessBeamError::AdditionalNonEmitting => "invalid stateless RNNT additional non-emitting token"@,
                StatelessBeamError::SherpaNormalization => "sherpa-compatible pruning supports raw search ranking only"@,
                StatelessBeamError::SherpaHotwords => "hotword context bias requires refill-capable beam pruning"@,
            },
    {
        match self {
            StatelessBeamError::ZeroBeam => "RNNT beam size must be positive",
            StatelessBeamError::EncoderShape => "invalid stateless RNNT encoder shape",
            StatelessBeamError::Vocabulary => "invalid stateless RNNT vocabulary",
            StatelessBeamError::InitialContext => "invalid stateless RNNT initial context",
            StatelessBeamError::AdditionalNonEmitting => "invalid stateless RNNT additional non-emitting token",
            StatelessBeamError::SherpaNormalization => "sherpa-compatible pruning supports raw search ranking only",
            StatelessBeamError::SherpaHotwords => "hotword context bias requires refill-capable beam pruning",
        }
    }
}

/// Whether a context value is `-1` (no token) or a token of the vocabulary.
pub open spec fn context_value_ok(value: i64, vocab_size: usize) -> bool {
    -1 <= value && (value < 0 || value < vocab_size)
}

/// What keeps a beam search from starting, checked in this order.
pub open spec fn stateless_beam_error(
    encoder_len: usize,
    frames: usize,
    encoder_dim: usize,
    vocab_size: usize,
    blank_id: usize,
    config: StatelessRnntBeamConfig,
    has_hotwords: bool,
) -> Option<StatelessBeamError> {
    if config.beam_size == 0 {
        Some(StatelessBeamError::ZeroBeam)
    } else if frames == 0 || encoder_dim == 0 || encoder_len != frames * encoder_dim {
        Some(StatelessBeamError::EncoderShape)
    } else if vocab_size == 0 || blank_id >= vocab_size {
        Some(StatelessBeamError::Vocabulary)
    } else if !context_value_ok(config.initial_context[0], vocab_size) || !context_value_ok(
        config.initial_context[1],
        vocab_size,
    ) {
        Some(StatelessBeamError::InitialContext)
    } else if config.additional_non_emitting_id matches Some(token) && (token >= vocab_size || token == blank_id) {
        Some(StatelessBeamError::AdditionalNonEmitting)
    } else if config.pruning == StatelessRnntPruning::Sherpa && config.search_length_normalization
        != StatelessRnntLengthNormalization::Raw {
        Some(StatelessBeamError::SherpaNormalization)
    } else if has_hotwords && config.pruning == StatelessRnntPruning::Sherpa {
        Some(StatelessBeamError::SherpaHotwords)
    } else {
        None
    }
}

fn context_value_in_vocabulary(value: i64, vocab_size: usize) -> (r: bool)
    ensures
        r == context_value_ok(value, vocab_size),
{
    if value < -1 {
        false
    } else if value < 0 {
        true
    } else {
        (value as u64) < (vocab_size as u64)
    }
}

/// Checks the shape, vocabulary and configuration of a beam search request.
pub fn validate_stateless_beam_request(
    encoder_len: usize,
    frames: usize,
    encoder_dim: usize,
    vocab_size: usize,
    blank_id: usize,
    config: StatelessRnntBeamConfig,
    has_hotwords: bool,
) -> (r: Result<(), StatelessBeamError>)
    ensures
        r == match stateless_beam_error(encoder_len, frames, encoder_dim, vocab_size, blank_id, config, has_hotwords) {
            Some(e) => Err(e),
            None => Ok(()),
        },
{
    if config.beam_size == 0 {
        return Err(StatelessBeamError::ZeroBeam);
    }
    let shape_ok = match frames.checked_mul(encoder_dim) {
        Some(product) => product == encoder_len,
        None => false,
    };
    if frames == 0 || encoder_dim == 0 || !shape_ok {
        return Err(StatelessBeamError::EncoderShape);
    }
    if vocab_size == 0 || blank_id >= vocab_size {
        return Err(StatelessBeamError::Vocabulary);
    }
    if !context_value_in_vocabulary(config.initial_context[0], vocab_size) || !context_value_in_vocabulary(
        config.initial_context[1],
        vocab_size,
    ) {
        return Err(StatelessBeamError::InitialContext);
    }
    if let Some(token) = config.additional_non_emitting_id {
        if token >= vocab_size || token == blank_id {
            return Err(StatelessBeamError::AdditionalNonEmitting);
        }
    }
    let sherpa = match config.pruning {
        StatelessRnntPruning::Sherpa => true,
        _ => false,
    };
    let raw = match config.search_length_normalization {
        StatelessRnntLengthNormalization::Raw => true,
        _ => false,
    };
    if sherpa && !raw {
        return Err(StatelessBeamError::SherpaNormalization);
    }
    if has_hotwords && sherpa {
        return Err(StatelessBeamError::SherpaHotwords);
    }
    Ok(())
}

/// Whether two predictor contexts are the same pair of token ids.
pub fn same_context(a: [i64; 2], b: [i64; 2]) -> (r: bool)
    ensures
        r == (a == b),
{
    let r = a[0] == b[0] && a[1] == b[1];
    proof {
        if a[0] == b[0] && a[1] == b[1] {
            assert(a =~= b);
        }
    }
    r
}

/// The distinct elements of `items` in the order they first occur.
pub open spec fn first_occurrences<T>(items: Seq<T>) -> Seq<T>
    decreases items.len(),
{
    if items.len() == 0 {
        Seq::empty()
    } else {
        let earlier = first_occurrences(items.drop_last());
        if earlier.contains(items.last()) {
            earlier
        } else {
            earlier.push(items.last())
        }
    }
}

pub open spec fn no_duplicates<T>(items: Seq<T>) -> bool {
    forall|a: int, b: int|
        0 <= a < items.len() && 0 <= b < items.len() && a != b ==> items[a] != items[b]
}

/// The distinct predictor contexts in first-occurrence order, and for every
/// input context the row of its distinct copy.
pub fn unique_context_layout(contexts: &[[i64; 2]]) -> (r: (Vec<[i64; 2]>, Vec<usize>))
    ensures
        r.0@ == first_occurrences(contexts@),
        no_duplicates(r.0@),
        r.1.len() == contexts.len(),
        forall|i: int|
            0 <= i < contexts.len() ==> (#[trigger] r.1@[i]) < r.0.len() && r.0@[r.1@[i] as int]
                == contexts@[i],
{
    let mut unique: Vec<[i64; 2]> = Vec::new();
    let mut rows: Vec<usize> = Vec::with_capacity(contexts.len());
    let mut index: usize = 0;
    while index < contexts.len()
        invariant
            index <= contexts.len(),
            unique@ == first_occurrences(contexts@.take(index as int)),
            no_duplicates(unique@),
            unique.len() <= index,
            rows.len() == index,
            forall|i: int|
                0 <= i < index ==> (#[trigger] rows@[i]) < unique.len() && unique@[rows@[i] as int]
                    == contexts@[i],
        decreases contexts.len() - index,
    {
        let context = contexts[index];
        let mut row: usize = 0;
        while row < unique.len() && !same_context(unique[row], context)
            invariant
                row <= unique.len(),
                forall|j: int| 0 <= j < row ==> unique@[j] != context,
            decreases unique.len() - row,
        {
            row = row + 1;
        }
        proof {
            assert(contexts@.take(index + 1).drop_last() =~= contexts@.take(index as int));
            assert(contexts@.take(index + 1).last() == context);
        }
        if row == unique.len() {
            proof {
                assert(!unique@.contains(context));
            }
            unique.push(context);
        } else {
            proof {
                assert(unique@.contains(context));
            }
        }
        rows.push(row);
        index = index + 1;
    }
    assert(contexts@.take(contexts.len() as int) =~= contexts@);
    (unique, rows)
}

/// The value of the first entry of `active` for `prefix_id`.
pub open spec fn first_active_index(active: Seq<(usize, usize)>, prefix_id: usize) -> Option<usize>
    decreases active.len(),
{
    if active.len() == 0 {
        None
    } else if active[0].0 == prefix_id {
        Some(active[0].1)
    } else {
        first_active_index(active.drop_first(), prefix_id)
    }
}

/// The active index recorded for `prefix_id`, taken from its first entry.
pub fn active_prefix_index(active_prefixes: &[(usize, usize)], prefix_id: usize) -> (r: Option<usize>)
    ensures
        r == first_active_index(active_prefixes@, prefix_id),
        r is Some <==> exists|i: int| 0 <= i < active_prefixes.len() && active_prefixes@[i].0 == prefix_id,
        r is Some ==> exists|i: int|
            0 <= i < active_prefixes.len() && active_prefixes@[i] == (prefix_id, r->0) && forall|
                j: int,
            | 0 <= j < i ==> active_prefixes@[j].0 != prefix_id,
{
    let mut index: usize = 0;
    proof {
        assert(active_prefixes@.skip(0) =~= active_prefixes@);
    }
    while index < active_prefixes.len()
        invariant
            index <= active_prefixes.len(),
            forall|j: int| 0 <= j < index ==> active_prefixes@[j].0 != prefix_id,
            first_active_index(active_prefixes@, prefix_id) == first_active_index(
                active_prefixes@.skip(index as int),
                prefix_id,
            ),
        decreases active_prefixes.len() - index,
    {
        let (prefix, value) = active_prefixes[index];
        proof {
            let rest = active_prefixes@.skip(index as int);
            assert(rest[0] == active_prefixes@[index as int]);
            assert(rest.drop_first() =~= active_prefixes@.skip(index + 1));
        }
        if prefix == prefix_id {
            return Some(value);
        }
        index = index + 1;
    }
    proof {
        assert(active_prefixes@.skip(index as int).len() == 0);
    }
    None
}

/// Whether beam prefix `prefix_id` asks row `row` for its last token `t`:
/// its parent prefix is active, and that parent's context is row `row`.
pub open spec fn last_token_request(
    arena: TokenPrefixArena,
    active: Seq<(usize, usize)>,
    context_rows: Seq<usize>,
    prefix_id: int,
    row: int,
    t: usize,
) -> bool {
    match arena.step_of(prefix_id) {
        Some((parent, token)) => match first_active_index(active, parent) {
            Some(index) => context_rows[index as int] == row && token == t,
            None => false,
        },
        None => false,
    }
}

/// Whether hypothesis `h` of the beam, given as prefix and hotword state,
/// asks row `row` for column `t`.
pub open spec fn hypothesis_requests(
    beam: Seq<(usize, usize)>,
    arena: TokenPrefixArena,
    active: Seq<(usize, usize)>,
    context_rows: Seq<usize>,
    hotwords: Option<&HotwordContextGraph>,
    h: int,
    row: int,
    t: usize,
) -> bool {
    ||| last_token_request(arena, active, context_rows, beam[h].0 as int, row, t)
    ||| match hotwords {
        Some(g) => context_rows[h] == row && continues_after_suffix(
            g.token_paths(),
            g.injecting(),
            g.state_prefix(beam[h].1 as int),
            t,
        ),
        None => false,
    }
}

/// Whether one of the first `count` hypotheses asks row `row` for `t`.
pub open spec fn requested_by_first(
    beam: Seq<(usize, usize)>,
    arena: TokenPrefixArena,
    active: Seq<(usize, usize)>,
    context_rows: Seq<usize>,
    hotwords: Option<&HotwordContextGraph>,
    count: int,
    row: int,
    t: usize,
) -> bool {
    exists|h: int|
        0 <= h < count && #[trigger] hypothesis_requests(beam, arena, active, context_rows, hotwords, h, row, t)
}

proof fn lemma_requested_by_one_more(
    beam: Seq<(usize, usize)>,
    arena: TokenPrefixArena,
    active: Seq<(usize, usize)>,
    context_rows: Seq<usize>,
    hotwords: Option<&HotwordContextGraph>,
    count: int,
    row: int,
    t: usize,
)
    requires
        0 <= count,
    ensures
        requested_by_first(beam, arena, active, context_rows, hotwords, count + 1, row, t) <==> (
        requested_by_first(beam, arena, active, context_rows, hotwords, count, row, t)
            || hypothesis_requests(beam, arena, active, context_rows, hotwords, count, row, t)),
{
    if requested_by_first(beam, arena, active, context_rows, hotwords, count + 1, row, t) {
        let h = choose|h: int|
            0 <= h < count + 1 && #[trigger] hypothesis_requests(beam, arena, active, context_rows, hotwords, h, row, t);
        if h < count {
            assert(requested_by_first(beam, arena, active, context_rows, hotwords, count, row, t));
        }
    }
    if requested_by_first(beam, arena, active, context_rows, hotwords, count, row, t) {
        let h = choose|h: int|
            0 <= h < count && #[trigger] hypothesis_requests(beam, arena, active, context_rows, hotwords, h, row, t);
        assert(0 <= h < count + 1);
    }
    if hypothesis_requests(beam, arena, active, context_rows, hotwords, count, row, t) {
        assert(0 <= count < count + 1);
    }
}

/// The score columns each network row must return: blank, the extra
/// non-emitting token, every hypothesis's last token at the row of its
/// parent's context, and, with hotwords, every continuation of each
/// hypothesis's graph state at its own row; ascending, each once.
pub fn compact_score_requests(
    beam: &[(usize, usize)],
    prefix_arena: &TokenPrefixArena,
    context_rows: &[usize],
    network_rows: usize,
    active_prefixes: &[(usize, usize)],
    blank_id: usize,
    additional_non_emitting_id: Option<usize>,
    hotwords: Option<&HotwordContextGraph>,
) -> (r: Vec<Vec<usize>>)
    requires
        prefix_arena.wf(),
        forall|h: int| 0 <= h < beam.len() ==> (#[trigger] beam@[h]).0 < prefix_arena.spec_len(),
        forall|i: int| 0 <= i < active_prefixes.len() ==> (#[trigger] active_prefixes@[i]).1 < context_rows.len(),
        forall|i: int| 0 <= i < context_rows.len() ==> #[trigger] context_rows@[i] < network_rows,
        hotwords matches Some(g) ==> g.wf() && beam.len() <= context_rows.len() && forall|h: int|
            0 <= h < beam.len() ==> (#[trigger] beam@[h]).1 < g.state_count(),
    ensures
        r@.len() == network_rows,
        forall|row: int|
            0 <= row < network_rows ==> strictly_ascending((#[trigger] r@[row])@) && forall|t: usize|
                r@[row]@.contains(t) <==> (t == blank_id || additional_non_emitting_id == Some(t)
                    || requested_by_first(
                    beam@,
                    *prefix_arena,
                    active_prefixes@,
                    context_rows@,
                    hotwords,
                    beam.len() as int,
                    row,
                    t,
                )),
{
    let ghost b = beam@;
    let ghost arena = *prefix_arena;
    let ghost active = active_prefixes@;
    let ghost rows = context_rows@;
    let mut requested: Vec<Vec<usize>> = Vec::new();
    let mut row: usize = 0;
    while row < network_rows
        invariant
            row <= network_rows,
            requested@.len() == row,
            b == beam@,
            arena == *prefix_arena,
            active == active_prefixes@,
            rows == context_rows@,
            prefix_arena.wf(),
            forall|h: int| 0 <= h < beam.len() ==> (#[trigger] beam@[h]).0 < prefix_arena.spec_len(),
            forall|i: int| 0 <= i < active_prefixes.len() ==> (#[trigger] active_prefixes@[i]).1 < context_rows.len(),
            hotwords matches Some(g) ==> g.wf() && beam.len() <= context_rows.len() && forall|h: int|
                0 <= h < beam.len() ==> (#[trigger] beam@[h]).1 < g.state_count(),
            forall|done: int|
                0 <= done < row ==> strictly_ascending((#[trigger] requested@[done])@) && forall|t: usize|
                    requested@[done]@.contains(t) <==> (t == blank_id || additional_non_emitting_id == Some(t)
                        || requested_by_first(b, arena, active, rows, hotwords, beam.len() as int, done, t)),
        decreases network_rows - row,
    {
        let mut tokens: Vec<usize> = Vec::new();
        tokens.push(blank_id);
        proof {
            assert forall|x: usize| tokens@.contains(x) <==> x == blank_id by {
                if tokens@.contains(x) {
                    let k = choose|k: int| 0 <= k < tokens@.len() && tokens@[k] == x;
                }
                if x == blank_id {
                    assert(tokens@[0] == x);
                }
            }
        }
        match additional_non_emitting_id {
            Some(extra) => {
                tokens = insert_sorted(tokens, extra);
            },
            None => {},
        }
        let mut h: usize = 0;
        while h < beam.len()
            invariant
                h <= beam.len(),
                b == beam@,
                arena == *prefix_arena,
                active == active_prefixes@,
                rows == context_rows@,
                prefix_arena.wf(),
                forall|k: int| 0 <= k < beam.len() ==> (#[trigger] beam@[k]).0 < prefix_arena.spec_len(),
                forall|i: int| 0 <= i < active_prefixes.len() ==> (#[trigger] active_prefixes@[i]).1 < context_rows.len(),
                hotwords matches Some(g) ==> g.wf() && beam.len() <= context_rows.len() && forall|k: int|
                    0 <= k < beam.len() ==> (#[trigger] beam@[k]).1 < g.state_count(),
                strictly_ascending(tokens@),
                forall|t: usize|
                    tokens@.contains(t) <==> (t == blank_id || additional_non_emitting_id == Some(t)
                        || requested_by_first(b, arena, active, rows, hotwords, h as int, row as int, t)),
            decreases beam.len() - h,
        {
            let ghost before = tokens@;
            let (prefix_id, hotword_state) = beam[h];
            let mut asked: Option<usize> = None;
            match prefix_arena.last_step(prefix_id) {
                Some((parent, token)) => match active_prefix_index(active_prefixes, parent) {
                    Some(index) => {
                        if context_rows[index] == row {
                            asked = Some(token);
                        }
                    },
                    None => {},
                },
                None => {},
            }
            match asked {
                Some(token) => {
                    tokens = insert_sorted(tokens, token);
                },
                None => {},
            }
            let ghost middle = tokens@;
            let mut continued: Option<Vec<usize>> = None;
            match hotwords {
                Some(g) => {
                    if context_rows[h] == row {
                        let next = vstd::slice::slice_to_vec(g.continuation_tokens(hotword_state));
                        tokens = insert_all_sorted(tokens, &next);
                        continued = Some(next);
                    }
                },
                None => {},
            }
            proof {
                lemma_requested_by_one_more(b, arena, active, rows, hotwords, h as int, row as int, 0);
                assert forall|t: usize|
                    tokens@.contains(t) <==> (t == blank_id || additional_non_emitting_id == Some(t)
                        || requested_by_first(b, arena, active, rows, hotwords, h + 1, row as int, t)) by {
                    lemma_requested_by_one_more(b, arena, active, rows, hotwords, h as int, row as int, t);
                    assert(middle.contains(t) <==> (before.contains(t) || asked == Some(t)));
                    assert(last_token_request(arena, active, rows, b[h as int].0 as int, row as int, t) <==> asked
                        == Some(t));
                    match hotwords {
                        Some(g) => {
                            if context_rows@[h as int] == row {
                                assert(tokens@.contains(t) <==> (middle.contains(t) || continued->0@.contains(t)));
                            } else {
                                assert(tokens@ == middle);
                            }
                        },
                        None => {
                            assert(tokens@ == middle);
                        },
                    }
                }
            }
            h = h + 1;
        }
        requested.push(tokens);
        row = row + 1;
    }
    requested
}

/// Why compact scores returned by a network do not answer the requests.
#[derive(Debug, Clone, Copy, PartialEq, Eq, Structural)]
pub enum CompactScoreError {
    /// A score table has another number of rows than the contexts.
    RowCount,
    /// A row has another number of top tokens or requested scores than expected.
    Width { row: usize },
    /// A top token of the row is blank, the extra non-emitting token or out of
    /// the vocabulary.
    NonEmittingToken { row: usize },
    /// The row's top tokens are not ordered best first.
    Unordered { row: usize },
}

impl CompactScoreError {
    pub fn message(self) -> (r: &'static str)
        ensures
            r@ == match self {
                CompactScoreError::RowCount => "stateless RNNT compact score row count changed"@,
                CompactScoreError::Width { .. } => "stateless RNNT compact score width changed"@,
                CompactScoreError::NonEmittingToken { .. } => "stateless RNNT compact TopK returned a non-emitting token"@,
                CompactScoreError::Unordered { .. } => "stateless RNNT compact TopK ordering changed"@,
            },
    {
        match self {
            CompactScoreError::RowCount => "stateless RNNT compact score row count changed",
            CompactScoreError::Width { .. } => "stateless RNNT compact score width changed",
            CompactScoreError::NonEmittingToken { .. } => "stateless RNNT compact TopK returned a non-emitting token",
            CompactScoreError::Unordered { .. } => "stateless RNNT compact TopK ordering changed",
        }
    }
}

/// How many top tokens a row holds: the limit, or every emitting token of the
/// vocabulary when there are fewer.
pub open spec fn compact_top_width(emitting_limit: usize, vocab_size: usize, extra_non_emitting: bool) -> int {
    let excluded: int = if extra_non_emitting {
        2
    } else {
        1
    };
    let available: int = if vocab_size >= excluded {
        vocab_size - excluded
    } else {
        0
    };
    if emitting_limit < available {
        emitting_limit as int
    } else {
        available
    }
}

pub fn compact_top_count(emitting_limit: usize, vocab_size: usize, additional_non_emitting_id: Option<usize>) -> (r: usize)
    ensures
        r == compact_top_width(emitting_limit, vocab_size, additional_non_emitting_id is Some),
{
    let excluded: usize = match additional_non_emitting_id {
        Some(_) => 2,
        None => 1,
    };
    let available = vocab_size.saturating_sub(excluded);
    if emitting_limit < available {
        emitting_limit
    } else {
        available
    }
}

/// Whether `token_id` may be emitted.
pub open spec fn is_emitting(token_id: usize, vocab_size: usize, blank_id: usize, additional_non_emitting_id: Option<usize>) -> bool {
    token_id < vocab_size && token_id != blank_id && additional_non_emitting_id != Some(token_id)
}

/// What is wrong with compact score row `row`, checked in this order.
pub open spec fn compact_row_error(
    top_token_ids: Seq<usize>,
    score_width: usize,
    requested_width: nat,
    ordered: bool,
    row: usize,
    top_width: int,
    vocab_size: usize,
    blank_id: usize,
    additional_non_emitting_id: Option<usize>,
) -> Option<CompactScoreError> {
    if top_token_ids.len() != top_width || score_width != requested_width {
        Some(CompactScoreError::Width { row })
    } else if exists|i: int|
        0 <= i < top_token_ids.len() && !is_emitting(
            #[trigger] top_token_ids[i],
            vocab_size,
            blank_id,
            additional_non_emitting_id,
        ) {
        Some(CompactScoreError::NonEmittingToken { row })
    } else if !ordered {
        Some(CompactScoreError::Unordered { row })
    } else {
        None
    }
}

/// The error of the first of the first `count` rows that has one.
pub open spec fn first_compact_row_error(
    top_token_ids: Seq<Vec<usize>>,
    score_widths: Seq<usize>,
    requested_token_ids: Seq<Vec<usize>>,
    ordered: Seq<bool>,
    count: int,
    top_width: int,
    vocab_size: usize,
    blank_id: usize,
    additional_non_emitting_id: Option<usize>,
) -> Option<CompactScoreError>
    decreases count,
{
    if count <= 0 {
        None
    } else {
        match first_compact_row_error(
            top_token_ids,
            score_widths,
            requested_token_ids,
            ordered,
            count - 1,
            top_width,
            vocab_size,
            blank_id,
            additional_non_emitting_id,
        ) {
            Some(e) => Some(e),
            None => compact_row_error(
                top_token_ids[count - 1]@,
                score_widths[count - 1],
                requested_token_ids[count - 1]@.len(),
                ordered[count - 1],
                (count - 1) as usize,
                top_width,
                vocab_size,
                blank_id,
                additional_non_emitting_id,
            ),
        }
    }
}

proof fn lemma_first_compact_row_error_stays(
    top_token_ids: Seq<Vec<usize>>,
    score_widths: Seq<usize>,
    requested_token_ids: Seq<Vec<usize>>,
    ordered: Seq<bool>,
    count: int,
    later: int,
    top_width: int,
    vocab_size: usize,
    blank_id: usize,
    additional_non_emitting_id: Option<usize>,
)
    requires
        0 <= count <= later,
        first_compact_row_error(
            top_token_ids,
            score_widths,
            requested_token_ids,
            ordered,
            count,
            top_width,
            vocab_size,
            blank_id,
            additional_non_emitting_id,
        ) is Some,
    ensures
        first_compact_row_error(
            top_token_ids,
            score_widths,
            requested_token_ids,
            ordered,
            later,
            top_width,
            vocab_size,
            blank_id,
            additional_non_emitting_id,
        ) == first_compact_row_error(
            top_token_ids,
            score_widths,
            requested_token_ids,
            ordered,
            count,
            top_width,
            vocab_size,
            blank_id,
            additional_non_emitting_id,
        ),
    decreases later - count,
{
    if count < later {
        lemma_first_compact_row_error_stays(
            top_token_ids,
            score_widths,
            requested_token_ids,
            ordered,
            count,
            later - 1,
            top_width,
            vocab_size,
            blank_id,
            additional_non_emitting_id,
        );
    }
}

/// Checks compact scores against the requests they answer: `top_token_ids[row]`
/// are the ids of the row's top tokens, `score_widths[row]` the number of its
/// requested scores, and `ordered[row]` whether its top tokens come best first.
pub fn check_compact_scores(
    top_token_ids: &[Vec<usize>],
    score_widths: &[usize],
    requested_token_ids: &[Vec<usize>],
    ordered: &[bool],
    rows: usize,
    vocab_size: usize,
    emitting_limit: usize,
    blank_id: usize,
    additional_non_emitting_id: Option<usize>,
) -> (r: Result<(), CompactScoreError>)
    requires
        ordered.len() == top_token_ids.len(),
    ensures
        top_token_ids.len() != rows || score_widths.len() != rows || requested_token_ids.len() != rows ==> r
            == Err::<(), CompactScoreError>(CompactScoreError::RowCount),
        top_token_ids.len() == rows && score_widths.len() == rows && requested_token_ids.len() == rows ==> r
            == match first_compact_row_error(
            top_token_ids@,
            score_widths@,
            requested_token_ids@,
            ordered@,
            rows as int,
            compact_top_width(emitting_limit, vocab_size, additional_non_emitting_id is Some),
            vocab_size,
            blank_id,
            additional_non_emitting_id,
        ) {
            Some(e) => Err(e),
            None => Ok(()),
        },
{
    if top_token_ids.len() != rows || score_widths.len() != rows || requested_token_ids.len() != rows {
        return Err(CompactScoreError::RowCount);
    }
    let expected_top = compact_top_count(emitting_limit, vocab_size, additional_non_emitting_id);
    let ghost width = compact_top_width(emitting_limit, vocab_size, additional_non_emitting_id is Some);
    let mut row: usize = 0;
    while row < rows
        invariant
            row <= rows,
            top_token_ids.len() == rows,
            score_widths.len() == rows,
            requested_token_ids.len() == rows,
            ordered.len() == rows,
            expected_top == width,
            width == compact_top_width(emitting_limit, vocab_size, additional_non_emitting_id is Some),
            first_compact_row_error(
                top_token_ids@,
                score_widths@,
                requested_token_ids@,
                ordered@,
                row as int,
                width,
                vocab_size,
                blank_id,
                additional_non_emitting_id,
            ) is None,
        decreases rows - row,
    {
        let top = &top_token_ids[row];
        if top.len() != expected_top || score_widths[row] != requested_token_ids[row].len() {
            proof {
                assert(first_compact_row_error(
                    top_token_ids@,
                    score_widths@,
                    requested_token_ids@,
                    ordered@,
                    row + 1,
                    width,
                    vocab_size,
                    blank_id,
                    additional_non_emitting_id,
                ) == Some(CompactScoreError::Width { row }));
                lemma_first_compact_row_error_stays(
                    top_token_ids@,
                    score_widths@,
                    requested_token_ids@,
                    ordered@,
                    row + 1,
                    rows as int,
                    width,
                    vocab_size,
                    blank_id,
                    additional_non_emitting_id,
                );
                assert(first_compact_row_error(
                    top_token_ids@,
                    score_widths@,
                    requested_token_ids@,
                    ordered@,
                    rows as int,
                    compact_top_width(emitting_limit, vocab_size, additional_non_emitting_id is Some),
                    vocab_size,
                    blank_id,
                    additional_non_emitting_id,
                ) == Some(CompactScoreError::Width { row }));
            }
            return Err(CompactScoreError::Width { row });
        }
        let mut i: usize = 0;
        while i < top.len()
            invariant
                row < rows,
                top_token_ids.len() == rows,
                score_widths.len() == rows,
                requested_token_ids.len() == rows,
                ordered.len() == rows,
                expected_top == width,
                width == compact_top_width(emitting_limit, vocab_size, additional_non_emitting_id is Some),
                top@.len() == width,
                score_widths@[row as int] == requested_token_ids@[row as int]@.len(),
                first_compact_row_error(
                    top_token_ids@,
                    score_widths@,
                    requested_token_ids@,
                    ordered@,
                    row as int,
                    width,
                    vocab_size,
                    blank_id,
                    additional_non_emitting_id,
                ) is None,
                top == &top_token_ids@[row as int],
                i <= top@.len(),
                forall|j: int|
                    0 <= j < i ==> is_emitting(#[trigger] top@[j], vocab_size, blank_id, additional_non_emitting_id),
            decreases top.len() - i,
        {
            let token_id = top[i];
            let extra = match additional_non_emitting_id {
                Some(id) => id == token_id,
                None => false,
            };
            if token_id >= vocab_size || token_id == blank_id || extra {
                proof {
                    assert(!is_emitting(top@[i as int], vocab_size, blank_id, additional_non_emitting_id));
                    assert(first_compact_row_error(
                        top_token_ids@,
                        score_widths@,
                        requested_token_ids@,
                        ordered@,
                        row + 1,
                        width,
                        vocab_size,
                        blank_id,
                        additional_non_emitting_id,
                    ) == Some(CompactScoreError::NonEmittingToken { row }));
                    lemma_first_compact_row_error_stays(
                        top_token_ids@,
                        score_widths@,
                        requested_token_ids@,
                        ordered@,
                        row + 1,
                        rows as int,
                        width,
                        vocab_size,
                        blank_id,
                        additional_non_emitting_id,
                    );
                    assert(first_compact_row_error(
                        top_token_ids@,
                        score_widths@,
                        requested_token_ids@,
                        ordered@,
                        rows as int,
                        compact_top_width(emitting_limit, vocab_size, additional_non_emitting_id is Some),
                        vocab_size,
                        blank_id,
                        additional_non_emitting_id,
                    ) == Some(CompactScoreError::NonEmittingToken { row }));
                }
                return Err(CompactScoreError::NonEmittingToken { row });
            }
            i = i + 1;
        }
        if !ordered[row] {
            proof {
                assert(first_compact_row_error(
                    top_token_ids@,
                    score_widths@,
                    requested_token_ids@,
                    ordered@,
                    row + 1,
                    width,
                    vocab_size,
                    blank_id,
                    additional_non_emitting_id,
                ) == Some(CompactScoreError::Unordered { row }));
                lemma_first_compact_row_error_stays(
                    top_token_ids@,
                    score_widths@,
                    requested_token_ids@,
                    ordered@,
                    row + 1,
                    rows as int,
                    width,
                    vocab_size,
                    blank_id,
                    additional_non_emitting_id,
                );
                assert(first_compact_row_error(
                    top_token_ids@,
                    score_widths@,
                    requested_token_ids@,
                    ordered@,
                    rows as int,
                    compact_top_width(emitting_limit, vocab_size, additional_non_emitting_id is Some),
                    vocab_size,
                    blank_id,
                    additional_non_emitting_id,
                ) == Some(CompactScoreError::Unordered { row }));
            }
            return Err(CompactScoreError::Unordered { row });
        }
        row = row + 1;
    }
    Ok(())
}

/// The first transcript with more tokens than there are encoder frames: a
/// transcript aligns to the frames only when each token has a frame of its
/// own.
pub fn first_overlong_sequence(frames: usize, token_sequences: &[Vec<usize>]) -> (r: Option<usize>)
    ensures
        match r {
            Some(i) => {
                &&& i < token_sequences@.len()
                &&& token_sequences@[i as int]@.len() > frames
                &&& forall|j: int| 0 <= j < i ==> (#[trigger] token_sequences@[j])@.len() <= frames
            },
            None => forall|j: int| 0 <= j < token_sequences@.len() ==> (#[trigger] token_sequences@[j])@.len() <= frames,
        },
{
    let mut i: usize = 0;
    while i < token_sequences.len()
        invariant
            i <= token_sequences@.len(),
            forall|j: int| 0 <= j < i ==> (#[trigger] token_sequences@[j])@.len() <= frames,
        decreases token_sequences.len() - i,
    {
        if token_sequences[i].len() > frames {
            return Some(i);
        }
        i = i + 1;
    }
    None
}

/// Why fixed transcripts cannot be scored against an encoder output.
#[derive(Debug, Clone, Copy, PartialEq, Eq, Structural)]
pub enum FixedSequenceInputError {
    /// The encoder values do not form `frames` rows of `encoder_dim`.
    EncoderShape,
    /// A transcript contains the blank token.
    BlankInTranscript,
}

/// Whether some transcript contains `blank_id`.
pub open spec fn contains_blank(token_sequences: Seq<Vec<usize>>, blank_id: usize) -> bool {
    exists|s: int, k: int|
        0 <= s < token_sequences.len() && 0 <= k < token_sequences[s]@.len() && #[trigger] token_sequences[s]@[k]
            == blank_id
}

/// Checks an encoder output of `encoder_len` values and the transcripts to
/// score against it.
pub fn validate_fixed_sequence_inputs(
    encoder_len: usize,
    frames: usize,
    encoder_dim: usize,
    blank_id: usize,
    token_sequences: &[Vec<usize>],
) -> (r: Result<(), FixedSequenceInputError>)
    ensures
        r == if encoder_dim == 0 || encoder_len != (if frames * encoder_dim > usize::MAX {
            usize::MAX as int
        } else {
            frames * encoder_dim
        }) {
            Err(FixedSequenceInputError::EncoderShape)
        } else if contains_blank(token_sequences@, blank_id) {
            Err(FixedSequenceInputError::BlankInTranscript)
        } else {
            Ok(())
        },
{
    let expected = match frames.checked_mul(encoder_dim) {
        Some(product) => product,
        None => usize::MAX,
    };
    if encoder_dim == 0 || encoder_len != expected {
        return Err(FixedSequenceInputError::EncoderShape);
    }
    let mut s: usize = 0;
    while s < token_sequences.len()
        invariant
            s <= token_sequences.len(),
            encoder_dim != 0,
            encoder_len == (if frames * encoder_dim > usize::MAX {
                usize::MAX as int
            } else {
                frames * encoder_dim
            }),
            forall|a: int, k: int|
                0 <= a < s && 0 <= k < token_sequences@[a]@.len() ==> #[trigger] token_sequences@[a]@[k] != blank_id,
        decreases token_sequences.len() - s,
    {
        let tokens = &token_sequences[s];
        let mut k: usize = 0;
        while k < tokens.len()
            invariant
                s < token_sequences.len(),
                encoder_dim != 0,
                encoder_len == (if frames * encoder_dim > usize::MAX {
                    usize::MAX as int
                } else {
                    frames * encoder_dim
                }),
                tokens == &token_sequences@[s as int],
                k <= tokens.len(),
                forall|a: int, j: int|
                    0 <= a < s && 0 <= j < token_sequences@[a]@.len() ==> #[trigger] token_sequences@[a]@[j] != blank_id,
                forall|j: int| 0 <= j < k ==> tokens@[j] != blank_id,
            decreases tokens.len() - k,
        {
            if tokens[k] == blank_id {
                proof {
                    assert(token_sequences@[s as int]@[k as int] == blank_id);
                }
                return Err(FixedSequenceInputError::BlankInTranscript);
            }
            k = k + 1;
        }
        s = s + 1;
    }
    Ok(())
}

/// One position of a fixed transcript: the predictor-context row it reads and,
/// before the end, the requested column holding its next token's score.
#[derive(Debug, Clone, Copy, PartialEq, Eq, Structural)]
pub struct FixedSequenceState {
    pub context_row: usize,
    pub next_token_column: Option<usize>,
}

/// Shared network requests for scoring several fixed transcripts: distinct
/// contexts, the token columns requested per context (blank first), and the
/// per-position plan of every transcript.
#[derive(Debug)]
pub struct FixedSequenceRequestPlan {
    pub contexts: Vec<[i64; 2]>,
    pub requested_token_ids: Vec<Vec<usize>>,
    pub sequences: Vec<Vec<FixedSequenceState>>,
}

#[derive(Debug, Clone, Copy, PartialEq, Eq, Structural)]
pub enum FixedSequenceError {
    /// A transcript token id does not fit the predictor's `i64` context.
    TokenIdExceedsI64,
}

/// The predictor contexts a transcript reads at positions `0..count`.
pub open spec fn sequence_contexts(initial: [i64; 2], tokens: Seq<usize>, count: int) -> Seq<[i64; 2]>
    decreases count,
{
    if count <= 0 {
        Seq::empty()
    } else {
        sequence_contexts(initial, tokens, count - 1).push(context_after(initial, tokens.take(count - 1)))
    }
}

/// The contexts read by the first `count` transcripts, position by position.
pub open spec fn walk_contexts(initial: [i64; 2], seqs: Seq<Vec<usize>>, count: int) -> Seq<[i64; 2]>
    decreases count,
{
    if count <= 0 {
        Seq::empty()
    } else {
        walk_contexts(initial, seqs, count - 1) + sequence_contexts(
            initial,
            seqs[count - 1]@,
            seqs[count - 1]@.len() + 1 as int,
        )
    }
}

/// The tokens a transcript asks of context `c` at positions `0..count`.
pub open spec fn sequence_requests(initial: [i64; 2], tokens: Seq<usize>, count: int, c: [i64; 2]) -> Seq<usize>
    decreases count,
{
    if count <= 0 {
        Seq::empty()
    } else {
        sequence_requests(initial, tokens, count - 1, c) + if context_after(initial, tokens.take(count - 1)) == c {
            seq![tokens[count - 1]]
        } else {
            Seq::empty()
        }
    }
}

/// The tokens the first `count` transcripts ask of context `c`, in order.
pub open spec fn walk_requests(initial: [i64; 2], seqs: Seq<Vec<usize>>, count: int, c: [i64; 2]) -> Seq<usize>
    decreases count,
{
    if count <= 0 {
        Seq::empty()
    } else {
        walk_requests(initial, seqs, count - 1, c) + sequence_requests(
            initial,
            seqs[count - 1]@,
            seqs[count - 1]@.len() as int,
            c,
        )
    }
}

pub(crate) proof fn lemma_first_occurrences_push<T>(items: Seq<T>, x: T)
    ensures
        first_occurrences(items.push(x)) == if first_occurrences(items).contains(x) {
            first_occurrences(items)
        } else {
            first_occurrences(items).push(x)
        },
{
    assert(items.push(x).drop_last() =~= items);
}

proof fn lemma_sequence_requests_need_context(initial: [i64; 2], tokens: Seq<usize>, count: int, c: [i64; 2])
    requires
        0 <= count,
        !sequence_contexts(initial, tokens, count).contains(c),
    ensures
        sequence_requests(initial, tokens, count, c) == Seq::<usize>::empty(),
    decreases count,
{
    if count > 0 {
        let before = sequence_contexts(initial, tokens, count - 1);
        assert(!before.contains(c)) by {
            if before.contains(c) {
                let j = choose|j: int| 0 <= j < before.len() && before[j] == c;
                assert(sequence_contexts(initial, tokens, count)[j] == c);
            }
        }
        lemma_sequence_requests_need_context(initial, tokens, count - 1, c);
        if context_after(initial, tokens.take(count - 1)) == c {
            let all = sequence_contexts(initial, tokens, count);
            assert(all[all.len() - 1] == c);
        }
        assert(sequence_requests(initial, tokens, count, c) =~= Seq::<usize>::empty());
    }
}

proof fn lemma_walk_requests_need_context(initial: [i64; 2], seqs: Seq<Vec<usize>>, count: int, c: [i64; 2])
    requires
        0 <= count <= seqs.len(),
        !walk_contexts(initial, seqs, count).contains(c),
    ensures
        walk_requests(initial, seqs, count, c) == Seq::<usize>::empty(),
    decreases count,
{
    if count > 0 {
        let before = walk_contexts(initial, seqs, count - 1);
        let last = sequence_contexts(initial, seqs[count - 1]@, seqs[count - 1]@.len() + 1 as int);
        assert(!before.contains(c)) by {
            if before.contains(c) {
                let j = choose|j: int| 0 <= j < before.len() && before[j] == c;
                assert((before + last)[j] == c);
            }
        }
        assert(!last.contains(c)) by {
            if last.contains(c) {
                let j = choose|j: int| 0 <= j < last.len() && last[j] == c;
                assert((before + last)[before.len() + j] == c);
            }
        }
        lemma_walk_requests_need_context(initial, seqs, count - 1, c);
        assert(!sequence_contexts(initial, seqs[count - 1]@, seqs[count - 1]@.len() as int).contains(c)) by {
            let shorter = sequence_contexts(initial, seqs[count - 1]@, seqs[count - 1]@.len() as int);
            if shorter.contains(c) {
                let j = choose|j: int| 0 <= j < shorter.len() && shorter[j] == c;
                assert(last[j] == c);
            }
        }
        lemma_sequence_requests_need_context(initial, seqs[count - 1]@, seqs[count - 1]@.len() as int, c);
        assert(walk_requests(initial, seqs, count, c) =~= Seq::<usize>::empty());
    }
}

/// The columns of a fresh row hold only blank.
proof fn lemma_fresh_row_requests(
    initial: [i64; 2],
    seqs: Seq<Vec<usize>>,
    s: int,
    tokens: Seq<usize>,
    k: int,
    c: [i64; 2],
    blank_id: usize,
)
    requires
        0 <= s <= seqs.len(),
        0 <= k,
        !(walk_contexts(initial, seqs, s) + sequence_contexts(initial, tokens, k)).contains(c),
    ensures
        first_occurrences(seq![blank_id] + walk_requests(initial, seqs, s, c) + sequence_requests(initial, tokens, k, c))
            == seq![blank_id],
{
    let w = walk_contexts(initial, seqs, s);
    let q = sequence_contexts(initial, tokens, k);
    assert(!w.contains(c)) by {
        if w.contains(c) {
            let j = choose|j: int| 0 <= j < w.len() && w[j] == c;
            assert((w + q)[j] == c);
        }
    }
    assert(!q.contains(c)) by {
        if q.contains(c) {
            let j = choose|j: int| 0 <= j < q.len() && q[j] == c;
            assert((w + q)[w.len() + j] == c);
        }
    }
    lemma_walk_requests_need_context(initial, seqs, s, c);
    lemma_sequence_requests_need_context(initial, tokens, k, c);
    let one = seq![blank_id];
    assert(one + walk_requests(initial, seqs, s, c) + sequence_requests(initial, tokens, k, c) =~= one);
    assert(one.drop_last() =~= Seq::<usize>::empty());
    assert(first_occurrences(Seq::<usize>::empty()) =~= Seq::<usize>::empty());
    assert(Seq::<usize>::empty().push(blank_id) =~= one);
}

/// One position of a transcript keeps the rows in first-read order and each
/// row's columns in first-request order.
#[verifier::rlimit(40)]
proof fn lemma_plan_position(
    initial: [i64; 2],
    seqs: Seq<Vec<usize>>,
    s: int,
    tokens: Seq<usize>,
    k: int,
    blank_id: usize,
    old_ctx: Seq<[i64; 2]>,
    new_ctx: Seq<[i64; 2]>,
    old_req: Seq<Vec<usize>>,
    mid_req: Seq<Vec<usize>>,
    new_req: Seq<Vec<usize>>,
    row: int,
)
    requires
        0 <= s <= seqs.len(),
        0 <= k < tokens.len(),
        rows_ok(old_ctx, old_req, blank_id),
        rows_ok(new_ctx, mid_req, blank_id),
        old_ctx == first_occurrences(walk_contexts(initial, seqs, s) + sequence_contexts(initial, tokens, k)),
        forall|r: int|
            #![trigger old_req[r]]
            0 <= r < old_ctx.len() ==> old_req[r]@ == first_occurrences(
                seq![blank_id] + walk_requests(initial, seqs, s, old_ctx[r]) + sequence_requests(
                    initial,
                    tokens,
                    k,
                    old_ctx[r],
                ),
            ),
        0 <= row < new_ctx.len(),
        new_ctx[row] == context_after(initial, tokens.take(k)),
        old_ctx.contains(new_ctx[row]) ==> new_ctx == old_ctx && mid_req == old_req,
        !old_ctx.contains(new_ctx[row]) ==> new_ctx == old_ctx.push(new_ctx[row]) && mid_req.len() == old_req.len()
            + 1 && mid_req.drop_last() == old_req && mid_req.last()@ == seq![blank_id] && row == old_ctx.len(),
        new_req.len() == mid_req.len(),
        forall|other: int| 0 <= other < mid_req.len() && other != row ==> #[trigger] new_req[other] == mid_req[other],
        mid_req[row]@.contains(tokens[k]) ==> new_req[row]@ == mid_req[row]@,
        !mid_req[row]@.contains(tokens[k]) ==> new_req[row]@ == mid_req[row]@.push(tokens[k]),
    ensures
        new_ctx == first_occurrences(walk_contexts(initial, seqs, s) + sequence_contexts(initial, tokens, k + 1)),
        forall|r: int|
            #![trigger new_req[r]]
            0 <= r < new_ctx.len() ==> new_req[r]@ == first_occurrences(
                seq![blank_id] + walk_requests(initial, seqs, s, new_ctx[r]) + sequence_requests(
                    initial,
                    tokens,
                    k + 1,
                    new_ctx[r],
                ),
            ),
{
    let c = new_ctx[row];
    let tok = tokens[k];
    let items = walk_contexts(initial, seqs, s) + sequence_contexts(initial, tokens, k);
    assert(walk_contexts(initial, seqs, s) + sequence_contexts(initial, tokens, k + 1) =~= items.push(c));
    lemma_first_occurrences_push(items, c);
    lemma_first_occurrences(items);
    assert forall|r: int| 0 <= r < new_ctx.len() implies (#[trigger] new_req[r])@ == first_occurrences(
        seq![blank_id] + walk_requests(initial, seqs, s, new_ctx[r]) + sequence_requests(initial, tokens, k + 1, new_ctx[r]),
    ) by {
        let d = new_ctx[r];
        let x = seq![blank_id] + walk_requests(initial, seqs, s, d) + sequence_requests(initial, tokens, k, d);
        if r == row {
            assert(seq![blank_id] + walk_requests(initial, seqs, s, d) + sequence_requests(initial, tokens, k + 1, d)
                =~= x.push(tok));
            lemma_first_occurrences_push(x, tok);
            if old_ctx.contains(c) {
                assert(mid_req[r] == old_req[r]);
            } else {
                lemma_fresh_row_requests(initial, seqs, s, tokens, k, c, blank_id);
                assert(mid_req[r] == mid_req.last());
            }
        } else {
            assert(d != c) by {
                if d == c {
                    assert(no_duplicates(new_ctx));
                }
            }
            assert(sequence_requests(initial, tokens, k + 1, d) =~= sequence_requests(initial, tokens, k, d));
            assert(new_req[r] == mid_req[r]);
            if !old_ctx.contains(c) {
                assert(r < old_ctx.len());
                assert(mid_req[r] == mid_req.drop_last()[r]);
                assert(new_ctx[r] == old_ctx[r]);
            }
        }
    }
}

/// Reading the end of a transcript closes its walk.
#[verifier::rlimit(40)]
proof fn lemma_plan_sequence_end(
    initial: [i64; 2],
    seqs: Seq<Vec<usize>>,
    s: int,
    blank_id: usize,
    old_ctx: Seq<[i64; 2]>,
    new_ctx: Seq<[i64; 2]>,
    old_req: Seq<Vec<usize>>,
    new_req: Seq<Vec<usize>>,
    row: int,
)
    requires
        0 <= s < seqs.len(),
        rows_ok(old_ctx, old_req, blank_id),
        rows_ok(new_ctx, new_req, blank_id),
        old_ctx == first_occurrences(
            walk_contexts(initial, seqs, s) + sequence_contexts(initial, seqs[s]@, seqs[s]@.len() as int),
        ),
        forall|r: int|
            #![trigger old_req[r]]
            0 <= r < old_ctx.len() ==> old_req[r]@ == first_occurrences(
                seq![blank_id] + walk_requests(initial, seqs, s, old_ctx[r]) + sequence_requests(
                    initial,
                    seqs[s]@,
                    seqs[s]@.len() as int,
                    old_ctx[r],
                ),
            ),
        0 <= row < new_ctx.len(),
        new_ctx[row] == context_after(initial, seqs[s]@.take(seqs[s]@.len() as int)),
        old_ctx.contains(new_ctx[row]) ==> new_ctx == old_ctx && new_req == old_req,
        !old_ctx.contains(new_ctx[row]) ==> new_ctx == old_ctx.push(new_ctx[row]) && new_req.len() == old_req.len()
            + 1 && new_req.drop_last() == old_req && new_req.last()@ == seq![blank_id] && row == old_ctx.len(),
    ensures
        new_ctx == first_occurrences(walk_contexts(initial, seqs, s + 1)),
        forall|r: int|
            #![trigger new_req[r]]
            0 <= r < new_ctx.len() ==> new_req[r]@ == first_occurrences(
                seq![blank_id] + walk_requests(initial, seqs, s + 1, new_ctx[r]),
            ),
{
    let tokens = seqs[s]@;
    let n = tokens.len() as int;
    let c = new_ctx[row];
    let items = walk_contexts(initial, seqs, s) + sequence_contexts(initial, tokens, n);
    assert(walk_contexts(initial, seqs, s + 1) =~= items.push(c));
    lemma_first_occurrences_push(items, c);
    lemma_first_occurrences(items);
    assert forall|r: int| 0 <= r < new_ctx.len() implies (#[trigger] new_req[r])@ == first_occurrences(
        seq![blank_id] + walk_requests(initial, seqs, s + 1, new_ctx[r]),
    ) by {
        let d = new_ctx[r];
        assert(seq![blank_id] + walk_requests(initial, seqs, s + 1, d) =~= seq![blank_id] + walk_requests(
            initial,
            seqs,
            s,
            d,
        ) + sequence_requests(initial, tokens, n, d));
        if old_ctx.contains(c) {
            assert(new_req[r] == old_req[r]);
        } else if r == row {
            lemma_fresh_row_requests(initial, seqs, s, tokens, n, c, blank_id);
            assert(new_req[r] == new_req.last());
        } else {
            assert(new_req[r] == new_req.drop_last()[r]);
            assert(new_ctx[r] == old_ctx[r]);
        }
    }
}

/// Whether some token of some transcript is too large for a context id.
pub open spec fn has_oversized_token(token_sequences: Seq<Vec<usize>>) -> bool {
    exists|s: int, k: int|
        0 <= s < token_sequences.len() && 0 <= k < token_sequences[s]@.len()
            && #[trigger] token_sequences[s]@[k] > i64::MAX
}

/// What a request plan for `token_sequences` satisfies.
pub open spec fn plan_matches(
    plan: FixedSequenceRequestPlan,
    blank_id: usize,
    initial_context: [i64; 2],
    token_sequences: Seq<Vec<usize>>,
) -> bool {
    let rows = plan.contexts@.len();
    &&& plan.requested_token_ids@.len() == rows
    &&& no_duplicates(plan.contexts@)
    &&& forall|row: int|
        #![trigger plan.requested_token_ids@[row]]
        0 <= row < rows ==> plan.requested_token_ids@[row]@.len() >= 1
            && plan.requested_token_ids@[row]@[0] == blank_id && no_duplicates(
            plan.requested_token_ids@[row]@,
        )
    &&& plan.sequences@.len() == token_sequences.len()
    &&& forall|s: int|
        #![trigger plan.sequences@[s]]
        0 <= s < token_sequences.len() ==> plan.sequences@[s]@.len() == token_sequences[s]@.len()
            + 1
    &&& forall|s: int, k: int|
        #![trigger plan.sequences@[s]@[k]]
        0 <= s < token_sequences.len() && 0 <= k <= token_sequences[s]@.len() ==> {
            let state = plan.sequences@[s]@[k];
            let tokens = token_sequences[s]@;
            &&& state.context_row < rows
            &&& plan.contexts@[state.context_row as int] == context_after(
                initial_context,
                tokens.take(k),
            )
            &&& (k < tokens.len() ==> state.next_token_column is Some
                && state.next_token_column.unwrap() < plan.requested_token_ids@[state.context_row as int]@.len()
                && plan.requested_token_ids@[state.context_row as int]@[state.next_token_column.unwrap() as int]
                == tokens[k])
            &&& (k == tokens.len() ==> state.next_token_column is None)
        }
    &&& plan.contexts@ == first_occurrences(
        walk_contexts(initial_context, token_sequences, token_sequences.len() as int),
    )
    &&& forall|row: int|
        #![trigger plan.requested_token_ids@[row]]
        0 <= row < rows ==> plan.requested_token_ids@[row]@ == first_occurrences(
            seq![blank_id] + walk_requests(
                initial_context,
                token_sequences,
                token_sequences.len() as int,
                plan.contexts@[row],
            ),
        )
    &&& forall|row: int| 0 <= row < rows ==> #[trigger] row_used(plan.sequences@, Seq::empty(), row)
    &&& forall|row: int, col: int|
        0 <= row < rows && 1 <= col < plan.requested_token_ids@[row]@.len() ==> #[trigger] column_used(
            plan.sequences@,
            Seq::empty(),
            row,
            col,
        )
}

/// Position of `value` in `items`, if present.
fn position_of_context(items: &Vec<[i64; 2]>, value: [i64; 2]) -> (r: Option<usize>)
    ensures
        r is Some ==> r->0 < items.len() && items@[r->0 as int] == value,
        r is None ==> !items@.contains(value),
{
    let mut index: usize = 0;
    while index < items.len()
        invariant
            index <= items.len(),
            forall|j: int| 0 <= j < index ==> items@[j] != value,
        decreases items.len() - index,
    {
        if same_context(items[index], value) {
            return Some(index);
        }
        index = index + 1;
    }
    None
}

/// Position of `value` in `items`, if present.
fn position_of_token(items: &Vec<usize>, value: usize) -> (r: Option<usize>)
    ensures
        r is Some ==> r->0 < items.len() && items@[r->0 as int] == value,
        r is None ==> !items@.contains(value),
{
    let mut index: usize = 0;
    while index < items.len()
        invariant
            index <= items.len(),
            forall|j: int| 0 <= j < index ==> items@[j] != value,
        decreases items.len() - index,
    {
        if items[index] == value {
            return Some(index);
        }
        index = index + 1;
    }
    None
}

/// Whether `state` is the correct plan of position `k` of `tokens`.
pub open spec fn state_ok(
    contexts: Seq<[i64; 2]>,
    requested: Seq<Vec<usize>>,
    initial_context: [i64; 2],
    tokens: Seq<usize>,
    k: int,
    state: FixedSequenceState,
) -> bool {
    &&& state.context_row < contexts.len()
    &&& state.context_row < requested.len()
    &&& contexts[state.context_row as int] == context_after(initial_context, tokens.take(k))
    &&& (k < tokens.len() ==> state.next_token_column is Some
        && state.next_token_column.unwrap() < requested[state.context_row as int]@.len()
        && requested[state.context_row as int]@[state.next_token_column.unwrap() as int] == tokens[k])
    &&& (k == tokens.len() ==> state.next_token_column is None)
}

/// Whether the contexts and their requested columns are well formed.
pub open spec fn rows_ok(contexts: Seq<[i64; 2]>, requested: Seq<Vec<usize>>, blank_id: usize) -> bool {
    &&& requested.len() == contexts.len()
    &&& no_duplicates(contexts)
    &&& forall|row: int|
        #![trigger requested[row]]
        0 <= row < requested.len() ==> requested[row]@.len() >= 1 && requested[row]@[0] == blank_id
            && no_duplicates(requested[row]@)
}

/// Whether some planned state (of a finished sequence or of the current one)
/// reads `row`.
pub open spec fn row_used(plans: Seq<Vec<FixedSequenceState>>, states: Seq<FixedSequenceState>, row: int) -> bool {
    ||| exists|t: int, k: int|
        0 <= t < plans.len() && 0 <= k < plans[t]@.len() && (#[trigger] plans[t]@[k]).context_row == row
    ||| exists|j: int| 0 <= j < states.len() && (#[trigger] states[j]).context_row == row
}

/// Whether some planned state reads column `col` of `row`.
pub open spec fn column_used(
    plans: Seq<Vec<FixedSequenceState>>,
    states: Seq<FixedSequenceState>,
    row: int,
    col: int,
) -> bool {
    let wanted = FixedSequenceState { context_row: row as usize, next_token_column: Some(col as usize) };
    ||| exists|t: int, k: int| 0 <= t < plans.len() && 0 <= k < plans[t]@.len() && #[trigger] plans[t]@[k] == wanted
    ||| exists|j: int| 0 <= j < states.len() && #[trigger] states[j] == wanted
}

proof fn lemma_used_after_state_push(
    plans: Seq<Vec<FixedSequenceState>>,
    states: Seq<FixedSequenceState>,
    state: FixedSequenceState,
)
    ensures
        forall|row: int| row_used(plans, states, row) ==> #[trigger] row_used(plans, states.push(state), row),
        row_used(plans, states.push(state), state.context_row as int),
        forall|row: int, col: int| column_used(plans, states, row, col) ==> #[trigger] column_used(plans, states.push(state), row, col),
        state.next_token_column is Some ==> column_used(plans, states.push(state), state.context_row as int, state.next_token_column.unwrap() as int),
{
    let pushed = states.push(state);
    assert forall|row: int| row_used(plans, states, row) implies #[trigger] row_used(plans, pushed, row) by {
        if exists|j: int| 0 <= j < states.len() && (#[trigger] states[j]).context_row == row {
            let j = choose|j: int| 0 <= j < states.len() && (#[trigger] states[j]).context_row == row;
            assert(pushed[j] == states[j]);
        }
    }
    assert(pushed[states.len() as int] == state);
    assert forall|row: int, col: int| column_used(plans, states, row, col) implies #[trigger] column_used(plans, pushed, row, col) by {
        let wanted = FixedSequenceState { context_row: row as usize, next_token_column: Some(col as usize) };
        if exists|j: int| 0 <= j < states.len() && #[trigger] states[j] == wanted {
            let j = choose|j: int| 0 <= j < states.len() && #[trigger] states[j] == wanted;
            assert(pushed[j] == states[j]);
        }
    }
    if state.next_token_column is Some {
        let wanted = FixedSequenceState {
            context_row: (state.context_row as int) as usize,
            next_token_column: Some((state.next_token_column.unwrap() as int) as usize),
        };
        assert(wanted == state);
    }
}

proof fn lemma_used_after_sequence_push(
    plans: Seq<Vec<FixedSequenceState>>,
    states: Vec<FixedSequenceState>,
)
    ensures
        forall|row: int| row_used(plans, states@, row) ==> #[trigger] row_used(plans.push(states), Seq::empty(), row),
        forall|row: int, col: int| column_used(plans, states@, row, col) ==> #[trigger] column_used(plans.push(states), Seq::empty(), row, col),
{
    let pushed = plans.push(states);
    let t_new = plans.len() as int;
    assert(pushed[t_new] == states);
    assert forall|row: int| row_used(plans, states@, row) implies #[trigger] row_used(pushed, Seq::empty(), row) by {
        if exists|t: int, k: int| 0 <= t < plans.len() && 0 <= k < plans[t]@.len() && (#[trigger] plans[t]@[k]).context_row == row {
            let (t, k) = choose|t: int, k: int| 0 <= t < plans.len() && 0 <= k < plans[t]@.len() && (#[trigger] plans[t]@[k]).context_row == row;
            assert(pushed[t] == plans[t]);
            assert(pushed[t]@[k].context_row == row);
        } else {
            let j = choose|j: int| 0 <= j < states@.len() && (#[trigger] states@[j]).context_row == row;
            assert(pushed[t_new]@[j].context_row == row);
        }
    }
    assert forall|row: int, col: int| column_used(plans, states@, row, col) implies #[trigger] column_used(pushed, Seq::empty(), row, col) by {
        let wanted = FixedSequenceState { context_row: row as usize, next_token_column: Some(col as usize) };
        if exists|t: int, k: int| 0 <= t < plans.len() && 0 <= k < plans[t]@.len() && #[trigger] plans[t]@[k] == wanted {
            let (t, k) = choose|t: int, k: int| 0 <= t < plans.len() && 0 <= k < plans[t]@.len() && #[trigger] plans[t]@[k] == wanted;
            assert(pushed[t] == plans[t]);
            assert(pushed[t]@[k] == wanted);
        } else {
            let j = choose|j: int| 0 <= j < states@.len() && #[trigger] states@[j] == wanted;
            assert(pushed[t_new]@[j] == wanted);
        }
    }
}

proof fn lemma_used_from_empty(plans: Seq<Vec<FixedSequenceState>>, states: Seq<FixedSequenceState>)
    requires
        states.len() == 0,
    ensures
        forall|row: int| row_used(plans, Seq::empty(), row) ==> #[trigger] row_used(plans, states, row),
        forall|row: int, col: int| column_used(plans, Seq::empty(), row, col) ==> #[trigger] column_used(plans, states, row, col),
{
    assert(states =~= Seq::<FixedSequenceState>::empty());
}

/// The row of `context`, adding it (with only the blank column) when new.
pub(crate) fn row_for(
    contexts: &mut Vec<[i64; 2]>,
    requested: &mut Vec<Vec<usize>>,
    context: [i64; 2],
    blank_id: usize,
) -> (r: usize)
    requires
        rows_ok(old(contexts)@, old(requested)@, blank_id),
    ensures
        rows_ok(final(contexts)@, final(requested)@, blank_id),
        r < final(contexts)@.len(),
        final(contexts)@[r as int] == context,
        old(contexts)@.contains(context) ==> final(contexts)@ == old(contexts)@ && final(requested)@ == old(requested)@,
        !old(contexts)@.contains(context) ==> final(contexts)@ == old(contexts)@.push(context)
            && final(requested)@.len() == old(requested)@.len() + 1
            && final(requested)@.drop_last() == old(requested)@
            && final(requested)@.last()@ == seq![blank_id]
            && r == old(contexts)@.len(),
{
    match position_of_context(contexts, context) {
        Some(row) => row,
        None => {
            contexts.push(context);
            requested.push(vec![blank_id]);
            proof {
                assert(final(requested)@.drop_last() =~= old(requested)@);
                let rq = requested@;
                assert forall|row: int|
                    0 <= row < rq.len() implies rq[row]@.len() >= 1 && rq[row]@[0] == blank_id
                        && no_duplicates(#[trigger] rq[row]@) by {
                    if row < rq.len() - 1 {
                        assert(rq[row] == old(requested)@[row]);
                    }
                }
            }
            contexts.len() - 1
        },
    }
}

/// The column of `token` in `row`, appending it when new.
pub(crate) fn column_for(requested: &mut Vec<Vec<usize>>, row: usize, token: usize, blank_id: usize, rows: Ghost<Seq<[i64; 2]>>) -> (r: usize)
    requires
        rows_ok(rows@, old(requested)@, blank_id),
        row < old(requested)@.len(),
    ensures
        rows_ok(rows@, final(requested)@, blank_id),
        final(requested)@.len() == old(requested)@.len(),
        forall|other: int| 0 <= other < old(requested)@.len() && other != row ==> #[trigger] final(requested)@[other] == old(requested)@[other],
        old(requested)@[row as int]@.contains(token) ==> final(requested)@[row as int]@ == old(requested)@[row as int]@,
        !old(requested)@[row as int]@.contains(token) ==> final(requested)@[row as int]@ == old(requested)@[row as int]@.push(token)
            && r == old(requested)@[row as int]@.len(),
        r < final(requested)@[row as int]@.len(),
        final(requested)@[row as int]@[r as int] == token,
{
    match position_of_token(&requested[row], token) {
        Some(column) => column,
        None => {
            requested[row].push(token);
            proof {
                let rq = requested@;
                assert forall|other: int|
                    0 <= other < rq.len() implies rq[other]@.len() >= 1 && rq[other]@[0] == blank_id
                        && no_duplicates(#[trigger] rq[other]@) by {
                    if other == row {
                        assert(rq[other]@[0] == old(requested)@[other]@[0]);
                    }
                }
            }
            requested[row].len() - 1
        },
    }
}

/// Plans the shared context rows and token columns needed to score every
/// fixed transcript, requesting each (context, token) pair once.
pub fn plan_fixed_sequences(
    blank_id: usize,
    initial_context: [i64; 2],
    token_sequences: &[Vec<usize>],
) -> (r: Result<FixedSequenceRequestPlan, FixedSequenceError>)
    ensures
        r is Err <==> has_oversized_token(token_sequences@),
        r is Ok ==> plan_matches(r->Ok_0, blank_id, initial_context, token_sequences@),
{
    let mut contexts: Vec<[i64; 2]> = Vec::new();
    let mut requested_token_ids: Vec<Vec<usize>> = Vec::new();
    let mut plans: Vec<Vec<FixedSequenceState>> = Vec::with_capacity(token_sequences.len());
    let mut s: usize = 0;
    while s < token_sequences.len()
        invariant
            s <= token_sequences.len(),
            plans@.len() == s,
            forall|t: int, k: int|
                0 <= t < s && 0 <= k < token_sequences@[t]@.len() ==> #[trigger] token_sequences@[t]@[k] <= i64::MAX,
            rows_ok(contexts@, requested_token_ids@, blank_id),
            forall|t: int| #![trigger plans@[t]] 0 <= t < s ==> plans@[t]@.len() == token_sequences@[t]@.len() + 1,
            forall|t: int, k: int|
                #![trigger plans@[t]@[k]]
                0 <= t < s && 0 <= k <= token_sequences@[t]@.len() ==> state_ok(contexts@, requested_token_ids@, initial_context, token_sequences@[t]@, k, plans@[t]@[k]),
            forall|row: int| 0 <= row < contexts@.len() ==> #[trigger] row_used(plans@, Seq::empty(), row),
            forall|row: int, col: int| 0 <= row < contexts@.len() && 1 <= col < requested_token_ids@[row]@.len() ==> #[trigger] column_used(plans@, Seq::empty(), row, col),
            contexts@ == first_occurrences(walk_contexts(initial_context, token_sequences@, s as int)),
            forall|row: int|
                #![trigger requested_token_ids@[row]]
                0 <= row < contexts@.len() ==> requested_token_ids@[row]@ == first_occurrences(
                    seq![blank_id] + walk_requests(initial_context, token_sequences@, s as int, contexts@[row]),
                ),
        decreases token_sequences.len() - s,
    {
        let token_ids = &token_sequences[s];
        let mut context = initial_context;
        let mut states: Vec<FixedSequenceState> = Vec::new();
        let mut k: usize = 0;
        proof {
            lemma_used_from_empty(plans@, states@);
            let w = walk_contexts(initial_context, token_sequences@, s as int);
            assert(w + sequence_contexts(initial_context, token_ids@, 0) =~= w);
            assert forall|row: int| 0 <= row < contexts@.len() implies (#[trigger] requested_token_ids@[row])@
                == first_occurrences(
                seq![blank_id] + walk_requests(initial_context, token_sequences@, s as int, contexts@[row])
                    + sequence_requests(initial_context, token_ids@, 0, contexts@[row]),
            ) by {
                let x = seq![blank_id] + walk_requests(initial_context, token_sequences@, s as int, contexts@[row]);
                assert(x + sequence_requests(initial_context, token_ids@, 0, contexts@[row]) =~= x);
            }
        }
        while k < token_ids.len()
            invariant
                s < token_sequences.len(),
                token_ids == &token_sequences@[s as int],
                plans@.len() == s,
                k <= token_ids.len(),
                states@.len() == k,
                context == context_after(initial_context, token_ids@.take(k as int)),
                forall|j: int| 0 <= j < k ==> #[trigger] token_ids@[j] <= i64::MAX,
                forall|t: int, kk: int|
                    0 <= t < s && 0 <= kk < token_sequences@[t]@.len() ==> #[trigger] token_sequences@[t]@[kk] <= i64::MAX,
                rows_ok(contexts@, requested_token_ids@, blank_id),
                forall|t: int| #![trigger plans@[t]] 0 <= t < s ==> plans@[t]@.len() == token_sequences@[t]@.len() + 1,
                forall|t: int, kk: int|
                    #![trigger plans@[t]@[kk]]
                    0 <= t < s && 0 <= kk <= token_sequences@[t]@.len() ==> state_ok(contexts@, requested_token_ids@, initial_context, token_sequences@[t]@, kk, plans@[t]@[kk]),
                forall|j: int|
                    #![trigger states@[j]]
                    0 <= j < k ==> state_ok(contexts@, requested_token_ids@, initial_context, token_ids@, j, states@[j]),
                forall|row: int| 0 <= row < contexts@.len() ==> #[trigger] row_used(plans@, states@, row),
                forall|row: int, col: int| 0 <= row < contexts@.len() && 1 <= col < requested_token_ids@[row]@.len() ==> #[trigger] column_used(plans@, states@, row, col),
                contexts@ == first_occurrences(
                    walk_contexts(initial_context, token_sequences@, s as int) + sequence_contexts(
                        initial_context,
                        token_ids@,
                        k as int,
                    ),
                ),
                forall|row: int|
                    #![trigger requested_token_ids@[row]]
                    0 <= row < contexts@.len() ==> requested_token_ids@[row]@ == first_occurrences(
                        seq![blank_id] + walk_requests(initial_context, token_sequences@, s as int, contexts@[row])
                            + sequence_requests(initial_context, token_ids@, k as int, contexts@[row]),
                    ),
            decreases token_ids.len() - k,
        {
            let ghost old_contexts = contexts@;
            let ghost old_requested = requested_token_ids@;
            let row = row_for(&mut contexts, &mut requested_token_ids, context, blank_id);
            let ghost mid_requested = requested_token_ids@;
            let token = token_ids[k];
            let column = column_for(&mut requested_token_ids, row, token, blank_id, Ghost(contexts@));
            let state = FixedSequenceState { context_row: row, next_token_column: Some(column) };
            proof {
                lemma_plan_position(
                    initial_context,
                    token_sequences@,
                    s as int,
                    token_ids@,
                    k as int,
                    blank_id,
                    old_contexts,
                    contexts@,
                    old_requested,
                    mid_requested,
                    requested_token_ids@,
                    row as int,
                );
                lemma_used_after_state_push(plans@, states@, state);
                let new_states = states@.push(state);
                assert forall|row: int| 0 <= row < contexts@.len() implies #[trigger] row_used(plans@, new_states, row) by {
                    if row < old_contexts.len() {
                        assert(row_used(plans@, states@, row));
                    }
                }
                assert forall|row: int, col: int| 0 <= row < contexts@.len() && 1 <= col < requested_token_ids@[row]@.len() implies #[trigger] column_used(plans@, new_states, row, col) by {
                    if row < old_contexts.len() && col < old_requested[row]@.len() {
                        assert(column_used(plans@, states@, row, col));
                    } else if row < old_contexts.len() {
                        assert(row == state.context_row);
                    } else {
                        assert(row == state.context_row);
                    }
                }
            }
            states.push(state);
            if token as u64 > 0x7FFF_FFFF_FFFF_FFFFu64 {
                return Err(FixedSequenceError::TokenIdExceedsI64);
            }
            context = [context[1], token as i64];
            proof {
                assert(token_ids@.take(k + 1).drop_last() =~= token_ids@.take(k as int));
            }
            k = k + 1;
        }
        let ghost old_contexts = contexts@;
        let ghost old_requested = requested_token_ids@;
        let row = row_for(&mut contexts, &mut requested_token_ids, context, blank_id);
        let state = FixedSequenceState { context_row: row, next_token_column: None };
        proof {
            assert(token_ids@.take(token_ids@.len() as int) =~= token_ids@);
            lemma_plan_sequence_end(
                initial_context,
                token_sequences@,
                s as int,
                blank_id,
                old_contexts,
                contexts@,
                old_requested,
                requested_token_ids@,
                row as int,
            );
            lemma_used_after_state_push(plans@, states@, state);
            let new_states = states@.push(state);
            assert forall|row: int| 0 <= row < contexts@.len() implies #[trigger] row_used(plans@, new_states, row) by {
                if row < old_contexts.len() {
                    assert(row_used(plans@, states@, row));
                }
            }
            assert forall|row: int, col: int| 0 <= row < contexts@.len() && 1 <= col < requested_token_ids@[row]@.len() implies #[trigger] column_used(plans@, new_states, row, col) by {
                if row < old_contexts.len() {
                    assert(column_used(plans@, states@, row, col));
                }
            }
        }
        states.push(state);
        proof {
            lemma_used_after_sequence_push(plans@, states);
        }
        plans.push(states);
        s = s + 1;
    }
    Ok(FixedSequenceRequestPlan { contexts, requested_token_ids, sequences: plans })
}

} // verus!
