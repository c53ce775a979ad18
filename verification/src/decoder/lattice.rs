//! The integer structure of the approximate lattice built from aligned beam
//! candidates: one node per distinct (token count, predictor context) state,
//! one arc per distinct token read from a state, and the occurrences through
//! which each candidate's frames are scored.
use vstd::prelude::*;
use crate::decoder::context_graph::lemma_first_occurrences;
use crate::decoder::rnnt::{
    column_for, context_after, first_occurrences, lemma_first_occurrences_push, no_duplicates, row_for,
    rows_ok, same_context, spec_token_context_id, token_context_id, StatelessRnntAlignedSeed,
};

verus! {

/// The search state a lattice node stands for.
#[derive(Debug, Clone, Copy)]
pub struct LatticeState {
    pub token_count: usize,
    pub context: [i64; 2],
}

/// An arc reading `token_id` into node `destination`.
#[derive(Debug, Clone, Copy)]
pub struct LatticeArc {
    pub token_id: usize,
    pub destination: usize,
}

/// One lattice node and the arcs that leave it.
#[derive(Debug)]
pub struct LatticeNode {
    pub state: LatticeState,
    pub arcs: Vec<LatticeArc>,
}

/// One candidate token: arc `arc` of node `source`, scored with blank over the
/// frames `segment_start..emission_frame` and with the token at `emission_frame`.
#[derive(Debug, Clone, Copy)]
pub struct LatticeArcOccurrence {
    pub source: usize,
    pub arc: usize,
    pub segment_start: usize,
    pub emission_frame: usize,
}

/// The end of one candidate: blank from `segment_start` to the last frame.
#[derive(Debug, Clone, Copy)]
pub struct LatticeTerminalOccurrence {
    pub node: usize,
    pub segment_start: usize,
}

/// The lattice over all candidates and the occurrences that score it.
#[derive(Debug)]
pub struct LatticeStructure {
    pub nodes: Vec<LatticeNode>,
    pub arc_occurrences: Vec<LatticeArcOccurrence>,
    pub terminal_occurrences: Vec<LatticeTerminalOccurrence>,
}

/// Why the candidates cannot form a lattice.
#[derive(Debug, Clone, Copy, PartialEq, Eq, Structural)]
pub enum ApproximateLatticeError {
    /// The encoder output is not `frames` rows of a nonzero width.
    EncoderShape,
    /// A candidate has a different number of tokens and emission frames.
    LengthMismatch,
    /// A candidate contains blank.
    BlankInSeed,
    /// A candidate's emission frames are not increasing and in range.
    EmissionFrames,
    /// A candidate token id does not fit the predictor's `i64` context.
    TokenIdExceedsI64,
}

impl ApproximateLatticeError {
    pub fn message(self) -> (r: &'static str)
        ensures
            r@ == match self {
                ApproximateLatticeError::EncoderShape => "invalid approximate lattice encoder shape"@,
                ApproximateLatticeError::LengthMismatch => "approximate lattice seed token/timestamp lengths differ"@,
                ApproximateLatticeError::BlankInSeed => "approximate lattice seed must not contain blank"@,
                ApproximateLatticeError::EmissionFrames => "approximate lattice seed emission frames must be increasing and in range"@,
                ApproximateLatticeError::TokenIdExceedsI64 => "approximate lattice token ID exceeds i64"@,
            },
    {
        match self {
            ApproximateLatticeError::EncoderShape => "invalid approximate lattice encoder shape",
            ApproximateLatticeError::LengthMismatch => "approximate lattice seed token/timestamp lengths differ",
            ApproximateLatticeError::BlankInSeed => "approximate lattice seed must not contain blank",
            ApproximateLatticeError::EmissionFrames => "approximate lattice seed emission frames must be increasing and in range",
            ApproximateLatticeError::TokenIdExceedsI64 => "approximate lattice token ID exceeds i64",
        }
    }
}

/// The state of the empty prefix.
pub open spec fn root_state(initial: [i64; 2]) -> LatticeState {
    LatticeState { token_count: 0, context: initial }
}

/// The state after reading `token` in `state`.
pub open spec fn next_state(state: LatticeState, token: usize) -> LatticeState {
    LatticeState {
        token_count: (state.token_count + 1) as usize,
        context: [state.context[1], spec_token_context_id(token)],
    }
}

/// The state after the first `k` tokens of a candidate.
pub open spec fn state_after(initial: [i64; 2], tokens: Seq<usize>, k: int) -> LatticeState {
    LatticeState { token_count: k as usize, context: context_after(initial, tokens.take(k)) }
}

/// The first frame scored for position `k`: just after the previous emission.
pub open spec fn segment_start(emissions: Seq<usize>, k: int) -> int {
    if k <= 0 {
        0
    } else {
        emissions[k - 1] + 1
    }
}

/// The states reached after each of the first `k` tokens.
pub open spec fn seed_states(initial: [i64; 2], tokens: Seq<usize>, k: int) -> Seq<LatticeState>
    decreases k,
{
    if k <= 0 {
        Seq::empty()
    } else {
        seed_states(initial, tokens, k - 1).push(state_after(initial, tokens, k))
    }
}

/// The states reached by the first `s` candidates, in reading order.
pub open spec fn walk_states<'a>(initial: [i64; 2], seeds: Seq<StatelessRnntAlignedSeed<'a>>, s: int) -> Seq<
    LatticeState,
>
    decreases s,
{
    if s <= 0 {
        Seq::empty()
    } else {
        walk_states(initial, seeds, s - 1) + seed_states(
            initial,
            seeds[s - 1].token_ids@,
            seeds[s - 1].token_ids@.len() as int,
        )
    }
}

/// The tokens read from `state` at the first `k` positions of a candidate.
pub open spec fn seed_arcs(initial: [i64; 2], tokens: Seq<usize>, k: int, state: LatticeState) -> Seq<usize>
    decreases k,
{
    if k <= 0 {
        Seq::empty()
    } else {
        seed_arcs(initial, tokens, k - 1, state) + if state_after(initial, tokens, k - 1) == state {
            seq![tokens[k - 1]]
        } else {
            Seq::empty()
        }
    }
}

/// The tokens read from `state` by the first `s` candidates, in reading order.
pub open spec fn walk_arcs<'a>(
    initial: [i64; 2],
    seeds: Seq<StatelessRnntAlignedSeed<'a>>,
    s: int,
    state: LatticeState,
) -> Seq<usize>
    decreases s,
{
    if s <= 0 {
        Seq::empty()
    } else {
        walk_arcs(initial, seeds, s - 1, state) + seed_arcs(
            initial,
            seeds[s - 1].token_ids@,
            seeds[s - 1].token_ids@.len() as int,
            state,
        )
    }
}

/// The first `k` positions of a candidate: the state read from, the token, the
/// first frame of its segment and its emission frame.
pub open spec fn seed_steps<'a>(initial: [i64; 2], seed: StatelessRnntAlignedSeed<'a>, k: int) -> Seq<
    (LatticeState, usize, int, usize),
>
    decreases k,
{
    if k <= 0 {
        Seq::empty()
    } else {
        seed_steps(initial, seed, k - 1).push(
            (
                state_after(initial, seed.token_ids@, k - 1),
                seed.token_ids@[k - 1],
                segment_start(seed.emission_frames@, k - 1),
                seed.emission_frames@[k - 1],
            ),
        )
    }
}

/// The positions of the first `s` candidates, in reading order.
pub open spec fn walk_steps<'a>(initial: [i64; 2], seeds: Seq<StatelessRnntAlignedSeed<'a>>, s: int) -> Seq<
    (LatticeState, usize, int, usize),
>
    decreases s,
{
    if s <= 0 {
        Seq::empty()
    } else {
        walk_steps(initial, seeds, s - 1) + seed_steps(
            initial,
            seeds[s - 1],
            seeds[s - 1].token_ids@.len() as int,
        )
    }
}

/// The final state of each of the first `s` candidates and the first frame of
/// its closing blank segment.
pub open spec fn walk_terminals<'a>(initial: [i64; 2], seeds: Seq<StatelessRnntAlignedSeed<'a>>, s: int) -> Seq<
    (LatticeState, int),
>
    decreases s,
{
    if s <= 0 {
        Seq::empty()
    } else {
        let seed = seeds[s - 1];
        let len = seed.token_ids@.len() as int;
        walk_terminals(initial, seeds, s - 1).push(
            (state_after(initial, seed.token_ids@, len), segment_start(seed.emission_frames@, len)),
        )
    }
}

/// Emission frames are strictly increasing and below `frames`.
pub open spec fn emission_frames_ok(frames: usize, emissions: Seq<usize>) -> bool {
    forall|i: int|
        0 <= i < emissions.len() ==> #[trigger] emissions[i] < frames && (i > 0 ==> emissions[i - 1]
            < emissions[i])
}

/// What is wrong with one candidate, checked in this order.
pub open spec fn seed_error<'a>(frames: usize, blank_id: usize, seed: StatelessRnntAlignedSeed<'a>) -> Option<
    ApproximateLatticeError,
> {
    if seed.token_ids@.len() != seed.emission_frames@.len() {
        Some(ApproximateLatticeError::LengthMismatch)
    } else if seed.token_ids@.contains(blank_id) {
        Some(ApproximateLatticeError::BlankInSeed)
    } else if !emission_frames_ok(frames, seed.emission_frames@) {
        Some(ApproximateLatticeError::EmissionFrames)
    } else if exists|i: int| 0 <= i < seed.token_ids@.len() && #[trigger] seed.token_ids@[i] > i64::MAX {
        Some(ApproximateLatticeError::TokenIdExceedsI64)
    } else {
        None
    }
}

/// The error of the first of the first `s` candidates that has one.
pub open spec fn first_seed_error<'a>(
    frames: usize,
    blank_id: usize,
    seeds: Seq<StatelessRnntAlignedSeed<'a>>,
    s: int,
) -> Option<ApproximateLatticeError>
    decreases s,
{
    if s <= 0 {
        None
    } else {
        match first_seed_error(frames, blank_id, seeds, s - 1) {
            Some(e) => Some(e),
            None => seed_error(frames, blank_id, seeds[s - 1]),
        }
    }
}

/// The states of the nodes, in node order.
pub open spec fn node_states(nodes: Seq<LatticeNode>) -> Seq<LatticeState> {
    nodes.map_values(|node: LatticeNode| node.state)
}

/// The tokens of the arcs, in arc order.
pub open spec fn arc_tokens(arcs: Seq<LatticeArc>) -> Seq<usize> {
    arcs.map_values(|arc: LatticeArc| arc.token_id)
}

/// Every arc leads to the node of the state its token reaches.
pub open spec fn arcs_lead_to_successors(nodes: Seq<LatticeNode>) -> bool {
    forall|n: int, a: int|
        0 <= n < nodes.len() && 0 <= a < nodes[n].arcs@.len() ==> {
            let arc = #[trigger] nodes[n].arcs@[a];
            arc.destination < nodes.len() && nodes[arc.destination as int].state == next_state(
                nodes[n].state,
                arc.token_id,
            )
        }
}

/// The arc occurrences follow `steps` position by position.
pub open spec fn occurrences_follow(
    nodes: Seq<LatticeNode>,
    occurrences: Seq<LatticeArcOccurrence>,
    steps: Seq<(LatticeState, usize, int, usize)>,
) -> bool {
    &&& occurrences.len() == steps.len()
    &&& forall|i: int|
        0 <= i < occurrences.len() ==> {
            let o = #[trigger] occurrences[i];
            let step = steps[i];
            &&& o.source < nodes.len()
            &&& nodes[o.source as int].state == step.0
            &&& o.arc < nodes[o.source as int].arcs@.len()
            &&& nodes[o.source as int].arcs@[o.arc as int].token_id == step.1
            &&& o.segment_start == step.2
            &&& o.emission_frame == step.3
        }
}

/// The terminal occurrences follow `ends` candidate by candidate.
pub open spec fn terminals_follow(
    nodes: Seq<LatticeNode>,
    terminals: Seq<LatticeTerminalOccurrence>,
    ends: Seq<(LatticeState, int)>,
) -> bool {
    &&& terminals.len() == ends.len()
    &&& forall|i: int|
        0 <= i < terminals.len() ==> {
            let t = #[trigger] terminals[i];
            &&& t.node < nodes.len()
            &&& nodes[t.node as int].state == ends[i].0
            &&& t.segment_start == ends[i].1
        }
}

/// The lattice of the candidates `seeds` read from `initial`: its nodes are the
/// distinct states in first-reached order (the root first), each node's arcs
/// are the distinct tokens read from its state in first-read order, and the
/// occurrences follow every candidate position and ending.
pub open spec fn lattice_matches<'a>(
    initial: [i64; 2],
    seeds: Seq<StatelessRnntAlignedSeed<'a>>,
    lattice: LatticeStructure,
) -> bool {
    let nodes = lattice.nodes@;
    let s = seeds.len() as int;
    &&& node_states(nodes) == first_occurrences(seq![root_state(initial)] + walk_states(initial, seeds, s))
    &&& forall|n: int|
        0 <= n < nodes.len() ==> arc_tokens(#[trigger] nodes[n].arcs@) == first_occurrences(
            walk_arcs(initial, seeds, s, nodes[n].state),
        )
    &&& arcs_lead_to_successors(nodes)
    &&& occurrences_follow(nodes, lattice.arc_occurrences@, walk_steps(initial, seeds, s))
    &&& terminals_follow(nodes, lattice.terminal_occurrences@, walk_terminals(initial, seeds, s))
}

/// Whether two states are equal.
pub fn same_state(a: LatticeState, b: LatticeState) -> (r: bool)
    ensures
        r == (a == b),
{
    a.token_count == b.token_count && same_context(a.context, b.context)
}

/// The node of `state`, appended with no arcs when it is new.
pub fn find_or_insert_lattice_node(nodes: &mut Vec<LatticeNode>, state: LatticeState) -> (r: usize)
    ensures
        r < final(nodes)@.len(),
        final(nodes)@[r as int].state == state,
        node_states(old(nodes)@).contains(state) ==> final(nodes)@ == old(nodes)@ && forall|j: int|
            0 <= j < r ==> old(nodes)@[j].state != state,
        !node_states(old(nodes)@).contains(state) ==> {
            &&& final(nodes)@.len() == old(nodes)@.len() + 1
            &&& final(nodes)@.drop_last() == old(nodes)@
            &&& final(nodes)@.last().arcs@ == Seq::<LatticeArc>::empty()
            &&& r == old(nodes)@.len()
        },
{
    let mut index: usize = 0;
    while index < nodes.len()
        invariant
            index <= nodes.len(),
            nodes@ == old(nodes)@,
            forall|j: int| 0 <= j < index ==> nodes@[j].state != state,
        decreases nodes.len() - index,
    {
        if same_state(nodes[index].state, state) {
            proof {
                assert(node_states(nodes@)[index as int] == state);
            }
            return index;
        }
        index = index + 1;
    }
    proof {
        assert forall|j: int| 0 <= j < node_states(nodes@).len() implies node_states(nodes@)[j] != state by {
            assert(node_states(nodes@)[j] == nodes@[j].state);
        }
    }
    let id = nodes.len();
    nodes.push(LatticeNode { state, arcs: Vec::new() });
    proof {
        assert(final(nodes)@.drop_last() =~= old(nodes)@);
    }
    id
}

/// Checks one candidate in the order of [`seed_error`], leaving the token range
/// to the caller.
fn check_seed_shape(frames: usize, blank_id: usize, seed: StatelessRnntAlignedSeed) -> (r: Result<
    (),
    ApproximateLatticeError,
>)
    ensures
        match r {
            Ok(()) => {
                &&& seed.token_ids@.len() == seed.emission_frames@.len()
                &&& !seed.token_ids@.contains(blank_id)
                &&& emission_frames_ok(frames, seed.emission_frames@)
            },
            Err(e) => seed_error(frames, blank_id, seed) == Some(e) && e != ApproximateLatticeError::TokenIdExceedsI64,
        },
{
    if seed.token_ids.len() != seed.emission_frames.len() {
        return Err(ApproximateLatticeError::LengthMismatch);
    }
    let mut i: usize = 0;
    while i < seed.token_ids.len()
        invariant
            i <= seed.token_ids@.len(),
            seed.token_ids@.len() == seed.emission_frames@.len(),
            forall|j: int| 0 <= j < i ==> seed.token_ids@[j] != blank_id,
        decreases seed.token_ids.len() - i,
    {
        if seed.token_ids[i] == blank_id {
            proof {
                assert(seed.token_ids@[i as int] == blank_id);
            }
            return Err(ApproximateLatticeError::BlankInSeed);
        }
        i = i + 1;
    }
    let mut i: usize = 0;
    while i < seed.emission_frames.len()
        invariant
            i <= seed.emission_frames@.len(),
            seed.token_ids@.len() == seed.emission_frames@.len(),
            !seed.token_ids@.contains(blank_id),
            forall|j: int|
                0 <= j < i ==> #[trigger] seed.emission_frames@[j] < frames && (j > 0 ==> seed.emission_frames@[j
                    - 1] < seed.emission_frames@[j]),
        decreases seed.emission_frames.len() - i,
    {
        let frame = seed.emission_frames[i];
        if frame >= frames || (i > 0 && seed.emission_frames[i - 1] >= frame) {
            proof {
                assert(!(seed.emission_frames@[i as int] < frames && (i > 0 ==> seed.emission_frames@[i
                    - 1] < seed.emission_frames@[i as int])));
            }
            return Err(ApproximateLatticeError::EmissionFrames);
        }
        i = i + 1;
    }
    Ok(())
}

/// Position of the arc reading `token_id` into `destination`, if there is one.
fn arc_position(arcs: &Vec<LatticeArc>, token_id: usize, destination: usize) -> (r: Option<usize>)
    ensures
        match r {
            Some(a) => a < arcs@.len() && arcs@[a as int].token_id == token_id && arcs@[a as int].destination
                == destination,
            None => forall|a: int|
                0 <= a < arcs@.len() ==> !(arcs@[a].token_id == token_id && arcs@[a].destination == destination),
        },
{
    let mut a: usize = 0;
    while a < arcs.len()
        invariant
            a <= arcs@.len(),
            forall|j: int|
                0 <= j < a ==> !(arcs@[j].token_id == token_id && arcs@[j].destination == destination),
        decreases arcs.len() - a,
    {
        if arcs[a].token_id == token_id && arcs[a].destination == destination {
            return Some(a);
        }
        a = a + 1;
    }
    None
}

proof fn lemma_state_after_zero(initial: [i64; 2], tokens: Seq<usize>)
    ensures
        state_after(initial, tokens, 0) == root_state(initial),
{
    assert(tokens.take(0) =~= Seq::<usize>::empty());
}

proof fn lemma_state_after_step(initial: [i64; 2], tokens: Seq<usize>, k: int)
    requires
        0 <= k < tokens.len(),
        tokens.len() <= usize::MAX,
    ensures
        state_after(initial, tokens, k + 1) == next_state(state_after(initial, tokens, k), tokens[k]),
{
    assert(tokens.take(k + 1).drop_last() =~= tokens.take(k));
    assert(tokens.take(k + 1).last() == tokens[k]);
}

proof fn lemma_seed_states_len(initial: [i64; 2], tokens: Seq<usize>, k: int)
    requires
        0 <= k,
    ensures
        seed_states(initial, tokens, k).len() == k,
    decreases k,
{
    if k > 0 {
        lemma_seed_states_len(initial, tokens, k - 1);
    }
}

proof fn lemma_seed_states_index(initial: [i64; 2], tokens: Seq<usize>, k: int, j: int)
    requires
        1 <= j <= k,
    ensures
        seed_states(initial, tokens, k).len() == k,
        seed_states(initial, tokens, k)[j - 1] == state_after(initial, tokens, j),
    decreases k,
{
    lemma_seed_states_len(initial, tokens, k);
    if j < k {
        lemma_seed_states_index(initial, tokens, k - 1, j);
    } else {
        lemma_seed_states_len(initial, tokens, k - 1);
    }
}

/// A state neither the root nor reached within the first `k` positions is
/// read from at none of them.
proof fn lemma_seed_arcs_unvisited(initial: [i64; 2], tokens: Seq<usize>, k: int, state: LatticeState)
    requires
        0 <= k,
        state != root_state(initial),
        !seed_states(initial, tokens, k).contains(state),
    ensures
        seed_arcs(initial, tokens, k, state) == Seq::<usize>::empty(),
    decreases k,
{
    if k > 0 {
        assert(!seed_states(initial, tokens, k - 1).contains(state)) by {
            if seed_states(initial, tokens, k - 1).contains(state) {
                let earlier = seed_states(initial, tokens, k - 1);
                let j = choose|j: int| 0 <= j < earlier.len() && #[trigger] earlier[j] == state;
                assert(seed_states(initial, tokens, k)[j] == state);
            }
        }
        lemma_seed_arcs_unvisited(initial, tokens, k - 1, state);
        if k - 1 == 0 {
            lemma_state_after_zero(initial, tokens);
        } else {
            lemma_seed_states_index(initial, tokens, k, k - 1);
        }
        assert(seed_arcs(initial, tokens, k, state) =~= Seq::<usize>::empty());
    }
}

proof fn lemma_walk_arcs_unvisited<'a>(
    initial: [i64; 2],
    seeds: Seq<StatelessRnntAlignedSeed<'a>>,
    s: int,
    state: LatticeState,
)
    requires
        0 <= s <= seeds.len(),
        state != root_state(initial),
        !walk_states(initial, seeds, s).contains(state),
    ensures
        walk_arcs(initial, seeds, s, state) == Seq::<usize>::empty(),
    decreases s,
{
    if s > 0 {
        let before = walk_states(initial, seeds, s - 1);
        let tokens = seeds[s - 1].token_ids@;
        let last = seed_states(initial, tokens, tokens.len() as int);
        assert(!before.contains(state)) by {
            if before.contains(state) {
                let j = choose|j: int| 0 <= j < before.len() && before[j] == state;
                assert((before + last)[j] == state);
            }
        }
        assert(!last.contains(state)) by {
            if last.contains(state) {
                let j = choose|j: int| 0 <= j < last.len() && last[j] == state;
                assert((before + last)[before.len() + j] == state);
            }
        }
        lemma_walk_arcs_unvisited(initial, seeds, s - 1, state);
        lemma_seed_arcs_unvisited(initial, tokens, tokens.len() as int, state);
        assert(walk_arcs(initial, seeds, s, state) =~= Seq::<usize>::empty());
    }
}

proof fn lemma_first_seed_error_stays<'a>(
    frames: usize,
    blank_id: usize,
    seeds: Seq<StatelessRnntAlignedSeed<'a>>,
    s: int,
    t: int,
)
    requires
        0 <= s <= t,
        first_seed_error(frames, blank_id, seeds, s) is Some,
    ensures
        first_seed_error(frames, blank_id, seeds, t) == first_seed_error(frames, blank_id, seeds, s),
    decreases t - s,
{
    if s < t {
        lemma_first_seed_error_stays(frames, blank_id, seeds, s, t - 1);
    }
}

/// The nodes, arcs and occurrences once the first `s` candidates are read.
#[verifier::opaque]
spec fn built<'a>(
    initial: [i64; 2],
    all: Seq<StatelessRnntAlignedSeed<'a>>,
    s: int,
    nodes: Seq<LatticeNode>,
    occurrences: Seq<LatticeArcOccurrence>,
    terminals: Seq<LatticeTerminalOccurrence>,
) -> bool {
    &&& node_states(nodes) == first_occurrences(seq![root_state(initial)] + walk_states(initial, all, s))
    &&& forall|n: int|
        0 <= n < nodes.len() ==> arc_tokens(#[trigger] nodes[n].arcs@) == first_occurrences(
            walk_arcs(initial, all, s, nodes[n].state),
        )
    &&& arcs_lead_to_successors(nodes)
    &&& occurrences_follow(nodes, occurrences, walk_steps(initial, all, s))
    &&& terminals_follow(nodes, terminals, walk_terminals(initial, all, s))
}

/// The nodes, arcs and occurrences once the first `s` candidates and the first
/// `k` positions of `seed` are read.
#[verifier::opaque]
spec fn building<'a>(
    initial: [i64; 2],
    all: Seq<StatelessRnntAlignedSeed<'a>>,
    s: int,
    seed: StatelessRnntAlignedSeed<'a>,
    k: int,
    nodes: Seq<LatticeNode>,
    occurrences: Seq<LatticeArcOccurrence>,
    terminals: Seq<LatticeTerminalOccurrence>,
) -> bool {
    let tokens = seed.token_ids@;
    &&& node_states(nodes) == first_occurrences(
        seq![root_state(initial)] + walk_states(initial, all, s) + seed_states(initial, tokens, k),
    )
    &&& forall|n: int|
        0 <= n < nodes.len() ==> arc_tokens(#[trigger] nodes[n].arcs@) == first_occurrences(
            walk_arcs(initial, all, s, nodes[n].state) + seed_arcs(initial, tokens, k, nodes[n].state),
        )
    &&& arcs_lead_to_successors(nodes)
    &&& occurrences_follow(nodes, occurrences, walk_steps(initial, all, s) + seed_steps(initial, seed, k))
    &&& terminals_follow(nodes, terminals, walk_terminals(initial, all, s))
}

/// `new` keeps the states and arcs of the nodes of `old`, possibly adding arcs
/// and nodes.
spec fn nodes_extend(old: Seq<LatticeNode>, new: Seq<LatticeNode>) -> bool {
    &&& old.len() <= new.len()
    &&& forall|j: int|
        #![trigger new[j]]
        0 <= j < old.len() ==> {
            &&& new[j].state == old[j].state
            &&& old[j].arcs@.len() <= new[j].arcs@.len()
            &&& forall|a: int| 0 <= a < old[j].arcs@.len() ==> new[j].arcs@[a] == old[j].arcs@[a]
        }
}

proof fn lemma_occurrences_extend(
    old: Seq<LatticeNode>,
    new: Seq<LatticeNode>,
    occurrences: Seq<LatticeArcOccurrence>,
    steps: Seq<(LatticeState, usize, int, usize)>,
)
    requires
        occurrences_follow(old, occurrences, steps),
        nodes_extend(old, new),
    ensures
        occurrences_follow(new, occurrences, steps),
{
    assert forall|i: int| 0 <= i < occurrences.len() implies {
        let o = #[trigger] occurrences[i];
        let step = steps[i];
        &&& o.source < new.len()
        &&& new[o.source as int].state == step.0
        &&& o.arc < new[o.source as int].arcs@.len()
        &&& new[o.source as int].arcs@[o.arc as int].token_id == step.1
        &&& o.segment_start == step.2
        &&& o.emission_frame == step.3
    } by {
        let o = occurrences[i];
        assert(new[o.source as int].state == old[o.source as int].state);
        assert(new[o.source as int].arcs@[o.arc as int] == old[o.source as int].arcs@[o.arc as int]);
    }
}

proof fn lemma_terminals_extend(
    old: Seq<LatticeNode>,
    new: Seq<LatticeNode>,
    terminals: Seq<LatticeTerminalOccurrence>,
    ends: Seq<(LatticeState, int)>,
)
    requires
        terminals_follow(old, terminals, ends),
        nodes_extend(old, new),
    ensures
        terminals_follow(new, terminals, ends),
{
    assert forall|i: int| 0 <= i < terminals.len() implies {
        let t = #[trigger] terminals[i];
        &&& t.node < new.len()
        &&& new[t.node as int].state == ends[i].0
        &&& t.segment_start == ends[i].1
    } by {
        assert(new[terminals[i].node as int].state == old[terminals[i].node as int].state);
    }
}

/// The first of the distinct elements is the first element.
proof fn lemma_first_occurrences_head<T>(items: Seq<T>)
    requires
        items.len() >= 1,
    ensures
        first_occurrences(items).len() >= 1,
        first_occurrences(items)[0] == items[0],
    decreases items.len(),
{
    if items.len() == 1 {
        assert(items.drop_last() =~= Seq::<T>::empty());
        assert(first_occurrences(Seq::<T>::empty()) =~= Seq::<T>::empty());
        assert(!Seq::<T>::empty().contains(items.last()));
    } else {
        lemma_first_occurrences_head(items.drop_last());
    }
}

/// Every element of `a + b + c` drawn from one of the parts.
proof fn lemma_in_parts<T>(a: Seq<T>, b: Seq<T>, c: Seq<T>, x: T)
    ensures
        (a + b + c).contains(x) <==> a.contains(x) || b.contains(x) || c.contains(x),
{
    let all = a + b + c;
    if all.contains(x) {
        let i = choose|i: int| 0 <= i < all.len() && all[i] == x;
        if i < a.len() {
            assert(a[i] == x);
        } else if i < a.len() + b.len() {
            assert(b[i - a.len()] == x);
        } else {
            assert(c[i - a.len() - b.len()] == x);
        }
    }
    if a.contains(x) {
        let i = choose|i: int| 0 <= i < a.len() && a[i] == x;
        assert(all[i] == x);
    }
    if b.contains(x) {
        let i = choose|i: int| 0 <= i < b.len() && b[i] == x;
        assert(all[a.len() + i] == x);
    }
    if c.contains(x) {
        let i = choose|i: int| 0 <= i < c.len() && c[i] == x;
        assert(all[a.len() + b.len() + i] == x);
    }
}

proof fn lemma_built_start<'a>(initial: [i64; 2], all: Seq<StatelessRnntAlignedSeed<'a>>, nodes: Seq<LatticeNode>)
    requires
        nodes.len() == 1,
        nodes[0].state == root_state(initial),
        nodes[0].arcs@ == Seq::<LatticeArc>::empty(),
    ensures
        built(initial, all, 0, nodes, Seq::empty(), Seq::empty()),
{
    reveal(built);
    let root = root_state(initial);
    assert(seq![root] + walk_states(initial, all, 0) =~= seq![root]);
    assert(seq![root].drop_last() =~= Seq::<LatticeState>::empty());
    assert(first_occurrences(Seq::<LatticeState>::empty()) =~= Seq::<LatticeState>::empty());
    assert(!Seq::<LatticeState>::empty().contains(root));
    assert(first_occurrences(seq![root]) =~= seq![root]);
    assert(node_states(nodes) =~= seq![root]);
    assert(arc_tokens(nodes[0].arcs@) =~= Seq::<usize>::empty());
    assert(first_occurrences(Seq::<usize>::empty()) =~= Seq::<usize>::empty());
    assert(walk_arcs(initial, all, 0, root) =~= Seq::<usize>::empty());
}

proof fn lemma_building_begin<'a>(
    initial: [i64; 2],
    all: Seq<StatelessRnntAlignedSeed<'a>>,
    s: int,
    nodes: Seq<LatticeNode>,
    occurrences: Seq<LatticeArcOccurrence>,
    terminals: Seq<LatticeTerminalOccurrence>,
)
    requires
        0 <= s < all.len(),
        built(initial, all, s, nodes, occurrences, terminals),
    ensures
        building(initial, all, s, all[s], 0, nodes, occurrences, terminals),
        nodes.len() >= 1,
        nodes[0].state == state_after(initial, all[s].token_ids@, 0),
{
    reveal(built);
    reveal(building);
    let seed = all[s];
    let tokens = seed.token_ids@;
    let root = root_state(initial);
    lemma_state_after_zero(initial, tokens);
    assert(seq![root] + walk_states(initial, all, s) + seed_states(initial, tokens, 0) =~= seq![root]
        + walk_states(initial, all, s));
    assert forall|n: int| 0 <= n < nodes.len() implies arc_tokens(#[trigger] nodes[n].arcs@)
        == first_occurrences(
        walk_arcs(initial, all, s, nodes[n].state) + seed_arcs(initial, tokens, 0, nodes[n].state),
    ) by {
        assert(walk_arcs(initial, all, s, nodes[n].state) + seed_arcs(initial, tokens, 0, nodes[n].state)
            =~= walk_arcs(initial, all, s, nodes[n].state));
    }
    assert(walk_steps(initial, all, s) + seed_steps(initial, seed, 0) =~= walk_steps(initial, all, s));
    lemma_first_occurrences_head(seq![root] + walk_states(initial, all, s));
    assert(node_states(nodes)[0] == nodes[0].state);
}

proof fn lemma_building_end<'a>(
    initial: [i64; 2],
    all: Seq<StatelessRnntAlignedSeed<'a>>,
    s: int,
    nodes: Seq<LatticeNode>,
    occurrences: Seq<LatticeArcOccurrence>,
    terminals: Seq<LatticeTerminalOccurrence>,
    source: int,
    segment: int,
    new_terminals: Seq<LatticeTerminalOccurrence>,
)
    requires
        0 <= s < all.len(),
        building(initial, all, s, all[s], all[s].token_ids@.len() as int, nodes, occurrences, terminals),
        0 <= source < nodes.len(),
        nodes[source].state == state_after(initial, all[s].token_ids@, all[s].token_ids@.len() as int),
        segment == segment_start(all[s].emission_frames@, all[s].token_ids@.len() as int),
        0 <= segment <= usize::MAX,
        0 <= source <= usize::MAX,
        new_terminals == terminals.push(
            LatticeTerminalOccurrence { node: source as usize, segment_start: segment as usize },
        ),
    ensures
        built(initial, all, s + 1, nodes, occurrences, new_terminals),
{
    reveal(built);
    reveal(building);
    let seed = all[s];
    let tokens = seed.token_ids@;
    let len = tokens.len() as int;
    let root = root_state(initial);
    assert(seq![root] + walk_states(initial, all, s) + seed_states(initial, tokens, len) =~= seq![root]
        + walk_states(initial, all, s + 1));
    let ends = walk_terminals(initial, all, s + 1);
    assert(ends == walk_terminals(initial, all, s).push(
        (state_after(initial, tokens, len), segment_start(seed.emission_frames@, len)),
    ));
    assert forall|i: int| 0 <= i < new_terminals.len() implies {
        let t = #[trigger] new_terminals[i];
        &&& t.node < nodes.len()
        &&& nodes[t.node as int].state == ends[i].0
        &&& t.segment_start == ends[i].1
    } by {
        if i < terminals.len() {
            assert(new_terminals[i] == terminals[i]);
            assert(ends[i] == walk_terminals(initial, all, s)[i]);
        }
    }
}

proof fn lemma_built_final<'a>(
    initial: [i64; 2],
    all: Seq<StatelessRnntAlignedSeed<'a>>,
    lattice: LatticeStructure,
)
    requires
        built(
            initial,
            all,
            all.len() as int,
            lattice.nodes@,
            lattice.arc_occurrences@,
            lattice.terminal_occurrences@,
        ),
    ensures
        lattice_matches(initial, all, lattice),
{
    reveal(built);
}

/// How one position changes the nodes: the nodes of `n0` are kept, the arcs of
/// `source` may gain `added`, and a node may be appended with no arcs.
spec fn step_shape(n0: Seq<LatticeNode>, n2: Seq<LatticeNode>, source: int, found: bool, added: LatticeArc) -> bool {
    &&& n0.len() <= n2.len() <= n0.len() + 1
    &&& forall|j: int| 0 <= j < n0.len() && (found || j != source) ==> #[trigger] n2[j] == n0[j]
    &&& !found ==> n2[source].state == n0[source].state && n2[source].arcs@ == n0[source].arcs@.push(added)
    &&& n0.len() < n2.len() ==> n2[n0.len() as int].arcs@ == Seq::<LatticeArc>::empty()
}

proof fn lemma_step_shape(
    n0: Seq<LatticeNode>,
    n1: Seq<LatticeNode>,
    n2: Seq<LatticeNode>,
    source: int,
    found: bool,
    added: LatticeArc,
    appended: bool,
)
    requires
        0 <= source < n0.len(),
        !appended ==> n1 == n0,
        appended ==> n1.len() == n0.len() + 1 && n1.drop_last() == n0 && n1.last().arcs@ == Seq::<
            LatticeArc,
        >::empty(),
        found ==> n2 == n1,
        !found ==> {
            &&& n2.len() == n1.len()
            &&& forall|j: int| 0 <= j < n1.len() && j != source ==> n2[j] == n1[j]
            &&& n2[source].state == n1[source].state
            &&& n2[source].arcs@ == n1[source].arcs@.push(added)
        },
    ensures
        step_shape(n0, n2, source, found, added),
        nodes_extend(n0, n2),
{
    assert forall|j: int| 0 <= j < n0.len() implies #[trigger] n1[j] == n0[j] by {
        if appended {
            assert(n1.drop_last()[j] == n1[j]);
        }
    }
    assert forall|j: int| 0 <= j < n0.len() implies {
        &&& #[trigger] n2[j].state == n0[j].state
        &&& n0[j].arcs@.len() <= n2[j].arcs@.len()
        &&& forall|a: int| 0 <= a < n0[j].arcs@.len() ==> n2[j].arcs@[a] == n0[j].arcs@[a]
    } by {
        assert(n1[j] == n0[j]);
    }
    if appended {
        assert(n2[n0.len() as int] == n1[n0.len() as int]);
    }
}

proof fn lemma_step_successors(
    n0: Seq<LatticeNode>,
    n2: Seq<LatticeNode>,
    source: int,
    found: bool,
    added: LatticeArc,
)
    requires
        arcs_lead_to_successors(n0),
        0 <= source < n0.len(),
        step_shape(n0, n2, source, found, added),
        nodes_extend(n0, n2),
        !found ==> added.destination < n2.len() && n2[added.destination as int].state == next_state(
            n0[source].state,
            added.token_id,
        ),
    ensures
        arcs_lead_to_successors(n2),
{
    assert forall|n: int, a: int| 0 <= n < n2.len() && 0 <= a < n2[n].arcs@.len() implies {
        let e = #[trigger] n2[n].arcs@[a];
        e.destination < n2.len() && n2[e.destination as int].state == next_state(n2[n].state, e.token_id)
    } by {
        if n < n0.len() {
            if !found && n == source && a == n0[n].arcs@.len() {
                assert(n2[n].arcs@[a] == added);
            } else {
                assert(a < n0[n].arcs@.len());
                let e = n0[n].arcs@[a];
                assert(n2[n].arcs@[a] == e);
                assert(n2[e.destination as int].state == n0[e.destination as int].state);
            }
        }
    }
}

/// The arcs of the node read from follow its reads with one more token.
proof fn lemma_step_source_arcs(
    before: Seq<usize>,
    t: usize,
    arcs0: Seq<LatticeArc>,
    arcs2: Seq<LatticeArc>,
    found: bool,
    duplicate_free: bool,
)
    requires
        arc_tokens(arcs0) == first_occurrences(before),
        found ==> arcs2 == arcs0 && arc_tokens(arcs0).contains(t),
        !found ==> arcs2 == arcs0.push(LatticeArc { token_id: t, destination: arcs2.last().destination })
            && !arc_tokens(arcs0).contains(t),
    ensures
        arc_tokens(arcs2) == first_occurrences(before.push(t)),
{
    lemma_first_occurrences_push(before, t);
    if !found {
        assert(arc_tokens(arcs2) =~= arc_tokens(arcs0).push(t));
    }
}

/// One position of a candidate read: the node of the reached state exists and
/// the arc from the current node to it is recorded once.
#[verifier::rlimit(60)]
proof fn lemma_building_step<'a>(
    initial: [i64; 2],
    all: Seq<StatelessRnntAlignedSeed<'a>>,
    s: int,
    k: int,
    n0: Seq<LatticeNode>,
    occurrences: Seq<LatticeArcOccurrence>,
    terminals: Seq<LatticeTerminalOccurrence>,
    source: int,
    n1: Seq<LatticeNode>,
    destination: int,
    n2: Seq<LatticeNode>,
    arc: int,
    found: bool,
    new_occurrences: Seq<LatticeArcOccurrence>,
)
    requires
        0 <= s < all.len(),
        0 <= k < all[s].token_ids@.len(),
        all[s].token_ids@.len() == all[s].emission_frames@.len(),
        building(initial, all, s, all[s], k, n0, occurrences, terminals),
        0 <= source < n0.len(),
        n0[source].state == state_after(initial, all[s].token_ids@, k),
        0 <= destination < n1.len(),
        n1[destination].state == state_after(initial, all[s].token_ids@, k + 1),
        node_states(n0).contains(n1[destination].state) ==> n1 == n0,
        !node_states(n0).contains(n1[destination].state) ==> {
            &&& n1.len() == n0.len() + 1
            &&& n1.drop_last() == n0
            &&& n1.last().arcs@ == Seq::<LatticeArc>::empty()
            &&& destination == n0.len()
        },
        found ==> n2 == n1 && 0 <= arc < n1[source].arcs@.len() && n1[source].arcs@[arc].token_id
            == all[s].token_ids@[k] && n1[source].arcs@[arc].destination == destination,
        !found ==> {
            &&& forall|a: int|
                0 <= a < n1[source].arcs@.len() ==> !(n1[source].arcs@[a].token_id == all[s].token_ids@[k]
                    && n1[source].arcs@[a].destination == destination)
            &&& n2.len() == n1.len()
            &&& forall|j: int| 0 <= j < n1.len() && j != source ==> n2[j] == n1[j]
            &&& n2[source].state == n1[source].state
            &&& n2[source].arcs@ == n1[source].arcs@.push(
                LatticeArc { token_id: all[s].token_ids@[k], destination: destination as usize },
            )
            &&& arc == n1[source].arcs@.len()
        },
        new_occurrences == occurrences.push(
            LatticeArcOccurrence {
                source: source as usize,
                arc: arc as usize,
                segment_start: segment_start(all[s].emission_frames@, k) as usize,
                emission_frame: all[s].emission_frames@[k],
            },
        ),
        0 <= segment_start(all[s].emission_frames@, k) <= usize::MAX,
        all[s].token_ids@.len() <= usize::MAX,
        n1.len() <= usize::MAX,
        0 <= arc <= usize::MAX,
    ensures
        building(initial, all, s, all[s], k + 1, n2, new_occurrences, terminals),
        destination < n2.len(),
        n2[destination].state == state_after(initial, all[s].token_ids@, k + 1),
{
    reveal(building);
    let seed = all[s];
    let tokens = seed.token_ids@;
    let t = tokens[k];
    let root = root_state(initial);
    let x = state_after(initial, tokens, k + 1);
    let here = state_after(initial, tokens, k);
    let added = LatticeArc { token_id: t, destination: destination as usize };
    let appended = !node_states(n0).contains(x);
    let xs = seq![root] + walk_states(initial, all, s) + seed_states(initial, tokens, k);
    let xs1 = seq![root] + walk_states(initial, all, s) + seed_states(initial, tokens, k + 1);
    assert(xs1 =~= xs.push(x));
    lemma_first_occurrences_push(xs, x);
    lemma_first_occurrences(xs);
    lemma_first_occurrences(xs1);
    lemma_state_after_step(initial, tokens, k);
    lemma_step_shape(n0, n1, n2, source, found, added, appended);
    if appended {
        assert(node_states(n1) =~= node_states(n0).push(x));
    }
    assert(node_states(n2) =~= node_states(n1));
    let ns2 = node_states(n2);
    assert(ns2 == first_occurrences(xs1));
    assert(no_duplicates(ns2));
    assert(n2[destination].state == x) by {
        if !found {
            if destination != source {
                assert(n2[destination] == n1[destination]);
            }
        }
    }
    assert(n2[source].state == here);
    lemma_step_successors(n0, n2, source, found, added);
    // arcs follow the reads
    assert forall|n: int| 0 <= n < n2.len() implies arc_tokens(#[trigger] n2[n].arcs@) == first_occurrences(
        walk_arcs(initial, all, s, n2[n].state) + seed_arcs(initial, tokens, k + 1, n2[n].state),
    ) by {
        let st = n2[n].state;
        let before = walk_arcs(initial, all, s, st) + seed_arcs(initial, tokens, k, st);
        let after = walk_arcs(initial, all, s, st) + seed_arcs(initial, tokens, k + 1, st);
        if n == source {
            assert(after =~= before.push(t));
            assert(n1[source] == n0[source]);
            if found {
                assert(arc_tokens(n0[n].arcs@)[arc] == t);
            } else {
                lemma_no_other_arc(n0, n2, source, here, t, x, destination);
            }
            lemma_step_source_arcs(before, t, n0[n].arcs@, n2[n].arcs@, found, true);
        } else if n < n0.len() {
            assert(ns2[n] == st && ns2[source] == here);
            assert(after =~= before);
        } else {
            lemma_in_parts(seq![root], walk_states(initial, all, s), seed_states(initial, tokens, k), x);
            assert(seq![root][0] == root);
            lemma_walk_arcs_unvisited(initial, all, s, x);
            lemma_seed_arcs_unvisited(initial, tokens, k, x);
            lemma_here_visited(initial, tokens, k);
            assert(after =~= Seq::<usize>::empty());
            assert(first_occurrences(Seq::<usize>::empty()) =~= Seq::<usize>::empty());
            assert(arc_tokens(n2[n].arcs@) =~= Seq::<usize>::empty());
        }
    }
    // occurrences
    let steps = walk_steps(initial, all, s) + seed_steps(initial, seed, k);
    let step = (here, t, segment_start(seed.emission_frames@, k), seed.emission_frames@[k]);
    assert(walk_steps(initial, all, s) + seed_steps(initial, seed, k + 1) =~= steps.push(step));
    lemma_occurrences_extend(n0, n2, occurrences, steps);
    assert(n2[source].arcs@[arc].token_id == t) by {
        if found {
            assert(n1[source] == n0[source]);
        }
    }
    lemma_occurrences_push(n2, occurrences, steps, new_occurrences.last(), step);
    assert(occurrences.push(new_occurrences.last()) =~= new_occurrences);
    lemma_terminals_extend(n0, n2, terminals, walk_terminals(initial, all, s));
}

/// The current state was reached before the step.
proof fn lemma_here_visited(initial: [i64; 2], tokens: Seq<usize>, k: int)
    requires
        0 <= k,
    ensures
        state_after(initial, tokens, k) == root_state(initial) || seed_states(initial, tokens, k).contains(
            state_after(initial, tokens, k),
        ),
{
    if k == 0 {
        lemma_state_after_zero(initial, tokens);
    } else {
        lemma_seed_states_index(initial, tokens, k, k);
    }
}

/// With distinct node states, no arc of the node of `here` reads `t` unless it
/// leads to the node of `next_state(here, t)`.
proof fn lemma_no_other_arc(
    n0: Seq<LatticeNode>,
    n2: Seq<LatticeNode>,
    source: int,
    here: LatticeState,
    t: usize,
    x: LatticeState,
    destination: int,
)
    requires
        arcs_lead_to_successors(n0),
        nodes_extend(n0, n2),
        no_duplicates(node_states(n2)),
        0 <= source < n0.len(),
        n0[source].state == here,
        x == next_state(here, t),
        0 <= destination < n2.len(),
        n2[destination].state == x,
        forall|a: int|
            0 <= a < n0[source].arcs@.len() ==> !(n0[source].arcs@[a].token_id == t
                && n0[source].arcs@[a].destination == destination),
    ensures
        !arc_tokens(n0[source].arcs@).contains(t),
{
    if arc_tokens(n0[source].arcs@).contains(t) {
        let arcs = n0[source].arcs@;
        let b = choose|b: int| 0 <= b < arc_tokens(arcs).len() && #[trigger] arc_tokens(arcs)[b] == t;
        let e = arcs[b];
        assert(e.token_id == t);
        assert(n0[e.destination as int].state == x);
        assert(n2[e.destination as int].state == x);
        assert(node_states(n2)[e.destination as int] == node_states(n2)[destination]);
    }
}

proof fn lemma_occurrences_push(
    nodes: Seq<LatticeNode>,
    occurrences: Seq<LatticeArcOccurrence>,
    steps: Seq<(LatticeState, usize, int, usize)>,
    o: LatticeArcOccurrence,
    step: (LatticeState, usize, int, usize),
)
    requires
        occurrences_follow(nodes, occurrences, steps),
        o.source < nodes.len(),
        nodes[o.source as int].state == step.0,
        o.arc < nodes[o.source as int].arcs@.len(),
        nodes[o.source as int].arcs@[o.arc as int].token_id == step.1,
        o.segment_start == step.2,
        o.emission_frame == step.3,
    ensures
        occurrences_follow(nodes, occurrences.push(o), steps.push(step)),
{
    assert forall|i: int| 0 <= i < occurrences.len() implies occurrences.push(o)[i] == occurrences[i]
        && steps.push(step)[i] == steps[i] by {}
}

/// The encoder output is not `frames` rows of `encoder_dim` nonzero values.
pub open spec fn encoder_shape_invalid(encoder_len: usize, frames: usize, encoder_dim: usize) -> bool {
    encoder_dim == 0 || encoder_len != (if frames * encoder_dim > usize::MAX {
        usize::MAX as int
    } else {
        frames * encoder_dim
    })
}

/// Builds the lattice of the aligned candidates `seeds` read from
/// `initial_context`: nodes, deduplicated arcs, and one occurrence per
/// candidate position and ending, for scoring against `frames` encoder frames.
/// With no candidates the lattice is the bare root and nothing is scored.
#[verifier::rlimit(100)]
pub fn approximate_lattice_structure(
    encoder_len: usize,
    frames: usize,
    encoder_dim: usize,
    blank_id: usize,
    initial_context: [i64; 2],
    seeds: &[StatelessRnntAlignedSeed],
) -> (r: Result<LatticeStructure, ApproximateLatticeError>)
    ensures
        encoder_shape_invalid(encoder_len, frames, encoder_dim) ==> r == Err::<
            LatticeStructure,
            ApproximateLatticeError,
        >(ApproximateLatticeError::EncoderShape),
        !encoder_shape_invalid(encoder_len, frames, encoder_dim) ==> match first_seed_error(
            frames,
            blank_id,
            seeds@,
            seeds@.len() as int,
        ) {
            Some(e) => r == Err::<LatticeStructure, ApproximateLatticeError>(e),
            None => r is Ok,
        },
        r matches Ok(lattice) ==> lattice_matches(initial_context, seeds@, lattice),
{
    let expected = match frames.checked_mul(encoder_dim) {
        Some(product) => product,
        None => usize::MAX,
    };
    if encoder_dim == 0 || encoder_len != expected {
        return Err(ApproximateLatticeError::EncoderShape);
    }
    let ghost initial = initial_context;
    let ghost all = seeds@;
    let mut nodes: Vec<LatticeNode> = Vec::new();
    nodes.push(LatticeNode { state: LatticeState { token_count: 0, context: initial_context }, arcs: Vec::new() });
    let mut arc_occurrences: Vec<LatticeArcOccurrence> = Vec::new();
    let mut terminal_occurrences: Vec<LatticeTerminalOccurrence> = Vec::new();
    proof {
        lemma_built_start(initial, all, nodes@);
        assert(arc_occurrences@ =~= Seq::<LatticeArcOccurrence>::empty());
        assert(terminal_occurrences@ =~= Seq::<LatticeTerminalOccurrence>::empty());
    }
    let mut s: usize = 0;
    while s < seeds.len()
        invariant
            s <= seeds@.len(),
            all == seeds@,
            initial == initial_context,
            !encoder_shape_invalid(encoder_len, frames, encoder_dim),
            first_seed_error(frames, blank_id, all, s as int) is None,
            built(initial, all, s as int, nodes@, arc_occurrences@, terminal_occurrences@),
        decreases seeds.len() - s,
    {
        let seed = seeds[s];
        match check_seed_shape(frames, blank_id, seed) {
            Ok(()) => {},
            Err(e) => {
                proof {
                    assert(first_seed_error(frames, blank_id, all, s + 1) == Some(e));
                    lemma_first_seed_error_stays(frames, blank_id, all, s + 1, all.len() as int);
                }
                return Err(e);
            },
        }
        let ghost tokens = seed.token_ids@;
        let ghost emissions = seed.emission_frames@;
        proof {
            lemma_building_begin(initial, all, s as int, nodes@, arc_occurrences@, terminal_occurrences@);
            lemma_state_after_zero(initial, tokens);
        }
        let mut context = initial_context;
        let mut source: usize = 0;
        let mut segment: usize = 0;
        let mut k: usize = 0;
        while k < seed.token_ids.len()
            invariant
                s < seeds@.len(),
                all == seeds@,
                seed == all[s as int],
                tokens == seed.token_ids@,
                emissions == seed.emission_frames@,
                initial == initial_context,
                !encoder_shape_invalid(encoder_len, frames, encoder_dim),
                first_seed_error(frames, blank_id, all, s as int) is None,
                tokens.len() == emissions.len(),
                !tokens.contains(blank_id),
                emission_frames_ok(frames, emissions),
                k <= tokens.len(),
                forall|j: int| 0 <= j < k ==> #[trigger] tokens[j] <= i64::MAX,
                source < nodes@.len(),
                nodes@[source as int].state == state_after(initial, tokens, k as int),
                context == state_after(initial, tokens, k as int).context,
                segment == segment_start(emissions, k as int),
                building(initial, all, s as int, seed, k as int, nodes@, arc_occurrences@, terminal_occurrences@),
            decreases tokens.len() - k,
        {
            let token_id = seed.token_ids[k];
            let emission_frame = seed.emission_frames[k];
            if token_id as u64 > 0x7FFF_FFFF_FFFF_FFFFu64 {
                proof {
                    assert(tokens[k as int] > i64::MAX);
                    assert(seed_error(frames, blank_id, seed) == Some(ApproximateLatticeError::TokenIdExceedsI64));
                    assert(first_seed_error(frames, blank_id, all, s + 1) == Some(
                        ApproximateLatticeError::TokenIdExceedsI64,
                    ));
                    lemma_first_seed_error_stays(frames, blank_id, all, s + 1, all.len() as int);
                }
                return Err(ApproximateLatticeError::TokenIdExceedsI64);
            }
            let destination_state = LatticeState {
                token_count: k + 1,
                context: [context[1], token_context_id(token_id)],
            };
            proof {
                lemma_state_after_step(initial, tokens, k as int);
            }
            let ghost n0 = nodes@;
            let ghost occurrences0 = arc_occurrences@;
            let destination = find_or_insert_lattice_node(&mut nodes, destination_state);
            let ghost n1 = nodes@;
            proof {
                assert(n1.len() == nodes.len());
            }
            let (arc, found) = match arc_position(&nodes[source].arcs, token_id, destination) {
                Some(a) => (a, true),
                None => {
                    let a = nodes[source].arcs.len();
                    nodes[source].arcs.push(LatticeArc { token_id, destination });
                    (a, false)
                },
            };
            proof {
                assert(emissions[k as int] < frames);
            }
            arc_occurrences.push(
                LatticeArcOccurrence { source, arc, segment_start: segment, emission_frame },
            );
            proof {
                lemma_building_step(
                    initial,
                    all,
                    s as int,
                    k as int,
                    n0,
                    occurrences0,
                    terminal_occurrences@,
                    source as int,
                    n1,
                    destination as int,
                    nodes@,
                    arc as int,
                    found,
                    arc_occurrences@,
                );
            }
            source = destination;
            context = destination_state.context;
            segment = emission_frame + 1;
            k = k + 1;
        }
        let ghost terminals0 = terminal_occurrences@;
        terminal_occurrences.push(LatticeTerminalOccurrence { node: source, segment_start: segment });
        proof {
            lemma_building_end(
                initial,
                all,
                s as int,
                nodes@,
                arc_occurrences@,
                terminals0,
                source as int,
                segment as int,
                terminal_occurrences@,
            );
            assert(!(exists|i: int| 0 <= i < tokens.len() && #[trigger] tokens[i] > i64::MAX));
            assert(seed_error(frames, blank_id, seed) is None);
        }
        s = s + 1;
    }
    let lattice = LatticeStructure { nodes, arc_occurrences, terminal_occurrences };
    proof {
        lemma_built_final(initial, all, lattice);
    }
    Ok(lattice)
}


/// The contexts of the first `n` nodes, in node order.
pub open spec fn node_contexts(nodes: Seq<LatticeNode>, n: int) -> Seq<[i64; 2]>
    decreases n,
{
    if n <= 0 {
        Seq::empty()
    } else {
        node_contexts(nodes, n - 1).push(nodes[n - 1].state.context)
    }
}

/// The arc tokens of those of the first `n` nodes whose context is `context`,
/// in node and arc order.
pub open spec fn context_arc_tokens(nodes: Seq<LatticeNode>, n: int, context: [i64; 2]) -> Seq<usize>
    decreases n,
{
    if n <= 0 {
        Seq::empty()
    } else {
        context_arc_tokens(nodes, n - 1, context) + if nodes[n - 1].state.context == context {
            arc_tokens(nodes[n - 1].arcs@)
        } else {
            Seq::empty()
        }
    }
}

/// The network requests that score a lattice: the distinct node contexts, the
/// tokens requested per context (blank first), and where each node and arc
/// finds its scores.
#[derive(Debug)]
pub struct LatticeRequestPlan {
    pub contexts: Vec<[i64; 2]>,
    pub requested_token_ids: Vec<Vec<usize>>,
    pub node_context_rows: Vec<usize>,
    pub arc_token_columns: Vec<Vec<usize>>,
}

/// The tokens requested of `context` once the nodes before `n` and the first
/// `a` arcs of node `n` are planned.
spec fn planned_reads(nodes: Seq<LatticeNode>, n: int, a: int, context: [i64; 2]) -> Seq<usize> {
    context_arc_tokens(nodes, n, context) + if nodes[n].state.context == context {
        arc_tokens(nodes[n].arcs@).take(a)
    } else {
        Seq::empty()
    }
}

/// The rows once the first `n` nodes are planned.
#[verifier::opaque]
spec fn rows_before(
    nodes: Seq<LatticeNode>,
    n: int,
    blank_id: usize,
    contexts: Seq<[i64; 2]>,
    requested: Seq<Vec<usize>>,
) -> bool {
    &&& contexts == first_occurrences(node_contexts(nodes, n))
    &&& rows_ok(contexts, requested, blank_id)
    &&& forall|r: int|
        0 <= r < contexts.len() ==> (#[trigger] requested[r])@ == first_occurrences(
            seq![blank_id] + context_arc_tokens(nodes, n, contexts[r]),
        )
}

/// The rows once the nodes before `n` and the first `a` arcs of node `n` are
/// planned.
#[verifier::opaque]
spec fn rows_within(
    nodes: Seq<LatticeNode>,
    n: int,
    a: int,
    blank_id: usize,
    contexts: Seq<[i64; 2]>,
    requested: Seq<Vec<usize>>,
) -> bool {
    &&& contexts == first_occurrences(node_contexts(nodes, n + 1))
    &&& rows_ok(contexts, requested, blank_id)
    &&& forall|r: int|
        0 <= r < contexts.len() ==> (#[trigger] requested[r])@ == first_occurrences(
            seq![blank_id] + planned_reads(nodes, n, a, contexts[r]),
        )
}

/// Each row of `old` is a prefix of the same row of `new`.
spec fn requests_extend(old: Seq<Vec<usize>>, new: Seq<Vec<usize>>) -> bool {
    &&& old.len() <= new.len()
    &&& forall|r: int|
        #![trigger new[r]]
        0 <= r < old.len() ==> old[r]@.len() <= new[r]@.len() && forall|c: int|
            0 <= c < old[r]@.len() ==> new[r]@[c] == old[r]@[c]
}

/// The first `m` nodes find their rows and columns.
spec fn columns_planned(
    nodes: Seq<LatticeNode>,
    m: int,
    contexts: Seq<[i64; 2]>,
    requested: Seq<Vec<usize>>,
    rows: Seq<usize>,
    columns: Seq<Vec<usize>>,
) -> bool {
    &&& rows.len() == m
    &&& columns.len() == m
    &&& forall|j: int|
        #![trigger rows[j]]
        0 <= j < m ==> {
            &&& rows[j] < contexts.len()
            &&& rows[j] < requested.len()
            &&& contexts[rows[j] as int] == nodes[j].state.context
            &&& columns[j]@.len() == nodes[j].arcs@.len()
            &&& forall|b: int|
                0 <= b < columns[j]@.len() ==> columns[j]@[b] < requested[rows[j] as int]@.len()
                    && requested[rows[j] as int]@[columns[j]@[b] as int] == nodes[j].arcs@[b].token_id
        }
}

proof fn lemma_columns_extend(
    nodes: Seq<LatticeNode>,
    m: int,
    contexts: Seq<[i64; 2]>,
    new_contexts: Seq<[i64; 2]>,
    requested: Seq<Vec<usize>>,
    new_requested: Seq<Vec<usize>>,
    rows: Seq<usize>,
    columns: Seq<Vec<usize>>,
)
    requires
        columns_planned(nodes, m, contexts, requested, rows, columns),
        requests_extend(requested, new_requested),
        contexts.len() <= new_contexts.len(),
        forall|r: int| 0 <= r < contexts.len() ==> new_contexts[r] == contexts[r],
    ensures
        columns_planned(nodes, m, new_contexts, new_requested, rows, columns),
{
    assert forall|j: int| 0 <= j < m implies {
        &&& (#[trigger] rows[j]) < new_contexts.len()
        &&& rows[j] < new_requested.len()
        &&& new_contexts[rows[j] as int] == nodes[j].state.context
        &&& columns[j]@.len() == nodes[j].arcs@.len()
        &&& forall|b: int|
            0 <= b < columns[j]@.len() ==> columns[j]@[b] < new_requested[rows[j] as int]@.len()
                && new_requested[rows[j] as int]@[columns[j]@[b] as int] == nodes[j].arcs@[b].token_id
    } by {
        let row = rows[j] as int;
        assert(new_requested[row]@.len() >= requested[row]@.len());
    }
}

proof fn lemma_context_arc_tokens_absent(nodes: Seq<LatticeNode>, n: int, context: [i64; 2])
    requires
        0 <= n <= nodes.len(),
        !node_contexts(nodes, n).contains(context),
    ensures
        context_arc_tokens(nodes, n, context) == Seq::<usize>::empty(),
    decreases n,
{
    if n > 0 {
        let before = node_contexts(nodes, n - 1);
        assert(!before.contains(context)) by {
            if before.contains(context) {
                let j = choose|j: int| 0 <= j < before.len() && #[trigger] before[j] == context;
                assert(node_contexts(nodes, n)[j] == context);
            }
        }
        lemma_node_contexts_len(nodes, n - 1);
        assert(node_contexts(nodes, n)[n - 1] == nodes[n - 1].state.context);
        assert(nodes[n - 1].state.context != context);
        lemma_context_arc_tokens_absent(nodes, n - 1, context);
        assert(context_arc_tokens(nodes, n, context) =~= Seq::<usize>::empty());
    }
}

proof fn lemma_node_contexts_len(nodes: Seq<LatticeNode>, n: int)
    requires
        0 <= n,
    ensures
        node_contexts(nodes, n).len() == n,
    decreases n,
{
    if n > 0 {
        lemma_node_contexts_len(nodes, n - 1);
    }
}

/// Planning node `n` begins by finding or appending its context's row.
proof fn lemma_rows_enter(
    nodes: Seq<LatticeNode>,
    n: int,
    blank_id: usize,
    contexts: Seq<[i64; 2]>,
    requested: Seq<Vec<usize>>,
    new_contexts: Seq<[i64; 2]>,
    new_requested: Seq<Vec<usize>>,
    row: int,
)
    requires
        0 <= n < nodes.len(),
        rows_before(nodes, n, blank_id, contexts, requested),
        rows_ok(new_contexts, new_requested, blank_id),
        0 <= row < new_contexts.len(),
        new_contexts[row] == nodes[n].state.context,
        contexts.contains(nodes[n].state.context) ==> new_contexts == contexts && new_requested == requested,
        !contexts.contains(nodes[n].state.context) ==> {
            &&& new_contexts == contexts.push(nodes[n].state.context)
            &&& new_requested.len() == requested.len() + 1
            &&& new_requested.drop_last() == requested
            &&& new_requested.last()@ == seq![blank_id]
        },
    ensures
        rows_within(nodes, n, 0, blank_id, new_contexts, new_requested),
        requests_extend(requested, new_requested),
        contexts.len() <= new_contexts.len(),
        forall|r: int| 0 <= r < contexts.len() ==> new_contexts[r] == contexts[r],
{
    reveal(rows_before);
    reveal(rows_within);
    let c = nodes[n].state.context;
    let before = node_contexts(nodes, n);
    assert(node_contexts(nodes, n + 1) == before.push(c));
    lemma_first_occurrences_push(before, c);
    lemma_first_occurrences(before);
    assert forall|r: int| 0 <= r < new_contexts.len() implies (#[trigger] new_requested[r])@
        == first_occurrences(seq![blank_id] + planned_reads(nodes, n, 0, new_contexts[r])) by {
        assert(planned_reads(nodes, n, 0, new_contexts[r]) =~= context_arc_tokens(nodes, n, new_contexts[r]));
        if r < contexts.len() {
            if !contexts.contains(c) {
                assert(new_requested.drop_last()[r] == new_requested[r]);
            }
        } else {
            assert(!before.contains(c));
            lemma_context_arc_tokens_absent(nodes, n, c);
            let one = seq![blank_id];
            assert(one + Seq::<usize>::empty() =~= one);
            assert(one.drop_last() =~= Seq::<usize>::empty());
            assert(first_occurrences(Seq::<usize>::empty()) =~= Seq::<usize>::empty());
            assert(!Seq::<usize>::empty().contains(blank_id));
            assert(first_occurrences(one) =~= one);
        }
    }
    assert(requests_extend(requested, new_requested)) by {
        if !contexts.contains(c) {
            assert forall|r: int| 0 <= r < requested.len() implies #[trigger] new_requested[r] == requested[r] by {
                assert(new_requested.drop_last()[r] == new_requested[r]);
            }
        }
    }
}

/// Planning arc `a` of node `n` finds or appends its token's column.
proof fn lemma_rows_arc(
    nodes: Seq<LatticeNode>,
    n: int,
    a: int,
    blank_id: usize,
    contexts: Seq<[i64; 2]>,
    requested: Seq<Vec<usize>>,
    new_requested: Seq<Vec<usize>>,
    row: int,
)
    requires
        0 <= n < nodes.len(),
        0 <= a < nodes[n].arcs@.len(),
        rows_within(nodes, n, a, blank_id, contexts, requested),
        0 <= row < contexts.len(),
        contexts[row] == nodes[n].state.context,
        rows_ok(contexts, new_requested, blank_id),
        new_requested.len() == requested.len(),
        forall|other: int|
            0 <= other < requested.len() && other != row ==> #[trigger] new_requested[other] == requested[other],
        requested[row]@.contains(nodes[n].arcs@[a].token_id) ==> new_requested[row]@ == requested[row]@,
        !requested[row]@.contains(nodes[n].arcs@[a].token_id) ==> new_requested[row]@ == requested[row]@.push(
            nodes[n].arcs@[a].token_id,
        ),
    ensures
        rows_within(nodes, n, a + 1, blank_id, contexts, new_requested),
        requests_extend(requested, new_requested),
{
    reveal(rows_within);
    let c = nodes[n].state.context;
    let t = nodes[n].arcs@[a].token_id;
    let tokens = arc_tokens(nodes[n].arcs@);
    assert(tokens.take(a + 1) =~= tokens.take(a).push(t));
    assert forall|r: int| 0 <= r < contexts.len() implies (#[trigger] new_requested[r])@ == first_occurrences(
        seq![blank_id] + planned_reads(nodes, n, a + 1, contexts[r]),
    ) by {
        if r == row {
            let base = seq![blank_id] + planned_reads(nodes, n, a, c);
            assert(seq![blank_id] + planned_reads(nodes, n, a + 1, c) =~= base.push(t));
            lemma_first_occurrences_push(base, t);
        } else {
            assert(contexts[r] != c) by {
                assert(no_duplicates(contexts));
            }
            assert(planned_reads(nodes, n, a + 1, contexts[r]) =~= planned_reads(nodes, n, a, contexts[r]));
        }
    }
}

/// Node `n` planned: its rows read as those of the first `n + 1` nodes.
proof fn lemma_rows_leave(
    nodes: Seq<LatticeNode>,
    n: int,
    blank_id: usize,
    contexts: Seq<[i64; 2]>,
    requested: Seq<Vec<usize>>,
)
    requires
        0 <= n < nodes.len(),
        rows_within(nodes, n, nodes[n].arcs@.len() as int, blank_id, contexts, requested),
    ensures
        rows_before(nodes, n + 1, blank_id, contexts, requested),
{
    reveal(rows_within);
    reveal(rows_before);
    let tokens = arc_tokens(nodes[n].arcs@);
    assert(tokens.take(nodes[n].arcs@.len() as int) =~= tokens);
    assert forall|r: int| 0 <= r < contexts.len() implies (#[trigger] requested[r])@ == first_occurrences(
        seq![blank_id] + context_arc_tokens(nodes, n + 1, contexts[r]),
    ) by {
        assert(planned_reads(nodes, n, nodes[n].arcs@.len() as int, contexts[r]) =~= context_arc_tokens(
            nodes,
            n + 1,
            contexts[r],
        ));
    }
}

proof fn lemma_rows_start(nodes: Seq<LatticeNode>, blank_id: usize)
    ensures
        rows_before(nodes, 0, blank_id, Seq::empty(), Seq::empty()),
{
    reveal(rows_before);
    assert(first_occurrences(node_contexts(nodes, 0)) =~= Seq::<[i64; 2]>::empty());
}

/// Plans the network requests of a lattice: every node context once, in node
/// order, and for each context blank and then every token read from one of
/// its nodes, in node and arc order.
pub fn plan_lattice_requests(nodes: &Vec<LatticeNode>, blank_id: usize) -> (r: LatticeRequestPlan)
    ensures
        r.contexts@ == first_occurrences(node_contexts(nodes@, nodes@.len() as int)),
        rows_ok(r.contexts@, r.requested_token_ids@, blank_id),
        forall|row: int|
            0 <= row < r.contexts@.len() ==> (#[trigger] r.requested_token_ids@[row])@ == first_occurrences(
                seq![blank_id] + context_arc_tokens(nodes@, nodes@.len() as int, r.contexts@[row]),
            ),
        r.node_context_rows@.len() == nodes@.len(),
        r.arc_token_columns@.len() == nodes@.len(),
        forall|n: int|
            0 <= n < nodes@.len() ==> {
                let row = #[trigger] r.node_context_rows@[n];
                &&& row < r.contexts@.len()
                &&& r.contexts@[row as int] == nodes@[n].state.context
                &&& r.arc_token_columns@[n]@.len() == nodes@[n].arcs@.len()
                &&& forall|a: int|
                    0 <= a < nodes@[n].arcs@.len() ==> {
                        let column = #[trigger] r.arc_token_columns@[n]@[a];
                        &&& column < r.requested_token_ids@[row as int]@.len()
                        &&& r.requested_token_ids@[row as int]@[column as int] == nodes@[n].arcs@[a].token_id
                    }
            },
{
    let mut contexts: Vec<[i64; 2]> = Vec::new();
    let mut requested: Vec<Vec<usize>> = Vec::new();
    let mut node_context_rows: Vec<usize> = Vec::new();
    let mut arc_token_columns: Vec<Vec<usize>> = Vec::new();
    proof {
        lemma_rows_start(nodes@, blank_id);
    }
    let mut n: usize = 0;
    while n < nodes.len()
        invariant
            n <= nodes@.len(),
            rows_before(nodes@, n as int, blank_id, contexts@, requested@),
            columns_planned(nodes@, n as int, contexts@, requested@, node_context_rows@, arc_token_columns@),
        decreases nodes.len() - n,
    {
        let ghost contexts0 = contexts@;
        let ghost requested0 = requested@;
        proof {
            reveal(rows_before);
        }
        let row = row_for(&mut contexts, &mut requested, nodes[n].state.context, blank_id);
        proof {
            lemma_rows_enter(nodes@, n as int, blank_id, contexts0, requested0, contexts@, requested@, row as int);
            lemma_columns_extend(
                nodes@,
                n as int,
                contexts0,
                contexts@,
                requested0,
                requested@,
                node_context_rows@,
                arc_token_columns@,
            );
        }
        let arcs = &nodes[n].arcs;
        let mut columns: Vec<usize> = Vec::new();
        let mut a: usize = 0;
        while a < arcs.len()
            invariant
                n < nodes@.len(),
                arcs == &nodes@[n as int].arcs,
                a <= arcs@.len(),
                row < contexts@.len(),
                contexts@[row as int] == nodes@[n as int].state.context,
                rows_within(nodes@, n as int, a as int, blank_id, contexts@, requested@),
                columns_planned(nodes@, n as int, contexts@, requested@, node_context_rows@, arc_token_columns@),
                columns@.len() == a,
                forall|b: int|
                    0 <= b < a ==> columns@[b] < requested@[row as int]@.len() && requested@[row as int]@[columns@[
                        b
                    ] as int] == arcs@[b].token_id,
            decreases arcs.len() - a,
        {
            let ghost requested1 = requested@;
            proof {
                reveal(rows_within);
            }
            let column = column_for(&mut requested, row, arcs[a].token_id, blank_id, Ghost(contexts@));
            proof {
                lemma_rows_arc(nodes@, n as int, a as int, blank_id, contexts@, requested1, requested@, row as int);
                lemma_columns_extend(
                    nodes@,
                    n as int,
                    contexts@,
                    contexts@,
                    requested1,
                    requested@,
                    node_context_rows@,
                    arc_token_columns@,
                );
                assert forall|b: int| 0 <= b < a implies requested@[row as int]@[columns@[b] as int]
                    == requested1[row as int]@[columns@[b] as int] by {}
            }
            columns.push(column);
            a = a + 1;
        }
        node_context_rows.push(row);
        arc_token_columns.push(columns);
        proof {
            lemma_rows_leave(nodes@, n as int, blank_id, contexts@, requested@);
            reveal(rows_before);
            assert forall|j: int| 0 <= j < n + 1 implies {
                &&& (#[trigger] node_context_rows@[j]) < contexts@.len()
                &&& node_context_rows@[j] < requested@.len()
                &&& contexts@[node_context_rows@[j] as int] == nodes@[j].state.context
                &&& arc_token_columns@[j]@.len() == nodes@[j].arcs@.len()
                &&& forall|b: int|
                    0 <= b < arc_token_columns@[j]@.len() ==> arc_token_columns@[j]@[b]
                        < requested@[node_context_rows@[j] as int]@.len()
                        && requested@[node_context_rows@[j] as int]@[arc_token_columns@[j]@[b] as int]
                        == nodes@[j].arcs@[b].token_id
            } by {
                if j < n {
                    assert(node_context_rows@[j] == node_context_rows@.drop_last()[j]);
                    assert(arc_token_columns@[j] == arc_token_columns@.drop_last()[j]);
                }
            }
        }
        n = n + 1;
    }
    proof {
        reveal(rows_before);
    }
    LatticeRequestPlan { contexts, requested_token_ids: requested, node_context_rows, arc_token_columns }
}

} // verus!
