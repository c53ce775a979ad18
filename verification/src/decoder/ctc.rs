//! The integer side of CTC decoding: the tensor-shape checks, the collapse of
//! per-frame labels into emitted tokens, and the token texts of a path.
use vstd::prelude::*;
use crate::text::{chars_of, string_of};

verus! {

/// How a CTC log-probability tensor is decoded.
#[derive(Debug, Clone, Copy, PartialEq, Eq, Structural)]
pub enum CtcDecodingStrategy {
    Greedy,
    BatchedBeam { beam_size: usize },
}

/// Why a CTC log-probability tensor cannot be decoded.
#[derive(Debug, Clone, Copy, PartialEq, Eq, Structural)]
pub enum CtcLogitsError {
    EmptyVocabulary,
    /// The blank id is not below the vocabulary size.
    BlankOutOfRange,
    /// `num_frames * vocab_size` does not fit in `usize`.
    ShapeOverflow,
    /// The tensor is not `num_frames` rows of `vocab_size` values.
    LengthMismatch,
}

impl CtcLogitsError {
    pub fn message(self) -> (r: &'static str)
        ensures
            r@ == match self {
                CtcLogitsError::EmptyVocabulary => "CTC vocabulary must not be empty"@,
                CtcLogitsError::BlankOutOfRange => "CTC blank id is outside the vocabulary"@,
                CtcLogitsError::ShapeOverflow => "CTC logit shape overflow"@,
                CtcLogitsError::LengthMismatch => "CTC logit length does not match the frames and vocabulary"@,
            },
    {
        match self {
            CtcLogitsError::EmptyVocabulary => "CTC vocabulary must not be empty",
            CtcLogitsError::BlankOutOfRange => "CTC blank id is outside the vocabulary",
            CtcLogitsError::ShapeOverflow => "CTC logit shape overflow",
            CtcLogitsError::LengthMismatch => "CTC logit length does not match the frames and vocabulary",
        }
    }
}

/// What is wrong with a tensor of `len` values, checked in this order.
pub open spec fn ctc_logits_error(len: usize, num_frames: usize, vocab_size: usize, blank_id: usize) -> Option<
    CtcLogitsError,
> {
    if vocab_size == 0 {
        Some(CtcLogitsError::EmptyVocabulary)
    } else if blank_id >= vocab_size {
        Some(CtcLogitsError::BlankOutOfRange)
    } else if num_frames * vocab_size > usize::MAX {
        Some(CtcLogitsError::ShapeOverflow)
    } else if len != num_frames * vocab_size {
        Some(CtcLogitsError::LengthMismatch)
    } else {
        None
    }
}

/// Checks that `len` log-probabilities form `num_frames` rows of a vocabulary
/// of `vocab_size` tokens holding blank.
pub fn validate_ctc_logits(len: usize, num_frames: usize, vocab_size: usize, blank_id: usize) -> (r: Result<
    (),
    CtcLogitsError,
>)
    ensures
        r == match ctc_logits_error(len, num_frames, vocab_size, blank_id) {
            Some(e) => Err(e),
            None => Ok(()),
        },
{
    if vocab_size == 0 {
        return Err(CtcLogitsError::EmptyVocabulary);
    }
    if blank_id >= vocab_size {
        return Err(CtcLogitsError::BlankOutOfRange);
    }
    let expected = match num_frames.checked_mul(vocab_size) {
        Some(product) => product,
        None => {
            return Err(CtcLogitsError::ShapeOverflow);
        },
    };
    if len != expected {
        return Err(CtcLogitsError::LengthMismatch);
    }
    Ok(())
}

/// The tokens a CTC path emits when frame `f` reads `labels[f]`: a label is
/// emitted at the first frame of each run of it, unless it is blank.
pub open spec fn ctc_emissions(labels: Seq<usize>, blank_id: usize, count: int) -> Seq<(usize, usize)>
    decreases count,
{
    if count <= 0 {
        Seq::empty()
    } else {
        let earlier = ctc_emissions(labels, blank_id, count - 1);
        let label = labels[count - 1];
        let previous = if count - 1 == 0 {
            blank_id
        } else {
            labels[count - 2]
        };
        if label != blank_id && label != previous {
            earlier.push((label, (count - 1) as usize))
        } else {
            earlier
        }
    }
}

/// Emitted tokens and the frames that emitted them.
#[derive(Debug, Clone, PartialEq, Eq)]
pub struct CtcCollapsed {
    pub token_ids: Vec<usize>,
    pub frame_indices: Vec<usize>,
}

/// Collapses per-frame labels: repeated labels merge and blanks vanish.
pub fn collapse_ctc_labels(labels: &[usize], blank_id: usize) -> (r: CtcCollapsed)
    ensures
        r.token_ids@.len() == r.frame_indices@.len(),
        r.token_ids@.len() == ctc_emissions(labels@, blank_id, labels@.len() as int).len(),
        forall|i: int|
            0 <= i < r.token_ids@.len() ==> (r.token_ids@[i], r.frame_indices@[i]) == #[trigger] ctc_emissions(
                labels@,
                blank_id,
                labels@.len() as int,
            )[i],
{
    let mut token_ids: Vec<usize> = Vec::new();
    let mut frame_indices: Vec<usize> = Vec::new();
    let mut previous = blank_id;
    let mut frame: usize = 0;
    while frame < labels.len()
        invariant
            frame <= labels@.len(),
            token_ids@.len() == frame_indices@.len(),
            token_ids@.len() == ctc_emissions(labels@, blank_id, frame as int).len(),
            forall|i: int|
                0 <= i < token_ids@.len() ==> (token_ids@[i], frame_indices@[i]) == #[trigger] ctc_emissions(
                    labels@,
                    blank_id,
                    frame as int,
                )[i],
            previous == if frame == 0 {
                blank_id
            } else {
                labels@[frame - 1]
            },
        decreases labels.len() - frame,
    {
        let label = labels[frame];
        if label != blank_id && label != previous {
            token_ids.push(label);
            frame_indices.push(frame);
        }
        proof {
            let before = ctc_emissions(labels@, blank_id, frame as int);
            let after = ctc_emissions(labels@, blank_id, frame + 1);
            assert forall|i: int| 0 <= i < token_ids@.len() implies (token_ids@[i], frame_indices@[i])
                == #[trigger] after[i] by {
                if i < before.len() {
                    assert(after[i] == before[i]);
                }
            }
        }
        previous = label;
        frame = frame + 1;
    }
    CtcCollapsed { token_ids, frame_indices }
}

/// Every emitted token is a label other than blank, and the emitting frames
/// strictly increase.
pub proof fn lemma_ctc_emissions_shape(labels: Seq<usize>, blank_id: usize, count: int)
    requires
        0 <= count <= labels.len(),
        labels.len() <= usize::MAX,
    ensures
        forall|i: int|
            0 <= i < ctc_emissions(labels, blank_id, count).len() ==> {
                let (token, frame) = #[trigger] ctc_emissions(labels, blank_id, count)[i];
                &&& token != blank_id
                &&& frame < count
                &&& labels[frame as int] == token
            },
        forall|i: int, j: int|
            0 <= i < j < ctc_emissions(labels, blank_id, count).len() ==> (#[trigger] ctc_emissions(
                labels,
                blank_id,
                count,
            )[i]).1 < (#[trigger] ctc_emissions(labels, blank_id, count)[j]).1,
    decreases count,
{
    if count > 0 {
        lemma_ctc_emissions_shape(labels, blank_id, count - 1);
        let earlier = ctc_emissions(labels, blank_id, count - 1);
        let all = ctc_emissions(labels, blank_id, count);
        assert forall|i: int| 0 <= i < all.len() implies {
            let (token, frame) = #[trigger] all[i];
            &&& token != blank_id
            &&& frame < count
            &&& labels[frame as int] == token
        } by {
            if i < earlier.len() {
                assert(all[i] == earlier[i]);
            }
        }
        assert forall|i: int, j: int| 0 <= i < j < all.len() implies (#[trigger] all[i]).1 < (
        #[trigger] all[j]).1 by {
            if j < earlier.len() {
                assert(all[i] == earlier[i] && all[j] == earlier[j]);
            } else {
                assert(all[i] == earlier[i]);
            }
        }
    }
}

/// A token's text with the word-boundary marker `▁` read as a space.
pub open spec fn ctc_token_text(raw: Seq<char>) -> Seq<char> {
    raw.map_values(|c: char| if c == '\u{2581}' {
        ' '
    } else {
        c
    })
}

/// The texts of the tokens of a path, or the first token id outside `tokens`.
pub fn ctc_token_texts(token_ids: &[usize], tokens: &[String]) -> (r: Result<Vec<String>, usize>)
    ensures
        match r {
            Ok(texts) => {
                &&& forall|i: int| 0 <= i < token_ids@.len() ==> #[trigger] token_ids@[i] < tokens@.len()
                &&& texts@.len() == token_ids@.len()
                &&& forall|i: int|
                    0 <= i < texts@.len() ==> (#[trigger] texts@[i])@ == ctc_token_text(
                        tokens@[token_ids@[i] as int]@,
                    )
            },
            Err(token_id) => exists|i: int|
                0 <= i < token_ids@.len() && token_ids@[i] == token_id && token_id >= tokens@.len() && forall|
                    j: int,
                | 0 <= j < i ==> #[trigger] token_ids@[j] < tokens@.len(),
        },
{
    let mut texts: Vec<String> = Vec::new();
    let mut i: usize = 0;
    while i < token_ids.len()
        invariant
            i <= token_ids@.len(),
            texts@.len() == i,
            forall|j: int| 0 <= j < i ==> #[trigger] token_ids@[j] < tokens@.len(),
            forall|j: int|
                0 <= j < i ==> (#[trigger] texts@[j])@ == ctc_token_text(tokens@[token_ids@[j] as int]@),
        decreases token_ids.len() - i,
    {
        let token_id = token_ids[i];
        if token_id >= tokens.len() {
            proof {
                assert(token_ids@[i as int] == token_id);
            }
            return Err(token_id);
        }
        let raw = chars_of(tokens[token_id].as_str());
        let mut spelled: Vec<char> = Vec::new();
        let mut k: usize = 0;
        while k < raw.len()
            invariant
                k <= raw@.len(),
                spelled@ == ctc_token_text(raw@.take(k as int)),
            decreases raw.len() - k,
        {
            let c = raw[k];
            spelled.push(if c == '\u{2581}' {
                ' '
            } else {
                c
            });
            proof {
                assert(raw@.take(k + 1) == raw@.take(k as int).push(c));
                assert(ctc_token_text(raw@.take(k + 1)) =~= ctc_token_text(raw@.take(k as int)).push(
                    if c == '\u{2581}' {
                        ' '
                    } else {
                        c
                    },
                ));
            }
            k = k + 1;
        }
        proof {
            assert(raw@.take(raw@.len() as int) =~= raw@);
        }
        texts.push(string_of(&spelled));
        i = i + 1;
    }
    Ok(texts)
}

/// Why a keyword cannot be scored against CTC posteriors.
#[derive(Debug, Clone, Copy, PartialEq, Eq, Structural)]
pub enum CtcKeywordError {
    /// The posteriors are not `frames` (at least one) rows of a vocabulary
    /// holding blank.
    PosteriorShape,
    /// The keyword is empty, or holds blank or a token outside the vocabulary.
    KeywordTokens,
    ZeroGap,
    /// A posterior value is not finite.
    NonFinite,
}

impl CtcKeywordError {
    pub fn message(self) -> (r: &'static str)
        ensures
            r@ == match self {
                CtcKeywordError::PosteriorShape => "invalid CTC keyword posterior shape"@,
                CtcKeywordError::KeywordTokens => "CTC keyword tokens must be non-empty, in-vocabulary, and non-blank"@,
                CtcKeywordError::ZeroGap => "CTC keyword max frame gap must be positive"@,
                CtcKeywordError::NonFinite => "CTC keyword posterior contains a non-finite value"@,
            },
    {
        match self {
            CtcKeywordError::PosteriorShape => "invalid CTC keyword posterior shape",
            CtcKeywordError::KeywordTokens => "CTC keyword tokens must be non-empty, in-vocabulary, and non-blank",
            CtcKeywordError::ZeroGap => "CTC keyword max frame gap must be positive",
            CtcKeywordError::NonFinite => "CTC keyword posterior contains a non-finite value",
        }
    }
}

/// Whether a keyword is non-empty and every token is an emitting vocabulary token.
pub open spec fn keyword_tokens_ok(token_ids: Seq<usize>, vocab_size: usize, blank_id: usize) -> bool {
    token_ids.len() > 0 && forall|i: int|
        0 <= i < token_ids.len() ==> #[trigger] token_ids[i] < vocab_size && token_ids[i] != blank_id
}

/// What keeps a keyword from being scored, checked in this order; `finite`
/// tells whether every posterior value is finite.
pub open spec fn ctc_keyword_error(
    len: usize,
    frames: usize,
    vocab_size: usize,
    blank_id: usize,
    token_ids: Seq<usize>,
    max_gap_frames: usize,
    finite: bool,
) -> Option<CtcKeywordError> {
    if frames == 0 || vocab_size == 0 || blank_id >= vocab_size || len != frames * vocab_size {
        Some(CtcKeywordError::PosteriorShape)
    } else if !keyword_tokens_ok(token_ids, vocab_size, blank_id) {
        Some(CtcKeywordError::KeywordTokens)
    } else if max_gap_frames == 0 {
        Some(CtcKeywordError::ZeroGap)
    } else if !finite {
        Some(CtcKeywordError::NonFinite)
    } else {
        None
    }
}

/// Checks a keyword scoring request.
pub fn validate_ctc_keyword_request(
    len: usize,
    frames: usize,
    vocab_size: usize,
    blank_id: usize,
    token_ids: &[usize],
    max_gap_frames: usize,
    finite: bool,
) -> (r: Result<(), CtcKeywordError>)
    ensures
        r == match ctc_keyword_error(len, frames, vocab_size, blank_id, token_ids@, max_gap_frames, finite) {
            Some(e) => Err(e),
            None => Ok(()),
        },
{
    let shape_ok = match frames.checked_mul(vocab_size) {
        Some(product) => product == len,
        None => false,
    };
    if frames == 0 || vocab_size == 0 || blank_id >= vocab_size || !shape_ok {
        return Err(CtcKeywordError::PosteriorShape);
    }
    if token_ids.len() == 0 {
        return Err(CtcKeywordError::KeywordTokens);
    }
    let mut i: usize = 0;
    while i < token_ids.len()
        invariant
            i <= token_ids@.len(),
            token_ids@.len() > 0,
            frames != 0 && vocab_size != 0 && blank_id < vocab_size && len == frames * vocab_size,
            forall|j: int| 0 <= j < i ==> #[trigger] token_ids@[j] < vocab_size && token_ids@[j] != blank_id,
        decreases token_ids.len() - i,
    {
        if token_ids[i] >= vocab_size || token_ids[i] == blank_id {
            proof {
                assert(!(token_ids@[i as int] < vocab_size && token_ids@[i as int] != blank_id));
            }
            return Err(CtcKeywordError::KeywordTokens);
        }
        i = i + 1;
    }
    if max_gap_frames == 0 {
        return Err(CtcKeywordError::ZeroGap);
    }
    if !finite {
        return Err(CtcKeywordError::NonFinite);
    }
    Ok(())
}

/// The frames from which a keyword token at `frame` may follow the previous
/// token: at most `max_gap_frames` back, and at least two back when the
/// token repeats (a blank must separate the two). Nothing when no frame
/// qualifies.
pub fn keyword_predecessor_frames(frame: usize, repeated: bool, max_gap_frames: usize) -> (r: Option<
    (usize, usize),
>)
    ensures
        ({
            let step: int = if repeated {
                2
            } else {
                1
            };
            let earliest: int = if frame >= max_gap_frames {
                frame - max_gap_frames
            } else {
                0
            };
            r == if frame < step || earliest > frame - step {
                None::<(usize, usize)>
            } else {
                Some((earliest as usize, (frame - step) as usize))
            }
        }),
{
    let step: usize = if repeated {
        2
    } else {
        1
    };
    if frame < step {
        return None;
    }
    let latest = frame - step;
    let earliest = frame.saturating_sub(max_gap_frames);
    if earliest > latest {
        return None;
    }
    Some((earliest, latest))
}


/// Why a CTC decoding strategy is refused.
#[derive(Debug, Clone, Copy, PartialEq, Eq, Structural)]
pub enum CtcStrategyError {
    /// A beam search asked for width zero.
    ZeroBeamSize,
}

impl CtcStrategyError {
    pub fn message(self) -> (r: &'static str)
        ensures
            r@ == "CTC beam size must be greater than zero"@,
    {
        "CTC beam size must be greater than zero"
    }
}

/// Checks a decoding strategy: a beam needs at least one hypothesis.
pub fn validate_ctc_strategy(strategy: CtcDecodingStrategy) -> (r: Result<(), CtcStrategyError>)
    ensures
        r == if strategy matches CtcDecodingStrategy::BatchedBeam { beam_size } && beam_size == 0 {
            Err::<(), CtcStrategyError>(CtcStrategyError::ZeroBeamSize)
        } else {
            Ok(())
        },
{
    match strategy {
        CtcDecodingStrategy::BatchedBeam { beam_size } => if beam_size == 0 {
            Err(CtcStrategyError::ZeroBeamSize)
        } else {
            Ok(())
        },
        CtcDecodingStrategy::Greedy => Ok(()),
    }
}

/// The emitted tokens and frames of a beam prefix after it reads `label` at
/// `frame`, when it last read `last_label`: a label extends the prefix
/// unless it is blank or repeats the last label.
pub fn extend_ctc_prefix(
    token_ids: &Vec<usize>,
    frame_indices: &Vec<usize>,
    last_label: usize,
    label: usize,
    frame: usize,
    blank_id: usize,
) -> (r: (Vec<usize>, Vec<usize>))
    ensures
        r.0@ == if label != blank_id && label != last_label {
            token_ids@.push(label)
        } else {
            token_ids@
        },
        r.1@ == if label != blank_id && label != last_label {
            frame_indices@.push(frame)
        } else {
            frame_indices@
        },
{
    let mut tokens = token_ids.clone();
    let mut frames = frame_indices.clone();
    proof {
        assert(tokens@ == token_ids@);
        assert(frames@ == frame_indices@);
    }
    if label != blank_id && label != last_label {
        tokens.push(label);
        frames.push(frame);
    }
    (tokens, frames)
}

} // verus!
