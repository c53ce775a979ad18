//! The control of greedy TDT decoding: which frame is read next, how many
//! symbols a frame may emit, and what each prediction emits.
use vstd::prelude::*;

verus! {

/// Consecutive predictions read at one frame before the frame is forced on.
pub const NVIDIA_GREEDY_MAX_SYMBOLS_PER_STEP: usize = 10;

/// Number of duration classes; class `i` advances `i` frames.
pub const TDT_DURATION_COUNT: usize = 5;

/// Why an encoder output cannot be decoded.
#[derive(Debug, Clone, Copy, PartialEq, Eq, Structural)]
pub enum TdtEncoderError {
    /// Not `frames` (at least one) rows of a nonzero width.
    Shape,
    /// A value is not finite.
    NonFinite,
}

impl TdtEncoderError {
    pub fn message(self) -> (r: &'static str)
        ensures
            r@ == match self {
                TdtEncoderError::Shape => "invalid TDT encoder shape"@,
                TdtEncoderError::NonFinite => "TDT encoder contains a non-finite value"@,
            },
    {
        match self {
            TdtEncoderError::Shape => "invalid TDT encoder shape",
            TdtEncoderError::NonFinite => "TDT encoder contains a non-finite value",
        }
    }
}

/// Checks an encoder output of `encoder_len` values; `finite` tells whether
/// every value is finite.
pub fn validate_tdt_encoder(encoder_len: usize, frames: usize, encoder_dim: usize, finite: bool) -> (r: Result<
    (),
    TdtEncoderError,
>)
    ensures
        r == if frames == 0 || encoder_dim == 0 || encoder_len != frames * encoder_dim {
            Err::<(), TdtEncoderError>(TdtEncoderError::Shape)
        } else if !finite {
            Err(TdtEncoderError::NonFinite)
        } else {
            Ok(())
        },
{
    let shape_ok = match frames.checked_mul(encoder_dim) {
        Some(product) => product == encoder_len,
        None => false,
    };
    if frames == 0 || encoder_dim == 0 || !shape_ok {
        return Err(TdtEncoderError::Shape);
    }
    if !finite {
        return Err(TdtEncoderError::NonFinite);
    }
    Ok(())
}

/// Where greedy decoding stands: the frame read next and the predictions
/// already made at it.
#[derive(Debug, Clone, Copy, PartialEq, Eq, Structural)]
pub struct GreedyTdtCursor {
    pub time: usize,
    pub symbols_added: usize,
}

/// A token emitted at frame `timestamp` with the predicted `duration`.
#[derive(Debug, Clone, Copy, PartialEq, Eq, Structural)]
pub struct GreedyTdtEmission {
    pub token_id: usize,
    pub timestamp: usize,
    pub duration: usize,
}

/// The outcome of one greedy prediction.
#[derive(Debug, Clone, Copy, PartialEq, Eq, Structural)]
pub struct GreedyTdtStep {
    pub cursor: GreedyTdtCursor,
    pub emission: Option<GreedyTdtEmission>,
}

/// The cursor greedy decoding starts from.
pub fn greedy_tdt_start() -> (r: GreedyTdtCursor)
    ensures
        r == (GreedyTdtCursor { time: 0, symbols_added: 0 }),
{
    GreedyTdtCursor { time: 0, symbols_added: 0 }
}

/// Applies the most likely `token` and duration `skip` predicted at `cursor`:
/// a non-blank token is emitted at the current frame; a nonzero duration
/// moves on that many frames; the last allowed duration-0 prediction at a
/// frame moves on one frame; otherwise the same frame is read again.
pub fn greedy_tdt_step(cursor: GreedyTdtCursor, token: usize, skip: usize, blank_id: usize) -> (r: GreedyTdtStep)
    requires
        cursor.symbols_added < NVIDIA_GREEDY_MAX_SYMBOLS_PER_STEP,
        cursor.time + skip + 1 <= usize::MAX,
    ensures
        r.emission == if token != blank_id {
            Some(GreedyTdtEmission { token_id: token, timestamp: cursor.time, duration: skip })
        } else {
            None::<GreedyTdtEmission>
        },
        r.cursor == if skip != 0 {
            GreedyTdtCursor { time: (cursor.time + skip) as usize, symbols_added: 0 }
        } else if cursor.symbols_added + 1 == NVIDIA_GREEDY_MAX_SYMBOLS_PER_STEP {
            GreedyTdtCursor { time: (cursor.time + 1) as usize, symbols_added: 0 }
        } else {
            GreedyTdtCursor { time: cursor.time, symbols_added: (cursor.symbols_added + 1) as usize }
        },
        r.cursor.symbols_added < NVIDIA_GREEDY_MAX_SYMBOLS_PER_STEP,
        r.cursor.time > cursor.time || (r.cursor.time == cursor.time && r.cursor.symbols_added
            == cursor.symbols_added + 1),
{
    let emission = if token != blank_id {
        Some(GreedyTdtEmission { token_id: token, timestamp: cursor.time, duration: skip })
    } else {
        None
    };
    let symbols_added = cursor.symbols_added + 1;
    let next = if skip != 0 {
        GreedyTdtCursor { time: cursor.time + skip, symbols_added: 0 }
    } else if symbols_added == NVIDIA_GREEDY_MAX_SYMBOLS_PER_STEP {
        GreedyTdtCursor { time: cursor.time + 1, symbols_added: 0 }
    } else {
        GreedyTdtCursor { time: cursor.time, symbols_added }
    };
    GreedyTdtStep { cursor: next, emission }
}

/// How far greedy decoding is from its end: at most this many more
/// predictions are made before the cursor passes `frames`.
pub open spec fn greedy_tdt_remaining(cursor: GreedyTdtCursor, frames: usize) -> int {
    if cursor.time >= frames {
        0
    } else {
        (frames - cursor.time) * NVIDIA_GREEDY_MAX_SYMBOLS_PER_STEP - cursor.symbols_added
    }
}

/// Greedy decoding ends: every prediction made before the last frame is
/// passed brings the end closer.
pub proof fn lemma_greedy_tdt_progress(cursor: GreedyTdtCursor, next: GreedyTdtCursor, frames: usize)
    requires
        cursor.time < frames,
        cursor.symbols_added < NVIDIA_GREEDY_MAX_SYMBOLS_PER_STEP,
        next.symbols_added < NVIDIA_GREEDY_MAX_SYMBOLS_PER_STEP,
        next.time > cursor.time || (next.time == cursor.time && next.symbols_added == cursor.symbols_added + 1),
    ensures
        0 <= greedy_tdt_remaining(next, frames) < greedy_tdt_remaining(cursor, frames),
{
    let m = NVIDIA_GREEDY_MAX_SYMBOLS_PER_STEP as int;
    if next.time < frames {
        if next.time > cursor.time {
            assert((frames - next.time) * m <= (frames - cursor.time - 1) * m) by (nonlinear_arith)
                requires
                    frames - next.time <= frames - cursor.time - 1,
                    m >= 0,
            ;
        }
        assert((frames - next.time) * m >= m) by (nonlinear_arith)
            requires
                frames - next.time >= 1,
                m >= 0,
        ;
    }
    assert((frames - cursor.time) * m >= m) by (nonlinear_arith)
        requires
            frames - cursor.time >= 1,
            m >= 0,
    ;
}

} // verus!
