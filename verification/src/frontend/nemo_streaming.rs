//! Sample bookkeeping of the NeMo streaming front end.
use vstd::prelude::*;
use crate::engine::AsrSpeechRangeSamples;
use crate::frontend::kaldi::spec_reflect;

verus! {

/// Samples needed to extend `len` to a whole number of chunks.
pub fn alignment_padding_samples(len: usize, chunk_samples: usize) -> (r: usize)
    requires
        chunk_samples > 0,
    ensures
        r == (if len % chunk_samples == 0 { 0 } else { chunk_samples - len % chunk_samples }),
        r < chunk_samples,
        (len + r) % (chunk_samples as int) == 0,
{
    let remainder = len % chunk_samples;
    proof {
        let c = chunk_samples as int;
        let q = len as int / c;
        vstd::arithmetic::div_mod::lemma_fundamental_div_mod(len as int, c);
        if remainder != 0 {
            assert(len as int + (c - remainder) == (q + 1) * c) by (nonlinear_arith)
                requires
                    len as int == q * c + remainder,
            ;
            vstd::arithmetic::div_mod::lemma_mod_multiples_basic(q + 1, c);
        }
    }
    if remainder == 0 {
        0
    } else {
        chunk_samples - remainder
    }
}

/// Mirror-reflected sample index used when a streaming window reaches past
/// the audio it has.
pub fn reflect_index(index: isize, sample_count: usize) -> (r: usize)
    requires
        0 < sample_count <= isize::MAX,
    ensures
        r < sample_count,
        r as int == spec_reflect(index as int, sample_count as int),
{
    crate::frontend::kaldi::reflect_index(index, sample_count)
}


/// Samples that round `len` up to whole chunks of `chunk` samples.
pub open spec fn spec_alignment(len: int, chunk: int) -> int {
    if len % chunk == 0 {
        0
    } else {
        chunk - len % chunk
    }
}

/// How the first PCM delta of a stream is prepared for the model: samples
/// from `copy_start` on are kept, `leading_padding_samples` of silence go in
/// front of them, the first `fade_samples` kept samples fade in, and
/// `trailing_padding_samples` of silence round the result up to whole chunks.
#[derive(Debug, Clone, Copy, PartialEq, Eq, Structural)]
pub struct StreamBootstrap {
    pub copy_start: usize,
    pub leading_padding_samples: usize,
    pub fade_samples: usize,
    pub trailing_padding_samples: usize,
}

/// The bootstrap of a first delta of `sample_count` samples with a known
/// speech range: enough audio before the speech for the fade and for the
/// speech to end on a chunk boundary, borrowed from the delta when it has
/// it and made of silence when it does not.
pub open spec fn spec_stream_bootstrap(
    sample_count: int,
    speech_range: AsrSpeechRangeSamples,
    fade_samples: int,
    chunk: int,
) -> StreamBootstrap {
    let speech_start = if speech_range.start < sample_count {
        speech_range.start as int
    } else {
        sample_count
    };
    let speech_end = if speech_range.end < speech_start {
        speech_start
    } else if speech_range.end > sample_count {
        sample_count
    } else {
        speech_range.end as int
    };
    let speech_len = speech_end - speech_start;
    let fade = if fade_samples < sample_count {
        fade_samples
    } else {
        sample_count
    };
    let faded_speech = if fade + speech_len > usize::MAX {
        usize::MAX as int
    } else {
        fade + speech_len
    };
    let required_prefix = fade + spec_alignment(faded_speech, chunk);
    let copy_start = if speech_start >= required_prefix {
        speech_start - required_prefix
    } else {
        0
    };
    let leading = if speech_start >= required_prefix {
        0
    } else {
        required_prefix - speech_start
    };
    let output_len = leading + (sample_count - copy_start);
    StreamBootstrap {
        copy_start: copy_start as usize,
        leading_padding_samples: leading as usize,
        fade_samples: fade as usize,
        trailing_padding_samples: spec_alignment(output_len, chunk) as usize,
    }
}

/// Plans the bootstrap of a stream's first delta around its speech range.
pub fn stream_bootstrap(
    sample_count: usize,
    speech_range: AsrSpeechRangeSamples,
    fade_samples: usize,
    chunk_samples: usize,
) -> (r: StreamBootstrap)
    requires
        chunk_samples > 0,
        2 * sample_count + 2 * chunk_samples <= usize::MAX,
    ensures
        r == spec_stream_bootstrap(sample_count as int, speech_range, fade_samples as int, chunk_samples as int),
        r.copy_start <= sample_count,
        r.fade_samples <= sample_count,
        r.trailing_padding_samples < chunk_samples,
        (r.leading_padding_samples + (sample_count - r.copy_start) + r.trailing_padding_samples) % (
        chunk_samples as int) == 0,
{
    let speech_start = if speech_range.start < sample_count {
        speech_range.start
    } else {
        sample_count
    };
    let speech_end = if speech_range.end < speech_start {
        speech_start
    } else if speech_range.end > sample_count {
        sample_count
    } else {
        speech_range.end
    };
    let speech_len = speech_end - speech_start;
    let fade = if fade_samples < sample_count {
        fade_samples
    } else {
        sample_count
    };
    let faded_speech = fade.saturating_add(speech_len);
    let required_prefix = fade + alignment_padding_samples(faded_speech, chunk_samples);
    let (copy_start, leading) = if speech_start >= required_prefix {
        (speech_start - required_prefix, 0)
    } else {
        (0, required_prefix - speech_start)
    };
    let output_len = leading + (sample_count - copy_start);
    let trailing = alignment_padding_samples(output_len, chunk_samples);
    StreamBootstrap {
        copy_start,
        leading_padding_samples: leading,
        fade_samples: fade,
        trailing_padding_samples: trailing,
    }
}

/// Whole 400-sample windows, read every 160 samples from 120 samples before
/// the start, that `sample_count` samples complete.
pub fn complete_feature_frames(sample_count: usize) -> (r: usize)
    ensures
        r == if sample_count < 280 {
            0
        } else {
            1 + (sample_count - 280) / 160
        },
{
    if sample_count < 280 {
        0
    } else {
        1 + (sample_count - 280) / 160
    }
}

/// The first frames of the feature windows that are ready, and where the next
/// window will start.
#[derive(Debug, Clone, PartialEq, Eq)]
pub struct StreamWindowSchedule {
    pub starts: Vec<usize>,
    pub processed_frames: usize,
}

/// Schedules every window of `window_frames` features that `feature_frames`
/// features make ready, from `processed_frames` on in steps of `shift_frames`;
/// a window is ready once a feature frame exists past its end.
pub fn schedule_stream_windows(
    processed_frames: usize,
    window_frames: usize,
    shift_frames: usize,
    feature_frames: usize,
) -> (r: StreamWindowSchedule)
    requires
        window_frames > shift_frames > 0,
    ensures
        forall|j: int|
            0 <= j < r.starts@.len() ==> #[trigger] r.starts@[j] == processed_frames + j * shift_frames
                && r.starts@[j] + window_frames < feature_frames,
        r.processed_frames == processed_frames + r.starts@.len() * shift_frames,
        r.processed_frames + window_frames >= feature_frames,
{
    let mut starts: Vec<usize> = Vec::new();
    let mut processed = processed_frames;
    proof {
        assert(starts@.len() == 0);
        assert(starts@.len() * shift_frames == 0) by (nonlinear_arith)
            requires
                starts@.len() == 0,
        ;
    }
    while processed < feature_frames && feature_frames - processed > window_frames
        invariant
            window_frames > shift_frames > 0,
            processed == processed_frames + starts@.len() * shift_frames,
            forall|j: int|
                0 <= j < starts@.len() ==> #[trigger] starts@[j] == processed_frames + j * shift_frames
                    && starts@[j] + window_frames < feature_frames,
        decreases feature_frames - processed,
    {
        starts.push(processed);
        proof {
            assert(processed_frames + (starts@.len() - 1) * shift_frames + shift_frames == processed_frames
                + starts@.len() * shift_frames) by (nonlinear_arith);
        }
        processed = processed + shift_frames;
    }
    StreamWindowSchedule { starts, processed_frames: processed }
}

/// `value` capped at `usize::MAX`.
pub open spec fn saturated(value: int) -> int {
    if value > usize::MAX {
        usize::MAX as int
    } else {
        value
    }
}

/// The silence that completes the final window when a stream finishes: the
/// samples that one more feature frame past the next window needs (counted
/// with saturation), less the samples already received.
pub fn stream_finish_padding(processed_frames: usize, window_frames: usize, sample_count: usize) -> (r: usize)
    ensures
        ({
            let required_frames = saturated(saturated(processed_frames + window_frames) + 1);
            let required_samples = saturated(280 + saturated((required_frames - 1) * 160));
            r == if required_samples <= sample_count {
                0
            } else {
                required_samples - sample_count
            }
        }),
{
    let required_feature_frames = processed_frames.saturating_add(window_frames).saturating_add(1);
    let strides = match (required_feature_frames - 1).checked_mul(160) {
        Some(product) => product,
        None => usize::MAX,
    };
    let required_samples = 280usize.saturating_add(strides);
    if required_samples <= sample_count {
        0
    } else {
        required_samples - sample_count
    }
}

} // verus!
