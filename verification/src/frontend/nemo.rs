//! Frame bookkeeping of the NeMo mel-spectrogram front end.
use vstd::prelude::*;

verus! {

/// The frames of a centered short-time transform of `sample_count` samples:
/// `valid_frames` whole 160-sample strides and one more frame that the model
/// masks. Nothing when there is not one whole stride.
pub fn nemo_frame_counts(sample_count: usize) -> (r: Option<(usize, usize)>)
    ensures
        sample_count < 160 ==> r is None,
        sample_count >= 160 ==> r == Some(((sample_count / 160 + 1) as usize, sample_count / 160)),
{
    if sample_count < 160 {
        return None;
    }
    let valid_frames = sample_count / 160;
    Some((valid_frames + 1, valid_frames))
}

} // verus!
