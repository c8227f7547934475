//! Frame geometry of a windowed transform, and the spectrogram matrix.

use vstd::prelude::*;

verus! {

/// Number of analysis frames that fit into `pcm_len` samples: one frame per
/// hop for as long as a whole window still fits, none when the signal is
/// shorter than a window.
pub open spec fn spec_frame_count(pcm_len: int, window_size: int, hop_size: int) -> int {
    if pcm_len >= window_size {
        (pcm_len - window_size) / hop_size + 1
    } else {
        0
    }
}

/// Number of frequency bins kept from a window: the half below Nyquist.
pub open spec fn spec_bin_count(window_size: int) -> int {
    window_size / 2
}

/// First sample of frame `frame`.
pub open spec fn spec_frame_start(frame: int, hop_size: int) -> int {
    frame * hop_size
}

/// Counts the frames of a signal of `pcm_len` samples.
pub fn frame_count(pcm_len: usize, window_size: usize, hop_size: usize) -> (frames: usize)
    requires
        window_size > 0,
        hop_size > 0,
    ensures
        frames == spec_frame_count(pcm_len as int, window_size as int, hop_size as int),
        pcm_len < window_size <==> frames == 0,
{
    if pcm_len >= window_size {
        (pcm_len - window_size) / hop_size + 1
    } else {
        0
    }
}

/// Counts the frequency bins of a window of `window_size` samples.
pub fn bin_count(window_size: usize) -> (bins: usize)
    ensures
        bins == spec_bin_count(window_size as int),
{
    window_size / 2
}

/// Frame `frame` of a signal covers the samples from `frame * hop_size` up to,
/// not including, `frame * hop_size + window_size`; every frame counted by
/// `spec_frame_count` lies inside the signal.
pub proof fn lemma_frame_inside_signal(pcm_len: int, window_size: int, hop_size: int, frame: int)
    requires
        window_size > 0,
        hop_size > 0,
        0 <= frame < spec_frame_count(pcm_len, window_size, hop_size),
    ensures
        0 <= spec_frame_start(frame, hop_size),
        spec_frame_start(frame, hop_size) + window_size <= pcm_len,
{
    let span = pcm_len - window_size;
    assert(frame * hop_size <= (span / hop_size) * hop_size) by (nonlinear_arith)
        requires
            0 <= frame <= span / hop_size,
            hop_size > 0,
    ;
    assert((span / hop_size) * hop_size <= span) by (nonlinear_arith)
        requires
            span >= 0,
            hop_size > 0,
    ;
    assert(0 <= frame * hop_size) by (nonlinear_arith)
        requires
            0 <= frame,
            hop_size > 0,
    ;
}

/// One more frame would run past the end of the signal.
pub proof fn lemma_frame_count_is_maximal(pcm_len: int, window_size: int, hop_size: int)
    requires
        window_size > 0,
        hop_size > 0,
        pcm_len >= 0,
    ensures
        spec_frame_start(spec_frame_count(pcm_len, window_size, hop_size), hop_size) + window_size
            > pcm_len,
{
    if pcm_len >= window_size {
        let span = pcm_len - window_size;
        assert((span / hop_size + 1) * hop_size > span) by (nonlinear_arith)
            requires
                span >= 0,
                hop_size > 0,
        ;
    } else {
        assert(0 * hop_size == 0);
    }
}

/// Where frame `frame` begins and ends in a signal of `pcm_len` samples.
pub fn frame_range(pcm_len: usize, window_size: usize, hop_size: usize, frame: usize) -> (range: (usize, usize))
    requires
        window_size > 0,
        hop_size > 0,
        frame < spec_frame_count(pcm_len as int, window_size as int, hop_size as int),
    ensures
        range.0 == spec_frame_start(frame as int, hop_size as int),
        range.1 == range.0 + window_size,
        range.1 <= pcm_len,
{
    proof {
        lemma_frame_inside_signal(pcm_len as int, window_size as int, hop_size as int, frame as int);
    }
    let start = frame * hop_size;
    (start, start + window_size)
}

/// A sample position cut to the length of the signal.
pub open spec fn spec_clamp(position: int, pcm_len: int) -> int {
    if position < pcm_len {
        position
    } else {
        pcm_len
    }
}

/// Where a snippet that is asked for from sample `begin` up to sample `end`
/// lies in a signal of `pcm_len` samples: both positions are cut to the
/// length of the signal.
pub fn snippet_range(pcm_len: usize, begin: usize, end: usize) -> (range: (usize, usize))
    ensures
        range.0 == spec_clamp(begin as int, pcm_len as int),
        range.1 == spec_clamp(end as int, pcm_len as int),
        range.0 <= pcm_len,
        range.1 <= pcm_len,
        begin <= end ==> range.0 <= range.1,
{
    let first = if begin < pcm_len {
        begin
    } else {
        pcm_len
    };
    let last = if end < pcm_len {
        end
    } else {
        pcm_len
    };
    (first, last)
}

/// Why a spectrogram cannot be had.
#[derive(Clone, Copy, Debug, PartialEq, Eq, Structural)]
pub enum SpectrogramError {
    /// The signal is shorter than one window: there is no frame.
    SignalTooShort,
    /// More frequency bins than a bin index can number.
    TooManyBins,
    /// More frames than a frame index can number.
    TooManyFrames,
    /// The rows of the matrix differ in length.
    RaggedRows,
}

/// The extent of a spectrogram: how many bins, how many frames.
#[derive(Clone, Copy, Debug, PartialEq, Eq, Structural)]
pub struct SpectrogramShape {
    pub bins: usize,
    pub frames: usize,
}

/// Lays out the spectrogram of a signal of `pcm_len` samples, or reports that
/// the signal has no frame.
pub fn plan_spectrogram(pcm_len: usize, window_size: usize, hop_size: usize) -> (plan: Result<
    SpectrogramShape,
    SpectrogramError,
>)
    requires
        window_size > 0,
        hop_size > 0,
    ensures
        pcm_len < window_size ==> plan == Err::<SpectrogramShape, SpectrogramError>(
            SpectrogramError::SignalTooShort,
        ),
        pcm_len >= window_size ==> plan == Ok::<SpectrogramShape, SpectrogramError>(
            (SpectrogramShape {
                bins: spec_bin_count(window_size as int) as usize,
                frames: spec_frame_count(
                    pcm_len as int,
                    window_size as int,
                    hop_size as int,
                ) as usize,
            }),
        ),
{
    if pcm_len < window_size {
        Err(SpectrogramError::SignalTooShort)
    } else {
        Ok(
            SpectrogramShape {
                bins: bin_count(window_size),
                frames: frame_count(pcm_len, window_size, hop_size),
            },
        )
    }
}

/// Most bins a spectrogram may have: bin indices are 16 bits wide.
pub const MAX_BINS: usize = 0x1_0000;

/// Most frames a spectrogram may have: frame indices are 32 bits wide.
pub const MAX_FRAMES: u64 = 0x1_0000_0000;

/// Number of frames of a matrix held bin by bin: the length of its rows.
pub open spec fn matrix_frames(levels: Seq<Seq<u32>>) -> nat {
    if levels.len() == 0 {
        0
    } else {
        levels[0].len()
    }
}

/// A matrix is a spectrogram when its rows are equally long and its bins and
/// frames can be numbered by 16 and 32 bits.
pub open spec fn well_formed(levels: Seq<Seq<u32>>) -> bool {
    &&& levels.len() <= MAX_BINS
    &&& matrix_frames(levels) <= MAX_FRAMES
    &&& forall|bin: int| 0 <= bin < levels.len() ==> (#[trigger] levels[bin]).len() == matrix_frames(levels)
}

/// The levels of all bins at one frame.
pub open spec fn column(levels: Seq<Seq<u32>>, frame: int) -> Seq<u32> {
    Seq::new(levels.len(), |bin: int| levels[bin][frame])
}

/// The matrix that a vector of rows holds.
pub open spec fn matrix_view(rows: Seq<Vec<u32>>) -> Seq<Seq<u32>> {
    Seq::new(rows.len(), |bin: int| rows[bin]@)
}

/// A time-frequency matrix of magnitude levels, indexed by bin, then frame.
///
/// A level is an unsigned integer that stands for a non-negative magnitude:
/// a larger level is a larger magnitude, equal levels are equal magnitudes.
pub struct Spectrogram {
    rows: Vec<Vec<u32>>,
}

impl View for Spectrogram {
    type V = Seq<Seq<u32>>;

    closed spec fn view(&self) -> Seq<Seq<u32>> {
        matrix_view(self.rows@)
    }
}

impl Spectrogram {
    #[verifier::type_invariant]
    spec fn inv(&self) -> bool {
        well_formed(self@)
    }

    /// Takes a matrix held bin by bin. Refuses one that is no spectrogram,
    /// naming the first fault in the order bins, frames, rows.
    pub fn new(rows: Vec<Vec<u32>>) -> (made: Result<Spectrogram, SpectrogramError>)
        ensures
            made is Ok <==> well_formed(matrix_view(rows@)),
            made matches Ok(spectrogram) ==> spectrogram@ == matrix_view(rows@),
            made matches Err(error) ==> error == (if rows.len() > MAX_BINS {
                SpectrogramError::TooManyBins
            } else if matrix_frames(matrix_view(rows@)) > MAX_FRAMES {
                SpectrogramError::TooManyFrames
            } else {
                SpectrogramError::RaggedRows
            }),
    {
        let bins = rows.len();
        if bins > MAX_BINS {
            return Err(SpectrogramError::TooManyBins);
        }
        if bins == 0 {
            return Ok(Spectrogram { rows });
        }
        let frames = rows[0].len();
        if frames as u64 > MAX_FRAMES {
            return Err(SpectrogramError::TooManyFrames);
        }
        let mut bin: usize = 1;
        while bin < bins
            invariant
                1 <= bin <= bins <= MAX_BINS,
                bins == rows@.len(),
                frames == matrix_frames(matrix_view(rows@)),
                frames <= MAX_FRAMES,
                forall|b: int| 0 <= b < bin ==> (#[trigger] rows@[b])@.len() == frames,
            decreases bins - bin,
        {
            if rows[bin].len() != frames {
                assert(matrix_view(rows@)[bin as int].len() != matrix_frames(matrix_view(rows@)));
                return Err(SpectrogramError::RaggedRows);
            }
            bin += 1;
        }
        Ok(Spectrogram { rows })
    }

    /// Number of frequency bins.
    pub fn bin_count(&self) -> (bins: usize)
        ensures
            bins == self@.len(),
            well_formed(self@),
    {
        proof {
            use_type_invariant(self);
        }
        self.rows.len()
    }

    /// Number of time frames.
    pub fn frame_count(&self) -> (frames: usize)
        ensures
            frames == matrix_frames(self@),
            well_formed(self@),
    {
        proof {
            use_type_invariant(self);
        }
        if self.rows.len() == 0 {
            0
        } else {
            self.rows[0].len()
        }
    }

    /// The level at `bin` and `frame`.
    pub fn level(&self, bin: usize, frame: usize) -> (level: u32)
        requires
            bin < self@.len(),
            frame < matrix_frames(self@),
        ensures
            level == self@[bin as int][frame as int],
    {
        proof {
            use_type_invariant(self);
            assert(self@[bin as int] == self.rows@[bin as int]@);
        }
        self.rows[bin][frame]
    }
}

} // verus!
