//! Bookkeeping around audio decoding: laying decoded channels out as
//! interleaved samples, what a read or decode failure means for the decoding
//! loop, the stream's format, and the queue that playback draws samples from.

use vstd::prelude::*;

verus! {

// ---------------------------------------------------------------------------
// Interleaving
// ---------------------------------------------------------------------------

/// Place of sample `frame` of channel `channel` in an interleaved buffer of
/// `channels` channels that starts at `base`.
pub open spec fn interleaved_slot(base: int, frame: int, channel: int, channels: int) -> int {
    base + frame * channels + channel
}

proof fn lemma_slot_bounds(frame: int, channel: int, channels: int, frames: int)
    requires
        0 <= frame < frames,
        0 <= channel < channels,
    ensures
        0 <= frame * channels + channel < frames * channels,
        frame * channels + channel < (frame + 1) * channels,
{
    assert(0 <= frame * channels) by (nonlinear_arith)
        requires
            0 <= frame,
            0 <= channels,
    ;
    assert((frame + 1) * channels == frame * channels + channels) by (nonlinear_arith);
    assert((frame + 1) * channels <= frames * channels) by (nonlinear_arith)
        requires
            frame + 1 <= frames,
            0 <= channels,
    ;
}

/// Appends the first `frames` samples of the first `channels` planes to
/// `out`, interleaved: frame by frame, and within a frame channel by channel.
pub fn interleave_planes<T: Copy>(
    planes: &Vec<Vec<T>>,
    channels: usize,
    frames: usize,
    out: &mut Vec<T>,
)
    requires
        channels <= planes.len(),
        forall|c: int| 0 <= c < channels ==> frames <= (#[trigger] planes@[c]).len(),
    ensures
        final(out).len() == old(out).len() + frames * channels,
        final(out)@.subrange(0, old(out).len() as int) == old(out)@,
        forall|f: int, c: int|
            0 <= f < frames && 0 <= c < channels ==> final(out)@[interleaved_slot(
                old(out).len() as int,
                f,
                c,
                channels as int,
            )] == #[trigger] planes@[c]@[f],
{
    let ghost base = out.len() as int;
    let ghost start = out@;
    let mut f: usize = 0;
    assert(0 * channels == 0) by (nonlinear_arith);
    while f < frames
        invariant
            f <= frames,
            channels <= planes.len(),
            forall|c: int| 0 <= c < channels ==> frames <= (#[trigger] planes@[c]).len(),
            out.len() == base + f * channels,
            0 <= base <= out.len(),
            out@.subrange(0, base) == start,
            forall|g: int, c: int|
                0 <= g < f && 0 <= c < channels ==> out@[interleaved_slot(
                    base,
                    g,
                    c,
                    channels as int,
                )] == #[trigger] planes@[c]@[g],
        decreases frames - f,
    {
        let ghost row_start = out.len() as int;
        let mut c: usize = 0;
        while c < channels
            invariant
                f < frames,
                c <= channels,
                channels <= planes.len(),
                forall|d: int| 0 <= d < channels ==> frames <= (#[trigger] planes@[d]).len(),
                row_start == base + f * channels,
                0 <= base <= row_start,
                out.len() == row_start + c,
                out@.subrange(0, base) == start,
                forall|g: int, d: int|
                    0 <= g < f && 0 <= d < channels ==> out@[interleaved_slot(
                        base,
                        g,
                        d,
                        channels as int,
                    )] == #[trigger] planes@[d]@[g],
                forall|d: int|
                    0 <= d < c ==> out@[interleaved_slot(base, f as int, d, channels as int)]
                        == #[trigger] planes@[d]@[f as int],
            decreases channels - c,
        {
            let ghost before = out@;
            let sample = planes[c][f];
            out.push(sample);
            proof {
                assert(out@.subrange(0, base) =~= before.subrange(0, base));
                assert forall|g: int, d: int|
                    0 <= g < f && 0 <= d < channels implies out@[interleaved_slot(
                        base,
                        g,
                        d,
                        channels as int,
                    )] == #[trigger] planes@[d]@[g] by {
                    lemma_slot_bounds(g, d, channels as int, f as int);
                    assert(before[interleaved_slot(base, g, d, channels as int)] == planes@[d]@[g]);
                }
            }
            c = c + 1;
        }
        proof {
            assert((f + 1) * channels == f * channels + channels) by (nonlinear_arith);
            assert(0 <= f * channels) by (nonlinear_arith)
                requires
                    0 <= f,
                    0 <= channels,
            ;
        }
        f = f + 1;
    }
}

// ---------------------------------------------------------------------------
// What a failure means for the decoding loops
// ---------------------------------------------------------------------------

/// The kinds of failure that reading or decoding a packet can report.
#[derive(Debug, Clone, Copy, PartialEq, Eq)]
pub enum StreamError {
    /// The underlying reader failed; at the end of a file this is how the
    /// stream ends.
    Io,
    /// One packet could not be decoded.
    Decode,
    /// Any other failure: unsupported format, exceeded limit, seek failure,
    /// required reset.
    Other,
}

/// What a decoding loop does after a read or decode attempt.
#[derive(Debug, Clone, Copy, PartialEq, Eq)]
pub enum PacketStep {
    /// Use what was read or decoded.
    Use,
    /// Drop this packet and go on with the next one.
    Skip,
    /// The stream is over: stop and keep what was decoded so far.
    End,
    /// Give up with the error.
    Fail,
}

/// Reading a packet for analysis: a reader failure ends the stream, any
/// other failure aborts the analysis.
pub fn analysis_read_step(err: Option<StreamError>) -> (r: PacketStep)
    ensures
        r == match err {
            None => PacketStep::Use,
            Some(StreamError::Io) => PacketStep::End,
            Some(_) => PacketStep::Fail,
        },
{
    match err {
        None => PacketStep::Use,
        Some(StreamError::Io) => PacketStep::End,
        Some(_) => PacketStep::Fail,
    }
}

/// Decoding a packet for analysis: an undecodable packet is skipped, any
/// other failure aborts the analysis.
pub fn analysis_decode_step(err: Option<StreamError>) -> (r: PacketStep)
    ensures
        r == match err {
            None => PacketStep::Use,
            Some(StreamError::Decode) => PacketStep::Skip,
            Some(_) => PacketStep::Fail,
        },
{
    match err {
        None => PacketStep::Use,
        Some(StreamError::Decode) => PacketStep::Skip,
        Some(_) => PacketStep::Fail,
    }
}

/// Reading a packet for playback: any failure ends playback.
pub fn playback_read_step(err: Option<StreamError>) -> (r: PacketStep)
    ensures
        r == match err {
            None => PacketStep::Use,
            Some(_) => PacketStep::End,
        },
{
    match err {
        None => PacketStep::Use,
        Some(_) => PacketStep::End,
    }
}

/// Decoding a packet for playback: an undecodable packet is skipped, any
/// other failure ends playback.
pub fn playback_decode_step(err: Option<StreamError>) -> (r: PacketStep)
    ensures
        r == match err {
            None => PacketStep::Use,
            Some(StreamError::Decode) => PacketStep::Skip,
            Some(_) => PacketStep::End,
        },
{
    match err {
        None => PacketStep::Use,
        Some(StreamError::Decode) => PacketStep::Skip,
        Some(_) => PacketStep::End,
    }
}

// ---------------------------------------------------------------------------
// The stream's format
// ---------------------------------------------------------------------------

/// Why a stream cannot be analysed.
#[derive(Debug, Clone, Copy, PartialEq, Eq)]
pub enum FormatError {
    NoDefaultTrack,
    UnknownSampleRate,
    UnknownChannelLayout,
}

/// The sample rate and channel count that analysis decodes with: the
/// stream must have a default track, and its parameters must give both.
pub fn stream_format(has_default_track: bool, sample_rate: Option<u32>, channels: Option<usize>)
    -> (r: Result<(u32, usize), FormatError>)
    ensures
        !has_default_track ==> r == Err::<(u32, usize), FormatError>(FormatError::NoDefaultTrack),
        has_default_track && sample_rate is None ==> r == Err::<(u32, usize), FormatError>(
            FormatError::UnknownSampleRate,
        ),
        has_default_track && sample_rate is Some && channels is None ==> r == Err::<
            (u32, usize),
            FormatError,
        >(FormatError::UnknownChannelLayout),
        has_default_track && sample_rate is Some && channels is Some ==> r == Ok::<
            (u32, usize),
            FormatError,
        >((sample_rate->0, channels->0)),
{
    if !has_default_track {
        return Err(FormatError::NoDefaultTrack);
    }
    match sample_rate {
        None => Err(FormatError::UnknownSampleRate),
        Some(rate) => match channels {
            None => Err(FormatError::UnknownChannelLayout),
            Some(n) => Ok((rate, n)),
        },
    }
}

/// The channel count and sample rate that playback announces: the stream's,
/// or stereo at 44.1 kHz where the stream does not say. The channel count is
/// narrowed to 16 bits the way an `as` conversion does.
pub fn playback_format(sample_rate: Option<u32>, channels: Option<usize>) -> (r: (u16, u32))
    ensures
        r.0 == match channels {
            Some(n) => n as u16,
            None => 2u16,
        },
        r.1 == match sample_rate {
            Some(s) => s,
            None => 44_100u32,
        },
{
    let c: u16 = match channels {
        Some(n) => n as u16,
        None => 2,
    };
    let s: u32 = match sample_rate {
        Some(s) => s,
        None => 44_100,
    };
    (c, s)
}

// ---------------------------------------------------------------------------
// The playback sample queue
// ---------------------------------------------------------------------------

/// The decoded samples that playback has not handed out yet: the last
/// decoded buffer and how far into it playback has got.
pub struct SampleQueue<T> {
    buffer: Option<Vec<T>>,
    next: usize,
}

impl<T> SampleQueue<T> {
    #[verifier::type_invariant]
    spec fn next_within(self) -> bool {
        match self.buffer {
            Some(b) => self.next <= b.len(),
            None => self.next == 0,
        }
    }

    /// The samples still to be handed out, in order.
    pub closed spec fn pending(self) -> Seq<T> {
        match self.buffer {
            Some(b) => b@.subrange(self.next as int, b.len() as int),
            None => Seq::empty(),
        }
    }
}

impl<T: Copy> SampleQueue<T> {

    /// An empty queue.
    pub fn new() -> (r: Self)
        ensures
            r.pending() == Seq::<T>::empty(),
    {
        SampleQueue { buffer: None, next: 0 }
    }

    /// Whether every sample has been handed out, so that the next one needs
    /// a new decoded buffer.
    pub fn needs_refill(&self) -> (r: bool)
        ensures
            r == (self.pending().len() == 0),
    {
        proof {
            use_type_invariant(self);
        }
        match &self.buffer {
            None => true,
            Some(b) => self.next >= b.len(),
        }
    }

    /// Replaces what is pending with a freshly decoded buffer.
    pub fn refill(&mut self, samples: Vec<T>)
        ensures
            final(self).pending() == samples@,
    {
        *self = SampleQueue { buffer: Some(samples), next: 0 };
        proof {
            let b = self.buffer->0;
            assert(b@.subrange(0, b.len() as int) =~= b@);
        }
    }

    /// Drops whatever is pending, as after a seek.
    pub fn clear(&mut self)
        ensures
            final(self).pending() == Seq::<T>::empty(),
    {
        *self = SampleQueue { buffer: None, next: 0 };
    }

    /// Hands out the next pending sample, or nothing when none is pending.
    pub fn take_next(&mut self) -> (r: Option<T>)
        ensures
            old(self).pending().len() == 0 ==> r is None && final(self).pending()
                == old(self).pending(),
            old(self).pending().len() > 0 ==> r == Some(old(self).pending()[0])
                && final(self).pending() == old(self).pending().drop_first(),
    {
        proof {
            use_type_invariant(&*self);
        }
        let i = self.next;
        let n = match &self.buffer {
            None => 0,
            Some(b) => b.len(),
        };
        if i >= n {
            return None;
        }
        let sample = match &self.buffer {
            Some(b) => b[i],
            None => {
                return None;
            },
        };
        self.next = i + 1;
        proof {
            let b = self.buffer->0;
            assert(b@.subrange(i + 1, b.len() as int) =~= b@.subrange(
                i as int,
                b.len() as int,
            ).drop_first());
        }
        Some(sample)
    }
}

} // verus!
