//! Frame bookkeeping around the sinc resampler.
//!
//! The sinc resampler consumes *exactly* `chunk_size` input frames per call
//! and silently discards anything beyond that, so callers can't hand it
//! arbitrary-sized buffers. [`ChunkQueue`] buffers input per channel and
//! hands out exact chunk-sized slices, carrying any remainder over to the next
//! call. The rest of this module lays PCM frames out between the interleaved
//! form (`L R L R ...`) and the per-channel form.

use vstd::prelude::*;
use crate::airplay::error::{Error, StreamingError};
use vstd::string::StringExecFns;
use vstd::arithmetic::div_mod::{lemma_fundamental_div_mod, lemma_fundamental_div_mod_converse};

verus! {

/// Default chunk size for resampling (frames per period).
pub const DEFAULT_CHUNK_SIZE: usize = 1024;

/// Length of the sinc interpolation filter (mastering quality).
pub const SINC_LEN: usize = 512;

/// Oversampling factor of the sinc interpolation filter.
pub const OVERSAMPLING_FACTOR: usize = 256;

/// The fewest chunks of silence a fresh resampler is primed with.
pub const MIN_PRIMING_CHUNKS: usize = 3;

/// How many chunks of silence fill the resampler's filter: the filter length
/// over the frames per chunk, and never fewer than [`MIN_PRIMING_CHUNKS`].
pub open spec fn priming_chunks(frames_per_chunk: int) -> int {
    let n = SINC_LEN as int / frames_per_chunk;
    if n > MIN_PRIMING_CHUNKS as int {
        n
    } else {
        MIN_PRIMING_CHUNKS as int
    }
}

/// The number of silent chunks to feed a resampler that takes
/// `frames_per_chunk` input frames per call.
pub fn priming_chunk_count(frames_per_chunk: usize) -> (n: usize)
    requires
        frames_per_chunk > 0,
    ensures
        n == priming_chunks(frames_per_chunk as int),
{
    let n = SINC_LEN / frames_per_chunk;
    if n > MIN_PRIMING_CHUNKS {
        n
    } else {
        MIN_PRIMING_CHUNKS
    }
}

/// The contents of a list of per-channel buffers.
pub open spec fn channel_views<T>(chs: Seq<Vec<T>>) -> Seq<Seq<T>> {
    chs.map_values(|v: Vec<T>| v@)
}

/// `channels` buffers of `frames` copies of `value` each.
pub fn filled_channels<T: Copy>(channels: usize, frames: usize, value: T) -> (r: Vec<Vec<T>>)
    ensures
        r@.len() == channels,
        forall|c: int| 0 <= c < channels ==> #[trigger] r@[c]@ == Seq::new(frames as nat, |i: int| value),
{
    let mut r: Vec<Vec<T>> = Vec::new();
    let mut c: usize = 0;
    while c < channels
        invariant
            c <= channels,
            r@.len() == c,
            forall|k: int| 0 <= k < c ==> #[trigger] r@[k]@ == Seq::new(frames as nat, |i: int| value),
        decreases channels - c,
    {
        let mut buf: Vec<T> = Vec::new();
        let mut i: usize = 0;
        while i < frames
            invariant
                i <= frames,
                buf@ == Seq::new(i as nat, |j: int| value),
            decreases frames - i,
        {
            buf.push(value);
            i = i + 1;
            assert(buf@ =~= Seq::new(i as nat, |j: int| value));
        }
        r.push(buf);
        c = c + 1;
    }
    r
}

/// The per-channel form of interleaved samples `s` with `n` channels: channel
/// `c` holds sample `c` of every whole frame; a trailing partial frame is
/// dropped.
pub open spec fn deinterleaved<T>(s: Seq<T>, n: nat) -> Seq<Seq<T>> {
    Seq::new(n, |c: int| Seq::new((s.len() / n) as nat, |f: int| s[f * n + c]))
}

/// The interleaved form of per-channel buffers: frame by frame, channel by
/// channel, for as many frames as the first channel holds. No channels, or an
/// empty first channel, give nothing.
pub open spec fn interleaved<T>(chs: Seq<Seq<T>>) -> Seq<T> {
    if chs.len() == 0 || chs[0].len() == 0 {
        Seq::empty()
    } else {
        Seq::new(
            chs[0].len() * chs.len(),
            |i: int| chs[i % (chs.len() as int)][i / (chs.len() as int)],
        )
    }
}

/// Every channel has at least as many samples as the first one.
pub open spec fn first_channel_shortest<T>(chs: Seq<Seq<T>>) -> bool {
    forall|c: int| 0 <= c < chs.len() ==> #[trigger] chs[c].len() >= chs[0].len()
}

/// All channels hold the same number of samples.
pub open spec fn equal_lengths<T>(chs: Seq<Seq<T>>) -> bool {
    forall|c: int| 0 <= c < chs.len() ==> #[trigger] chs[c].len() == chs[0].len()
}

/// Position `f * n + c` of an interleaved buffer is channel `c` of frame `f`.
proof fn lemma_frame_position(f: int, c: int, n: int)
    requires
        0 <= f,
        0 <= c < n,
    ensures
        (f * n + c) / n == f,
        (f * n + c) % n == c,
{
    lemma_fundamental_div_mod_converse(f * n + c, n, f, c);
}

/// A frame that lies wholly inside `len` samples ends inside them.
proof fn lemma_frame_in_bounds(f: int, c: int, n: int, len: int)
    requires
        0 <= f < len / n,
        0 <= c < n,
        0 <= len,
    ensures
        0 <= f * n + c < len,
        f * n + c < (len / n) * n,
{
    lemma_fundamental_div_mod(len, n);
    assert((f + 1) * n <= (len / n) * n) by (nonlinear_arith)
        requires
            f + 1 <= len / n,
            n > 0,
    ;
    assert(f * n >= 0) by (nonlinear_arith)
        requires
            f >= 0,
            n > 0,
    ;
    assert((f + 1) * n == f * n + n) by (nonlinear_arith);
    assert(n * (len / n) == (len / n) * n) by (nonlinear_arith);
}

/// Splits interleaved samples into one buffer per channel. Sample `c` of frame
/// `f` (`samples[f * channels + c]`) goes to `r[c][f]`; a trailing partial
/// frame is dropped.
pub fn deinterleave<T: Copy>(samples: &[T], channels: usize) -> (r: Vec<Vec<T>>)
    requires
        channels > 0,
    ensures
        channel_views(r@) == deinterleaved(samples@, channels as nat),
{
    let len = samples.len();
    let frames = len / channels;
    let ghost s = samples@;
    let ghost n = channels as int;
    let mut r: Vec<Vec<T>> = Vec::new();
    let mut c: usize = 0;
    while c < channels
        invariant
            c <= channels,
            channels > 0,
            frames == s.len() as int / n,
            n == channels,
            s == samples@,
            len == s.len(),
            r@.len() == c,
            forall|k: int|
                0 <= k < c ==> #[trigger] r@[k]@ == Seq::new(frames as nat, |f: int| s[f * n + k]),
        decreases channels - c,
    {
        let mut buf: Vec<T> = Vec::with_capacity(frames);
        let mut f: usize = 0;
        while f < frames
            invariant
                f <= frames,
                c < channels,
                channels > 0,
                frames == s.len() as int / n,
                n == channels,
                s == samples@,
                len == s.len(),
                buf@ == Seq::new(f as nat, |j: int| s[j * n + c]),
            decreases frames - f,
        {
            proof {
                lemma_frame_in_bounds(f as int, c as int, n, s.len() as int);
                assert(f * channels + c < samples@.len());
            }
            buf.push(samples[f * channels + c]);
            f = f + 1;
            assert(buf@ =~= Seq::new(f as nat, |j: int| s[j * n + c]));
        }
        r.push(buf);
        c = c + 1;
    }
    assert(channel_views(r@) =~= deinterleaved(s, channels as nat)) by {
        assert forall|k: int| 0 <= k < channels implies #[trigger] channel_views(r@)[k] =~= deinterleaved(
            s,
            channels as nat,
        )[k] by {
            assert(r@[k]@ == Seq::new(frames as nat, |f: int| s[f * n + k]));
        }
    }
    r
}

/// Interleaves per-channel buffers: frame by frame, channel by channel, for as
/// many frames as the first channel holds. No channels, or an empty first
/// channel, give an empty result.
pub fn interleave<T: Copy>(channels: &[Vec<T>]) -> (r: Vec<T>)
    requires
        first_channel_shortest(channel_views(channels@)),
    ensures
        r@ == interleaved(channel_views(channels@)),
{
    let ghost chs = channel_views(channels@);
    if channels.len() == 0 || channels[0].len() == 0 {
        return Vec::new();
    }
    let num_frames = channels[0].len();
    let num_channels = channels.len();
    let ghost n = num_channels as int;
    assert(chs[0].len() == num_frames);
    let mut output: Vec<T> = Vec::new();
    let mut f: usize = 0;
    while f < num_frames
        invariant
            f <= num_frames,
            num_frames == chs[0].len(),
            num_channels == channels@.len(),
            n == num_channels,
            n > 0,
            chs == channel_views(channels@),
            first_channel_shortest(chs),
            output@ == Seq::new((f * n) as nat, |i: int| chs[i % n][i / n]),
        decreases num_frames - f,
    {
        let mut c: usize = 0;
        while c < num_channels
            invariant
                c <= num_channels,
                f < num_frames,
                num_frames == chs[0].len(),
                num_channels == channels@.len(),
                n == num_channels,
                n > 0,
                chs == channel_views(channels@),
                first_channel_shortest(chs),
                output@ == Seq::new((f * n + c) as nat, |i: int| chs[i % n][i / n]),
            decreases num_channels - c,
        {
            assert(chs[c as int].len() >= chs[0].len());
            let x = channels[c][f];
            proof {
                lemma_frame_position(f as int, c as int, n);
            }
            output.push(x);
            c = c + 1;
            assert(output@ =~= Seq::new((f * n + c) as nat, |i: int| chs[i % n][i / n]));
        }
        f = f + 1;
        assert((f - 1) * n + n == f * n) by (nonlinear_arith);
    }
    assert(num_frames * n == chs[0].len() * chs.len());
    output
}

/// Interleaving the per-channel form of interleaved samples gives the samples
/// back, up to the last whole frame.
pub proof fn lemma_interleave_deinterleave<T>(s: Seq<T>, n: nat)
    requires
        n > 0,
    ensures
        interleaved(deinterleaved(s, n)) == s.take(((s.len() / n) * n) as int),
{
    let d = deinterleaved(s, n);
    let frames = s.len() / n;
    let ni = n as int;
    lemma_fundamental_div_mod(s.len() as int, ni);
    assert(n * frames == frames * n) by (nonlinear_arith);
    if frames == 0 {
        assert(d[0].len() == 0);
        assert(interleaved(d) =~= Seq::<T>::empty());
        assert(frames * n == 0) by (nonlinear_arith)
            requires
                frames == 0,
        ;
        assert(interleaved(d) =~= s.take(((s.len() / n) * n) as int));
    } else {
        let r = interleaved(d);
        assert(r.len() == frames * n);
        assert forall|i: int| 0 <= i < r.len() implies #[trigger] r[i] == s[i] by {
            lemma_fundamental_div_mod(i, ni);
            let f = i / ni;
            let c = i % ni;
            assert(0 <= c < ni);
            assert(f >= 0) by (nonlinear_arith)
                requires
                    i >= 0,
                    ni > 0,
                    f == i / ni,
            ;
            assert(f < frames) by (nonlinear_arith)
                requires
                    i < frames * ni,
                    i == ni * f + c,
                    0 <= c,
                    ni > 0,
            ;
            assert(ni * f == f * ni) by (nonlinear_arith);
            assert(d[c][f] == s[f * ni + c]);
        }
        assert(r =~= s.take(((s.len() / n) * n) as int));
    }
}

/// Splitting interleaved channels of equal length back into channels gives
/// the channels back.
pub proof fn lemma_deinterleave_interleave<T>(chs: Seq<Seq<T>>)
    requires
        chs.len() > 0,
        chs[0].len() > 0,
        equal_lengths(chs),
    ensures
        deinterleaved(interleaved(chs), chs.len()) == chs,
{
    let n = chs.len() as int;
    let frames = chs[0].len() as int;
    let s = interleaved(chs);
    assert(s.len() == frames * n);
    assert(s.len() as int / n == frames) by {
        lemma_fundamental_div_mod_converse(frames * n, n, frames, 0);
    }
    let d = deinterleaved(s, chs.len());
    assert forall|c: int| 0 <= c < n implies #[trigger] d[c] =~= chs[c] by {
        assert(chs[c].len() == frames);
        assert forall|f: int| 0 <= f < frames implies d[c][f] == chs[c][f] by {
            lemma_frame_position(f, c, n);
            lemma_frame_in_bounds(f, c, n, s.len() as int);
        }
    }
    assert(d =~= chs);
}

/// The frames in the whole chunks of a stream of `len` frames.
pub open spec fn whole_chunk_frames(len: nat, chunk: nat) -> int {
    (len / chunk * chunk) as int
}

/// The input holds at least one frame: there is a first channel and it is not
/// empty.
pub open spec fn has_frames<T>(input: Seq<Vec<T>>) -> bool {
    input.len() > 0 && input[0]@.len() > 0
}

/// Each of the `chs.len()` channels followed by the matching input channel.
pub open spec fn appended<T>(chs: Seq<Seq<T>>, input: Seq<Vec<T>>) -> Seq<Seq<T>> {
    Seq::new(chs.len(), |c: int| chs[c] + input[c]@)
}

/// Per-channel FIFO of input frames in front of a fixed-chunk resampler.
///
/// Input of any length is appended to a buffer per channel; the queue hands out
/// exactly `chunk_size` frames at a time and keeps any remainder for later, so
/// that no frame is truncated or dropped between calls. Besides the pending
/// frames, the queue records (as ghost state) every frame it has received and
/// every frame it has handed out since it was created or cleared.
pub struct ChunkQueue<T> {
    chunk_size: usize,
    buffers: Vec<Vec<T>>,
    received: Ghost<Seq<Seq<T>>>,
    emitted: Ghost<Seq<Seq<T>>>,
}

impl<T: Copy> ChunkQueue<T> {
    /// The frames waiting in each channel, oldest first.
    pub closed spec fn pending(&self) -> Seq<Seq<T>> {
        channel_views(self.buffers@)
    }

    /// Every frame received in each channel since creation or the last clear.
    pub closed spec fn received(&self) -> Seq<Seq<T>> {
        self.received@
    }

    /// Every frame handed out in each channel since creation or the last clear.
    pub closed spec fn emitted(&self) -> Seq<Seq<T>> {
        self.emitted@
    }

    /// The number of frames in one chunk.
    pub closed spec fn frames_per_chunk(&self) -> nat {
        self.chunk_size as nat
    }

    /// The number of channels.
    pub open spec fn channels(&self) -> nat {
        self.pending().len()
    }

    /// What every operation keeps: the channels advance together, every
    /// frame received is either handed out or still pending, in the order of
    /// arrival, and only whole chunks are handed out.
    pub open spec fn inv(&self) -> bool {
        let n = self.channels();
        &&& self.frames_per_chunk() > 0
        &&& self.received().len() == n
        &&& self.emitted().len() == n
        &&& equal_lengths(self.pending())
        &&& equal_lengths(self.emitted())
        &&& forall|c: int|
            0 <= c < n ==> #[trigger] self.received()[c] == self.emitted()[c] + self.pending()[c]
        &&& forall|c: int|
            0 <= c < n ==> #[trigger] self.emitted()[c].len() % self.frames_per_chunk() == 0
    }

    /// A queue for `channels` channels that hands out `chunk_size` frames at a
    /// time, with nothing pending, received or handed out yet.
    pub fn new(channels: usize, chunk_size: usize) -> (q: Self)
        requires
            chunk_size > 0,
        ensures
            q.inv(),
            q.channels() == channels,
            q.frames_per_chunk() == chunk_size,
            q.pending() == Seq::new(channels as nat, |c: int| Seq::<T>::empty()),
            q.received() == q.pending(),
            q.emitted() == q.pending(),
    {
        let mut buffers: Vec<Vec<T>> = Vec::new();
        let mut c: usize = 0;
        while c < channels
            invariant
                c <= channels,
                buffers@.len() == c,
                forall|k: int| 0 <= k < c ==> #[trigger] buffers@[k]@ == Seq::<T>::empty(),
            decreases channels - c,
        {
            buffers.push(Vec::new());
            c = c + 1;
        }
        let ghost empty = Seq::new(channels as nat, |c: int| Seq::<T>::empty());
        let q = ChunkQueue { chunk_size, buffers, received: Ghost(empty), emitted: Ghost(empty) };
        assert(q.pending() =~= empty);
        assert forall|c: int| 0 <= c < channels implies #[trigger] q.received()[c] == q.emitted()[c]
            + q.pending()[c] by {
            assert(empty[c] + empty[c] =~= empty[c]);
        }
        assert(equal_lengths(q.pending()));
        assert(equal_lengths(q.emitted()));
        assert forall|c: int| 0 <= c < channels implies #[trigger] q.emitted()[c].len() % q.frames_per_chunk() == 0 by {
            assert(q.emitted()[c].len() == 0);
        }
        q
    }

    /// The number of frames in one chunk.
    pub fn chunk_size(&self) -> (k: usize)
        ensures
            k == self.frames_per_chunk(),
    {
        self.chunk_size
    }

    /// The number of channels.
    pub fn channel_count(&self) -> (n: usize)
        ensures
            n == self.channels(),
    {
        self.buffers.len()
    }

    /// The number of frames pending in the first channel (all channels hold
    /// as many); zero without channels.
    pub fn pending_frames(&self) -> (f: usize)
        requires
            self.inv(),
        ensures
            self.channels() > 0 ==> f == self.pending()[0].len(),
            self.channels() == 0 ==> f == 0,
    {
        if self.buffers.len() == 0 {
            0
        } else {
            self.buffers[0].len()
        }
    }

    /// Appends one call's worth of input, channel by channel.
    ///
    /// Input with no channel, or with an empty first channel, is ignored and
    /// `false` is returned. Otherwise input channel `c` is appended to pending
    /// channel `c` for every channel of the queue (extra input channels are
    /// ignored) and `true` is returned.
    pub fn push_frames(&mut self, input: &[Vec<T>]) -> (accepted: bool)
        requires
            old(self).inv(),
            has_frames(input@) ==> {
                &&& old(self).channels() > 0
                &&& input@.len() >= old(self).channels()
                &&& forall|c: int|
                    0 <= c < old(self).channels() ==> #[trigger] input@[c]@.len() == input@[0]@.len()
            },
        ensures
            final(self).inv(),
            accepted == has_frames(input@),
            final(self).frames_per_chunk() == old(self).frames_per_chunk(),
            final(self).emitted() == old(self).emitted(),
            accepted ==> final(self).pending() == appended(old(self).pending(), input@),
            accepted ==> final(self).received() == appended(old(self).received(), input@),
            !accepted ==> final(self).pending() == old(self).pending(),
            !accepted ==> final(self).received() == old(self).received(),
    {
        if input.len() == 0 || input[0].len() == 0 {
            return false;
        }
        let ghost old_pending = self.pending();
        let ghost old_received = self.received();
        let n = self.buffers.len();
        let frames = input[0].len();
        let ghost old_bufs = self.buffers@;
        assert forall|k: int| 0 <= k < n implies #[trigger] old_bufs[k]@.len() == old_bufs[0]@.len() by {
            assert(old_pending[k].len() == old_pending[0].len());
        }
        let mut c: usize = 0;
        while c < n
            invariant
                n == self.buffers@.len(),
                n == old_bufs.len(),
                old_pending == channel_views(old_bufs),
                c <= n,
                n > 0,
                input@.len() >= n,
                frames == input@[0]@.len(),
                forall|k: int| 0 <= k < n ==> #[trigger] input@[k]@.len() == frames,
                forall|k: int| 0 <= k < n ==> #[trigger] old_bufs[k]@.len() == old_bufs[0]@.len(),
                forall|k: int| 0 <= k < c ==> #[trigger] self.buffers@[k]@ == old_bufs[k]@ + input@[k]@,
                forall|k: int| c <= k < n ==> #[trigger] self.buffers@[k]@ == old_bufs[k]@,
                self.chunk_size == old(self).chunk_size,
                self.received == old(self).received,
                self.emitted == old(self).emitted,
            decreases n - c,
        {
            let mut i: usize = 0;
            while i < frames
                invariant
                    n == self.buffers@.len(),
                    n == old_bufs.len(),
                    c < n,
                    i <= frames,
                    input@.len() >= n,
                    frames == input@[c as int]@.len(),
                    self.buffers@[c as int]@ == old_bufs[c as int]@ + input@[c as int]@.take(i as int),
                    forall|k: int| 0 <= k < c ==> #[trigger] self.buffers@[k]@ == old_bufs[k]@ + input@[k]@,
                    forall|k: int| c < k < n ==> #[trigger] self.buffers@[k]@ == old_bufs[k]@,
                    self.chunk_size == old(self).chunk_size,
                    self.received == old(self).received,
                    self.emitted == old(self).emitted,
                decreases frames - i,
            {
                let x = input[c][i];
                self.buffers[c].push(x);
                i = i + 1;
                assert(self.buffers@[c as int]@ =~= old_bufs[c as int]@ + input@[c as int]@.take(i as int));
            }
            assert(input@[c as int]@.take(frames as int) =~= input@[c as int]@);
            c = c + 1;
        }
        proof {
            self.received@ = appended(old_received, input@);
            assert(self.pending() =~= appended(old_pending, input@));
            assert forall|k: int| 0 <= k < n implies #[trigger] self.pending()[k].len() == self.pending()[0].len() by {
                assert(old_pending[k].len() == old_pending[0].len());
            }
            assert forall|k: int| 0 <= k < n implies #[trigger] self.received()[k] == self.emitted()[k] + self.pending()[k] by {
                assert(old_received[k] == self.emitted()[k] + old_pending[k]);
                assert(self.received()[k] =~= self.emitted()[k] + self.pending()[k]);
            }
        }
        true
    }

    /// The first chunk of every channel, if the first channel holds a whole
    /// chunk; `None` otherwise, and when there are no channels.
    pub fn front_chunk(&self) -> (r: Option<Vec<Vec<T>>>)
        requires
            self.inv(),
        ensures
            r is Some <==> (self.channels() > 0 && self.pending()[0].len() >= self.frames_per_chunk()),
            r matches Some(chunk) ==> channel_views(chunk@) == Seq::new(
                self.channels(),
                |c: int| self.pending()[c].take(self.frames_per_chunk() as int),
            ),
    {
        let n = self.buffers.len();
        if n == 0 || self.buffers[0].len() < self.chunk_size {
            return None;
        }
        let k = self.chunk_size;
        let ghost p = self.pending();
        let mut chunk: Vec<Vec<T>> = Vec::new();
        let mut c: usize = 0;
        while c < n
            invariant
                n == self.buffers@.len(),
                p == self.pending(),
                self.inv(),
                k == self.chunk_size,
                p[0].len() >= k,
                c <= n,
                chunk@.len() == c,
                forall|j: int| 0 <= j < c ==> #[trigger] chunk@[j]@ == p[j].take(k as int),
            decreases n - c,
        {
            assert(p[c as int].len() == p[0].len());
            let mut buf: Vec<T> = Vec::with_capacity(k);
            let mut i: usize = 0;
            while i < k
                invariant
                    n == self.buffers@.len(),
                    p == self.pending(),
                    c < n,
                    i <= k,
                    p[c as int].len() >= k,
                    buf@ == p[c as int].take(i as int),
                decreases k - i,
            {
                let x = self.buffers[c][i];
                buf.push(x);
                i = i + 1;
                assert(buf@ =~= p[c as int].take(i as int));
            }
            chunk.push(buf);
            c = c + 1;
        }
        assert(channel_views(chunk@) =~= Seq::new(n as nat, |c: int| p[c].take(k as int)));
        Some(chunk)
    }

    /// Hands out the first chunk: removes `chunk_size` frames from the front
    /// of every channel.
    pub fn drop_front_chunk(&mut self)
        requires
            old(self).inv(),
            old(self).channels() > 0,
            old(self).pending()[0].len() >= old(self).frames_per_chunk(),
        ensures
            final(self).inv(),
            final(self).frames_per_chunk() == old(self).frames_per_chunk(),
            final(self).received() == old(self).received(),
            final(self).pending() == Seq::new(
                old(self).channels(),
                |c: int| old(self).pending()[c].skip(old(self).frames_per_chunk() as int),
            ),
            final(self).emitted() == Seq::new(
                old(self).channels(),
                |c: int| old(self).emitted()[c] + old(self).pending()[c].take(
                    old(self).frames_per_chunk() as int,
                ),
            ),
    {
        let n = self.buffers.len();
        let k = self.chunk_size;
        let ghost old_bufs = self.buffers@;
        let ghost p = self.pending();
        let mut c: usize = 0;
        while c < n
            invariant
                n == self.buffers@.len(),
                n == old_bufs.len(),
                p == channel_views(old_bufs),
                equal_lengths(p),
                p[0].len() >= k,
                c <= n,
                k == self.chunk_size,
                k == old(self).chunk_size,
                forall|j: int| 0 <= j < c ==> #[trigger] self.buffers@[j]@ == old_bufs[j]@.skip(k as int),
                forall|j: int| c <= j < n ==> #[trigger] self.buffers@[j]@ == old_bufs[j]@,
                self.received == old(self).received,
                self.emitted == old(self).emitted,
            decreases n - c,
        {
            assert(p[c as int].len() == p[0].len());
            assert(old_bufs[c as int]@ == p[c as int]);
            let rest = self.buffers[c].split_off(k);
            self.buffers.set(c, rest);
            c = c + 1;
        }
        proof {
            let ghost e = self.emitted@;
            self.emitted@ = Seq::new(n as nat, |j: int| e[j] + p[j].take(k as int));
            assert(self.pending() =~= Seq::new(n as nat, |j: int| p[j].skip(k as int)));
            assert forall|j: int| 0 <= j < n implies #[trigger] self.received()[j] == self.emitted()[j]
                + self.pending()[j] by {
                assert(p[j].take(k as int) + p[j].skip(k as int) =~= p[j]);
                assert(self.received()[j] == e[j] + p[j]);
                assert(self.emitted()[j] + self.pending()[j] =~= e[j] + p[j]);
            }
            assert forall|j: int| 0 <= j < n implies #[trigger] self.emitted()[j].len() % self.frames_per_chunk() == 0 by {
                let m = e[j].len() as int / k as int;
                assert(e[j].len() % self.frames_per_chunk() == 0);
                lemma_fundamental_div_mod(e[j].len() as int, k as int);
                assert(p[j].len() == p[0].len());
                assert((m + 1) * k == k * m + k) by (nonlinear_arith);
                lemma_fundamental_div_mod_converse(e[j].len() + k, k as int, m + 1, 0);
            }
            assert forall|j: int| 0 <= j < n implies #[trigger] self.pending()[j].len() == self.pending()[0].len() by {
                assert(p[j].len() == p[0].len());
            }
            assert forall|j: int| 0 <= j < n implies #[trigger] self.emitted()[j].len() == self.emitted()[0].len() by {
                assert(p[j].len() == p[0].len());
                assert(e[j].len() == e[0].len());
            }
        }
    }

    /// Discards everything pending and starts a fresh stream: nothing pending,
    /// received or handed out.
    pub fn clear(&mut self)
        requires
            old(self).inv(),
        ensures
            final(self).inv(),
            final(self).frames_per_chunk() == old(self).frames_per_chunk(),
            final(self).channels() == old(self).channels(),
            final(self).pending() == Seq::new(old(self).channels(), |c: int| Seq::<T>::empty()),
            final(self).received() == final(self).pending(),
            final(self).emitted() == final(self).pending(),
    {
        let n = self.buffers.len();
        let mut c: usize = 0;
        while c < n
            invariant
                n == self.buffers@.len(),
                c <= n,
                forall|j: int| 0 <= j < c ==> #[trigger] self.buffers@[j]@ == Seq::<T>::empty(),
                self.chunk_size == old(self).chunk_size,
            decreases n - c,
        {
            self.buffers[c].clear();
            c = c + 1;
        }
        proof {
            let ghost empty = Seq::new(n as nat, |j: int| Seq::<T>::empty());
            self.received@ = empty;
            self.emitted@ = empty;
            assert(self.pending() =~= empty);
            assert forall|j: int| 0 <= j < n implies #[trigger] self.received()[j] == self.emitted()[j]
                + self.pending()[j] by {
                assert(empty[j] + empty[j] =~= empty[j]);
            }
            assert forall|j: int| 0 <= j < n implies #[trigger] self.emitted()[j].len() % self.frames_per_chunk() == 0 by {
                assert(self.emitted()[j].len() == 0);
            }
        }
    }

    /// Two drained queues with the same chunk size that received the same
    /// frames have handed out the same chunks and hold the same remainder,
    /// whatever pieces the frames arrived in.
    pub proof fn lemma_split_independent(&self, other: &Self)
        requires
            self.inv(),
            other.inv(),
            self.frames_per_chunk() == other.frames_per_chunk(),
            self.received() == other.received(),
            forall|c: int| 0 <= c < self.channels() ==> #[trigger] self.pending()[c].len() < self.frames_per_chunk(),
            forall|c: int| 0 <= c < other.channels() ==> #[trigger] other.pending()[c].len() < other.frames_per_chunk(),
        ensures
            self.emitted() == other.emitted(),
            self.pending() == other.pending(),
    {
        self.lemma_drained_emits_whole_chunks();
        other.lemma_drained_emits_whole_chunks();
        assert(self.emitted() =~= other.emitted());
        assert(self.pending() =~= other.pending());
    }

    /// Once the queue is drained (each channel holds less than a chunk), what
    /// it has handed out is exactly the longest whole-chunk prefix of what it
    /// received, however the input was split across calls; the rest is
    /// pending.
    pub proof fn lemma_drained_emits_whole_chunks(&self)
        requires
            self.inv(),
            forall|c: int| 0 <= c < self.channels() ==> #[trigger] self.pending()[c].len() < self.frames_per_chunk(),
        ensures
            forall|c: int| 0 <= c < self.channels() ==> #[trigger] self.emitted()[c] == self.received()[c].take(
                whole_chunk_frames(self.received()[c].len(), self.frames_per_chunk()),
            ),
            forall|c: int| 0 <= c < self.channels() ==> #[trigger] self.pending()[c] == self.received()[c].skip(
                whole_chunk_frames(self.received()[c].len(), self.frames_per_chunk()),
            ),
    {
        let k = self.frames_per_chunk() as int;
        assert forall|c: int| 0 <= c < self.channels() implies #[trigger] self.emitted()[c] == self.received()[c].take(
            whole_chunk_frames(self.received()[c].len(), self.frames_per_chunk()),
        ) && self.pending()[c] == self.received()[c].skip(
            whole_chunk_frames(self.received()[c].len(), self.frames_per_chunk()),
        ) by {
            let e = self.emitted()[c];
            let p = self.pending()[c];
            let r = self.received()[c];
            assert(r == e + p);
            assert(e.len() % self.frames_per_chunk() == 0);
            lemma_fundamental_div_mod(e.len() as int, k);
            let m = e.len() as int / k;
            assert(k * m == m * k) by (nonlinear_arith);
            lemma_fundamental_div_mod_converse(r.len() as int, k, m, p.len() as int);
            assert(whole_chunk_frames(r.len(), self.frames_per_chunk()) == e.len());
            assert(r.take(e.len() as int) =~= e);
            assert(r.skip(e.len() as int) =~= p);
        }
    }
}

/// Appends `more[c]` to `output[c]` for every channel present in both.
pub fn extend_channels<T: Copy>(output: &mut Vec<Vec<T>>, more: &[Vec<T>])
    ensures
        final(output)@.len() == old(output)@.len(),
        forall|c: int|
            0 <= c < old(output)@.len() ==> #[trigger] final(output)@[c]@ == if c < more@.len() {
                old(output)@[c]@ + more@[c]@
            } else {
                old(output)@[c]@
            },
{
    let n = if output.len() < more.len() {
        output.len()
    } else {
        more.len()
    };
    let ghost start = output@;
    let mut c: usize = 0;
    while c < n
        invariant
            n <= start.len(),
            n <= more@.len(),
            n == start.len() || n == more@.len(),
            output@.len() == start.len(),
            c <= n,
            forall|j: int| 0 <= j < c ==> #[trigger] output@[j]@ == start[j]@ + more@[j]@,
            forall|j: int| c <= j < start.len() ==> #[trigger] output@[j]@ == start[j]@,
        decreases n - c,
    {
        let len = more[c].len();
        let mut i: usize = 0;
        while i < len
            invariant
                output@.len() == start.len(),
                c < n,
                n <= start.len(),
                n <= more@.len(),
                i <= len,
                len == more@[c as int]@.len(),
                output@[c as int]@ == start[c as int]@ + more@[c as int]@.take(i as int),
                forall|j: int| 0 <= j < c ==> #[trigger] output@[j]@ == start[j]@ + more@[j]@,
                forall|j: int| c < j < start.len() ==> #[trigger] output@[j]@ == start[j]@,
            decreases len - i,
        {
            let x = more[c][i];
            output[c].push(x);
            i = i + 1;
            assert(output@[c as int]@ =~= start[c as int]@ + more@[c as int]@.take(i as int));
        }
        assert(more@[c as int]@.take(len as int) =~= more@[c as int]@);
        c = c + 1;
    }
}

/// A chunk of `channels` channels holding `frames` copies of `v` each.
pub open spec fn uniform_chunk<S>(channels: nat, frames: nat, v: S) -> Seq<Seq<S>> {
    Seq::new(channels, |c: int| Seq::new(frames, |i: int| v))
}

/// One interaction of a resampler with its engine.
pub ghost enum EngineCall<E: ResampleEngine> {
    /// The engine `before` was handed `arg` and became `after`, giving
    /// `result`; `chunk` and `output` are their per-channel views.
    Process {
        before: E,
        arg: Vec<Vec<E::Sample>>,
        after: E,
        result: Result<Vec<Vec<E::Sample>>, Error>,
        chunk: Seq<Seq<E::Sample>>,
        output: Result<Seq<Seq<E::Sample>>, Error>,
    },
    /// The engine `before` was reset and became `after`.
    Reset { before: E, after: E },
}

/// The call is a real call of the engine: its engine, argument and result
/// are those of a run of `process_chunk` or `reset`, and the views match.
pub open spec fn real_call<E: ResampleEngine>(c: EngineCall<E>) -> bool {
    match c {
        EngineCall::Process { before, arg, after, result, chunk, output } => {
            &&& call_ensures(E::process_chunk, (before, &arg), (after, result))
            &&& chunk == channel_views(arg@)
            &&& output == result_view(result)
        },
        EngineCall::Reset { before, after } => call_ensures(E::reset, (before,), after),
    }
}

/// The engine a call started from.
pub open spec fn engine_before<E: ResampleEngine>(c: EngineCall<E>) -> E {
    match c {
        EngineCall::Process { before, .. } => before,
        EngineCall::Reset { before, .. } => before,
    }
}

/// The engine a call left.
pub open spec fn engine_after<E: ResampleEngine>(c: EngineCall<E>) -> E {
    match c {
        EngineCall::Process { after, .. } => after,
        EngineCall::Reset { after, .. } => after,
    }
}

/// `calls` are real engine calls, each starting from the engine the
/// previous one left, the first from `init`, and `cur` is the engine the
/// last one left (`init` when there were none).
pub open spec fn engine_chain<E: ResampleEngine>(init: E, calls: Seq<EngineCall<E>>, cur: E) -> bool {
    &&& forall|i: int| 0 <= i < calls.len() ==> real_call(#[trigger] calls[i])
    &&& calls.len() == 0 ==> cur == init
    &&& calls.len() > 0 ==> engine_before(calls[0]) == init && engine_after(calls[calls.len() - 1]) == cur
    &&& forall|i: int, j: int|
        #![trigger calls[i], calls[j]]
        0 <= i && j == i + 1 && j < calls.len() ==> engine_after(calls[i]) == engine_before(calls[j])
}

/// A chain stays a chain when a real call from its current engine is
/// appended; the new current engine is the one the call left.
pub proof fn lemma_chain_push<E: ResampleEngine>(init: E, calls: Seq<EngineCall<E>>, cur: E, c: EngineCall<E>)
    requires
        engine_chain(init, calls, cur),
        real_call(c),
        engine_before(c) == cur,
    ensures
        engine_chain(init, calls.push(c), engine_after(c)),
{
    let nc = calls.push(c);
    assert forall|i: int| 0 <= i < nc.len() implies real_call(#[trigger] nc[i]) by {
        if i < calls.len() {
            assert(nc[i] == calls[i]);
        }
    }
    assert forall|i: int, j: int|
        #![trigger nc[i], nc[j]]
        0 <= i && j == i + 1 && j < nc.len() implies engine_after(nc[i]) == engine_before(nc[j]) by {
        if j < calls.len() {
            assert(nc[i] == calls[i] && nc[j] == calls[j]);
        } else {
            assert(nc[j] == c);
            assert(nc[i] == calls[calls.len() - 1]);
        }
    }
}

/// The per-channel buffers of a result, or its error.
pub open spec fn result_view<S>(r: Result<Vec<Vec<S>>, Error>) -> Result<Seq<Seq<S>>, Error> {
    match r {
        Ok(v) => Ok(channel_views(v@)),
        Err(e) => Err(e),
    }
}

/// `calls` is what a priming run of `count` chunks did: every call handed
/// the engine the silent chunk of `channels` channels of `frames` frames,
/// each sample the engine's conversion of a zero PCM sample. Without
/// `stop_on_error` all `count` chunks were fed; with it, every chunk but the
/// last was accepted, and fewer than `count` chunks were fed only because the
/// last one was refused.
pub open spec fn is_priming<E: ResampleEngine>(
    calls: Seq<EngineCall<E>>,
    channels: nat,
    frames: nat,
    count: nat,
    stop_on_error: bool,
) -> bool {
    &&& calls.len() <= count
    &&& exists|v: E::Sample|
        #![trigger call_ensures(E::from_pcm, (0i16,), v)]
        call_ensures(E::from_pcm, (0i16,), v) && forall|i: int|
            #![trigger calls[i]]
            0 <= i < calls.len() ==> calls[i] is Process && calls[i]->chunk == uniform_chunk(channels, frames, v)
    &&& !stop_on_error ==> calls.len() == count
    &&& stop_on_error ==> forall|i: int| #![trigger calls[i]] 0 <= i < calls.len() - 1 ==> calls[i]->output is Ok
    &&& stop_on_error && calls.len() < count ==> calls.len() > 0 && calls[calls.len() - 1]->output is Err
}

/// Chunk `j` of every channel of `b`: frames `j * k` up to `(j + 1) * k`.
pub open spec fn chunk_of<S>(b: Seq<Seq<S>>, k: nat, j: int) -> Seq<Seq<S>> {
    Seq::new(b.len(), |c: int| b[c].subrange(j * k, (j + 1) * k))
}

/// The engine outputs of `calls` (empty for a call that gave none).
pub open spec fn call_outputs<E: ResampleEngine>(calls: Seq<EngineCall<E>>) -> Seq<Seq<Seq<E::Sample>>> {
    Seq::new(
        calls.len(),
        |j: int|
            match calls[j] {
                EngineCall::Process { output: Ok(o), .. } => o,
                _ => Seq::empty(),
            },
    )
}

/// The per-channel concatenation of engine outputs: channel `c` of each
/// output is appended to channel `c` of `n` channels, where it has one.
pub open spec fn gathered<S>(n: nat, outs: Seq<Seq<Seq<S>>>) -> Seq<Seq<S>>
    decreases outs.len(),
{
    if outs.len() == 0 {
        Seq::new(n, |c: int| Seq::<S>::empty())
    } else {
        let g = gathered(n, outs.drop_last());
        let o = outs.last();
        Seq::new(n, |c: int| if c < o.len() { g[c] + o[c] } else { g[c] })
    }
}

/// `calls` handed the engine chunks `0, 1, ...` of `b`, in order, each
/// lying wholly in `b`, and the engine accepted every one but possibly the
/// last.
pub open spec fn feeds_chunks<E: ResampleEngine>(calls: Seq<EngineCall<E>>, b: Seq<Seq<E::Sample>>, k: nat) -> bool {
    &&& b.len() > 0
    &&& calls.len() * k <= b[0].len()
    &&& forall|j: int|
        #![trigger calls[j]]
        0 <= j < calls.len() ==> calls[j] is Process && calls[j]->chunk == chunk_of(b, k, j)
    &&& forall|j: int| #![trigger calls[j]] 0 <= j < calls.len() - 1 ==> calls[j]->output is Ok
}

/// The result of a run of engine calls: the error of its last call if that
/// call was refused, else the gathered outputs.
pub open spec fn run_result<E: ResampleEngine>(n: nat, calls: Seq<EngineCall<E>>) -> Result<Seq<Seq<E::Sample>>, Error> {
    if calls.len() == 0 {
        Ok(gathered(n, call_outputs(calls)))
    } else {
        match calls[calls.len() - 1] {
            EngineCall::Process { output: Err(e), .. } => Err(e),
            _ => Ok(gathered(n, call_outputs(calls))),
        }
    }
}

/// Draining `b` (the pending frames followed by the new input) through the
/// engine in chunks of `k` frames made the calls `calls` and left `pending`:
/// on success every whole chunk went through and the rest is pending; on an
/// error the chunks before the refused one are consumed and the refused one
/// is still pending.
pub open spec fn drained_through_engine<E: ResampleEngine>(
    b: Seq<Seq<E::Sample>>,
    k: nat,
    calls: Seq<EngineCall<E>>,
    pending: Seq<Seq<E::Sample>>,
) -> bool {
    &&& feeds_chunks(calls, b, k)
    &&& match run_result(b.len(), calls) {
        Ok(_) => calls.len() == b[0].len() / k && pending == Seq::new(
            b.len(),
            |c: int| b[c].skip((calls.len() * k) as int),
        ),
        Err(_) => calls.len() > 0 && pending == Seq::new(
            b.len(),
            |c: int| b[c].skip((calls.len() - 1) * k),
        ),
    }
}

/// Channel `c` of `a` followed by channel `c` of `b`, for every channel of `a`.
pub open spec fn joined<S>(a: Seq<Seq<S>>, b: Seq<Seq<S>>) -> Seq<Seq<S>> {
    Seq::new(a.len(), |c: int| a[c] + b[c])
}

/// Feeding input `x` and then `y` hands the engine the same chunks, in the
/// same order, and leaves the same remainder, as feeding `x` followed by `y`
/// at once (when the engine accepts every chunk): how the input is split
/// across calls does not change what the engine is given.
pub proof fn lemma_split_feeds_same_chunks<E: ResampleEngine>(
    p: Seq<Seq<E::Sample>>,
    x: Seq<Seq<E::Sample>>,
    y: Seq<Seq<E::Sample>>,
    k: nat,
    c1: Seq<EngineCall<E>>,
    p1: Seq<Seq<E::Sample>>,
    c2: Seq<EngineCall<E>>,
    p2: Seq<Seq<E::Sample>>,
    c: Seq<EngineCall<E>>,
    q: Seq<Seq<E::Sample>>,
)
    requires
        p.len() > 0,
        x.len() == p.len(),
        y.len() == p.len(),
        equal_lengths(p),
        equal_lengths(x),
        equal_lengths(y),
        k > 0,
        drained_through_engine(joined(p, x), k, c1, p1),
        run_result(p.len(), c1) is Ok,
        drained_through_engine(joined(p1, y), k, c2, p2),
        run_result(p.len(), c2) is Ok,
        drained_through_engine(joined(joined(p, x), y), k, c, q),
        run_result(p.len(), c) is Ok,
    ensures
        c.len() == c1.len() + c2.len(),
        forall|j: int| 0 <= j < c1.len() ==> #[trigger] c[j]->chunk == c1[j]->chunk,
        forall|j: int| 0 <= j < c2.len() ==> #[trigger] c[c1.len() + j]->chunk == c2[j]->chunk,
        q == p2,
{
    let n = p.len();
    let ki = k as int;
    let b1 = joined(p, x);
    let b = joined(b1, y);
    let b2 = joined(p1, y);
    let m1 = c1.len() as int;
    let m2 = c2.len() as int;
    let m = c.len() as int;
    assert(p1.len() == n);
    assert forall|ch: int| 0 <= ch < n implies #[trigger] b[ch].len() == b[0].len() && b1[ch].len() == b1[0].len()
        && b2[ch].len() == b2[0].len() && p1[ch] == b1[ch].skip(m1 * ki) by {
        assert(p[ch].len() == p[0].len());
        assert(x[ch].len() == x[0].len());
        assert(y[ch].len() == y[0].len());
    }
    let len1 = b1[0].len() as int;
    let r1 = len1 - m1 * ki;
    lemma_fundamental_div_mod(len1, ki);
    assert(ki * (len1 / ki) == m1 * ki) by (nonlinear_arith)
        requires
            m1 == len1 / ki,
    ;
    assert(0 <= r1 < ki);
    let len2 = b2[0].len() as int;
    assert(len2 == r1 + y[0].len());
    lemma_fundamental_div_mod(len2, ki);
    assert(ki * (len2 / ki) == m2 * ki) by (nonlinear_arith)
        requires
            m2 == len2 / ki,
    ;
    let r2 = len2 - m2 * ki;
    assert(0 <= r2 < ki);
    assert(b[0].len() == len1 + y[0].len());
    assert((m1 + m2) * ki == m1 * ki + m2 * ki) by (nonlinear_arith);
    lemma_fundamental_div_mod_converse(b[0].len() as int, ki, m1 + m2, r2);
    assert(m == m1 + m2);
    assert forall|j: int| 0 <= j < c1.len() implies #[trigger] c[j]->chunk == c1[j]->chunk by {
        assert(c[j]->chunk == chunk_of(b, k, j));
        assert(c1[j]->chunk == chunk_of(b1, k, j));
        assert((j + 1) * ki <= m1 * ki) by (nonlinear_arith)
            requires
                j + 1 <= m1,
                ki > 0,
        ;
        assert(j * ki >= 0) by (nonlinear_arith)
            requires
                j >= 0,
                ki > 0,
        ;
        assert((j + 1) * ki == j * ki + ki) by (nonlinear_arith);
        assert forall|ch: int| 0 <= ch < n implies #[trigger] chunk_of(b, k, j)[ch] =~= chunk_of(b1, k, j)[ch] by {}
        assert(chunk_of(b, k, j) =~= chunk_of(b1, k, j));
    }
    assert forall|j: int| 0 <= j < c2.len() implies #[trigger] c[c1.len() + j]->chunk == c2[j]->chunk by {
        let jj = m1 + j;
        assert(c[jj]->chunk == chunk_of(b, k, jj));
        assert(c2[j]->chunk == chunk_of(b2, k, j));
        assert(jj * ki == m1 * ki + j * ki) by (nonlinear_arith)
            requires
                jj == m1 + j,
        ;
        assert((jj + 1) * ki == jj * ki + ki) by (nonlinear_arith);
        assert((j + 1) * ki == j * ki + ki) by (nonlinear_arith);
        assert((j + 1) * ki <= m2 * ki) by (nonlinear_arith)
            requires
                j + 1 <= m2,
                ki > 0,
        ;
        assert(j * ki >= 0) by (nonlinear_arith)
            requires
                j >= 0,
                ki > 0,
        ;
        assert forall|ch: int| 0 <= ch < n implies #[trigger] chunk_of(b, k, jj)[ch] =~= chunk_of(b2, k, j)[ch] by {
            assert(b2[ch] == p1[ch] + y[ch]);
            assert(p1[ch] == b1[ch].skip(m1 * ki));
        }
        assert(chunk_of(b, k, jj) =~= chunk_of(b2, k, j));
    }
    assert forall|ch: int| 0 <= ch < n implies #[trigger] q[ch] =~= p2[ch] by {
        assert(q[ch] == b[ch].skip((m * k) as int));
        assert(p2[ch] == b2[ch].skip((m2 * k) as int));
        assert(b2[ch] == p1[ch] + y[ch]);
        assert(p1[ch] == b1[ch].skip(m1 * ki));
        assert(m * ki == m1 * ki + m2 * ki) by (nonlinear_arith)
            requires
                m == m1 + m2,
        ;
    }
    assert(q =~= p2);
}

/// The engine is deterministic: from the same state, chunks with the same
/// samples give the same new state and the same result.
pub open spec fn deterministic_engine<E: ResampleEngine>() -> bool {
    forall|e: E, a: Vec<Vec<E::Sample>>, b: Vec<Vec<E::Sample>>, e1: E, r1: Result<Vec<Vec<E::Sample>>, Error>, e2: E, r2: Result<Vec<Vec<E::Sample>>, Error>|
        #![trigger call_ensures(E::process_chunk, (e, &a), (e1, r1)), call_ensures(E::process_chunk, (e, &b), (e2, r2))]
        call_ensures(E::process_chunk, (e, &a), (e1, r1)) && call_ensures(E::process_chunk, (e, &b), (e2, r2))
            && channel_views(a@) == channel_views(b@) ==> e1 == e2 && result_view(r1) == result_view(r2)
}

/// Two chains joined end to end form a chain.
pub proof fn lemma_chain_concat<E: ResampleEngine>(a: E, c1: Seq<EngineCall<E>>, m: E, c2: Seq<EngineCall<E>>, z: E)
    requires
        engine_chain(a, c1, m),
        engine_chain(m, c2, z),
    ensures
        engine_chain(a, c1 + c2, z),
{
    let c = c1 + c2;
    assert forall|i: int| 0 <= i < c.len() implies real_call(#[trigger] c[i]) by {
        if i < c1.len() {
            assert(c[i] == c1[i]);
        } else {
            assert(c[i] == c2[i - c1.len()]);
        }
    }
    assert forall|i: int, j: int|
        #![trigger c[i], c[j]]
        0 <= i && j == i + 1 && j < c.len() implies engine_after(c[i]) == engine_before(c[j]) by {
        if j < c1.len() {
            assert(c[i] == c1[i] && c[j] == c1[j]);
        } else if i >= c1.len() {
            assert(c[i] == c2[i - c1.len()] && c[j] == c2[j - c1.len()]);
        } else {
            assert(c[i] == c1[i] && c[j] == c2[0]);
        }
    }
    if c.len() > 0 {
        if c1.len() == 0 {
            assert(c[0] == c2[0]);
        } else {
            assert(c[0] == c1[0]);
        }
        if c2.len() == 0 {
            assert(c[c.len() - 1] == c1[c1.len() - 1]);
        } else {
            assert(c[c.len() - 1] == c2[c2.len() - 1]);
        }
    } else {
        assert(c1.len() == 0 && c2.len() == 0);
    }
}

/// The engine a chain has reached after its first `i` calls.
pub open spec fn reached<E: ResampleEngine>(e0: E, c: Seq<EngineCall<E>>, i: int) -> E {
    if i <= 0 {
        e0
    } else {
        engine_after(c[i - 1])
    }
}

/// Converting a PCM sample always gives the same engine sample.
pub open spec fn deterministic_conversion<E: ResampleEngine>() -> bool {
    forall|s: i16, a: E::Sample, b: E::Sample|
        #![trigger call_ensures(E::from_pcm, (s,), a), call_ensures(E::from_pcm, (s,), b)]
        call_ensures(E::from_pcm, (s,), a) && call_ensures(E::from_pcm, (s,), b) ==> a == b
}

/// Resetting any engine gives back `created`, the engine as created.
pub open spec fn reset_restores<E: ResampleEngine>(created: E) -> bool {
    forall|e: E, e2: E| #![trigger call_ensures(E::reset, (e,), e2)] call_ensures(E::reset, (e,), e2) ==> e2 == created
}

/// A chain splits after its first `p` calls into a chain from its start to
/// the engine those calls reached, and a chain from there to its end.
pub proof fn lemma_chain_split<E: ResampleEngine>(init: E, calls: Seq<EngineCall<E>>, cur: E, p: int)
    requires
        engine_chain(init, calls, cur),
        0 <= p <= calls.len(),
    ensures
        engine_chain(init, calls.take(p), reached(init, calls, p)),
        engine_chain(reached(init, calls, p), calls.skip(p), cur),
{
    let t = calls.take(p);
    let s = calls.skip(p);
    let mid = reached(init, calls, p);
    assert forall|i: int| 0 <= i < t.len() implies real_call(#[trigger] t[i]) by {
        assert(t[i] == calls[i]);
    }
    assert forall|i: int, j: int|
        #![trigger t[i], t[j]]
        0 <= i && j == i + 1 && j < t.len() implies engine_after(t[i]) == engine_before(t[j]) by {
        assert(t[i] == calls[i] && t[j] == calls[j]);
    }
    if p > 0 {
        assert(t[0] == calls[0]);
        assert(t[p - 1] == calls[p - 1]);
    }
    assert forall|i: int| 0 <= i < s.len() implies real_call(#[trigger] s[i]) by {
        assert(s[i] == calls[p + i]);
    }
    assert forall|i: int, j: int|
        #![trigger s[i], s[j]]
        0 <= i && j == i + 1 && j < s.len() implies engine_after(s[i]) == engine_before(s[j]) by {
        assert(s[i] == calls[p + i] && s[j] == calls[p + j]);
    }
    if s.len() == 0 {
        if p > 0 {
            assert(calls[p - 1] == calls[calls.len() - 1]);
        }
    } else {
        assert(s[0] == calls[p]);
        if p > 0 {
            assert(engine_after(calls[p - 1]) == engine_before(calls[p]));
        }
        assert(s[s.len() - 1] == calls[calls.len() - 1]);
    }
}


/// Two runs of process calls from the same engine, handing over chunks with
/// the same samples, go through the same engines and give the same outputs
/// when the engine is deterministic (first `i` calls).
proof fn lemma_same_runs_prefix<E: ResampleEngine>(
    e0: E,
    ca: Seq<EngineCall<E>>,
    za: E,
    cb: Seq<EngineCall<E>>,
    zb: E,
    i: int,
)
    requires
        deterministic_engine::<E>(),
        engine_chain(e0, ca, za),
        engine_chain(e0, cb, zb),
        ca.len() == cb.len(),
        forall|j: int|
            #![trigger ca[j]]
            0 <= j < ca.len() ==> ca[j] is Process && cb[j] is Process && ca[j]->chunk == cb[j]->chunk,
        0 <= i <= ca.len(),
    ensures
        forall|j: int|
            #![trigger ca[j]]
            0 <= j < i ==> engine_after(ca[j]) == engine_after(cb[j]) && ca[j]->output == cb[j]->output,
    decreases i,
{
    if i > 0 {
        lemma_same_runs_prefix(e0, ca, za, cb, zb, i - 1);
        let j = i - 1;
        assert(ca[j] is Process && cb[j] is Process && ca[j]->chunk == cb[j]->chunk);
        if j == 0 {
            assert(engine_before(ca[0]) == e0 && engine_before(cb[0]) == e0);
        } else {
            assert(engine_after(ca[j - 1]) == engine_before(ca[j]));
            assert(engine_after(cb[j - 1]) == engine_before(cb[j]));
            assert(engine_after(ca[j - 1]) == engine_after(cb[j - 1]));
        }
        assert(real_call(ca[j]) && real_call(cb[j]));
        match ca[j] {
            EngineCall::Process { before: ba, arg: aa, after: xa, result: ra, .. } => {
                match cb[j] {
                    EngineCall::Process { before: bb, arg: ab, after: xb, result: rb, .. } => {
                        assert(call_ensures(E::process_chunk, (ba, &aa), (xa, ra)));
                        assert(call_ensures(E::process_chunk, (bb, &ab), (xb, rb)));
                        assert(ba == bb);
                        assert(channel_views(aa@) == channel_views(ab@));
                    },
                    _ => {},
                }
            },
            _ => {},
        }
    }
}

/// Gathering the outputs of two runs one after the other gives, channel by
/// channel, what each run gathers, concatenated.
pub proof fn lemma_gathered_concat<S>(n: nat, a: Seq<Seq<Seq<S>>>, b: Seq<Seq<Seq<S>>>)
    ensures
        gathered(n, a + b) == joined(gathered(n, a), gathered(n, b)),
    decreases b.len(),
{
    if b.len() == 0 {
        assert(a + b =~= a);
        assert(joined(gathered(n, a), gathered(n, b)) =~= gathered(n, a));
    } else {
        lemma_gathered_concat(n, a, b.drop_last());
        assert((a + b).drop_last() =~= a + b.drop_last());
        assert((a + b).last() == b.last());
        let ga = gathered(n, a);
        let gb = gathered(n, b);
        let gbp = gathered(n, b.drop_last());
        let o = b.last();
        assert forall|c: int| 0 <= c < n implies #[trigger] gathered(n, a + b)[c] =~= ga[c] + gb[c] by {
            if c < o.len() {
                assert(gathered(n, a + b)[c] == (ga[c] + gbp[c]) + o[c]);
                assert(gb[c] == gbp[c] + o[c]);
            }
        }
        assert(gathered(n, a + b) =~= joined(gathered(n, a), gathered(n, b)));
    }
}

/// `x` is the engine-format conversion of the whole frames of `samples`
/// with `n` channels: `x[c][f]` is a conversion of sample `c` of frame `f`.
pub open spec fn converted<E: ResampleEngine>(samples: Seq<i16>, n: nat, x: Seq<Seq<E::Sample>>) -> bool {
    &&& x.len() == n
    &&& forall|c: int| 0 <= c < n ==> #[trigger] x[c].len() == samples.len() / n
    &&& forall|c: int, f: int|
        0 <= c < n && 0 <= f < samples.len() / n ==> call_ensures(
            E::from_pcm,
            (samples[f * n + c],),
            #[trigger] x[c][f],
        )
}

/// `r` is the dithered interleaving of `chs`: frame by frame, channel by
/// channel, each sample a 16-bit conversion of the matching sample, for as
/// many frames as the first channel holds.
pub open spec fn dithered<E: ResampleEngine>(chs: Seq<Seq<E::Sample>>, r: Seq<i16>) -> bool {
    if chs.len() == 0 || chs[0].len() == 0 {
        r.len() == 0
    } else {
        &&& r.len() == chs[0].len() * chs.len()
        &&& forall|f: int, c: int|
            0 <= f < chs[0].len() && 0 <= c < chs.len() ==> call_ensures(
                E::to_pcm,
                (#[trigger] chs[c][f],),
                r[f * chs.len() + c],
            )
    }
}

/// What `process` returns given what resampling the converted input gave:
/// the engine's error; the dithered interleaving of the output; or an error
/// when the output's channels are shorter than its first.
pub open spec fn pcm_result<E: ResampleEngine>(
    resampled: Result<Seq<Seq<E::Sample>>, Error>,
    r: Result<Vec<i16>, Error>,
) -> bool {
    match resampled {
        Err(e) => r matches Err(e2) && e2 == e,
        Ok(o) => if first_channel_shortest(o) {
            r matches Ok(out) && dithered::<E>(o, out@)
        } else {
            r is Err
        },
    }
}

/// A fixed-chunk resampling engine and the sample format it works in.
///
/// The engine takes exactly `chunk_size` frames per channel on each call of
/// `process_chunk`. Its sample type is opaque here: the resampler only moves
/// samples around, and asks the engine to convert them from and to 16-bit PCM.
pub trait ResampleEngine: Sized {
    /// The engine's sample type.
    type Sample: Copy;

    /// Creates an engine converting `source_rate` to `target_rate` for
    /// `channels` channels, taking `chunk_size` frames per call.
    fn create(source_rate: u32, target_rate: u32, channels: usize, chunk_size: usize) -> Result<Self, Error>;

    /// Resamples one chunk of `chunk_size` frames per channel, giving back
    /// the engine in its new state with the result.
    fn process_chunk(self, chunk: &Vec<Vec<Self::Sample>>) -> (Self, Result<Vec<Vec<Self::Sample>>, Error>);

    /// Clears the engine's internal state, giving back the cleared engine.
    fn reset(self) -> Self;

    /// Converts a 16-bit PCM sample to the engine's format.
    fn from_pcm(sample: i16) -> Self::Sample;

    /// Converts a sample to 16-bit PCM, with dither.
    fn to_pcm(sample: Self::Sample) -> i16;
}

/// Sinc-based resampler with TPDF dithering.
///
/// The engine requires *exactly* `chunk_size` input frames per call, so the
/// resampler buffers input internally and only calls the engine with exact
/// chunk-sized slices, carrying any remainder over to the next call.
pub struct Resampler<E: ResampleEngine> {
    /// The engine; always present between calls.
    inner: Option<E>,
    channels: usize,
    chunk_size: usize,
    /// Buffered input samples per channel, not yet consumed by `inner`.
    input_buffer: ChunkQueue<E::Sample>,
    /// The engine as it was created, before any call.
    created: Ghost<E>,
    /// Every call made to the engine since it was created, in order.
    calls: Ghost<Seq<EngineCall<E>>>,
}

impl<E: ResampleEngine> Resampler<E> {
    /// The number of channels.
    pub closed spec fn channel_count(&self) -> nat {
        self.channels as nat
    }

    /// The number of frames the engine takes per call.
    pub closed spec fn frames_per_chunk(&self) -> nat {
        self.chunk_size as nat
    }

    /// The input buffered in front of the engine.
    pub closed spec fn buffered(&self) -> ChunkQueue<E::Sample> {
        self.input_buffer
    }

    /// The resampler holds an engine.
    pub closed spec fn holds_engine(&self) -> bool {
        self.inner is Some
    }

    /// The engine in its current state.
    pub closed spec fn engine(&self) -> E {
        self.inner->0
    }

    /// The engine as it was created, before any call.
    pub closed spec fn initial_engine(&self) -> E {
        self.created@
    }

    /// Every call made to the engine since it was created, in order.
    pub closed spec fn engine_calls(&self) -> Seq<EngineCall<E>> {
        self.calls@
    }

    /// The buffer is well formed and matches the resampler's channels and
    /// chunk size; the engine is the one reached from the created engine
    /// through the logged calls, each a real engine call.
    pub open spec fn wf(&self) -> bool {
        &&& self.holds_engine()
        &&& engine_chain(self.initial_engine(), self.engine_calls(), self.engine())
        &&& self.buffered().inv()
        &&& self.buffered().channels() == self.channel_count()
        &&& self.buffered().frames_per_chunk() == self.frames_per_chunk()
    }

    /// A fresh resampler: well formed, with nothing buffered, received or
    /// handed out, for `channels` channels and chunks of `chunk_size` frames.
    pub open spec fn fresh(&self, channels: nat, chunk_size: nat) -> bool {
        &&& self.wf()
        &&& self.channel_count() == channels
        &&& self.frames_per_chunk() == chunk_size
        &&& self.buffered().received() == Seq::new(channels, |c: int| Seq::<E::Sample>::empty())
        &&& self.buffered().pending() == self.buffered().received()
        &&& self.buffered().emitted() == self.buffered().received()
    }

    /// The calls made to the engine after those of `before`.
    pub open spec fn calls_since(&self, before: &Self) -> Seq<EngineCall<E>> {
        self.engine_calls().skip(before.engine_calls().len() as int)
    }

    /// What `process_f32` gives from state `self` on per-channel `input`,
    /// ending in state `after`: input without frames leaves everything as it
    /// was; otherwise the input is appended to the buffer, which is drained
    /// through the engine.
    pub open spec fn f32_step(&self, input: Seq<Seq<E::Sample>>, after: &Self) -> bool {
        if input.len() == 0 || input[0].len() == 0 {
            *after == *self
        } else {
            let n = self.channel_count();
            let b = Seq::new(n, |c: int| self.buffered().pending()[c] + input[c]);
            &&& after.wf()
            &&& after.channel_count() == n
            &&& after.frames_per_chunk() == self.frames_per_chunk()
            &&& after.initial_engine() == self.initial_engine()
            &&& self.engine_calls().is_prefix_of(after.engine_calls())
            &&& engine_chain(self.engine(), after.calls_since(self), after.engine())
            &&& after.buffered().received() == Seq::new(n, |c: int| self.buffered().received()[c] + input[c])
            &&& drained_through_engine(b, self.frames_per_chunk(), after.calls_since(self), after.buffered().pending())
        }
    }

    /// The result of that step: empty for input without frames, else the
    /// result of the engine calls made.
    pub open spec fn f32_result(&self, input: Seq<Seq<E::Sample>>, after: &Self) -> Result<Seq<Seq<E::Sample>>, Error> {
        if input.len() == 0 || input[0].len() == 0 {
            Ok(Seq::empty())
        } else {
            run_result(self.channel_count(), after.calls_since(self))
        }
    }

    /// Splitting input across calls does not change what a deterministic
    /// engine makes of it: feeding `x` and then `y` ends with the same engine
    /// and the same buffered remainder as feeding `x` followed by `y` at once,
    /// and the two outputs, concatenated channel by channel, are the single
    /// call's output (when every engine call succeeds).
    pub proof fn lemma_split_input_same_output(
        &self,
        x: Seq<Seq<E::Sample>>,
        y: Seq<Seq<E::Sample>>,
        mid: &Self,
        after_split: &Self,
        after_whole: &Self,
    )
        requires
            deterministic_engine::<E>(),
            self.wf(),
            self.channel_count() > 0,
            x.len() == self.channel_count(),
            y.len() == self.channel_count(),
            equal_lengths(x),
            equal_lengths(y),
            x[0].len() > 0,
            y[0].len() > 0,
            self.f32_step(x, mid),
            self.f32_result(x, mid) is Ok,
            mid.f32_step(y, after_split),
            mid.f32_result(y, after_split) is Ok,
            self.f32_step(joined(x, y), after_whole),
            self.f32_result(joined(x, y), after_whole) is Ok,
        ensures
            after_whole.engine() == after_split.engine(),
            after_whole.buffered().pending() == after_split.buffered().pending(),
            self.f32_result(joined(x, y), after_whole) == Ok::<Seq<Seq<E::Sample>>, Error>(
                joined(self.f32_result(x, mid)->Ok_0, mid.f32_result(y, after_split)->Ok_0),
            ),
    {
        let n = self.channel_count();
        let k = self.frames_per_chunk();
        let p = self.buffered().pending();
        let p1 = mid.buffered().pending();
        let p2 = after_split.buffered().pending();
        let q = after_whole.buffered().pending();
        let c1 = mid.calls_since(self);
        let c2 = after_split.calls_since(mid);
        let c = after_whole.calls_since(self);
        let xy = joined(x, y);
        assert(xy.len() == n && xy[0].len() > 0);
        assert(Seq::new(n, |i: int| p[i] + x[i]) =~= joined(p, x));
        assert(Seq::new(n, |i: int| p1[i] + y[i]) =~= joined(p1, y));
        assert(Seq::new(n, |i: int| p[i] + xy[i]) =~= joined(joined(p, x), y)) by {
            assert forall|i: int| 0 <= i < n implies #[trigger] (p[i] + xy[i]) =~= joined(joined(p, x), y)[i] by {}
        }
        assert(equal_lengths(p)) by {
            assert(self.buffered().inv());
        }
        lemma_split_feeds_same_chunks(p, x, y, k, c1, p1, c2, p2, c, q);
        let cc = c1 + c2;
        lemma_chain_concat(self.engine(), c1, mid.engine(), c2, after_split.engine());
        assert forall|j: int|
            #![trigger c[j]]
            0 <= j < c.len() implies c[j] is Process && cc[j] is Process && c[j]->chunk == cc[j]->chunk by {
            if j < c1.len() {
                assert(cc[j] == c1[j]);
                assert(c[j]->chunk == c1[j]->chunk);
            } else {
                let jj = j - c1.len();
                assert(cc[j] == c2[jj]);
                assert(c[c1.len() + jj]->chunk == c2[jj]->chunk);
            }
        }
        lemma_same_runs_prefix(self.engine(), c, after_whole.engine(), cc, after_split.engine(), c.len() as int);
        if c.len() > 0 {
            assert(engine_after(c[c.len() - 1]) == engine_after(cc[c.len() - 1]));
        }
        // Every call of the three runs was accepted.
        assert forall|j: int| 0 <= j < c.len() implies #[trigger] c[j]->output is Ok by {
            if j == c.len() - 1 {
                assert(run_result(n, c) is Ok);
            }
        }
        assert forall|j: int| 0 <= j < c1.len() implies #[trigger] c1[j]->output is Ok by {
            if j == c1.len() - 1 {
                assert(run_result(n, c1) is Ok);
            }
        }
        assert forall|j: int| 0 <= j < c2.len() implies #[trigger] c2[j]->output is Ok by {
            if j == c2.len() - 1 {
                assert(run_result(n, c2) is Ok);
            }
        }
        assert(call_outputs(c) =~= call_outputs(c1) + call_outputs(c2)) by {
            assert forall|j: int| 0 <= j < c.len() implies #[trigger] call_outputs(c)[j] == (call_outputs(c1)
                + call_outputs(c2))[j] by {
                assert(c[j]->output == cc[j]->output);
                if j < c1.len() {
                    assert(cc[j] == c1[j]);
                } else {
                    assert(cc[j] == c2[j - c1.len()]);
                }
            }
        }
        lemma_gathered_concat(n, call_outputs(c1), call_outputs(c2));
    }

    /// What `reset` does from state `self`, ending in state `after`: the
    /// engine is reset (the call after the earlier ones is a reset of the
    /// current engine), then primed with all [`priming_chunks`] chunks of
    /// silence whatever it answers; the buffer is emptied.
    pub open spec fn reset_step(&self, after: &Self) -> bool {
        let m = self.engine_calls().len();
        &&& after.fresh(self.channel_count(), self.frames_per_chunk())
        &&& after.initial_engine() == self.initial_engine()
        &&& after.engine_calls().len() > m
        &&& self.engine_calls().is_prefix_of(after.engine_calls())
        &&& after.engine_calls()[m as int] matches EngineCall::Reset { before, .. } && before == self.engine()
        &&& is_priming::<E>(
            after.engine_calls().skip(m + 1int),
            self.channel_count(),
            self.frames_per_chunk(),
            priming_chunks(self.frames_per_chunk() as int) as nat,
            false,
        )
    }

    /// After a reset, the resampler holds the same engine and the same (empty)
    /// buffer as a freshly created one whose priming was accepted throughout,
    /// when resetting gives back the engine as created and the engine and the
    /// sample conversion are deterministic; from there on both behave alike.
    pub proof fn lemma_reset_like_fresh(&self, after: &Self, fresh: &Self)
        requires
            deterministic_engine::<E>(),
            deterministic_conversion::<E>(),
            reset_restores::<E>(self.initial_engine()),
            self.wf(),
            after.wf(),
            self.reset_step(after),
            fresh.wf(),
            fresh.fresh(self.channel_count(), self.frames_per_chunk()),
            fresh.initial_engine() == self.initial_engine(),
            is_priming::<E>(
                fresh.engine_calls(),
                self.channel_count(),
                self.frames_per_chunk(),
                priming_chunks(self.frames_per_chunk() as int) as nat,
                true,
            ),
            forall|i: int| 0 <= i < fresh.engine_calls().len() ==> #[trigger] fresh.engine_calls()[i]->output is Ok,
        ensures
            after.engine() == fresh.engine(),
            after.buffered().pending() == fresh.buffered().pending(),
            after.channel_count() == fresh.channel_count(),
            after.frames_per_chunk() == fresh.frames_per_chunk(),
    {
        let m = self.engine_calls().len() as int;
        let calls = after.engine_calls();
        let init = after.initial_engine();
        let count = priming_chunks(self.frames_per_chunk() as int) as nat;
        lemma_chain_split(init, calls, after.engine(), m + 1);
        let er = reached(init, calls, m + 1);
        assert(real_call(calls[m]));
        assert(er == self.initial_engine());
        let pr = calls.skip(m + 1);
        let fc = fresh.engine_calls();
        if fc.len() < count {
            assert(fc[fc.len() - 1]->output is Ok);
        }
        assert(fc.len() == count);
        assert(pr.len() == count);
        let v = choose|v: E::Sample|
            #![trigger call_ensures(E::from_pcm, (0i16,), v)]
            call_ensures(E::from_pcm, (0i16,), v) && forall|i: int|
                #![trigger pr[i]]
                0 <= i < pr.len() ==> pr[i] is Process && pr[i]->chunk == uniform_chunk(
                    self.channel_count(),
                    self.frames_per_chunk(),
                    v,
                );
        let w = choose|v: E::Sample|
            #![trigger call_ensures(E::from_pcm, (0i16,), v)]
            call_ensures(E::from_pcm, (0i16,), v) && forall|i: int|
                #![trigger fc[i]]
                0 <= i < fc.len() ==> fc[i] is Process && fc[i]->chunk == uniform_chunk(
                    self.channel_count(),
                    self.frames_per_chunk(),
                    v,
                );
        assert(v == w);
        assert forall|j: int|
            #![trigger pr[j]]
            0 <= j < pr.len() implies pr[j] is Process && fc[j] is Process && pr[j]->chunk == fc[j]->chunk by {}
        lemma_same_runs_prefix(er, pr, after.engine(), fc, fresh.engine(), pr.len() as int);
        if pr.len() == 0 {
            assert(after.engine() == er);
            assert(fresh.engine() == fresh.initial_engine());
        } else {
            assert(engine_after(pr[pr.len() - 1]) == engine_after(fc[fc.len() - 1]));
        }
        assert(after.buffered().pending() =~= fresh.buffered().pending());
    }

    /// Feeds `count` chunks of silence (each sample the engine's conversion of
    /// a zero PCM sample) through the engine, stopping after the first chunk
    /// the engine refuses when `stop_on_error` is set.
    fn prime(&mut self, count: usize, stop_on_error: bool)
        requires
            old(self).wf(),
        ensures
            final(self).wf(),
            final(self).channel_count() == old(self).channel_count(),
            final(self).frames_per_chunk() == old(self).frames_per_chunk(),
            final(self).buffered() == old(self).buffered(),
            final(self).initial_engine() == old(self).initial_engine(),
            old(self).engine_calls().is_prefix_of(final(self).engine_calls()),
            is_priming::<E>(
                final(self).calls_since(old(self)),
                old(self).channel_count(),
                old(self).frames_per_chunk(),
                count as nat,
                stop_on_error,
            ),
    {
        let silence = E::from_pcm(0);
        let silence_chunk = filled_channels(self.channels, self.chunk_size, silence);
        let ghost n = self.channels as nat;
        let ghost k = self.chunk_size as nat;
        let ghost chunk_view = uniform_chunk(n, k, silence);
        let ghost start = self.calls@;
        assert(channel_views(silence_chunk@) =~= chunk_view) by {
            assert forall|c: int| 0 <= c < n implies #[trigger] channel_views(silence_chunk@)[c] =~= chunk_view[c] by {
                assert(silence_chunk@[c]@ == Seq::new(k, |i: int| silence));
            }
        }
        let ghost mut calls: Seq<EngineCall<E>> = Seq::empty();
        let mut failed = false;
        let mut i: usize = 0;
        while i < count && !failed
            invariant
                i <= count,
                self.wf(),
                self.channels == old(self).channels,
                self.chunk_size == old(self).chunk_size,
                self.input_buffer == old(self).input_buffer,
                self.created == old(self).created,
                self.calls@ == start + calls,
                start == old(self).calls@,
                n == self.channels,
                k == self.chunk_size,
                chunk_view == uniform_chunk(n, k, silence),
                channel_views(silence_chunk@) == chunk_view,
                calls.len() == i,
                forall|j: int| #![trigger calls[j]] 0 <= j < i ==> calls[j] is Process && calls[j]->chunk == chunk_view,
                failed ==> stop_on_error && i > 0 && calls[i - 1]->output is Err,
                stop_on_error ==> forall|j: int| #![trigger calls[j]] 0 <= j < i - 1 ==> calls[j]->output is Ok,
                stop_on_error && !failed ==> forall|j: int| #![trigger calls[j]] 0 <= j < i ==> calls[j]->output is Ok,
            decreases count - i,
        {
            let e = self.inner.take().unwrap();
            let ghost before = e;
            let (e2, r) = e.process_chunk(&silence_chunk);
            let ghost entry = EngineCall::Process {
                before,
                arg: silence_chunk,
                after: e2,
                result: r,
                chunk: chunk_view,
                output: result_view(r),
            };
            proof {
                lemma_chain_push(self.created@, self.calls@, before, entry);
                calls = calls.push(entry);
                self.calls@ = self.calls@.push(entry);
                assert(self.calls@ =~= start + calls);
            }
            self.inner = Some(e2);
            let accepted = r.is_ok();
            if !accepted && stop_on_error {
                failed = true;
            }
            i = i + 1;
        }
        proof {
            assert(self.calls@.skip(start.len() as int) =~= calls);
            assert(start.is_prefix_of(self.calls@)) by {
                assert(self.calls@.take(start.len() as int) =~= start);
            }
            assert(call_ensures(E::from_pcm, (0i16,), silence));
        }
    }

    /// Builds a resampler around an engine created for `channels` channels
    /// and `chunk_size` frames per call, and primes it: the engine is fed
    /// [`priming_chunks`] chunks of silence, stopping after the first chunk it
    /// refuses. The input buffer starts empty.
    pub fn from_engine(inner: E, channels: u8, chunk_size: usize) -> (res: Self)
        requires
            chunk_size > 0,
        ensures
            res.fresh(channels as nat, chunk_size as nat),
            res.initial_engine() == inner,
            is_priming::<E>(
                res.engine_calls(),
                channels as nat,
                chunk_size as nat,
                priming_chunks(chunk_size as int) as nat,
                true,
            ),
    {
        let channels_usize = channels as usize;
        let ghost created = inner;
        let mut res = Resampler {
            inner: Some(inner),
            channels: channels_usize,
            chunk_size,
            input_buffer: ChunkQueue::new(channels_usize, chunk_size),
            created: Ghost(created),
            calls: Ghost(Seq::empty()),
        };
        let priming_chunks = priming_chunk_count(chunk_size);
        let ghost before = res;
        res.prime(priming_chunks, true);
        assert(res.calls_since(&before) =~= res.engine_calls());
        res
    }

    /// Creates and primes a resampler with the default chunk size.
    ///
    /// The resampler is primed with silence to prevent startup distortion.
    pub fn new(source_rate: u32, target_rate: u32, channels: u8) -> (r: Result<Self, Error>)
        ensures
            r matches Err(e) ==> call_ensures(
                E::create,
                (source_rate, target_rate, channels as usize, DEFAULT_CHUNK_SIZE),
                Err::<E, Error>(e),
            ),
            r matches Ok(res) ==> {
                &&& call_ensures(
                    E::create,
                    (source_rate, target_rate, channels as usize, DEFAULT_CHUNK_SIZE),
                    Ok::<E, Error>(res.initial_engine()),
                )
                &&& res.fresh(channels as nat, DEFAULT_CHUNK_SIZE as nat)
                &&& is_priming::<E>(
                    res.engine_calls(),
                    channels as nat,
                    DEFAULT_CHUNK_SIZE as nat,
                    priming_chunks(DEFAULT_CHUNK_SIZE as int) as nat,
                    true,
                )
            },
    {
        Self::with_chunk_size(source_rate, target_rate, channels, DEFAULT_CHUNK_SIZE)
    }

    /// Creates and primes a resampler with a custom chunk size: the engine
    /// is created for `channels` channels and `chunk_size` frames per call
    /// (its error, if any, is returned), then the resampler is built around
    /// it as [`Self::from_engine`] does.
    pub fn with_chunk_size(source_rate: u32, target_rate: u32, channels: u8, chunk_size: usize) -> (r: Result<Self, Error>)
        requires
            chunk_size > 0,
        ensures
            r matches Err(e) ==> call_ensures(
                E::create,
                (source_rate, target_rate, channels as usize, chunk_size),
                Err::<E, Error>(e),
            ),
            r matches Ok(res) ==> {
                &&& call_ensures(
                    E::create,
                    (source_rate, target_rate, channels as usize, chunk_size),
                    Ok::<E, Error>(res.initial_engine()),
                )
                &&& res.fresh(channels as nat, chunk_size as nat)
                &&& is_priming::<E>(
                    res.engine_calls(),
                    channels as nat,
                    chunk_size as nat,
                    priming_chunks(chunk_size as int) as nat,
                    true,
                )
            },
    {
        match E::create(source_rate, target_rate, channels as usize, chunk_size) {
            Ok(inner) => Ok(Self::from_engine(inner, channels, chunk_size)),
            Err(e) => Err(e),
        }
    }

    /// Resets the resampler (for seeking): resets the engine, empties the
    /// input buffer, then primes the engine again with silence (all chunks,
    /// whatever the engine answers).
    pub fn reset(&mut self)
        requires
            old(self).wf(),
        ensures
            old(self).reset_step(final(self)),
    {
        let e = self.inner.take().unwrap();
        let ghost was = e;
        let e2 = e.reset();
        proof {
            let entry = EngineCall::Reset { before: was, after: e2 };
            lemma_chain_push(self.created@, self.calls@, was, entry);
            self.calls@ = self.calls@.push(entry);
        }
        self.inner = Some(e2);
        self.input_buffer.clear();
        let priming_chunks = priming_chunk_count(self.chunk_size);
        let ghost state = *self;
        self.prime(priming_chunks, false);
        proof {
            let pre = state.engine_calls();
            let m = old(self).engine_calls().len() as int;
            assert(pre.len() == m + 1);
            assert(self.engine_calls().subrange(0, pre.len() as int) =~= pre);
            assert(self.engine_calls()[m] == pre[m]);
            assert(self.engine_calls().subrange(0, m) =~= old(self).engine_calls()) by {
                assert(pre.subrange(0, m) =~= old(self).engine_calls());
            }
            assert(self.calls_since(&state) =~= self.engine_calls().skip(m + 1));
        }
    }

    /// Processes per-channel samples in the engine's format.
    ///
    /// Accepts any number of input frames per call: input is appended to the
    /// internal per-channel buffer, which is drained through the engine in
    /// exact `chunk_size` slices, in order; the engine's outputs are gathered
    /// channel by channel. Leftover frames (fewer than `chunk_size`) are
    /// carried over to the next call rather than discarded. If the engine
    /// refuses a chunk, its error is returned: the chunks before it are
    /// consumed and the refused chunk stays buffered. Input with no channel or
    /// an empty first channel gives an empty result and changes nothing.
    pub fn process_f32(&mut self, channels: &[Vec<E::Sample>]) -> (r: Result<Vec<Vec<E::Sample>>, Error>)
        requires
            old(self).wf(),
            has_frames(channels@) ==> {
                &&& old(self).channel_count() > 0
                &&& channels@.len() >= old(self).channel_count()
                &&& forall|c: int|
                    0 <= c < old(self).channel_count() ==> #[trigger] channels@[c]@.len() == channels@[0]@.len()
            },
        ensures
            final(self).wf(),
            final(self).channel_count() == old(self).channel_count(),
            final(self).frames_per_chunk() == old(self).frames_per_chunk(),
            old(self).f32_step(channel_views(channels@), final(self)),
            result_view(r) == old(self).f32_result(channel_views(channels@), final(self)),
            !has_frames(channels@) ==> (r matches Ok(out) && out@.len() == 0),
            !has_frames(channels@) ==> *final(self) == *old(self),
            has_frames(channels@) ==> final(self).buffered().received() == appended(
                old(self).buffered().received(),
                channels@,
            ),
            has_frames(channels@) ==> (r matches Ok(out) ==> out@.len() == old(self).channel_count()),
            has_frames(channels@) && old(self).buffered().pending()[0].len() + channels@[0]@.len()
                < old(self).frames_per_chunk() ==> (r matches Ok(out) && out@.len()
                == old(self).channel_count() && forall|c: int|
                0 <= c < out@.len() ==> #[trigger] out@[c]@.len() == 0),
            has_frames(channels@) && r is Ok ==> forall|c: int|
                0 <= c < final(self).channel_count() ==> #[trigger] final(self).buffered().pending()[c].len()
                    < final(self).frames_per_chunk(),
            has_frames(channels@) && r is Ok ==> forall|c: int|
                0 <= c < final(self).channel_count() ==> #[trigger] final(self).buffered().emitted()[c]
                    == final(self).buffered().received()[c].take(
                    whole_chunk_frames(
                        final(self).buffered().received()[c].len(),
                        final(self).frames_per_chunk(),
                    ),
                ),
    {
        if channels.len() == 0 || channels[0].len() == 0 {
            let none: Vec<Vec<E::Sample>> = Vec::new();
            assert(channel_views(none@) =~= Seq::<Seq<E::Sample>>::empty());
            return Ok(none);
        }
        let ghost input = channel_views(channels@);
        let ghost n = self.channels as nat;
        let ghost k = self.chunk_size as nat;
        let ghost b = Seq::new(n, |c: int| self.input_buffer.pending()[c] + input[c]);
        let ghost start = self.calls@;
        let _ = self.input_buffer.push_frames(channels);
        proof {
            assert(self.input_buffer.pending() =~= b);
            assert forall|c: int| 0 <= c < n implies #[trigger] b[c].len() == b[0].len() by {
                assert(old(self).buffered().pending()[c].len() == old(self).buffered().pending()[0].len());
                assert(channels@[c]@.len() == channels@[0]@.len());
            }
            assert(0 * k == 0);
            assert forall|c: int| 0 <= c < n implies #[trigger] self.input_buffer.pending()[c] =~= b[c].skip(
                (0 * k) as int,
            ) by {}
            assert(self.input_buffer.pending() =~= Seq::new(n, |c: int| b[c].skip((0 * k) as int)));
        }
        let mut output: Vec<Vec<E::Sample>> = Vec::new();
        let mut c: usize = 0;
        while c < self.channels
            invariant
                c <= self.channels,
                output@.len() == c,
                forall|j: int| 0 <= j < c ==> #[trigger] output@[j]@ == Seq::<E::Sample>::empty(),
            decreases self.channels - c,
        {
            output.push(Vec::new());
            c = c + 1;
        }
        let ghost mut new: Seq<EngineCall<E>> = Seq::empty();
        assert(channel_views(output@) =~= gathered(n, call_outputs(new)));
        loop
            invariant
                self.wf(),
                self.channels == old(self).channels,
                self.chunk_size == old(self).chunk_size,
                self.created == old(self).created,
                n == self.channels,
                k == self.chunk_size,
                n > 0,
                k > 0,
                old(self).wf(),
                has_frames(channels@),
                channels@.len() >= n,
                input == channel_views(channels@),
                n == old(self).channel_count(),
                k == old(self).frames_per_chunk(),
                b == Seq::new(n, |c: int| old(self).buffered().pending()[c] + input[c]),
                start == old(self).calls@,
                self.calls@ == start + new,
                output@.len() == n,
                b.len() == n,
                forall|c: int| 0 <= c < n ==> #[trigger] b[c].len() == b[0].len(),
                forall|j: int|
                    #![trigger new[j]]
                    0 <= j < new.len() ==> new[j] is Process && new[j]->chunk == chunk_of(b, k, j) && new[j]->output
                        is Ok,
                new.len() * k <= b[0].len(),
                self.input_buffer.pending() == Seq::new(n, |c: int| b[c].skip((new.len() * k) as int)),
                channel_views(output@) == gathered(n, call_outputs(new)),
                self.input_buffer.received() == appended(old(self).buffered().received(), channels@),
            ensures
                self.wf(),
                self.channels == old(self).channels,
                self.chunk_size == old(self).chunk_size,
                self.created == old(self).created,
                self.calls@ == start + new,
                old(self).wf(),
                has_frames(channels@),
                input == channel_views(channels@),
                n == old(self).channel_count(),
                k == old(self).frames_per_chunk(),
                b == Seq::new(n, |c: int| old(self).buffered().pending()[c] + input[c]),
                start == old(self).calls@,
                b.len() == n,
                forall|c: int| 0 <= c < n ==> #[trigger] b[c].len() == b[0].len(),
                k > 0,
                n > 0,
                output@.len() == n,
                forall|j: int|
                    #![trigger new[j]]
                    0 <= j < new.len() ==> new[j] is Process && new[j]->chunk == chunk_of(b, k, j) && new[j]->output
                        is Ok,
                new.len() * k <= b[0].len(),
                new.len() == b[0].len() / k,
                self.input_buffer.pending() == Seq::new(n, |c: int| b[c].skip((new.len() * k) as int)),
                channel_views(output@) == gathered(n, call_outputs(new)),
                self.input_buffer.received() == appended(old(self).buffered().received(), channels@),
            decreases self.input_buffer.pending()[0].len(),
        {
            let ghost m = new.len();
            match self.input_buffer.front_chunk() {
                None => {
                    proof {
                        let rest = (b[0].len() - m * k) as int;
                        assert(self.input_buffer.pending()[0].len() == rest);
                        lemma_fundamental_div_mod_converse(b[0].len() as int, k as int, m as int, rest);
                    }
                    break;
                },
                Some(chunk) => {
                    proof {
                        assert(self.input_buffer.pending()[0].len() >= k);
                        assert((m + 1) * k == m * k + k) by (nonlinear_arith);
                        assert forall|c: int| 0 <= c < n implies #[trigger] channel_views(chunk@)[c] =~= chunk_of(b, k, m as int)[c] by {
                            assert(b[c].len() == b[0].len());
                        }
                        assert(channel_views(chunk@) =~= chunk_of(b, k, m as int));
                    }
                    let ghost g = gathered(n, call_outputs(new));
                    let ghost prev = new;
                    let e = self.inner.take().unwrap();
                    let ghost was = e;
                    let (e2, res) = e.process_chunk(&chunk);
                    let ghost entry = EngineCall::Process {
                        before: was,
                        arg: chunk,
                        after: e2,
                        result: res,
                        chunk: chunk_of(b, k, m as int),
                        output: result_view(res),
                    };
                    proof {
                        lemma_chain_push(self.created@, self.calls@, was, entry);
                        new = new.push(entry);
                        self.calls@ = self.calls@.push(entry);
                        assert(self.calls@ =~= start + new);
                    }
                    self.inner = Some(e2);
                    match res {
                        Ok(resampled) => {
                            let ghost o = channel_views(resampled@);
                            proof {
                                assert(new.drop_last() =~= prev);
                                assert(call_outputs(new).drop_last() =~= call_outputs(prev));
                            }
                            extend_channels(&mut output, &resampled);
                            self.input_buffer.drop_front_chunk();
                            proof {
                                assert(call_outputs(new).last() == o);
                                assert(gathered(n, call_outputs(prev)) == g);
                                assert(call_outputs(new).drop_last() =~= call_outputs(prev));
                                assert(channel_views(output@) =~= gathered(n, call_outputs(new)));
                                assert forall|c: int| 0 <= c < n implies #[trigger] self.input_buffer.pending()[c]
                                    =~= b[c].skip((new.len() * k) as int) by {
                                    assert(b[c].len() == b[0].len());
                                }
                                assert(self.input_buffer.pending() =~= Seq::new(n, |c: int| b[c].skip((new.len() * k) as int)));
                            }
                        },
                        Err(e) => {
                            proof {
                                assert(self.calls@.skip(start.len() as int) =~= new);
                                assert(start.is_prefix_of(self.calls@)) by {
                                    assert(self.calls@.subrange(0, start.len() as int) =~= start);
                                }
                                assert(self.input_buffer.pending() =~= Seq::new(n, |c: int| b[c].skip((new.len() - 1) * k)));
                                assert(run_result(n, new) == Err::<Seq<Seq<E::Sample>>, Error>(e));
                                assert(drained_through_engine(b, k, new, self.input_buffer.pending()));
                                assert(self.input_buffer.received() == appended(old(self).buffered().received(), channels@));
                                assert(old(self).buffered().received().len() == n);
                                assert forall|c: int| 0 <= c < n implies #[trigger] self.buffered().received()[c]
                                    == old(self).buffered().received()[c] + input[c] by {
                                    assert(input[c] == channels@[c]@);
                                }
                                assert(self.buffered().received() =~= Seq::new(n, |c: int| old(self).buffered().received()[c] + input[c]));
                                assert(self.calls_since(old(self)) == new);
                                assert(old(self).f32_step(input, self));
                                assert(k <= b[0].len()) by (nonlinear_arith)
                                    requires
                                        new.len() * k <= b[0].len(),
                                        new.len() >= 1,
                                        k > 0,
                                ;
                            }
                            return Err(e);
                        },
                    }
                },
            }
        }
        proof {
            assert(self.calls@.skip(start.len() as int) =~= new);
            assert(start.is_prefix_of(self.calls@)) by {
                assert(self.calls@.subrange(0, start.len() as int) =~= start);
            }
            if new.len() > 0 {
                assert(new[new.len() - 1]->output is Ok);
            }
            assert(run_result(n, new) == Ok::<Seq<Seq<E::Sample>>, Error>(gathered(n, call_outputs(new))));
            assert(drained_through_engine(b, k, new, self.input_buffer.pending()));
            assert forall|c: int| 0 <= c < self.channel_count() implies #[trigger] self.buffered().pending()[c].len()
                < self.frames_per_chunk() by {
                assert(self.buffered().pending()[c].len() == self.buffered().pending()[0].len());
                lemma_fundamental_div_mod(b[0].len() as int, k as int);
                assert(k * (b[0].len() / k) == new.len() * k) by (nonlinear_arith)
                    requires
                        new.len() == b[0].len() / k,
                ;
            }
            self.input_buffer.lemma_drained_emits_whole_chunks();
            assert(self.buffered().received() =~= Seq::new(n, |c: int| old(self).buffered().received()[c] + input[c]));
            assert(self.calls_since(old(self)) == new);
            assert(drained_through_engine(b, k, self.calls_since(old(self)), self.buffered().pending()));
            assert(old(self).f32_step(input, self));
            assert(b[0].len() == old(self).buffered().pending()[0].len() + channels@[0]@.len()) by {
                assert(input[0] == channels@[0]@);
            }
            if b[0].len() < k {
                lemma_fundamental_div_mod_converse(b[0].len() as int, k as int, 0, b[0].len() as int);
                assert(new.len() == 0);
                assert(gathered(n, call_outputs(new)) =~= Seq::new(n, |c: int| Seq::<E::Sample>::empty()));
                assert forall|c: int| 0 <= c < output@.len() implies #[trigger] output@[c]@.len() == 0 by {
                    assert(channel_views(output@)[c] == output@[c]@);
                }
            }
        }
        Ok(output)
    }

    /// Processes interleaved 16-bit PCM samples.
    ///
    /// Splits the whole frames into channels and converts each sample to the
    /// engine's format (a trailing partial frame is dropped), resamples them
    /// as [`Self::process_f32`] does, then interleaves the result back to
    /// 16-bit PCM with dither.
    pub fn process(&mut self, samples: &[i16]) -> (r: Result<Vec<i16>, Error>)
        requires
            old(self).wf(),
            samples@.len() > 0 ==> old(self).channel_count() > 0,
        ensures
            final(self).wf(),
            final(self).channel_count() == old(self).channel_count(),
            final(self).frames_per_chunk() == old(self).frames_per_chunk(),
            samples@.len() == 0 ==> (r matches Ok(out) && out@.len() == 0),
            samples@.len() == 0 ==> *final(self) == *old(self),
            samples@.len() > 0 ==> exists|x: Seq<Seq<E::Sample>>|
                #![trigger converted::<E>(samples@, old(self).channel_count(), x)]
                {
                    &&& converted::<E>(samples@, old(self).channel_count(), x)
                    &&& old(self).f32_step(x, final(self))
                    &&& pcm_result::<E>(old(self).f32_result(x, final(self)), r)
                },
            samples@.len() > 0 ==> final(self).buffered().received().len() == old(self).channel_count(),
            samples@.len() > 0 ==> forall|c: int| 0 <= c < old(self).channel_count() ==>
                #[trigger] final(self).buffered().received()[c].len() == old(self).buffered().received()[c].len()
                    + samples@.len() / old(self).channel_count(),
            samples@.len() > 0 && old(self).buffered().pending()[0].len() + samples@.len() / old(self).channel_count()
                < old(self).frames_per_chunk() ==> (r matches Ok(out) && out@.len() == 0),
            samples@.len() / old(self).channel_count() > 0 && r is Ok ==> forall|c: int|
                0 <= c < final(self).channel_count() ==> #[trigger] final(self).buffered().pending()[c].len()
                    < final(self).frames_per_chunk(),
            samples@.len() > 0 ==> (r matches Ok(out) ==> out@.len() % old(self).channel_count() == 0),
    {
        if samples.len() == 0 {
            return Ok(Vec::new());
        }
        let split = deinterleave(samples, self.channels);
        let ghost n = self.channels as nat;
        let ghost frames = samples@.len() / n;
        assert(split@.len() == self.channels) by {
            assert(channel_views(split@).len() == split@.len());
        }
        assert forall|j: int| 0 <= j < self.channels implies #[trigger] split@[j]@.len() == frames by {
            assert(channel_views(split@)[j] == split@[j]@);
        }
        let mut input_channels: Vec<Vec<E::Sample>> = Vec::new();
        let mut c: usize = 0;
        while c < self.channels
            invariant
                c <= self.channels,
                n == self.channels,
                split@.len() == self.channels,
                input_channels@.len() == c,
                forall|j: int| 0 <= j < self.channels ==> #[trigger] split@[j]@.len() == frames,
                forall|j: int| 0 <= j < c ==> #[trigger] input_channels@[j]@.len() == frames,
                forall|j: int, f: int|
                    0 <= j < c && 0 <= f < frames ==> call_ensures(
                        E::from_pcm,
                        (split@[j]@[f],),
                        #[trigger] input_channels@[j]@[f],
                    ),
            decreases self.channels - c,
        {
            let mut buf: Vec<E::Sample> = Vec::new();
            let mut f: usize = 0;
            while f < split[c].len()
                invariant
                    c < self.channels,
                    split@.len() == self.channels,
                    f <= split@[c as int]@.len(),
                    buf@.len() == f,
                    forall|g: int| 0 <= g < f ==> call_ensures(E::from_pcm, (split@[c as int]@[g],), #[trigger] buf@[g]),
                decreases split@[c as int]@.len() - f,
            {
                buf.push(E::from_pcm(split[c][f]));
                f = f + 1;
            }
            input_channels.push(buf);
            c = c + 1;
        }
        let ghost x = channel_views(input_channels@);
        proof {
            assert(channel_views(split@) == deinterleaved(samples@, n));
            assert forall|j: int, f: int| 0 <= j < n && 0 <= f < frames implies call_ensures(
                E::from_pcm,
                (samples@[f * n + j],),
                #[trigger] x[j][f],
            ) by {
                assert(channel_views(split@)[j][f] == samples@[f * n + j]);
                assert(split@[j]@[f] == samples@[f * n + j]);
                assert(x[j] == input_channels@[j]@);
            }
            assert forall|j: int| 0 <= j < n implies #[trigger] x[j].len() == samples@.len() / n by {
                assert(x[j] == input_channels@[j]@);
            }
            assert(converted::<E>(samples@, n, x));
        }
        let resampled = match self.process_f32(&input_channels) {
            Ok(o) => o,
            Err(e) => {
                proof {
                    assert(converted::<E>(samples@, n, x));
                }
                return Err(e);
            },
        };
        if !first_channel_is_shortest(&resampled) {
            proof {
                assert(converted::<E>(samples@, n, x));
            }
            return Err(
                Error::Streaming(
                    StreamingError::Encoding(String::from_str("Resampler returned channels of unequal length")),
                ),
            );
        }
        let out = interleave_with_dither::<E>(&resampled);
        proof {
            assert(converted::<E>(samples@, n, x));
            let chs = channel_views(resampled@);
            let ni = n as int;
            if chs.len() > 0 && chs[0].len() > 0 {
                assert(chs.len() == n);
                lemma_fundamental_div_mod_converse(chs[0].len() * ni, ni, chs[0].len() as int, 0);
            } else {
                assert(out@.len() == 0);
                assert(0int % ni == 0);
            }
            if old(self).buffered().pending()[0].len() + frames < old(self).frames_per_chunk() && frames > 0 {
                assert(x[0].len() == frames);
                assert(has_frames(input_channels@));
                assert forall|j: int| 0 <= j < chs.len() implies #[trigger] chs[j].len() == 0 by {
                    assert(chs[j] == resampled@[j]@);
                }
            }
        }
        Ok(out)
    }
}

/// Interleaves per-channel samples into 16-bit PCM with dither, frame by
/// frame, channel by channel, for as many frames as the first channel holds;
/// each output sample is the engine's 16-bit conversion of the matching input
/// sample.
pub fn interleave_with_dither<E: ResampleEngine>(channels: &[Vec<E::Sample>]) -> (r: Vec<i16>)
    requires
        first_channel_shortest(channel_views(channels@)),
    ensures
        r@.len() == interleaved(channel_views(channels@)).len(),
        dithered::<E>(channel_views(channels@), r@),
{
    let ghost chs = channel_views(channels@);
    if channels.len() == 0 || channels[0].len() == 0 {
        return Vec::new();
    }
    let num_frames = channels[0].len();
    let num_channels = channels.len();
    let ghost n = num_channels as int;
    let mut output: Vec<i16> = Vec::new();
    let mut f: usize = 0;
    while f < num_frames
        invariant
            f <= num_frames,
            num_frames == chs[0].len(),
            num_channels == channels@.len(),
            n == num_channels,
            n > 0,
            chs == channel_views(channels@),
            first_channel_shortest(chs),
            output@.len() == f * n,
            forall|i: int| 0 <= i < output@.len() ==> call_ensures(E::to_pcm, (chs[i % n][i / n],), #[trigger] output@[i]),
        decreases num_frames - f,
    {
        let mut c: usize = 0;
        while c < num_channels
            invariant
                c <= num_channels,
                f < num_frames,
                num_frames == chs[0].len(),
                num_channels == channels@.len(),
                n == num_channels,
                n > 0,
                chs == channel_views(channels@),
                first_channel_shortest(chs),
                output@.len() == f * n + c,
                forall|i: int| 0 <= i < output@.len() ==> call_ensures(E::to_pcm, (chs[i % n][i / n],), #[trigger] output@[i]),
            decreases num_channels - c,
        {
            assert(chs[c as int].len() >= chs[0].len());
            let y = E::to_pcm(channels[c][f]);
            proof {
                lemma_frame_position(f as int, c as int, n);
                assert(chs[c as int][f as int] == channels@[c as int]@[f as int]);
            }
            output.push(y);
            c = c + 1;
        }
        f = f + 1;
        assert((f - 1) * n + n == f * n) by (nonlinear_arith);
    }
    assert(num_frames * n == chs[0].len() * chs.len());
    assert forall|fr: int, c: int| 0 <= fr < chs[0].len() && 0 <= c < chs.len() implies call_ensures(
        E::to_pcm,
        (#[trigger] chs[c][fr],),
        output@[fr * chs.len() + c],
    ) by {
        lemma_fundamental_div_mod_converse(num_frames * n, n, num_frames as int, 0);
        lemma_frame_position(fr, c, n);
        lemma_frame_in_bounds(fr, c, n, (num_frames * n) as int);
    }
    output
}

/// Whether every channel holds at least as many samples as the first one.
pub fn first_channel_is_shortest<T>(chs: &[Vec<T>]) -> (b: bool)
    ensures
        b == first_channel_shortest(channel_views(chs@)),
{
    if chs.len() == 0 {
        return true;
    }
    let first = chs[0].len();
    let mut c: usize = 0;
    while c < chs.len()
        invariant
            c <= chs@.len(),
            chs@.len() > 0,
            first == chs@[0]@.len(),
            forall|j: int| 0 <= j < c ==> #[trigger] chs@[j]@.len() >= first,
        decreases chs@.len() - c,
    {
        if chs[c].len() < first {
            assert(channel_views(chs@)[c as int].len() < channel_views(chs@)[0].len());
            return false;
        }
        c = c + 1;
    }
    assert forall|j: int| 0 <= j < chs@.len() implies #[trigger] channel_views(chs@)[j].len() >= channel_views(chs@)[0].len() by {
        assert(chs@[j]@.len() >= first);
    }
    true
}

} // verus!
