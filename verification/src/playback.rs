//! In-process clip playback for the soundboard.
//!
//! Audio files are decoded packet by packet into interleaved stereo samples.
//! A playback then walks over the samples frame by frame, as the sink asks for
//! them; its volume and its loop mode can change while it runs.

use vstd::prelude::*;
use vstd::arithmetic::div_mod;
use std::sync::Arc;
use crate::level::Level;
use crate::text;

verus! {

// ── Decoded audio ────────────────────────────────────────────────────────────

/// Decoded audio: stereo, interleaved, at the source sample rate.
/// PipeWire will resample to the sink's rate as part of normal graph routing.
pub struct DecodedClip<S> {
    pub samples: Arc<Vec<S>>,
    pub sample_rate: u32,
}

/// The milliseconds that `len` interleaved stereo samples last, rounded down;
/// 0 where the rate is not known.
pub open spec fn clip_ms(len: nat, sample_rate: u32) -> int {
    if sample_rate == 0 {
        0
    } else {
        ((len / 2) * 1000) as int / sample_rate as int
    }
}

/// The milliseconds of `len` interleaved stereo samples can be computed in 64 bits.
pub open spec fn ms_fit(len: nat, sample_rate: u32) -> bool {
    sample_rate > 0 ==> (len / 2) * 1000 <= u64::MAX
}

/// The duration of `len` interleaved stereo samples in milliseconds.
pub fn samples_ms(len: usize, sample_rate: u32) -> (r: u64)
    requires
        ms_fit(len as nat, sample_rate),
    ensures
        r == clip_ms(len as nat, sample_rate),
{
    if sample_rate == 0 {
        return 0;
    }
    let frames: u64 = (len / 2) as u64;
    frames * 1000 / sample_rate as u64
}

impl<S> DecodedClip<S> {
    pub fn duration_ms(&self) -> (r: u64)
        requires
            ms_fit(self.samples@.len(), self.sample_rate),
        ensures
            r == clip_ms(self.samples@.len(), self.sample_rate),
    {
        samples_ms(self.samples.len(), self.sample_rate)
    }
}

/// The stereo frames of interleaved samples of `channels` channels: a mono
/// sample goes to both sides, and of more than two channels the first two count.
pub open spec fn stereo<S>(s: Seq<S>, channels: nat) -> Seq<S> {
    if channels == 0 {
        Seq::empty()
    } else if channels == 1 {
        Seq::new(2 * s.len(), |i: int| s[i / 2])
    } else if channels == 2 {
        s
    } else {
        Seq::new(2 * (s.len() / channels), |i: int| s[(i / 2) * channels + i % 2])
    }
}

/// Whole frames of any number of channels give whole stereo frames, one each.
pub proof fn stereo_keeps_frames<S>(s: Seq<S>, channels: nat)
    requires
        channels > 0,
        s.len() % channels == 0,
    ensures
        stereo(s, channels).len() == 2 * (s.len() / channels),
{
    if channels == 1 {
        assert(s.len() / channels == s.len()) by (nonlinear_arith)
            requires
                channels == 1,
        ;
    }
    if channels == 2 {
        assert(s.len() % 2 == 0);
        assert(s.len() / channels == s.len() / 2);
    }
}

/// How the samples are cut into packets makes no difference: whole frames before
/// the rest give the stereo frames of both.
pub proof fn stereo_joins<S>(a: Seq<S>, b: Seq<S>, channels: nat)
    requires
        channels > 0,
        a.len() % channels == 0,
    ensures
        stereo(a + b, channels) == stereo(a, channels) + stereo(b, channels),
{
    let s = a + b;
    let c = channels as int;
    let n = a.len() as int / c;
    let whole = stereo(s, channels);
    let parts = stereo(a, channels) + stereo(b, channels);
    if channels == 1 {
        assert forall|i: int| 0 <= i < whole.len() implies whole[i] == parts[i] by {
            if i >= 2 * a.len() {
                assert((i - 2 * a.len()) / 2 == i / 2 - a.len());
            }
        }
    } else if channels > 2 {
        div_mod::lemma_fundamental_div_mod(a.len() as int, c);
        assert(a.len() == c * n);
        div_mod::lemma_hoist_over_denominator(b.len() as int, n, channels);
        assert(s.len() as int / c == n + b.len() as int / c);
        assert forall|i: int| 0 <= i < whole.len() implies whole[i] == parts[i] by {
            let q = i / 2;
            let r = i % 2;
            if i < 2 * n {
                assert(0 <= q * c + r < c * n) by (nonlinear_arith)
                    requires
                        0 <= q,
                        q + 1 <= n,
                        0 <= r < 2,
                        c > 2,
                ;
                assert(stereo(a, channels)[i] == a[q * c + r]);
            } else {
                let m = b.len() as int / c;
                div_mod::lemma_fundamental_div_mod(b.len() as int, c);
                assert(q * c + r < c * n + c * m) by (nonlinear_arith)
                    requires
                        q + 1 <= n + m,
                        0 <= r < 2,
                        c > 2,
                ;
                assert((i - 2 * n) / 2 == q - n && (i - 2 * n) % 2 == r);
                assert((q - n) * c == q * c - c * n) by (nonlinear_arith);
                assert(0 <= (q - n) * c) by (nonlinear_arith)
                    requires
                        q >= n,
                        c > 2,
                ;
                assert(stereo(b, channels)[i - 2 * n] == b[(q - n) * c + r]);
            }
        }
    }
    assert(whole =~= parts);
}

/// Appends the stereo frames of `interleaved` to `out`.
pub fn mix_to_stereo<S: Copy>(interleaved: &[S], src_channels: usize, out: &mut Vec<S>)
    ensures
        final(out)@ == old(out)@ + stereo(interleaved@, src_channels as nat),
{
    let ghost s = interleaved@;
    let ghost before = out@;
    if src_channels == 0 {
        assert(out@ =~= before + stereo(s, 0));
        return;
    }
    if src_channels == 1 {
        for i in 0..interleaved.len()
            invariant
                s == interleaved@,
                out@ == before + stereo(s, 1).take(2 * i),
        {
            out.push(interleaved[i]);
            out.push(interleaved[i]);
            proof {
                let t = stereo(s, 1);
                assert(t[2 * i] == s[i as int]);
                assert(t[2 * i + 1] == s[i as int]);
                assert(out@ =~= before + t.take(2 * (i + 1)));
            }
        }
        assert(stereo(s, 1).take(2 * s.len() as int) =~= stereo(s, 1));
    } else if src_channels == 2 {
        for i in 0..interleaved.len()
            invariant
                s == interleaved@,
                out@ == before + s.take(i as int),
        {
            out.push(interleaved[i]);
            assert(out@ =~= before + s.take(i + 1));
        }
        assert(s.take(s.len() as int) =~= s);
    } else {
        let n: usize = interleaved.len();
        let frames: usize = n / src_channels;
        let ghost t = stereo(s, src_channels as nat);
        for i in 0..frames
            invariant
                s == interleaved@,
                n == s.len(),
                src_channels > 2,
                frames == s.len() / src_channels as nat,
                t == stereo(s, src_channels as nat),
                out@ == before + t.take(2 * i),
        {
            assert(i * src_channels + src_channels <= s.len()) by (nonlinear_arith)
                requires
                    i + 1 <= frames,
                    frames == s.len() / src_channels as nat,
                    src_channels > 2,
            ;
            let base: usize = i * src_channels;
            out.push(interleaved[base]);
            out.push(interleaved[base + 1]);
            proof {
                assert((2 * i) / 2 == i && (2 * i) % 2 == 0);
                assert((2 * i + 1) / 2 == i && (2 * i + 1) % 2 == 1);
                assert(t[2 * i] == s[base as int]);
                assert(t[2 * i + 1] == s[base + 1]);
                assert(out@ =~= before + t.take(2 * (i + 1)));
            }
        }
        assert(t.take(2 * frames) =~= t);
    }
}

// ── Decoding ─────────────────────────────────────────────────────────────────

/// Why a file could not be decoded.
#[derive(Debug)]
pub enum DecodeError {
    NoDefaultTrack,
    MissingSampleRate,
    MissingChannelLayout,
    PacketRead(String),
    Decode(String),
    ZeroSamples,
}

/// What a decoding error says, over character sequences.
#[verifier::ext_equal]
pub enum DecodeErrorView {
    NoDefaultTrack,
    MissingSampleRate,
    MissingChannelLayout,
    PacketRead(Seq<char>),
    Decode(Seq<char>),
    ZeroSamples,
}

impl View for DecodeError {
    type V = DecodeErrorView;

    open spec fn view(&self) -> DecodeErrorView {
        match *self {
            DecodeError::NoDefaultTrack => DecodeErrorView::NoDefaultTrack,
            DecodeError::MissingSampleRate => DecodeErrorView::MissingSampleRate,
            DecodeError::MissingChannelLayout => DecodeErrorView::MissingChannelLayout,
            DecodeError::PacketRead(e) => DecodeErrorView::PacketRead(e@),
            DecodeError::Decode(e) => DecodeErrorView::Decode(e@),
            DecodeError::ZeroSamples => DecodeErrorView::ZeroSamples,
        }
    }
}

/// The words for a decoding error.
pub open spec fn decode_error_text(e: DecodeErrorView) -> Seq<char> {
    match e {
        DecodeErrorView::NoDefaultTrack => "no default track"@,
        DecodeErrorView::MissingSampleRate => "missing sample rate"@,
        DecodeErrorView::MissingChannelLayout => "missing channel layout"@,
        DecodeErrorView::PacketRead(m) => "packet read: "@ + m,
        DecodeErrorView::Decode(m) => "decode: "@ + m,
        DecodeErrorView::ZeroSamples => "decoded zero samples"@,
    }
}

impl DecodeError {
    /// The error in words.
    pub fn to_text(&self) -> (r: String)
        ensures
            r@ == decode_error_text(self@),
    {
        match self {
            DecodeError::NoDefaultTrack => "no default track".to_owned(),
            DecodeError::MissingSampleRate => "missing sample rate".to_owned(),
            DecodeError::MissingChannelLayout => "missing channel layout".to_owned(),
            DecodeError::PacketRead(m) => {
                let mut r = "packet read: ".to_owned();
                r.append(m.as_str());
                r
            },
            DecodeError::Decode(m) => {
                let mut r = "decode: ".to_owned();
                r.append(m.as_str());
                r
            },
            DecodeError::ZeroSamples => "decoded zero samples".to_owned(),
        }
    }
}

/// What reading the next packet of a file gave.
pub enum PacketRead {
    /// A packet of the given track.
    Packet { track_id: u32 },
    EndOfStream,
    ResetRequired,
    Failed(String),
}

/// What to do about a packet.
pub enum PacketStep {
    /// Decode it.
    Decode,
    /// Go on to the next one.
    Skip,
    /// There are no more packets.
    Finish,
    Fail(DecodeError),
}

/// What decoding a packet gave.
pub enum PacketDecoded<'a, S> {
    /// Interleaved samples of all channels.
    Samples(&'a [S]),
    /// The packet is damaged; the next one may be sound.
    Malformed,
    Failed(String),
}

/// A packet that has come: its track, and its interleaved samples where it is not
/// damaged.
#[verifier::ext_equal]
pub struct PacketView<S> {
    pub track_id: u32,
    pub samples: Option<Seq<S>>,
}

/// The samples that decoding a packet gave.
pub open spec fn samples_of<S>(decoded: PacketDecoded<S>) -> Option<Seq<S>> {
    match decoded {
        PacketDecoded::Samples(s) => Some(s@),
        _ => None,
    }
}

/// What has come out of a file after one more packet.
pub open spec fn out_with<S>(
    out: Seq<S>,
    track_id: u32,
    channels: nat,
    p: PacketView<S>,
) -> Seq<S> {
    match p.samples {
        Some(s) => if p.track_id == track_id {
            out + stereo(s, channels)
        } else {
            out
        },
        None => out,
    }
}

/// What has come out of a file after a row of packets.
pub open spec fn out_of_run<S>(track_id: u32, channels: nat, ps: Seq<PacketView<S>>) -> Seq<S>
    decreases ps.len(),
{
    if ps.len() == 0 {
        Seq::empty()
    } else {
        out_with(out_of_run(track_id, channels, ps.drop_last()), track_id, channels, ps.last())
    }
}

/// The samples of the packets of a track that are not damaged, one after the other.
pub open spec fn track_samples<S>(track_id: u32, ps: Seq<PacketView<S>>) -> Seq<S>
    decreases ps.len(),
{
    if ps.len() == 0 {
        Seq::empty()
    } else {
        let before = track_samples(track_id, ps.drop_last());
        match ps.last().samples {
            Some(s) => if ps.last().track_id == track_id {
                before + s
            } else {
                before
            },
            None => before,
        }
    }
}

/// Every packet holds whole frames.
pub open spec fn whole_frames<S>(ps: Seq<PacketView<S>>, channels: nat) -> bool {
    forall|i: int|
        0 <= i < ps.len() ==> ((#[trigger] ps[i]).samples matches Some(s) ==> s.len() % channels
            == 0)
}

/// What comes out of a file is the audio of its track in stereo, all of it and in
/// order: one stereo frame for each frame of the packets that are not damaged, as
/// if they had been one packet.
pub proof fn run_is_the_track_in_stereo<S>(
    track_id: u32,
    channels: nat,
    ps: Seq<PacketView<S>>,
)
    requires
        channels > 0,
        whole_frames(ps, channels),
    ensures
        out_of_run(track_id, channels, ps) == stereo(track_samples(track_id, ps), channels),
        track_samples(track_id, ps).len() % channels == 0,
        out_of_run(track_id, channels, ps).len() == 2 * (track_samples(track_id, ps).len()
            / channels),
        out_of_run(track_id, channels, ps).len() % 2 == 0,
    decreases ps.len(),
{
    let all = track_samples(track_id, ps);
    if ps.len() == 0 {
        assert(stereo(all, channels) =~= Seq::<S>::empty()) by {
            assert(0nat / channels == 0) by (nonlinear_arith)
                requires
                    channels > 0,
            ;
        }
        assert(0nat % channels == 0) by (nonlinear_arith)
            requires
                channels > 0,
        ;
    } else {
        let rest = ps.drop_last();
        assert forall|i: int| 0 <= i < rest.len() implies ((#[trigger] rest[i]).samples matches Some(
            s,
        ) ==> s.len() % channels == 0) by {
            assert(rest[i] == ps[i]);
        }
        run_is_the_track_in_stereo(track_id, channels, rest);
        let before = track_samples(track_id, rest);
        if let Some(s) = ps.last().samples {
            assert(ps[ps.len() - 1].samples == Some(s));
            if ps.last().track_id == track_id {
                stereo_joins(before, s, channels);
                div_mod::lemma_add_mod_noop(
                    before.len() as int,
                    s.len() as int,
                    channels as int,
                );
                div_mod::lemma_small_mod(0, channels);
            }
        }
    }
    stereo_keeps_frames(all, channels);
}

/// The tracks and channels of a file that is being decoded, and what has come
/// out so far.
pub struct Decoding<S> {
    pub track_id: u32,
    pub sample_rate: u32,
    pub channels: usize,
    pub out: Vec<S>,
}

impl<S: Copy> Decoding<S> {
    /// Starts on the default track of a file, of which the id, the sample rate
    /// and the number of channels are given where the file tells them.
    pub fn begin(track_id: Option<u32>, sample_rate: Option<u32>, channels: Option<usize>) -> (r:
        Result<Decoding<S>, DecodeError>)
        ensures
            match r {
                Ok(d) => track_id == Some(d.track_id) && sample_rate == Some(d.sample_rate)
                    && channels == Some(d.channels) && d.out@ == Seq::<S>::empty(),
                Err(e) => e@ == (if track_id is None {
                    DecodeErrorView::NoDefaultTrack
                } else if sample_rate is None {
                    DecodeErrorView::MissingSampleRate
                } else {
                    DecodeErrorView::MissingChannelLayout
                }) && (track_id is None || sample_rate is None || channels is None),
            },
    {
        match track_id {
            None => Err(DecodeError::NoDefaultTrack),
            Some(track_id) => match sample_rate {
                None => Err(DecodeError::MissingSampleRate),
                Some(sample_rate) => match channels {
                    None => Err(DecodeError::MissingChannelLayout),
                    Some(channels) => Ok(
                        Decoding { track_id, sample_rate, channels, out: Vec::new() },
                    ),
                },
            },
        }
    }

    /// What to do about what reading a packet gave: packets of other tracks are
    /// skipped, and the end of the file or a reset ends the audio.
    pub fn on_packet(&self, read: PacketRead) -> (r: PacketStep)
        ensures
            match read {
                PacketRead::Packet { track_id } => if track_id == self.track_id {
                    r is Decode
                } else {
                    r is Skip
                },
                PacketRead::EndOfStream => r is Finish,
                PacketRead::ResetRequired => r is Finish,
                PacketRead::Failed(e) => r is Fail && r->Fail_0@ == DecodeErrorView::PacketRead(e@),
            },
    {
        match read {
            PacketRead::Packet { track_id } => if track_id == self.track_id {
                PacketStep::Decode
            } else {
                PacketStep::Skip
            },
            PacketRead::EndOfStream => PacketStep::Finish,
            PacketRead::ResetRequired => PacketStep::Finish,
            PacketRead::Failed(e) => PacketStep::Fail(DecodeError::PacketRead(e)),
        }
    }

    /// Takes in what decoding a packet gave. A damaged packet adds nothing.
    pub fn on_decoded(&mut self, decoded: PacketDecoded<S>) -> (r: Result<(), DecodeError>)
        ensures
            final(self).track_id == old(self).track_id,
            final(self).sample_rate == old(self).sample_rate,
            final(self).channels == old(self).channels,
            match decoded {
                PacketDecoded::Samples(s) => r is Ok && final(self).out@ == old(self).out@ + stereo(
                    s@,
                    old(self).channels as nat,
                ),
                PacketDecoded::Malformed => r is Ok && final(self).out@ == old(self).out@,
                PacketDecoded::Failed(e) => r is Err && r->Err_0@ == DecodeErrorView::Decode(e@)
                    && final(self).out@ == old(self).out@,
            },
            final(self).out@ == out_with(
                old(self).out@,
                old(self).track_id,
                old(self).channels as nat,
                PacketView { track_id: old(self).track_id, samples: samples_of(decoded) },
            ),
    {
        match decoded {
            PacketDecoded::Samples(s) => {
                let channels = self.channels;
                mix_to_stereo(s, channels, &mut self.out);
                Ok(())
            },
            PacketDecoded::Malformed => Ok(()),
            PacketDecoded::Failed(e) => Err(DecodeError::Decode(e)),
        }
    }

    /// The decoded audio, unless there is none.
    pub fn finish(self) -> (r: Result<DecodedClip<S>, DecodeError>)
        ensures
            match r {
                Ok(c) => self.out@.len() > 0 && c.samples@ == self.out@ && c.sample_rate
                    == self.sample_rate,
                Err(e) => self.out@.len() == 0 && e@ == DecodeErrorView::ZeroSamples,
            },
    {
        if self.out.len() == 0 {
            Err(DecodeError::ZeroSamples)
        } else {
            Ok(DecodedClip { samples: Arc::new(self.out), sample_rate: self.sample_rate })
        }
    }
}

// ── Knobs ────────────────────────────────────────────────────────────────────

/// Live-mutable knobs for an active playback.
#[derive(Debug, Clone, Copy)]
pub struct PlaybackKnobs {
    /// The bits of the volume.
    pub volume_bits: u32,
    pub loop_mode: bool,
    pub stop_requested: bool,
}

impl PlaybackKnobs {
    pub fn new(volume: Level, loop_mode: bool) -> (r: PlaybackKnobs)
        ensures
            r == (PlaybackKnobs { volume_bits: volume.bits, loop_mode, stop_requested: false }),
    {
        PlaybackKnobs { volume_bits: volume.bits, loop_mode, stop_requested: false }
    }

    pub fn set_volume(&mut self, v: Level)
        ensures
            *final(self) == (PlaybackKnobs { volume_bits: v.bits, ..*old(self) }),
    {
        self.volume_bits = v.bits;
    }

    pub fn volume(&self) -> (r: Level)
        ensures
            r.bits == self.volume_bits,
    {
        Level { bits: self.volume_bits }
    }

    pub fn set_loop(&mut self, l: bool)
        ensures
            *final(self) == (PlaybackKnobs { loop_mode: l, ..*old(self) }),
    {
        self.loop_mode = l;
    }

    pub fn looped(&self) -> (r: bool)
        ensures
            r == self.loop_mode,
    {
        self.loop_mode
    }

    pub fn request_stop(&mut self)
        ensures
            *final(self) == (PlaybackKnobs { stop_requested: true, ..*old(self) }),
    {
        self.stop_requested = true;
    }

    pub fn stop_requested(&self) -> (r: bool)
        ensures
            r == self.stop_requested,
    {
        self.stop_requested
    }
}

// ── Walking over the samples ─────────────────────────────────────────────────

/// Where a playback stands in its samples, and whether its end has been told.
#[derive(Debug, Clone, Copy)]
pub struct PlaybackCursor {
    /// How many interleaved stereo samples there are.
    pub total: usize,
    /// The next sample to play: the left one of a frame, or the end.
    pub position: usize,
    pub finished: bool,
}

/// The place of the left sample of the `k`th frame from `position` on: at the
/// end a looped playback starts again and another falls silent, and a stopped
/// one is silent at once.
pub open spec fn frame_source(
    total: nat,
    position: nat,
    looped: bool,
    stop: bool,
    k: nat,
) -> Option<usize> {
    if stop {
        None
    } else if looped {
        Some(((position + 2 * k) % total) as usize)
    } else if position + 2 * k < total {
        Some((position + 2 * k) as usize)
    } else {
        None
    }
}

impl PlaybackCursor {
    /// The samples come in frames, and the playback stands at one or at the end.
    pub open spec fn wf(self) -> bool {
        &&& self.total % 2 == 0
        &&& self.position % 2 == 0
        &&& self.position <= self.total
    }

    /// The frames for a buffer of `cap` frames.
    pub open spec fn sources(self, cap: nat, looped: bool, stop: bool) -> Seq<Option<usize>> {
        Seq::new(
            cap,
            |k: int|
                frame_source(self.total as nat, self.position as nat, looped, stop, k as nat),
        )
    }

    /// A buffer of `cap` frames holds the end of the playback: it is stopped, or
    /// its samples do not fill the buffer and do not start again.
    pub open spec fn ends_in(self, cap: nat, looped: bool, stop: bool) -> bool {
        cap > 0 && (stop || (!looped && self.position + 2 * cap > self.total))
    }

    /// The cursor after a buffer of `cap` frames.
    pub open spec fn after(self, cap: nat, looped: bool, stop: bool) -> PlaybackCursor {
        PlaybackCursor {
            total: self.total,
            position: if stop || cap == 0 {
                self.position
            } else if looped {
                ((self.position + 2 * (cap - 1)) % self.total as int + 2) as usize
            } else if self.position + 2 * cap < self.total {
                (self.position + 2 * cap) as usize
            } else {
                self.total
            },
            finished: self.finished || self.ends_in(cap, looped, stop),
        }
    }

    /// The start of `total` interleaved stereo samples.
    pub fn new(total: usize) -> (r: PlaybackCursor)
        requires
            total % 2 == 0,
        ensures
            r == (PlaybackCursor { total, position: 0, finished: false }),
            r.wf(),
    {
        PlaybackCursor { total, position: 0, finished: false }
    }

    /// Plans the next buffer, of `cap` frames: `frames` gets for each of them the
    /// place of its left sample, or nothing for silence. Tells whether the end of
    /// the playback is to be told now.
    pub fn plan(
        &mut self,
        cap: usize,
        looped: bool,
        stop: bool,
        frames: &mut Vec<Option<usize>>,
    ) -> (r: bool)
        requires
            old(self).wf(),
            looped ==> old(self).total > 0,
        ensures
            final(self).wf(),
            *final(self) == old(self).after(cap as nat, looped, stop),
            final(frames)@ == old(self).sources(cap as nat, looped, stop),
            r == (!old(self).finished && old(self).ends_in(cap as nat, looped, stop)),
    {
        let ghost start = *self;
        let total: usize = self.total;
        frames.clear();
        let mut over = false;
        let mut position: usize = self.position;
        proof {
            if looped {
                lemma_loop_start(start.position as int, total as int);
            }
        }
        while frames.len() < cap
            invariant
                start.wf(),
                total == start.total,
                looped ==> total > 0,
                frames@.len() <= cap,
                frames@ == start.sources(frames@.len(), looped, stop),
                over == start.ends_in(frames@.len(), looped, stop),
                position == start.after(frames@.len(), looped, stop).position,
                position % 2 == 0,
                position <= total,
            decreases cap - frames@.len(),
        {
            let ghost k = frames@.len() as int;
            let ghost was = position;
            if stop {
                frames.push(None);
                over = true;
            } else if position >= total && !looped {
                frames.push(None);
                over = true;
            } else {
                if position >= total {
                    position = 0;
                }
                proof {
                    if looped {
                        lemma_loop_step(start.position as int, k, total as int, was as int);
                    }
                }
                frames.push(Some(position));
                position += 2;
            }
            assert(frames@ =~= start.sources(frames@.len(), looped, stop));
        }
        let finished_now = over && !self.finished;
        self.position = position;
        if over {
            self.finished = true;
        }
        finished_now
    }
}

proof fn lemma_loop_start(p: int, total: int)
    requires
        0 <= p <= total,
        total > 0,
    ensures
        p % total == (if p == total {
            0
        } else {
            p
        }),
{
    if p == total {
        div_mod::lemma_mod_self_0(total);
    } else {
        div_mod::lemma_small_mod(p as nat, total as nat);
    }
}

/// Where the walk from `p` has come after `k` frames gives the next source.
proof fn lemma_loop_step(p: int, k: int, total: int, at: int)
    requires
        0 <= p <= total,
        p % 2 == 0,
        total % 2 == 0,
        total > 0,
        k >= 0,
        at == (if k == 0 {
            p
        } else {
            (p + 2 * (k - 1)) % total + 2
        }),
    ensures
        0 <= at <= total,
        at % 2 == 0,
        (p + 2 * k) % total == (if at == total {
            0
        } else {
            at
        }),
{
    if k == 0 {
        lemma_loop_start(p, total);
    } else {
        let q = (p + 2 * (k - 1)) % total;
        lemma_even_mod(p + 2 * (k - 1), total);
        assert(0 <= q < total && q % 2 == 0);
        div_mod::lemma_add_mod_noop(p + 2 * (k - 1), 2, total);
        if total == 2 {
            assert(q == 0);
            div_mod::lemma_mod_self_0(2);
            assert(at == 2);
            assert((p + 2 * k) % 2 == 0);
        } else {
            div_mod::lemma_small_mod(2, total as nat);
            lemma_loop_start(q + 2, total);
        }
    }
}

/// A remainder of an even number by an even number is even.
proof fn lemma_even_mod(a: int, d: int)
    requires
        a >= 0,
        a % 2 == 0,
        d > 0,
        d % 2 == 0,
    ensures
        (a % d) % 2 == 0,
        0 <= a % d < d,
{
    let q = a / d;
    let h = d / 2;
    assert(d == 2 * h);
    assert(a == q * d + a % d && 0 <= a % d < d) by (nonlinear_arith)
        requires
            q == a / d,
            d > 0,
    ;
    assert(q * d == 2 * (q * h)) by (nonlinear_arith)
        requires
            d == 2 * h,
    ;
}

/// What a buffer plays are whole frames of the samples.
pub proof fn sources_are_frames(c: PlaybackCursor, cap: nat, looped: bool, stop: bool, k: int)
    requires
        c.wf(),
        looped ==> c.total > 0,
        0 <= k < cap,
    ensures
        c.sources(cap, looped, stop)[k] matches Some(p) ==> p % 2 == 0 && p + 1 < c.total,
{
    if looped && !stop {
        lemma_even_mod(c.position + 2 * k, c.total as int);
    }
}

/// A playback from the start that is neither looped nor stopped plays every frame
/// once and in order, and then ends.
pub proof fn every_frame_is_played(c: PlaybackCursor, cap: nat)
    requires
        c.wf(),
        c.position == 0,
    ensures
        forall|k: int|
            0 <= k < c.total / 2 ==> #[trigger] c.sources((c.total / 2) as nat, false, false)[k]
                == Some((2 * k) as usize),
        !c.ends_in((c.total / 2) as nat, false, false),
        c.after((c.total / 2) as nat, false, false).position == c.total,
        cap > 0 ==> c.after((c.total / 2) as nat, false, false).ends_in(cap, false, false),
{
}

/// A looped playback plays the same frames again after every round.
pub proof fn loop_repeats(c: PlaybackCursor, cap: nat, k: int)
    requires
        c.wf(),
        c.total > 0,
        0 <= k,
        k + c.total / 2 < cap,
    ensures
        c.sources(cap, true, false)[k + c.total / 2] == c.sources(cap, true, false)[k],
{
    let p = c.position + 2 * k;
    let t = c.total as int;
    assert(c.position + 2 * (k + t / 2) == p + t);
    div_mod::lemma_mod_add_multiples_vanish(p, t);
    assert((p + t) % t == p % t);
}

/// The end of a playback is told at most once: after a buffer in which it was
/// told, no later buffer tells it.
pub proof fn end_is_told_once(
    c: PlaybackCursor,
    cap: nat,
    looped: bool,
    stop: bool,
    later_cap: nat,
    later_looped: bool,
    later_stop: bool,
)
    requires
        c.ends_in(cap, looped, stop),
    ensures
        c.after(cap, looped, stop).finished,
        c.after(cap, looped, stop).after(later_cap, later_looped, later_stop).finished,
{
}

/// How the sink cuts the audio into buffers makes no difference: two buffers
/// hold what one of their joint size would, and leave the cursor at the same
/// place.
pub proof fn buffers_join(c: PlaybackCursor, a: nat, b: nat, looped: bool, stop: bool)
    requires
        c.wf(),
        looped ==> c.total > 0,
    ensures
        c.sources(a + b, looped, stop) == c.sources(a, looped, stop) + c.after(
            a,
            looped,
            stop,
        ).sources(b, looped, stop),
        c.after(a + b, looped, stop) == c.after(a, looped, stop).after(b, looped, stop),
{
    let d = c.after(a, looped, stop);
    let p = c.position as int;
    let total = c.total as int;
    if looped && !stop && a > 0 {
        assert forall|k: int| 0 <= k implies (d.position + 2 * k) % total == #[trigger] ((p + 2 * (a
            + k)) % total) by {
            lemma_loop_step(p, a as int, total, d.position as int);
            let q = (p + 2 * (a - 1)) % total;
            lemma_even_mod(p + 2 * (a - 1), total);
            assert(d.position == q + 2);
            div_mod::lemma_add_mod_noop(p + 2 * (a - 1), 2 + 2 * k, total);
            div_mod::lemma_add_mod_noop(q, 2 + 2 * k, total);
            div_mod::lemma_small_mod(q as nat, total as nat);
        }
        let joint = c.sources(a + b, looped, stop);
        assert forall|i: int| a <= i < a + b implies #[trigger] joint[i] == d.sources(
            b,
            looped,
            stop,
        )[i - a] by {
            assert((d.position + 2 * (i - a)) % total == (p + 2 * (a + (i - a))) % total);
        }
        if b > 0 {
            assert((d.position + 2 * (b - 1)) % total == (p + 2 * (a + (b - 1))) % total);
        }
    }
    assert(c.sources(a + b, looped, stop) =~= c.sources(a, looped, stop) + d.sources(
        b,
        looped,
        stop,
    ));
}

// ── Active playbacks ─────────────────────────────────────────────────────────

/// What the web layer keeps of an active playback.
pub struct PlaybackEntry {
    pub clip_id: String,
    pub target_node_name: Option<String>,
    pub duration_ms: u64,
    pub started_at: u64,
    pub knobs: PlaybackKnobs,
}

/// What the web layer tells of an active playback.
#[derive(Debug)]
pub struct PlaybackInfo {
    pub playback_id: String,
    pub clip_id: String,
    pub target_node_name: Option<String>,
    pub volume: Level,
    pub loop_mode: bool,
    pub duration_ms: u64,
    pub started_at: u64,
}

/// What a `PlaybackEntry` says, over character sequences.
#[verifier::ext_equal]
pub struct EntryView {
    pub clip_id: Seq<char>,
    pub target_node_name: Option<Seq<char>>,
    pub duration_ms: u64,
    pub started_at: u64,
    pub knobs: PlaybackKnobs,
}

/// What a `PlaybackInfo` says, over character sequences.
#[verifier::ext_equal]
pub struct InfoView {
    pub playback_id: Seq<char>,
    pub clip_id: Seq<char>,
    pub target_node_name: Option<Seq<char>>,
    pub volume: Level,
    pub loop_mode: bool,
    pub duration_ms: u64,
    pub started_at: u64,
}

impl View for PlaybackEntry {
    type V = EntryView;

    open spec fn view(&self) -> EntryView {
        EntryView {
            clip_id: self.clip_id@,
            target_node_name: text::opt_text(self.target_node_name),
            duration_ms: self.duration_ms,
            started_at: self.started_at,
            knobs: self.knobs,
        }
    }
}

impl View for PlaybackInfo {
    type V = InfoView;

    open spec fn view(&self) -> InfoView {
        InfoView {
            playback_id: self.playback_id@,
            clip_id: self.clip_id@,
            target_node_name: text::opt_text(self.target_node_name),
            volume: self.volume,
            loop_mode: self.loop_mode,
            duration_ms: self.duration_ms,
            started_at: self.started_at,
        }
    }
}

impl Clone for PlaybackInfo {
    fn clone(&self) -> (r: PlaybackInfo)
        ensures
            r@ == self@,
    {
        PlaybackInfo {
            playback_id: self.playback_id.clone(),
            clip_id: self.clip_id.clone(),
            target_node_name: self.target_node_name.clone(),
            volume: self.volume,
            loop_mode: self.loop_mode,
            duration_ms: self.duration_ms,
            started_at: self.started_at,
        }
    }
}

/// What is told of the playback `id`.
pub open spec fn info_of(e: EntryView, id: Seq<char>) -> InfoView {
    InfoView {
        playback_id: id,
        clip_id: e.clip_id,
        target_node_name: e.target_node_name,
        volume: Level { bits: e.knobs.volume_bits },
        loop_mode: e.knobs.loop_mode,
        duration_ms: e.duration_ms,
        started_at: e.started_at,
    }
}

impl PlaybackEntry {
    pub fn to_info(&self, playback_id: &str) -> (r: PlaybackInfo)
        ensures
            r@ == info_of(self@, playback_id@),
    {
        PlaybackInfo {
            playback_id: playback_id.to_owned(),
            clip_id: self.clip_id.clone(),
            target_node_name: self.target_node_name.clone(),
            volume: self.knobs.volume(),
            loop_mode: self.knobs.looped(),
            duration_ms: self.duration_ms,
            started_at: self.started_at,
        }
    }
}

// ── What is heard and told ───────────────────────────────────────────────────

/// The milliseconds of a clip are whole and as many as fit: a frame is two samples, and
/// the rate is in frames for a second.
pub proof fn milliseconds_fit_the_frames(frames: nat, sample_rate: u32)
    requires
        sample_rate > 0,
    ensures
        clip_ms(2 * frames, sample_rate) * sample_rate <= frames * 1000,
        frames * 1000 < (clip_ms(2 * frames, sample_rate) + 1) * sample_rate,
        clip_ms(2 * frames + 1, sample_rate) == clip_ms(2 * frames, sample_rate),
        clip_ms(2 * frames, 0) == 0,
{
    let n = (frames * 1000) as int;
    let r = sample_rate as int;
    let ms = n / r;
    assert((2 * frames) / 2 == frames);
    assert((2 * frames + 1) / 2 == frames);
    assert(ms * r <= n && n < (ms + 1) * r) by (nonlinear_arith)
        requires
            ms == n / r,
            r > 0,
    ;
}

/// The left side of a stereo frame is the first channel of its frame and the right side
/// the second; a single channel is heard on both. There are as many frames as before.
pub proof fn both_sides_are_heard<S>(s: Seq<S>, channels: nat, k: int)
    requires
        channels > 0,
        s.len() % channels == 0,
        0 <= k < s.len() / channels,
    ensures
        stereo(s, channels).len() == 2 * (s.len() / channels),
        stereo(s, channels)[2 * k] == s[k * channels],
        channels == 1 ==> stereo(s, channels)[2 * k + 1] == s[k],
        channels > 1 ==> stereo(s, channels)[2 * k + 1] == s[k * channels + 1],
{
    stereo_keeps_frames(s, channels);
    assert((2 * k) / 2 == k && (2 * k) % 2 == 0);
    assert((2 * k + 1) / 2 == k && (2 * k + 1) % 2 == 1);
    if channels == 1 {
        assert(k * channels == k) by (nonlinear_arith)
            requires
                channels == 1,
        ;
        assert(s.len() / channels == s.len()) by (nonlinear_arith)
            requires
                channels == 1,
        ;
    } else if channels == 2 {
        assert(k * channels == 2 * k) by (nonlinear_arith)
            requires
                channels == 2,
        ;
    }
}

/// Nothing is heard of a file without channels.
pub proof fn no_channels_are_silent<S>(s: Seq<S>)
    ensures
        stereo(s, 0).len() == 0,
{
}

/// The samples of a track are those of its packets, one after the other: a packet of
/// another track and a damaged one add nothing.
pub proof fn tracks_are_their_packets<S>(
    track_id: u32,
    a: Seq<PacketView<S>>,
    b: Seq<PacketView<S>>,
    p: PacketView<S>,
)
    ensures
        track_samples(track_id, a + b) == track_samples(track_id, a) + track_samples(track_id, b),
        p.track_id == track_id ==> (p.samples matches Some(s) ==> track_samples(track_id, seq![p])
            == s),
        p.track_id != track_id || p.samples is None ==> track_samples(track_id, seq![p]).len() == 0,
        track_samples::<S>(track_id, seq![]).len() == 0,
    decreases b.len(),
{
    let one = seq![p];
    assert(one.drop_last() =~= Seq::<PacketView<S>>::empty());
    assert(one.last() == p);
    assert(track_samples(track_id, one.drop_last()) =~= Seq::<S>::empty());
    if let Some(s) = p.samples {
        assert(Seq::<S>::empty() + s =~= s);
    }
    if b.len() == 0 {
        assert(a + b =~= a);
        assert(track_samples(track_id, a) + track_samples(track_id, b) =~= track_samples(
            track_id,
            a,
        ));
    } else {
        tracks_are_their_packets(track_id, a, b.drop_last(), p);
        assert((a + b).drop_last() =~= a + b.drop_last());
        assert((a + b).last() == b.last());
        assert(track_samples(track_id, a + b) =~= track_samples(track_id, a) + track_samples(
            track_id,
            b,
        ));
    }
}

/// What has come out of a file stays, and a packet adds the stereo frames of its
/// samples where it is one of the track.
pub proof fn packets_add_to_what_came_out<S>(
    track_id: u32,
    channels: nat,
    ps: Seq<PacketView<S>>,
    p: PacketView<S>,
)
    ensures
        out_of_run::<S>(track_id, channels, seq![]).len() == 0,
        p.track_id == track_id ==> (p.samples matches Some(s) ==> out_of_run(
            track_id,
            channels,
            ps.push(p),
        ) == out_of_run(track_id, channels, ps) + stereo(s, channels)),
        p.track_id != track_id || p.samples is None ==> out_of_run(track_id, channels, ps.push(p))
            == out_of_run(track_id, channels, ps),
{
    assert(ps.push(p).drop_last() =~= ps);
    assert(ps.push(p).last() == p);
}

/// The words for a decoding error hold what the decoder said.
pub proof fn decode_errors_are_told(m: Seq<char>)
    ensures
        decode_error_text(DecodeErrorView::NoDefaultTrack) == "no default track"@,
        decode_error_text(DecodeErrorView::MissingSampleRate) == "missing sample rate"@,
        decode_error_text(DecodeErrorView::MissingChannelLayout) == "missing channel layout"@,
        decode_error_text(DecodeErrorView::ZeroSamples) == "decoded zero samples"@,
        text::strip_prefix(
            decode_error_text(DecodeErrorView::PacketRead(m)),
            "packet read: "@,
        ) == Some(m),
        text::strip_prefix(decode_error_text(DecodeErrorView::Decode(m)), "decode: "@) == Some(m),
{
    text::prefixes_come_off(m, "packet read: "@, m);
    text::prefixes_come_off(m, "decode: "@, m);
}

/// A buffer begins with the frame at which the playback stands, and goes on frame by
/// frame; a looped playback goes on with the first frame after the last.
pub proof fn frames_follow_each_other(c: PlaybackCursor, cap: nat, k: int)
    requires
        c.wf(),
        0 <= k < cap,
        c.position < c.total,
    ensures
        c.sources(cap, true, false)[0] == Some(c.position),
        c.sources(cap, false, false)[0] == Some(c.position),
        k + 1 < cap ==> (c.sources(cap, true, false)[k] matches Some(p) && c.sources(
            cap,
            true,
            false,
        )[k + 1] == (if p + 2 < c.total {
            Some((p + 2) as usize)
        } else {
            Some(0usize)
        })),
        c.position + 2 * k < c.total ==> c.sources(cap, false, false)[k] == Some(
            (c.position + 2 * k) as usize,
        ),
        c.position + 2 * k >= c.total ==> c.sources(cap, false, false)[k] is None,
        c.sources(cap, true, true)[k] is None && c.sources(cap, false, true)[k] is None,
{
    let t = c.total as int;
    let p = c.position + 2 * k;
    let q = p % t;
    div_mod::lemma_small_mod(c.position as nat, t as nat);
    lemma_even_mod(p, t);
    div_mod::lemma_add_mod_noop(p, 2, t);
    if t == 2 {
        assert(q == 0);
        div_mod::lemma_mod_self_0(2);
        assert((p + 2) % 2 == 0);
    } else {
        div_mod::lemma_small_mod(2, t as nat);
        lemma_loop_start(q + 2, t);
    }
    assert(c.position + 2 * (k + 1) == p + 2);
}

/// A buffer holds the end of a playback where some frame of it is silent, and the
/// cursor then has told it.
pub proof fn silence_is_the_end(c: PlaybackCursor, cap: nat, looped: bool, stop: bool)
    requires
        c.wf(),
        looped ==> c.total > 0,
    ensures
        c.ends_in(cap, looped, stop) <==> exists|k: int|
            0 <= k < cap && #[trigger] c.sources(cap, looped, stop)[k] is None,
        c.after(cap, looped, stop).finished <==> c.finished || c.ends_in(cap, looped, stop),
        c.after(cap, looped, stop).total == c.total,
{
    if c.ends_in(cap, looped, stop) {
        assert(c.sources(cap, looped, stop)[cap - 1] is None);
    }
}

/// The cursor moves by as many frames as were played: it stays where the playback is
/// stopped, goes no further than the end, and stands behind the last frame that a looped
/// playback has played.
pub proof fn cursor_moves_with_the_frames(c: PlaybackCursor, cap: nat, looped: bool)
    requires
        c.wf(),
        cap > 0,
        looped ==> c.total > 0,
    ensures
        c.after(cap, looped, true).position == c.position,
        c.after(0, looped, false) == c,
        !looped && c.position + 2 * cap <= c.total ==> c.after(cap, looped, false).position
            == c.position + 2 * cap,
        !looped && c.position + 2 * cap > c.total ==> c.after(cap, looped, false).position
            == c.total,
        looped ==> (c.sources(cap, looped, false)[cap - 1] matches Some(p) && c.after(
            cap,
            looped,
            false,
        ).position == p + 2),
{
    if looped {
        lemma_even_mod(c.position + 2 * (cap - 1), c.total as int);
    }
}

/// What is told of a playback is what its entry holds.
pub proof fn playbacks_are_told_as_entered(e: EntryView, id: Seq<char>)
    ensures
        ({
            let i = info_of(e, id);
            &&& i.playback_id == id && i.clip_id == e.clip_id
            &&& i.target_node_name == e.target_node_name
            &&& i.volume.bits == e.knobs.volume_bits && i.loop_mode == e.knobs.loop_mode
            &&& i.duration_ms == e.duration_ms && i.started_at == e.started_at
        }),
{
}

/// An entry and what is told of it say what their fields hold, each for itself.
pub proof fn entries_say_their_fields(e: PlaybackEntry, i: PlaybackInfo)
    ensures
        e@.clip_id == e.clip_id@ && e@.duration_ms == e.duration_ms && e@.started_at
            == e.started_at && e@.knobs == e.knobs,
        e.target_node_name matches Some(t) ==> e@.target_node_name == Some(t@),
        e.target_node_name is None <==> e@.target_node_name is None,
        i@.playback_id == i.playback_id@ && i@.clip_id == i.clip_id@ && i@.volume == i.volume,
        i@.loop_mode == i.loop_mode && i@.duration_ms == i.duration_ms && i@.started_at
            == i.started_at,
        i.target_node_name matches Some(t) ==> i@.target_node_name == Some(t@),
        i.target_node_name is None <==> i@.target_node_name is None,
{
}

/// A packet that was decoded gives its samples, and a damaged one none.
pub proof fn packets_give_their_samples<S>(s: &[S], e: String)
    ensures
        samples_of(PacketDecoded::Samples(s)) == Some(s@),
        samples_of::<S>(PacketDecoded::Malformed) is None,
        samples_of::<S>(PacketDecoded::Failed(e)) is None,
{
}

/// A looped playback that stands at its end goes on with its first frame; one that is not
/// looped is silent there.
pub proof fn loops_start_again(c: PlaybackCursor, cap: nat)
    requires
        c.wf(),
        c.position == c.total,
        c.total > 0,
        cap > 0,
    ensures
        c.sources(cap, true, false)[0] == Some(0usize),
        c.sources(cap, false, false)[0] is None,
{
    lemma_loop_start(c.position as int, c.total as int);
}

/// A decoding error says what it is and what it is about.
pub proof fn decode_errors_say_what_they_are(e: DecodeError)
    ensures
        e is NoDefaultTrack <==> e@ is NoDefaultTrack,
        e is MissingSampleRate <==> e@ is MissingSampleRate,
        e is MissingChannelLayout <==> e@ is MissingChannelLayout,
        e is ZeroSamples <==> e@ is ZeroSamples,
        e matches DecodeError::PacketRead(m) ==> e@ == DecodeErrorView::PacketRead(m@),
        e matches DecodeError::Decode(m) ==> e@ == DecodeErrorView::Decode(m@),
{
}

} // verus!
