use vstd::prelude::*;

pub mod bitalloc;
pub mod crc;
pub mod error;
pub mod frame;
pub mod header;
pub mod synthesize;

pub use crate::decoder::error::{Error, Reason};
pub use crate::decoder::synthesize::DecoderState;

use crate::bits::{bits_value, Bits, Mode};
use crate::decoder::crc::{compute_crc, spec_crc_nbit, spec_frame_crc};
use crate::decoder::frame::{
    decode_frame, lemma_scale_bounds, lemma_valid_frame_size, spec_frame_scale, spec_padding_bits, spec_sample_at,
    spec_samples_end,
};
use crate::decoder::header::spec_read_header;
use crate::decoder::synthesize::{spec_synth, spec_synth_out, synthesize};

verus! {

/// Most channels in a frame.
pub const MAX_CHANNELS: usize = 2;

/// Most subbands in a frame.
pub const MAX_SUBBANDS: usize = 8;

/// Most blocks in a frame.
pub const MAX_BLOCKS: usize = 16;

/// Most samples of one channel in a frame.
pub const MAX_SAMPLES: usize = 128;

/// Sampling frequency.
#[derive(Debug, Copy, Clone, Eq, PartialEq, Structural)]
pub enum Frequency {
    Hz16k,
    Hz32k,
    Hz44k,
    Hz48k,
}

impl Frequency {
    /// The two-bit code of the frequency.
    pub open spec fn spec_code(self) -> nat {
        match self {
            Frequency::Hz16k => 0,
            Frequency::Hz32k => 1,
            Frequency::Hz44k => 2,
            Frequency::Hz48k => 3,
        }
    }

    /// The frequency of a two-bit code.
    pub open spec fn from_code(c: nat) -> Frequency {
        if c == 0 {
            Frequency::Hz16k
        } else if c == 1 {
            Frequency::Hz32k
        } else if c == 2 {
            Frequency::Hz44k
        } else {
            Frequency::Hz48k
        }
    }

    /// The two-bit code of the frequency.
    pub fn code(&self) -> (r: usize)
        ensures
            r == self.spec_code(),
    {
        match self {
            Frequency::Hz16k => 0,
            Frequency::Hz32k => 1,
            Frequency::Hz44k => 2,
            Frequency::Hz48k => 3,
        }
    }
}

/// Channel mode.
#[derive(Debug, Copy, Clone, Eq, PartialEq, Structural)]
pub enum ChannelMode {
    Mono,
    DualChannel,
    Stereo,
    JointStereo,
}

impl ChannelMode {
    /// The two-bit code of the mode.
    pub open spec fn spec_code(self) -> nat {
        match self {
            ChannelMode::Mono => 0,
            ChannelMode::DualChannel => 1,
            ChannelMode::Stereo => 2,
            ChannelMode::JointStereo => 3,
        }
    }

    /// The mode of a two-bit code.
    pub open spec fn from_code(c: nat) -> ChannelMode {
        if c == 0 {
            ChannelMode::Mono
        } else if c == 1 {
            ChannelMode::DualChannel
        } else if c == 2 {
            ChannelMode::Stereo
        } else {
            ChannelMode::JointStereo
        }
    }

    /// Whether both channels share one bit allocation.
    pub open spec fn spec_is_stereo(self) -> bool {
        self == ChannelMode::Stereo || self == ChannelMode::JointStereo
    }

    /// Whether both channels share one bit allocation.
    pub fn is_stereo(&self) -> (r: bool)
        ensures
            r == self.spec_is_stereo(),
    {
        match self {
            ChannelMode::Stereo | ChannelMode::JointStereo => true,
            _ => false,
        }
    }
}

/// Bit allocation method.
#[derive(Debug, Copy, Clone, Eq, PartialEq, Structural)]
pub enum Bam {
    Snr,
    Loudness,
}

/// The fields of a frame header.
#[derive(Debug, Copy, Clone, Eq, PartialEq, Structural)]
pub struct SbcHeader {
    pub msbc: bool,
    pub freq: Frequency,
    pub mode: ChannelMode,
    pub bam: Bam,
    pub blocks: u32,
    pub subbands: u32,
    pub bitpool: u32,
    pub crc: u8,
}

/// Number of bytes of a frame header.
pub const HEADER_SIZE: usize = 4;

impl SbcHeader {
    /// Number of bytes of a frame header.
    pub const SIZE: usize = 4;

    /// Number of channels of a frame of this header.
    pub open spec fn spec_channels(self) -> nat {
        if self.mode == ChannelMode::Mono {
            1
        } else {
            2
        }
    }

    /// Number of bits after the header: scale factors, joint-stereo flags and samples.
    pub open spec fn spec_payload_bits(self) -> int {
        let two_channels: int = if self.mode != ChannelMode::Mono { 2 } else { 1 };
        let dual: int = if self.mode == ChannelMode::DualChannel { 2 } else { 1 };
        (4 * self.subbands) * two_channels + (self.blocks * self.bitpool) * dual + (
        if self.mode == ChannelMode::JointStereo {
            self.subbands as int
        } else {
            0
        })
    }

    /// Number of bytes of a frame of this header.
    pub open spec fn spec_frame_size(self) -> int {
        4 + (self.spec_payload_bits() + 7) / 8
    }

    /// Whether the header's frame size can be computed in 32 bits.
    pub open spec fn frame_size_fits(self) -> bool {
        8 * self.subbands + 2 * (self.blocks * self.bitpool) + self.subbands + 7 <= u32::MAX
    }

    /// The header values of a frame in the mSBC format.
    pub open spec fn spec_msbc() -> SbcHeader {
        SbcHeader {
            msbc: true,
            freq: Frequency::Hz16k,
            mode: ChannelMode::Mono,
            bam: Bam::Loudness,
            blocks: 15,
            subbands: 8,
            bitpool: 26,
            crc: 0,
        }
    }

    /// Whether the header passes the checks of a decoded header.
    pub open spec fn is_valid(self) -> bool {
        &&& 4 <= self.blocks <= 16
        &&& (self.msbc || self.blocks % 4 == 0)
        &&& (self.subbands == 4 || self.subbands == 8)
        &&& self.bitpool <= spec_max_bitpool(self)
    }
}

/// The largest bitpool that a header accepts: what its blocks can carry, once the header,
/// the scale factors and the joint-stereo flags are counted, and at most 16 bits per
/// subband and channel that share the allocation. It equals the limit of the frame checks
/// of the `raw` module, `crate::raw::spec_raw_max_bitpool`.
pub open spec fn spec_max_bitpool(h: SbcHeader) -> int {
    let two_channels: int = if h.mode != ChannelMode::Mono { 2 } else { 1 };
    let dual: int = if h.mode == ChannelMode::DualChannel { 2 } else { 1 };
    let stereo: int = if h.mode.spec_is_stereo() { 2 } else { 1 };
    let max_bits = (16 * h.subbands * h.blocks) * two_channels - 4 * 8 - (4 * h.subbands)
        * two_channels - (if h.mode == ChannelMode::JointStereo {
        h.subbands as int
    } else {
        0
    });
    let per_block = max_bits / (h.blocks * dual);
    if per_block < 16 * stereo * h.subbands {
        per_block
    } else {
        16 * stereo * h.subbands
    }
}

/// Whether position `j` of a buffer holds one of the samples `lo..hi` of a view with
/// pitch `pitch` from `offset`.
pub open spec fn view_holds(j: int, pitch: int, offset: int, lo: int, hi: int) -> bool {
    &&& j % pitch == offset
    &&& lo <= j / pitch
    &&& j / pitch < hi
}

/// A view on an output buffer: sample `i` goes to `buf[offset + i * pitch]`.
pub struct BufferView<'a> {
    pub buf: &'a mut [i16],
    pub pitch: usize,
    pub offset: usize,
}

impl<'a> BufferView<'a> {
    /// Whether every sample of the view lies in the buffer.
    pub open spec fn wf(&self) -> bool {
        &&& 1 <= self.pitch
        &&& self.offset < self.pitch
    }

    /// Whether position `j` of the buffer holds one of the samples `lo..hi` of the view.
    pub open spec fn holds(&self, j: int, lo: int, hi: int) -> bool {
        view_holds(j, self.pitch as int, self.offset as int, lo, hi)
    }

    /// Number of samples that the view holds.
    pub open spec fn spec_len(&self) -> int {
        self.buf@.len() as int / self.pitch as int
    }

    /// Number of samples that the view holds.
    pub fn len(&self) -> (r: usize)
        requires
            self.pitch >= 1,
        ensures
            r == self.spec_len(),
    {
        self.buf.len() / self.pitch
    }

    /// Writes sample `i` of the view.
    pub fn set(&mut self, i: usize, v: i16)
        requires
            old(self).wf(),
            i < old(self).spec_len(),
        ensures
            final(self).pitch == old(self).pitch,
            final(self).offset == old(self).offset,
            final(self).buf@ == old(self).buf@.update(old(self).offset + i * old(self).pitch, v),
            final(final(self).buf)@ == final(old(self).buf)@,
    {
        let n = self.buf.len();
        proof {
            assert(self.offset + i * self.pitch < n) by (nonlinear_arith)
                requires
                    self.offset < self.pitch,
                    i < self.buf@.len() as int / self.pitch as int,
                    self.pitch >= 1,
                    n == self.buf@.len(),
            {
                assert(i + 1 <= self.buf@.len() as int / self.pitch as int);
                assert((i + 1) * self.pitch <= (self.buf@.len() as int / self.pitch as int) * self.pitch);
                assert((self.buf@.len() as int / self.pitch as int) * self.pitch <= self.buf@.len());
            }
        }
        let k = self.offset + i * self.pitch;
        self.buf[k] = v;
    }
}

/// Where decoded samples go.
pub enum OutputFormat<'a> {
    Auto(&'a mut [i16]),
    Mono(&'a mut [i16]),
    Interleaved(&'a mut [i16]),
    Planar(&'a mut [i16], &'a mut [i16]),
}

impl<'a> OutputFormat<'a> {
    /// Resolves `Auto` to `Mono` for a mono frame, to `Interleaved` otherwise.
    pub fn resolve(&mut self, mode: ChannelMode)
        ensures
            *old(self) is Auto && mode == ChannelMode::Mono ==> {
                &&& *final(self) is Mono
                &&& final(self)->Mono_0@ == old(self)->Auto_0@
                &&& final(final(self)->Mono_0)@ == final(old(self)->Auto_0)@
            },
            *old(self) is Auto && mode != ChannelMode::Mono ==> {
                &&& *final(self) is Interleaved
                &&& final(self)->Interleaved_0@ == old(self)->Auto_0@
                &&& final(final(self)->Interleaved_0)@ == final(old(self)->Auto_0)@
            },
            !(*old(self) is Auto) ==> *final(self) == *old(self),
    {
        let mut current = OutputFormat::Mono(&mut []);
        std::mem::swap(self, &mut current);
        *self = match current {
            OutputFormat::Auto(buf) => match mode {
                ChannelMode::Mono => Self::Mono(buf),
                _ => Self::Interleaved(buf),
            },
            other => other,
        };
    }

    /// Whether the samples go to one channel only.
    pub fn is_mono(&self) -> (r: bool)
        ensures
            r == self is Mono,
    {
        matches!(self, OutputFormat::Mono(_))
    }

    /// The view on the samples of the left channel, or of the only one.
    pub fn left(&mut self) -> (r: BufferView<'_>)
        requires
            !(*old(self) is Auto),
        ensures
            r.wf(),
            match *old(self) {
                OutputFormat::Mono(b) => {
                    &&& r.pitch == 1
                    &&& r.offset == 0
                    &&& r.buf@ == b@
                    &&& *final(self) is Mono
                    &&& final(self)->Mono_0@ == final(r.buf)@
                    &&& final(final(self)->Mono_0)@ == final(b)@
                },
                OutputFormat::Interleaved(b) => {
                    &&& r.pitch == 2
                    &&& r.offset == 0
                    &&& r.buf@ == b@
                    &&& *final(self) is Interleaved
                    &&& final(self)->Interleaved_0@ == final(r.buf)@
                    &&& final(final(self)->Interleaved_0)@ == final(b)@
                },
                OutputFormat::Planar(lb, rb) => {
                    &&& r.pitch == 1
                    &&& r.offset == 0
                    &&& r.buf@ == lb@
                    &&& *final(self) is Planar
                    &&& final(self)->Planar_0@ == final(r.buf)@
                    &&& final(final(self)->Planar_0)@ == final(lb)@
                    &&& final(self)->Planar_1 == rb
                },
                _ => true,
            },
    {
        match self {
            OutputFormat::Mono(buf) => BufferView { buf: *buf, pitch: 1, offset: 0 },
            OutputFormat::Interleaved(buf) => BufferView { buf: *buf, pitch: 2, offset: 0 },
            OutputFormat::Planar(l, _) => BufferView { buf: *l, pitch: 1, offset: 0 },
            OutputFormat::Auto(_) => unreached(),
        }
    }

    /// The view on the samples of the right channel.
    pub fn right(&mut self) -> (r: BufferView<'_>)
        requires
            *old(self) is Interleaved || *old(self) is Planar,
        ensures
            r.wf(),
            match *old(self) {
                OutputFormat::Interleaved(b) => {
                    &&& r.pitch == 2
                    &&& r.offset == 1
                    &&& r.buf@ == b@
                    &&& *final(self) is Interleaved
                    &&& final(self)->Interleaved_0@ == final(r.buf)@
                    &&& final(final(self)->Interleaved_0)@ == final(b)@
                },
                OutputFormat::Planar(lb, rb) => {
                    &&& r.pitch == 1
                    &&& r.offset == 0
                    &&& r.buf@ == rb@
                    &&& *final(self) is Planar
                    &&& final(self)->Planar_1@ == final(r.buf)@
                    &&& final(final(self)->Planar_1)@ == final(rb)@
                    &&& final(self)->Planar_0 == lb
                },
                _ => true,
            },
    {
        match self {
            OutputFormat::Interleaved(buf) => BufferView { buf: *buf, pitch: 2, offset: 1 },
            OutputFormat::Planar(_, r) => BufferView { buf: *r, pitch: 1, offset: 0 },
            _ => unreached(),
        }
    }
}

/// The payload of a frame: its bytes after the header.
pub open spec fn spec_payload(d: Seq<u8>, h: SbcHeader) -> Seq<u8> {
    d.subrange(HEADER_SIZE as int, h.spec_frame_size())
}

/// The checks that a frame at the start of `d` passes before its samples are synthesized:
/// its header, its length, its CRC and its padding. Its header when all pass.
pub closed spec fn spec_check_frame(d: Seq<u8>) -> Result<SbcHeader, Error> {
    match spec_read_header(d) {
        Err(e) => Err(e),
        Ok(h) => {
            let fs = h.spec_frame_size();
            let p = spec_payload(d, h);
            let pad = spec_padding_bits(p, 0, h);
            if d.len() < fs {
                Err(Error::NotEnoughData { expected: fs as usize, actual: d.len() as usize })
            } else if spec_frame_crc(d.take(fs), spec_crc_nbit(h)) != h.crc {
                Err(Error::BadData(Reason::InvalidCrc))
            } else if pad > 0 && bits_value(p, spec_samples_end(p, 0, h), pad as nat) != 0 {
                Err(Error::BadData(Reason::UnexpectedData))
            } else {
                Ok(h)
            }
        },
    }
}

/// A frame that passes its checks has the header read from its first bytes and is
/// whole; a header that reads with fewer bytes than its frame size fails them.
pub proof fn lemma_check_frame_header(d: Seq<u8>)
    ensures
        spec_check_frame(d) is Ok ==> {
            &&& spec_read_header(d) is Ok
            &&& spec_check_frame(d)->Ok_0 == spec_read_header(d)->Ok_0
            &&& d.len() >= spec_read_header(d)->Ok_0.spec_frame_size()
        },
        spec_read_header(d) is Err ==> spec_check_frame(d) == Err::<SbcHeader, Error>(
            spec_read_header(d)->Err_0,
        ),
{
}

/// What the checks of a frame whose header reads give: the frame is refused for too few
/// bytes, then for a CRC that differs from the header's, then for padding bits that are not
/// zero, and passes with its header otherwise.
pub proof fn lemma_check_frame_result(d: Seq<u8>)
    requires
        spec_read_header(d) is Ok,
    ensures
        ({
            let h = spec_read_header(d)->Ok_0;
            let fs = h.spec_frame_size();
            let p = spec_payload(d, h);
            let pad = spec_padding_bits(p, 0, h);
            let crc_ok = spec_frame_crc(d.take(fs), spec_crc_nbit(h)) == h.crc;
            let pad_ok = pad <= 0 || bits_value(p, spec_samples_end(p, 0, h), pad as nat) == 0;
            &&& d.len() < fs ==> spec_check_frame(d) == Err::<SbcHeader, Error>(
                Error::NotEnoughData { expected: fs as usize, actual: d.len() as usize },
            )
            &&& d.len() >= fs && !crc_ok ==> spec_check_frame(d) == Err::<SbcHeader, Error>(
                Error::BadData(Reason::InvalidCrc),
            )
            &&& d.len() >= fs && crc_ok && !pad_ok ==> spec_check_frame(d) == Err::<
                SbcHeader,
                Error,
            >(Error::BadData(Reason::UnexpectedData))
            &&& d.len() >= fs && crc_ok && pad_ok ==> spec_check_frame(d) == Ok::<SbcHeader, Error>(h)
        }),
{
}

/// A frame is decoded from its own bytes alone: once it passes its checks, the bytes that
/// follow it change neither the checks nor its samples.
pub proof fn lemma_check_frame_suffix(d: Seq<u8>, e: Seq<u8>)
    requires
        spec_check_frame(d) is Ok,
    ensures
        spec_check_frame(d + e) == spec_check_frame(d),
        forall|c: int| #[trigger] spec_channel_samples(d + e, spec_check_frame(d)->Ok_0, c)
            == spec_channel_samples(d, spec_check_frame(d)->Ok_0, c),
        forall|hist: (int, Seq<Seq<Seq<i16>>>), c: int|
            #[trigger] spec_decoded_history(hist, d + e, spec_check_frame(d)->Ok_0, c)
                == spec_decoded_history(hist, d, spec_check_frame(d)->Ok_0, c),
        forall|hist: (int, Seq<Seq<Seq<i16>>>), c: int, k: int|
            #[trigger] spec_decoded_sample(hist, d + e, spec_check_frame(d)->Ok_0, c, k)
                == spec_decoded_sample(hist, d, spec_check_frame(d)->Ok_0, c, k),
{
    let de = d + e;
    let h = spec_check_frame(d)->Ok_0;
    crate::decoder::header::lemma_read_header_prefix(d);
    crate::decoder::header::lemma_read_header_prefix(de);
    assert(de.take(4) =~= d.take(4));
    let fs = h.spec_frame_size();
    assert(de.take(fs) =~= d.take(fs));
    assert(spec_payload(de, h) =~= spec_payload(d, h));
    assert forall|c: int| #[trigger] spec_channel_samples(de, h, c) == spec_channel_samples(d, h, c) by {
        assert(spec_channel_samples(de, h, c) =~= spec_channel_samples(d, h, c));
    }
}

/// The subband samples of channel `c` of the frame, zero past its blocks.
pub closed spec fn spec_channel_samples(d: Seq<u8>, h: SbcHeader, c: int) -> Seq<i16> {
    Seq::new(
        MAX_SAMPLES as nat,
        |k: int|
            if c < h.spec_channels() && k < h.blocks * h.subbands {
                spec_sample_at(spec_payload(d, h), 0, h, c, k)
            } else {
                0i16
            },
    )
}

/// The synthesis history of channel `c` after the frame, from `hist` before it.
pub closed spec fn spec_decoded_history(
    hist: (int, Seq<Seq<Seq<i16>>>),
    d: Seq<u8>,
    h: SbcHeader,
    c: int,
) -> (int, Seq<Seq<Seq<i16>>>) {
    spec_synth(
        hist.1,
        hist.0,
        spec_channel_samples(d, h, c),
        spec_frame_scale(spec_payload(d, h), 0, h, c),
        h.subbands as int,
        h.blocks as nat,
    )
}

/// Output sample `k` of channel `c` of the frame, from the synthesis history `hist`.
pub closed spec fn spec_decoded_sample(
    hist: (int, Seq<Seq<Seq<i16>>>),
    d: Seq<u8>,
    h: SbcHeader,
    c: int,
    k: int,
) -> i16 {
    spec_synth_out(
        hist.1,
        hist.0,
        spec_channel_samples(d, h, c),
        spec_frame_scale(spec_payload(d, h), 0, h, c),
        h.subbands as int,
        k,
    )
}

/// The buffer `b` after samples `0..n` of the view with `pitch` from `offset` were set
/// to `f`.
pub open spec fn spec_view_write(
    b: Seq<i16>,
    pitch: int,
    offset: int,
    n: int,
    f: spec_fn(int) -> i16,
) -> Seq<i16> {
    Seq::new(b.len(), |j: int| if view_holds(j, pitch, offset, 0, n) { f(j / pitch) } else { b[j] })
}

/// A buffer that holds `f(k)` at each sample `k < n` of a view and its old values
/// elsewhere is the old buffer with the view written.
pub proof fn lemma_view_write(
    before: Seq<i16>,
    after: Seq<i16>,
    pitch: int,
    offset: int,
    n: int,
    f: spec_fn(int) -> i16,
)
    requires
        0 <= offset < pitch,
        0 <= n <= before.len() as int / pitch,
        after.len() == before.len(),
        forall|k: int| 0 <= k < n ==> #[trigger] after[offset + k * pitch] == f(k),
        forall|j: int|
            0 <= j < before.len() && !view_holds(j, pitch, offset, 0, n) ==> #[trigger] after[j]
                == before[j],
    ensures
        after == spec_view_write(before, pitch, offset, n, f),
{
    assert forall|j: int| 0 <= j < after.len() implies #[trigger] after[j] == spec_view_write(
        before,
        pitch,
        offset,
        n,
        f,
    )[j] by {
        if view_holds(j, pitch, offset, 0, n) {
            let k = j / pitch;
            vstd::arithmetic::div_mod::lemma_fundamental_div_mod(j, pitch);
            assert(j == offset + k * pitch) by (nonlinear_arith)
                requires
                    j == pitch * (j / pitch) + j % pitch,
                    j % pitch == offset,
                    k == j / pitch,
            ;
            assert(after[offset + k * pitch] == f(k));
        }
    }
    assert(after =~= spec_view_write(before, pitch, offset, n, f));
}

impl<'a> OutputFormat<'a> {
    /// The pitch of the left channel's samples in a frame of `mode`.
    pub open spec fn left_pitch(&self, mode: ChannelMode) -> int {
        match *self {
            OutputFormat::Interleaved(_) => 2,
            OutputFormat::Auto(_) => if mode == ChannelMode::Mono {
                1
            } else {
                2
            },
            _ => 1,
        }
    }

    /// Whether a frame of `mode` has its right channel written.
    pub open spec fn writes_right(&self, mode: ChannelMode) -> bool {
        mode != ChannelMode::Mono && !(*self is Mono)
    }

    /// The samples held by the buffer of the left channel.
    pub open spec fn left_buf(&self) -> Seq<i16> {
        match *self {
            OutputFormat::Auto(b) => b@,
            OutputFormat::Mono(b) => b@,
            OutputFormat::Interleaved(b) => b@,
            OutputFormat::Planar(l, _) => l@,
        }
    }

    /// The samples held by the buffer of the right channel.
    pub open spec fn right_buf(&self) -> Seq<i16> {
        match *self {
            OutputFormat::Planar(_, r) => r@,
            _ => self.left_buf(),
        }
    }

    /// The pitch of the right channel's samples.
    pub open spec fn right_pitch(&self) -> int {
        if *self is Planar {
            1
        } else {
            2
        }
    }

    /// The number of samples of the left channel that fit the buffers.
    pub open spec fn left_len(&self, mode: ChannelMode) -> int {
        self.left_buf().len() as int / self.left_pitch(mode)
    }

    /// The number of samples of the right channel that fit the buffers.
    pub open spec fn right_len(&self) -> int {
        self.right_buf().len() as int / self.right_pitch()
    }

    /// The first buffer after the left channel, and the right one when it shares the
    /// buffer, were written as allowed.
    pub open spec fn first_after(
        &self,
        mode: ChannelMode,
        b: Seq<i16>,
        n: int,
        left: bool,
        right: bool,
        fl: spec_fn(int) -> i16,
        fr: spec_fn(int) -> i16,
    ) -> Seq<i16> {
        let w = if left {
            spec_view_write(b, self.left_pitch(mode), 0, n, fl)
        } else {
            b
        };
        if right && !(*self is Planar) {
            spec_view_write(w, 2, 1, n, fr)
        } else {
            w
        }
    }
}

/// The history and output samples of a decoded frame, in terms of the synthesis of its
/// subband samples.
pub proof fn lemma_decoded_unfold(hist: (int, Seq<Seq<Seq<i16>>>), d: Seq<u8>, h: SbcHeader, c: int)
    ensures
        spec_decoded_history(hist, d, h, c) == spec_synth(
            hist.1,
            hist.0,
            spec_channel_samples(d, h, c),
            spec_frame_scale(spec_payload(d, h), 0, h, c),
            h.subbands as int,
            h.blocks as nat,
        ),
        forall|k: int|
            #[trigger] spec_decoded_sample(hist, d, h, c, k) == spec_synth_out(
                hist.1,
                hist.0,
                spec_channel_samples(d, h, c),
                spec_frame_scale(spec_payload(d, h), 0, h, c),
                h.subbands as int,
                k,
            ),
{
}

/// The subband samples that every decoder of this crate synthesizes are those that
/// `frame::decode_frame` gives on the frame's payload: for each channel of the frame, the
/// samples of its blocks are `spec_sample_at` of the payload read from its first bit, and
/// the rest are zero. The raw `crate::raw::sbc_decode`, `decode` and `Decoder` all state
/// their output through `spec_decoded_sample`, which `lemma_decoded_unfold` gives as the
/// synthesis of these samples at the scale `decode_frame` gives.
pub proof fn lemma_channel_samples_decoded(d: Seq<u8>, h: SbcHeader, c: int)
    ensures
        spec_channel_samples(d, h, c).len() == MAX_SAMPLES,
        forall|k: int|
            0 <= k < MAX_SAMPLES ==> #[trigger] spec_channel_samples(d, h, c)[k] == if c
                < h.spec_channels() && k < h.blocks * h.subbands {
                spec_sample_at(spec_payload(d, h), 0, h, c, k)
            } else {
                0i16
            },
{
}

/// Decodes the subband samples of a frame of header `header` at the start of `data`,
/// and the scale of each channel, whatever its padding holds.
pub fn decode_payload(data: &[u8], header: &SbcHeader) -> (r: (
    [[i16; MAX_SAMPLES]; MAX_CHANNELS],
    [i32; MAX_CHANNELS],
    Result<(), Error>,
))
    requires
        header.is_valid(),
        data.len() >= header.spec_frame_size(),
    ensures
        r.0[0]@ == spec_channel_samples(data@, *header, 0),
        r.0[1]@ == spec_channel_samples(data@, *header, 1),
        r.1[0] == spec_frame_scale(spec_payload(data@, *header), 0, *header, 0),
        header.spec_channels() == 2 ==> r.1[1] == spec_frame_scale(
            spec_payload(data@, *header),
            0,
            *header,
            1,
        ),
        -2 <= r.1[0] <= 14,
        -2 <= r.1[1] <= 14,
        ({
            let p = spec_payload(data@, *header);
            let pad = spec_padding_bits(p, 0, *header);
            &&& r.2 is Err <==> pad > 0 && bits_value(p, spec_samples_end(p, 0, *header), pad as nat) != 0
            &&& r.2 is Err ==> r.2 == Err::<(), Error>(Error::BadData(Reason::UnexpectedData))
        }),
{
    let ghost d0 = data@;
    proof {
        lemma_valid_frame_size(*header);
    }
    let frame_size = header.frame_size();
    let mut samples = [[0i16; MAX_SAMPLES]; MAX_CHANNELS];
    let mut scale = [0i32; MAX_CHANNELS];
    let mut bits = Bits::new(Mode::Read, &data[HEADER_SIZE..frame_size]);
    assert(bits.bytes() == spec_payload(d0, *header));
    let padding = decode_frame(&mut bits, header, &mut samples, &mut scale);
    proof {
        let p = spec_payload(d0, *header);
        lemma_scale_bounds(p, 0, *header, 0, 0);
        if header.spec_channels() == 2 {
            lemma_scale_bounds(p, 0, *header, 1, 0);
        }
        assert(samples[0]@ =~= spec_channel_samples(d0, *header, 0));
        assert(samples[1]@ =~= spec_channel_samples(d0, *header, 1));
    }
    (samples, scale, padding)
}

/// Reads and checks the frame at the start of `data`, and decodes its subband samples
/// and the scale of each channel.
pub fn read_frame(data: &[u8]) -> (r: Result<(SbcHeader, [[i16; MAX_SAMPLES]; MAX_CHANNELS], [i32; MAX_CHANNELS]), Error>)
    ensures
        spec_check_frame(data@) is Err ==> r == Err::<
            (SbcHeader, [[i16; MAX_SAMPLES]; MAX_CHANNELS], [i32; MAX_CHANNELS]),
            Error,
        >(spec_check_frame(data@)->Err_0),
        spec_check_frame(data@) is Ok ==> {
            let h = spec_check_frame(data@)->Ok_0;
            &&& r is Ok
            &&& r->Ok_0.0 == h
            &&& h.is_valid()
            &&& r->Ok_0.1[0]@ == spec_channel_samples(data@, h, 0)
            &&& r->Ok_0.1[1]@ == spec_channel_samples(data@, h, 1)
            &&& r->Ok_0.2[0] == spec_frame_scale(spec_payload(data@, h), 0, h, 0)
            &&& h.spec_channels() == 2 ==> r->Ok_0.2[1] == spec_frame_scale(spec_payload(data@, h), 0, h, 1)
            &&& -2 <= r->Ok_0.2[0] <= 14
            &&& -2 <= r->Ok_0.2[1] <= 14
        },
{
    let header = match SbcHeader::read(data) {
        Ok(h) => h,
        Err(e) => return Err(e),
    };
    proof {
        lemma_valid_frame_size(header);
    }
    let frame_size = header.frame_size();
    if data.len() < frame_size {
        return Err(Error::NotEnoughData { expected: frame_size, actual: data.len() });
    }
    let frame = &data[0..frame_size];
    assert(frame@ == data@.take(frame_size as int));
    let crc = match compute_crc(&header, frame) {
        Ok(c) => c,
        Err(e) => return Err(e),
    };
    if crc != header.crc {
        return Err(Error::BadData(Reason::InvalidCrc));
    }
    let (samples, scale, padding) = decode_payload(data, &header);
    match padding {
        Ok(()) => Ok((header, samples, scale)),
        Err(e) => Err(e),
    }
}

/// The blocks of a frame fit the sample buffer of a channel.
pub proof fn lemma_synth_blocks_whole(blocks: int, n: int)
    requires
        4 <= blocks <= 16,
        n == 4 || n == 8,
    ensures
        crate::decoder::synthesize::spec_synth_blocks(blocks, n, MAX_SAMPLES as int) == blocks,
        blocks * n <= MAX_SAMPLES,
{
    assert(blocks * n <= 128) by (nonlinear_arith)
        requires
            0 <= blocks <= 16,
            0 <= n <= 8,
    ;
    assert(blocks <= 128int / n) by (nonlinear_arith)
        requires
            blocks * n <= 128,
            n == 4 || n == 8,
    ;
}

/// The error of the checking decoder.
#[derive(Debug, Copy, Clone)]
pub struct SbcError {
    pub error: Error,
}

/// Checks the frame at the start of `data` and decodes its subband samples, without
/// synthesizing them: `out` is left as it is.
pub fn decode(data: &[u8], out: &mut [i16]) -> (r: Result<(), SbcError>)
    ensures
        r is Ok <==> spec_check_frame(data@) is Ok,
        r is Err ==> r->Err_0.error == spec_check_frame(data@)->Err_0,
        final(out)@ == old(out)@,
{
    match read_frame(data) {
        Ok(_) => Ok(()),
        Err(e) => Err(SbcError { error: e }),
    }
}

/// Sample `k` of a view lies where the view was written.
pub proof fn lemma_view_write_at(
    b: Seq<i16>,
    pitch: int,
    offset: int,
    n: int,
    f: spec_fn(int) -> i16,
    k: int,
)
    requires
        0 <= offset < pitch,
        0 <= k < n,
        offset + k * pitch < b.len(),
    ensures
        spec_view_write(b, pitch, offset, n, f)[offset + k * pitch] == f(k),
{
    vstd::arithmetic::div_mod::lemma_fundamental_div_mod_converse(offset + k * pitch, pitch, k, offset);
}

/// A position that no sample of a view lies at keeps its value.
pub proof fn lemma_view_write_other(
    b: Seq<i16>,
    pitch: int,
    offset: int,
    n: int,
    f: spec_fn(int) -> i16,
    j: int,
)
    requires
        0 <= j < b.len(),
        j % pitch != offset,
    ensures
        spec_view_write(b, pitch, offset, n, f)[j] == b[j],
{
}

/// The samples a whole frame leaves in an automatic output that holds exactly its
/// samples: each channel's in turn, interleaved when there are two.
pub proof fn lemma_auto_output(
    o: OutputFormat,
    mode: ChannelMode,
    n: int,
    fl: spec_fn(int) -> i16,
    fr: spec_fn(int) -> i16,
)
    requires
        o is Auto,
        n > 0,
        o.left_buf().len() == (if mode == ChannelMode::Mono { 1int } else { 2int }) * n,
    ensures
        o.left_len(mode) == n,
        mode != ChannelMode::Mono ==> o.right_len() == n,
        ({
            let nch: int = if mode == ChannelMode::Mono { 1 } else { 2 };
            let r = o.first_after(mode, o.left_buf(), n, true, o.writes_right(mode), fl, fr);
            &&& r.len() == nch * n
            &&& forall|k: int| 0 <= k < n ==> #[trigger] r[nch * k] == fl(k)
            &&& nch == 2 ==> forall|k: int| 0 <= k < n ==> #[trigger] r[2 * k + 1] == fr(k)
        }),
{
    let nch: int = if mode == ChannelMode::Mono { 1 } else { 2 };
    let b = o.left_buf();
    vstd::arithmetic::div_mod::lemma_div_by_multiple(n, nch);
    vstd::arithmetic::div_mod::lemma_div_by_multiple(n, 2);
    let w = spec_view_write(b, nch, 0, n, fl);
    let r = o.first_after(mode, b, n, true, o.writes_right(mode), fl, fr);
    assert forall|k: int| 0 <= k < n implies #[trigger] r[nch * k] == fl(k) by {
        assert(nch * k < nch * n) by (nonlinear_arith)
            requires
                0 <= k < n,
                nch > 0,
        ;
        assert(0 + k * nch == nch * k) by (nonlinear_arith);
        lemma_view_write_at(b, nch, 0, n, fl, k);
        if nch == 2 {
            vstd::arithmetic::div_mod::lemma_fundamental_div_mod_converse(nch * k, 2, k, 0);
            lemma_view_write_other(w, 2, 1, n, fr, nch * k);
        }
    }
    if nch == 2 {
        assert forall|k: int| 0 <= k < n implies #[trigger] r[2 * k + 1] == fr(k) by {
            assert(2 * k + 1 < 2 * n);
            assert(1 + k * 2 == 2 * k + 1);
            lemma_view_write_at(w, 2, 1, n, fr, k);
        }
    }
}

/// A decoder of SBC frames, holding the synthesis state of each channel from one frame
/// to the next.
pub struct Decoder {
    state: [DecoderState; 2],
}

/// The result of decoding a frame.
pub struct DecodeStatus {
    pub bytes_read: usize,
    pub samples_written: usize,
    pub channels: u32,
}

impl Decoder {
    /// Most samples of one channel that a frame decodes to.
    pub const MAX_SAMPLES: usize = 128;

    /// The position and history of the synthesis of channel `c`.
    pub closed spec fn history(&self, c: int) -> (int, Seq<Seq<Seq<i16>>>) {
        (self.state[c].index as int, crate::decoder::synthesize::spec_history(self.state[c].v))
    }

    /// Whether both synthesis states are at a position in their history.
    pub closed spec fn wf(&self) -> bool {
        &&& self.state[0].index < 10
        &&& self.state[1].index < 10
    }

    /// The history of a decoder that has decoded nothing yet.
    pub open spec fn initial_history() -> (int, Seq<Seq<Seq<i16>>>) {
        (0, Seq::new(2, |c: int| Seq::new(8, |k: int| Seq::new(10, |j: int| 0i16))))
    }

    /// A decoder that has decoded nothing yet.
    pub fn new() -> (r: Self)
        ensures
            r.wf(),
            r.history(0) == Self::initial_history(),
            r.history(1) == Self::initial_history(),
    {
        let r = Decoder { state: [DecoderState::new(), DecoderState::new()] };
        proof {
            assert(crate::decoder::synthesize::spec_history(r.state[0].v) =~~= Self::initial_history().1);
            assert(crate::decoder::synthesize::spec_history(r.state[1].v) =~~= Self::initial_history().1);
        }
        r
    }

    /// Synthesizes the left channel of a decoded frame into the view `output.left()`.
    fn write_left(
        &mut self,
        header: &SbcHeader,
        samples: &[[i16; MAX_SAMPLES]; MAX_CHANNELS],
        scale: &[i32; MAX_CHANNELS],
        output: &mut OutputFormat<'_>,
    ) -> (r: Result<(), Error>)
        requires
            old(self).wf(),
            header.is_valid(),
            -2 <= scale[0] <= 14,
            !(*old(output) is Auto),
        ensures
            final(self).wf(),
            ({
                let h = *header;
                let n = h.blocks * h.subbands;
                let ok = old(output).left_len(h.mode) >= n;
                let h0 = old(self).history(0);
                let fl = |k: int| spec_synth_out(h0.1, h0.0, samples[0]@, scale[0] as int, h.subbands as int, k);
                let p = old(output).left_pitch(h.mode);
                &&& !ok ==> r == Err::<(), Error>(
                    Error::OutputBufferTooSmall {
                        expected: n as usize,
                        actual: old(output).left_len(h.mode) as usize,
                    },
                )
                &&& ok ==> r is Ok
                &&& final(self).history(0) == if ok {
                    spec_synth(h0.1, h0.0, samples[0]@, scale[0] as int, h.subbands as int, h.blocks as nat)
                } else {
                    h0
                }
                &&& final(self).history(1) == old(self).history(1)
                &&& match *old(output) {
                    OutputFormat::Mono(b) => {
                        &&& *final(output) is Mono
                        &&& final(output)->Mono_0@ == if ok { spec_view_write(b@, p, 0, n, fl) } else { b@ }
                        &&& final(final(output)->Mono_0)@ == final(b)@
                    },
                    OutputFormat::Interleaved(b) => {
                        &&& *final(output) is Interleaved
                        &&& final(output)->Interleaved_0@ == if ok { spec_view_write(b@, p, 0, n, fl) } else { b@ }
                        &&& final(final(output)->Interleaved_0)@ == final(b)@
                    },
                    OutputFormat::Planar(lb, rb) => {
                        &&& *final(output) is Planar
                        &&& final(output)->Planar_0@ == if ok { spec_view_write(lb@, p, 0, n, fl) } else { lb@ }
                        &&& final(final(output)->Planar_0)@ == final(lb)@
                        &&& final(output)->Planar_1 == rb
                    },
                    _ => true,
                }
            }),
    {
        proof {
            lemma_valid_frame_size(*header);
        }
        let num_samples = header.blocks as usize * header.subbands as usize;
        let mut left = output.left();
        let left_len = left.len();
        if left_len < num_samples {
            proof {
                assert(has_resolved(left.buf));
                assert(left.buf@ == final(left.buf)@);
                assert(left_len == old(output).left_len(header.mode));
                assert(self.history(0) == old(self).history(0));
            }
            return Err(Error::OutputBufferTooSmall { expected: num_samples, actual: left_len });
        }
        let ghost before = left.buf@;
        let ghost h0 = self.history(0);
        let ghost n = num_samples as int;
        let ghost fl = |k: int|
            spec_synth_out(h0.1, h0.0, samples[0]@, scale[0] as int, header.subbands as int, k);
        proof {
            lemma_synth_blocks_whole(header.blocks as int, header.subbands as int);
        }
        synthesize(
            &mut self.state[0],
            header.blocks as usize,
            header.subbands as usize,
            &samples[0],
            scale[0],
            &mut left,
        );
        proof {
            lemma_view_write(before, left.buf@, left.pitch as int, 0, n, fl);
        }
        Ok(())
    }

    /// Synthesizes the right channel of a decoded frame into the view `output.right()`.
    fn write_right(
        &mut self,
        header: &SbcHeader,
        samples: &[[i16; MAX_SAMPLES]; MAX_CHANNELS],
        scale: &[i32; MAX_CHANNELS],
        output: &mut OutputFormat<'_>,
    ) -> (r: Result<(), Error>)
        requires
            old(self).wf(),
            header.is_valid(),
            -2 <= scale[1] <= 14,
            *old(output) is Interleaved || *old(output) is Planar,
        ensures
            final(self).wf(),
            ({
                let h = *header;
                let n = h.blocks * h.subbands;
                let ok = old(output).right_len() >= n;
                let h1 = old(self).history(1);
                let fr = |k: int| spec_synth_out(h1.1, h1.0, samples[1]@, scale[1] as int, h.subbands as int, k);
                &&& !ok ==> r == Err::<(), Error>(
                    Error::OutputBufferTooSmall { expected: n as usize, actual: old(output).right_len() as usize },
                )
                &&& ok ==> r is Ok
                &&& final(self).history(1) == if ok {
                    spec_synth(h1.1, h1.0, samples[1]@, scale[1] as int, h.subbands as int, h.blocks as nat)
                } else {
                    h1
                }
                &&& final(self).history(0) == old(self).history(0)
                &&& match *old(output) {
                    OutputFormat::Interleaved(b) => {
                        &&& *final(output) is Interleaved
                        &&& final(output)->Interleaved_0@ == if ok { spec_view_write(b@, 2, 1, n, fr) } else { b@ }
                        &&& final(final(output)->Interleaved_0)@ == final(b)@
                    },
                    OutputFormat::Planar(lb, rb) => {
                        &&& *final(output) is Planar
                        &&& final(output)->Planar_1@ == if ok { spec_view_write(rb@, 1, 0, n, fr) } else { rb@ }
                        &&& final(final(output)->Planar_1)@ == final(rb)@
                        &&& final(output)->Planar_0 == lb
                    },
                    _ => true,
                }
            }),
    {
        proof {
            lemma_valid_frame_size(*header);
        }
        let num_samples = header.blocks as usize * header.subbands as usize;
        let mut right = output.right();
        let right_len = right.len();
        if right_len < num_samples {
            proof {
                assert(has_resolved(right.buf));
                assert(right.buf@ == final(right.buf)@);
            }
            return Err(Error::OutputBufferTooSmall { expected: num_samples, actual: right_len });
        }
        let ghost before = right.buf@;
        let ghost h1 = self.history(1);
        let ghost n = num_samples as int;
        let ghost fr = |k: int|
            spec_synth_out(h1.1, h1.0, samples[1]@, scale[1] as int, header.subbands as int, k);
        proof {
            lemma_synth_blocks_whole(header.blocks as int, header.subbands as int);
        }
        synthesize(
            &mut self.state[1],
            header.blocks as usize,
            header.subbands as usize,
            &samples[1],
            scale[1],
            &mut right,
        );
        proof {
            lemma_view_write(before, right.buf@, right.pitch as int, right.offset as int, n, fr);
        }
        Ok(())
    }

    /// Synthesizes the subband samples of a decoded frame into `output`: the left
    /// channel, then the right one when the frame has two and `output` takes both.
    #[verifier::spinoff_prover]
    #[verifier::rlimit(50)]
    fn write_frame(
        &mut self,
        header: &SbcHeader,
        samples: &[[i16; MAX_SAMPLES]; MAX_CHANNELS],
        scale: &[i32; MAX_CHANNELS],
        output: OutputFormat<'_>,
    ) -> (r: Result<(), Error>)
        requires
            old(self).wf(),
            header.is_valid(),
            -2 <= scale[0] <= 14,
            -2 <= scale[1] <= 14,
        ensures
            final(self).wf(),
            ({
                let h = *header;
                let n = h.blocks * h.subbands;
                let left = output.left_len(h.mode) >= n;
                let right = left && output.writes_right(h.mode) && output.right_len() >= n;
                let h0 = old(self).history(0);
                let h1 = old(self).history(1);
                let fl = |k: int| spec_synth_out(h0.1, h0.0, samples[0]@, scale[0] as int, h.subbands as int, k);
                let fr = |k: int| spec_synth_out(h1.1, h1.0, samples[1]@, scale[1] as int, h.subbands as int, k);
                &&& !left ==> r == Err::<(), Error>(
                    Error::OutputBufferTooSmall {
                        expected: n as usize,
                        actual: output.left_len(h.mode) as usize,
                    },
                )
                &&& left && output.writes_right(h.mode) && !right ==> r == Err::<(), Error>(
                    Error::OutputBufferTooSmall { expected: n as usize, actual: output.right_len() as usize },
                )
                &&& left && (right || !output.writes_right(h.mode)) ==> r is Ok
                &&& final(self).history(0) == if left {
                    spec_synth(h0.1, h0.0, samples[0]@, scale[0] as int, h.subbands as int, h.blocks as nat)
                } else {
                    h0
                }
                &&& final(self).history(1) == if right {
                    spec_synth(h1.1, h1.0, samples[1]@, scale[1] as int, h.subbands as int, h.blocks as nat)
                } else {
                    h1
                }
                &&& match output {
                    OutputFormat::Planar(lb, rb) => {
                        &&& final(lb)@ == output.first_after(h.mode, lb@, n, left, right, fl, fr)
                        &&& final(rb)@ == if right {
                            spec_view_write(rb@, 1, 0, n, fr)
                        } else {
                            rb@
                        }
                    },
                    OutputFormat::Auto(b) => final(b)@ == output.first_after(h.mode, b@, n, left, right, fl, fr),
                    OutputFormat::Mono(b) => final(b)@ == output.first_after(h.mode, b@, n, left, right, fl, fr),
                    OutputFormat::Interleaved(b) => final(b)@ == output.first_after(h.mode, b@, n, left, right, fl, fr),
                }
            }),
    {
        let mut output = output;
        output.resolve(header.mode);
        match self.write_left(header, samples, scale, &mut output) {
            Ok(()) => {},
            Err(e) => return Err(e),
        }
        if header.mode != ChannelMode::Mono && !output.is_mono() {
            match self.write_right(header, samples, scale, &mut output) {
                Ok(()) => {},
                Err(e) => return Err(e),
            }
        }
        Ok(())
    }

    /// Forgets the frames decoded so far.
    pub fn reset(&mut self)
        ensures
            final(self).wf(),
            final(self).history(0) == Self::initial_history(),
            final(self).history(1) == Self::initial_history(),
    {
        *self = Self::new();
    }

    /// Decodes the frame at the start of `data` into `output`.
    ///
    /// The frame's header, length, CRC and padding are checked first; a frame that
    /// fails leaves the decoder and the buffers as they were. Then the samples of the
    /// left channel are synthesized, and those of the right channel when the frame has
    /// two and `output` takes both. Each channel's buffer must hold a frame's samples.
    #[verifier::spinoff_prover]
    #[verifier::rlimit(50)]
    pub fn decode(&mut self, data: &[u8], output: OutputFormat<'_>) -> (r: Result<DecodeStatus, Error>)
        requires
            old(self).wf(),
        ensures
            final(self).wf(),
            ({
                let d = data@;
                let c = spec_check_frame(d);
                let h = c->Ok_0;
                let n = h.blocks * h.subbands;
                let left = c is Ok && output.left_len(h.mode) >= n;
                let right = left && output.writes_right(h.mode) && output.right_len() >= n;
                let fl = |k: int| spec_decoded_sample(old(self).history(0), d, h, 0, k);
                let fr = |k: int| spec_decoded_sample(old(self).history(1), d, h, 1, k);
                &&& c is Err ==> r == Err::<DecodeStatus, Error>(c->Err_0)
                &&& c is Ok && !left ==> r == Err::<DecodeStatus, Error>(
                    Error::OutputBufferTooSmall {
                        expected: n as usize,
                        actual: output.left_len(h.mode) as usize,
                    },
                )
                &&& left && output.writes_right(h.mode) && !right ==> r == Err::<DecodeStatus, Error>(
                    Error::OutputBufferTooSmall { expected: n as usize, actual: output.right_len() as usize },
                )
                &&& left && (right || !output.writes_right(h.mode)) ==> {
                    &&& r is Ok
                    &&& r->Ok_0.bytes_read == h.spec_frame_size()
                    &&& r->Ok_0.samples_written == n
                    &&& r->Ok_0.channels == h.spec_channels()
                }
                &&& final(self).history(0) == if left {
                    spec_decoded_history(old(self).history(0), d, h, 0)
                } else {
                    old(self).history(0)
                }
                &&& final(self).history(1) == if right {
                    spec_decoded_history(old(self).history(1), d, h, 1)
                } else {
                    old(self).history(1)
                }
                &&& match output {
                    OutputFormat::Planar(lb, rb) => {
                        &&& final(lb)@ == output.first_after(h.mode, lb@, n, left, right, fl, fr)
                        &&& final(rb)@ == if right {
                            spec_view_write(rb@, 1, 0, n, fr)
                        } else {
                            rb@
                        }
                    },
                    OutputFormat::Auto(b) => final(b)@ == output.first_after(
                        h.mode,
                        b@,
                        n,
                        left,
                        right,
                        fl,
                        fr,
                    ),
                    OutputFormat::Mono(b) => final(b)@ == output.first_after(
                        h.mode,
                        b@,
                        n,
                        left,
                        right,
                        fl,
                        fr,
                    ),
                    OutputFormat::Interleaved(b) => final(b)@ == output.first_after(
                        h.mode,
                        b@,
                        n,
                        left,
                        right,
                        fl,
                        fr,
                    ),
                }
            }),
    {
        let (header, samples, scale) = match read_frame(data) {
            Ok(f) => f,
            Err(e) => return Err(e),
        };
        proof {
            lemma_valid_frame_size(header);
        }
        let frame_size = header.frame_size();

        match self.write_frame(&header, &samples, &scale, output) {
            Ok(()) => {},
            Err(e) => return Err(e),
        }
        let num_samples = header.blocks as usize * header.subbands as usize;
        Ok(DecodeStatus {
            bytes_read: frame_size,
            samples_written: num_samples,
            channels: header.channels(),
        })
    }
}

} // verus!
