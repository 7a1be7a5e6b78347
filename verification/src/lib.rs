use vstd::prelude::*;

pub mod bits;
pub mod decoder;
pub mod raw;

use crate::decoder::header::spec_read_header;
use crate::decoder::{
    spec_check_frame, spec_decoded_history, spec_decoded_sample, spec_max_bitpool, SbcHeader,
};
use crate::raw::{
    sbc_decode, sbc_frame, sbc_get_frame_size, sbc_probe, spec_decoded_frame, spec_header_of,
    spec_raw_check_frame, spec_raw_decode_ok, spec_raw_frame_size, spec_raw_header_fields,
    spec_raw_max_bitpool,
    spec_sync_ok, SBC_MODE_MONO,
};

verus! {

/// Number of bytes of an SBC frame header.
pub const SBC_HEADER_SIZE: usize = 4;

/// Number of bytes needed to probe a frame.
pub const SBC_PROBE_SIZE: usize = SBC_HEADER_SIZE;

/// Most subbands in a frame.
pub const SBC_MAX_SUBBANDS: usize = 8;

/// Most blocks in a frame.
pub const SBC_MAX_BLOCKS: usize = 16;

/// Most samples of one channel in a frame.
pub const SBC_MAX_SAMPLES: usize = SBC_MAX_BLOCKS * SBC_MAX_SUBBANDS;

/// Samples of one channel in an mSBC frame.
pub const SBC_MSBC_SAMPLES: usize = 120;

/// Bytes of an mSBC frame.
pub const SBC_MSBC_SIZE: usize = 57;

/// Whether the bytes `p` start with a whole frame: a header that reads, and at least as
/// many bytes as its frame size.
pub open spec fn spec_frame_whole(p: Seq<u8>) -> bool {
    &&& spec_read_header(p) is Ok
    &&& p.len() >= spec_read_header(p)->Ok_0.spec_frame_size()
}

/// The raw parameters of the frame whose header starts `p`.
pub open spec fn spec_next_params(p: Seq<u8>) -> sbc_frame {
    spec_raw_header_fields(p)
}

/// The header, as the synthesis sees it, of the frame whose header starts `p`.
pub open spec fn spec_next_header(p: Seq<u8>) -> SbcHeader {
    spec_header_of(spec_raw_header_fields(p))
}

/// The parameters that the frame interface of `raw` reads from a header are those of the
/// checked header, without its CRC field, and pass the frame checks of `raw`.
pub proof fn lemma_raw_and_checked_agree(p: Seq<u8>)
    requires
        p.len() >= 4,
        spec_read_header(p) is Ok,
    ensures
        spec_sync_ok(p),
        spec_next_header(p) == (SbcHeader { crc: 0, ..spec_read_header(p)->Ok_0 }),
        spec_next_params(p).nblocks == spec_read_header(p)->Ok_0.blocks,
        spec_next_params(p).nsubbands == spec_read_header(p)->Ok_0.subbands,
        (spec_next_params(p).mode == SBC_MODE_MONO) == (spec_read_header(p)->Ok_0.mode
            == decoder::ChannelMode::Mono),
        spec_raw_check_frame(spec_next_params(p)),
{
    decoder::header::lemma_header_bits(p.take(4));
    let f = spec_next_params(p);
    let h = spec_read_header(p)->Ok_0;
    assert(p.take(4)[1] == p[1]);
    assert(0 <= f.mode < 4);
    assert(spec_max_bitpool(h) == spec_raw_max_bitpool(f));
}

/// Interleaved output: samples of the left channel every `nch` samples from the first,
/// those of the right channel every other sample from the second.
proof fn interleaved_output(
    b: Seq<i16>,
    nch: int,
    n: int,
    fl: spec_fn(int) -> i16,
    fr: spec_fn(int) -> i16,
)
    requires
        nch == 1 || nch == 2,
        n >= 0,
        b.len() == nch * n,
    ensures
        ({
            let w = raw::spec_pcm_write(b, 0, nch, n, fl);
            let out = if nch == 2 {
                raw::spec_pcm_write(w, 1, 2, n, fr)
            } else {
                w
            };
            &&& out.len() == nch * n
            &&& forall|k: int| 0 <= k < n ==> #[trigger] out[nch * k] == fl(k)
            &&& nch == 2 ==> forall|k: int| 0 <= k < n ==> #[trigger] out[2 * k + 1] == fr(k)
        }),
        raw::view_fits(b.len() as int, 0, nch, n),
        nch == 2 ==> raw::view_fits(b.len() as int, 1, 2, n),
{
    let w = raw::spec_pcm_write(b, 0, nch, n, fl);
    let out = if nch == 2 {
        raw::spec_pcm_write(w, 1, 2, n, fr)
    } else {
        w
    };
    assert forall|k: int| 0 <= k < n implies #[trigger] out[nch * k] == fl(k) by {
        assert(nch * k < nch * n) by (nonlinear_arith)
            requires
                0 <= k < n,
                nch >= 1,
        ;
        assert(0 + k * nch == nch * k) by (nonlinear_arith);
        raw::lemma_pcm_write_at(b, 0, nch, n, fl, k);
        if nch == 2 {
            assert((nch * k - 1) % 2 != 0) by {
                vstd::arithmetic::div_mod::lemma_fundamental_div_mod_converse(nch * k - 1, 2, k - 1, 1);
            }
            raw::lemma_pcm_write_other(w, 1, 2, n, fr, nch * k);
        }
    }
    if nch == 2 {
        assert forall|k: int| 0 <= k < n implies #[trigger] raw::spec_pcm_write(w, 1, 2, n, fr)[2
            * k + 1] == fr(k) by {
            assert(1 + k * 2 == 2 * k + 1);
            raw::lemma_pcm_write_at(w, 1, 2, n, fr, k);
        }
    }
    vstd::arithmetic::div_mod::lemma_fundamental_div_mod_converse(0, nch, 0, 0);
    vstd::arithmetic::div_mod::lemma_fundamental_div_mod_converse(1, 2, 0, 1);
}

/// Planar output: the samples of the left channel, then those of the right channel.
proof fn planar_output(b: Seq<i16>, n: int, fl: spec_fn(int) -> i16, fr: spec_fn(int) -> i16)
    requires
        n >= 0,
        b.len() == 2 * n,
    ensures
        ({
            let out = raw::spec_pcm_write(raw::spec_pcm_write(b, 0, 1, n, fl), n, 1, n, fr);
            &&& out.len() == 2 * n
            &&& forall|k: int| 0 <= k < n ==> #[trigger] out[k] == fl(k)
            &&& forall|k: int| 0 <= k < n ==> #[trigger] out[n + k] == fr(k)
        }),
        raw::view_fits(b.len() as int, 0, 1, n),
        raw::view_fits(b.len() as int, n, 1, n),
{
    let w = raw::spec_pcm_write(b, 0, 1, n, fl);
    let out = raw::spec_pcm_write(w, n, 1, n, fr);
    assert forall|k: int| 0 <= k < n implies #[trigger] out[k] == fl(k) by {
        raw::lemma_pcm_write_at(b, 0, 1, n, fl, k);
        raw::lemma_pcm_write_other(w, n, 1, n, fr, k);
    }
    assert forall|k: int| 0 <= k < n implies #[trigger] out[n + k] == fr(k) by {
        raw::lemma_pcm_write_at(w, n, 1, n, fr, k);
    }
    vstd::arithmetic::div_mod::lemma_fundamental_div_mod_converse(0, 1, 0, 0);
    vstd::arithmetic::div_mod::lemma_fundamental_div_mod_converse(n, 1, n, 0);
}

/// A decoder of a stream of SBC frames held in memory.
pub struct Decoder {
    data: Vec<u8>,
    index: usize,
    sbc: raw::sbc,
    buffer: Vec<i16>,
}

impl Decoder {
    /// Whether the position in the stream lies in the data.
    pub closed spec fn wf(&self) -> bool {
        &&& self.index <= self.data@.len()
        &&& self.sbc.wf()
    }

    /// The bytes of the stream not decoded yet.
    pub closed spec fn pending(&self) -> Seq<u8> {
        self.data@.subrange(self.index as int, self.data@.len() as int)
    }

    /// The position and history of the synthesis of channel `c`.
    pub closed spec fn history(&self, c: int) -> (int, Seq<Seq<Seq<i16>>>) {
        self.sbc.history(c)
    }

    /// A decoder of the frames in `data`.
    pub fn new(data: Vec<u8>) -> (r: Self)
        ensures
            r.wf(),
            r.pending() == data@,
            r.history(0) == decoder::Decoder::initial_history(),
            r.history(1) == decoder::Decoder::initial_history(),
    {
        let r = Decoder { data, index: 0, sbc: raw::sbc::new(), buffer: Vec::new() };
        assert(r.pending() =~= r.data@);
        r
    }

    /// Appends `data` to the stream, dropping the bytes decoded so far.
    pub fn refill_buffer(&mut self, data: &[u8])
        requires
            old(self).wf(),
        ensures
            final(self).wf(),
            final(self).pending() == old(self).pending() + data@,
            final(self).history(0) == old(self).history(0),
            final(self).history(1) == old(self).history(1),
    {
        let ghost pending = self.pending();
        let len = self.data.len();
        let remaining = len - self.index;
        let mut i: usize = 0;
        while i < remaining
            invariant
                self.index + remaining == self.data@.len(),
                self.data@.len() == len,
                i <= remaining,
                pending == old(self).pending(),
                pending.len() == remaining,
                forall|j: int| 0 <= j < i ==> #[trigger] self.data@[j] == pending[j],
                forall|j: int|
                    self.index + i <= j < self.data@.len() ==> #[trigger] self.data@[j] == pending[j
                        - self.index],
                self.sbc == old(self).sbc,
            decreases remaining - i,
        {
            let b = self.data[self.index + i];
            self.data.set(i, b);
            i += 1;
        }
        self.data.truncate(remaining);
        self.index = 0;
        self.data.extend_from_slice(data);
        assert(self.pending() =~= pending + data@);
    }

    /// Decodes the next frame of the stream: its samples, interleaved when it has two
    /// channels. `None` when the rest of the stream holds no whole frame.
    #[verifier::rlimit(50)]
    pub fn next_frame(&mut self) -> (r: Option<&[i16]>)
        requires
            old(self).wf(),
            old(self).pending().len() >= SBC_HEADER_SIZE ==> spec_read_header(old(self).pending()) is Ok,
            spec_frame_whole(old(self).pending()) ==> spec_check_frame(old(self).pending()) is Ok
                && spec_raw_decode_ok(old(self).pending()),
        ensures
            final(self).wf(),
            ({
                let p = old(self).pending();
                let f = spec_next_params(p);
                let h = spec_next_header(p);
                let n = h.blocks * h.subbands;
                let nch = h.spec_channels() as int;
                &&& !spec_frame_whole(p) ==> {
                    &&& r is None
                    &&& final(self).pending() == p
                    &&& final(self).history(0) == old(self).history(0)
                    &&& final(self).history(1) == old(self).history(1)
                }
                &&& spec_frame_whole(p) ==> {
                    &&& r is Some
                    &&& final(self).pending() == p.subrange(h.spec_frame_size(), p.len() as int)
                    &&& final(self).history(0) == spec_decoded_history(old(self).history(0), p, h, 0)
                    &&& final(self).history(1) == if nch == 2 {
                        spec_decoded_history(old(self).history(1), p, h, 1)
                    } else {
                        old(self).history(1)
                    }
                    &&& r->0@.len() == nch * n
                    &&& forall|k: int|
                        0 <= k < n ==> #[trigger] r->0@[nch * k] == spec_decoded_sample(
                            old(self).history(0),
                            p,
                            h,
                            0,
                            k,
                        )
                    &&& nch == 2 ==> forall|k: int|
                        0 <= k < n ==> #[trigger] r->0@[2 * k + 1] == spec_decoded_sample(
                            old(self).history(1),
                            p,
                            h,
                            1,
                            k,
                        )
                }
            }),
    {
        let remaining = &self.data.as_slice()[self.index..self.data.len()];
        let ghost p = remaining@;
        if remaining.len() < SbcHeader::SIZE {
            return None;
        }
        let header = match SbcHeader::read(remaining) {
            Ok(h) => h,
            Err(_) => unreached(),
        };
        proof {
            decoder::frame::lemma_valid_frame_size(header);
            lemma_raw_and_checked_agree(p);
        }
        let frame_size = header.frame_size();
        if remaining.len() < frame_size {
            return None;
        }
        let nch = header.channels();
        assert(nch * header.blocks <= 32 && nch * header.blocks * header.subbands <= 256 && nch
            * header.blocks * header.subbands == nch * (header.blocks * header.subbands))
            by (nonlinear_arith)
            requires
                nch <= 2,
                header.blocks <= 16,
                header.subbands <= 8,
        ;
        let nr_of_samples = nch * header.blocks * header.subbands;
        self.buffer.resize(nr_of_samples as usize, 0);
        match decoder::decode(remaining, self.buffer.as_mut_slice()) {
            Ok(()) => {},
            Err(_) => unreached(),
        }
        let mut frame = sbc_frame {
            msbc: false,
            freq: 0,
            mode: 0,
            bam: 0,
            nblocks: 0,
            nsubbands: 0,
            bitpool: 0,
        };
        let ghost pcm0 = self.buffer@;
        let ghost h0 = self.sbc.history(0);
        let ghost h1 = self.sbc.history(1);
        let ghost n = header.blocks * header.subbands;
        let ghost fl = |k: int| spec_decoded_sample(h0, p, spec_next_header(p), 0, k);
        let ghost fr = |k: int| spec_decoded_sample(h1, p, spec_next_header(p), 1, k);
        proof {
            interleaved_output(pcm0, nch as int, n, fl, fr);
        }
        let status = sbc_decode(
            &mut self.sbc,
            Some(remaining),
            &mut frame,
            self.buffer.as_mut_slice(),
            0,
            nch as usize,
            1,
            2,
        );
        if status != 0 {
            unreached()
        }
        self.index += frame_size;
        Some(self.buffer.as_slice())
    }

    /// Decodes the next frame of the stream, which must have two channels: the samples
    /// of the left channel, then those of the right one. `None` when the rest of the
    /// stream holds no whole frame.
    #[verifier::rlimit(50)]
    pub fn next_frame_lr(&mut self) -> (r: Option<[&[i16]; 2]>)
        requires
            old(self).wf(),
            old(self).pending().len() >= SBC_PROBE_SIZE ==> spec_sync_ok(old(self).pending())
                && spec_raw_check_frame(spec_next_params(old(self).pending())),
            old(self).pending().len() >= SBC_PROBE_SIZE && old(self).pending().len()
                >= spec_raw_frame_size(spec_next_params(old(self).pending())) ==> spec_raw_decode_ok(
                old(self).pending(),
            ) && spec_next_params(old(self).pending()).mode != SBC_MODE_MONO,
        ensures
            final(self).wf(),
            ({
                let p = old(self).pending();
                let f = spec_next_params(p);
                let h = spec_next_header(p);
                let n = h.blocks * h.subbands;
                let whole = p.len() >= SBC_PROBE_SIZE && p.len() >= spec_raw_frame_size(f);
                &&& !whole ==> {
                    &&& r is None
                    &&& final(self).pending() == p
                    &&& final(self).history(0) == old(self).history(0)
                    &&& final(self).history(1) == old(self).history(1)
                }
                &&& whole ==> {
                    &&& r is Some
                    &&& final(self).pending() == p.subrange(spec_raw_frame_size(f) as int, p.len() as int)
                    &&& final(self).history(0) == spec_decoded_history(old(self).history(0), p, h, 0)
                    &&& final(self).history(1) == spec_decoded_history(old(self).history(1), p, h, 1)
                    &&& r->0[0]@.len() == n
                    &&& r->0[1]@.len() == n
                    &&& forall|k: int|
                        0 <= k < n ==> #[trigger] r->0[0]@[k] == spec_decoded_sample(
                            old(self).history(0),
                            p,
                            h,
                            0,
                            k,
                        )
                    &&& forall|k: int|
                        0 <= k < n ==> #[trigger] r->0[1]@[k] == spec_decoded_sample(
                            old(self).history(1),
                            p,
                            h,
                            1,
                            k,
                        )
                }
            }),
    {
        let remaining = &self.data.as_slice()[self.index..self.data.len()];
        let ghost p = remaining@;
        if remaining.len() < SBC_PROBE_SIZE {
            return None;
        }
        let mut frame = sbc_frame {
            msbc: false,
            freq: 0,
            mode: 0,
            bam: 0,
            nblocks: 0,
            nsubbands: 0,
            bitpool: 0,
        };
        if sbc_probe(remaining, &mut frame) != 0 {
            unreached()
        }
        assert(p.take(4)[0] == p[0] && p.take(4)[1] == p[1] && p.take(4)[2] == p[2]);
        assert(frame == spec_next_params(p));
        proof {
            raw::lemma_raw_frame_valid(frame);
        }
        let frame_size = sbc_get_frame_size(&frame) as usize;
        if remaining.len() < frame_size {
            return None;
        }
        if frame.mode == SBC_MODE_MONO {
            unreached()
        }
        assert(16 <= frame.nblocks * frame.nsubbands <= 128) by (nonlinear_arith)
            requires
                4 <= frame.nblocks <= 16,
                4 <= frame.nsubbands <= 8,
        ;
        let nr_of_samples = (frame.nblocks * frame.nsubbands) as usize;
        self.buffer.resize(2 * nr_of_samples, 0);
        let ghost pcm0 = self.buffer@;
        let ghost h0 = self.sbc.history(0);
        let ghost h1 = self.sbc.history(1);
        let ghost n = nr_of_samples as int;
        let ghost fl = |k: int| spec_decoded_sample(h0, p, spec_next_header(p), 0, k);
        let ghost fr = |k: int| spec_decoded_sample(h1, p, spec_next_header(p), 1, k);
        proof {
            planar_output(pcm0, n, fl, fr);
        }
        let status = sbc_decode(
            &mut self.sbc,
            Some(remaining),
            &mut frame,
            self.buffer.as_mut_slice(),
            0,
            1,
            nr_of_samples,
            1,
        );
        if status != 0 {
            unreached()
        }
        self.index += frame_size;
        let all = self.buffer.as_slice();
        let left = &all[0..nr_of_samples];
        let right = &all[nr_of_samples..2 * nr_of_samples];
        proof {
            assert forall|k: int| 0 <= k < n implies #[trigger] left@[k] == fl(k) by {}
            assert forall|k: int| 0 <= k < n implies #[trigger] right@[k] == fr(k) by {}
        }
        Some([left, right])
    }
}

} // verus!
