//! Per-port open-IP bitmap: a sparse map from 8-bit segment id to one /8
//! worth of bits, with a stable wire codec.
//!
//! Bit `i` of segment `s` stands for the IPv4 index `(s << 24) | i`. Only
//! segments that were touched are materialized. The wire form is a count
//! prefix (32-bit little endian) followed by the records `(segment_id: u8,
//! bytes)` in increasing segment order, each record carrying exactly
//! `SEGMENT_SIZE` bytes.

use vstd::prelude::*;
use vstd::pervasive::VecAdditionalExecFns;
use crate::error::ScanError;

verus! {

/// Bytes per segment: 2^21 bytes = 2^24 bits, one /8 block.
pub const SEGMENT_SIZE: usize = 2097152;

/// Bit `k` of byte `b`.
pub open spec fn byte_bit(b: u8, k: u8) -> bool {
    (b >> k) & 1 == 1
}

/// Number of set bits in one byte.
pub open spec fn popcount_byte(b: u8) -> int {
    ((b >> 0) & 1) + ((b >> 1) & 1) + ((b >> 2) & 1) + ((b >> 3) & 1) + ((b >> 4) & 1) + ((b >> 5)
        & 1) + ((b >> 6) & 1) + ((b >> 7) & 1)
}

/// Number of set bits in a byte string.
pub open spec fn popcount_seq(s: Seq<u8>) -> int
    decreases s.len(),
{
    if s.len() == 0 {
        0
    } else {
        popcount_seq(s.drop_last()) + popcount_byte(s.last())
    }
}

/// Number of set bits over a list of segments.
pub open spec fn popcount_segs(segs: Seq<(u32, Seq<u8>)>) -> int
    decreases segs.len(),
{
    if segs.len() == 0 {
        0
    } else {
        popcount_segs(segs.drop_last()) + popcount_seq(segs.last().1)
    }
}

/// The segment list is sorted strictly by id, ids fit in one byte, and
/// every segment holds exactly `SEGMENT_SIZE` bytes.
pub open spec fn wf_segs(segs: Seq<(u32, Seq<u8>)>) -> bool {
    &&& forall|i: int|
        0 <= i < segs.len() ==> (#[trigger] segs[i]).0 < 256 && segs[i].1.len() == SEGMENT_SIZE
    &&& forall|i: int, j: int| 0 <= i < j < segs.len() ==> segs[i].0 < segs[j].0
}

/// The bit a segment list stores for an IPv4 index: set iff the segment is
/// present and holds the bit.
pub open spec fn seg_bit(segs: Seq<(u32, Seq<u8>)>, ip_index: u32) -> bool {
    let sid = ip_index >> 24;
    let off = ip_index & 0xFFFFFF;
    if exists|i: int| 0 <= i < segs.len() && (#[trigger] segs[i]).0 == sid {
        let i = choose|i: int| 0 <= i < segs.len() && (#[trigger] segs[i]).0 == sid;
        byte_bit(segs[i].1[off as int / 8], (off % 8) as u8)
    } else {
        false
    }
}

/// Little-endian bytes of a 32-bit count.
pub open spec fn le32(n: u32) -> Seq<u8> {
    seq![
        (n & 0xFF) as u8,
        ((n >> 8) & 0xFF) as u8,
        ((n >> 16) & 0xFF) as u8,
        ((n >> 24) & 0xFF) as u8,
    ]
}

/// Wire form of the records, in order: one id byte, then the segment bytes.
pub open spec fn records_bytes(segs: Seq<(u32, Seq<u8>)>) -> Seq<u8>
    decreases segs.len(),
{
    if segs.len() == 0 {
        Seq::empty()
    } else {
        records_bytes(segs.drop_last()) + seq![segs.last().0 as u8] + segs.last().1
    }
}

/// Wire form of a whole bitmap: count prefix, then the records.
pub open spec fn spec_serialize(segs: Seq<(u32, Seq<u8>)>) -> Seq<u8> {
    le32(segs.len() as u32) + records_bytes(segs)
}

/// A sparse per-port bitmap over the IPv4 space.
pub struct PortBitmap {
    pub segments: Vec<(u32, Vec<u8>)>,
}

impl PortBitmap {
    /// The segment list as mathematical sequences.
    pub open spec fn segs(self) -> Seq<(u32, Seq<u8>)> {
        self.segments@.map_values(|p: (u32, Vec<u8>)| (p.0, p.1@))
    }

    /// Structural invariant of the segment list.
    pub open spec fn wf(self) -> bool {
        wf_segs(self.segs())
    }

    /// The bit stored for an IPv4 index.
    pub open spec fn spec_bit(self, ip_index: u32) -> bool {
        seg_bit(self.segs(), ip_index)
    }

    /// Total number of set bits.
    pub open spec fn spec_count(self) -> int {
        popcount_segs(self.segs())
    }

    pub fn new() -> (r: PortBitmap)
        ensures
            r.wf(),
            forall|i: u32| !r.spec_bit(i),
            r.segs().len() == 0,
    {
        let r = PortBitmap { segments: Vec::new() };
        proof {
            assert(r.segs() =~= Seq::<(u32, Seq<u8>)>::empty());
        }
        r
    }

    /// Index of the segment holding `sid`, if present.
    fn find_segment(&self, sid: u32) -> (r: Option<usize>)
        ensures
            match r {
                Some(i) => i < self.segs().len() && self.segs()[i as int].0 == sid,
                None => forall|i: int|
                    0 <= i < self.segs().len() ==> (#[trigger] self.segs()[i]).0 != sid,
            },
    {
        let n = self.segments.len();
        let mut i: usize = 0;
        while i < n
            invariant
                i <= n == self.segments.len(),
                forall|k: int| 0 <= k < i ==> (#[trigger] self.segs()[k]).0 != sid,
            decreases n - i,
        {
            if self.segments[i].0 == sid {
                return Some(i);
            }
            i = i + 1;
        }
        None
    }

    /// Position at which a missing segment id must be inserted to keep the
    /// list sorted.
    fn find_insert_pos(&self, sid: u32) -> (r: usize)
        requires
            self.wf(),
            forall|i: int| 0 <= i < self.segs().len() ==> (#[trigger] self.segs()[i]).0 != sid,
        ensures
            r <= self.segs().len(),
            forall|k: int| 0 <= k < r ==> (#[trigger] self.segs()[k]).0 < sid,
            forall|k: int| r <= k < self.segs().len() ==> (#[trigger] self.segs()[k]).0 > sid,
    {
        let n = self.segments.len();
        let mut i: usize = 0;
        while i < n
            invariant
                i <= n == self.segments.len(),
                forall|k: int| 0 <= k < i ==> (#[trigger] self.segs()[k]).0 < sid,
                self.wf(),
                forall|k: int| 0 <= k < self.segs().len() ==> (#[trigger] self.segs()[k]).0 != sid,
            decreases n - i,
        {
            if self.segments[i].0 > sid {
                proof {
                    assert forall|k: int|
                        i <= k < self.segs().len() implies (#[trigger] self.segs()[k]).0 > sid by {
                        if k > i {
                            assert(self.segs()[i as int].0 < self.segs()[k].0);
                        }
                    }
                }
                return i;
            }
            i = i + 1;
        }
        n
    }

    /// Set or clear the bit of one IPv4 index. Clearing a bit whose segment
    /// was never touched changes nothing and allocates nothing.
    pub fn set(&mut self, ip_index: u32, value: bool)
        requires
            old(self).wf(),
        ensures
            final(self).wf(),
            final(self).spec_bit(ip_index) == value,
            forall|j: u32| j != ip_index ==> final(self).spec_bit(j) == old(self).spec_bit(j),
    {
        let sid = ip_index >> 24;
        let off = ip_index & 0xFFFFFF;
        proof {
            lemma_off_bounds(ip_index);
        }
        let byte_index = (off / 8) as usize;
        let bit_index = (off % 8) as u8;
        let pos = match self.find_segment(sid) {
            Some(i) => i,
            None => {
                if !value {
                    return ;
                }
                let i = self.find_insert_pos(sid);
                let seg = vec![0u8; SEGMENT_SIZE];
                let ghost olds = self.segs();
                self.segments.insert(i, (sid, seg));
                proof {
                    let news = self.segs();
                    assert(news =~= olds.insert(i as int, (sid, seg@)));
                    lemma_insert_fresh_segment(olds, i as int, sid, seg@);
                }
                i
            },
        };
        let ghost mids = self.segs();
        let old_byte = self.segments[pos].1[byte_index];
        let new_byte = if value {
            old_byte | (1u8 << bit_index)
        } else {
            old_byte & !(1u8 << bit_index)
        };
        let elem = &mut self.segments[pos];
        elem.1.set(byte_index, new_byte);
        proof {
            lemma_set_bit_byte(old_byte, bit_index);
            let news = self.segs();
            assert(news =~= mids.update(
                pos as int,
                (mids[pos as int].0, mids[pos as int].1.update(byte_index as int, new_byte)),
            ));
            lemma_update_byte_effect(mids, news, pos as int, new_byte, old_byte, ip_index, value);
        }
    }

    /// Read the bit of one IPv4 index.
    pub fn get(&self, ip_index: u32) -> (r: bool)
        requires
            self.wf(),
        ensures
            r == self.spec_bit(ip_index),
    {
        let sid = ip_index >> 24;
        let off = ip_index & 0xFFFFFF;
        proof {
            lemma_off_bounds(ip_index);
        }
        let byte_index = (off / 8) as usize;
        let bit_index = (off % 8) as u8;
        match self.find_segment(sid) {
            Some(i) => {
                let b = self.segments[i].1[byte_index];
                let r = (b >> bit_index) & 1 == 1;
                proof {
                    let segs = self.segs();
                    let k = choose|k: int| 0 <= k < segs.len() && (#[trigger] segs[k]).0 == sid;
                    assert(k == i) by {
                        if k < i || i < k {
                            assert(false);
                        }
                    }
                }
                r
            },
            None => {
                false
            },
        }
    }
}

impl PortBitmap {
    /// Count the set bits, as the writer does before caching `open_count`.
    pub fn count_ones(&self) -> (r: u64)
        requires
            self.wf(),
        ensures
            r == self.spec_count(),
    {
        proof {
            lemma_segs_len_bound(self.segs());
        }
        let n = self.segments.len();
        let mut total: u64 = 0;
        let mut k: usize = 0;
        while k < n
            invariant
                k <= n == self.segments.len(),
                self.wf(),
                n <= 256,
                total == popcount_segs(self.segs().take(k as int)),
                total <= k * 16777216,
            decreases n - k,
        {
            let seg = &self.segments[k].1;
            let m = seg.len();
            proof {
                assert(self.segs()[k as int] == (self.segments@[k as int].0, self.segments@[
                    k as int].1@));
                assert(self.segs()[k as int].1.len() == SEGMENT_SIZE);
            }
            assert(m == SEGMENT_SIZE);
            let mut sub: u64 = 0;
            let mut j: usize = 0;
            while j < m
                invariant
                    j <= m == seg@.len(),
                    m == SEGMENT_SIZE,
                    sub == popcount_seq(seg@.take(j as int)),
                    sub <= j * 8,
                decreases m - j,
            {
                let b = seg[j];
                let c = byte_count(b);
                proof {
                    lemma_popcount_byte_bound(b);
                    assert(seg@.take(j as int + 1).drop_last() =~= seg@.take(j as int));
                    assert(seg@.take(j as int + 1).last() == seg@[j as int]);
                }
                sub = sub + (c as u64);
                j = j + 1;
            }
            proof {
                assert(seg@.take(m as int) =~= seg@);
                assert(self.segs().take(k as int + 1).drop_last() =~= self.segs().take(k as int));
                assert(self.segs().take(k as int + 1).last() == self.segs()[k as int]);
                assert(self.segs()[k as int].1 == seg@);
            }
            total = total + sub;
            k = k + 1;
        }
        proof {
            assert(self.segs().take(n as int) =~= self.segs());
        }
        total
    }

    /// Serialize to the stable wire form: count prefix, then the records in
    /// segment order.
    pub fn to_blob(&self) -> (r: Vec<u8>)
        requires
            self.wf(),
        ensures
            r@ == spec_serialize(self.segs()),
    {
        proof {
            lemma_segs_len_bound(self.segs());
        }
        let n32 = self.segments.len() as u32;
        let mut out: Vec<u8> = Vec::new();
        out.push((n32 & 0xFF) as u8);
        out.push(((n32 >> 8) & 0xFF) as u8);
        out.push(((n32 >> 16) & 0xFF) as u8);
        out.push(((n32 >> 24) & 0xFF) as u8);
        assert(out@ =~= le32(n32));
        let n = self.segments.len();
        let mut k: usize = 0;
        while k < n
            invariant
                k <= n == self.segments.len(),
                self.wf(),
                n32 == n as u32,
                n <= 256,
                out@ == le32(n32) + records_bytes(self.segs().take(k as int)),
            decreases n - k,
        {
            let ghost before = out@;
            out.push(self.segments[k].0 as u8);
            out.extend_from_slice(self.segments[k].1.as_slice());
            proof {
                let segk = self.segs()[k as int];
                assert(out@ =~= before + seq![segk.0 as u8] + segk.1) by {
                    assert(forall|i: int|
                        0 <= i < segk.1.len() ==> cloned::<u8>(segk.1[i], #[trigger] out@[
                        before.len() + 1 + i]));
                }
                assert(self.segs().take(k as int + 1).drop_last() =~= self.segs().take(k as int));
                assert(self.segs().take(k as int + 1).last() == segk);
            }
            k = k + 1;
        }
        proof {
            assert(self.segs().take(n as int) =~= self.segs());
        }
        out
    }

    /// Parse the wire form back into a bitmap. Returns an error exactly when
    /// no well-formed bitmap serializes to these bytes.
    pub fn from_blob(data: &[u8]) -> (r: Result<PortBitmap, ScanError>)
        ensures
            match r {
                Ok(b) => b.wf() && data@ == spec_serialize(b.segs()),
                Err(_) => forall|segs: Seq<(u32, Seq<u8>)>|
                    wf_segs(segs) ==> spec_serialize(segs) != data@,
            },
    {
        let len = data.len();
        if len < 4 {
            proof {
                assert forall|segs: Seq<(u32, Seq<u8>)>|
                    wf_segs(segs) implies spec_serialize(segs) != data@ by {
                    lemma_serialize_layout(segs);
                    assert(segs.len() * (1 + SEGMENT_SIZE as int) >= 0) by (nonlinear_arith);
                }
            }
            return Err(ScanError::Parse(String::from_str("bitmap blob too short")));
        }
        let c: u32 = (data[0] as u32) | ((data[1] as u32) << 8) | ((data[2] as u32) << 16) | ((
        data[3] as u32) << 24);
        proof {
            lemma_le32_bytes(c, data@[0], data@[1], data@[2], data@[3]);
        }
        if c > 256 {
            proof {
                assert forall|segs: Seq<(u32, Seq<u8>)>|
                    wf_segs(segs) implies spec_serialize(segs) != data@ by {
                    if spec_serialize(segs) == data@ {
                        lemma_serialize_layout(segs);
                        lemma_segs_len_bound(segs);
                        lemma_le32_injective(
                            c,
                            segs.len() as u32,
                            data@[0],
                            data@[1],
                            data@[2],
                            data@[3],
                        );
                    }
                }
            }
            return Err(ScanError::Parse(String::from_str("bitmap blob has too many segments")));
        }
        let record: u64 = 1 + SEGMENT_SIZE as u64;
        if (len as u64) - 4 != (c as u64) * record {
            proof {
                assert forall|segs: Seq<(u32, Seq<u8>)>|
                    wf_segs(segs) implies spec_serialize(segs) != data@ by {
                    if spec_serialize(segs) == data@ {
                        lemma_serialize_layout(segs);
                        lemma_segs_len_bound(segs);
                        lemma_le32_injective(
                            c,
                            segs.len() as u32,
                            data@[0],
                            data@[1],
                            data@[2],
                            data@[3],
                        );
                        assert(segs.len() == c);
                    }
                }
            }
            return Err(ScanError::Parse(String::from_str("bitmap blob length mismatch")));
        }
        let mut segments: Vec<(u32, Vec<u8>)> = Vec::new();
        let mut k: usize = 0;
        while k < c as usize
            invariant
                k <= c <= 256,
                4 <= data@.len(),
                data@.len() == 4 + (c as int) * (1 + SEGMENT_SIZE as int),
                data@[0] == (c & 0xFF) as u8,
                data@[1] == ((c >> 8) & 0xFF) as u8,
                data@[2] == ((c >> 16) & 0xFF) as u8,
                data@[3] == ((c >> 24) & 0xFF) as u8,
                segments@.len() == k,
                wf_segs(segments@.map_values(|p: (u32, Vec<u8>)| (p.0, p.1@))),
                forall|i: int|
                    0 <= i < k ==> (#[trigger] segments@[i]).0 as u8 == data@[4 + i * (1
                        + SEGMENT_SIZE as int)],
                forall|i: int|
                    0 <= i < k ==> (#[trigger] segments@[i]).1@ == data@.subrange(
                        4 + i * (1 + SEGMENT_SIZE as int) + 1,
                        4 + (i + 1) * (1 + SEGMENT_SIZE as int),
                    ),
            decreases c - k,
        {
            assert(k < 256);
            proof {
                assert(data@.len() >= 4 + (k as int + 1) * (1 + SEGMENT_SIZE as int))
                    by (nonlinear_arith)
                    requires
                        data@.len() == 4 + (c as int) * (1 + SEGMENT_SIZE as int),
                        0 <= k < c,
                ;
                assert((k as int + 1) * (1 + SEGMENT_SIZE as int) == (k as int) * (1
                    + SEGMENT_SIZE as int) + (1 + SEGMENT_SIZE as int)) by (nonlinear_arith);
                assert((k as int) * (1 + SEGMENT_SIZE as int) == k * 2097153) by (nonlinear_arith);
                assert(0 <= k * 2097153 <= 256 * 2097153) by (nonlinear_arith)
                    requires
                        0 <= k <= 256,
                ;
            }
            let off: usize = 4 + k * (1 + SEGMENT_SIZE);
            proof {
                assert(off as int == 4 + (k as int) * (1 + SEGMENT_SIZE as int));
                assert(off as int + 1 + SEGMENT_SIZE as int <= data@.len());
            }
            let id = data[off];
            if k > 0 {
                let prev = segments[k - 1].0;
                if prev >= id as u32 {
                    proof {
                        assert forall|segs: Seq<(u32, Seq<u8>)>|
                            wf_segs(segs) implies spec_serialize(segs) != data@ by {
                            if spec_serialize(segs) == data@ {
                                lemma_serialize_layout(segs);
                                lemma_segs_len_bound(segs);
                                lemma_le32_injective(
                                    c,
                                    segs.len() as u32,
                                    data@[0],
                                    data@[1],
                                    data@[2],
                                    data@[3],
                                );
                                assert(segs.len() == c);
                                assert(segs[k - 1].0 as u8 == data@[4 + (k - 1) * (1
                                    + SEGMENT_SIZE as int)]);
                                assert(segments@[k - 1].0 as u8 == data@[4 + (k - 1) * (1
                                    + SEGMENT_SIZE as int)]);
                                assert(segs[k as int].0 as u8 == data@[off as int]);
                                assert(segs[k - 1].0 < segs[k as int].0);
                                assert(segs[k - 1].0 < 256 && segs[k as int].0 < 256);
                                let parsed = segments@.map_values(
                                    |p: (u32, Vec<u8>)| (p.0, p.1@),
                                );
                                assert(parsed[k - 1].0 == segments@[k - 1].0);
                                assert(parsed[k - 1].0 < 256);
                                assert(segs[k - 1].0 == prev);
                                assert(segs[k as int].0 == id as u32);
                            }
                        }
                    }
                    return Err(ScanError::Parse(
                        String::from_str("bitmap blob segments out of order"),
                    ));
                }
            }
            let bytes = slice_to_vec_u8(
                vstd::slice::slice_subrange(data, off + 1, off + 1 + SEGMENT_SIZE),
            );
            let ghost olds = segments@.map_values(|p: (u32, Vec<u8>)| (p.0, p.1@));
            segments.push((id as u32, bytes));
            proof {
                let news = segments@.map_values(|p: (u32, Vec<u8>)| (p.0, p.1@));
                assert(news =~= olds.push((id as u32, bytes@)));
                assert forall|i: int|
                    0 <= i < news.len() implies (#[trigger] news[i]).0 < 256 && news[i].1.len()
                    == SEGMENT_SIZE by {
                    if i < olds.len() {
                        assert(news[i] == olds[i]);
                    }
                }
                assert forall|i: int, j: int|
                    0 <= i < j < news.len() implies news[i].0 < news[j].0 by {
                    if j < olds.len() {
                        assert(news[i] == olds[i] && news[j] == olds[j]);
                    } else {
                        if i < olds.len() - 1 {
                            assert(olds[i].0 < olds[olds.len() - 1].0);
                        }
                    }
                }
            }
            k = k + 1;
        }
        let r = PortBitmap { segments };
        proof {
            // The parsed layout serializes back to exactly these bytes.
            lemma_serialize_layout(r.segs());
            assert(r.segs().len() == c);
            assert(spec_serialize(r.segs()) =~= data@) by {
                assert(spec_serialize(r.segs()).len() == data@.len());
                assert forall|i: int|
                    0 <= i < data@.len() implies spec_serialize(r.segs())[i] == data@[i] by {
                    lemma_layout_pointwise(r.segs(), data@, i);
                }
            }
        }
        Ok(r)
    }
}

/// Copy a byte slice into a fresh vector.
fn slice_to_vec_u8(s: &[u8]) -> (r: Vec<u8>)
    ensures
        r@ == s@,
{
    let mut r: Vec<u8> = Vec::new();
    let n = s.len();
    let mut i: usize = 0;
    while i < n
        invariant
            i <= n == s@.len(),
            r@ == s@.take(i as int),
        decreases n - i,
    {
        r.push(s[i]);
        proof {
            assert(s@.take(i as int + 1) =~= s@.take(i as int).push(s@[i as int]));
        }
        i = i + 1;
    }
    proof {
        assert(s@.take(n as int) =~= s@);
    }
    r
}

/// Count the set bits of one byte.
fn byte_count(b: u8) -> (r: u8)
    ensures
        r as int == popcount_byte(b),
        r <= 8,
{
    proof {
        assert((b >> 0) & 1 <= 1 && (b >> 1) & 1 <= 1 && (b >> 2) & 1 <= 1 && (b >> 3) & 1 <= 1
            && (b >> 4) & 1 <= 1 && (b >> 5) & 1 <= 1 && (b >> 6) & 1 <= 1 && (b >> 7) & 1 <= 1)
            by (bit_vector);
    }
    let r = ((b >> 0) & 1) + ((b >> 1) & 1) + ((b >> 2) & 1) + ((b >> 3) & 1) + ((b >> 4) & 1) + ((
    b >> 5) & 1) + ((b >> 6) & 1) + ((b >> 7) & 1);
    r
}

/// Each bit term is zero or one, so a byte holds at most eight set bits.
proof fn lemma_popcount_byte_bound(b: u8)
    ensures
        0 <= popcount_byte(b) <= 8,
        ((b >> 0) & 1) + ((b >> 1) & 1) + ((b >> 2) & 1) + ((b >> 3) & 1) + ((b >> 4) & 1) + ((b
            >> 5) & 1) + ((b >> 6) & 1) + ((b >> 7) & 1) <= 8,
{
    assert((b >> 0) & 1 <= 1 && (b >> 1) & 1 <= 1 && (b >> 2) & 1 <= 1 && (b >> 3) & 1 <= 1 && (b
        >> 4) & 1 <= 1 && (b >> 5) & 1 <= 1 && (b >> 6) & 1 <= 1 && (b >> 7) & 1 <= 1)
        by (bit_vector);
}

/// Strictly increasing ids below 256 bound the segment count by 256.
pub proof fn lemma_segment_count_bound(segs: Seq<(u32, Seq<u8>)>)
    requires
        wf_segs(segs),
    ensures
        segs.len() <= 256,
{
    lemma_segs_len_bound(segs);
}

/// Strictly increasing ids below 256 bound the segment count by 256.
proof fn lemma_segs_len_bound(segs: Seq<(u32, Seq<u8>)>)
    requires
        wf_segs(segs),
    ensures
        segs.len() <= 256,
{
    if segs.len() > 256 {
        lemma_sorted_lower(segs, segs.len() as int - 1);
        assert(segs[segs.len() - 1].0 < 256);
    }
}

/// In a strictly sorted segment list the id at position `i` is at least `i`.
proof fn lemma_sorted_lower(segs: Seq<(u32, Seq<u8>)>, i: int)
    requires
        wf_segs(segs),
        0 <= i < segs.len(),
    ensures
        segs[i].0 >= i,
    decreases i,
{
    if i > 0 {
        lemma_sorted_lower(segs, i - 1);
        assert(segs[i - 1].0 < segs[i].0);
    }
}

/// Four little-endian bytes determine the 32-bit count.
proof fn lemma_le32_injective(c1: u32, c2: u32, b0: u8, b1: u8, b2: u8, b3: u8)
    by (bit_vector)
    requires
        b0 == (c1 & 0xFF) as u8,
        b1 == ((c1 >> 8) & 0xFF) as u8,
        b2 == ((c1 >> 16) & 0xFF) as u8,
        b3 == ((c1 >> 24) & 0xFF) as u8,
        b0 == (c2 & 0xFF) as u8,
        b1 == ((c2 >> 8) & 0xFF) as u8,
        b2 == ((c2 >> 16) & 0xFF) as u8,
        b3 == ((c2 >> 24) & 0xFF) as u8,
    ensures
        c1 == c2,
{
}

/// Reassembling the four little-endian bytes of a count gives it back.
proof fn lemma_le32_bytes(c: u32, b0: u8, b1: u8, b2: u8, b3: u8)
    by (bit_vector)
    requires
        c == (b0 as u32) | ((b1 as u32) << 8) | ((b2 as u32) << 16) | ((b3 as u32) << 24),
    ensures
        b0 == (c & 0xFF) as u8,
        b1 == ((c >> 8) & 0xFF) as u8,
        b2 == ((c >> 16) & 0xFF) as u8,
        b3 == ((c >> 24) & 0xFF) as u8,
{
}

/// Byte layout of the wire form: record `k` begins at `4 + k *
/// (SEGMENT_SIZE + 1)` with its id byte, followed by its segment bytes.
pub proof fn lemma_serialize_layout(segs: Seq<(u32, Seq<u8>)>)
    requires
        forall|i: int| 0 <= i < segs.len() ==> (#[trigger] segs[i]).1.len() == SEGMENT_SIZE,
    ensures
        spec_serialize(segs).len() == 4 + segs.len() * (1 + SEGMENT_SIZE as int),
        spec_serialize(segs)[0] == (segs.len() as u32 & 0xFF) as u8,
        spec_serialize(segs)[1] == ((segs.len() as u32 >> 8) & 0xFF) as u8,
        spec_serialize(segs)[2] == ((segs.len() as u32 >> 16) & 0xFF) as u8,
        spec_serialize(segs)[3] == ((segs.len() as u32 >> 24) & 0xFF) as u8,
        forall|k: int|
            0 <= k < segs.len() ==> spec_serialize(segs)[4 + k * (1 + SEGMENT_SIZE as int)] == (
            #[trigger] segs[k]).0 as u8,
        forall|k: int|
            0 <= k < segs.len() ==> spec_serialize(segs).subrange(
                4 + k * (1 + SEGMENT_SIZE as int) + 1,
                4 + (k + 1) * (1 + SEGMENT_SIZE as int),
            ) == (#[trigger] segs[k]).1,
{
    lemma_records_layout(segs);
    let s = spec_serialize(segs);
    let rec = records_bytes(segs);
    assert(s.len() == 4 + rec.len());
    assert forall|k: int|
        0 <= k < segs.len() implies s[4 + k * (1 + SEGMENT_SIZE as int)] == (
    #[trigger] segs[k]).0 as u8 by {
        assert(rec[k * (1 + SEGMENT_SIZE as int)] == segs[k].0 as u8);
        assert(s[4 + k * (1 + SEGMENT_SIZE as int)] == rec[k * (1 + SEGMENT_SIZE as int)]);
    }
    assert forall|k: int|
        0 <= k < segs.len() implies s.subrange(
        4 + k * (1 + SEGMENT_SIZE as int) + 1,
        4 + (k + 1) * (1 + SEGMENT_SIZE as int),
    ) == (#[trigger] segs[k]).1 by {
        assert(rec.subrange(k * (1 + SEGMENT_SIZE as int) + 1, (k + 1) * (1 + SEGMENT_SIZE as int))
            == segs[k].1);
        assert(s.subrange(4 + k * (1 + SEGMENT_SIZE as int) + 1, 4 + (k + 1) * (1
            + SEGMENT_SIZE as int)) =~= rec.subrange(
            k * (1 + SEGMENT_SIZE as int) + 1,
            (k + 1) * (1 + SEGMENT_SIZE as int),
        ));
    }
}

/// Record layout of `records_bytes`, by induction from the last record.
proof fn lemma_records_layout(segs: Seq<(u32, Seq<u8>)>)
    requires
        forall|i: int| 0 <= i < segs.len() ==> (#[trigger] segs[i]).1.len() == SEGMENT_SIZE,
    ensures
        records_bytes(segs).len() == segs.len() * (1 + SEGMENT_SIZE as int),
        forall|k: int|
            0 <= k < segs.len() ==> records_bytes(segs)[k * (1 + SEGMENT_SIZE as int)] == (
            #[trigger] segs[k]).0 as u8,
        forall|k: int|
            0 <= k < segs.len() ==> records_bytes(segs).subrange(
                k * (1 + SEGMENT_SIZE as int) + 1,
                (k + 1) * (1 + SEGMENT_SIZE as int),
            ) == (#[trigger] segs[k]).1,
    decreases segs.len(),
{
    let w = 1 + SEGMENT_SIZE as int;
    if segs.len() == 0 {
    } else {
        let pre = segs.drop_last();
        assert(forall|i: int| 0 <= i < pre.len() ==> (#[trigger] pre[i]).1.len() == SEGMENT_SIZE);
        lemma_records_layout(pre);
        let rec = records_bytes(segs);
        let prec = records_bytes(pre);
        let last = segs.last();
        assert(rec == prec + seq![last.0 as u8] + last.1);
        assert(rec.len() == prec.len() + 1 + SEGMENT_SIZE);
        let m = segs.len() as int - 1;
        assert forall|k: int| 0 <= k < segs.len() implies rec[k * w] == (#[trigger] segs[k]).0
            as u8 by {
            if k < m {
                assert(k * w < m * w) by (nonlinear_arith)
                    requires
                        0 <= k < m,
                        w > 0,
                ;
                assert((k + 1) * w <= m * w) by (nonlinear_arith)
                    requires
                        0 <= k < m,
                        w > 0,
                ;
                assert((k + 1) * w == k * w + w) by (nonlinear_arith);
                assert(rec[k * w] == prec[k * w]);
                assert(segs[k] == pre[k]);
            } else {
                assert(rec[m * w] == last.0 as u8);
            }
        }
        assert forall|k: int|
            0 <= k < segs.len() implies rec.subrange(k * w + 1, (k + 1) * w) == (
        #[trigger] segs[k]).1 by {
            if k < m {
                assert((k + 1) * w <= m * w) by (nonlinear_arith)
                    requires
                        0 <= k < m,
                        w > 0,
                ;
                assert(k * w >= 0) by (nonlinear_arith)
                    requires
                        0 <= k,
                        w > 0,
                ;
                assert((k + 1) * w == k * w + w) by (nonlinear_arith);
                assert(prec.len() == m * w);
                assert forall|t: int| 0 <= t < w - 1 implies #[trigger] rec[k * w + 1 + t]
                    == prec[k * w + 1 + t] by {
                    assert(k * w + 1 + t < prec.len());
                }
                assert(rec.subrange(k * w + 1, (k + 1) * w) =~= prec.subrange(k * w + 1, (k + 1)
                    * w));
                assert(segs[k] == pre[k]);
            } else {
                assert((m + 1) * w == m * w + w) by (nonlinear_arith);
                assert forall|t: int| 0 <= t < w - 1 implies #[trigger] rec[m * w + 1 + t]
                    == last.1[t] by {
                    assert(prec.len() == m * w);
                }
                assert(rec.subrange(m * w + 1, (m + 1) * w) =~= last.1);
            }
        }
        assert((m + 1) * w == m * w + w) by (nonlinear_arith);
        assert(rec.len() == prec.len() + 1 + SEGMENT_SIZE);
        assert(prec.len() == m * w);
        assert(rec.len() == segs.len() * w);
    }
}

/// Each byte of the wire form of a parsed layout agrees with the source
/// bytes it was parsed from.
proof fn lemma_layout_pointwise(segs: Seq<(u32, Seq<u8>)>, data: Seq<u8>, i: int)
    requires
        forall|j: int| 0 <= j < segs.len() ==> (#[trigger] segs[j]).1.len() == SEGMENT_SIZE,
        data.len() == 4 + segs.len() * (1 + SEGMENT_SIZE as int),
        0 <= i < data.len(),
        data[0] == (segs.len() as u32 & 0xFF) as u8,
        data[1] == ((segs.len() as u32 >> 8) & 0xFF) as u8,
        data[2] == ((segs.len() as u32 >> 16) & 0xFF) as u8,
        data[3] == ((segs.len() as u32 >> 24) & 0xFF) as u8,
        forall|k: int|
            0 <= k < segs.len() ==> (#[trigger] segs[k]).0 as u8 == data[4 + k * (1
                + SEGMENT_SIZE as int)],
        forall|k: int|
            0 <= k < segs.len() ==> (#[trigger] segs[k]).1 == data.subrange(
                4 + k * (1 + SEGMENT_SIZE as int) + 1,
                4 + (k + 1) * (1 + SEGMENT_SIZE as int),
            ),
    ensures
        spec_serialize(segs)[i] == data[i],
{
    lemma_serialize_layout(segs);
    let w = 1 + SEGMENT_SIZE as int;
    if i < 4 {
    } else {
        let k = (i - 4) / w;
        assert(0 <= k < segs.len() && 4 + k * w <= i < 4 + (k + 1) * w) by (nonlinear_arith)
            requires
                4 <= i < 4 + segs.len() * w,
                w == 1 + SEGMENT_SIZE as int,
                k == (i - 4) / w,
        ;
        if i == 4 + k * w {
            assert(spec_serialize(segs)[i] == segs[k].0 as u8);
        } else {
            let off = i - (4 + k * w + 1);
            assert((k + 1) * w == k * w + w) by (nonlinear_arith);
            assert(0 <= off < w - 1);
            assert(4 + (k + 1) * w <= spec_serialize(segs).len()) by (nonlinear_arith)
                requires
                    0 <= k < segs.len(),
                    w > 0,
                    spec_serialize(segs).len() == 4 + segs.len() * w,
            ;
            assert(spec_serialize(segs).subrange(4 + k * w + 1, 4 + (k + 1) * w)[off]
                == spec_serialize(segs)[4 + k * w + 1 + off]);
            assert(data.subrange(4 + k * w + 1, 4 + (k + 1) * w)[off] == data[4 + k * w + 1 + off]);
            assert(segs[k].1[off] == data[i]);
        }
    }
}

/// The wire codec is injective on well-formed bitmaps: two bitmaps with the
/// same wire form hold the same segments, hence the same bits. Together
/// with the contracts of `to_blob` and `from_blob` this is the codec round
/// trip: deserializing a serialized bitmap recovers it bit for bit.
pub proof fn lemma_codec_round_trip(b1: PortBitmap, b2: PortBitmap)
    requires
        b1.wf(),
        b2.wf(),
        spec_serialize(b1.segs()) == spec_serialize(b2.segs()),
    ensures
        b1.segs() == b2.segs(),
        forall|i: u32| b1.spec_bit(i) == b2.spec_bit(i),
        b1.spec_count() == b2.spec_count(),
{
    let s1 = b1.segs();
    let s2 = b2.segs();
    lemma_serialize_layout(s1);
    lemma_serialize_layout(s2);
    lemma_segs_len_bound(s1);
    lemma_segs_len_bound(s2);
    let w = 1 + SEGMENT_SIZE as int;
    assert(s1.len() == s2.len()) by {
        lemma_le32_injective(
            s1.len() as u32,
            s2.len() as u32,
            spec_serialize(s1)[0],
            spec_serialize(s1)[1],
            spec_serialize(s1)[2],
            spec_serialize(s1)[3],
        );
        assert(4 + s1.len() * w == 4 + s2.len() * w);
    }
    assert(s1 =~~= s2) by {
        assert forall|k: int| 0 <= k < s1.len() implies s1[k] =~= s2[k] by {
            assert(s1[k].0 as u8 == spec_serialize(s1)[4 + k * w]);
            assert(s2[k].0 as u8 == spec_serialize(s2)[4 + k * w]);
            assert(s1[k].0 < 256 && s2[k].0 < 256);
            assert(s1[k].0 == s2[k].0);
            assert(s1[k].1 == spec_serialize(s1).subrange(4 + k * w + 1, 4 + (k + 1) * w));
            assert(s2[k].1 == spec_serialize(s2).subrange(4 + k * w + 1, 4 + (k + 1) * w));
        }
    }
}

/// The low 24 bits of an index are a byte offset below `SEGMENT_SIZE` with
/// a bit offset below 8, and the segment id fits in one byte.
proof fn lemma_off_bounds(ip_index: u32)
    ensures
        (ip_index & 0xFFFFFF) / 8 < 2097152,
        (ip_index & 0xFFFFFF) % 8 < 8,
        ip_index >> 24 < 256,
{
    assert((ip_index & 0xFFFFFF) < 0x1000000 && (ip_index >> 24) < 256) by (bit_vector);
}

/// Two distinct indices of one segment address distinct bits.
proof fn lemma_distinct_index_same_segment(j: u32, i: u32)
    by (bit_vector)
    requires
        j != i,
        (j >> 24) == (i >> 24),
    ensures
        (j & 0xFFFFFF) / 8 != (i & 0xFFFFFF) / 8 || (j & 0xFFFFFF) % 8 != (i & 0xFFFFFF) % 8,
{
}

/// Setting or clearing one bit of a byte leaves the other bits alone.
proof fn lemma_set_bit_byte(b: u8, k: u8)
    by (bit_vector)
    requires
        k < 8,
    ensures
        forall|j: u8|
            j < 8 ==> #[trigger] ((b | (1u8 << k)) >> j) & 1 == if j == k {
                1u8
            } else {
                (b >> j) & 1
            },
        forall|j: u8|
            j < 8 ==> #[trigger] ((b & !(1u8 << k)) >> j) & 1 == if j == k {
                0u8
            } else {
                (b >> j) & 1
            },
{
}

/// Inserting an all-zero segment at its sorted position preserves the
/// invariant and changes no stored bit.
proof fn lemma_insert_fresh_segment(segs: Seq<(u32, Seq<u8>)>, pos: int, sid: u32, bytes: Seq<u8>)
    requires
        wf_segs(segs),
        0 <= pos <= segs.len(),
        sid < 256,
        bytes.len() == SEGMENT_SIZE,
        forall|k: int| 0 <= k < bytes.len() ==> bytes[k] == 0,
        forall|k: int| 0 <= k < pos ==> (#[trigger] segs[k]).0 < sid,
        forall|k: int| pos <= k < segs.len() ==> (#[trigger] segs[k]).0 > sid,
    ensures
        wf_segs(segs.insert(pos, (sid, bytes))),
        forall|j: u32| seg_bit(segs.insert(pos, (sid, bytes)), j) == seg_bit(segs, j),
{
    let news = segs.insert(pos, (sid, bytes));
    assert forall|i: int| 0 <= i < news.len() implies (#[trigger] news[i]).0 < 256 && news[i].1.len()
        == SEGMENT_SIZE by {
        if i < pos {
            assert(news[i] == segs[i]);
        } else if i > pos {
            assert(news[i] == segs[i - 1]);
        }
    }
    assert forall|i: int, j: int| 0 <= i < j < news.len() implies news[i].0 < news[j].0 by {
        if i < pos {
            assert(news[i] == segs[i]);
        } else if i > pos {
            assert(news[i] == segs[i - 1]);
        }
        if j < pos {
            assert(news[j] == segs[j]);
        } else if j > pos {
            assert(news[j] == segs[j - 1]);
        }
    }
    assert forall|j: u32| seg_bit(news, j) == seg_bit(segs, j) by {
        let jsid = j >> 24;
        lemma_off_bounds(j);
        if jsid == sid {
            // The fresh all-zero segment stores false, as absence did.
            assert(news[pos].0 == jsid);
            assert(exists|i: int| 0 <= i < news.len() && (#[trigger] news[i]).0 == jsid);
            let i2 = choose|i: int| 0 <= i < news.len() && (#[trigger] news[i]).0 == jsid;
            if i2 != pos {
                if i2 < pos {
                    assert(news[i2] == segs[i2]);
                } else {
                    assert(news[i2] == segs[i2 - 1]);
                }
            }
            assert(i2 == pos);
            assert(news[pos].1[(j & 0xFFFFFF) as int / 8] == 0);
            let bk = ((j & 0xFFFFFF) % 8) as u8;
            assert((0u8 >> bk) & 1 == 0) by (bit_vector);
            assert(!byte_bit(news[pos].1[(j & 0xFFFFFF) as int / 8], bk));
        } else {
            if exists|i: int| 0 <= i < segs.len() && (#[trigger] segs[i]).0 == jsid {
                let i1 = choose|i: int| 0 <= i < segs.len() && (#[trigger] segs[i]).0 == jsid;
                if i1 < pos {
                    assert(news[i1] == segs[i1]);
                } else {
                    assert(news[i1 + 1] == segs[i1]);
                }
                let i2 = choose|i: int| 0 <= i < news.len() && (#[trigger] news[i]).0 == jsid;
                assert(i2 != pos);
                if i2 < pos {
                    assert(news[i2] == segs[i2]);
                } else {
                    assert(news[i2] == segs[i2 - 1]);
                }
                // Ids are unique on both sides, so both witnesses name the
                // same segment.
                if i2 < pos {
                    if i1 < pos {
                        assert(segs[i1].0 == segs[i2].0);
                        assert(i1 == i2);
                    } else {
                        assert(segs[i1].0 == segs[i2].0);
                        assert(i1 == i2);
                    }
                } else {
                    assert(segs[i2 - 1].0 == segs[i1].0);
                    assert(i1 == i2 - 1);
                }
            } else {
                assert forall|i: int| 0 <= i < news.len() implies (#[trigger] news[i]).0 != jsid by {
                    if i < pos {
                        assert(news[i] == segs[i]);
                    } else if i > pos {
                        assert(news[i] == segs[i - 1]);
                    }
                }
            }
        }
    }
}

/// Updating one byte of one segment flips exactly the addressed bit.
#[verifier::rlimit(60)]
proof fn lemma_update_byte_effect(
    mids: Seq<(u32, Seq<u8>)>,
    news: Seq<(u32, Seq<u8>)>,
    pos: int,
    new_byte: u8,
    old_byte: u8,
    ip_index: u32,
    value: bool,
)
    requires
        wf_segs(mids),
        0 <= pos < mids.len(),
        mids[pos].0 == ip_index >> 24,
        old_byte == mids[pos].1[(ip_index & 0xFFFFFF) as int / 8],
        forall|j: u8|
            j < 8 ==> #[trigger] (new_byte >> j) & 1 == if j == ((ip_index & 0xFFFFFF) % 8) as u8 {
                if value {
                    1u8
                } else {
                    0u8
                }
            } else {
                (old_byte >> j) & 1
            },
        news == mids.update(
            pos,
            (mids[pos].0, mids[pos].1.update((ip_index & 0xFFFFFF) as int / 8, new_byte)),
        ),
    ensures
        wf_segs(news),
        seg_bit(news, ip_index) == value,
        forall|j: u32| j != ip_index ==> seg_bit(news, j) == seg_bit(mids, j),
{
    lemma_off_bounds(ip_index);
    let sid = ip_index >> 24;
    let byte_index = (ip_index & 0xFFFFFF) as int / 8;
    let bit_index = ((ip_index & 0xFFFFFF) % 8) as u8;
    assert forall|i: int| 0 <= i < news.len() implies (#[trigger] news[i]).0 < 256 && news[i].1.len()
        == SEGMENT_SIZE by {
        if i != pos {
            assert(news[i] == mids[i]);
        }
    }
    assert forall|i: int, j: int| 0 <= i < j < news.len() implies news[i].0 < news[j].0 by {
        assert(news[i].0 == mids[i].0 && news[j].0 == mids[j].0);
    }
    assert(seg_bit(news, ip_index) == value) by {
        let i = choose|i: int| 0 <= i < news.len() && (#[trigger] news[i]).0 == sid;
        assert(news[pos].0 == sid);
        if i != pos {
            assert(news[i].0 == mids[i].0 && news[pos].0 == mids[pos].0);
        }
        assert(i == pos);
        assert(news[pos].1[byte_index] == new_byte);
        assert((new_byte >> bit_index) & 1 == if value {
            1u8
        } else {
            0u8
        });
    }
    assert forall|j: u32| j != ip_index implies seg_bit(news, j) == seg_bit(mids, j) by {
        let jsid = j >> 24;
        lemma_off_bounds(j);
        if jsid == sid {
            lemma_distinct_index_same_segment(j, ip_index);
            assert(mids[pos].0 == jsid);
            assert(news[pos].0 == jsid);
            assert(exists|i: int| 0 <= i < mids.len() && (#[trigger] mids[i]).0 == jsid);
            assert(exists|i: int| 0 <= i < news.len() && (#[trigger] news[i]).0 == jsid);
            let i1 = choose|i: int| 0 <= i < mids.len() && (#[trigger] mids[i]).0 == jsid;
            let i2 = choose|i: int| 0 <= i < news.len() && (#[trigger] news[i]).0 == jsid;
            assert(0 <= i1 < mids.len() && mids[i1].0 == jsid);
            assert(0 <= i2 < news.len() && news[i2].0 == jsid);
            if i1 != pos {
                if i1 < pos {
                    assert(mids[i1].0 < mids[pos].0);
                } else {
                    assert(mids[pos].0 < mids[i1].0);
                }
            }
            assert(i1 == pos);
            if i2 != pos {
                assert(news[i2].0 == mids[i2].0);
                if i2 < pos {
                    assert(mids[i2].0 < mids[pos].0);
                } else {
                    assert(mids[pos].0 < mids[i2].0);
                }
            }
            assert(i2 == pos);
            let joff = (j & 0xFFFFFF) as int;
            if joff / 8 == byte_index {
                assert(((j & 0xFFFFFF) % 8) as u8 != bit_index);
                assert((new_byte >> (((j & 0xFFFFFF) % 8) as u8)) & 1 == (old_byte >> (((j
                    & 0xFFFFFF) % 8) as u8)) & 1);
            } else {
                assert(news[pos].1[joff / 8] == mids[pos].1[joff / 8]);
            }
        } else {
            if exists|i: int| 0 <= i < mids.len() && (#[trigger] mids[i]).0 == jsid {
                let i1 = choose|i: int| 0 <= i < mids.len() && (#[trigger] mids[i]).0 == jsid;
                assert(news[i1].0 == mids[i1].0);
                assert(news[i1].0 == jsid);
                assert(exists|i: int| 0 <= i < news.len() && (#[trigger] news[i]).0 == jsid);
                let i2 = choose|i: int| 0 <= i < news.len() && (#[trigger] news[i]).0 == jsid;
                assert(0 <= i2 < news.len() && news[i2].0 == jsid);
                if i2 != i1 {
                    assert(news[i2].0 == mids[i2].0);
                    assert(mids[i2].0 == mids[i1].0);
                    if i1 < i2 {
                        assert(mids[i1].0 < mids[i2].0);
                    } else {
                        assert(mids[i2].0 < mids[i1].0);
                    }
                }
                assert(i2 == i1);
                assert(i1 != pos);
                assert(news[i1].1 == mids[i1].1);
            } else {
                assert forall|i: int| 0 <= i < news.len() implies (#[trigger] news[i]).0 != jsid by {
                    assert(news[i].0 == mids[i].0);
                }
            }
        }
    }
}

} // verus!
