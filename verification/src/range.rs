//! The address generator: lazy enumeration of a closed IPv4 interval in
//! numeric order, and the producer's filter that skips unroutable and,
//! when asked, private blocks.

use vstd::prelude::*;
use crate::ip::{ipv4_str, ipv4_to_index, index_to_ipv4, is_canon_ipv4, is_private_index};

verus! {

/// A closed interval of IPv4 addresses, held as numeric indexes.
pub struct IpRange {
    pub start: u32,
    pub end: u32,
}

/// Stream of addresses still to be yielded: from `current` up to `end`, or
/// up to the top of the space when the interval was built reversed.
pub open spec fn span(current: u32, end: u32) -> Seq<u32> {
    let upper: u32 = if current <= end {
        end
    } else {
        u32::MAX
    };
    Seq::new((upper - current + 1) as nat, |i: int| (current + i) as u32)
}

impl IpRange {
    /// Parse both bounds as canonical dotted quads. The bounds are not
    /// reordered; an interval with `start > end` yields from `start` to the
    /// top of the address space, as the iterator's contract states.
    pub fn new(start: &str, end: &str) -> (r: Result<IpRange, String>)
        ensures
            match r {
                Ok(rg) => start@ == ipv4_str(rg.start) && end@ == ipv4_str(rg.end),
                Err(_) => !is_canon_ipv4(start@) || !is_canon_ipv4(end@),
            },
    {
        let s = match ipv4_to_index(start) {
            Ok(s) => s,
            Err(_) => {
                return Err(String::from_str("Invalid start IP"));
            },
        };
        let e = match ipv4_to_index(end) {
            Ok(e) => e,
            Err(_) => {
                return Err(String::from_str("Invalid end IP"));
            },
        };
        Ok(IpRange { start: s, end: e })
    }

    /// The iterator over the interval, positioned at its start.
    pub fn iter(&self) -> (r: IpIterator)
        ensures
            r.remaining() == span(self.start, self.end),
            !r.finished,
            r.current == self.start,
            r.end == self.end,
    {
        IpIterator { current: self.start, end: self.end, finished: false }
    }
}

/// Lazy, non-restartable cursor over an interval.
pub struct IpIterator {
    pub current: u32,
    pub end: u32,
    pub finished: bool,
}

impl IpIterator {
    /// Addresses still to be yielded.
    pub open spec fn remaining(self) -> Seq<u32> {
        if self.finished {
            Seq::empty()
        } else {
            span(self.current, self.end)
        }
    }

    /// Yield the next address: the head of `remaining`, each address
    /// exactly once, in strictly increasing order.
    pub fn next(&mut self) -> (r: Option<u32>)
        ensures
            match r {
                Some(ip) => old(self).remaining().len() > 0 && ip == old(self).remaining()[0]
                    && final(self).remaining() == old(self).remaining().drop_first(),
                None => old(self).remaining().len() == 0 && final(self).remaining()
                    == old(self).remaining(),
            },
    {
        if self.finished {
            return None;
        }
        let result = self.current;
        if self.current == self.end {
            self.finished = true;
            proof {
                assert(old(self).remaining().len() == 1);
                assert(final(self).remaining() =~= old(self).remaining().drop_first());
            }
            return Some(result);
        }
        if self.current == u32::MAX {
            self.finished = true;
            proof {
                assert(old(self).remaining().len() == 1);
                assert(final(self).remaining() =~= old(self).remaining().drop_first());
            }
            return Some(result);
        }
        self.current = self.current + 1;
        proof {
            assert(final(self).remaining() =~= old(self).remaining().drop_first());
        }
        Some(result)
    }
}

/// The yielded stream over `[start, end]` with `start <= end` holds exactly
/// `end - start + 1` addresses, the address `start + i` at offset `i`, so
/// it is strictly increasing.
pub proof fn lemma_span_exact(start: u32, end: u32)
    requires
        start <= end,
    ensures
        span(start, end).len() == end - start + 1,
        forall|i: int| 0 <= i <= end - start ==> span(start, end)[i] == start + i,
        forall|i: int, j: int|
            0 <= i < j < span(start, end).len() ==> span(start, end)[i] < span(start, end)[j],
{
}

/// The producer admits an address when it is outside `0.0.0.0/8` and, with
/// `skip_private` set, outside the private and reserved blocks.
pub open spec fn admitted_index(n: u32, skip_private: bool) -> bool {
    (n >> 24) != 0 && (skip_private ==> !is_private_index(n))
}

/// The admitted sub-stream of `[s, e]`, in increasing order.
pub open spec fn gen_ips(s: int, e: int, skip_private: bool) -> Seq<u32>
    decreases e - s + 1,
{
    if s > e || s < 0 || e > u32::MAX {
        Seq::empty()
    } else if admitted_index(s as u32, skip_private) {
        seq![s as u32] + gen_ips(s + 1, e, skip_private)
    } else {
        gen_ips(s + 1, e, skip_private)
    }
}

/// Whether an index lies in a private or reserved block.
pub fn index_is_private(n: u32) -> (r: bool)
    ensures
        r == is_private_index(n),
{
    proof {
        assert((n >> 24) & 0xFF < 256 && (n >> 16) & 0xFF < 256) by (bit_vector);
    }
    let a = (n >> 24) & 0xFF;
    let b = (n >> 16) & 0xFF;
    a == 10 || (a == 172 && 16 <= b && b <= 31) || (a == 192 && b == 168) || a == 127 || (a == 169
        && b == 254) || (224 <= a && a <= 239) || 240 <= a
}

/// The producer's admission test for one address.
pub fn admit_address(n: u32, skip_private: bool) -> (r: bool)
    ensures
        r == admitted_index(n, skip_private),
{
    if (n >> 24) == 0 {
        return false;
    }
    if skip_private && index_is_private(n) {
        return false;
    }
    true
}

/// Enumerate the admitted addresses of `[start, end]` as indexes, in
/// increasing order.
pub fn generate_indexes(start: u32, end: u32, skip_private: bool) -> (v: Vec<u32>)
    requires
        start <= end,
    ensures
        v@ == gen_ips(start as int, end as int, skip_private),
{
    let mut v: Vec<u32> = Vec::new();
    let mut cur: u64 = start as u64;
    while cur <= end as u64
        invariant
            start as u64 <= cur <= end as u64 + 1,
            gen_ips(start as int, end as int, skip_private) == v@ + gen_ips(
                cur as int,
                end as int,
                skip_private,
            ),
        decreases end as u64 + 1 - cur,
    {
        let n = cur as u32;
        let ghost before = v@;
        if admit_address(n, skip_private) {
            v.push(n);
            proof {
                assert(gen_ips(cur as int, end as int, skip_private) == seq![n] + gen_ips(
                    cur as int + 1,
                    end as int,
                    skip_private,
                ));
                assert(v@ =~= before + seq![n]);
                assert(before + (seq![n] + gen_ips(cur as int + 1, end as int, skip_private)) =~= (
                before + seq![n]) + gen_ips(cur as int + 1, end as int, skip_private));
            }
        } else {
            proof {
                assert(gen_ips(cur as int, end as int, skip_private) == gen_ips(
                    cur as int + 1,
                    end as int,
                    skip_private,
                ));
            }
        }
        cur = cur + 1;
    }
    proof {
        assert(gen_ips(cur as int, end as int, skip_private) == Seq::<u32>::empty());
        assert(v@ + Seq::<u32>::empty() =~= v@);
    }
    v
}

/// Enumerate the admitted addresses of a parsed interval as dotted quads,
/// in increasing numeric order: what the producer hands to the probe
/// workers.
pub fn generate_addresses(start_ip: &str, end_ip: &str, skip_private: bool) -> (r: Result<
    Vec<String>,
    String,
>)
    ensures
        match r {
            Ok(vs) => (forall|s: u32, e: u32|
                start_ip@ == ipv4_str(s) && end_ip@ == ipv4_str(e) ==> s <= e) && (forall|
                s: u32,
                e: u32,
            |
                start_ip@ == ipv4_str(s) && end_ip@ == ipv4_str(e) ==> vs@.map_values(
                    |t: String| t@,
                ) == gen_ips(s as int, e as int, skip_private).map_values(|n: u32| ipv4_str(n))),
            Err(_) => !is_canon_ipv4(start_ip@) || !is_canon_ipv4(end_ip@) || (forall|
                s: u32,
                e: u32,
            |
                start_ip@ == ipv4_str(s) && end_ip@ == ipv4_str(e) ==> s > e),
        },
{
    let s = match ipv4_to_index(start_ip) {
        Ok(s) => s,
        Err(_) => {
            return Err(String::from_str("Invalid start IP"));
        },
    };
    let e = match ipv4_to_index(end_ip) {
        Ok(e) => e,
        Err(_) => {
            return Err(String::from_str("Invalid end IP"));
        },
    };
    proof {
        crate::ip::lemma_ipv4_str_injective(s, s);
    }
    if s > e {
        proof {
            assert forall|s2: u32, e2: u32|
                start_ip@ == ipv4_str(s2) && end_ip@ == ipv4_str(e2) implies s2 > e2 by {
                crate::ip::lemma_ipv4_str_injective(s, s2);
                crate::ip::lemma_ipv4_str_injective(e, e2);
            }
        }
        return Err(String::from_str("Start IP must be less than or equal to end IP"));
    }
    let idx = generate_indexes(s, e, skip_private);
    let mut vs: Vec<String> = Vec::new();
    let n = idx.len();
    let mut i: usize = 0;
    while i < n
        invariant
            i <= n == idx@.len(),
            idx@ == gen_ips(s as int, e as int, skip_private),
            vs@.map_values(|t: String| t@) =~= idx@.take(i as int).map_values(
                |m: u32| ipv4_str(m),
            ),
        decreases n - i,
    {
        vs.push(index_to_ipv4(idx[i]));
        proof {
            assert(idx@.take(i as int + 1).drop_last() =~= idx@.take(i as int));
            assert(idx@.take(i as int + 1).map_values(|m: u32| ipv4_str(m)) =~= idx@.take(
                i as int,
            ).map_values(|m: u32| ipv4_str(m)).push(ipv4_str(idx@[i as int])));
            assert(vs@.map_values(|t: String| t@) =~= idx@.take(i as int + 1).map_values(
                |m: u32| ipv4_str(m),
            ));
        }
        i = i + 1;
    }
    proof {
        assert(idx@.take(n as int) =~= idx@);
        assert forall|s2: u32, e2: u32|
            start_ip@ == ipv4_str(s2) && end_ip@ == ipv4_str(e2) implies s2 <= e2 by {
            crate::ip::lemma_ipv4_str_injective(s, s2);
            crate::ip::lemma_ipv4_str_injective(e, e2);
        }
        assert forall|s2: u32, e2: u32|
            start_ip@ == ipv4_str(s2) && end_ip@ == ipv4_str(e2) implies vs@.map_values(
            |t: String| t@,
        ) == gen_ips(s2 as int, e2 as int, skip_private).map_values(|n2: u32| ipv4_str(n2)) by {
            crate::ip::lemma_ipv4_str_injective(s, s2);
            crate::ip::lemma_ipv4_str_injective(e, e2);
            assert(vs@.map_values(|t: String| t@) == idx@.map_values(|m: u32| ipv4_str(m)));
            assert(gen_ips(s2 as int, e2 as int, skip_private) == idx@);
        }
    }
    Ok(vs)
}

} // verus!
