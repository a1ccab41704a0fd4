//! Read operations over the store, as the read-only interface consumes
//! them: the paginated, filtered listing of open-port detail rows, the
//! per-address, per-port and per-round lists, the top ports by open count,
//! per-port counts of one round, and the per-round scan history.
//!
//! List results come back in stored row order; ranked results (top ports,
//! per-port round counts) come in descending count order with ties broken
//! by ascending port, and the history in descending round order.

use vstd::prelude::*;
use vstd::pervasive::VecAdditionalExecFns;
use crate::config::{PaginatedResults, ResultsQuery, ScanResult};
use crate::store::{brow, details_model, has_brow, DetailModel, IpType, PortBitmapRow, ScanResultDetail, ScanStore};

verus! {

/// The pattern occurs in `s` at offset `off`.
pub open spec fn match_at(s: Seq<char>, sub: Seq<char>, off: int) -> bool {
    &&& 0 <= off
    &&& off + sub.len() <= s.len()
    &&& forall|a: int| 0 <= a < sub.len() ==> s[off + a] == #[trigger] sub[a]
}

/// The pattern occurs somewhere in `s`, as the `LIKE %pattern%` filter of
/// the row store reads it.
pub open spec fn contains_sub(s: Seq<char>, sub: Seq<char>) -> bool {
    exists|off: int| #[trigger] match_at(s, sub, off)
}

/// A detail row passes the result filters.
pub open spec fn row_matches(
    d: DetailModel,
    ip_sub: Option<Seq<char>>,
    port: Option<u16>,
    round: Option<i64>,
    tp: Option<IpType>,
) -> bool {
    &&& match ip_sub {
        Some(sub) => contains_sub(d.ip, sub),
        None => true,
    }
    &&& match port {
        Some(p) => d.port == p,
        None => true,
    }
    &&& match round {
        Some(r) => d.scan_round == r,
        None => true,
    }
    &&& match tp {
        Some(t) => d.ip_type == t,
        None => true,
    }
}

/// The view of a filter's substring pattern, if one is set.
pub open spec fn ip_pattern(ip: Option<String>) -> Option<Seq<char>> {
    match ip {
        Some(sub) => Some(sub@),
        None => None,
    }
}

/// The detail rows that pass the filters, in stored order.
pub open spec fn filtered_details(
    rows: Seq<DetailModel>,
    ip_sub: Option<Seq<char>>,
    port: Option<u16>,
    round: Option<i64>,
    tp: Option<IpType>,
) -> Seq<DetailModel>
    decreases rows.len(),
{
    if rows.len() == 0 {
        Seq::empty()
    } else {
        let pre = filtered_details(rows.drop_last(), ip_sub, port, round, tp);
        if row_matches(rows.last(), ip_sub, port, round, tp) {
            pre.push(rows.last())
        } else {
            pre
        }
    }
}

/// The detail rows of exactly one address, in stored order.
pub open spec fn rows_of_ip(rows: Seq<DetailModel>, ip: Seq<char>) -> Seq<DetailModel>
    decreases rows.len(),
{
    if rows.len() == 0 {
        Seq::empty()
    } else {
        let pre = rows_of_ip(rows.drop_last(), ip);
        if rows.last().ip == ip {
            pre.push(rows.last())
        } else {
            pre
        }
    }
}

/// One page of a row list: from `(page-1)*page_size`, a full page or
/// whatever remains.
pub open spec fn spec_page(s: Seq<DetailModel>, page: int, page_size: int) -> Seq<DetailModel> {
    let lo = if (page - 1) * page_size <= s.len() {
        (page - 1) * page_size
    } else {
        s.len() as int
    };
    let hi = if lo + page_size <= s.len() {
        lo + page_size
    } else {
        s.len() as int
    };
    s.subrange(lo, hi)
}

/// The shapes of a reported result list.
pub open spec fn results_model(rows: Seq<ScanResult>) -> Seq<DetailModel> {
    rows.map_values(|r: ScanResult| r.model())
}

/// Whether `needle` occurs inside `hay`.
fn str_contains(hay: &String, needle: &String) -> (r: bool)
    ensures
        r == contains_sub(hay@, needle@),
{
    let h = hay.as_str().unicode_len();
    let n = needle.as_str().unicode_len();
    if n > h {
        proof {
            assert forall|off: int| !match_at(hay@, needle@, off) by {}
        }
        return false;
    }
    let mut off: usize = 0;
    while off <= h - n
        invariant
            n <= h == hay@.len(),
            n == needle@.len(),
            off <= h - n + 1,
            forall|o: int| 0 <= o < off ==> !#[trigger] match_at(hay@, needle@, o),
        decreases (h - n + 1) - off,
    {
        let mut k: usize = 0;
        let mut matched = true;
        while k < n
            invariant
                k <= n == needle@.len(),
                off + n <= h == hay@.len(),
                matched == (forall|a: int| 0 <= a < k ==> hay@[off + a] == #[trigger] needle@[a]),
            decreases n - k,
        {
            if hay.as_str().get_char(off + k) != needle.as_str().get_char(k) {
                matched = false;
                proof {
                    assert(hay@[off + k] != needle@[k as int]);
                }
                k = n;
            } else {
                proof {
                    assert(hay@[off + k] == needle@[k as int]);
                    if matched {
                        assert forall|a: int|
                            0 <= a < k + 1 implies hay@[off + a] == #[trigger] needle@[a] by {
                            if a < k {
                                assert(hay@[off + a] == needle@[a]);
                            }
                        }
                    }
                }
                k = k + 1;
            }
        }
        if matched {
            proof {
                assert(match_at(hay@, needle@, off as int));
            }
            return true;
        }
        off = off + 1;
    }
    proof {
        assert forall|o: int| !#[trigger] match_at(hay@, needle@, o) by {
            if match_at(hay@, needle@, o) {
                assert(0 <= o < off);
            }
        }
    }
    false
}

/// Copy one detail row, preserving its shape.
fn clone_detail(d: &ScanResultDetail) -> (r: ScanResultDetail)
    ensures
        r.model() == d.model(),
{
    ScanResultDetail {
        ip_address: d.ip_address.clone(),
        ip_type: d.ip_type,
        port: d.port,
        scan_round: d.scan_round,
        first_seen: d.first_seen,
        last_seen: d.last_seen,
    }
}

/// Report one detail row, preserving its shape.
fn to_result(d: &ScanResultDetail) -> (r: ScanResult)
    ensures
        r.model() == d.model(),
{
    ScanResult {
        ip_address: d.ip_address.clone(),
        ip_type: d.ip_type,
        port: d.port,
        scan_round: d.scan_round,
        first_seen: d.first_seen,
        last_seen: d.last_seen,
    }
}

impl ScanStore {
    /// Collect every detail row that passes the filters, in stored order.
    fn collect_filtered(&self, q: &ResultsQuery) -> (r: Vec<ScanResultDetail>)
        ensures
            details_model(r@) == filtered_details(
                details_model(self.detail_rows@),
                ip_pattern(q.filter.ip),
                q.filter.port,
                q.filter.round,
                q.filter.ip_type,
            ),
    {
        let ghost ip_sub: Option<Seq<char>> = ip_pattern(q.filter.ip);
        let mut out: Vec<ScanResultDetail> = Vec::new();
        let m = self.detail_rows.len();
        let mut j: usize = 0;
        proof {
            assert(details_model(self.detail_rows@).take(0) =~= Seq::<DetailModel>::empty());
            assert(details_model(out@) =~= Seq::<DetailModel>::empty());
        }
        while j < m
            invariant
                j <= m == self.detail_rows@.len(),
                ip_sub == ip_pattern(q.filter.ip),
                details_model(out@) == filtered_details(
                    details_model(self.detail_rows@).take(j as int),
                    ip_sub,
                    q.filter.port,
                    q.filter.round,
                    q.filter.ip_type,
                ),
            decreases m - j,
        {
            let row = &self.detail_rows[j];
            let ip_ok = match &q.filter.ip {
                Some(sub) => str_contains(&row.ip_address, sub),
                None => true,
            };
            let port_ok = match q.filter.port {
                Some(p) => row.port == p,
                None => true,
            };
            let round_ok = match q.filter.round {
                Some(r) => row.scan_round == r,
                None => true,
            };
            let tp_ok = match q.filter.ip_type {
                Some(t) => row.ip_type == t,
                None => true,
            };
            let ghost before = out@;
            if ip_ok && port_ok && round_ok && tp_ok {
                out.push(clone_detail(row));
            }
            proof {
                let all = details_model(self.detail_rows@);
                assert(all.take(j + 1 as int).drop_last() =~= all.take(j as int));
                assert(all.take(j + 1 as int).last() == all[j as int]);
                assert(all[j as int] == self.detail_rows@[j as int].model());
                assert(all[j as int].ip == self.detail_rows@[j as int].ip_address@);
                let matched = ip_ok && port_ok && round_ok && tp_ok;
                assert(matched == row_matches(
                    all[j as int],
                    ip_sub,
                    q.filter.port,
                    q.filter.round,
                    q.filter.ip_type,
                ));
                if matched {
                    assert(details_model(out@) =~= details_model(before).push(
                        self.detail_rows@[j as int].model(),
                    ));
                } else {
                    assert(details_model(out@) == details_model(before));
                }
            }
            j = j + 1;
        }
        proof {
            assert(details_model(self.detail_rows@).take(m as int) =~= details_model(
                self.detail_rows@,
            ));
        }
        out
    }

    /// One page of the filtered detail rows, in stored order, with the
    /// number of rows that pass the filters and the page count. Rejects
    /// exactly the queries whose pagination is out of range: pages are
    /// one-based and a page holds between 1 and 500 rows.
    pub fn get_scan_results(&self, q: &ResultsQuery) -> (r: Result<PaginatedResults, String>)
        ensures
            match r {
                Ok(p) => {
                    let all = filtered_details(
                        details_model(self.detail_rows@),
                        ip_pattern(q.filter.ip),
                        q.filter.port,
                        q.filter.round,
                        q.filter.ip_type,
                    );
                    &&& q.pagination.page >= 1
                    &&& 1 <= q.pagination.page_size <= 500
                    &&& p.total == all.len()
                    &&& p.page == q.pagination.page
                    &&& p.page_size == q.pagination.page_size
                    &&& p.results@.len() <= q.pagination.page_size
                    &&& results_model(p.results@) == spec_page(
                        all,
                        q.pagination.page as int,
                        q.pagination.page_size as int,
                    )
                    &&& p.total_pages == p.total as int / q.pagination.page_size as int + (
                    if p.total as int % q.pagination.page_size as int == 0 {
                        0int
                    } else {
                        1int
                    })
                },
                Err(_) => q.pagination.page < 1 || q.pagination.page_size < 1
                    || q.pagination.page_size > 500,
            },
    {
        if let Err(e) = q.pagination.validate() {
            return Err(e);
        }
        let page = q.pagination.page;
        let page_size = q.pagination.page_size;
        let all = self.collect_filtered(q);
        let total = all.len();
        let ghost allm = details_model(all@);
        proof {
            assert(((page as int) - 1) * (page_size as int) >= 0) by (nonlinear_arith)
                requires
                    page >= 1,
                    page_size >= 1,
            ;
            assert(((page as int) - 1) * (page_size as int)
                < 0x1_0000_0000_0000_0000_0000_0000_0000_0000) by (nonlinear_arith)
                requires
                    1 <= page <= 0xFFFF_FFFF_FFFF_FFFF,
                    page_size <= 0xFFFF_FFFF_FFFF_FFFF,
            ;
        }
        let lo128: u128 = (page as u128 - 1) * (page_size as u128);
        let lo: usize = if lo128 <= total as u128 {
            lo128 as usize
        } else {
            total
        };
        let hi = if total - lo >= page_size {
            lo + page_size
        } else {
            total
        };
        let mut results: Vec<ScanResult> = Vec::new();
        let mut k = lo;
        proof {
            assert(results_model(results@) =~= allm.subrange(lo as int, lo as int));
        }
        while k < hi
            invariant
                lo <= k <= hi <= all@.len(),
                hi - lo <= page_size,
                allm == details_model(all@),
                results_model(results@) == allm.subrange(lo as int, k as int),
                results@.len() == k - lo,
            decreases hi - k,
        {
            let ghost before = results@;
            results.push(to_result(&all[k]));
            proof {
                assert(allm.subrange(lo as int, k + 1 as int).drop_last() =~= allm.subrange(
                    lo as int,
                    k as int,
                ));
                assert(allm.subrange(lo as int, k + 1 as int).last() == allm[k as int]);
                assert(results_model(results@) =~= results_model(before).push(
                    all@[k as int].model(),
                ));
                assert(results_model(results@) =~= allm.subrange(lo as int, k + 1 as int));
            }
            k = k + 1;
        }
        let total_pages = crate::config::total_pages(total, page_size);
        proof {
            assert(allm.subrange(lo as int, hi as int) =~= spec_page(
                allm,
                page as int,
                page_size as int,
            ));
        }
        Ok(PaginatedResults { results, total, page, page_size, total_pages })
    }

    /// Every detail row of one address, in stored order.
    pub fn get_results_by_ip(&self, ip: &String) -> (r: Vec<ScanResultDetail>)
        ensures
            details_model(r@) == rows_of_ip(details_model(self.detail_rows@), ip@),
    {
        let mut out: Vec<ScanResultDetail> = Vec::new();
        let m = self.detail_rows.len();
        let mut j: usize = 0;
        proof {
            assert(details_model(self.detail_rows@).take(0) =~= Seq::<DetailModel>::empty());
            assert(details_model(out@) =~= Seq::<DetailModel>::empty());
        }
        while j < m
            invariant
                j <= m == self.detail_rows@.len(),
                details_model(out@) == rows_of_ip(
                    details_model(self.detail_rows@).take(j as int),
                    ip@,
                ),
            decreases m - j,
        {
            let row = &self.detail_rows[j];
            let ghost before = out@;
            if row.ip_address == *ip {
                out.push(clone_detail(row));
            }
            proof {
                let all = details_model(self.detail_rows@);
                assert(all.take(j + 1 as int).drop_last() =~= all.take(j as int));
                assert(all.take(j + 1 as int).last() == all[j as int]);
                assert(all[j as int] == self.detail_rows@[j as int].model());
                if all[j as int].ip == ip@ {
                    assert(details_model(out@) =~= details_model(before).push(
                        self.detail_rows@[j as int].model(),
                    ));
                } else {
                    assert(details_model(out@) == details_model(before));
                }
            }
            j = j + 1;
        }
        proof {
            assert(details_model(self.detail_rows@).take(m as int) =~= details_model(
                self.detail_rows@,
            ));
        }
        out
    }

    /// Every detail row of one port, in stored order.
    pub fn get_results_by_port(&self, port: u16) -> (r: Vec<ScanResultDetail>)
        ensures
            details_model(r@) == filtered_details(
                details_model(self.detail_rows@),
                None,
                Some(port),
                None,
                None,
            ),
    {
        let q = ResultsQuery {
            pagination: crate::config::PaginationQuery { page: 1, page_size: 1 },
            filter: crate::config::FilterQuery {
                ip: None,
                port: Some(port),
                round: None,
                ip_type: None,
            },
        };
        self.collect_filtered(&q)
    }

    /// Every detail row of one round, in stored order.
    pub fn get_results_by_round(&self, round: i64) -> (r: Vec<ScanResultDetail>)
        ensures
            details_model(r@) == filtered_details(
                details_model(self.detail_rows@),
                None,
                None,
                Some(round),
                None,
            ),
    {
        let q = ResultsQuery {
            pagination: crate::config::PaginationQuery { page: 1, page_size: 1 },
            filter: crate::config::FilterQuery {
                ip: None,
                port: None,
                round: Some(round),
                ip_type: None,
            },
        };
        self.collect_filtered(&q)
    }
}

/// Number of detail rows naming this port.
pub open spec fn port_count(rows: Seq<DetailModel>, p: u16) -> int
    decreases rows.len(),
{
    if rows.len() == 0 {
        0
    } else {
        port_count(rows.drop_last(), p) + if rows.last().port == p {
            1int
        } else {
            0int
        }
    }
}

/// Some detail row names this port.
pub open spec fn port_appears(rows: Seq<DetailModel>, p: u16) -> bool {
    exists|i: int| 0 <= i < rows.len() && (#[trigger] rows[i]).port == p
}

/// Ranking order of `(port, count)` entries: more open addresses first,
/// ties by ascending port.
pub open spec fn ranked_before(a: (u16, u64), b: (u16, u64)) -> bool {
    a.1 > b.1 || (a.1 == b.1 && a.0 < b.0)
}

/// A port no row names is counted zero times.
proof fn lemma_absent_port_count(rows: Seq<DetailModel>, p: u16)
    requires
        !port_appears(rows, p),
    ensures
        port_count(rows, p) == 0,
    decreases rows.len(),
{
    if rows.len() > 0 {
        assert(!port_appears(rows.drop_last(), p)) by {
            if port_appears(rows.drop_last(), p) {
                let w = choose|i: int|
                    0 <= i < rows.drop_last().len() && (#[trigger] rows.drop_last()[i]).port == p;
                assert(rows[w].port == p);
            }
        }
        lemma_absent_port_count(rows.drop_last(), p);
        assert(rows.last().port != p) by {
            if rows.last().port == p {
                assert(rows[rows.len() - 1].port == p);
            }
        }
    }
}

/// First position whose entry ranks after `x`, in a ranked vector of
/// distinct ports.
fn find_rank_pos(v: &Vec<(u16, u64)>, x: (u16, u64)) -> (r: usize)
    requires
        forall|i: int, j: int| 0 <= i < j < v@.len() ==> ranked_before(#[trigger] v@[i], #[trigger] v@[j]),
        forall|i: int| 0 <= i < v@.len() ==> (#[trigger] v@[i]).0 != x.0,
    ensures
        r <= v@.len(),
        forall|k: int| 0 <= k < r ==> ranked_before(#[trigger] v@[k], x),
        forall|k: int| r <= k < v@.len() ==> ranked_before(x, #[trigger] v@[k]),
{
    let n = v.len();
    let mut i: usize = 0;
    while i < n
        invariant
            i <= n == v@.len(),
            forall|a: int, b: int| 0 <= a < b < v@.len() ==> ranked_before(
                #[trigger] v@[a],
                #[trigger] v@[b],
            ),
            forall|a: int| 0 <= a < v@.len() ==> (#[trigger] v@[a]).0 != x.0,
            forall|k: int| 0 <= k < i ==> ranked_before(#[trigger] v@[k], x),
        decreases n - i,
    {
        let c = v[i];
        if x.1 > c.1 || (x.1 == c.1 && x.0 < c.0) {
            proof {
                assert forall|k: int| i <= k < v@.len() implies ranked_before(x, #[trigger] v@[k]) by {
                    if k > i {
                        assert(ranked_before(v@[i as int], v@[k]));
                    }
                }
            }
            return i;
        }
        proof {
            // Ports differ, so the order is total: not ranking before means
            // ranking after.
            assert(ranked_before(v@[i as int], x));
        }
        i = i + 1;
    }
    n
}

/// Insert an entry with a fresh port into a ranked vector.
fn insert_ranked(v: &mut Vec<(u16, u64)>, x: (u16, u64))
    requires
        forall|i: int, j: int| 0 <= i < j < old(v)@.len() ==> ranked_before(
            #[trigger] old(v)@[i],
            #[trigger] old(v)@[j],
        ),
        forall|i: int| 0 <= i < old(v)@.len() ==> (#[trigger] old(v)@[i]).0 != x.0,
    ensures
        forall|i: int, j: int| 0 <= i < j < final(v)@.len() ==> ranked_before(
            #[trigger] final(v)@[i],
            #[trigger] final(v)@[j],
        ),
        final(v)@.len() == old(v)@.len() + 1,
        final(v)@.contains(x),
        forall|y: (u16, u64)| old(v)@.contains(y) ==> final(v)@.contains(y),
        forall|y: (u16, u64)| final(v)@.contains(y) ==> old(v)@.contains(y) || y == x,
{
    let i = find_rank_pos(v, x);
    let ghost olds = v@;
    v.insert(i, x);
    proof {
        assert(v@ =~= olds.insert(i as int, x));
        assert forall|a: int, b: int| 0 <= a < b < v@.len() implies ranked_before(
            #[trigger] v@[a],
            #[trigger] v@[b],
        ) by {
            if a < i {
                assert(v@[a] == olds[a]);
            } else if a > i {
                assert(v@[a] == olds[a - 1]);
            }
            if b < i {
                assert(v@[b] == olds[b]);
            } else if b > i {
                assert(v@[b] == olds[b - 1]);
            }
        }
        assert(v@[i as int] == x);
        assert forall|y: (u16, u64)| olds.contains(y) implies v@.contains(y) by {
            let k = choose|k: int| 0 <= k < olds.len() && olds[k] == y;
            if k < i {
                assert(v@[k] == y);
            } else {
                assert(v@[k + 1] == y);
            }
        }
        assert forall|y: (u16, u64)| v@.contains(y) implies olds.contains(y) || y == x by {
            let k = choose|k: int| 0 <= k < v@.len() && v@[k] == y;
            if k < i {
                assert(olds[k] == y);
            } else if k > i {
                assert(olds[k - 1] == y);
            }
        }
    }
}

impl ScanStore {
    /// Count the open-port detail rows of every port that has one.
    fn count_ports(&self) -> (r: Vec<(u16, u64)>)
        ensures
            forall|i: int|
                0 <= i < r@.len() ==> (#[trigger] r@[i]).1 == port_count(
                    details_model(self.detail_rows@),
                    r@[i].0,
                ) && port_appears(details_model(self.detail_rows@), r@[i].0),
            forall|i: int, j: int| 0 <= i < j < r@.len() ==> (#[trigger] r@[i]).0 != (
            #[trigger] r@[j]).0,
            forall|p: u16|
                port_appears(details_model(self.detail_rows@), p) ==> exists|i: int|
                    0 <= i < r@.len() && (#[trigger] r@[i]).0 == p,
    {
        let ghost allm = details_model(self.detail_rows@);
        let mut out: Vec<(u16, u64)> = Vec::new();
        let m = self.detail_rows.len();
        let mut j: usize = 0;
        proof {
            assert(allm.take(0) =~= Seq::<DetailModel>::empty());
        }
        while j < m
            invariant
                j <= m == self.detail_rows@.len(),
                allm == details_model(self.detail_rows@),
                forall|i: int|
                    0 <= i < out@.len() ==> (#[trigger] out@[i]).1 == port_count(
                        allm.take(j as int),
                        out@[i].0,
                    ) && port_appears(allm.take(j as int), out@[i].0),
                forall|i: int, a: int| 0 <= i < a < out@.len() ==> (#[trigger] out@[i]).0 != (
                #[trigger] out@[a]).0,
                forall|p: u16|
                    port_appears(allm.take(j as int), p) ==> exists|i: int|
                        0 <= i < out@.len() && (#[trigger] out@[i]).0 == p,
                forall|i: int| 0 <= i < out@.len() ==> (#[trigger] out@[i]).1 <= j,
            decreases m - j,
        {
            let p = self.detail_rows[j].port;
            proof {
                assert(allm.take(j + 1 as int).drop_last() =~= allm.take(j as int));
                assert(allm.take(j + 1 as int).last() == allm[j as int]);
                assert(allm[j as int] == self.detail_rows@[j as int].model());
                assert(allm[j as int].port == p);
            }
            let n = out.len();
            let mut i: usize = 0;
            let mut found = n;
            while i < n
                invariant
                    i <= n == out@.len(),
                    found <= n,
                    found == n ==> forall|k: int| 0 <= k < i ==> (#[trigger] out@[k]).0 != p,
                    found < n ==> found < i && out@[found as int].0 == p,
                decreases n - i,
            {
                if out[i].0 == p {
                    found = i;
                    i = n;
                } else {
                    i = i + 1;
                }
            }
            let ghost before = out@;
            if found < n {
                let c = out[found].1;
                proof {
                    assert(c <= j);
                }
                let e = &mut out[found];
                e.1 = c + 1;
                proof {
                    assert forall|i2: int|
                        0 <= i2 < out@.len() implies (#[trigger] out@[i2]).1 == port_count(
                        allm.take(j + 1 as int),
                        out@[i2].0,
                    ) && port_appears(allm.take(j + 1 as int), out@[i2].0) by {
                        if i2 != found {
                            assert(out@[i2] == before[i2]);
                            assert(out@[i2].0 != p) by {
                                if i2 < found {
                                    assert(before[i2].0 != before[found as int].0);
                                } else {
                                    assert(before[found as int].0 != before[i2].0);
                                }
                            }
                            assert(port_count(allm.take(j + 1 as int), out@[i2].0) == port_count(
                                allm.take(j as int),
                                out@[i2].0,
                            ));
                            let w = choose|w: int|
                                0 <= w < allm.take(j as int).len() && (#[trigger] allm.take(
                                    j as int,
                                )[w]).port == out@[i2].0;
                            assert(allm.take(j + 1 as int)[w].port == out@[i2].0);
                        } else {
                            assert(out@[found as int].0 == p);
                            assert(port_count(allm.take(j + 1 as int), p) == port_count(
                                allm.take(j as int),
                                p,
                            ) + 1);
                            assert(allm.take(j + 1 as int)[j as int].port == p);
                        }
                    }
                    assert forall|p2: u16|
                        #[trigger] port_appears(allm.take(j + 1 as int), p2) implies exists|
                        i2: int,
                    |
                        0 <= i2 < out@.len() && (#[trigger] out@[i2]).0 == p2 by {
                        if p2 == p {
                            assert(out@[found as int].0 == p2);
                        } else {
                            assert(port_appears(allm.take(j as int), p2)) by {
                                let w = choose|w: int|
                                    0 <= w < allm.take(j + 1 as int).len() && (#[trigger] allm.take(
                                        j + 1 as int,
                                    )[w]).port == p2;
                                assert(w < j);
                                assert(allm.take(j as int)[w].port == p2);
                            }
                            let i0 = choose|i2: int|
                                0 <= i2 < before.len() && (#[trigger] before[i2]).0 == p2;
                            assert(out@[i0].0 == p2);
                        }
                    }
                    assert forall|a: int, b: int|
                        0 <= a < b < out@.len() implies (#[trigger] out@[a]).0 != (
                    #[trigger] out@[b]).0 by {
                        assert(out@[a].0 == before[a].0 && out@[b].0 == before[b].0);
                    }
                }
            } else {
                proof {
                    assert(!port_appears(allm.take(j as int), p)) by {
                        if port_appears(allm.take(j as int), p) {
                            let w = choose|i2: int|
                                0 <= i2 < out@.len() && (#[trigger] out@[i2]).0 == p;
                            assert(0 <= w < out@.len() && out@[w].0 == p);
                            assert(out@[w].0 != p);
                        }
                    }
                    lemma_absent_port_count(allm.take(j as int), p);
                }
                out.push((p, 1));
                proof {
                    assert forall|i2: int|
                        0 <= i2 < out@.len() implies (#[trigger] out@[i2]).1 == port_count(
                        allm.take(j + 1 as int),
                        out@[i2].0,
                    ) && port_appears(allm.take(j + 1 as int), out@[i2].0) by {
                        if i2 < before.len() {
                            assert(out@[i2] == before[i2]);
                            assert(out@[i2].0 != p);
                            assert(port_count(allm.take(j + 1 as int), out@[i2].0) == port_count(
                                allm.take(j as int),
                                out@[i2].0,
                            ));
                            let w = choose|w: int|
                                0 <= w < allm.take(j as int).len() && (#[trigger] allm.take(
                                    j as int,
                                )[w]).port == out@[i2].0;
                            assert(allm.take(j + 1 as int)[w].port == out@[i2].0);
                        } else {
                            assert(out@[i2] == (p, 1u64));
                            assert(port_count(allm.take(j + 1 as int), p) == port_count(
                                allm.take(j as int),
                                p,
                            ) + 1);
                            assert(allm.take(j + 1 as int)[j as int].port == p);
                        }
                    }
                    assert forall|p2: u16|
                        #[trigger] port_appears(allm.take(j + 1 as int), p2) implies exists|
                        i2: int,
                    |
                        0 <= i2 < out@.len() && (#[trigger] out@[i2]).0 == p2 by {
                        if p2 == p {
                            assert(out@[before.len() as int].0 == p2);
                        } else {
                            assert(port_appears(allm.take(j as int), p2)) by {
                                let w = choose|w: int|
                                    0 <= w < allm.take(j + 1 as int).len() && (#[trigger] allm.take(
                                        j + 1 as int,
                                    )[w]).port == p2;
                                assert(w < j);
                                assert(allm.take(j as int)[w].port == p2);
                            }
                            let i0 = choose|i2: int|
                                0 <= i2 < before.len() && (#[trigger] before[i2]).0 == p2;
                            assert(out@[i0].0 == p2);
                        }
                    }
                    assert forall|a: int, b: int|
                        0 <= a < b < out@.len() implies (#[trigger] out@[a]).0 != (
                    #[trigger] out@[b]).0 by {
                        assert(out@[a] == before[a]);
                        if b < before.len() {
                            assert(out@[b] == before[b]);
                        } else {
                            assert(out@[b].0 == p);
                            if out@[a].0 == p {
                                assert(port_appears(allm.take(j as int), p));
                            }
                        }
                    }
                }
            }
            j = j + 1;
        }
        proof {
            assert(allm.take(m as int) =~= allm);
        }
        out
    }

    /// The ports with the most open addresses: at most `limit` entries,
    /// each carrying its open-address count, in descending count order with
    /// ties broken by ascending port. Fewer than `limit` entries come back
    /// only when no further port has an open address, and no omitted port
    /// outranks a returned one.
    pub fn get_top_ports(&self, limit: usize) -> (r: Vec<(u16, u64)>)
        ensures
            r@.len() <= limit,
            forall|i: int|
                0 <= i < r@.len() ==> (#[trigger] r@[i]).1 == port_count(
                    details_model(self.detail_rows@),
                    r@[i].0,
                ) && port_appears(details_model(self.detail_rows@), r@[i].0),
            forall|i: int, j: int| 0 <= i < j < r@.len() ==> ranked_before(
                #[trigger] r@[i],
                #[trigger] r@[j],
            ),
            r@.len() < limit ==> forall|p: u16|
                port_appears(details_model(self.detail_rows@), p) ==> exists|i: int|
                    0 <= i < r@.len() && (#[trigger] r@[i]).0 == p,
            forall|p: u16|
                port_appears(details_model(self.detail_rows@), p) && (forall|i: int|
                    0 <= i < r@.len() ==> (#[trigger] r@[i]).0 != p) ==> r@.len() == limit && (
                r@.len() > 0 ==> !ranked_before(
                    (p, port_count(details_model(self.detail_rows@), p) as u64),
                    r@[r@.len() - 1],
                )),
    {
        let ghost allm = details_model(self.detail_rows@);
        let counts = self.count_ports();
        let n = counts.len();
        let mut sorted: Vec<(u16, u64)> = Vec::new();
        let mut k: usize = 0;
        while k < n
            invariant
                k <= n == counts@.len(),
                sorted@.len() == k,
                forall|a: int, b: int| 0 <= a < b < sorted@.len() ==> ranked_before(
                    #[trigger] sorted@[a],
                    #[trigger] sorted@[b],
                ),
                forall|y: (u16, u64)|
                    #[trigger] sorted@.contains(y) ==> exists|w: int|
                        0 <= w < k && counts@[w] == y,
                forall|a: int| 0 <= a < k ==> sorted@.contains(#[trigger] counts@[a]),
                forall|a: int, b: int| 0 <= a < b < counts@.len() ==> (#[trigger] counts@[a]).0
                    != (#[trigger] counts@[b]).0,
                forall|i: int|
                    0 <= i < counts@.len() ==> (#[trigger] counts@[i]).1 == port_count(
                        allm,
                        counts@[i].0,
                    ) && port_appears(allm, counts@[i].0),
                forall|p: u16|
                    port_appears(allm, p) ==> exists|i: int|
                        0 <= i < counts@.len() && (#[trigger] counts@[i]).0 == p,
            decreases n - k,
        {
            let x = counts[k];
            let ghost presorted = sorted@;
            proof {
                assert forall|i: int|
                    0 <= i < sorted@.len() implies (#[trigger] sorted@[i]).0 != x.0 by {
                    assert(sorted@.contains(sorted@[i]));
                    let w = choose|w: int| 0 <= w < k && #[trigger] counts@[w] == sorted@[i];
                    assert(counts@[w].0 != counts@[k as int].0);
                }
            }
            insert_ranked(&mut sorted, x);
            proof {
                assert forall|a: int|
                    0 <= a < k + 1 implies sorted@.contains(#[trigger] counts@[a]) by {
                    if a < k {
                        assert(presorted.contains(counts@[a]));
                    } else {
                        assert(sorted@.contains(x));
                    }
                }
                assert forall|y: (u16, u64)|
                    #[trigger] sorted@.contains(y) implies exists|w: int|
                    0 <= w < k + 1 && counts@[w] == y by {
                    if presorted.contains(y) {
                        let w = choose|w: int| 0 <= w < k && #[trigger] counts@[w] == y;
                        assert(counts@[w] == y);
                    } else {
                        assert(y == x);
                        assert(counts@[k as int] == y);
                    }
                }
            }
            k = k + 1;
        }
        let mut out = sorted;
        let ghost full = out@;
        if out.len() > limit {
            out.truncate(limit);
            proof {
                assert(out@ =~= full.take(limit as int));
            }
        }
        proof {
            assert forall|i: int|
                0 <= i < out@.len() implies ((#[trigger] out@[i]).1 == port_count(allm, out@[i].0)
                && port_appears(allm, out@[i].0)) by {
                assert(out@[i] == full[i]);
                assert(full.contains(full[i]));
                let w = choose|w: int| 0 <= w < counts@.len() && #[trigger] counts@[w] == full[i];
                assert(counts@[w] == full[i]);
            }
            assert forall|i: int, j2: int|
                0 <= i < j2 < out@.len() implies ranked_before(
                #[trigger] out@[i],
                #[trigger] out@[j2],
            ) by {
                assert(out@[i] == full[i] && out@[j2] == full[j2]);
            }
            if out@.len() < limit {
                assert(out@ == full);
                assert forall|p: u16|
                    port_appears(allm, p) implies exists|i: int|
                    0 <= i < out@.len() && (#[trigger] out@[i]).0 == p by {
                    let w = choose|w: int|
                        0 <= w < counts@.len() && (#[trigger] counts@[w]).0 == p;
                    assert(full.contains(counts@[w]));
                    let k2 = choose|k2: int| 0 <= k2 < full.len() && full[k2] == counts@[w];
                    assert(out@[k2].0 == p);
                }
            }
            assert forall|p: u16|
                port_appears(allm, p) && (forall|i: int|
                    0 <= i < out@.len() ==> (#[trigger] out@[i]).0 != p) implies out@.len() == limit
                && (out@.len() > 0 ==> !ranked_before(
                (p, port_count(allm, p) as u64),
                out@[out@.len() - 1],
            )) by {
                let w = choose|w: int| 0 <= w < counts@.len() && (#[trigger] counts@[w]).0 == p;
                let e = counts@[w];
                assert(full.contains(e));
                let idx = choose|k2: int| 0 <= k2 < full.len() && full[k2] == e;
                assert(idx >= out@.len()) by {
                    if idx < out@.len() {
                        assert(out@[idx] == full[idx]);
                    }
                }
                assert(out@.len() == limit) by {
                    if full.len() <= limit {
                        assert(out@ == full);
                    }
                }
                if out@.len() > 0 {
                    assert(out@[out@.len() - 1] == full[limit - 1]);
                    assert(ranked_before(full[limit - 1], full[idx]));
                    assert(e.1 == port_count(allm, p));
                    assert((p, port_count(allm, p) as u64) == e);
                }
            }
        }
        out
    }
}

/// The entry records a bitmap row among the first `j` with this round and
/// the IPv4 family.
pub open spec fn round_entry_src(
    brows: Seq<PortBitmapRow>,
    e: (u16, u64),
    j: int,
    round: i64,
) -> bool {
    exists|a: int|
        0 <= a < j && (#[trigger] brows[a]).port == e.0 && brows[a].ip_type == IpType::V4
            && brows[a].scan_round == round && brows[a].open_count == e.1
}

/// Some bitmap row among the first `j` carries this round, port and the
/// IPv4 family.
pub open spec fn round_port_at(brows: Seq<PortBitmapRow>, p: u16, j: int, round: i64) -> bool {
    exists|a: int|
        0 <= a < j && (#[trigger] brows[a]).port == p && brows[a].ip_type == IpType::V4 && brows[
        a].scan_round == round
}

impl ScanStore {
    /// The per-port open counts of one round's IPv4 bitmap rows, in
    /// descending count order with ties broken by ascending port: each
    /// entry is the cached count of that port's row, and every port with a
    /// row in the round appears exactly once.
    pub fn get_stats_by_port(&self, round: i64) -> (r: Vec<(u16, u64)>)
        requires
            self.wf(),
        ensures
            forall|i: int|
                0 <= i < r@.len() ==> has_brow(
                    self.bitmap_rows@,
                    (#[trigger] r@[i]).0,
                    IpType::V4,
                    round,
                ) && r@[i].1 == brow(self.bitmap_rows@, r@[i].0, IpType::V4, round).open_count,
            forall|i: int, j: int| 0 <= i < j < r@.len() ==> ranked_before(
                #[trigger] r@[i],
                #[trigger] r@[j],
            ),
            forall|p: u16|
                #[trigger] has_brow(self.bitmap_rows@, p, IpType::V4, round) ==> exists|i: int|
                    0 <= i < r@.len() && (#[trigger] r@[i]).0 == p,
    {
        let m = self.bitmap_rows.len();
        let mut out: Vec<(u16, u64)> = Vec::new();
        let mut j: usize = 0;
        while j < m
            invariant
                j <= m == self.bitmap_rows@.len(),
                self.wf(),
                forall|a: int, b: int| 0 <= a < b < out@.len() ==> ranked_before(
                    #[trigger] out@[a],
                    #[trigger] out@[b],
                ),
                forall|i: int|
                    0 <= i < out@.len() ==> round_entry_src(
                        self.bitmap_rows@,
                        #[trigger] out@[i],
                        j as int,
                        round,
                    ),
                forall|p: u16|
                    #[trigger] round_port_at(self.bitmap_rows@, p, j as int, round) ==> exists|
                        i: int,
                    |
                        0 <= i < out@.len() && (#[trigger] out@[i]).0 == p,
            decreases m - j,
        {
            let row = &self.bitmap_rows[j];
            let ghost brows = self.bitmap_rows@;
            let ghost before = out@;
            if matches!(row.ip_type, IpType::V4) && row.scan_round == round {
                proof {
                    // The key (port, IPv4, round) is unique, so this port is
                    // not yet in the result.
                    assert forall|i: int|
                        0 <= i < out@.len() implies (#[trigger] out@[i]).0 != row.port by {
                        assert(round_entry_src(brows, out@[i], j as int, round));
                        let a = choose|a: int|
                            0 <= a < j && (#[trigger] brows[a]).port == out@[i].0 && brows[
                            a].ip_type == IpType::V4 && brows[a].scan_round == round && brows[
                            a].open_count == out@[i].1;
                        if out@[i].0 == row.port {
                            assert(!(brows[a].port == brows[j as int].port && brows[a].ip_type
                                == brows[j as int].ip_type && brows[a].scan_round == brows[
                            j as int].scan_round));
                        }
                    }
                }
                insert_ranked(&mut out, (row.port, row.open_count));
                proof {
                    assert forall|i: int|
                        0 <= i < out@.len() implies round_entry_src(
                        brows,
                        #[trigger] out@[i],
                        j + 1 as int,
                        round,
                    ) by {
                        assert(out@.contains(out@[i]));
                        if before.contains(out@[i]) {
                            let i0 = choose|i0: int|
                                0 <= i0 < before.len() && before[i0] == out@[i];
                            assert(round_entry_src(brows, before[i0], j as int, round));
                            let a = choose|a: int|
                                0 <= a < j && (#[trigger] brows[a]).port == before[i0].0 && brows[
                                a].ip_type == IpType::V4 && brows[a].scan_round == round && brows[
                                a].open_count == before[i0].1;
                            assert(brows[a].port == out@[i].0 && brows[a].open_count == out@[
                            i].1);
                        } else {
                            assert(out@[i] == (row.port, row.open_count));
                            assert(brows[j as int].port == out@[i].0 && brows[j as int].ip_type
                                == IpType::V4 && brows[j as int].scan_round == round && brows[
                            j as int].open_count == out@[i].1);
                        }
                    }
                    assert forall|p: u16|
                        #[trigger] round_port_at(brows, p, j + 1 as int, round) implies exists|
                        i: int,
                    |
                        0 <= i < out@.len() && (#[trigger] out@[i]).0 == p by {
                        let a = choose|a: int|
                            0 <= a < j + 1 && (#[trigger] brows[a]).port == p && brows[a].ip_type
                                == IpType::V4 && brows[a].scan_round == round;
                        if a < j {
                            assert(round_port_at(brows, p, j as int, round));
                            let i0 = choose|i0: int|
                                0 <= i0 < before.len() && (#[trigger] before[i0]).0 == p;
                            assert(out@.contains(before[i0]));
                            let i1 = choose|i1: int| 0 <= i1 < out@.len() && out@[i1] == before[i0];
                            assert(out@[i1].0 == p);
                        } else {
                            assert(p == row.port);
                            assert(out@.contains((row.port, row.open_count)));
                            let i1 = choose|i1: int|
                                0 <= i1 < out@.len() && out@[i1] == (row.port, row.open_count);
                            assert(out@[i1].0 == p);
                        }
                    }
                }
            } else {
                proof {
                    assert forall|p: u16|
                        #[trigger] round_port_at(brows, p, j + 1 as int, round) implies exists|
                        i: int,
                    |
                        0 <= i < out@.len() && (#[trigger] out@[i]).0 == p by {
                        let a = choose|a: int|
                            0 <= a < j + 1 && (#[trigger] brows[a]).port == p && brows[a].ip_type
                                == IpType::V4 && brows[a].scan_round == round;
                        assert(a < j);
                        assert(round_port_at(brows, p, j as int, round));
                    }
                }
            }
            j = j + 1;
        }
        proof {
            assert forall|i: int|
                0 <= i < out@.len() implies has_brow(
                self.bitmap_rows@,
                (#[trigger] out@[i]).0,
                IpType::V4,
                round,
            ) && out@[i].1 == brow(self.bitmap_rows@, out@[i].0, IpType::V4, round).open_count by {
                assert(round_entry_src(self.bitmap_rows@, out@[i], j as int, round));
                let a = choose|a: int|
                    0 <= a < j && (#[trigger] self.bitmap_rows@[a]).port == out@[i].0
                        && self.bitmap_rows@[a].ip_type == IpType::V4 && self.bitmap_rows@[
                    a].scan_round == round && self.bitmap_rows@[a].open_count == out@[i].1;
                crate::store::lemma_brow_pin(self.bitmap_rows@, a, out@[i].0, IpType::V4, round);
            }
            assert forall|p: u16|
                #[trigger] has_brow(self.bitmap_rows@, p, IpType::V4, round) implies exists|i: int|
                0 <= i < out@.len() && (#[trigger] out@[i]).0 == p by {
                let a = choose|a: int|
                    0 <= a < self.bitmap_rows@.len() && (#[trigger] self.bitmap_rows@[a]).port == p
                        && self.bitmap_rows@[a].ip_type == IpType::V4 && self.bitmap_rows@[
                    a].scan_round == round;
                assert(round_port_at(self.bitmap_rows@, p, j as int, round));
            }
        }
        out
    }
}

/// One line of the scan history: the derived per-round view of the bitmap
/// rows.
#[derive(PartialEq, Eq, Structural, Clone, Copy, Debug)]
pub struct ScanHistoryRecord {
    pub round: i64,
    pub start_time: i64,
    pub end_time: i64,
    pub total_open_ports: u64,
    pub ports_scanned: usize,
}

/// Some bitmap row carries this round.
pub open spec fn round_present(brows: Seq<PortBitmapRow>, r: i64) -> bool {
    exists|i: int| 0 <= i < brows.len() && (#[trigger] brows[i]).scan_round == r
}

/// Some bitmap row carries this round and port.
pub open spec fn port_in_round(brows: Seq<PortBitmapRow>, r: i64, p: u16) -> bool {
    exists|i: int|
        0 <= i < brows.len() && (#[trigger] brows[i]).scan_round == r && brows[i].port == p
}

/// Earliest write time among the round's rows.
pub open spec fn round_min(brows: Seq<PortBitmapRow>, r: i64) -> int
    decreases brows.len(),
{
    if brows.len() == 0 {
        0
    } else if brows.last().scan_round == r {
        if round_present(brows.drop_last(), r) && round_min(brows.drop_last(), r)
            <= brows.last().last_updated {
            round_min(brows.drop_last(), r)
        } else {
            brows.last().last_updated as int
        }
    } else {
        round_min(brows.drop_last(), r)
    }
}

/// Latest write time among the round's rows.
pub open spec fn round_max(brows: Seq<PortBitmapRow>, r: i64) -> int
    decreases brows.len(),
{
    if brows.len() == 0 {
        0
    } else if brows.last().scan_round == r {
        if round_present(brows.drop_last(), r) && round_max(brows.drop_last(), r)
            >= brows.last().last_updated {
            round_max(brows.drop_last(), r)
        } else {
            brows.last().last_updated as int
        }
    } else {
        round_max(brows.drop_last(), r)
    }
}

/// Sum of the cached open counts of the round's rows.
pub open spec fn round_total(brows: Seq<PortBitmapRow>, r: i64) -> int
    decreases brows.len(),
{
    if brows.len() == 0 {
        0
    } else {
        round_total(brows.drop_last(), r) + if brows.last().scan_round == r {
            brows.last().open_count as int
        } else {
            0int
        }
    }
}

/// Number of distinct ports among the round's rows.
pub open spec fn round_ports(brows: Seq<PortBitmapRow>, r: i64) -> int
    decreases brows.len(),
{
    if brows.len() == 0 {
        0
    } else {
        round_ports(brows.drop_last(), r) + if brows.last().scan_round == r && !port_in_round(
            brows.drop_last(),
            r,
            brows.last().port,
        ) {
            1int
        } else {
            0int
        }
    }
}

/// A round no row carries sums to nothing and holds no port.
proof fn lemma_absent_round(brows: Seq<PortBitmapRow>, r: i64)
    requires
        !round_present(brows, r),
    ensures
        round_total(brows, r) == 0,
        round_ports(brows, r) == 0,
    decreases brows.len(),
{
    if brows.len() > 0 {
        assert(!round_present(brows.drop_last(), r)) by {
            if round_present(brows.drop_last(), r) {
                let w = choose|i: int|
                    0 <= i < brows.drop_last().len() && (#[trigger] brows.drop_last()[
                    i]).scan_round == r;
                assert(brows[w].scan_round == r);
            }
        }
        lemma_absent_round(brows.drop_last(), r);
        assert(brows.last().scan_round != r) by {
            if brows.last().scan_round == r {
                assert(brows[brows.len() - 1].scan_round == r);
            }
        }
    }
}

/// The record fields agree with the per-round view of the first `j` rows.
pub open spec fn record_matches(
    brows: Seq<PortBitmapRow>,
    rec: ScanHistoryRecord,
    j: int,
) -> bool {
    &&& round_present(brows.take(j), rec.round)
    &&& rec.start_time == round_min(brows.take(j), rec.round)
    &&& rec.end_time == round_max(brows.take(j), rec.round)
    &&& rec.total_open_ports == if round_total(brows.take(j), rec.round) <= u64::MAX {
        round_total(brows.take(j), rec.round)
    } else {
        u64::MAX as int
    }
    &&& rec.ports_scanned == round_ports(brows.take(j), rec.round)
}

/// First position whose record has a smaller round, in a
/// descending-by-round vector of distinct rounds.
fn find_round_pos(v: &Vec<ScanHistoryRecord>, x: ScanHistoryRecord) -> (r: usize)
    requires
        forall|i: int, j: int| 0 <= i < j < v@.len() ==> (#[trigger] v@[i]).round > (
        #[trigger] v@[j]).round,
        forall|i: int| 0 <= i < v@.len() ==> (#[trigger] v@[i]).round != x.round,
    ensures
        r <= v@.len(),
        forall|k: int| 0 <= k < r ==> (#[trigger] v@[k]).round > x.round,
        forall|k: int| r <= k < v@.len() ==> (#[trigger] v@[k]).round < x.round,
{
    let n = v.len();
    let mut i: usize = 0;
    while i < n
        invariant
            i <= n == v@.len(),
            forall|a: int, b: int| 0 <= a < b < v@.len() ==> (#[trigger] v@[a]).round > (
            #[trigger] v@[b]).round,
            forall|a: int| 0 <= a < v@.len() ==> (#[trigger] v@[a]).round != x.round,
            forall|k: int| 0 <= k < i ==> (#[trigger] v@[k]).round > x.round,
        decreases n - i,
    {
        if v[i].round < x.round {
            proof {
                assert forall|k: int|
                    i <= k < v@.len() implies (#[trigger] v@[k]).round < x.round by {
                    if k > i {
                        assert(v@[i as int].round > v@[k].round);
                    }
                }
            }
            return i;
        }
        i = i + 1;
    }
    n
}

/// Insert a record with a fresh round into a descending-by-round vector.
fn insert_round(v: &mut Vec<ScanHistoryRecord>, x: ScanHistoryRecord)
    requires
        forall|i: int, j: int| 0 <= i < j < old(v)@.len() ==> (#[trigger] old(v)@[i]).round > (
        #[trigger] old(v)@[j]).round,
        forall|i: int| 0 <= i < old(v)@.len() ==> (#[trigger] old(v)@[i]).round != x.round,
    ensures
        forall|i: int, j: int| 0 <= i < j < final(v)@.len() ==> (#[trigger] final(v)@[i]).round > (
        #[trigger] final(v)@[j]).round,
        final(v)@.len() == old(v)@.len() + 1,
        final(v)@.contains(x),
        forall|y: ScanHistoryRecord| old(v)@.contains(y) ==> final(v)@.contains(y),
        forall|y: ScanHistoryRecord| final(v)@.contains(y) ==> old(v)@.contains(y) || y == x,
{
    let i = find_round_pos(v, x);
    let ghost olds = v@;
    v.insert(i, x);
    proof {
        assert(v@ =~= olds.insert(i as int, x));
        assert forall|a: int, b: int| 0 <= a < b < v@.len() implies (#[trigger] v@[a]).round > (
        #[trigger] v@[b]).round by {
            if a < i {
                assert(v@[a] == olds[a]);
            } else if a > i {
                assert(v@[a] == olds[a - 1]);
            }
            if b < i {
                assert(v@[b] == olds[b]);
            } else if b > i {
                assert(v@[b] == olds[b - 1]);
            }
        }
        assert(v@[i as int] == x);
        assert forall|y: ScanHistoryRecord| olds.contains(y) implies v@.contains(y) by {
            let k = choose|k: int| 0 <= k < olds.len() && olds[k] == y;
            if k < i {
                assert(v@[k] == y);
            } else {
                assert(v@[k + 1] == y);
            }
        }
        assert forall|y: ScanHistoryRecord| v@.contains(y) implies olds.contains(y) || y == x by {
            let k = choose|k: int| 0 <= k < v@.len() && v@[k] == y;
            if k < i {
                assert(olds[k] == y);
            } else if k > i {
                assert(olds[k - 1] == y);
            }
        }
    }
}

/// Round sums and port counts are never negative.
proof fn lemma_round_nonneg(brows: Seq<PortBitmapRow>, r: i64)
    ensures
        round_total(brows, r) >= 0,
        round_ports(brows, r) >= 0,
    decreases brows.len(),
{
    if brows.len() > 0 {
        lemma_round_nonneg(brows.drop_last(), r);
    }
}

impl ScanStore {
    /// The scan history: one record per round that has a bitmap row, newest
    /// round first, at most `limit` records. Each record carries the
    /// earliest and latest write time of the round, the sum of its cached
    /// open counts (saturating), and its number of distinct ports. Fewer
    /// than `limit` records come back only when no further round exists,
    /// and every omitted round is older than the returned ones.
    #[verifier::rlimit(100)]
    #[verifier::spinoff_prover]
    pub fn get_scan_history(&self, limit: usize) -> (r: Vec<ScanHistoryRecord>)
        requires
            self.wf(),
        ensures
            r@.len() <= limit,
            forall|i: int, j: int| 0 <= i < j < r@.len() ==> (#[trigger] r@[i]).round > (
            #[trigger] r@[j]).round,
            forall|i: int|
                0 <= i < r@.len() ==> record_matches(
                    self.bitmap_rows@,
                    #[trigger] r@[i],
                    self.bitmap_rows@.len() as int,
                ),
            r@.len() < limit ==> forall|r2: i64|
                #[trigger] round_present(self.bitmap_rows@, r2) ==> exists|i: int|
                    0 <= i < r@.len() && (#[trigger] r@[i]).round == r2,
            forall|r2: i64|
                #[trigger] round_present(self.bitmap_rows@, r2) && (forall|i: int|
                    0 <= i < r@.len() ==> (#[trigger] r@[i]).round != r2) ==> r@.len() == limit && (
                r@.len() > 0 ==> r2 < r@[r@.len() - 1].round),
    {
        let ghost brows = self.bitmap_rows@;
        let m = self.bitmap_rows.len();
        let mut recs: Vec<ScanHistoryRecord> = Vec::new();
        let mut j: usize = 0;
        proof {
            assert(brows.take(0) =~= Seq::<PortBitmapRow>::empty());
        }
        while j < m
            invariant
                j <= m == self.bitmap_rows@.len(),
                brows == self.bitmap_rows@,
                self.wf(),
                forall|a: int, b: int| 0 <= a < b < recs@.len() ==> (#[trigger] recs@[a]).round
                    != (#[trigger] recs@[b]).round,
                forall|i: int|
                    0 <= i < recs@.len() ==> record_matches(brows, #[trigger] recs@[i], j as int),
                forall|r2: i64|
                    #[trigger] round_present(brows.take(j as int), r2) ==> exists|i: int|
                        0 <= i < recs@.len() && (#[trigger] recs@[i]).round == r2,
                forall|i: int| 0 <= i < recs@.len() ==> (#[trigger] recs@[i]).ports_scanned <= j,
            decreases m - j,
        {
            let row_round = self.bitmap_rows[j].scan_round;
            let row_port = self.bitmap_rows[j].port;
            let lu = self.bitmap_rows[j].last_updated;
            let c = self.bitmap_rows[j].open_count;
            let ghost take0 = brows.take(j as int);
            let ghost take1 = brows.take(j + 1 as int);
            proof {
                assert(take1.drop_last() =~= take0);
                assert(take1.last() == brows[j as int]);
            }
            let n = recs.len();
            let mut found = n;
            let mut i: usize = 0;
            while i < n
                invariant
                    i <= n == recs@.len(),
                    found <= n,
                    found == n ==> forall|k: int|
                        0 <= k < i ==> (#[trigger] recs@[k]).round != row_round,
                    found < n ==> found < i && recs@[found as int].round == row_round,
                decreases n - i,
            {
                if recs[i].round == row_round {
                    found = i;
                    i = n;
                } else {
                    i = i + 1;
                }
            }
            let ghost before = recs@;
            if found < n {
                let mut seen = false;
                let mut k: usize = 0;
                while k < j
                    invariant
                        k <= j <= self.bitmap_rows@.len(),
                        brows == self.bitmap_rows@,
                        seen == exists|a: int|
                            0 <= a < k && (#[trigger] brows[a]).scan_round == row_round && brows[
                            a].port == row_port,
                    decreases j - k,
                {
                    let rowk = &self.bitmap_rows[k];
                    if rowk.scan_round == row_round && rowk.port == row_port {
                        seen = true;
                    }
                    k = k + 1;
                }
                proof {
                    assert(seen == port_in_round(take0, row_round, row_port)) by {
                        if seen {
                            let a = choose|a: int|
                                0 <= a < j && (#[trigger] brows[a]).scan_round == row_round
                                    && brows[a].port == row_port;
                            assert(take0[a].scan_round == row_round && take0[a].port == row_port);
                        } else {
                            if port_in_round(take0, row_round, row_port) {
                                let a = choose|a: int|
                                    0 <= a < take0.len() && (#[trigger] take0[a]).scan_round
                                        == row_round && take0[a].port == row_port;
                                assert(brows[a].scan_round == row_round && brows[a].port
                                    == row_port);
                            }
                        }
                    }
                    lemma_round_nonneg(take0, row_round);
                }
                let old_rec = recs[found];
                let new_start = if lu < old_rec.start_time {
                    lu
                } else {
                    old_rec.start_time
                };
                let new_end = if lu > old_rec.end_time {
                    lu
                } else {
                    old_rec.end_time
                };
                let new_total = if old_rec.total_open_ports > u64::MAX - c {
                    u64::MAX
                } else {
                    old_rec.total_open_ports + c
                };
                let new_ports = if seen {
                    old_rec.ports_scanned
                } else {
                    old_rec.ports_scanned + 1
                };
                recs.set(
                    found,
                    ScanHistoryRecord {
                        round: row_round,
                        start_time: new_start,
                        end_time: new_end,
                        total_open_ports: new_total,
                        ports_scanned: new_ports,
                    },
                );
                proof {
                    assert forall|i2: int|
                        0 <= i2 < recs@.len() implies record_matches(
                        brows,
                        #[trigger] recs@[i2],
                        j + 1 as int,
                    ) by {
                        if i2 != found {
                            assert(recs@[i2] == before[i2]);
                            assert(record_matches(brows, before[i2], j as int));
                            let q = before[i2].round;
                            assert(q != row_round) by {
                                if i2 < found {
                                    assert(before[i2].round != before[found as int].round);
                                } else {
                                    assert(before[found as int].round != before[i2].round);
                                }
                            }
                            assert(round_present(take1, q)) by {
                                let w = choose|w: int|
                                    0 <= w < take0.len() && (#[trigger] take0[w]).scan_round == q;
                                assert(take1[w].scan_round == q);
                            }
                            assert(round_min(take1, q) == round_min(take0, q));
                            assert(round_max(take1, q) == round_max(take0, q));
                            assert(round_total(take1, q) == round_total(take0, q));
                            assert(round_ports(take1, q) == round_ports(take0, q)) by {
                                assert(take1.last().scan_round != q);
                            }
                        } else {
                            assert(record_matches(brows, before[i2], j as int));
                            assert(round_present(take1, row_round)) by {
                                assert(take1[j as int].scan_round == row_round);
                            }
                            assert(round_min(take1, row_round) == new_start);
                            assert(round_max(take1, row_round) == new_end);
                            assert(round_total(take1, row_round) == round_total(take0, row_round)
                                + c);
                            assert(recs@[i2].total_open_ports == if round_total(take1, row_round)
                                <= u64::MAX {
                                round_total(take1, row_round)
                            } else {
                                u64::MAX as int
                            });
                            assert(round_ports(take1, row_round) == round_ports(take0, row_round)
                                + if port_in_round(take0, row_round, row_port) {
                                0int
                            } else {
                                1int
                            });
                        }
                    }
                    assert forall|r2: i64|
                        #[trigger] round_present(take1, r2) implies exists|i2: int|
                        0 <= i2 < recs@.len() && (#[trigger] recs@[i2]).round == r2 by {
                        let w = choose|w: int|
                            0 <= w < take1.len() && (#[trigger] take1[w]).scan_round == r2;
                        if w < j {
                            assert(take0[w].scan_round == r2);
                            assert(round_present(take0, r2));
                            let i0 = choose|i2: int|
                                0 <= i2 < before.len() && (#[trigger] before[i2]).round == r2;
                            if i0 == found {
                                assert(recs@[i0].round == r2);
                            } else {
                                assert(recs@[i0] == before[i0]);
                            }
                        } else {
                            assert(r2 == row_round);
                            assert(recs@[found as int].round == r2);
                        }
                    }
                    assert forall|a: int, b: int|
                        0 <= a < b < recs@.len() implies (#[trigger] recs@[a]).round != (
                    #[trigger] recs@[b]).round by {
                        assert(recs@[a].round == before[a].round);
                        assert(recs@[b].round == before[b].round);
                    }
                }
            } else {
                proof {
                    assert(!round_present(take0, row_round)) by {
                        if round_present(take0, row_round) {
                            let i0 = choose|i2: int|
                                0 <= i2 < recs@.len() && (#[trigger] recs@[i2]).round == row_round;
                            assert(recs@[i0].round != row_round);
                        }
                    }
                    lemma_absent_round(take0, row_round);
                }
                recs.push(
                    ScanHistoryRecord {
                        round: row_round,
                        start_time: lu,
                        end_time: lu,
                        total_open_ports: c,
                        ports_scanned: 1,
                    },
                );
                proof {
                    assert forall|i2: int|
                        0 <= i2 < recs@.len() implies record_matches(
                        brows,
                        #[trigger] recs@[i2],
                        j + 1 as int,
                    ) by {
                        if i2 < before.len() {
                            assert(recs@[i2] == before[i2]);
                            assert(record_matches(brows, before[i2], j as int));
                            let q = before[i2].round;
                            assert(q != row_round);
                            assert(round_present(take1, q)) by {
                                let w = choose|w: int|
                                    0 <= w < take0.len() && (#[trigger] take0[w]).scan_round == q;
                                assert(take1[w].scan_round == q);
                            }
                            assert(round_min(take1, q) == round_min(take0, q));
                            assert(round_max(take1, q) == round_max(take0, q));
                            assert(round_total(take1, q) == round_total(take0, q));
                            assert(round_ports(take1, q) == round_ports(take0, q)) by {
                                assert(take1.last().scan_round != q);
                            }
                        } else {
                            assert(recs@[i2] == ScanHistoryRecord {
                                round: row_round,
                                start_time: lu,
                                end_time: lu,
                                total_open_ports: c,
                                ports_scanned: 1,
                            });
                            assert(round_present(take1, row_round)) by {
                                assert(take1[j as int].scan_round == row_round);
                            }
                            assert(!port_in_round(take0, row_round, row_port)) by {
                                if port_in_round(take0, row_round, row_port) {
                                    let a = choose|a: int|
                                        0 <= a < take0.len() && (#[trigger] take0[a]).scan_round
                                            == row_round && take0[a].port == row_port;
                                    assert(round_present(take0, row_round));
                                }
                            }
                            assert(round_min(take1, row_round) == lu);
                            assert(round_max(take1, row_round) == lu);
                            assert(round_total(take1, row_round) == c);
                            assert(round_ports(take1, row_round) == 1);
                        }
                    }
                    assert forall|r2: i64|
                        #[trigger] round_present(take1, r2) implies exists|i2: int|
                        0 <= i2 < recs@.len() && (#[trigger] recs@[i2]).round == r2 by {
                        let w = choose|w: int|
                            0 <= w < take1.len() && (#[trigger] take1[w]).scan_round == r2;
                        if w < j {
                            assert(take0[w].scan_round == r2);
                            assert(round_present(take0, r2));
                            let i0 = choose|i2: int|
                                0 <= i2 < before.len() && (#[trigger] before[i2]).round == r2;
                            assert(recs@[i0] == before[i0]);
                        } else {
                            assert(r2 == row_round);
                            assert(recs@[before.len() as int].round == r2);
                        }
                    }
                    assert forall|a: int, b: int|
                        0 <= a < b < recs@.len() implies (#[trigger] recs@[a]).round != (
                    #[trigger] recs@[b]).round by {
                        assert(recs@[a] == before[a]);
                        if b < before.len() {
                            assert(recs@[b] == before[b]);
                        } else {
                            assert(recs@[b].round == row_round);
                        }
                    }
                }
            }
            j = j + 1;
        }
        proof {
            assert(brows.take(m as int) =~= brows);
        }
        // Order by round, newest first.
        let nrecs = recs.len();
        let mut sorted: Vec<ScanHistoryRecord> = Vec::new();
        let mut k2: usize = 0;
        while k2 < nrecs
            invariant
                k2 <= nrecs == recs@.len(),
                sorted@.len() == k2,
                brows == self.bitmap_rows@,
                forall|a: int, b: int| 0 <= a < b < sorted@.len() ==> (#[trigger] sorted@[a]).round
                    > (#[trigger] sorted@[b]).round,
                forall|y: ScanHistoryRecord|
                    #[trigger] sorted@.contains(y) ==> exists|w: int| 0 <= w < k2 && recs@[w] == y,
                forall|a: int| 0 <= a < k2 ==> sorted@.contains(#[trigger] recs@[a]),
                forall|a: int, b: int| 0 <= a < b < recs@.len() ==> (#[trigger] recs@[a]).round
                    != (#[trigger] recs@[b]).round,
                forall|i: int|
                    0 <= i < recs@.len() ==> record_matches(brows, #[trigger] recs@[i], m as int),
                forall|r2: i64|
                    #[trigger] round_present(brows, r2) ==> exists|i: int|
                        0 <= i < recs@.len() && (#[trigger] recs@[i]).round == r2,
            decreases nrecs - k2,
        {
            let x = recs[k2];
            let ghost presorted = sorted@;
            proof {
                assert forall|i: int|
                    0 <= i < sorted@.len() implies (#[trigger] sorted@[i]).round != x.round by {
                    assert(sorted@.contains(sorted@[i]));
                    let w = choose|w: int| 0 <= w < k2 && #[trigger] recs@[w] == sorted@[i];
                    assert(recs@[w].round != recs@[k2 as int].round);
                }
            }
            insert_round(&mut sorted, x);
            proof {
                assert forall|a: int|
                    0 <= a < k2 + 1 implies sorted@.contains(#[trigger] recs@[a]) by {
                    if a < k2 {
                        assert(presorted.contains(recs@[a]));
                    } else {
                        assert(sorted@.contains(x));
                    }
                }
                assert forall|y: ScanHistoryRecord|
                    #[trigger] sorted@.contains(y) implies exists|w: int|
                    0 <= w < k2 + 1 && recs@[w] == y by {
                    if presorted.contains(y) {
                        let w = choose|w: int| 0 <= w < k2 && #[trigger] recs@[w] == y;
                        assert(recs@[w] == y);
                    } else {
                        assert(y == x);
                        assert(recs@[k2 as int] == y);
                    }
                }
            }
            k2 = k2 + 1;
        }
        let mut out = sorted;
        let ghost full = out@;
        if out.len() > limit {
            out.truncate(limit);
            proof {
                assert(out@ =~= full.take(limit as int));
            }
        }
        proof {
            assert forall|i: int|
                0 <= i < out@.len() implies record_matches(brows, #[trigger] out@[i], m as int) by {
                assert(out@[i] == full[i]);
                assert(full.contains(full[i]));
                let w = choose|w: int| 0 <= w < recs@.len() && #[trigger] recs@[w] == full[i];
                assert(recs@[w] == full[i]);
            }
            assert forall|i: int, j2: int|
                0 <= i < j2 < out@.len() implies (#[trigger] out@[i]).round > (
            #[trigger] out@[j2]).round by {
                assert(out@[i] == full[i] && out@[j2] == full[j2]);
            }
            if out@.len() < limit {
                assert(out@ == full);
                assert forall|r2: i64|
                    #[trigger] round_present(brows, r2) implies exists|i: int|
                    0 <= i < out@.len() && (#[trigger] out@[i]).round == r2 by {
                    let w = choose|w: int|
                        0 <= w < recs@.len() && (#[trigger] recs@[w]).round == r2;
                    assert(full.contains(recs@[w]));
                    let k3 = choose|k3: int| 0 <= k3 < full.len() && full[k3] == recs@[w];
                    assert(out@[k3].round == r2);
                }
            }
            assert forall|r2: i64|
                #[trigger] round_present(brows, r2) && (forall|i: int|
                    0 <= i < out@.len() ==> (#[trigger] out@[i]).round != r2) implies out@.len()
                == limit && (out@.len() > 0 ==> r2 < out@[out@.len() - 1].round) by {
                let w = choose|w: int| 0 <= w < recs@.len() && (#[trigger] recs@[w]).round == r2;
                let e = recs@[w];
                assert(full.contains(e));
                let idx = choose|k3: int| 0 <= k3 < full.len() && full[k3] == e;
                assert(idx >= out@.len()) by {
                    if idx < out@.len() {
                        assert(out@[idx] == full[idx]);
                    }
                }
                assert(out@.len() == limit) by {
                    if full.len() <= limit {
                        assert(out@ == full);
                    }
                }
                if out@.len() > 0 {
                    assert(out@[out@.len() - 1] == full[limit - 1]);
                    assert(full[limit - 1].round > full[idx].round);
                }
            }
        }
        out
    }
}

} // verus!