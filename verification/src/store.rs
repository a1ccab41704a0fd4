//! The open-port store: per-port bitmap rows, open-port detail rows, scan
//! metadata, the resume cursor, the round counter, and geolocation rows.
//!
//! This is the in-memory model of the persistent store; persistence mirrors
//! these rows one to one. All recorded times come from a monotone clock:
//! the store never lets a recorded time move backwards, so `first_seen <=
//! last_seen` holds of every detail row and rounds and cursors only move
//! forward.

use vstd::prelude::*;
use crate::bitmap::{PortBitmap, popcount_segs, SEGMENT_SIZE};
use crate::ip::{ipv4_str, is_canon_ipv4};
use crate::geo::IpGeoInfo;
use crate::error::ScanError;

verus! {

/// Address family of a stored row.
#[derive(PartialEq, Eq, Structural, Clone, Copy, Debug)]
pub enum IpType {
    V4,
    V6,
}

/// One persisted bitmap row, keyed `(port, ip_type, scan_round)`.
pub struct PortBitmapRow {
    pub port: u16,
    pub ip_type: IpType,
    pub scan_round: i64,
    pub bitmap: PortBitmap,
    pub open_count: u64,
    pub last_updated: i64,
}

/// One open-port observation row, keyed `(ip_address, port)`.
pub struct ScanResultDetail {
    pub ip_address: String,
    pub ip_type: IpType,
    pub port: u16,
    pub scan_round: i64,
    pub first_seen: i64,
    pub last_seen: i64,
}

/// One metadata row, keyed by `key`.
pub struct MetaRow {
    pub key: String,
    pub value: String,
    pub updated_at: i64,
}

/// The persisted resume cursor.
pub struct ProgressCursor {
    pub last_ip: String,
    pub ip_type: IpType,
    pub last_round: i64,
}

/// One geolocation row, keyed by the address inside `info`.
pub struct GeoRow {
    pub info: IpGeoInfo,
    pub updated_at: i64,
}

/// Ghost shape of a detail row, over views, so that contracts can state
/// row transformations exactly.
pub ghost struct DetailModel {
    pub ip: Seq<char>,
    pub ip_type: IpType,
    pub port: u16,
    pub scan_round: i64,
    pub first_seen: i64,
    pub last_seen: i64,
}

impl ScanResultDetail {
    /// The mathematical shape of this row.
    pub open spec fn model(self) -> DetailModel {
        DetailModel {
            ip: self.ip_address@,
            ip_type: self.ip_type,
            port: self.port,
            scan_round: self.scan_round,
            first_seen: self.first_seen,
            last_seen: self.last_seen,
        }
    }
}

/// The shapes of a detail row list.
pub open spec fn details_model(rows: Seq<ScanResultDetail>) -> Seq<DetailModel> {
    rows.map_values(|r: ScanResultDetail| r.model())
}

/// The in-memory store.
pub struct ScanStore {
    pub bitmap_rows: Vec<PortBitmapRow>,
    pub detail_rows: Vec<ScanResultDetail>,
    pub metadata: Vec<MetaRow>,
    pub geo_rows: Vec<GeoRow>,
    pub progress: Option<ProgressCursor>,
    pub current_round: i64,
    pub clock: i64,
}

impl ScanStore {
    /// Structural invariant: keys are unique, every cached count equals the
    /// population count of its bitmap, every detail row's times are ordered
    /// and no recorded time is ahead of the clock.
    pub open spec fn wf(self) -> bool {
        &&& forall|i: int|
            0 <= i < self.bitmap_rows@.len() ==> {
                let r = #[trigger] self.bitmap_rows@[i];
                &&& r.bitmap.wf()
                &&& r.open_count == popcount_segs(r.bitmap.segs())
                &&& 0 <= r.last_updated <= self.clock
            }
        &&& forall|i: int, j: int|
            0 <= i < j < self.bitmap_rows@.len() ==> !(#[trigger] self.bitmap_rows@[i].port == (
            #[trigger] self.bitmap_rows@[j]).port && self.bitmap_rows@[i].ip_type
                == self.bitmap_rows@[j].ip_type && self.bitmap_rows@[i].scan_round
                == self.bitmap_rows@[j].scan_round)
        &&& forall|i: int|
            0 <= i < self.detail_rows@.len() ==> {
                let r = #[trigger] self.detail_rows@[i];
                &&& 0 <= r.first_seen <= r.last_seen <= self.clock
                &&& is_canon_ipv4(r.ip_address@)
            }
        &&& forall|i: int, j: int|
            0 <= i < j < self.detail_rows@.len() ==> !(#[trigger] self.detail_rows@[i].ip_address@
                == (#[trigger] self.detail_rows@[j]).ip_address@ && self.detail_rows@[i].port
                == self.detail_rows@[j].port)
        &&& forall|i: int, j: int|
            0 <= i < j < self.metadata@.len() ==> (#[trigger] self.metadata@[i].key@) != (
            #[trigger] self.metadata@[j]).key@
        &&& forall|i: int, j: int|
            0 <= i < j < self.geo_rows@.len() ==> (#[trigger] self.geo_rows@[i].info.ip@) != (
            #[trigger] self.geo_rows@[j]).info.ip@
        &&& self.clock >= 0
        &&& self.current_round >= 0
    }

    /// An empty store at round one.
    pub fn new() -> (r: ScanStore)
        ensures
            r.wf(),
            r.bitmap_rows@.len() == 0,
            r.detail_rows@.len() == 0,
            r.metadata@.len() == 0,
            r.geo_rows@.len() == 0,
            r.progress is None,
            r.current_round == 1,
            r.clock == 0,
    {
        ScanStore {
            bitmap_rows: Vec::new(),
            detail_rows: Vec::new(),
            metadata: Vec::new(),
            geo_rows: Vec::new(),
            progress: None,
            current_round: 1,
            clock: 0,
        }
    }

    /// The monotone timestamp an operation arriving at `now` records.
    pub open spec fn effective_time(self, now: i64) -> int {
        if now > self.clock {
            now as int
        } else {
            self.clock as int
        }
    }

    /// The stored value of a metadata key.
    pub open spec fn spec_metadata(self, key: Seq<char>) -> Option<Seq<char>> {
        lookup_meta(self.metadata@, key)
    }

    /// Write or overwrite one metadata key.
    pub fn save_metadata(&mut self, key: &String, value: &String, now: i64)
        requires
            old(self).wf(),
        ensures
            final(self).wf(),
            final(self).spec_metadata(key@) == Some::<Seq<char>>(value@),
            forall|k: Seq<char>|
                k != key@ ==> final(self).spec_metadata(k) == old(self).spec_metadata(k),
            final(self).clock == old(self).effective_time(now),
            final(self).bitmap_rows == old(self).bitmap_rows,
            final(self).detail_rows == old(self).detail_rows,
            final(self).geo_rows == old(self).geo_rows,
            final(self).progress == old(self).progress,
            final(self).current_round == old(self).current_round,
    {
        let t = if now > self.clock {
            now
        } else {
            self.clock
        };
        self.clock = t;
        let n = self.metadata.len();
        let mut i: usize = 0;
        while i < n
            invariant
                i <= n == self.metadata@.len(),
                forall|k: int| 0 <= k < i ==> (#[trigger] self.metadata@[k]).key@ != key@,
                self.metadata == old(self).metadata,
                self.bitmap_rows == old(self).bitmap_rows,
                self.detail_rows == old(self).detail_rows,
                self.geo_rows == old(self).geo_rows,
                self.progress == old(self).progress,
                self.current_round == old(self).current_round,
                self.clock == t,
                t == old(self).effective_time(now),
                old(self).wf(),
            decreases n - i,
        {
            if self.metadata[i].key == *key {
                let ghost olds = self.metadata@;
                let row = &mut self.metadata[i];
                row.value = value.clone();
                row.updated_at = t;
                proof {
                    assert(self.metadata@[i as int].key@ == key@);
                    assert forall|a: int, b: int|
                        0 <= a < b < self.metadata@.len() implies (
                    #[trigger] self.metadata@[a]).key@ != (#[trigger] self.metadata@[b]).key@ by {
                        if a != i {
                            assert(self.metadata@[a] == olds[a]);
                        }
                        if b != i {
                            assert(self.metadata@[b] == olds[b]);
                        }
                        assert(self.metadata@[a].key@ == olds[a].key@);
                        assert(self.metadata@[b].key@ == olds[b].key@);
                    }
                    assert forall|k: Seq<char>|
                        k != key@ implies final(self).spec_metadata(k) == old(self).spec_metadata(
                        k,
                    ) by {
                        lemma_meta_lookup_frame(olds, self.metadata@, i as int, k);
                    }
                    assert(final(self).spec_metadata(key@) == Some::<Seq<char>>(value@)) by {
                        let w = choose|w: int|
                            0 <= w < self.metadata@.len() && (#[trigger] self.metadata@[w]).key@
                                == key@;
                        if w != i {
                            assert(olds[w].key@ == key@);
                            assert(false);
                        }
                    }
                }
                return ;
            }
            i = i + 1;
        }
        let ghost olds = self.metadata@;
        self.metadata.push(MetaRow { key: key.clone(), value: value.clone(), updated_at: t });
        proof {
            assert(self.metadata@ =~= olds.push(self.metadata@.last()));
            assert(self.metadata@.last().key@ == key@);
            assert forall|a: int, b: int|
                0 <= a < b < self.metadata@.len() implies (#[trigger] self.metadata@[a]).key@ != (
                #[trigger] self.metadata@[b]).key@ by {
                if b < olds.len() {
                    assert(self.metadata@[a] == olds[a] && self.metadata@[b] == olds[b]);
                } else {
                    assert(self.metadata@[a] == olds[a]);
                }
            }
            assert(final(self).spec_metadata(key@) == Some::<Seq<char>>(value@)) by {
                assert(self.metadata@[olds.len() as int].key@ == key@);
                let w = choose|w: int|
                    0 <= w < self.metadata@.len() && (#[trigger] self.metadata@[w]).key@ == key@;
                if w != olds.len() {
                    assert(self.metadata@[w] == olds[w]);
                    assert(false);
                }
            }
            assert forall|k: Seq<char>|
                k != key@ implies final(self).spec_metadata(k) == old(self).spec_metadata(k) by {
                lemma_meta_lookup_push_frame(olds, self.metadata@, k);
            }
        }
    }

    /// Read one metadata key.
    pub fn get_metadata(&self, key: &String) -> (r: Option<String>)
        requires
            self.wf(),
        ensures
            match r {
                Some(v) => self.spec_metadata(key@) == Some::<Seq<char>>(v@),
                None => self.spec_metadata(key@) is None,
            },
    {
        let n = self.metadata.len();
        let mut i: usize = 0;
        while i < n
            invariant
                i <= n == self.metadata@.len(),
                self.wf(),
                forall|k: int| 0 <= k < i ==> (#[trigger] self.metadata@[k]).key@ != key@,
            decreases n - i,
        {
            if self.metadata[i].key == *key {
                let v = self.metadata[i].value.clone();
                proof {
                    assert(self.metadata@[i as int].key@ == key@);
                    let w = choose|w: int|
                        0 <= w < self.metadata@.len() && (#[trigger] self.metadata@[w]).key@
                            == key@;
                    if w != i {
                        if w < i {
                            assert(self.metadata@[w].key@ != self.metadata@[i as int].key@);
                        } else {
                            assert(self.metadata@[i as int].key@ != self.metadata@[w].key@);
                        }
                    }
                    assert(w == i);
                }
                return Some(v);
            }
            i = i + 1;
        }
        None
    }

    /// The current scan round.
    pub fn get_current_round(&self) -> (r: i64)
        ensures
            r == self.current_round,
    {
        self.current_round
    }

    /// Move to the next round. The round counter only ever grows.
    pub fn increment_round(&mut self) -> (r: i64)
        requires
            old(self).wf(),
            old(self).current_round < i64::MAX,
        ensures
            final(self).wf(),
            r == final(self).current_round == old(self).current_round + 1,
            final(self).bitmap_rows == old(self).bitmap_rows,
            final(self).detail_rows == old(self).detail_rows,
            final(self).metadata == old(self).metadata,
            final(self).geo_rows == old(self).geo_rows,
            final(self).progress == old(self).progress,
            final(self).clock == old(self).clock,
    {
        self.current_round = self.current_round + 1;
        self.current_round
    }

    /// Persist the resume cursor. The cursor's round never decreases.
    pub fn save_progress(&mut self, ip: &String, ip_type: IpType, scan_round: i64)
        requires
            old(self).wf(),
            scan_round >= 0,
        ensures
            final(self).wf(),
            final(self).progress matches Some(p) && p.last_ip@ == ip@ && p.ip_type == ip_type
                && p.last_round == scan_round,
            final(self).bitmap_rows == old(self).bitmap_rows,
            final(self).detail_rows == old(self).detail_rows,
            final(self).metadata == old(self).metadata,
            final(self).geo_rows == old(self).geo_rows,
            final(self).current_round == old(self).current_round,
            final(self).clock == old(self).clock,
    {
        self.progress = Some(
            ProgressCursor { last_ip: ip.clone(), ip_type, last_round: scan_round },
        );
    }

    /// The persisted resume cursor, if any.
    pub fn get_progress(&self) -> (r: Option<(String, IpType, i64)>)
        ensures
            match r {
                Some(p) => self.progress matches Some(c) && c.last_ip@ == p.0@ && c.ip_type == p.1
                    && c.last_round == p.2,
                None => self.progress is None,
            },
    {
        match &self.progress {
            Some(c) => Some((c.last_ip.clone(), c.ip_type, c.last_round)),
            None => None,
        }
    }
}

impl ScanStore {
    /// Apply one batch of probe outcomes, as one flush of the batch writer:
    /// the outcomes are applied in order, so the final bit for each
    /// `(address, port)` pair is the last outcome the batch holds for it,
    /// open outcomes upsert detail rows (preserving `first_seen`), and rows
    /// under keys the batch does not touch stay exactly as they were.
    /// Outcomes whose address is not a canonical dotted quad are skipped.
    #[verifier::rlimit(100)]
    #[verifier::spinoff_prover]
    pub fn bulk_update_port_status(&mut self, updates: &Vec<(String, u16, bool)>, scan_round: i64, now: i64) -> (r: Result<(), ScanError>)
        requires
            old(self).wf(),
            scan_round >= 0,
        ensures
            final(self).wf(),
            r is Ok,
            final(self).metadata == old(self).metadata,
            final(self).geo_rows == old(self).geo_rows,
            final(self).progress == old(self).progress,
            final(self).current_round == old(self).current_round,
            updates@.len() == 0 ==> *final(self) == *old(self),
            updates@.len() > 0 ==> final(self).clock == old(self).effective_time(now),
            details_model(final(self).detail_rows@) == bulk_details(
                details_model(old(self).detail_rows@),
                update_views(updates@),
                scan_round,
                old(self).effective_time(now),
            ),
            forall|p: u16, n: u32|
                #[trigger] brow_bit(final(self).bitmap_rows@, p, IpType::V4, scan_round, n)
                    == (match last_outcome(update_views(updates@), p, n) {
                    Some(b) => b,
                    None => brow_bit(old(self).bitmap_rows@, p, IpType::V4, scan_round, n),
                }),
            brow_frame_except(
                old(self).bitmap_rows@,
                final(self).bitmap_rows@,
                IpType::V4,
                scan_round,
                update_views(updates@),
            ),
            forall|p: u16|
                #[trigger] port_touched(update_views(updates@), p) ==> has_brow(
                    final(self).bitmap_rows@,
                    p,
                    IpType::V4,
                    scan_round,
                ) && brow(final(self).bitmap_rows@, p, IpType::V4, scan_round).last_updated == old(
                    self,
                ).effective_time(now),
    {
        let ghost views = update_views(updates@);
        let ghost om0 = details_model(old(self).detail_rows@);
        let ghost oldb = old(self).bitmap_rows@;
        let ghost t = old(self).effective_time(now);
        let m = updates.len();
        if m == 0 {
            proof {
                assert(views.len() == 0);
            }
            return Ok(());
        }
        let c0 = if now > self.clock {
            now
        } else {
            self.clock
        };
        self.clock = c0;
        let mut k: usize = 0;
        while k < m
            invariant
                k <= m == updates@.len(),
                views == update_views(updates@),
                om0 == details_model(old(self).detail_rows@),
                oldb == old(self).bitmap_rows@,
                t == old(self).effective_time(now),
                old(self).wf(),
                self.wf(),
                scan_round >= 0,
                self.metadata == old(self).metadata,
                self.geo_rows == old(self).geo_rows,
                self.progress == old(self).progress,
                self.current_round == old(self).current_round,
                self.clock == t,
                self.detail_rows == old(self).detail_rows || k > 0,
                self.bitmap_rows == old(self).bitmap_rows || k > 0,
                details_model(self.detail_rows@) == bulk_details(
                    om0,
                    views.take(k as int),
                    scan_round,
                    t,
                ),
                forall|p: u16, n: u32|
                    #[trigger] brow_bit(self.bitmap_rows@, p, IpType::V4, scan_round, n) == (
                    match last_outcome(views.take(k as int), p, n) {
                        Some(b) => b,
                        None => brow_bit(oldb, p, IpType::V4, scan_round, n),
                    }),
                brow_frame_except(
                    oldb,
                    self.bitmap_rows@,
                    IpType::V4,
                    scan_round,
                    views.take(k as int),
                ),
                forall|p: u16|
                    #[trigger] port_touched(views.take(k as int), p) ==> has_brow(
                        self.bitmap_rows@,
                        p,
                        IpType::V4,
                        scan_round,
                    ) && brow(self.bitmap_rows@, p, IpType::V4, scan_round).last_updated == t,
            decreases m - k,
        {
            proof {
                assert(views.take(k as int).len() == k);
                assert(views.take(k + 1 as int).drop_last() =~= views.take(k as int));
                assert(views.take(k + 1 as int).last() == views[k as int]);
                assert(views[k as int] == (updates@[k as int].0@, updates@[k as int].1, updates@[
                    k as int].2));
                assert(self.effective_time(now) == t);
            }
            let ghost mid = *self;
            let item = &updates[k];
            let res = self.set_port_status(&item.0, item.1, item.2, scan_round, now);
            proof {
                let ip = updates@[k as int].0;
                let port = updates@[k as int].1;
                let open = updates@[k as int].2;
                let take1 = views.take(k + 1 as int);
                let take0 = views.take(k as int);
                match res {
                    Ok(()) => {
                        assert(is_canon_ipv4(ip@));
                        // details step
                        if open {
                            assert(details_model(self.detail_rows@) == upsert_detail_model(
                                details_model(mid.detail_rows@),
                                ip@,
                                port,
                                scan_round,
                                t,
                            ));
                            assert(bulk_details(om0, take1, scan_round, t) == upsert_detail_model(
                                bulk_details(om0, take0, scan_round, t),
                                ip@,
                                port,
                                scan_round,
                                t,
                            ));
                        } else {
                            assert(self.detail_rows == mid.detail_rows);
                            assert(bulk_details(om0, take1, scan_round, t) == bulk_details(
                                om0,
                                take0,
                                scan_round,
                                t,
                            ));
                        }
                        // bit step
                        let nidx = choose|nx: u32| ip@ == ipv4_str(nx);
                        assert(ip@ == ipv4_str(nidx));
                        assert forall|p: u16, n: u32|
                            #[trigger] brow_bit(self.bitmap_rows@, p, IpType::V4, scan_round, n)
                            == (match last_outcome(take1, p, n) {
                            Some(b) => b,
                            None => brow_bit(oldb, p, IpType::V4, scan_round, n),
                        }) by {
                            if p == port {
                                if ip@ == ipv4_str(n) {
                                    assert(brow_bit(
                                        self.bitmap_rows@,
                                        p,
                                        IpType::V4,
                                        scan_round,
                                        n,
                                    ) == open);
                                    assert(last_outcome(take1, p, n) == Some(open));
                                } else {
                                    assert(n != nidx) by {
                                        if n == nidx {
                                            assert(ip@ == ipv4_str(n));
                                        }
                                    }
                                    assert(brow_bit(
                                        self.bitmap_rows@,
                                        p,
                                        IpType::V4,
                                        scan_round,
                                        n,
                                    ) == brow_bit(
                                        mid.bitmap_rows@,
                                        p,
                                        IpType::V4,
                                        scan_round,
                                        n,
                                    ));
                                    assert(last_outcome(take1, p, n) == last_outcome(take0, p, n));
                                }
                            } else {
                                assert(brow_frame(
                                    mid.bitmap_rows@,
                                    self.bitmap_rows@,
                                    port,
                                    IpType::V4,
                                    scan_round,
                                ));
                                assert(has_brow(self.bitmap_rows@, p, IpType::V4, scan_round)
                                    == has_brow(mid.bitmap_rows@, p, IpType::V4, scan_round));
                                if has_brow(mid.bitmap_rows@, p, IpType::V4, scan_round) {
                                    assert(brow(self.bitmap_rows@, p, IpType::V4, scan_round)
                                        == brow(mid.bitmap_rows@, p, IpType::V4, scan_round));
                                }
                                assert(brow_bit(self.bitmap_rows@, p, IpType::V4, scan_round, n)
                                    == brow_bit(mid.bitmap_rows@, p, IpType::V4, scan_round, n));
                                assert(last_outcome(take1, p, n) == last_outcome(take0, p, n));
                            }
                        }
                        // frame step
                        lemma_frame_except_step(
                            oldb,
                            mid.bitmap_rows@,
                            self.bitmap_rows@,
                            IpType::V4,
                            scan_round,
                            take0,
                            take1,
                            port,
                        );
                        // touched-port step
                        assert forall|p: u16|
                            #[trigger] port_touched(take1, p) implies has_brow(
                            self.bitmap_rows@,
                            p,
                            IpType::V4,
                            scan_round,
                        ) && brow(self.bitmap_rows@, p, IpType::V4, scan_round).last_updated
                            == t by {
                            if p == port {
                            } else {
                                assert(port_touched(take0, p)) by {
                                    let w = choose|w: int|
                                        0 <= w < take1.len() && (#[trigger] take1[w]).1 == p
                                            && is_canon_ipv4(take1[w].0);
                                    assert(w != k);
                                    assert(take0[w] == take1[w]);
                                }
                                assert(has_brow(mid.bitmap_rows@, p, IpType::V4, scan_round));
                                assert(brow(mid.bitmap_rows@, p, IpType::V4, scan_round
                                ).last_updated == t);
                                assert(brow_frame(
                                    mid.bitmap_rows@,
                                    self.bitmap_rows@,
                                    port,
                                    IpType::V4,
                                    scan_round,
                                ));
                                assert(has_brow(self.bitmap_rows@, p, IpType::V4, scan_round)
                                    == has_brow(mid.bitmap_rows@, p, IpType::V4, scan_round));
                                assert(brow(self.bitmap_rows@, p, IpType::V4, scan_round) == brow(
                                    mid.bitmap_rows@,
                                    p,
                                    IpType::V4,
                                    scan_round,
                                ));
                            }
                        }
                    },
                    Err(_) => {
                        assert(!is_canon_ipv4(ip@));
                        assert(*self == mid);
                        assert(bulk_details(om0, take1, scan_round, t) == bulk_details(
                            om0,
                            take0,
                            scan_round,
                            t,
                        ));
                        assert forall|p: u16, n: u32|
                            #[trigger] last_outcome(take1, p, n) == last_outcome(take0, p, n) by {
                            if take1.last().1 == p && take1.last().0 == ipv4_str(n) {
                                crate::ip::lemma_octet_str_props(0);
                                assert(is_canon_ipv4(ip@));
                            }
                        }
                        assert forall|p2: u16|
                            #[trigger] port_touched(take1, p2) == port_touched(take0, p2) by {
                            if port_touched(take1, p2) {
                                let w = choose|w: int|
                                    0 <= w < take1.len() && (#[trigger] take1[w]).1 == p2
                                        && is_canon_ipv4(take1[w].0);
                                assert(w != k);
                                assert(take0[w] == take1[w]);
                            }
                            if port_touched(take0, p2) {
                                let w = choose|w: int|
                                    0 <= w < take0.len() && (#[trigger] take0[w]).1 == p2
                                        && is_canon_ipv4(take0[w].0);
                                assert(take1[w] == take0[w]);
                            }
                        }
                        lemma_frame_except_skip(
                            oldb,
                            self.bitmap_rows@,
                            IpType::V4,
                            scan_round,
                            take0,
                            take1,
                        );
                        assert forall|p: u16|
                            #[trigger] port_touched(take1, p) implies has_brow(
                            self.bitmap_rows@,
                            p,
                            IpType::V4,
                            scan_round,
                        ) && brow(self.bitmap_rows@, p, IpType::V4, scan_round).last_updated
                            == t by {
                            assert(port_touched(take0, p));
                        }
                        assert forall|p: u16, n: u32|
                            #[trigger] brow_bit(self.bitmap_rows@, p, IpType::V4, scan_round, n)
                            == (match last_outcome(take1, p, n) {
                            Some(b) => b,
                            None => brow_bit(oldb, p, IpType::V4, scan_round, n),
                        }) by {
                            assert(last_outcome(take1, p, n) == last_outcome(take0, p, n));
                        }
                    },
                }
            }
            k = k + 1;
        }
        proof {
            assert(views.take(m as int) =~= views);
        }
        Ok(())
    }

    /// Index of the bitmap row under the key, if present.
    fn find_bitmap_row(&self, port: u16, tp: IpType, round: i64) -> (r: Option<usize>)
        ensures
            match r {
                Some(i) => i < self.bitmap_rows@.len() && self.bitmap_rows@[i as int].port == port
                    && self.bitmap_rows@[i as int].ip_type == tp && self.bitmap_rows@[
                i as int].scan_round == round,
                None => !has_brow(self.bitmap_rows@, port, tp, round),
            },
    {
        let n = self.bitmap_rows.len();
        let mut i: usize = 0;
        while i < n
            invariant
                i <= n == self.bitmap_rows@.len(),
                forall|k: int|
                    0 <= k < i ==> !((#[trigger] self.bitmap_rows@[k]).port == port
                        && self.bitmap_rows@[k].ip_type == tp && self.bitmap_rows@[k].scan_round
                        == round),
            decreases n - i,
        {
            let row = &self.bitmap_rows[i];
            if row.port == port && row.ip_type == tp && row.scan_round == round {
                return Some(i);
            }
            i = i + 1;
        }
        None
    }

    /// Index of the detail row under the key, if present.
    fn find_detail_row(&self, ip: &String, port: u16) -> (r: Option<usize>)
        ensures
            match r {
                Some(i) => i < self.detail_rows@.len() && self.detail_rows@[i as int].ip_address@
                    == ip@ && self.detail_rows@[i as int].port == port,
                None => !has_detail(details_model(self.detail_rows@), ip@, port),
            },
    {
        let n = self.detail_rows.len();
        let mut i: usize = 0;
        while i < n
            invariant
                i <= n == self.detail_rows@.len(),
                forall|k: int|
                    0 <= k < i ==> !((#[trigger] self.detail_rows@[k]).ip_address@ == ip@
                        && self.detail_rows@[k].port == port),
            decreases n - i,
        {
            let row = &self.detail_rows[i];
            if row.ip_address == *ip && row.port == port {
                return Some(i);
            }
            i = i + 1;
        }
        proof {
            assert forall|k: int|
                0 <= k < details_model(self.detail_rows@).len() implies !((#[trigger] details_model(
                self.detail_rows@,
            )[k]).ip == ip@ && details_model(self.detail_rows@)[k].port == port) by {
                assert(details_model(self.detail_rows@)[k] == self.detail_rows@[k].model());
            }
        }
        None
    }

    /// Record one probe outcome: set or clear the address's bit in the
    /// bitmap row of `(port, IPv4, scan_round)`, refresh that row's cached
    /// count and timestamp, and, for an open outcome, upsert the detail row
    /// — creating it with `first_seen == last_seen == t` or refreshing
    /// `last_seen` and `scan_round` while never touching `first_seen`.
    /// Rejects exactly the addresses that are not canonical dotted quads,
    /// leaving the store unchanged.
    #[verifier::rlimit(100)]
    #[verifier::spinoff_prover]
    pub fn set_port_status(&mut self, ip: &String, port: u16, is_open: bool, scan_round: i64, now: i64) -> (r: Result<(), ScanError>)
        requires
            old(self).wf(),
            scan_round >= 0,
        ensures
            final(self).wf(),
            r is Ok ==> is_canon_ipv4(ip@),
            r is Ok ==> final(self).clock == old(self).effective_time(now),
            r is Ok ==> final(self).metadata == old(self).metadata,
            r is Ok ==> final(self).geo_rows == old(self).geo_rows,
            r is Ok ==> final(self).progress == old(self).progress,
            r is Ok ==> final(self).current_round == old(self).current_round,
            r is Ok && is_open ==> details_model(final(self).detail_rows@) == upsert_detail_model(
                details_model(old(self).detail_rows@),
                ip@,
                port,
                scan_round,
                old(self).effective_time(now),
            ),
            r is Ok && !is_open ==> final(self).detail_rows == old(self).detail_rows,
            r is Ok ==> forall|n: u32|
                ip@ == ipv4_str(n) ==> brow_bit(
                    final(self).bitmap_rows@,
                    port,
                    IpType::V4,
                    scan_round,
                    n,
                ) == is_open,
            r is Ok ==> forall|n: u32, m: u32|
                ip@ == ipv4_str(n) && m != n ==> brow_bit(
                    final(self).bitmap_rows@,
                    port,
                    IpType::V4,
                    scan_round,
                    m,
                ) == brow_bit(old(self).bitmap_rows@, port, IpType::V4, scan_round, m),
            r is Ok ==> has_brow(final(self).bitmap_rows@, port, IpType::V4, scan_round),
            r is Ok ==> brow(final(self).bitmap_rows@, port, IpType::V4, scan_round).last_updated
                == old(self).effective_time(now),
            r is Ok ==> brow_frame(
                old(self).bitmap_rows@,
                final(self).bitmap_rows@,
                port,
                IpType::V4,
                scan_round,
            ),
            r is Err ==> !is_canon_ipv4(ip@) && *final(self) == *old(self),
    {
        let n = match crate::ip::ipv4_to_index(ip.as_str()) {
            Ok(n) => n,
            Err(e) => {
                return Err(e);
            },
        };
        let t = if now > self.clock {
            now
        } else {
            self.clock
        };
        self.clock = t;
        let ghost oldrows = self.bitmap_rows@;
        match self.find_bitmap_row(port, IpType::V4, scan_round) {
            Some(i) => {
                let ghost oldrow = self.bitmap_rows@[i as int];
                {
                    let row = &mut self.bitmap_rows[i];
                    row.bitmap.set(n, is_open);
                }
                let c = self.bitmap_rows[i].bitmap.count_ones();
                {
                    let row = &mut self.bitmap_rows[i];
                    row.open_count = c;
                    row.last_updated = t;
                }
                proof {
                    let news = self.bitmap_rows@;
                    let newrow = news[i as int];
                    assert(newrow.port == port && newrow.ip_type == IpType::V4
                        && newrow.scan_round == scan_round);
                    assert(forall|a: int|
                        0 <= a < oldrows.len() && a != i ==> news[a] == oldrows[a]);
                    lemma_brow_at(oldrows, i as int, port, IpType::V4, scan_round);
                    lemma_brow_at(news, i as int, port, IpType::V4, scan_round);
                    lemma_brow_update_frame(oldrows, news, i as int, port, IpType::V4, scan_round);
                    assert forall|n2: u32|
                        ip@ == ipv4_str(n2) implies brow_bit(
                        news,
                        port,
                        IpType::V4,
                        scan_round,
                        n2,
                    ) == is_open by {
                        crate::ip::lemma_ipv4_str_injective(n, n2);
                    }
                    assert forall|n2: u32, m: u32|
                        ip@ == ipv4_str(n2) && m != n2 implies brow_bit(
                        news,
                        port,
                        IpType::V4,
                        scan_round,
                        m,
                    ) == brow_bit(oldrows, port, IpType::V4, scan_round, m) by {
                        crate::ip::lemma_ipv4_str_injective(n, n2);
                        assert(newrow.bitmap.spec_bit(m) == oldrow.bitmap.spec_bit(m));
                    }
                    assert forall|a: int|
                        0 <= a < news.len() implies {
                        let r2 = #[trigger] news[a];
                        &&& r2.bitmap.wf()
                        &&& r2.open_count == popcount_segs(r2.bitmap.segs())
                        &&& 0 <= r2.last_updated <= self.clock
                    } by {
                        if a != i {
                            assert(news[a] == oldrows[a]);
                        }
                    }
                }
            },
            None => {
                let mut bm = PortBitmap::new();
                bm.set(n, is_open);
                let c = bm.count_ones();
                self.bitmap_rows.push(
                    PortBitmapRow {
                        port,
                        ip_type: IpType::V4,
                        scan_round,
                        bitmap: bm,
                        open_count: c,
                        last_updated: t,
                    },
                );
                proof {
                    let news = self.bitmap_rows@;
                    let m = oldrows.len() as int;
                    assert(news =~= oldrows.push(news[m]));
                    lemma_brow_push_frame(oldrows, news, port, IpType::V4, scan_round);
                    lemma_brow_at(news, m, port, IpType::V4, scan_round);
                    assert forall|n2: u32|
                        ip@ == ipv4_str(n2) implies brow_bit(
                        news,
                        port,
                        IpType::V4,
                        scan_round,
                        n2,
                    ) == is_open by {
                        crate::ip::lemma_ipv4_str_injective(n, n2);
                    }
                    assert forall|n2: u32, m2: u32|
                        ip@ == ipv4_str(n2) && m2 != n2 implies brow_bit(
                        news,
                        port,
                        IpType::V4,
                        scan_round,
                        m2,
                    ) == brow_bit(oldrows, port, IpType::V4, scan_round, m2) by {
                        crate::ip::lemma_ipv4_str_injective(n, n2);
                        assert(news[m].bitmap.spec_bit(m2) == false);
                    }
                    assert forall|a: int|
                        0 <= a < news.len() implies {
                        let r2 = #[trigger] news[a];
                        &&& r2.bitmap.wf()
                        &&& r2.open_count == popcount_segs(r2.bitmap.segs())
                        &&& 0 <= r2.last_updated <= self.clock
                    } by {
                        if a < m {
                            assert(news[a] == oldrows[a]);
                        }
                    }
                }
            },
        }
        let ghost olddetails = self.detail_rows@;
        if is_open {
            match self.find_detail_row(ip, port) {
                Some(i) => {
                    {
                        let row = &mut self.detail_rows[i];
                        row.scan_round = scan_round;
                        row.last_seen = t;
                    }
                    proof {
                        let news = self.detail_rows@;
                        let om = details_model(olddetails);
                        let nm = details_model(news);
                        assert(om[i as int] == olddetails[i as int].model());
                        assert(om[i as int].ip == ip@ && om[i as int].port == port);
                        assert(has_detail(om, ip@, port));
                        let w = choose|w: int|
                            0 <= w < om.len() && (#[trigger] om[w]).ip == ip@ && om[w].port
                                == port;
                        if w != i {
                            assert(olddetails[w].model() == om[w]);
                            assert(olddetails[w].ip_address@ == ip@ && olddetails[w].port == port);
                            if w < i {
                                assert(!(olddetails[w].ip_address@ == olddetails[
                                i as int].ip_address@ && olddetails[w].port == olddetails[
                                i as int].port));
                            } else {
                                assert(!(olddetails[i as int].ip_address@ == olddetails[
                                w].ip_address@ && olddetails[i as int].port == olddetails[
                                w].port));
                            }
                        }
                        assert(w == i);
                        assert(nm =~= upsert_detail_model(om, ip@, port, scan_round, t as int)) by {
                            assert forall|a: int| 0 <= a < nm.len() implies nm[a]
                                == upsert_detail_model(om, ip@, port, scan_round, t as int)[a] by {
                                assert(nm[a] == news[a].model());
                                if a != i {
                                    assert(news[a] == olddetails[a]);
                                    assert(om[a] == olddetails[a].model());
                                }
                            }
                        }
                        assert forall|a: int|
                            0 <= a < news.len() implies {
                            let r2 = #[trigger] news[a];
                            &&& 0 <= r2.first_seen <= r2.last_seen <= self.clock
                            &&& is_canon_ipv4(r2.ip_address@)
                        } by {
                            if a != i {
                                assert(news[a] == olddetails[a]);
                            } else {
                                assert(news[a].first_seen == olddetails[a].first_seen);
                                assert(news[a].ip_address@ == olddetails[a].ip_address@);
                            }
                        }
                        assert forall|a: int, b: int|
                            0 <= a < b < news.len() implies !((
                        #[trigger] news[a]).ip_address@ == (#[trigger] news[b]).ip_address@
                            && news[a].port == news[b].port) by {
                            assert(news[a].ip_address@ == olddetails[a].ip_address@ && news[a].port
                                == olddetails[a].port);
                            assert(news[b].ip_address@ == olddetails[b].ip_address@ && news[b].port
                                == olddetails[b].port);
                        }
                    }
                },
                None => {
                    self.detail_rows.push(
                        ScanResultDetail {
                            ip_address: ip.clone(),
                            ip_type: IpType::V4,
                            port,
                            scan_round,
                            first_seen: t,
                            last_seen: t,
                        },
                    );
                    proof {
                        let news = self.detail_rows@;
                        let om = details_model(olddetails);
                        let nm = details_model(news);
                        let m = olddetails.len() as int;
                        assert(!has_detail(om, ip@, port));
                        assert(nm =~= upsert_detail_model(om, ip@, port, scan_round, t as int)) by {
                            assert(nm.len() == om.len() + 1);
                            assert forall|a: int| 0 <= a < nm.len() implies nm[a]
                                == upsert_detail_model(om, ip@, port, scan_round, t as int)[a] by {
                                assert(nm[a] == news[a].model());
                                if a < m {
                                    assert(news[a] == olddetails[a]);
                                    assert(om[a] == olddetails[a].model());
                                }
                            }
                        }
                        assert forall|a: int, b: int|
                            0 <= a < b < news.len() implies !((
                        #[trigger] news[a]).ip_address@ == (#[trigger] news[b]).ip_address@
                            && news[a].port == news[b].port) by {
                            assert(news[a] == olddetails[a]);
                            if b < m {
                                assert(news[b] == olddetails[b]);
                            } else {
                                if news[a].ip_address@ == ip@ && news[a].port == port {
                                    assert(om[a].ip == ip@ && om[a].port == port);
                                    assert(has_detail(om, ip@, port));
                                }
                            }
                        }
                        assert(is_canon_ipv4(ip@)) by {
                            assert(ip@ == ipv4_str(n));
                        }
                        assert forall|a: int|
                            0 <= a < news.len() implies {
                            let r2 = #[trigger] news[a];
                            &&& 0 <= r2.first_seen <= r2.last_seen <= self.clock
                            &&& is_canon_ipv4(r2.ip_address@)
                        } by {
                            if a < m {
                                assert(news[a] == olddetails[a]);
                            }
                        }
                    }
                },
            }
        }
        proof {
            assert(is_canon_ipv4(ip@)) by {
                assert(ip@ == ipv4_str(n));
            }
        }
        Ok(())
    }
}

/// A bitmap row for the key is present.
pub open spec fn has_brow(rows: Seq<PortBitmapRow>, port: u16, tp: IpType, round: i64) -> bool {
    exists|i: int|
        0 <= i < rows.len() && (#[trigger] rows[i]).port == port && rows[i].ip_type == tp
            && rows[i].scan_round == round
}

/// The bitmap row stored under the key.
pub open spec fn brow(rows: Seq<PortBitmapRow>, port: u16, tp: IpType, round: i64) -> PortBitmapRow {
    let i = choose|i: int|
        0 <= i < rows.len() && (#[trigger] rows[i]).port == port && rows[i].ip_type == tp
            && rows[i].scan_round == round;
    rows[i]
}

/// The stored bit for an address under a bitmap key: false when the row is
/// absent.
pub open spec fn brow_bit(rows: Seq<PortBitmapRow>, port: u16, tp: IpType, round: i64, n: u32) -> bool {
    if has_brow(rows, port, tp, round) {
        brow(rows, port, tp, round).bitmap.spec_bit(n)
    } else {
        false
    }
}

/// A detail row for the key is present.
pub open spec fn has_detail(rows: Seq<DetailModel>, ip: Seq<char>, port: u16) -> bool {
    exists|i: int| 0 <= i < rows.len() && (#[trigger] rows[i]).ip == ip && rows[i].port == port
}

/// The detail row stored under the key.
pub open spec fn detail_of(rows: Seq<DetailModel>, ip: Seq<char>, port: u16) -> DetailModel {
    let i = choose|i: int|
        0 <= i < rows.len() && (#[trigger] rows[i]).ip == ip && rows[i].port == port;
    rows[i]
}

/// What one open observation at time `t` does to the detail rows: update
/// `scan_round` and `last_seen` of the row if present — `first_seen` is
/// untouched — else append a fresh row with `first_seen == last_seen == t`.
pub open spec fn upsert_detail_model(
    rows: Seq<DetailModel>,
    ip: Seq<char>,
    port: u16,
    round: i64,
    t: int,
) -> Seq<DetailModel> {
    if has_detail(rows, ip, port) {
        let i = choose|i: int|
            0 <= i < rows.len() && (#[trigger] rows[i]).ip == ip && rows[i].port == port;
        rows.update(
            i,
            DetailModel {
                ip: rows[i].ip,
                ip_type: rows[i].ip_type,
                port: rows[i].port,
                scan_round: round,
                first_seen: rows[i].first_seen,
                last_seen: t as i64,
            },
        )
    } else {
        rows.push(
            DetailModel {
                ip,
                ip_type: IpType::V4,
                port,
                scan_round: round,
                first_seen: t as i64,
                last_seen: t as i64,
            },
        )
    }
}

/// Sum of the cached open counts over the bitmap rows.
pub open spec fn sum_counts(rows: Seq<PortBitmapRow>) -> int
    decreases rows.len(),
{
    if rows.len() == 0 {
        0
    } else {
        sum_counts(rows.drop_last()) + rows.last().open_count
    }
}

/// Number of distinct addresses among the detail rows: the number of rows
/// whose address does not appear earlier.
pub open spec fn distinct_ip_count(rows: Seq<ScanResultDetail>) -> int
    decreases rows.len(),
{
    if rows.len() == 0 {
        0
    } else {
        distinct_ip_count(rows.drop_last()) + if ip_appears(rows.drop_last(), rows.last().ip_address@) {
            0int
        } else {
            1int
        }
    }
}

/// Some row holds this address.
pub open spec fn ip_appears(rows: Seq<ScanResultDetail>, ip: Seq<char>) -> bool {
    exists|i: int| 0 <= i < rows.len() && (#[trigger] rows[i]).ip_address@ == ip
}

/// Serialized size of the bitmap rows: the wire length of each row's
/// bitmap, summed.
pub open spec fn sum_blob_sizes(rows: Seq<PortBitmapRow>) -> int
    decreases rows.len(),
{
    if rows.len() == 0 {
        0
    } else {
        sum_blob_sizes(rows.drop_last()) + 4 + rows.last().bitmap.segs().len() * (1
            + SEGMENT_SIZE as int)
    }
}

/// Latest update time over the bitmap rows.
pub open spec fn max_updated(rows: Seq<PortBitmapRow>) -> int
    decreases rows.len(),
{
    if rows.len() == 0 {
        0
    } else if rows.last().last_updated >= max_updated(rows.drop_last()) {
        rows.last().last_updated as int
    } else {
        max_updated(rows.drop_last())
    }
}

/// A geolocation row holds this address.
pub open spec fn geo_has(rows: Seq<GeoRow>, ip: Seq<char>) -> bool {
    exists|i: int| 0 <= i < rows.len() && (#[trigger] rows[i]).info.ip@ == ip
}

impl ScanStore {
    /// Totals over the store: the summed cached open counts of the bitmap
    /// rows — set bits per `(port, round)`, not unique addresses — and the
    /// number of distinct addresses with an open-port row. The sum
    /// saturates at the integer limit.
    pub fn get_stats(&self) -> (r: (u64, usize))
        requires
            self.wf(),
        ensures
            r.0 == if sum_counts(self.bitmap_rows@) <= u64::MAX {
                sum_counts(self.bitmap_rows@)
            } else {
                u64::MAX as int
            },
            r.1 == distinct_ip_count(self.detail_rows@),
    {
        let mut total: u64 = 0;
        let n = self.bitmap_rows.len();
        let mut i: usize = 0;
        proof {
            lemma_sum_counts_nonneg(self.bitmap_rows@.take(0));
        }
        while i < n
            invariant
                i <= n == self.bitmap_rows@.len(),
                total == if sum_counts(self.bitmap_rows@.take(i as int)) <= u64::MAX {
                    sum_counts(self.bitmap_rows@.take(i as int))
                } else {
                    u64::MAX as int
                },
            decreases n - i,
        {
            let c = self.bitmap_rows[i].open_count;
            proof {
                assert(self.bitmap_rows@.take(i + 1 as int).drop_last() =~= self.bitmap_rows@.take(
                    i as int,
                ));
                assert(self.bitmap_rows@.take(i + 1 as int).last() == self.bitmap_rows@[i as int]);
                lemma_sum_counts_nonneg(self.bitmap_rows@.take(i as int));
            }
            if total > u64::MAX - c {
                total = u64::MAX;
            } else {
                total = total + c;
            }
            i = i + 1;
        }
        proof {
            assert(self.bitmap_rows@.take(n as int) =~= self.bitmap_rows@);
        }
        let mut distinct: usize = 0;
        let m = self.detail_rows.len();
        let mut j: usize = 0;
        while j < m
            invariant
                j <= m == self.detail_rows@.len(),
                distinct == distinct_ip_count(self.detail_rows@.take(j as int)),
                distinct <= j,
            decreases m - j,
        {
            let mut seen = false;
            let mut k: usize = 0;
            while k < j
                invariant
                    k <= j < self.detail_rows@.len(),
                    seen == exists|a: int|
                        0 <= a < k && (#[trigger] self.detail_rows@[a]).ip_address@
                            == self.detail_rows@[j as int].ip_address@,
                decreases j - k,
            {
                if self.detail_rows[k].ip_address == self.detail_rows[j].ip_address {
                    seen = true;
                }
                k = k + 1;
            }
            proof {
                let pre = self.detail_rows@.take(j as int);
                assert(self.detail_rows@.take(j + 1 as int).drop_last() =~= pre);
                assert(self.detail_rows@.take(j + 1 as int).last() == self.detail_rows@[j as int]);
                assert(seen == ip_appears(pre, self.detail_rows@[j as int].ip_address@)) by {
                    if seen {
                        let a = choose|a: int|
                            0 <= a < j && (#[trigger] self.detail_rows@[a]).ip_address@
                                == self.detail_rows@[j as int].ip_address@;
                        assert(pre[a] == self.detail_rows@[a]);
                        assert(ip_appears(pre, self.detail_rows@[j as int].ip_address@));
                    } else {
                        if ip_appears(pre, self.detail_rows@[j as int].ip_address@) {
                            let a = choose|a: int|
                                0 <= a < pre.len() && (#[trigger] pre[a]).ip_address@
                                    == self.detail_rows@[j as int].ip_address@;
                            assert(self.detail_rows@[a] == pre[a]);
                        }
                    }
                }
            }
            if !seen {
                distinct = distinct + 1;
            }
            j = j + 1;
        }
        proof {
            assert(self.detail_rows@.take(m as int) =~= self.detail_rows@);
        }
        (total, distinct)
    }

    /// Bytes the serialized bitmaps occupy, saturating at the integer
    /// limit.
    pub fn get_memory_usage(&self) -> (r: u64)
        requires
            self.wf(),
        ensures
            r == if sum_blob_sizes(self.bitmap_rows@) <= u64::MAX {
                sum_blob_sizes(self.bitmap_rows@)
            } else {
                u64::MAX as int
            },
    {
        let mut total: u64 = 0;
        let n = self.bitmap_rows.len();
        let mut i: usize = 0;
        while i < n
            invariant
                i <= n == self.bitmap_rows@.len(),
                self.wf(),
                total == if sum_blob_sizes(self.bitmap_rows@.take(i as int)) <= u64::MAX {
                    sum_blob_sizes(self.bitmap_rows@.take(i as int))
                } else {
                    u64::MAX as int
                },
            decreases n - i,
        {
            proof {
                assert(self.bitmap_rows@.take(i + 1 as int).drop_last() =~= self.bitmap_rows@.take(
                    i as int,
                ));
                assert(self.bitmap_rows@.take(i + 1 as int).last() == self.bitmap_rows@[i as int]);
                lemma_sum_blob_nonneg(self.bitmap_rows@.take(i as int));
                crate::bitmap::lemma_segment_count_bound(self.bitmap_rows@[i as int].bitmap.segs());
            }
            let segs = self.bitmap_rows[i].bitmap.segments.len();
            proof {
                assert(self.bitmap_rows@[i as int].bitmap.segs().len() == segs);
                assert(segs <= 256);
                assert((segs as int) * (1 + SEGMENT_SIZE as int) <= 256 * (1 + SEGMENT_SIZE as int))
                    by (nonlinear_arith)
                    requires
                        segs <= 256,
                ;
            }
            let sz: u64 = 4 + (segs as u64) * (1 + SEGMENT_SIZE as u64);
            if total > u64::MAX - sz {
                total = u64::MAX;
            } else {
                total = total + sz;
            }
            i = i + 1;
        }
        proof {
            assert(self.bitmap_rows@.take(n as int) =~= self.bitmap_rows@);
        }
        total
    }

    /// Time of the most recent bitmap write, if any row exists.
    pub fn get_last_scan_time(&self) -> (r: Option<i64>)
        requires
            self.wf(),
        ensures
            match r {
                Some(t) => self.bitmap_rows@.len() > 0 && t == max_updated(self.bitmap_rows@),
                None => self.bitmap_rows@.len() == 0,
            },
    {
        let n = self.bitmap_rows.len();
        if n == 0 {
            return None;
        }
        let mut best: i64 = 0;
        let mut i: usize = 0;
        proof {
            assert(max_updated(self.bitmap_rows@.take(0)) == 0);
        }
        while i < n
            invariant
                i <= n == self.bitmap_rows@.len(),
                best == max_updated(self.bitmap_rows@.take(i as int)),
            decreases n - i,
        {
            proof {
                assert(self.bitmap_rows@.take(i + 1 as int).drop_last() =~= self.bitmap_rows@.take(
                    i as int,
                ));
                assert(self.bitmap_rows@.take(i + 1 as int).last() == self.bitmap_rows@[i as int]);
            }
            let t = self.bitmap_rows[i].last_updated;
            if t >= best {
                best = t;
            }
            i = i + 1;
        }
        proof {
            assert(self.bitmap_rows@.take(n as int) =~= self.bitmap_rows@);
        }
        Some(best)
    }

    /// Write back one geolocation record, as the enrichment collaborator
    /// does: replacing the record of that address or appending a new one.
    pub fn save_ip_geo_info(&mut self, info: IpGeoInfo, now: i64) -> (r: Result<(), ScanError>)
        requires
            old(self).wf(),
        ensures
            final(self).wf(),
            r is Ok,
            geo_has(final(self).geo_rows@, info.ip@),
            final(self).bitmap_rows == old(self).bitmap_rows,
            final(self).detail_rows == old(self).detail_rows,
            final(self).metadata == old(self).metadata,
            final(self).progress == old(self).progress,
            final(self).current_round == old(self).current_round,
            final(self).clock == old(self).effective_time(now),
    {
        let t = if now > self.clock {
            now
        } else {
            self.clock
        };
        self.clock = t;
        let n = self.geo_rows.len();
        let mut i: usize = 0;
        while i < n
            invariant
                i <= n == self.geo_rows@.len(),
                self.wf(),
                forall|k: int| 0 <= k < i ==> (#[trigger] self.geo_rows@[k]).info.ip@ != info.ip@,
                self.bitmap_rows == old(self).bitmap_rows,
                self.detail_rows == old(self).detail_rows,
                self.metadata == old(self).metadata,
                self.progress == old(self).progress,
                self.current_round == old(self).current_round,
                self.clock == t,
                t == old(self).effective_time(now),
            decreases n - i,
        {
            if self.geo_rows[i].info.ip == info.ip {
                let ghost olds = self.geo_rows@;
                let row = &mut self.geo_rows[i];
                row.info = info;
                row.updated_at = t;
                proof {
                    assert(self.geo_rows@[i as int].info.ip@ == olds[i as int].info.ip@);
                    assert forall|a: int, b: int|
                        0 <= a < b < self.geo_rows@.len() implies (
                    #[trigger] self.geo_rows@[a]).info.ip@ != (
                    #[trigger] self.geo_rows@[b]).info.ip@ by {
                        assert(self.geo_rows@[a].info.ip@ == olds[a].info.ip@);
                        assert(self.geo_rows@[b].info.ip@ == olds[b].info.ip@);
                    }
                }
                return Ok(());
            }
            i = i + 1;
        }
        let ghost olds = self.geo_rows@;
        let ghost ipview = info.ip@;
        self.geo_rows.push(GeoRow { info, updated_at: t });
        proof {
            assert(self.geo_rows@[olds.len() as int].info.ip@ == ipview);
            assert forall|a: int, b: int|
                0 <= a < b < self.geo_rows@.len() implies (#[trigger] self.geo_rows@[a]).info.ip@
                != (#[trigger] self.geo_rows@[b]).info.ip@ by {
                assert(self.geo_rows@[a] == olds[a]);
                if b < olds.len() {
                    assert(self.geo_rows@[b] == olds[b]);
                }
            }
        }
        Ok(())
    }

    /// Up to `limit` distinct addresses that have an open-port row but no
    /// geolocation row: the queue the enrichment collaborator drains.
    /// Every returned address is such an address, no address repeats, and
    /// fewer than `limit` are returned only when no further such address
    /// exists.
    pub fn get_ips_missing_geo(&self, limit: usize) -> (r: Vec<String>)
        requires
            self.wf(),
        ensures
            r@.len() <= limit,
            forall|i: int|
                0 <= i < r@.len() ==> ip_appears(self.detail_rows@, (#[trigger] r@[i])@)
                    && !geo_has(self.geo_rows@, r@[i]@),
            forall|i: int, j: int| 0 <= i < j < r@.len() ==> (#[trigger] r@[i])@ != (
            #[trigger] r@[j])@,
            r@.len() < limit ==> forall|ip: Seq<char>|
                ip_appears(self.detail_rows@, ip) && !geo_has(self.geo_rows@, ip) ==> out_has(
                    r@,
                    ip,
                ),
    {
        let mut out: Vec<String> = Vec::new();
        let m = self.detail_rows.len();
        let mut j: usize = 0;
        while j < m && out.len() < limit
            invariant
                j <= m == self.detail_rows@.len(),
                out@.len() <= limit,
                forall|i: int|
                    0 <= i < out@.len() ==> ip_appears(self.detail_rows@, (#[trigger] out@[i])@)
                        && !geo_has(self.geo_rows@, out@[i]@),
                forall|i: int, a: int| 0 <= i < a < out@.len() ==> (#[trigger] out@[i])@ != (
                #[trigger] out@[a])@,
                forall|a: int|
                    0 <= a < j ==> geo_has(
                        self.geo_rows@,
                        (#[trigger] self.detail_rows@[a]).ip_address@,
                    ) || out_has(out@, self.detail_rows@[a].ip_address@),
            decreases m - j,
        {
            let ip = &self.detail_rows[j].ip_address;
            let mut have = false;
            let g = self.geo_rows.len();
            let mut k: usize = 0;
            while k < g
                invariant
                    k <= g == self.geo_rows@.len(),
                    j < self.detail_rows@.len(),
                    ip@ == self.detail_rows@[j as int].ip_address@,
                    have == exists|a: int|
                        0 <= a < k && (#[trigger] self.geo_rows@[a]).info.ip@ == ip@,
                decreases g - k,
            {
                if self.geo_rows[k].info.ip == *ip {
                    have = true;
                }
                k = k + 1;
            }
            let mut dup = false;
            let o = out.len();
            let mut k2: usize = 0;
            while k2 < o
                invariant
                    k2 <= o == out@.len(),
                    j < self.detail_rows@.len(),
                    ip@ == self.detail_rows@[j as int].ip_address@,
                    dup == exists|a: int| 0 <= a < k2 && (#[trigger] out@[a])@ == ip@,
                decreases o - k2,
            {
                if out[k2] == *ip {
                    dup = true;
                }
                k2 = k2 + 1;
            }
            let ghost before = out@;
            if !have && !dup {
                out.push(ip.clone());
            }
            proof {
                if !have && !dup {
                    assert(out@[before.len() as int]@ == ip@);
                    assert forall|i: int|
                        0 <= i < out@.len() implies ip_appears(
                        self.detail_rows@,
                        (#[trigger] out@[i])@,
                    ) && !geo_has(self.geo_rows@, out@[i]@) by {
                        if i < before.len() {
                            assert(out@[i] == before[i]);
                        } else {
                            assert(out@[i]@ == ip@);
                            assert(self.detail_rows@[j as int].ip_address@ == ip@);
                            assert(ip_appears(self.detail_rows@, ip@));
                            if geo_has(self.geo_rows@, ip@) {
                                let a = choose|a: int|
                                    0 <= a < self.geo_rows@.len() && (
                                    #[trigger] self.geo_rows@[a]).info.ip@ == ip@;
                            }
                        }
                    }
                    assert forall|i: int, a: int|
                        0 <= i < a < out@.len() implies (#[trigger] out@[i])@ != (
                    #[trigger] out@[a])@ by {
                        assert(out@[i] == before[i]);
                        if a < before.len() {
                            assert(out@[a] == before[a]);
                        } else {
                            assert(out@[a]@ == ip@);
                            if out@[i]@ == ip@ {
                                assert(dup);
                            }
                        }
                    }
                }
                assert forall|a: int|
                    0 <= a < j + 1 implies geo_has(
                    self.geo_rows@,
                    (#[trigger] self.detail_rows@[a]).ip_address@,
                ) || out_has(out@, self.detail_rows@[a].ip_address@) by {
                    if a < j {
                        if out_has(before, self.detail_rows@[a].ip_address@) {
                            let w = choose|w: int|
                                0 <= w < before.len() && (#[trigger] before[w])@
                                    == self.detail_rows@[a].ip_address@;
                            assert(out@[w]@ == self.detail_rows@[a].ip_address@);
                            assert(out_has(out@, self.detail_rows@[a].ip_address@));
                        }
                    } else {
                        if !have && !dup {
                            assert(out@[before.len() as int]@ == ip@);
                            assert(out_has(out@, self.detail_rows@[a].ip_address@));
                        } else if have {
                            assert(geo_has(self.geo_rows@, self.detail_rows@[a].ip_address@));
                        } else {
                            let w = choose|w: int|
                                0 <= w < before.len() && (#[trigger] before[w])@ == ip@;
                            assert(out@[w]@ == ip@);
                            assert(out_has(out@, self.detail_rows@[a].ip_address@));
                        }
                    }
                }
            }
            j = j + 1;
        }
        proof {
            if out@.len() < limit {
                assert(j == m);
                assert forall|ip: Seq<char>|
                    ip_appears(self.detail_rows@, ip) && !geo_has(self.geo_rows@, ip) implies
                    out_has(out@, ip) by {
                    let a = choose|a: int|
                        0 <= a < self.detail_rows@.len() && (
                        #[trigger] self.detail_rows@[a]).ip_address@ == ip;
                    assert(geo_has(self.geo_rows@, self.detail_rows@[a].ip_address@) || out_has(
                        out@,
                        self.detail_rows@[a].ip_address@,
                    ));
                }
            }
        }
        out
    }
}

/// Some returned address equals this one.
pub open spec fn out_has(out: Seq<String>, ip: Seq<char>) -> bool {
    exists|i: int| 0 <= i < out.len() && (#[trigger] out[i])@ == ip
}

/// Cached counts are nonnegative.
proof fn lemma_sum_counts_nonneg(rows: Seq<PortBitmapRow>)
    ensures
        sum_counts(rows) >= 0,
    decreases rows.len(),
{
    if rows.len() > 0 {
        lemma_sum_counts_nonneg(rows.drop_last());
    }
}

/// Blob sizes are nonnegative.
proof fn lemma_sum_blob_nonneg(rows: Seq<PortBitmapRow>)
    ensures
        sum_blob_sizes(rows) >= 0,
    decreases rows.len(),
{
    if rows.len() > 0 {
        lemma_sum_blob_nonneg(rows.drop_last());
        assert(rows.last().bitmap.segs().len() * (1 + SEGMENT_SIZE as int) >= 0)
            by (nonlinear_arith);
    }
}

/// The views of an outcome batch: address string, port, open flag.
pub open spec fn update_views(us: Seq<(String, u16, bool)>) -> Seq<(Seq<char>, u16, bool)> {
    us.map_values(|u: (String, u16, bool)| (u.0@, u.1, u.2))
}

/// The last outcome a batch holds for the pair `(ipv4_str(n), port)`.
pub open spec fn last_outcome(us: Seq<(Seq<char>, u16, bool)>, port: u16, n: u32) -> Option<bool>
    decreases us.len(),
{
    if us.len() == 0 {
        None
    } else if us.last().1 == port && us.last().0 == ipv4_str(n) {
        Some(us.last().2)
    } else {
        last_outcome(us.drop_last(), port, n)
    }
}

/// What a whole batch, applied in order, does to the detail rows: one
/// upsert per open outcome with a canonical address.
pub open spec fn bulk_details(
    rows: Seq<DetailModel>,
    us: Seq<(Seq<char>, u16, bool)>,
    round: i64,
    t: int,
) -> Seq<DetailModel>
    decreases us.len(),
{
    if us.len() == 0 {
        rows
    } else {
        let prev = bulk_details(rows, us.drop_last(), round, t);
        if us.last().2 && is_canon_ipv4(us.last().0) {
            upsert_detail_model(prev, us.last().0, us.last().1, round, t)
        } else {
            prev
        }
    }
}

/// Some outcome of the batch names this port with a canonical address.
pub open spec fn port_touched(us: Seq<(Seq<char>, u16, bool)>, port: u16) -> bool {
    exists|i: int| 0 <= i < us.len() && (#[trigger] us[i]).1 == port && is_canon_ipv4(us[i].0)
}

/// Lookups under every bitmap key that the batch does not touch agree
/// between two row lists.
pub open spec fn brow_frame_except(
    olds: Seq<PortBitmapRow>,
    news: Seq<PortBitmapRow>,
    tp: IpType,
    round: i64,
    us: Seq<(Seq<char>, u16, bool)>,
) -> bool {
    forall|p2: u16, t2: IpType, r2: i64|
        !(t2 == tp && r2 == round && port_touched(us, p2)) ==> #[trigger] has_brow(news, p2, t2, r2)
            == has_brow(olds, p2, t2, r2) && (has_brow(olds, p2, t2, r2) ==> brow(news, p2, t2, r2)
            == brow(olds, p2, t2, r2))
}

/// Lookups under every key other than the named one agree between two row
/// lists.
pub open spec fn brow_frame(
    olds: Seq<PortBitmapRow>,
    news: Seq<PortBitmapRow>,
    port: u16,
    tp: IpType,
    round: i64,
) -> bool {
    forall|p2: u16, t2: IpType, r2: i64|
        !(p2 == port && t2 == tp && r2 == round) ==> #[trigger] has_brow(news, p2, t2, r2)
            == has_brow(olds, p2, t2, r2) && (has_brow(olds, p2, t2, r2) ==> brow(news, p2, t2, r2)
            == brow(olds, p2, t2, r2))
}

/// One applied outcome extends the untouched-key frame of a batch by one
/// element.
#[verifier::rlimit(60)]
proof fn lemma_frame_except_step(
    oldb: Seq<PortBitmapRow>,
    midb: Seq<PortBitmapRow>,
    news: Seq<PortBitmapRow>,
    tp: IpType,
    round: i64,
    take0: Seq<(Seq<char>, u16, bool)>,
    take1: Seq<(Seq<char>, u16, bool)>,
    port: u16,
)
    requires
        brow_frame_except(oldb, midb, tp, round, take0),
        brow_frame(midb, news, port, tp, round),
        take1.len() == take0.len() + 1,
        forall|a: int| 0 <= a < take0.len() ==> take1[a] == take0[a],
        take1.last().1 == port,
        is_canon_ipv4(take1.last().0),
    ensures
        brow_frame_except(oldb, news, tp, round, take1),
{
    assert forall|p2: u16, t2: IpType, r2: i64|
        !(t2 == tp && r2 == round && port_touched(take1, p2)) implies #[trigger] has_brow(
        news,
        p2,
        t2,
        r2,
    ) == has_brow(oldb, p2, t2, r2) && (has_brow(oldb, p2, t2, r2) ==> brow(news, p2, t2, r2)
        == brow(oldb, p2, t2, r2)) by {
        assert(!(t2 == tp && r2 == round && port_touched(take0, p2))) by {
            if port_touched(take0, p2) {
                let w = choose|w: int|
                    0 <= w < take0.len() && (#[trigger] take0[w]).1 == p2 && is_canon_ipv4(
                        take0[w].0,
                    );
                assert(take1[w] == take0[w]);
                assert(port_touched(take1, p2));
            }
        }
        assert(!(p2 == port && t2 == tp && r2 == round)) by {
            if p2 == port && t2 == tp && r2 == round {
                assert(take1[take1.len() - 1].1 == port && is_canon_ipv4(
                    take1[take1.len() - 1].0,
                ));
                assert(port_touched(take1, p2));
            }
        }
        assert(has_brow(midb, p2, t2, r2) == has_brow(oldb, p2, t2, r2));
        assert(has_brow(oldb, p2, t2, r2) ==> brow(midb, p2, t2, r2) == brow(oldb, p2, t2, r2));
        assert(has_brow(news, p2, t2, r2) == has_brow(midb, p2, t2, r2));
        assert(has_brow(midb, p2, t2, r2) ==> brow(news, p2, t2, r2) == brow(midb, p2, t2, r2));
    }
}

/// A skipped outcome leaves the untouched-key frame as it was, since it
/// touches no port.
proof fn lemma_frame_except_skip(
    oldb: Seq<PortBitmapRow>,
    news: Seq<PortBitmapRow>,
    tp: IpType,
    round: i64,
    take0: Seq<(Seq<char>, u16, bool)>,
    take1: Seq<(Seq<char>, u16, bool)>,
)
    requires
        brow_frame_except(oldb, news, tp, round, take0),
        take1.len() == take0.len() + 1,
        forall|a: int| 0 <= a < take0.len() ==> take1[a] == take0[a],
        !is_canon_ipv4(take1.last().0),
    ensures
        brow_frame_except(oldb, news, tp, round, take1),
{
    assert forall|p2: u16, t2: IpType, r2: i64|
        !(t2 == tp && r2 == round && port_touched(take1, p2)) implies #[trigger] has_brow(
        news,
        p2,
        t2,
        r2,
    ) == has_brow(oldb, p2, t2, r2) && (has_brow(oldb, p2, t2, r2) ==> brow(news, p2, t2, r2)
        == brow(oldb, p2, t2, r2)) by {
        assert(!(t2 == tp && r2 == round && port_touched(take0, p2))) by {
            if port_touched(take0, p2) {
                let w = choose|w: int|
                    0 <= w < take0.len() && (#[trigger] take0[w]).1 == p2 && is_canon_ipv4(
                        take0[w].0,
                    );
                assert(take1[w] == take0[w]);
                assert(port_touched(take1, p2));
            }
        }
        assert(has_brow(news, p2, t2, r2) == has_brow(oldb, p2, t2, r2));
        assert(has_brow(oldb, p2, t2, r2) ==> brow(news, p2, t2, r2) == brow(oldb, p2, t2, r2));
    }
}

/// Bitmap-row keys are unique.
pub open spec fn brows_unique(rows: Seq<PortBitmapRow>) -> bool {
    forall|i: int, j: int|
        0 <= i < j < rows.len() ==> !(#[trigger] rows[i].port == (#[trigger] rows[j]).port
            && rows[i].ip_type == rows[j].ip_type && rows[i].scan_round == rows[j].scan_round)
}

/// With unique keys, a row that matches a key is the stored row for it.
/// This is the lookup's pinning fact, for readers of the bitmap rows.
pub proof fn lemma_brow_pin(rows: Seq<PortBitmapRow>, i: int, port: u16, tp: IpType, round: i64)
    requires
        brows_unique(rows),
        0 <= i < rows.len(),
        rows[i].port == port,
        rows[i].ip_type == tp,
        rows[i].scan_round == round,
    ensures
        has_brow(rows, port, tp, round),
        brow(rows, port, tp, round) == rows[i],
{
    lemma_brow_at(rows, i, port, tp, round);
}

/// With unique keys, a row that matches a key is the stored row for it.
proof fn lemma_brow_at(rows: Seq<PortBitmapRow>, i: int, port: u16, tp: IpType, round: i64)
    requires
        brows_unique(rows),
        0 <= i < rows.len(),
        rows[i].port == port,
        rows[i].ip_type == tp,
        rows[i].scan_round == round,
    ensures
        has_brow(rows, port, tp, round),
        brow(rows, port, tp, round) == rows[i],
{
    assert(has_brow(rows, port, tp, round));
    let w = choose|w: int|
        0 <= w < rows.len() && (#[trigger] rows[w]).port == port && rows[w].ip_type == tp
            && rows[w].scan_round == round;
    if w != i {
        if w < i {
            assert(!(rows[w].port == rows[i].port && rows[w].ip_type == rows[i].ip_type
                && rows[w].scan_round == rows[i].scan_round));
        } else {
            assert(!(rows[i].port == rows[w].port && rows[i].ip_type == rows[w].ip_type
                && rows[i].scan_round == rows[w].scan_round));
        }
    }
}

/// Replacing the row at one index, key unchanged, leaves the lookup of
/// every other key as it was.
proof fn lemma_brow_update_frame(
    olds: Seq<PortBitmapRow>,
    news: Seq<PortBitmapRow>,
    i: int,
    port: u16,
    tp: IpType,
    round: i64,
)
    requires
        brows_unique(olds),
        0 <= i < olds.len(),
        news.len() == olds.len(),
        forall|a: int| 0 <= a < olds.len() && a != i ==> news[a] == olds[a],
        olds[i].port == port && olds[i].ip_type == tp && olds[i].scan_round == round,
        news[i].port == port && news[i].ip_type == tp && news[i].scan_round == round,
    ensures
        brows_unique(news),
        brow_frame(olds, news, port, tp, round),
{
    assert forall|a: int, b: int|
        0 <= a < b < news.len() implies !(#[trigger] news[a].port == (#[trigger] news[b]).port
        && news[a].ip_type == news[b].ip_type && news[a].scan_round == news[b].scan_round) by {
        assert(news[a].port == olds[a].port && news[a].ip_type == olds[a].ip_type
            && news[a].scan_round == olds[a].scan_round);
        assert(news[b].port == olds[b].port && news[b].ip_type == olds[b].ip_type
            && news[b].scan_round == olds[b].scan_round);
    }
    assert forall|p2: u16, t2: IpType, r2: i64|
        !(p2 == port && t2 == tp && r2 == round) implies #[trigger] has_brow(news, p2, t2, r2)
        == has_brow(olds, p2, t2, r2) && (has_brow(olds, p2, t2, r2) ==> brow(news, p2, t2, r2)
        == brow(olds, p2, t2, r2)) by {
        if has_brow(olds, p2, t2, r2) {
            let a = choose|a: int|
                0 <= a < olds.len() && (#[trigger] olds[a]).port == p2 && olds[a].ip_type == t2
                    && olds[a].scan_round == r2;
            assert(a != i);
            assert(news[a] == olds[a]);
            lemma_brow_at(news, a, p2, t2, r2);
            lemma_brow_at(olds, a, p2, t2, r2);
        } else {
            if has_brow(news, p2, t2, r2) {
                let a = choose|a: int|
                    0 <= a < news.len() && (#[trigger] news[a]).port == p2 && news[a].ip_type == t2
                        && news[a].scan_round == r2;
                assert(a != i);
                assert(news[a] == olds[a]);
            }
        }
    }
}

/// Appending a row with a fresh key leaves the lookup of every other key
/// as it was.
proof fn lemma_brow_push_frame(
    olds: Seq<PortBitmapRow>,
    news: Seq<PortBitmapRow>,
    port: u16,
    tp: IpType,
    round: i64,
)
    requires
        brows_unique(olds),
        !has_brow(olds, port, tp, round),
        news.len() == olds.len() + 1,
        forall|a: int| 0 <= a < olds.len() ==> news[a] == olds[a],
        news[olds.len() as int].port == port,
        news[olds.len() as int].ip_type == tp,
        news[olds.len() as int].scan_round == round,
    ensures
        brows_unique(news),
        brow_frame(olds, news, port, tp, round),
{
    let m = olds.len() as int;
    assert forall|a: int, b: int|
        0 <= a < b < news.len() implies !(#[trigger] news[a].port == (#[trigger] news[b]).port
        && news[a].ip_type == news[b].ip_type && news[a].scan_round == news[b].scan_round) by {
        if b < m {
            assert(news[a] == olds[a] && news[b] == olds[b]);
        } else {
            assert(news[a] == olds[a]);
            if news[a].port == port && news[a].ip_type == tp && news[a].scan_round == round {
                assert(has_brow(olds, port, tp, round));
            }
        }
    }
    assert forall|p2: u16, t2: IpType, r2: i64|
        !(p2 == port && t2 == tp && r2 == round) implies #[trigger] has_brow(news, p2, t2, r2)
        == has_brow(olds, p2, t2, r2) && (has_brow(olds, p2, t2, r2) ==> brow(news, p2, t2, r2)
        == brow(olds, p2, t2, r2)) by {
        if has_brow(olds, p2, t2, r2) {
            let a = choose|a: int|
                0 <= a < olds.len() && (#[trigger] olds[a]).port == p2 && olds[a].ip_type == t2
                    && olds[a].scan_round == r2;
            assert(news[a] == olds[a]);
            lemma_brow_at(news, a, p2, t2, r2);
            lemma_brow_at(olds, a, p2, t2, r2);
        } else {
            if has_brow(news, p2, t2, r2) {
                let a = choose|a: int|
                    0 <= a < news.len() && (#[trigger] news[a]).port == p2 && news[a].ip_type == t2
                        && news[a].scan_round == r2;
                if a < m {
                    assert(news[a] == olds[a]);
                }
            }
        }
    }
}

/// Updating one metadata row in place leaves every other key's lookup
/// unchanged.
proof fn lemma_meta_lookup_frame(olds: Seq<MetaRow>, news: Seq<MetaRow>, i: int, k: Seq<char>)
    requires
        0 <= i < olds.len(),
        news.len() == olds.len(),
        forall|a: int| 0 <= a < olds.len() && a != i ==> news[a] == olds[a],
        news[i].key@ == olds[i].key@,
        k != olds[i].key@,
        forall|a: int, b: int| 0 <= a < b < olds.len() ==> (#[trigger] olds[a]).key@ != (
        #[trigger] olds[b]).key@,
    ensures
        lookup_meta(news, k) == lookup_meta(olds, k),
{
    if exists|a: int| 0 <= a < olds.len() && (#[trigger] olds[a]).key@ == k {
        let a0 = choose|a: int| 0 <= a < olds.len() && (#[trigger] olds[a]).key@ == k;
        assert(a0 != i);
        assert(news[a0].key@ == k);
        assert(exists|a: int| 0 <= a < news.len() && (#[trigger] news[a]).key@ == k);
        let a1 = choose|a: int| 0 <= a < news.len() && (#[trigger] news[a]).key@ == k;
        if a1 != a0 {
            assert(a1 != i);
            assert(news[a1] == olds[a1]);
            if a0 < a1 {
                assert(olds[a0].key@ != olds[a1].key@);
            } else {
                assert(olds[a1].key@ != olds[a0].key@);
            }
        }
        assert(a1 == a0);
        assert(news[a1].value@ == olds[a0].value@);
    } else {
        assert forall|a: int| 0 <= a < news.len() implies (#[trigger] news[a]).key@ != k by {
            if a != i {
                assert(news[a] == olds[a]);
            }
        }
    }
}

/// Appending a row for a fresh key leaves every other key's lookup
/// unchanged.
proof fn lemma_meta_lookup_push_frame(olds: Seq<MetaRow>, news: Seq<MetaRow>, k: Seq<char>)
    requires
        news.len() == olds.len() + 1,
        forall|a: int| 0 <= a < olds.len() ==> news[a] == olds[a],
        k != news[olds.len() as int].key@,
        forall|a: int, b: int| 0 <= a < b < olds.len() ==> (#[trigger] olds[a]).key@ != (
        #[trigger] olds[b]).key@,
    ensures
        lookup_meta(news, k) == lookup_meta(olds, k),
{
    if exists|a: int| 0 <= a < olds.len() && (#[trigger] olds[a]).key@ == k {
        let a0 = choose|a: int| 0 <= a < olds.len() && (#[trigger] olds[a]).key@ == k;
        assert(news[a0].key@ == k);
        assert(exists|a: int| 0 <= a < news.len() && (#[trigger] news[a]).key@ == k);
        let a1 = choose|a: int| 0 <= a < news.len() && (#[trigger] news[a]).key@ == k;
        if a1 != a0 {
            assert(a1 < olds.len());
            assert(news[a1] == olds[a1]);
            if a0 < a1 {
                assert(olds[a0].key@ != olds[a1].key@);
            } else {
                assert(olds[a1].key@ != olds[a0].key@);
            }
        }
        assert(news[a1].value@ == olds[a0].value@);
    } else {
        assert forall|a: int| 0 <= a < news.len() implies (#[trigger] news[a]).key@ != k by {
            if a < olds.len() {
                assert(news[a] == olds[a]);
            }
        }
    }
}

/// Metadata lookup over a bare row list; `ScanStore::spec_metadata` is this
/// lookup on the store's rows.
pub open spec fn lookup_meta(rows: Seq<MetaRow>, key: Seq<char>) -> Option<Seq<char>> {
    if exists|i: int| 0 <= i < rows.len() && (#[trigger] rows[i]).key@ == key {
        let i = choose|i: int| 0 <= i < rows.len() && (#[trigger] rows[i]).key@ == key;
        Some(rows[i].value@)
    } else {
        None
    }
}

/// Detail-row keys are unique over the models.
pub open spec fn details_unique(rows: Seq<DetailModel>) -> bool {
    forall|i: int, j: int|
        0 <= i < j < rows.len() ==> !(#[trigger] rows[i].ip == (#[trigger] rows[j]).ip && rows[
        i].port == rows[j].port)
}

/// An observation never lowers `first_seen` and never lowers `last_seen`:
/// the row's `first_seen` is kept exactly, and `last_seen` moves to the
/// observation time, which the monotone clock keeps at or above the old
/// value.
pub proof fn lemma_first_seen_stable(
    rows: Seq<DetailModel>,
    ip: Seq<char>,
    port: u16,
    round: i64,
    t: int,
    ip0: Seq<char>,
    port0: u16,
)
    requires
        details_unique(rows),
        has_detail(rows, ip0, port0),
        t >= detail_of(rows, ip0, port0).last_seen,
        0 <= t <= i64::MAX,
    ensures
        has_detail(upsert_detail_model(rows, ip, port, round, t), ip0, port0),
        detail_of(upsert_detail_model(rows, ip, port, round, t), ip0, port0).first_seen
            == detail_of(rows, ip0, port0).first_seen,
        detail_of(upsert_detail_model(rows, ip, port, round, t), ip0, port0).last_seen >= detail_of(
            rows,
            ip0,
            port0,
        ).last_seen,
{
    let news = upsert_detail_model(rows, ip, port, round, t);
    let a0 = choose|i: int| 0 <= i < rows.len() && (#[trigger] rows[i]).ip == ip0 && rows[i].port
        == port0;
    if has_detail(rows, ip, port) {
        let w = choose|i: int|
            0 <= i < rows.len() && (#[trigger] rows[i]).ip == ip && rows[i].port == port;
        assert(news.len() == rows.len());
        assert(news[a0].ip == ip0 && news[a0].port == port0);
        assert(has_detail(news, ip0, port0));
        let a1 = choose|i: int|
            0 <= i < news.len() && (#[trigger] news[i]).ip == ip0 && news[i].port == port0;
        if a1 != a0 {
            assert(news[a1].ip == rows[a1].ip && news[a1].port == rows[a1].port);
            if a0 < a1 {
                assert(!(rows[a0].ip == rows[a1].ip && rows[a0].port == rows[a1].port));
            } else {
                assert(!(rows[a1].ip == rows[a0].ip && rows[a1].port == rows[a0].port));
            }
        }
        assert(a1 == a0);
        if a0 == w {
            assert(news[a0].first_seen == rows[a0].first_seen);
            assert(news[a0].last_seen == t);
        } else {
            assert(news[a0] == rows[a0]);
        }
    } else {
        assert(news == rows.push(
            DetailModel {
                ip,
                ip_type: IpType::V4,
                port,
                scan_round: round,
                first_seen: t as i64,
                last_seen: t as i64,
            },
        ));
        assert(news[a0] == rows[a0]);
        assert(has_detail(news, ip0, port0));
        let a1 = choose|i: int|
            0 <= i < news.len() && (#[trigger] news[i]).ip == ip0 && news[i].port == port0;
        if a1 != a0 {
            if a1 < rows.len() {
                assert(news[a1] == rows[a1]);
                if a0 < a1 {
                    assert(!(rows[a0].ip == rows[a1].ip && rows[a0].port == rows[a1].port));
                } else {
                    assert(!(rows[a1].ip == rows[a0].ip && rows[a1].port == rows[a0].port));
                }
            } else {
                assert(news[a1].ip == ip && news[a1].port == port);
                assert(has_detail(rows, ip, port));
            }
        }
        assert(a1 == a0);
    }
}

/// Every detail row is backed by a set bit: some bitmap row of the same
/// port holds the bit of the row's address.
pub open spec fn covered(s: ScanStore) -> bool {
    forall|i: int|
        0 <= i < s.detail_rows@.len() ==> exists|n: u32, tp: IpType, r2: i64|
            (#[trigger] s.detail_rows@[i]).ip_address@ == ipv4_str(n) && brow_bit(
                s.bitmap_rows@,
                s.detail_rows@[i].port,
                tp,
                r2,
                n,
            )
}

/// One open observation keeps every detail row backed by a set bit: the
/// new or refreshed row is backed by the bit the observation just set, and
/// every other row's witness bit survives, because only the observed
/// address's bit in the observed round changed and it changed to set.
/// This holds of open observations; a later closed observation for the
/// same address and port in the same round clears the bit and can leave
/// the detail row of that pair unbacked.
pub proof fn lemma_covered_after_open(olds: ScanStore, news: ScanStore, ip: Seq<char>, port: u16, scan_round: i64, t: int)
    requires
        covered(olds),
        olds.wf(),
        news.wf(),
        is_canon_ipv4(ip),
        0 <= t <= i64::MAX,
        details_model(news.detail_rows@) == upsert_detail_model(
            details_model(olds.detail_rows@),
            ip,
            port,
            scan_round,
            t,
        ),
        forall|n: u32|
            ip == ipv4_str(n) ==> brow_bit(news.bitmap_rows@, port, IpType::V4, scan_round, n)
                == true,
        forall|n: u32, m: u32|
            ip == ipv4_str(n) && m != n ==> brow_bit(news.bitmap_rows@, port, IpType::V4,
                scan_round, m) == brow_bit(olds.bitmap_rows@, port, IpType::V4, scan_round, m),
        brow_frame(olds.bitmap_rows@, news.bitmap_rows@, port, IpType::V4, scan_round),
    ensures
        covered(news),
{
    let om = details_model(olds.detail_rows@);
    let nm = details_model(news.detail_rows@);
    let nidx = choose|n: u32| ip == ipv4_str(n);
    assert(ip == ipv4_str(nidx));
    assert forall|i: int|
        0 <= i < news.detail_rows@.len() implies exists|n: u32, tp: IpType, r2: i64|
        (#[trigger] news.detail_rows@[i]).ip_address@ == ipv4_str(n) && brow_bit(
            news.bitmap_rows@,
            news.detail_rows@[i].port,
            tp,
            r2,
            n,
        ) by {
        assert(nm[i] == news.detail_rows@[i].model());
        if has_detail(om, ip, port) {
            let w = choose|a: int|
                0 <= a < om.len() && (#[trigger] om[a]).ip == ip && om[a].port == port;
            let rec = DetailModel {
                ip: om[w].ip,
                ip_type: om[w].ip_type,
                port: om[w].port,
                scan_round,
                first_seen: om[w].first_seen,
                last_seen: t as i64,
            };
            assert(nm == om.update(w, rec));
            assert(nm.len() == om.len());
            if i == w {
                assert(nm[i] == rec);
                assert(news.detail_rows@[i].ip_address@ == ip);
                assert(news.detail_rows@[i].port == port);
                assert(brow_bit(news.bitmap_rows@, port, IpType::V4, scan_round, nidx));
            } else {
                assert(0 <= i < om.len());
                assert(om.update(w, rec)[i] == om[i]);
                assert(nm[i] == om[i]);
                lemma_witness_survives(olds, news, i, ip, port, scan_round, nidx);
            }
        } else {
            let rec = DetailModel {
                ip,
                ip_type: IpType::V4,
                port,
                scan_round,
                first_seen: t as i64,
                last_seen: t as i64,
            };
            assert(nm == om.push(rec));
            assert(nm.len() == om.len() + 1);
            if i == om.len() {
                assert(nm[i] == rec);
                assert(news.detail_rows@[i].ip_address@ == ip);
                assert(news.detail_rows@[i].port == port);
                assert(brow_bit(news.bitmap_rows@, port, IpType::V4, scan_round, nidx));
            } else {
                assert(0 <= i < om.len());
                assert(om.push(rec)[i] == om[i]);
                assert(nm[i] == om[i]);
                lemma_witness_survives(olds, news, i, ip, port, scan_round, nidx);
            }
        }
    }
}

/// The backing bit of a detail row other than the one being observed
/// survives an open observation.
proof fn lemma_witness_survives(olds: ScanStore, news: ScanStore, i: int, ip: Seq<char>, port: u16, scan_round: i64, nidx: u32)
    requires
        covered(olds),
        0 <= i < olds.detail_rows@.len(),
        i < news.detail_rows@.len(),
        news.detail_rows@[i].model() == details_model(olds.detail_rows@)[i],
        ip == ipv4_str(nidx),
        forall|n: u32|
            ip == ipv4_str(n) ==> brow_bit(news.bitmap_rows@, port, IpType::V4, scan_round, n)
                == true,
        forall|n: u32, m: u32|
            ip == ipv4_str(n) && m != n ==> brow_bit(news.bitmap_rows@, port, IpType::V4,
                scan_round, m) == brow_bit(olds.bitmap_rows@, port, IpType::V4, scan_round, m),
        brow_frame(olds.bitmap_rows@, news.bitmap_rows@, port, IpType::V4, scan_round),
    ensures
        exists|n: u32, tp: IpType, r2: i64|
            (#[trigger] news.detail_rows@[i]).ip_address@ == ipv4_str(n) && brow_bit(
                news.bitmap_rows@,
                news.detail_rows@[i].port,
                tp,
                r2,
                n,
            ),
{
    let d = olds.detail_rows@[i];
    assert(news.detail_rows@[i].ip_address@ == d.ip_address@ && news.detail_rows@[i].port
        == d.port) by {
        assert(details_model(olds.detail_rows@)[i] == d.model());
    }
    let (n0, tp0, r0): (u32, IpType, i64) = choose|n: u32, tp: IpType, r2: i64|
        (#[trigger] olds.detail_rows@[i]).ip_address@ == ipv4_str(n) && brow_bit(
            olds.bitmap_rows@,
            olds.detail_rows@[i].port,
            tp,
            r2,
            n,
        );
    if d.port == port && tp0 == IpType::V4 && r0 == scan_round {
        if n0 == nidx {
            assert(brow_bit(news.bitmap_rows@, port, IpType::V4, scan_round, n0));
        } else {
            assert(brow_bit(news.bitmap_rows@, port, IpType::V4, scan_round, n0) == brow_bit(
                olds.bitmap_rows@,
                port,
                IpType::V4,
                scan_round,
                n0,
            ));
        }
        assert(news.detail_rows@[i].ip_address@ == ipv4_str(n0) && brow_bit(
            news.bitmap_rows@,
            news.detail_rows@[i].port,
            tp0,
            r0,
            n0,
        ));
    } else {
        assert(has_brow(news.bitmap_rows@, d.port, tp0, r0) == has_brow(
            olds.bitmap_rows@,
            d.port,
            tp0,
            r0,
        ));
        assert(has_brow(olds.bitmap_rows@, d.port, tp0, r0) ==> brow(
            news.bitmap_rows@,
            d.port,
            tp0,
            r0,
        ) == brow(olds.bitmap_rows@, d.port, tp0, r0));
        assert(brow_bit(news.bitmap_rows@, d.port, tp0, r0, n0) == brow_bit(
            olds.bitmap_rows@,
            d.port,
            tp0,
            r0,
            n0,
        ));
        assert(news.detail_rows@[i].ip_address@ == ipv4_str(n0) && brow_bit(
            news.bitmap_rows@,
            news.detail_rows@[i].port,
            tp0,
            r0,
            n0,
        ));
    }
}

/// A persisted row's cached count is the population count of whatever its
/// blob deserializes to: any well-formed bitmap whose wire form equals the
/// row's holds exactly `open_count` set bits.
pub proof fn lemma_open_count_matches_blob(row: PortBitmapRow, decoded: PortBitmap)
    requires
        row.bitmap.wf(),
        decoded.wf(),
        row.open_count == popcount_segs(row.bitmap.segs()),
        crate::bitmap::spec_serialize(decoded.segs()) == crate::bitmap::spec_serialize(
            row.bitmap.segs(),
        ),
    ensures
        row.open_count == popcount_segs(decoded.segs()),
{
    crate::bitmap::lemma_codec_round_trip(row.bitmap, decoded);
}

} // verus!
