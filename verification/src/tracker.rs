//! The tracker: a short-TTL in-memory registry mapping peer ids to
//! dialable addresses, with its token check and its query parsing. The
//! HTTP plumbing around it lives outside the library and hands in plain
//! request values.

use crate::strutil::{
    char_range, chars_eq, chars_to_string, find_ch, find_char, lemma_find_ch_at,
    spec_starts_with, spec_trim, spec_trim_end_in, starts_with_chars, str_eq, str_to_chars,
    trim_chars,
};
use vstd::prelude::*;

verus! {

/// What a peer says about itself when registering.
#[derive(Debug)]
pub struct PeerMeta {
    pub device_id: Option<String>,
    pub hostname: Option<String>,
    pub user_id: Option<String>,
    pub version: Option<String>,
}

/// Model of the metadata.
pub ghost struct PeerMetaModel {
    pub device_id: Option<Seq<char>>,
    pub hostname: Option<Seq<char>>,
    pub user_id: Option<Seq<char>>,
    pub version: Option<Seq<char>>,
}

impl View for PeerMeta {
    type V = PeerMetaModel;

    open spec fn view(&self) -> PeerMetaModel {
        PeerMetaModel {
            device_id: match self.device_id {
                Some(d) => Some(d@),
                None => None,
            },
            hostname: match self.hostname {
                Some(h) => Some(h@),
                None => None,
            },
            user_id: match self.user_id {
                Some(u) => Some(u@),
                None => None,
            },
            version: match self.version {
                Some(v) => Some(v@),
                None => None,
            },
        }
    }
}

impl Clone for PeerMeta {
    fn clone(&self) -> (r: PeerMeta)
        ensures
            r@ == self@,
    {
        PeerMeta {
            device_id: match &self.device_id {
                Some(d) => Some(d.clone()),
                None => None,
            },
            hostname: match &self.hostname {
                Some(h) => Some(h.clone()),
                None => None,
            },
            user_id: match &self.user_id {
                Some(u) => Some(u.clone()),
                None => None,
            },
            version: match &self.version {
                Some(v) => Some(v.clone()),
                None => None,
            },
        }
    }
}

/// A registration request: a peer id, its addresses, optional metadata.
#[derive(Debug)]
pub struct RegisterRequest {
    pub peer_id: String,
    pub addrs: Vec<String>,
    pub meta: Option<PeerMeta>,
}

/// The tracker's answer to a registration.
#[derive(Debug, Clone, Copy, PartialEq, Eq, Structural)]
pub struct RegisterResponse {
    pub ok: bool,
    pub ttl_sec: u64,
}

/// One peer as the list endpoint reports it.
#[derive(Debug)]
pub struct PeerInfo {
    pub peer_id: String,
    pub addrs: Vec<String>,
    pub meta: Option<PeerMeta>,
    pub last_seen_unix: i64,
}

/// The list endpoint's whole answer.
#[derive(Debug)]
pub struct ListResponse {
    pub peers: Vec<PeerInfo>,
}

/// One registered peer, as the tracker holds it.
pub struct TrackerRecord {
    pub peer_id: String,
    pub addrs: Vec<String>,
    pub meta: Option<PeerMeta>,
    pub last_seen_unix: i64,
}

/// Model of a registered peer.
pub ghost struct TrackerRecordModel {
    pub peer_id: Seq<char>,
    pub addrs: Seq<Seq<char>>,
    pub meta: Option<PeerMetaModel>,
    pub last_seen_unix: int,
}

impl View for TrackerRecord {
    type V = TrackerRecordModel;

    open spec fn view(&self) -> TrackerRecordModel {
        TrackerRecordModel {
            peer_id: self.peer_id@,
            addrs: self.addrs.deep_view(),
            meta: match self.meta {
                Some(m) => Some(m@),
                None => None,
            },
            last_seen_unix: self.last_seen_unix as int,
        }
    }
}

impl DeepView for TrackerRecord {
    type V = TrackerRecordModel;

    open spec fn deep_view(&self) -> TrackerRecordModel {
        self.view()
    }
}

/// The registry: every live registration, keyed by peer id.
pub struct TrackerState {
    peers: Vec<TrackerRecord>,
}

/// Whether a record is still live at `now` under the given TTL.
pub open spec fn record_live(r: TrackerRecordModel, now: int, ttl_sec: int) -> bool {
    now - r.last_seen_unix <= ttl_sec
}

/// The records still live at `now`, in registry order.
pub open spec fn live_records(
    rs: Seq<TrackerRecordModel>,
    now: int,
    ttl: int,
) -> Seq<TrackerRecordModel>
    decreases rs.len(),
{
    if rs.len() == 0 {
        Seq::empty()
    } else {
        let rest = live_records(rs.subrange(1, rs.len() as int), now, ttl);
        if record_live(rs[0], now, ttl) {
            seq![rs[0]] + rest
        } else {
            rest
        }
    }
}

proof fn lemma_live_records_snoc(
    rs: Seq<TrackerRecordModel>,
    r: TrackerRecordModel,
    now: int,
    ttl: int,
)
    ensures
        live_records(rs.push(r), now, ttl) =~= live_records(rs, now, ttl) + (if record_live(
            r,
            now,
            ttl,
        ) {
            seq![r]
        } else {
            Seq::empty()
        }),
    decreases rs.len(),
{
    let x: Seq<TrackerRecordModel> = if record_live(r, now, ttl) {
        seq![r]
    } else {
        Seq::empty()
    };
    if rs.len() == 0 {
        assert(rs.push(r).subrange(1, 1) =~= Seq::<TrackerRecordModel>::empty());
        assert(live_records(Seq::<TrackerRecordModel>::empty(), now, ttl)
            == Seq::<TrackerRecordModel>::empty());
        assert(live_records(rs.push(r).subrange(1, 1), now, ttl)
            == Seq::<TrackerRecordModel>::empty());
        assert(live_records(rs.push(r), now, ttl) =~= x);
        assert(live_records(rs, now, ttl) + x =~= x);
    } else {
        let t = rs.subrange(1, rs.len() as int);
        assert(rs.push(r).subrange(1, rs.len() as int + 1) =~= t.push(r));
        lemma_live_records_snoc(t, r, now, ttl);
        assert(live_records(t.push(r), now, ttl) == live_records(t, now, ttl) + x);
        assert(rs.push(r)[0] == rs[0]);
        if record_live(rs[0], now, ttl) {
            assert(live_records(rs.push(r), now, ttl) == seq![rs[0]] + (live_records(t, now, ttl)
                + x));
            assert(seq![rs[0]] + (live_records(t, now, ttl) + x) =~= (seq![rs[0]] + live_records(
                t,
                now,
                ttl,
            )) + x);
        }
    }
}

/// Filtering never introduces a duplicate peer id.
proof fn lemma_live_records_unique(rs: Seq<TrackerRecordModel>, now: int, ttl: int)
    requires
        forall|i: int, j: int| 0 <= i < j < rs.len() ==> rs[i].peer_id != rs[j].peer_id,
    ensures
        forall|i: int, j: int|
            0 <= i < j < live_records(rs, now, ttl).len() ==> live_records(rs, now, ttl)[i].peer_id
                != live_records(rs, now, ttl)[j].peer_id,
    decreases rs.len(),
{
    if rs.len() > 0 {
        let t = rs.subrange(1, rs.len() as int);
        assert(forall|i: int, j: int| 0 <= i < j < t.len() ==> t[i].peer_id != t[j].peer_id);
        lemma_live_records_unique(t, now, ttl);
        lemma_live_records_elems(t, now, ttl);
        let a = live_records(rs, now, ttl);
        let b = live_records(t, now, ttl);
        if record_live(rs[0], now, ttl) {
            assert forall|i: int, j: int| 0 <= i < j < a.len() implies a[i].peer_id
                != a[j].peer_id by {
                if i == 0 {
                    assert(a[j] == b[j - 1]);
                    let k = choose|k: int| 0 <= k < t.len() && #[trigger] t[k] == #[trigger] b[j - 1];
                    assert(rs[k + 1] == t[k]);
                    assert(rs[0].peer_id != rs[k + 1].peer_id);
                } else {
                    assert(a[i] == b[i - 1] && a[j] == b[j - 1]);
                }
            }
        }
    }
}

/// Every surviving record is live and drawn from the registry.
pub proof fn lemma_live_records_elems(rs: Seq<TrackerRecordModel>, now: int, ttl: int)
    ensures
        forall|i: int|
            0 <= i < live_records(rs, now, ttl).len() ==> record_live(
                #[trigger] live_records(rs, now, ttl)[i],
                now,
                ttl,
            ),
        forall|i: int|
            0 <= i < live_records(rs, now, ttl).len() ==> exists|j: int|
                0 <= j < rs.len() && #[trigger] rs[j] == #[trigger] live_records(rs, now, ttl)[i],
    decreases rs.len(),
{
    if rs.len() > 0 {
        let t = rs.subrange(1, rs.len() as int);
        lemma_live_records_elems(t, now, ttl);
        let a = live_records(rs, now, ttl);
        let b = live_records(t, now, ttl);
        assert forall|i: int| 0 <= i < a.len() implies exists|j: int|
            0 <= j < rs.len() && #[trigger] rs[j] == #[trigger] a[i] by {
            if record_live(rs[0], now, ttl) {
                if i == 0 {
                    assert(rs[0] == a[0]);
                } else {
                    let k = choose|k: int| 0 <= k < t.len() && #[trigger] t[k] == #[trigger] b[i - 1];
                    assert(rs[k + 1] == a[i]);
                }
            } else {
                let k = choose|k: int| 0 <= k < t.len() && #[trigger] t[k] == #[trigger] b[i];
                assert(rs[k + 1] == a[i]);
            }
        }
    }
}

/// Whether a registration stamped `last_seen` is still live at `now`.
fn record_is_live(now: i64, last_seen: i64, ttl_sec: u64) -> (r: bool)
    ensures
        r == (now as int - last_seen as int <= ttl_sec as int),
{
    if now < last_seen {
        true
    } else {
        match now.checked_sub(last_seen) {
            Some(d) => (d as u64) <= ttl_sec,
            None => {
                let a: u64 = now as u64;
                let b: u64 = if last_seen == i64::MIN {
                    0x8000000000000000u64
                } else {
                    (-last_seen) as u64
                };
                proof {
                    assert(now >= 0) by {
                        if now < 0 {
                            assert(now as int - last_seen as int <= i64::MAX);
                        }
                    }
                    assert(a as int == now as int);
                    assert(b as int == -(last_seen as int));
                }
                a + b <= ttl_sec
            },
        }
    }
}

impl View for TrackerState {
    type V = Seq<TrackerRecordModel>;

    closed spec fn view(&self) -> Seq<TrackerRecordModel> {
        self.peers.deep_view()
    }
}

impl TrackerState {
    /// No two records share a peer id.
    pub closed spec fn wf(&self) -> bool {
        forall|i: int, j: int| 0 <= i < j < self@.len() ==> self@[i].peer_id != self@[j].peer_id
    }

    /// An empty registry.
    pub fn new() -> (r: TrackerState)
        ensures
            r.wf(),
            r@ == Seq::<TrackerRecordModel>::empty(),
    {
        let r = TrackerState { peers: Vec::new() };
        proof {
            assert(r.peers.deep_view() =~= Seq::<TrackerRecordModel>::empty());
        }
        r
    }

    /// Drops every record older than the TTL; with a TTL of zero the
    /// registry is cleared. What remains is exactly the live records, in
    /// their registry order.
    pub fn prune_expired(&mut self, now: i64, ttl_sec: u64)
        requires
            old(self).wf(),
        ensures
            final(self).wf(),
            ttl_sec == 0 ==> final(self)@ == Seq::<TrackerRecordModel>::empty(),
            ttl_sec > 0 ==> final(self)@ == live_records(
                old(self)@,
                now as int,
                ttl_sec as int,
            ),
    {
        if ttl_sec == 0 {
            self.peers = Vec::new();
            proof {
                assert(self.peers.deep_view() =~= Seq::<TrackerRecordModel>::empty());
            }
            return ;
        }
        let ghost before = self@;
        let n: usize = self.peers.len();
        let mut keep: Vec<TrackerRecord> = Vec::new();
        let ghost mut kept: Seq<TrackerRecordModel> = Seq::empty();
        let mut i: usize = 0;
        proof {
            assert(keep.deep_view() =~= kept);
            assert(before.subrange(0, 0) =~= Seq::<TrackerRecordModel>::empty());
        }
        while i < n
            invariant
                n == before.len(),
                before == self@,
                self.wf(),
                i <= n,
                ttl_sec > 0,
                keep.deep_view() == kept,
                kept == live_records(before.subrange(0, i as int), now as int, ttl_sec as int),
            decreases n - i,
        {
            let ghost keptpre = kept;
            let ghost pre = before.subrange(0, i as int);
            proof {
                assert(before.subrange(0, i + 1) =~= pre.push(before[i as int]));
                lemma_live_records_snoc(pre, before[i as int], now as int, ttl_sec as int);
                assert(before[i as int] == self.peers@[i as int]@);
            }
            let age_ok: bool = record_is_live(now, self.peers[i].last_seen_unix, ttl_sec);
            if age_ok {
                let rec = TrackerRecord {
                    peer_id: self.peers[i].peer_id.clone(),
                    addrs: self.peers[i].addrs.clone(),
                    meta: match &self.peers[i].meta {
                        Some(m) => Some(m.clone()),
                        None => None,
                    },
                    last_seen_unix: self.peers[i].last_seen_unix,
                };
                proof {
                    assert(rec@ == before[i as int]);
                }
                keep.push(rec);
                proof {
                    kept = kept.push(before[i as int]);
                    assert(keep.deep_view().len() == keep@.len());
                    assert forall|a: int|
                        0 <= a < keep.deep_view().len() implies #[trigger] keep.deep_view()[a]
                        == kept[a] by {
                        assert(keep.deep_view()[a] == keep@[a].deep_view());
                        if a < keptpre.len() {
                            assert(keptpre[a] == keep@[a].deep_view());
                        }
                    }
                    assert(keep.deep_view() =~= kept);
                    assert(kept =~= live_records(
                        before.subrange(0, i + 1),
                        now as int,
                        ttl_sec as int,
                    ));
                }
            } else {
                proof {
                    assert(kept =~= live_records(
                        before.subrange(0, i + 1),
                        now as int,
                        ttl_sec as int,
                    ));
                }
            }
            i = i + 1;
        }
        proof {
            assert(before.subrange(0, n as int) =~= before);
            lemma_live_records_unique(before, now as int, ttl_sec as int);
        }
        self.peers = keep;
    }
}

/// Index of the registration with this id, or -1.
pub open spec fn reg_index_of(rs: Seq<TrackerRecordModel>, id: Seq<char>) -> int
    decreases rs.len(),
{
    if rs.len() == 0 {
        -1
    } else if rs[0].peer_id == id {
        0
    } else {
        let r = reg_index_of(rs.subrange(1, rs.len() as int), id);
        if r < 0 {
            -1
        } else {
            r + 1
        }
    }
}

proof fn lemma_reg_index_none(rs: Seq<TrackerRecordModel>, id: Seq<char>)
    requires
        reg_index_of(rs, id) < 0,
    ensures
        forall|j: int| 0 <= j < rs.len() ==> (#[trigger] rs[j]).peer_id != id,
    decreases rs.len(),
{
    if rs.len() > 0 {
        let t = rs.subrange(1, rs.len() as int);
        lemma_reg_index_none(t, id);
        assert forall|j: int| 0 <= j < rs.len() implies (#[trigger] rs[j]).peer_id != id by {
            if j > 0 {
                assert(t[j - 1] == rs[j]);
                assert(t[j - 1].peer_id != id);
            }
        }
    }
}

proof fn lemma_reg_index_at(rs: Seq<TrackerRecordModel>, id: Seq<char>, i: int)
    requires
        0 <= i <= rs.len(),
        forall|j: int| 0 <= j < i ==> (#[trigger] rs[j]).peer_id != id,
        i == rs.len() || rs[i].peer_id == id,
    ensures
        reg_index_of(rs, id) == if i == rs.len() {
            -1
        } else {
            i
        },
    decreases i,
{
    if rs.len() > 0 && i > 0 {
        let t = rs.subrange(1, rs.len() as int);
        assert(forall|j: int| 0 <= j < i - 1 ==> (#[trigger] t[j]).peer_id != id);
        lemma_reg_index_at(t, id, i - 1);
    }
}

/// What a registration makes of the registry: the record under the same
/// peer id is replaced, or a new one appended.
pub open spec fn spec_register(rs: Seq<TrackerRecordModel>, rec: TrackerRecordModel) -> Seq<
    TrackerRecordModel,
> {
    let i = reg_index_of(rs, rec.peer_id);
    if i >= 0 {
        rs.update(i, rec)
    } else {
        rs.push(rec)
    }
}

/// The address list a registration keeps: each address trimmed, blank
/// ones dropped.
pub open spec fn spec_clean_addrs(addrs: Seq<Seq<char>>) -> Seq<Seq<char>>
    decreases addrs.len(),
{
    if addrs.len() == 0 {
        Seq::empty()
    } else {
        let rest = spec_clean_addrs(addrs.subrange(1, addrs.len() as int));
        let t = spec_trim(addrs[0]);
        if t.len() == 0 {
            rest
        } else {
            seq![t] + rest
        }
    }
}

proof fn lemma_clean_addrs_snoc(addrs: Seq<Seq<char>>, a: Seq<char>)
    ensures
        spec_clean_addrs(addrs.push(a)) =~= spec_clean_addrs(addrs) + (if spec_trim(a).len()
            == 0 {
            Seq::<Seq<char>>::empty()
        } else {
            seq![spec_trim(a)]
        }),
    decreases addrs.len(),
{
    let x: Seq<Seq<char>> = if spec_trim(a).len() == 0 {
        Seq::empty()
    } else {
        seq![spec_trim(a)]
    };
    if addrs.len() == 0 {
        assert(addrs.push(a).subrange(1, 1) =~= Seq::<Seq<char>>::empty());
        assert(spec_clean_addrs(Seq::<Seq<char>>::empty()) == Seq::<Seq<char>>::empty());
        assert(spec_clean_addrs(addrs.push(a).subrange(1, 1)) == Seq::<Seq<char>>::empty());
        assert(spec_clean_addrs(addrs.push(a)) =~= x);
        assert(spec_clean_addrs(addrs) + x =~= x);
    } else {
        let t = addrs.subrange(1, addrs.len() as int);
        assert(addrs.push(a).subrange(1, addrs.len() as int + 1) =~= t.push(a));
        lemma_clean_addrs_snoc(t, a);
        assert(spec_clean_addrs(t.push(a)) == spec_clean_addrs(t) + x);
        assert(addrs.push(a)[0] == addrs[0]);
        if spec_trim(addrs[0]).len() != 0 {
            assert(spec_clean_addrs(addrs.push(a)) == seq![spec_trim(addrs[0])] + (
            spec_clean_addrs(t) + x));
            assert(seq![spec_trim(addrs[0])] + (spec_clean_addrs(t) + x) =~= (seq![
                spec_trim(addrs[0]),
            ] + spec_clean_addrs(t)) + x);
        }
    }
}

/// Trims every address and drops the blank ones.
pub(crate) fn clean_addrs(addrs: &Vec<String>) -> (r: Vec<String>)
    ensures
        r.deep_view() == spec_clean_addrs(addrs.deep_view()),
{
    let n: usize = addrs.len();
    let mut out: Vec<String> = Vec::new();
    let ghost dv = addrs.deep_view();
    let ghost mut outm: Seq<Seq<char>> = Seq::empty();
    let mut i: usize = 0;
    proof {
        assert(out.deep_view() =~= outm);
        assert(dv.subrange(0, 0) =~= Seq::<Seq<char>>::empty());
        assert(spec_clean_addrs(dv.subrange(0, 0)) == Seq::<Seq<char>>::empty());
    }
    while i < n
        invariant
            n == addrs@.len(),
            dv == addrs.deep_view(),
            dv.len() == n,
            i <= n,
            out.deep_view() == outm,
            outm == spec_clean_addrs(dv.subrange(0, i as int)),
        decreases n - i,
    {
        let ghost outpre = outm;
        let ghost pre = dv.subrange(0, i as int);
        proof {
            assert(dv.subrange(0, i + 1) =~= pre.push(dv[i as int]));
            lemma_clean_addrs_snoc(pre, dv[i as int]);
            assert(dv[i as int] == addrs@[i as int]@);
        }
        let cs = str_to_chars(addrs[i].as_str());
        let t = trim_chars(cs.as_slice());
        if t.len() > 0 {
            out.push(chars_to_string(t.as_slice()));
            proof {
                outm = outm.push(spec_trim(dv[i as int]));
                assert(out.deep_view().len() == out@.len());
                assert forall|a: int|
                    0 <= a < out.deep_view().len() implies #[trigger] out.deep_view()[a]
                    == outm[a] by {
                    assert(out.deep_view()[a] == out@[a]@);
                    if a < outpre.len() {
                        assert(outpre[a] == out@[a]@);
                    }
                }
                assert(out.deep_view() =~= outm);
            }
        }
        i = i + 1;
    }
    proof {
        assert(dv.subrange(0, n as int) =~= dv);
    }
    out
}

/// Index of the registration under this peer id, if any.
fn find_reg(peers: &Vec<TrackerRecord>, id: &str) -> (r: Option<usize>)
    ensures
        match r {
            Some(i) => i < peers.deep_view().len() && peers.deep_view()[i as int].peer_id == id@
                && reg_index_of(peers.deep_view(), id@) == i,
            None => reg_index_of(peers.deep_view(), id@) == -1,
        },
{
    let n: usize = peers.len();
    let mut i: usize = 0;
    while i < n
        invariant
            n == peers@.len(),
            i <= n,
            forall|j: int| 0 <= j < i ==> (#[trigger] peers.deep_view()[j]).peer_id != id@,
        decreases n - i,
    {
        if str_eq(peers[i].peer_id.as_str(), id) {
            proof {
                assert(peers.deep_view()[i as int].peer_id == id@);
                lemma_reg_index_at(peers.deep_view(), id@, i as int);
            }
            return Some(i);
        }
        proof {
            assert(peers.deep_view()[i as int] == peers@[i as int]@);
        }
        i = i + 1;
    }
    proof {
        lemma_reg_index_at(peers.deep_view(), id@, n as int);
    }
    None
}

/// How the tracker answers a registration.
pub enum RegisterOutcome {
    /// The record was written; the response carries the TTL.
    Accepted(RegisterResponse),
    /// The peer id was blank: a bad request, nothing written.
    BadRequest,
}

impl TrackerState {
    /// Registers a peer: prunes expired records, then replaces the record
    /// under the trimmed peer id, stamping it `now`. A blank peer id is
    /// rejected before anything is touched.
    pub fn register(
        &mut self,
        peer_id: &str,
        addrs: Vec<String>,
        meta: Option<PeerMeta>,
        now: i64,
        ttl_sec: u64,
    ) -> (r: RegisterOutcome)
        requires
            old(self).wf(),
        ensures
            final(self).wf(),
            spec_trim(peer_id@).len() == 0 ==> r is BadRequest && final(self)@ == old(self)@,
            spec_trim(peer_id@).len() > 0 ==> {
                let pruned = if ttl_sec == 0 {
                    Seq::<TrackerRecordModel>::empty()
                } else {
                    live_records(old(self)@, now as int, ttl_sec as int)
                };
                let rec = TrackerRecordModel {
                    peer_id: spec_trim(peer_id@),
                    addrs: spec_clean_addrs(addrs.deep_view()),
                    meta: match meta {
                        Some(m) => Some(m@),
                        None => None,
                    },
                    last_seen_unix: now as int,
                };
                &&& (r matches RegisterOutcome::Accepted(resp) && resp.ok && resp.ttl_sec
                    == ttl_sec)
                &&& final(self)@ == spec_register(pruned, rec)
            },
    {
        let pid_cs = str_to_chars(peer_id);
        let pid_t = trim_chars(pid_cs.as_slice());
        if pid_t.len() == 0 {
            return RegisterOutcome::BadRequest;
        }
        let pid = chars_to_string(pid_t.as_slice());
        self.prune_expired(now, ttl_sec);
        let rec = TrackerRecord {
            peer_id: pid,
            addrs: clean_addrs(&addrs),
            meta,
            last_seen_unix: now,
        };
        let ghost pruned = self@;
        let ghost recm = rec@;
        let n: usize = self.peers.len();
        let found: Option<usize> = find_reg(&self.peers, rec.peer_id.as_str());
        match found {
            Some(k) => {
                let ghost v0 = self.peers@;
                self.peers[k] = rec;
                proof {
                    assert(self.peers@ == v0.update(k as int, self.peers@[k as int]));
                    assert(self.peers@[k as int]@ == recm);
                    assert(self.peers.deep_view() =~= pruned.update(k as int, recm));
                    assert(recm.peer_id == pruned[k as int].peer_id);
                    assert(forall|a2: int, b2: int|
                        0 <= a2 < b2 < pruned.len() ==> pruned[a2].peer_id != pruned[b2].peer_id);
                    assert(self@ == pruned.update(k as int, recm));
                    assert forall|a: int, b: int|
                        0 <= a < b < self@.len() implies self@[a].peer_id != self@[b].peer_id by {
                        assert(pruned[a].peer_id != pruned[b].peer_id);
                        assert(self@[a] == (if a == k {
                            recm
                        } else {
                            pruned[a]
                        }));
                        assert(self@[b] == (if b == k {
                            recm
                        } else {
                            pruned[b]
                        }));
                    }
                }
            },
            None => {
                proof {
                    lemma_reg_index_none(pruned, recm.peer_id);
                }
                let ghost v0 = self.peers@;
                self.peers.push(rec);
                proof {
                    assert(self.peers@ == v0.push(self.peers@[v0.len() as int]));
                    assert(self.peers@[v0.len() as int]@ == recm);
                    assert(self.peers.deep_view() =~= pruned.push(recm));
                    assert(self@ == pruned.push(recm));
                    assert forall|a: int, b: int|
                        0 <= a < b < self@.len() implies self@[a].peer_id != self@[b].peer_id by {
                        if b == self@.len() - 1 {
                            assert(self@[a] == pruned[a]);
                            assert(self@[b] == recm);
                            assert(pruned[a].peer_id != recm.peer_id);
                        } else {
                            assert(self@[a] == pruned[a] && self@[b] == pruned[b]);
                            assert(pruned[a].peer_id != pruned[b].peer_id);
                        }
                    }
                }
            },
        }
        RegisterOutcome::Accepted(RegisterResponse { ok: true, ttl_sec })
    }

    /// Whether a record passes the list endpoint's user filter: without a
    /// filter every record passes; with one, only records whose metadata
    /// names exactly that user.
    pub open spec fn list_match(rec: TrackerRecordModel, user: Option<Seq<char>>) -> bool {
        match user {
            None => true,
            Some(w) => match rec.meta {
                Some(m) => m.user_id == Some(w),
                None => false,
            },
        }
    }

    /// Lists the live registrations, pruning first, optionally filtered to
    /// one user, in registry order.
    pub fn list(&mut self, user_id: Option<&str>, now: i64, ttl_sec: u64) -> (r: Vec<PeerInfo>)
        requires
            old(self).wf(),
        ensures
            final(self).wf(),
            ttl_sec == 0 ==> final(self)@ == Seq::<TrackerRecordModel>::empty(),
            ttl_sec > 0 ==> final(self)@ == live_records(old(self)@, now as int, ttl_sec as int),
            ({
                let user = match user_id {
                    Some(u) => Some(u@),
                    None => None::<Seq<char>>,
                };
                &&& forall|a: int|
                    0 <= a < r@.len() ==> exists|j: int|
                        0 <= j < final(self)@.len() && record_of_info(#[trigger] r@[a]) == (
                        #[trigger] final(self)@[j]) && Self::list_match(final(self)@[j], user)
                &&& forall|j: int|
                    0 <= j < final(self)@.len() && Self::list_match(
                        #[trigger] final(self)@[j],
                        user,
                    ) ==> exists|a: int|
                        0 <= a < r@.len() && record_of_info(#[trigger] r@[a]) == final(self)@[j]
            }),
    {
        self.prune_expired(now, ttl_sec);
        let ghost user: Option<Seq<char>> = match user_id {
            Some(u) => Some(u@),
            None => None,
        };
        let n: usize = self.peers.len();
        let mut out: Vec<PeerInfo> = Vec::new();
        let mut i: usize = 0;
        while i < n
            invariant
                n == self@.len(),
                self@ == self.peers.deep_view(),
                self.wf(),
                (user == match user_id {
                    Some(u) => Some(u@),
                    None => None::<Seq<char>>,
                }),
                i <= n,
                forall|a: int|
                    0 <= a < out@.len() ==> exists|j: int|
                        0 <= j < self@.len() && record_of_info(#[trigger] out@[a]) == (
                        #[trigger] self@[j]) && Self::list_match(self@[j], user),
                forall|j: int|
                    0 <= j < i && Self::list_match(#[trigger] self@[j], user) ==> exists|a: int|
                        0 <= a < out@.len() && record_of_info(#[trigger] out@[a]) == self@[j],
            decreases n - i,
        {
            let rec = &self.peers[i];
            let keep: bool = match user_id {
                None => true,
                Some(w) => match &rec.meta {
                    Some(m) => match &m.user_id {
                        Some(u) => str_eq(u.as_str(), w),
                        None => false,
                    },
                    None => false,
                },
            };
            proof {
                assert(self@[i as int] == self.peers@[i as int]@);
                assert(keep == Self::list_match(self@[i as int], user));
            }
            let ghost outpre = out@;
            if keep {
                let info = PeerInfo {
                    peer_id: rec.peer_id.clone(),
                    addrs: rec.addrs.clone(),
                    meta: match &rec.meta {
                        Some(m) => Some(m.clone()),
                        None => None,
                    },
                    last_seen_unix: rec.last_seen_unix,
                };
                proof {
                    assert(record_of_info(info) == self@[i as int]);
                }
                out.push(info);
            }
            proof {
                assert forall|j: int|
                    0 <= j < i + 1 && Self::list_match(#[trigger] self@[j], user) implies exists|
                    a: int,
                |
                    0 <= a < out@.len() && record_of_info(#[trigger] out@[a]) == self@[j] by {
                    if j == i {
                        assert(keep);
                        assert(record_of_info(out@[out@.len() - 1]) == self@[i as int]);
                    } else {
                        let a0 = choose|a: int|
                            0 <= a < outpre.len() && record_of_info(#[trigger] outpre[a])
                                == self@[j];
                        assert(record_of_info(out@[a0]) == self@[j]);
                    }
                }
            }
            i = i + 1;
        }
        out
    }
}

/// The registry record a listed peer stands for.
pub open spec fn record_of_info(p: PeerInfo) -> TrackerRecordModel {
    TrackerRecordModel {
        peer_id: p.peer_id@,
        addrs: p.addrs.deep_view(),
        meta: match p.meta {
            Some(m) => Some(m@),
            None => None,
        },
        last_seen_unix: p.last_seen_unix as int,
    }
}

/// Whether a request carries the tracker's token: a blank token gates
/// nothing; otherwise the `Authorization` header must say `Bearer <token>`
/// or, when that header is absent or not a bearer form, the dedicated
/// token header must carry it.
pub open spec fn spec_authorized(
    auth: Option<Seq<char>>,
    x_token: Option<Seq<char>>,
    token: Seq<char>,
) -> bool {
    let tok = spec_trim(token);
    if tok.len() == 0 {
        true
    } else {
        match auth {
            Some(a) => if spec_starts_with(a, "Bearer "@) {
                spec_trim(a.subrange(7, a.len() as int)) == tok
            } else {
                match x_token {
                    Some(v) => spec_trim(v) == tok,
                    None => false,
                }
            },
            None => match x_token {
                Some(v) => spec_trim(v) == tok,
                None => false,
            },
        }
    }
}

/// The tracker's token check over the two headers it accepts.
pub fn is_authorized(auth: Option<&str>, x_token: Option<&str>, token: &str) -> (r: bool)
    ensures
        r == spec_authorized(
            match auth {
                Some(a) => Some(a@),
                None => None,
            },
            match x_token {
                Some(v) => Some(v@),
                None => None,
            },
            token@,
        ),
{
    let tok_cs = str_to_chars(token);
    let tok = trim_chars(tok_cs.as_slice());
    if tok.len() == 0 {
        return true;
    }
    let bearer: Vec<char> = str_to_chars("Bearer ");
    proof {
        reveal_strlit("Bearer ");
        assert(bearer@ == "Bearer "@);
        assert("Bearer "@.len() == 7);
    }
    match auth {
        Some(a) => {
            let a_cs = str_to_chars(a);
            if starts_with_chars(a_cs.as_slice(), bearer.as_slice()) {
                let rest = char_range(a_cs.as_slice(), 7, a_cs.len());
                let rest_t = trim_chars(rest.as_slice());
                let eq = chars_eq(rest_t.as_slice(), tok.as_slice());
                return eq;
            }
            match x_token {
                Some(v) => {
                    let v_cs = str_to_chars(v);
                    let v_t = trim_chars(v_cs.as_slice());
                    chars_eq(v_t.as_slice(), tok.as_slice())
                },
                None => false,
            }
        },
        None => match x_token {
            Some(v) => {
                let v_cs = str_to_chars(v);
                let v_t = trim_chars(v_cs.as_slice());
                chars_eq(v_t.as_slice(), tok.as_slice())
            },
            None => false,
        },
    }
}

/// The value of the first `key=value` pair under this key in a query
/// string, split at `&`.
pub open spec fn spec_query_get(q: Seq<char>, key: Seq<char>) -> Option<Seq<char>>
    decreases q.len(),
{
    let i = find_ch(q, '&');
    if 0 <= i <= q.len() {
        let part = q.subrange(0, i);
        let e = find_ch(part, '=');
        if 0 <= e < part.len() && part.subrange(0, e) == key {
            Some(part.subrange(e + 1, part.len() as int))
        } else if i < q.len() {
            spec_query_get(q.subrange(i + 1, q.len() as int), key)
        } else {
            None
        }
    } else {
        None
    }
}

/// Finds a query parameter.
pub fn query_get(query: &str, key: &str) -> (r: Option<String>)
    ensures
        (match r {
            Some(v) => Some(v@),
            None => None,
        }) == spec_query_get(query@, key@),
{
    let q = str_to_chars(query);
    let k = str_to_chars(key);
    let n: usize = q.len();
    let mut pos: usize = 0;
    proof {
        assert(q@.subrange(0, n as int) =~= q@);
    }
    while pos < n
        invariant
            n == q@.len(),
            q@ == query@,
            k@ == key@,
            pos <= n,
            spec_query_get(query@, key@) == spec_query_get(
                q@.subrange(pos as int, n as int),
                key@,
            ),
        decreases n - pos,
    {
        let ghost s = q@.subrange(pos as int, n as int);
        let mut i: usize = pos;
        while i < n && q[i] != '&'
            invariant
                pos <= i <= n,
                n == q@.len(),
                forall|j: int| pos <= j < i ==> q@[j] != '&',
            decreases n - i,
        {
            i = i + 1;
        }
        proof {
            assert(forall|j: int| 0 <= j < i - pos ==> s[j] != '&');
            if i < n {
                assert(s[i - pos] == '&');
            }
            lemma_find_ch_at(s, '&', i - pos as int);
        }
        let part = char_range(q.as_slice(), pos, i);
        proof {
            assert(part@ =~= s.subrange(0, i - pos as int));
        }
        match find_char(part.as_slice(), '=') {
            Some(e) => {
                proof {
                    lemma_find_ch_at(part@, '=', e as int);
                }
                let pk = char_range(part.as_slice(), 0, e);
                if chars_eq(pk.as_slice(), k.as_slice()) {
                    let v = char_range(part.as_slice(), e + 1, part.len());
                    return Some(chars_to_string(v.as_slice()));
                }
            },
            None => {
                proof {
                    lemma_find_ch_at(part@, '=', part@.len() as int);
                }
            },
        }
        if i < n {
            proof {
                assert(q@.subrange(i + 1, n as int) =~= s.subrange(
                    i + 1 - pos as int,
                    s.len() as int,
                ));
            }
            pos = i + 1;
        } else {
            proof {
                assert(spec_query_get(s, key@) is None);
                assert(q@.subrange(n as int, n as int) =~= Seq::<char>::empty());
            }
            pos = n;
        }
    }
        proof {
        assert(q@.subrange(pos as int, n as int) =~= Seq::<char>::empty());
    }
    None
}

/// A client's handle on one tracker: its base URL with the trailing
/// slashes removed, and the token it sends.
pub struct TrackerClient {
    pub base_url: String,
    pub token: Option<String>,
}

impl TrackerClient {
    /// Normalises the base URL by dropping trailing slashes.
    pub fn new(base_url: String, token: Option<String>) -> (r: TrackerClient)
        ensures
            r.base_url@ == spec_trim_end_in(base_url@, set!['/']),
            (match r.token {
                Some(t) => Some(t@),
                None => None::<Seq<char>>,
            }) == (match token {
                Some(t) => Some(t@),
                None => None::<Seq<char>>,
            }),
    {
        let cs = str_to_chars(base_url.as_str());
        let t = crate::strutil::trim_end_char(cs.as_slice(), '/');
        TrackerClient { base_url: chars_to_string(t.as_slice()), token }
    }
}

} // verus!
