//! Peer discovery decisions: merging what the trackers answered, falling
//! back to the peer book when every tracker failed, and never selecting
//! this device itself. The queries themselves are made outside the
//! library, which hands in each tracker's answer.

use crate::store::PeerBookPeer;
use crate::strutil::str_eq;
use crate::tracker::{record_of_info, PeerInfo, TrackerRecordModel};
use vstd::prelude::*;

verus! {

/// One tracker's answer: whether it responded, and the peers it listed.
pub struct TrackerAnswer {
    pub ok: bool,
    pub peers: Vec<PeerInfo>,
}

/// One peer the supervisor will dial: its identity and the addresses the
/// source advertised for it.
pub struct SyncTarget {
    pub peer_id: String,
    pub addrs: Vec<String>,
}

/// Model of a dial target.
pub ghost struct SyncTargetModel {
    pub peer_id: Seq<char>,
    pub addrs: Seq<Seq<char>>,
}

impl View for SyncTarget {
    type V = SyncTargetModel;

    open spec fn view(&self) -> SyncTargetModel {
        SyncTargetModel { peer_id: self.peer_id@, addrs: self.addrs.deep_view() }
    }
}

impl DeepView for SyncTarget {
    type V = SyncTargetModel;

    open spec fn deep_view(&self) -> SyncTargetModel {
        self.view()
    }
}

/// Whether a listed peer is this device itself and must be dropped.
pub open spec fn rec_is_self(rec: TrackerRecordModel, local_device: Option<Seq<char>>) -> bool {
    match local_device {
        Some(d) => match rec.meta {
            Some(m) => m.device_id == Some(d),
            None => false,
        },
        None => false,
    }
}

/// The target a listed peer becomes.
pub open spec fn target_of(rec: TrackerRecordModel) -> SyncTargetModel {
    SyncTargetModel { peer_id: rec.peer_id, addrs: rec.addrs }
}

/// Selecting targets from listed peers in order: the first listing of a
/// peer wins, later duplicates are dropped, and so is this device itself.
pub open spec fn spec_select(
    ps: Seq<TrackerRecordModel>,
    local_device: Option<Seq<char>>,
    seen: Set<Seq<char>>,
) -> Seq<SyncTargetModel>
    decreases ps.len(),
{
    if ps.len() == 0 {
        Seq::empty()
    } else {
        let tail = ps.subrange(1, ps.len() as int);
        if !rec_is_self(ps[0], local_device) && !seen.contains(ps[0].peer_id) {
            seq![target_of(ps[0])] + spec_select(tail, local_device, seen.insert(ps[0].peer_id))
        } else {
            spec_select(tail, local_device, seen)
        }
    }
}

/// The peer ids already selected.
pub open spec fn target_ids(ts: Seq<SyncTargetModel>) -> Set<Seq<char>> {
    Set::new(
        |id: Seq<char>| exists|k: int| 0 <= k < ts.len() && (#[trigger] ts[k]).peer_id == id,
    )
}

/// The registry records behind the peers every successful tracker listed,
/// in answer order.
pub open spec fn answered_recs(answers: Seq<TrackerAnswer>) -> Seq<TrackerRecordModel>
    decreases answers.len(),
{
    if answers.len() == 0 {
        Seq::empty()
    } else {
        let first: Seq<TrackerRecordModel> = if answers[0].ok {
            answers[0].peers@.map_values(|p: PeerInfo| record_of_info(p))
        } else {
            Seq::empty()
        };
        first + answered_recs(answers.subrange(1, answers.len() as int))
    }
}

/// The registry records behind the peer-book rows.
pub open spec fn book_recs(book: Seq<crate::store::PeerBookModel>) -> Seq<TrackerRecordModel> {
    book.map_values(
        |p: crate::store::PeerBookModel|
            TrackerRecordModel {
                peer_id: p.peer_id,
                addrs: p.addrs,
                meta: Some(
                    crate::tracker::PeerMetaModel {
                        device_id: p.device_id,
                        hostname: None,
                        user_id: p.user_id,
                        version: None,
                    },
                ),
                last_seen_unix: p.last_seen_unix,
            },
    )
}

/// What discovery resolves to: the union of the tracker answers, with
/// duplicates and this device dropped; when that is empty — every tracker
/// failed or listed nothing — the fresh peer-book rows instead, under the
/// same self-filter.
pub open spec fn spec_discover(
    answers: Seq<TrackerAnswer>,
    book: Seq<crate::store::PeerBookModel>,
    local_device: Option<Seq<char>>,
) -> Seq<SyncTargetModel> {
    let from_trackers = spec_select(answered_recs(answers), local_device, Set::empty());
    if from_trackers.len() > 0 {
        from_trackers
    } else {
        spec_select(book_recs(book), local_device, Set::empty())
    }
}

proof fn lemma_target_ids_push(ts: Seq<SyncTargetModel>, t: SyncTargetModel)
    ensures
        target_ids(ts.push(t)) =~= target_ids(ts).insert(t.peer_id),
{
    assert forall|id: Seq<char>| target_ids(ts.push(t)).contains(id) implies target_ids(
        ts,
    ).insert(t.peer_id).contains(id) by {
        let k = choose|k: int|
            0 <= k < ts.push(t).len() && (#[trigger] ts.push(t)[k]).peer_id == id;
        if k < ts.len() {
            assert(ts[k].peer_id == id);
        }
    }
    assert forall|id: Seq<char>| target_ids(ts).insert(t.peer_id).contains(id) implies target_ids(
        ts.push(t),
    ).contains(id) by {
        if id == t.peer_id {
            assert(ts.push(t)[ts.len() as int].peer_id == id);
        } else {
            let k = choose|k: int| 0 <= k < ts.len() && (#[trigger] ts[k]).peer_id == id;
            assert(ts.push(t)[k].peer_id == id);
        }
    }
}

/// Whether the target list already names this peer.
fn contains_target_id(v: &Vec<SyncTarget>, id: &str) -> (r: bool)
    ensures
        r == exists|a: int| 0 <= a < v@.len() && (#[trigger] v@[a]).peer_id@ == id@,
{
    let n: usize = v.len();
    let mut k: usize = 0;
    while k < n
        invariant
            n == v@.len(),
            k <= n,
            forall|a: int| 0 <= a < k ==> (#[trigger] v@[a]).peer_id@ != id@,
        decreases n - k,
    {
        if str_eq(v[k].peer_id.as_str(), id) {
            assert(v@[k as int].peer_id@ == id@);
            return true;
        }
        k = k + 1;
    }
    false
}

/// Selects targets from an already-flattened list of records.
fn select_from_recs(recs: &Vec<PeerInfo>, local_device_id: Option<&str>) -> (r: Vec<SyncTarget>)
    ensures
        r.deep_view() == spec_select(
            recs@.map_values(|p: PeerInfo| record_of_info(p)),
            match local_device_id {
                Some(d) => Some(d@),
                None => None,
            },
            Set::empty(),
        ),
{
    let ghost dev: Option<Seq<char>> = match local_device_id {
        Some(d) => Some(d@),
        None => None,
    };
    let ghost whole = recs@.map_values(|p: PeerInfo| record_of_info(p));
    let n: usize = recs.len();
    let mut out: Vec<SyncTarget> = Vec::new();
    let ghost mut outm: Seq<SyncTargetModel> = Seq::empty();
    let mut i: usize = 0;
    proof {
        assert(whole.subrange(0, n as int) =~= whole);
        assert(target_ids(outm) =~= Set::<Seq<char>>::empty());
    }
    while i < n
        invariant
            n == recs@.len(),
            whole == recs@.map_values(|p: PeerInfo| record_of_info(p)),
            whole.len() == n,
            (dev == match local_device_id {
                Some(d) => Some(d@),
                None => None::<Seq<char>>,
            }),
            i <= n,
            out.deep_view() == outm,
            spec_select(whole, dev, Set::empty()) == outm + spec_select(
                whole.subrange(i as int, n as int),
                dev,
                target_ids(outm),
            ),
        decreases n - i,
    {
        let ghost tail = whole.subrange(i as int, n as int);
        let ghost outpre = outm;
        proof {
            assert(tail[0] == whole[i as int]);
            assert(tail.subrange(1, tail.len() as int) =~= whole.subrange(i + 1, n as int));
        }
        let rec = &recs[i];
        let is_self: bool = match local_device_id {
            Some(d) => match &rec.meta {
                Some(m) => match &m.device_id {
                    Some(md) => str_eq(md.as_str(), d),
                    None => false,
                },
                None => false,
            },
            None => false,
        };
        proof {
            assert(is_self == rec_is_self(whole[i as int], dev));
        }
        let dup: bool = contains_target_id(&out, rec.peer_id.as_str());
        proof {
            assert(dup == target_ids(outm).contains(whole[i as int].peer_id)) by {
                if dup {
                    let a0 = choose|a: int|
                        0 <= a < out@.len() && (#[trigger] out@[a]).peer_id@
                            == rec.peer_id@;
                    assert(outm[a0].peer_id == whole[i as int].peer_id);
                } else {
                    if target_ids(outm).contains(whole[i as int].peer_id) {
                        let a0 = choose|a: int|
                            0 <= a < outm.len() && (#[trigger] outm[a]).peer_id
                                == whole[i as int].peer_id;
                        assert(out@[a0].peer_id@ == rec.peer_id@);
                    }
                }
            }
        }
        if !is_self && !dup {
            let t = SyncTarget { peer_id: rec.peer_id.clone(), addrs: rec.addrs.clone() };
            proof {
                assert(t@ == target_of(whole[i as int]));
            }
            out.push(t);
            proof {
                outm = outm.push(target_of(whole[i as int]));
                assert(out@ == out@.subrange(0, out@.len() - 1).push(out@[out@.len() - 1]));
                assert(out.deep_view().len() == out@.len());
                assert forall|a: int|
                    0 <= a < out.deep_view().len() implies #[trigger] out.deep_view()[a]
                    == outm[a] by {
                    assert(out.deep_view()[a] == out@[a]@);
                    if a < outpre.len() {
                        assert(outpre[a] == out@[a]@);
                    }
                }
                assert(out.deep_view() =~= outm);
                lemma_target_ids_push(outpre, target_of(whole[i as int]));
                assert(target_ids(outm) =~= target_ids(outpre).insert(whole[i as int].peer_id));
            }
        }
        i = i + 1;
    }
    proof {
        assert(whole.subrange(n as int, n as int) =~= Seq::<TrackerRecordModel>::empty());
        assert(outm =~= outm + Seq::<SyncTargetModel>::empty());
    }
    out
}

/// Resolves the peers to sync with: the union of every tracker's answer,
/// each peer once under its first listing, never this device itself; and
/// when the trackers yielded nothing at all, the cached peer-book rows
/// under the same self-filter.
pub fn discover_targets(
    answers: Vec<TrackerAnswer>,
    peer_book: &Vec<PeerBookPeer>,
    local_device_id: Option<&str>,
) -> (r: Vec<SyncTarget>)
    ensures
        r.deep_view() == spec_discover(answers@, peer_book.deep_view(), (match local_device_id {
            Some(d) => Some(d@),
            None => None,
        })),
{
    let ghost answersm = answers@;
    let mut flat: Vec<PeerInfo> = Vec::new();
    let na: usize = answers.len();
    let mut ai: usize = 0;
    let mut answers = answers;
    proof {
        assert(answersm.subrange(0, na as int) =~= answersm);
        assert(flat@.map_values(|p: PeerInfo| record_of_info(p)) =~= Seq::<
            TrackerRecordModel,
        >::empty());
    }
    let mut rest: Vec<TrackerAnswer> = answers;
    let ghost restm0 = rest@;
    while rest.len() > 0
        invariant
            answered_recs(answersm) == flat@.map_values(|p: PeerInfo| record_of_info(p))
                + answered_recs(rest@),
        decreases rest@.len(),
    {
        let ghost restpre = rest@;
        let ghost flatpre = flat@;
        let a = rest.remove(0);
        proof {
            assert(rest@ =~= restpre.subrange(1, restpre.len() as int));
            assert(restpre[0] == a);
        }
        if a.ok {
            let mut peers = a.peers;
            let np: usize = peers.len();
            let ghost peersm = peers@;
            let mut pi: usize = 0;
            while pi < np
                invariant
                    np == peersm.len(),
                    pi <= np,
                    peers@ == peersm.subrange(pi as int, np as int),
                    flat@ == flatpre + peersm.subrange(0, pi as int),
                decreases np - pi,
            {
                let p = peers.remove(0);
                proof {
                    assert(peersm.subrange(pi as int, np as int)[0] == p);
                    assert(peers@ =~= peersm.subrange(pi + 1, np as int));
                }
                flat.push(p);
                proof {
                    assert(flat@ =~= flatpre + peersm.subrange(0, pi + 1));
                }
                pi = pi + 1;
            }
            proof {
                assert(peersm.subrange(0, np as int) =~= peersm);
                assert(flat@ == flatpre + peersm);
                assert(flat@.map_values(|p2: PeerInfo| record_of_info(p2)) =~= flatpre.map_values(
                    |p2: PeerInfo| record_of_info(p2),
                ) + peersm.map_values(|p2: PeerInfo| record_of_info(p2)));
            }
        } else {
            proof {
                assert(flat@.map_values(|p2: PeerInfo| record_of_info(p2)) =~= flat@.map_values(
                    |p2: PeerInfo| record_of_info(p2),
                ) + Seq::<TrackerRecordModel>::empty());
            }
        }
    }
    proof {
        assert(answered_recs(rest@) == Seq::<TrackerRecordModel>::empty());
        assert(answered_recs(answersm) =~= flat@.map_values(|p: PeerInfo| record_of_info(p)));
    }
    let from_trackers = select_from_recs(&flat, local_device_id);
    if from_trackers.len() > 0 {
        proof {
            assert(from_trackers.deep_view().len() == from_trackers@.len());
        }
        return from_trackers;
    }
    let mut book_infos: Vec<PeerInfo> = Vec::new();
    let nb: usize = peer_book.len();
    let mut bi: usize = 0;
    while bi < nb
        invariant
            nb == peer_book@.len(),
            bi <= nb,
            book_infos@.len() == bi,
            forall|a: int|
                0 <= a < bi ==> record_of_info(#[trigger] book_infos@[a]) == book_recs(
                    peer_book.deep_view(),
                )[a],
        decreases nb - bi,
    {
        let row = &peer_book[bi];
        let ghost prev = book_infos@;
        let info = PeerInfo {
            peer_id: row.peer_id.clone(),
            addrs: row.addrs.clone(),
            meta: Some(
                crate::tracker::PeerMeta {
                    device_id: match &row.device_id {
                        Some(d) => Some(d.clone()),
                        None => None,
                    },
                    hostname: None,
                    user_id: match &row.user_id {
                        Some(u) => Some(u.clone()),
                        None => None,
                    },
                    version: None,
                },
            ),
            last_seen_unix: row.last_seen_unix,
        };
        proof {
            assert(record_of_info(info) == book_recs(peer_book.deep_view())[bi as int]) by {
                assert(peer_book.deep_view()[bi as int] == peer_book@[bi as int]@);
            }
        }
        book_infos.push(info);
        proof {
            assert(book_infos@ == prev.push(book_infos@[prev.len() as int]));
            assert(forall|a: int| 0 <= a < prev.len() ==> #[trigger] book_infos@[a] == prev[a]);
            assert(record_of_info(book_infos@[bi as int]) == book_recs(
                peer_book.deep_view(),
            )[bi as int]);
        }
        bi = bi + 1;
    }
    proof {
        assert(book_infos@.map_values(|p: PeerInfo| record_of_info(p)) =~= book_recs(
            peer_book.deep_view(),
        ));
    }
    select_from_recs(&book_infos, local_device_id)
}

} // verus!
