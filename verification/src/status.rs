//! The status reporter: a pure read of the local store showing, for every
//! peer with any cursor state, both cursors, the rows still pending for
//! push, and when the peer was last seen.

use crate::store::{
    book_index_of, cursor_or_zero, latest_seq, rows_after, LocalStore, PeerSyncStatus,
    StoreError,
};
use crate::strutil::str_eq;
use vstd::prelude::*;

verus! {

/// One peer's line in the status report.
pub struct SyncStatusPeerReport {
    pub peer_id: String,
    pub pull_cursor: i64,
    pub push_cursor: i64,
    pub pending_push: usize,
    pub last_seen_unix: Option<i64>,
}

/// The whole report: the local head, this device's id, and one line per
/// peer.
pub struct SyncStatusReport {
    pub local_head: i64,
    pub local_device_id: String,
    pub peers: Vec<SyncStatusPeerReport>,
}

/// The values one report line must show for its peer.
pub open spec fn report_line_ok(
    m: crate::store::StoreModel,
    device: Seq<char>,
    p: SyncStatusPeerReport,
) -> bool {
    &&& p.pull_cursor as int == cursor_or_zero(m.pull_cursors, p.peer_id@)
    &&& p.push_cursor as int == cursor_or_zero(m.push_cursors, p.peer_id@)
    &&& p.pending_push == rows_after(
        m.rows,
        cursor_or_zero(m.push_cursors, p.peer_id@),
        Some(device),
    ).len()
    &&& (m.pull_cursors.dom().contains(p.peer_id@) || m.push_cursors.dom().contains(p.peer_id@))
    &&& (match p.last_seen_unix {
        Some(v) => book_index_of(m.peer_book, p.peer_id@) >= 0 && v as int == m.peer_book[
            book_index_of(m.peer_book, p.peer_id@)
        ].last_seen_unix,
        None => book_index_of(m.peer_book, p.peer_id@) == -1,
    })
}

/// Builds the report: the local head and device id, and a line for every
/// peer in either cursor table, restricted to one peer when a filter is
/// given. No side effects.
pub fn build_sync_status_report(
    store: &LocalStore,
    local_device_id: &str,
    peer_filter: Option<&str>,
) -> (r: Result<SyncStatusReport, StoreError>)
    requires
        store.wf(),
    ensures
        r matches Ok(rep),
        (r matches Ok(rep) ==> rep.local_head as int == latest_seq(store@)),
        (r matches Ok(rep) ==> rep.local_device_id@ == local_device_id@),
        (r matches Ok(rep) ==> forall|a: int|
            0 <= a < rep.peers@.len() ==> report_line_ok(
                store@,
                local_device_id@,
                #[trigger] rep.peers@[a],
            )),
        (r matches Ok(rep) ==> forall|a: int|
            0 <= a < rep.peers@.len() ==> (match peer_filter {
                Some(f) => (#[trigger] rep.peers@[a]).peer_id@ == f@,
                None => true,
            })),
        (r matches Ok(rep) ==> forall|a: int, b: int|
            0 <= a < b < rep.peers@.len() ==> (#[trigger] rep.peers@[a]).peer_id@ != (
            #[trigger] rep.peers@[b]).peer_id@),
        (r matches Ok(rep) ==> forall|id: Seq<char>|
            (store@.pull_cursors.dom().contains(id) || store@.push_cursors.dom().contains(id))
                && (match peer_filter {
                Some(f) => id == f@,
                None => true,
            }) ==> exists|a: int|
                0 <= a < rep.peers@.len() && (#[trigger] rep.peers@[a]).peer_id@ == id),
{
    let local_head = store.latest_ingest_seq();
    let statuses: Vec<PeerSyncStatus> = match store.list_peer_sync_status() {
        Ok(v) => v,
        Err(e) => {
            return Err(e);
        },
    };
    let n: usize = statuses.len();
    let mut peers: Vec<SyncStatusPeerReport> = Vec::new();
    let mut i: usize = 0;
    while i < n
        invariant
            store.wf(),
            n == statuses@.len(),
            i <= n,
            forall|a: int, b: int|
                0 <= a < b < statuses@.len() ==> (#[trigger] statuses@[a]).peer_id@ != (
                #[trigger] statuses@[b]).peer_id@,
            forall|a: int|
                0 <= a < statuses@.len() ==> {
                    let id = (#[trigger] statuses@[a]).peer_id@;
                    &&& (store@.pull_cursors.dom().contains(id)
                        || store@.push_cursors.dom().contains(id))
                    &&& statuses@[a].last_cursor as int == cursor_or_zero(
                        store@.pull_cursors,
                        id,
                    )
                    &&& statuses@[a].last_pushed_seq as int == cursor_or_zero(
                        store@.push_cursors,
                        id,
                    )
                },
            forall|a: int|
                0 <= a < peers@.len() ==> report_line_ok(
                    store@,
                    local_device_id@,
                    #[trigger] peers@[a],
                ),
            forall|a: int|
                0 <= a < peers@.len() ==> (match peer_filter {
                    Some(f) => (#[trigger] peers@[a]).peer_id@ == f@,
                    None => true,
                }),
            forall|a: int|
                0 <= a < peers@.len() ==> exists|s: int|
                    0 <= s < i && (#[trigger] peers@[a]).peer_id@ == (
                    #[trigger] statuses@[s]).peer_id@,
            forall|a: int, b: int|
                0 <= a < b < peers@.len() ==> (#[trigger] peers@[a]).peer_id@ != (
                #[trigger] peers@[b]).peer_id@,
            forall|s: int|
                0 <= s < i && (match peer_filter {
                    Some(f) => (#[trigger] statuses@[s]).peer_id@ == f@,
                    None => true,
                }) ==> exists|a: int|
                    0 <= a < peers@.len() && (#[trigger] peers@[a]).peer_id@
                        == statuses@[s].peer_id@,
        decreases n - i,
    {
        let st = &statuses[i];
        let keep: bool = match peer_filter {
            Some(f) => str_eq(st.peer_id.as_str(), f),
            None => true,
        };
        let ghost prev = peers@;
        if keep {
            let pending: usize = match store.count_pending_push_entries(
                st.peer_id.as_str(),
                Some(local_device_id),
            ) {
                Ok(c) => c,
                Err(e) => {
                    return Err(e);
                },
            };
            let last_seen = store.peer_book_last_seen(st.peer_id.as_str());
            peers.push(
                SyncStatusPeerReport {
                    peer_id: st.peer_id.clone(),
                    pull_cursor: st.last_cursor,
                    push_cursor: st.last_pushed_seq,
                    pending_push: pending,
                    last_seen_unix: last_seen,
                },
            );
            proof {
                assert(peers@ == prev.push(peers@[prev.len() as int]));
                assert(peers@[prev.len() as int].peer_id@ == statuses@[i as int].peer_id@);
                assert(report_line_ok(
                    store@,
                    local_device_id@,
                    peers@[prev.len() as int],
                ));
                assert forall|a: int|
                    0 <= a < peers@.len() implies exists|s: int|
                    0 <= s < i + 1 && (#[trigger] peers@[a]).peer_id@ == (
                    #[trigger] statuses@[s]).peer_id@ by {
                    if a == peers@.len() - 1 {
                        assert(peers@[a].peer_id@ == statuses@[i as int].peer_id@);
                    } else {
                        let s1 = choose|s: int|
                            0 <= s < i && (#[trigger] prev[a]).peer_id@ == (
                            #[trigger] statuses@[s]).peer_id@;
                        assert(peers@[a].peer_id@ == statuses@[s1].peer_id@);
                    }
                }
                assert forall|a: int, b: int|
                    0 <= a < b < peers@.len() implies (#[trigger] peers@[a]).peer_id@ != (
                #[trigger] peers@[b]).peer_id@ by {
                    if b == peers@.len() - 1 {
                        let s0 = choose|s: int|
                            0 <= s < i && (#[trigger] prev[a]).peer_id@ == (
                            #[trigger] statuses@[s]).peer_id@;
                        assert(statuses@[s0].peer_id@ != statuses@[i as int].peer_id@);
                    }
                }
            }
        }
        proof {
            assert forall|s: int|
                0 <= s < i + 1 && (match peer_filter {
                    Some(f) => (#[trigger] statuses@[s]).peer_id@ == f@,
                    None => true,
                }) implies exists|a: int|
                0 <= a < peers@.len() && (#[trigger] peers@[a]).peer_id@
                    == statuses@[s].peer_id@ by {
                if s == i {
                    assert(keep);
                    assert(peers@[peers@.len() - 1].peer_id@ == statuses@[i as int].peer_id@);
                } else {
                    let a0 = choose|a: int|
                        0 <= a < prev.len() && (#[trigger] prev[a]).peer_id@
                            == statuses@[s].peer_id@;
                    assert(peers@[a0].peer_id@ == statuses@[s].peer_id@);
                }
            }
        }
        i = i + 1;
    }
    proof {
        assert forall|id: Seq<char>|
            (store@.pull_cursors.dom().contains(id) || store@.push_cursors.dom().contains(id))
                && (match peer_filter {
                Some(f) => id == f@,
                None => true,
            }) implies exists|a: int|
            0 <= a < peers@.len() && (#[trigger] peers@[a]).peer_id@ == id by {
            let s0 = choose|s: int|
                0 <= s < statuses@.len() && (#[trigger] statuses@[s]).peer_id@ == id;
            let a0 = choose|a: int|
                0 <= a < peers@.len() && (#[trigger] peers@[a]).peer_id@
                    == statuses@[s0].peer_id@;
            assert(peers@[a0].peer_id@ == id);
        }
    }
    Ok(
        SyncStatusReport {
            local_head,
            local_device_id: local_device_id.to_owned(),
            peers,
        },
    )
}

} // verus!
