//! The sync engine: cursor-driven pull and push catch-up loops with
//! adaptive batch sizing.
//!
//! Both loops are generic over a transport capability (a [`Puller`] or a
//! [`Pusher`]); the transports implement those traits outside the library.
//! Whatever the transport does, the engine guarantees that it touches only
//! the one peer's cursor, moves it monotonically, and halves the batch
//! limit on a "payload too large" rejection down to a floor of one.
//!
//! The loopback forms, [`sync_pull_from_store`] and [`sync_push_to_store`],
//! run the same procedures against another verified store standing for the
//! remote peer, with an optional batch-size cap standing for the peer's
//! message-size limit. Their contracts carry the convergence guarantees:
//! pull ends with the union of both logs and the cursor at the remote head,
//! pushing again after a catch-up moves nothing, and a cap never prevents
//! convergence as long as the peer accepts batches of one.

use crate::entry::Entry;
use crate::store::{
    batch_ids, cursor_or_zero, entries_of, ids_of, latest_seq, lemma_insert_ids,
    lemma_rows_after_advance,
    lemma_pull_window, lemma_rows_after_elems, lemma_rows_after_len, lemma_rows_after_sorted,
    rows_after, sorted_rows, spec_insert, spec_pull, LocalStore, PullBatch, StoreError,
    StoreModel,
};
use crate::strutil::{spec_contains, str_contains};
use vstd::prelude::*;

verus! {

/// Why a sync run against one peer stopped.
#[derive(Debug)]
pub enum SyncError {
    /// The peer rejected a batch as too large; the engine halves the batch
    /// limit and retries until the limit is one.
    TooLarge(String),
    /// Any other transport failure, carried with its message.
    Transport(String),
    /// The peer returned entries without advancing its cursor, or a cursor
    /// without entries.
    InvalidBatch(String),
    /// The local store failed.
    Storage(StoreError),
}

/// The structural "payload too large" test: either the transport already
/// classified the failure, or its message carries one of the known phrases.
pub open spec fn spec_too_large(e: SyncError) -> bool {
    match e {
        SyncError::TooLarge(_) => true,
        SyncError::Transport(m) => spec_contains(m@, "message too large"@) || spec_contains(
            m@,
            "request too large"@,
        ) || spec_contains(m@, "payload too large"@),
        SyncError::InvalidBatch(_) => false,
        SyncError::Storage(_) => false,
    }
}

/// Recognises a "payload too large" rejection, by classification or by the
/// phrases that transports put in their error text.
pub fn is_payload_too_large_error(e: &SyncError) -> (r: bool)
    ensures
        r == spec_too_large(*e),
{
    match e {
        SyncError::TooLarge(_) => true,
        SyncError::Transport(m) => str_contains(m.as_str(), "message too large") || str_contains(
            m.as_str(),
            "request too large",
        ) || str_contains(m.as_str(), "payload too large"),
        SyncError::InvalidBatch(_) => false,
        SyncError::Storage(_) => false,
    }
}

/// The pull direction of a transport: fetch up to `limit` entries whose
/// remote ingest sequence is beyond `cursor`, with the cursor to resume
/// from. Implementations live outside the library; the engine validates
/// every batch they return.
pub trait Puller {
    fn pull(&mut self, cursor: i64, limit: usize) -> Result<PullBatch, SyncError>;
}

/// The push direction of a transport: deliver a batch of entries to the
/// peer, acknowledged by `Ok`.
pub trait Pusher {
    fn push(&mut self, entries: Vec<Entry>) -> Result<(), SyncError>;
}

/// Pulls from a peer until it reports no further entries, inserting each
/// batch and advancing the peer's pull cursor only after the batch is
/// stored. Whatever the transport returns, only this peer's pull cursor
/// changes, it never moves backwards, and the log only grows.
pub fn sync_pull_from_peer<P: Puller>(
    local: &mut LocalStore,
    peer_id: &str,
    limit: usize,
    puller: &mut P,
) -> (r: Result<usize, SyncError>)
    requires
        old(local).wf(),
    ensures
        final(local).wf(),
        final(local)@.push_cursors == old(local)@.push_cursors,
        final(local)@.peer_book == old(local)@.peer_book,
        forall|k: Seq<char>|
            k != peer_id@ ==> cursor_or_zero(final(local)@.pull_cursors, k) == cursor_or_zero(
                old(local)@.pull_cursors,
                k,
            ),
        cursor_or_zero(final(local)@.pull_cursors, peer_id@) >= cursor_or_zero(
            old(local)@.pull_cursors,
            peer_id@,
        ),
        old(local)@.rows.is_prefix_of(final(local)@.rows),
        limit == 0 ==> (r matches Ok(n) && n == 0 && final(local)@ == old(local)@),
{
    if limit == 0 {
        return Ok(0);
    }
    let mut cursor: i64 = match local.get_last_cursor(peer_id) {
        Ok(v) => v,
        Err(e) => {
            return Err(SyncError::Storage(e));
        },
    };
    let ghost m0 = local@;
    let ghost c0 = cursor as int;
    let mut pulled_total: usize = 0;
    let mut batch_limit: usize = limit;
    loop
        invariant
            local.wf(),
            m0 == old(local)@,
            1 <= batch_limit <= limit,
            local@.push_cursors == m0.push_cursors,
            local@.peer_book == m0.peer_book,
            forall|k: Seq<char>|
                k != peer_id@ ==> cursor_or_zero(local@.pull_cursors, k) == cursor_or_zero(
                    m0.pull_cursors,
                    k,
                ),
            cursor as int == cursor_or_zero(local@.pull_cursors, peer_id@),
            cursor as int >= c0,
            c0 == cursor_or_zero(m0.pull_cursors, peer_id@),
            m0.rows.is_prefix_of(local@.rows),
        decreases i64::MAX - cursor, batch_limit,
    {
        match puller.pull(cursor, batch_limit) {
            Err(e) => {
                if is_payload_too_large_error(&e) && batch_limit > 1 {
                    batch_limit = batch_limit / 2;
                } else {
                    return Err(e);
                }
            },
            Ok(batch) => {
                if batch.entries.len() == 0 {
                    return Ok(pulled_total);
                }
                let ghost pre = local@;
                match local.insert_entries(&batch.entries) {
                    Ok(_) => {
                        proof {
                            lemma_insert_ids(pre.rows, pre.next_seq, batch.entries.deep_view());
                            assert(m0.rows.is_prefix_of(local@.rows));
                        }
                    },
                    Err(e) => {
                        return Err(SyncError::Storage(e));
                    },
                };
                pulled_total = pulled_total.saturating_add(batch.entries.len());
                match batch.next_cursor {
                    None => {
                        return Err(
                            SyncError::InvalidBatch(
                                "entries returned without a next cursor".to_owned(),
                            ),
                        );
                    },
                    Some(nc) => {
                        if nc <= cursor {
                            return Err(
                                SyncError::InvalidBatch(
                                    "next cursor did not advance".to_owned(),
                                ),
                            );
                        }
                        cursor = nc;
                        match local.set_last_cursor(peer_id, cursor) {
                            Ok(_) => (),
                            Err(e) => {
                                return Err(SyncError::Storage(e));
                            },
                        };
                    },
                }
            },
        }
    }
}

/// Pushes local entries to a peer until none are pending, reading each
/// batch from the local log (restricted to `source_device_id` when given)
/// and advancing the peer's push cursor only after the peer acknowledged
/// the batch. The log itself and every other cursor are untouched; a
/// failed push leaves the cursor where the last acknowledged batch put it,
/// so the next run retransmits exactly the unacknowledged suffix.
pub fn sync_push_to_peer<P: Pusher>(
    local: &mut LocalStore,
    peer_id: &str,
    limit: usize,
    source_device_id: Option<&str>,
    pusher: &mut P,
) -> (r: Result<usize, SyncError>)
    requires
        old(local).wf(),
    ensures
        final(local).wf(),
        final(local)@.rows == old(local)@.rows,
        final(local)@.next_seq == old(local)@.next_seq,
        final(local)@.pull_cursors == old(local)@.pull_cursors,
        final(local)@.peer_book == old(local)@.peer_book,
        forall|k: Seq<char>|
            k != peer_id@ ==> cursor_or_zero(final(local)@.push_cursors, k) == cursor_or_zero(
                old(local)@.push_cursors,
                k,
            ),
        cursor_or_zero(final(local)@.push_cursors, peer_id@) >= cursor_or_zero(
            old(local)@.push_cursors,
            peer_id@,
        ),
        limit == 0 ==> (r matches Ok(n) && n == 0 && final(local)@ == old(local)@),
{
    if limit == 0 {
        return Ok(0);
    }
    let mut cursor: i64 = match local.get_last_pushed_seq(peer_id) {
        Ok(v) => v,
        Err(e) => {
            return Err(SyncError::Storage(e));
        },
    };
    let ghost m0 = local@;
    let ghost c0 = cursor as int;
    let mut pushed_total: usize = 0;
    let mut batch_limit: usize = limit;
    loop
        invariant
            local.wf(),
            m0 == old(local)@,
            1 <= batch_limit <= limit,
            local@.rows == m0.rows,
            local@.next_seq == m0.next_seq,
            local@.pull_cursors == m0.pull_cursors,
            local@.peer_book == m0.peer_book,
            forall|k: Seq<char>|
                k != peer_id@ ==> cursor_or_zero(local@.push_cursors, k) == cursor_or_zero(
                    m0.push_cursors,
                    k,
                ),
            cursor as int == cursor_or_zero(local@.push_cursors, peer_id@),
            cursor as int >= c0,
            c0 == cursor_or_zero(m0.push_cursors, peer_id@),
        decreases i64::MAX - cursor, batch_limit,
    {
        let batch = match source_device_id {
            Some(device_id) => match local.pull_since_cursor_for_device(
                cursor,
                batch_limit,
                device_id,
            ) {
                Ok(b) => b,
                Err(e) => {
                    return Err(SyncError::Storage(e));
                },
            },
            None => match local.pull_since_cursor(cursor, batch_limit) {
                Ok(b) => b,
                Err(e) => {
                    return Err(SyncError::Storage(e));
                },
            },
        };
        if batch.entries.len() == 0 {
            return Ok(pushed_total);
        }
        let entries_len: usize = batch.entries.len();
        match pusher.push(batch.entries) {
            Ok(_) => (),
            Err(e) => {
                if is_payload_too_large_error(&e) && batch_limit > 1 {
                    batch_limit = batch_limit / 2;
                    continue ;
                } else {
                    return Err(e);
                }
            },
        };
        pushed_total = pushed_total.saturating_add(entries_len);
        match batch.next_cursor {
            None => {
                return Err(
                    SyncError::InvalidBatch("entries returned without a next cursor".to_owned()),
                );
            },
            Some(nc) => {
                if nc <= cursor {
                    return Err(SyncError::InvalidBatch("next cursor did not advance".to_owned()));
                }
                cursor = nc;
                match local.set_last_pushed_seq(peer_id, cursor) {
                    Ok(_) => (),
                    Err(e) => {
                        return Err(SyncError::Storage(e));
                    },
                };
            },
        }
    }
}

/// The entry ids of the rows with ingest sequence at most `c`.
pub open spec fn ids_upto(rows: Seq<crate::store::RowModel>, c: int) -> Set<Seq<char>> {
    Set::new(
        |id: Seq<char>|
            exists|i: int|
                0 <= i < rows.len() && rows[i].seq <= c && #[trigger] rows[i].entry.entry_id
                    == id,
    )
}

/// At the head of a sorted log, the ids up to the head are all the ids.
proof fn lemma_ids_upto_latest(rows: Seq<crate::store::RowModel>, c: int)
    requires
        sorted_rows(rows),
        forall|i: int| 0 <= i < rows.len() ==> (#[trigger] rows[i]).seq <= c,
    ensures
        ids_upto(rows, c) =~= ids_of(rows),
{
    assert forall|k: Seq<char>| ids_of(rows).contains(k) implies ids_upto(rows, c).contains(
        k,
    ) by {
        let i = choose|i: int| 0 <= i < rows.len() && #[trigger] rows[i].entry.entry_id == k;
        assert(rows[i].seq <= c);
        assert(rows[i].entry.entry_id == k);
    }
}

/// One validated batch moves the absorbed window from `c` to the batch's
/// last sequence: the ids up to there are the old window plus the batch.
proof fn lemma_ids_upto_step(rows: Seq<crate::store::RowModel>, c: int, limit: int)
    requires
        sorted_rows(rows),
        0 <= limit,
        spec_pull(rows, c, limit, None).len() > 0,
    ensures
        ({
            let picked = spec_pull(rows, c, limit, None);
            ids_upto(rows, picked.last().seq) =~= ids_upto(rows, c) + batch_ids(
                entries_of(picked),
            )
        }),
{
    let picked = spec_pull(rows, c, limit, None);
    let nc = picked.last().seq;
    let a = rows_after(rows, c, None);
    lemma_pull_window(rows, c, limit, None);
    lemma_rows_after_sorted(rows, c, None);
    lemma_rows_after_elems(rows, c, None);
    assert(picked.len() <= a.len());
    assert(forall|k2: int| 0 <= k2 < picked.len() ==> #[trigger] picked[k2] == a[k2]);
    assert(picked.last() == a[picked.len() - 1]);
    assert(c < nc) by {
        assert(a[picked.len() - 1].seq > c);
    }
    assert forall|id: Seq<char>| ids_upto(rows, nc).contains(id) implies (ids_upto(rows, c)
        + batch_ids(entries_of(picked))).contains(id) by {
        let i = choose|i: int|
            0 <= i < rows.len() && rows[i].seq <= nc && #[trigger] rows[i].entry.entry_id == id;
        if rows[i].seq > c {
            let k = choose|k: int| 0 <= k < picked.len() && #[trigger] picked[k] == rows[i];
            assert(entries_of(picked)[k].entry_id == id);
        }
    }
    assert forall|id: Seq<char>| (ids_upto(rows, c) + batch_ids(entries_of(picked))).contains(
        id,
    ) implies ids_upto(rows, nc).contains(id) by {
        if ids_upto(rows, c).contains(id) {
            let i = choose|i: int|
                0 <= i < rows.len() && rows[i].seq <= c && #[trigger] rows[i].entry.entry_id
                    == id;
            assert(rows[i].seq <= nc);
            assert(rows[i].entry.entry_id == id);
        } else {
            let k = choose|k: int|
                0 <= k < entries_of(picked).len() && #[trigger] entries_of(picked)[k].entry_id
                    == id;
            assert(picked[k] == a[k]);
            assert(picked[k].seq <= nc) by {
                if k < picked.len() - 1 {
                    assert(a[k].seq < a[picked.len() - 1].seq);
                }
            }
            let j = choose|j: int| 0 <= j < rows.len() && #[trigger] rows[j] == a[k];
            assert(rows[j].seq <= nc && rows[j].entry.entry_id == id);
        }
    }
}

/// Pulls from another verified store standing for the remote peer, with an
/// optional cap standing for the peer's message-size limit: a request for
/// more than `remote_cap` entries is rejected as too large, and the engine
/// halves its batch limit until the peer accepts.
///
/// The contract carries the convergence laws. On success the local log's
/// ids become the union of both logs' ids, the peer's pull cursor lands on
/// the remote head, and the returned count is exactly the number of remote
/// rows past the starting cursor — however small the cap, as long as it
/// admits batches of one. Against an already-caught-up peer the run
/// returns zero and changes nothing. Only a cap of zero makes the run
/// fail, and then it changes nothing at all.
pub fn sync_pull_from_store(
    local: &mut LocalStore,
    peer_id: &str,
    limit: usize,
    remote: &LocalStore,
    remote_cap: Option<usize>,
) -> (r: Result<usize, SyncError>)
    requires
        old(local).wf(),
        remote.wf(),
        limit >= 1,
        0 <= cursor_or_zero(old(local)@.pull_cursors, peer_id@),
        cursor_or_zero(old(local)@.pull_cursors, peer_id@) <= latest_seq(remote@),
        forall|i: int|
            0 <= i < remote@.rows.len() && (#[trigger] remote@.rows[i]).seq <= cursor_or_zero(
                old(local)@.pull_cursors,
                peer_id@,
            ) ==> ids_of(old(local)@.rows).contains(remote@.rows[i].entry.entry_id),
        old(local)@.next_seq + remote@.rows.len() <= i64::MAX,
    ensures
        final(local).wf(),
        final(local)@.push_cursors == old(local)@.push_cursors,
        final(local)@.peer_book == old(local)@.peer_book,
        forall|k: Seq<char>|
            k != peer_id@ ==> cursor_or_zero(final(local)@.pull_cursors, k) == cursor_or_zero(
                old(local)@.pull_cursors,
                k,
            ),
        ((r matches Err(_)) <==> (remote_cap matches Some(cc) && cc == 0)),
        r matches Err(_) ==> final(local)@ == old(local)@,
        r matches Ok(n) ==> {
            let c0 = cursor_or_zero(old(local)@.pull_cursors, peer_id@);
            &&& ids_of(final(local)@.rows) =~= ids_of(old(local)@.rows) + ids_of(remote@.rows)
            &&& cursor_or_zero(final(local)@.pull_cursors, peer_id@) == latest_seq(remote@)
            &&& n == rows_after(remote@.rows, c0, None).len()
            &&& (c0 == latest_seq(remote@) ==> n == 0 && final(local)@ == old(local)@)
        },
{
    let mut cursor: i64 = match local.get_last_cursor(peer_id) {
        Ok(v) => v,
        Err(e) => {
            return Err(SyncError::Storage(e));
        },
    };
    let ghost m0 = local@;
    let ghost c0 = cursor as int;
    let ghost rrows = remote@.rows;
    proof {
        remote.lemma_wf_inv();
        remote.lemma_rows_len_bound();
        assert(sorted_rows(rrows));
        lemma_rows_after_len(rrows, c0, None);
        assert(ids_upto(rrows, c0).subset_of(ids_of(m0.rows))) by {
            assert forall|id: Seq<char>| ids_upto(rrows, c0).contains(id) implies ids_of(
                m0.rows,
            ).contains(id) by {
                let i = choose|i: int|
                    0 <= i < rrows.len() && rrows[i].seq <= c0
                        && #[trigger] rrows[i].entry.entry_id == id;
            }
        }
        assert(ids_of(m0.rows) =~= ids_of(m0.rows) + ids_upto(rrows, c0));
    }
    let mut pulled_total: usize = 0;
    let mut batch_limit: usize = limit;
    loop
        invariant
            local.wf(),
            remote.wf(),
            m0 == old(local)@,
            rrows == remote@.rows,
            sorted_rows(rrows),
            1 <= batch_limit <= limit,
            local@.push_cursors == m0.push_cursors,
            local@.peer_book == m0.peer_book,
            forall|k: Seq<char>|
                k != peer_id@ ==> cursor_or_zero(local@.pull_cursors, k) == cursor_or_zero(
                    m0.pull_cursors,
                    k,
                ),
            cursor as int == cursor_or_zero(local@.pull_cursors, peer_id@),
            c0 == cursor_or_zero(m0.pull_cursors, peer_id@),
            0 <= c0 <= cursor as int <= latest_seq(remote@),
            cursor as int == c0 ==> local@ == m0,
            (remote_cap matches Some(cc) && cc == 0) ==> local@ == m0,
            rows_after(rrows, c0, None).len() <= usize::MAX,
            ids_of(local@.rows) =~= ids_of(m0.rows) + ids_upto(rrows, cursor as int),
            rows_after(rrows, cursor as int, None).len() <= rows_after(rrows, c0, None).len(),
            pulled_total + rows_after(rrows, cursor as int, None).len() == rows_after(
                rrows,
                c0,
                None,
            ).len(),
            local@.next_seq + rows_after(rrows, cursor as int, None).len() <= i64::MAX,
        decreases latest_seq(remote@) - cursor, batch_limit,
    {
        let too_large: bool = match remote_cap {
            Some(c) => batch_limit > c,
            None => false,
        };
        if too_large {
            if batch_limit <= 1 {
                proof {
                    assert(remote_cap matches Some(cc) && cc == 0);
                }
                return Err(SyncError::TooLarge("batch of one rejected".to_owned()));
            }
            batch_limit = batch_limit / 2;
        } else {
            let batch = match remote.pull_since_cursor(cursor, batch_limit) {
                Ok(b) => b,
                Err(e) => {
                    return Err(SyncError::Storage(e));
                },
            };
            let ghost picked = spec_pull(rrows, cursor as int, batch_limit as int, None);
            if batch.entries.len() == 0 {
                proof {
                    assert(entries_of(picked).len() == picked.len());
                    assert(picked.len() == 0);
                    assert(rows_after(rrows, cursor as int, None).len() == 0);
                    if rrows.len() > 0 {
                        crate::store::lemma_rows_after_complete(rrows, cursor as int, None);
                        assert forall|i: int| 0 <= i < rrows.len() implies (
                        #[trigger] rrows[i]).seq <= cursor as int by {
                            if rrows[i].seq > cursor as int {
                                assert(rows_after(rrows, cursor as int, None).len() > 0);
                            }
                        }
                        assert(rrows.last().seq <= cursor as int);
                        lemma_ids_upto_latest(rrows, cursor as int);
                    } else {
                        assert(latest_seq(remote@) == 0);
                        lemma_ids_upto_latest(rrows, cursor as int);
                    }
                    assert(cursor as int == latest_seq(remote@));
                }
                return Ok(pulled_total);
            }
            let ghost pre = local@;
            proof {
                assert(batch.entries.deep_view().len() == batch.entries@.len());
                assert(picked.len() == batch.entries@.len());
                assert(picked.len() <= rows_after(rrows, cursor as int, None).len());
            }
            match local.insert_entries(&batch.entries) {
                Ok(_) => (),
                Err(_) => {
                    proof {
                        assert(false);
                    }
                    return Err(SyncError::Transport("unreachable".to_owned()));
                },
            };
            proof {
                lemma_insert_ids(pre.rows, pre.next_seq, batch.entries.deep_view());
                crate::store::lemma_insert_next_seq(
                    pre.rows,
                    pre.next_seq,
                    batch.entries.deep_view(),
                );
                assert(batch.entries.deep_view() == entries_of(picked));
            }
            match batch.next_cursor {
                None => {
                    proof {
                        assert(false);
                    }
                    return Err(SyncError::Transport("unreachable".to_owned()));
                },
                Some(nc) => {
                    proof {
                        assert(nc as int == picked.last().seq);
                        lemma_ids_upto_step(rrows, cursor as int, batch_limit as int);
                        lemma_rows_after_advance(rrows, cursor as int, batch_limit as int, None);
                        lemma_rows_after_elems(rrows, cursor as int, None);
                        assert(nc as int <= latest_seq(remote@)) by {
                            let a = rows_after(rrows, cursor as int, None);
                            assert(picked.last() == a[picked.len() - 1]);
                            let j = choose|j: int|
                                0 <= j < rrows.len() && #[trigger] rrows[j] == a[picked.len()
                                    - 1];
                            assert(rrows[j].seq <= rrows.last().seq);
                        }
                        assert(ids_of(local@.rows) =~= ids_of(m0.rows) + ids_upto(
                            rrows,
                            nc as int,
                        ));
                        assert(rows_after(rrows, nc as int, None) =~= rows_after(
                            rrows,
                            cursor as int,
                            None,
                        ).skip(picked.len() as int));
                        assert(rows_after(rrows, nc as int, None).len() == rows_after(
                            rrows,
                            cursor as int,
                            None,
                        ).len() - picked.len());
                    }
                    pulled_total = pulled_total + batch.entries.len();
                    cursor = nc;
                    match local.set_last_cursor(peer_id, cursor) {
                        Ok(_) => (),
                        Err(e) => {
                            return Err(SyncError::Storage(e));
                        },
                    };
                },
            }
        }
    }
}

/// Batch ids distribute over concatenation.
proof fn lemma_batch_ids_concat(xs: Seq<crate::entry::EntryModel>, ys: Seq<crate::entry::EntryModel>)
    ensures
        batch_ids(xs + ys) =~= batch_ids(xs) + batch_ids(ys),
{
    assert forall|id: Seq<char>| batch_ids(xs + ys).contains(id) implies (batch_ids(xs)
        + batch_ids(ys)).contains(id) by {
        let i = choose|i: int| 0 <= i < (xs + ys).len() && #[trigger] (xs + ys)[i].entry_id == id;
        if i < xs.len() {
            assert(xs[i].entry_id == id);
        } else {
            assert(ys[i - xs.len()].entry_id == id);
        }
    }
    assert forall|id: Seq<char>| (batch_ids(xs) + batch_ids(ys)).contains(id) implies batch_ids(
        xs + ys,
    ).contains(id) by {
        if batch_ids(xs).contains(id) {
            let i = choose|i: int| 0 <= i < xs.len() && #[trigger] xs[i].entry_id == id;
            assert((xs + ys)[i].entry_id == id);
        } else {
            let i = choose|i: int| 0 <= i < ys.len() && #[trigger] ys[i].entry_id == id;
            assert((xs + ys)[xs.len() + i].entry_id == id);
        }
    }
}

/// Pushes to another verified store standing for the remote peer, reading
/// batches from the local log restricted to `source_device_id` when given,
/// with `remote_cap` standing for the peer's message-size limit: a batch
/// of more than that many entries is rejected as too large.
///
/// The contract carries the push laws. Only rows that pass the
/// source-device filter ever reach the remote: on success its ids become
/// exactly the old ids plus the filtered pending rows — entries pulled
/// from elsewhere are never forwarded. The push cursor moves only after
/// the remote acknowledged a batch, so a run that fails on its first
/// batch, like any run against a peer that rejects everything, changes
/// neither store; and a second run after a catch-up moves nothing.
pub fn sync_push_to_store(
    local: &mut LocalStore,
    peer_id: &str,
    limit: usize,
    source_device_id: Option<&str>,
    remote: &mut LocalStore,
    remote_cap: Option<usize>,
) -> (r: Result<usize, SyncError>)
    requires
        old(local).wf(),
        old(remote).wf(),
        limit >= 1,
        old(remote)@.next_seq + old(local)@.rows.len() <= i64::MAX,
    ensures
        final(local).wf(),
        final(remote).wf(),
        final(local)@.rows == old(local)@.rows,
        final(local)@.next_seq == old(local)@.next_seq,
        final(local)@.pull_cursors == old(local)@.pull_cursors,
        final(local)@.peer_book == old(local)@.peer_book,
        forall|k: Seq<char>|
            k != peer_id@ ==> cursor_or_zero(final(local)@.push_cursors, k) == cursor_or_zero(
                old(local)@.push_cursors,
                k,
            ),
        final(remote)@.pull_cursors == old(remote)@.pull_cursors,
        final(remote)@.push_cursors == old(remote)@.push_cursors,
        final(remote)@.peer_book == old(remote)@.peer_book,
        ({
            let c0 = cursor_or_zero(old(local)@.push_cursors, peer_id@);
            let filt = match source_device_id {
                Some(d) => Some(d@),
                None => None::<Seq<char>>,
            };
            let pending = rows_after(old(local)@.rows, c0, filt);
            &&& ((r matches Err(_)) <==> (remote_cap matches Some(cc) && cc == 0
                && pending.len() > 0))
            &&& (r matches Err(_) ==> final(local)@ == old(local)@ && final(remote)@ == old(
                remote,
            )@)
            &&& (r matches Ok(n) ==> {
                &&& n == pending.len()
                &&& ids_of(final(remote)@.rows) =~= ids_of(old(remote)@.rows) + batch_ids(
                    entries_of(pending),
                )
                &&& cursor_or_zero(final(local)@.push_cursors, peer_id@) == (if pending.len()
                    > 0 {
                    pending.last().seq
                } else {
                    c0
                })
                &&& (pending.len() == 0 ==> final(local)@ == old(local)@ && final(remote)@
                    == old(remote)@)
            })
        }),
{
    let mut cursor: i64 = match local.get_last_pushed_seq(peer_id) {
        Ok(v) => v,
        Err(e) => {
            return Err(SyncError::Storage(e));
        },
    };
    let ghost m0 = local@;
    let ghost r0 = remote@;
    let ghost c0 = cursor as int;
    let ghost lrows = local@.rows;
    let ghost filt: Option<Seq<char>> = match source_device_id {
        Some(d) => Some(d@),
        None => None,
    };
    let ghost pending = rows_after(lrows, c0, filt);
    proof {
        local.lemma_wf_inv();
        local.lemma_rows_len_bound();
        assert(sorted_rows(lrows));
        lemma_rows_after_len(lrows, c0, filt);
        assert(pending.take(0) =~= Seq::<crate::store::RowModel>::empty());
        assert(batch_ids(entries_of(pending.take(0))) =~= Set::<Seq<char>>::empty());
        assert(pending.skip(0) =~= pending);
    }
    let mut pushed_total: usize = 0;
    let mut batch_limit: usize = limit;
    loop
        invariant
            local.wf(),
            remote.wf(),
            m0 == old(local)@,
            r0 == old(remote)@,
            lrows == local@.rows,
            sorted_rows(lrows),
            filt == (match source_device_id {
                Some(d) => Some(d@),
                None => None::<Seq<char>>,
            }),
            pending == rows_after(lrows, c0, filt),
            pending.len() <= lrows.len() <= usize::MAX,
            r0.next_seq + lrows.len() <= i64::MAX,
            1 <= batch_limit <= limit,
            local@.rows == m0.rows,
            local@.next_seq == m0.next_seq,
            local@.pull_cursors == m0.pull_cursors,
            local@.peer_book == m0.peer_book,
            forall|k: Seq<char>|
                k != peer_id@ ==> cursor_or_zero(local@.push_cursors, k) == cursor_or_zero(
                    m0.push_cursors,
                    k,
                ),
            cursor as int == cursor_or_zero(local@.push_cursors, peer_id@),
            c0 == cursor_or_zero(m0.push_cursors, peer_id@),
            remote@.pull_cursors == r0.pull_cursors,
            remote@.push_cursors == r0.push_cursors,
            remote@.peer_book == r0.peer_book,
            pushed_total <= pending.len(),
            rows_after(lrows, cursor as int, filt) =~= pending.skip(pushed_total as int),
            ids_of(remote@.rows) =~= ids_of(r0.rows) + batch_ids(
                entries_of(pending.take(pushed_total as int)),
            ),
            remote@.next_seq <= r0.next_seq + pushed_total,
            pushed_total == 0 ==> cursor as int == c0 && local@ == m0 && remote@ == r0,
            pushed_total > 0 ==> cursor as int == pending[pushed_total - 1].seq,
            (remote_cap matches Some(cc) && cc == 0) ==> pushed_total == 0,
        decreases rows_after(lrows, cursor as int, filt).len(), batch_limit,
    {
        let batch = match source_device_id {
            Some(device_id) => match local.pull_since_cursor_for_device(
                cursor,
                batch_limit,
                device_id,
            ) {
                Ok(b) => b,
                Err(e) => {
                    return Err(SyncError::Storage(e));
                },
            },
            None => match local.pull_since_cursor(cursor, batch_limit) {
                Ok(b) => b,
                Err(e) => {
                    return Err(SyncError::Storage(e));
                },
            },
        };
        let ghost picked = spec_pull(lrows, cursor as int, batch_limit as int, filt);
        proof {
            assert(batch.entries.deep_view().len() == batch.entries@.len());
            assert(picked.len() == batch.entries@.len());
        }
        if batch.entries.len() == 0 {
            proof {
                assert(picked.len() == 0);
                assert(rows_after(lrows, cursor as int, filt).len() == 0);
                assert(pending.skip(pushed_total as int).len() == 0);
                assert(pushed_total == pending.len());
                assert(pending.take(pushed_total as int) =~= pending);
            }
            return Ok(pushed_total);
        }
        let too_large: bool = match remote_cap {
            Some(c) => batch.entries.len() > c,
            None => false,
        };
        if too_large {
            if batch_limit <= 1 {
                proof {
                    assert(batch.entries@.len() <= 1);
                    assert(remote_cap matches Some(cc) && cc == 0);
                    assert(pending.len() > 0) by {
                        assert(rows_after(lrows, cursor as int, filt).len() > 0);
                    }
                }
                return Err(SyncError::TooLarge("batch of one rejected".to_owned()));
            }
            batch_limit = batch_limit / 2;
        } else {
            let ghost rpre = remote@;
            let entries_len: usize = batch.entries.len();
            match remote.insert_entries(&batch.entries) {
                Ok(_) => (),
                Err(_) => {
                    proof {
                        assert(rows_after(lrows, cursor as int, filt).len() <= pending.len());
                        assert(rpre.next_seq + batch.entries@.len() <= r0.next_seq
                            + pushed_total + picked.len());
                        assert(false);
                    }
                    return Err(SyncError::Transport("unreachable".to_owned()));
                },
            };
            proof {
                lemma_insert_ids(rpre.rows, rpre.next_seq, batch.entries.deep_view());
                crate::store::lemma_insert_next_seq(
                    rpre.rows,
                    rpre.next_seq,
                    batch.entries.deep_view(),
                );
                assert(batch.entries.deep_view() == entries_of(picked));
            }
            match batch.next_cursor {
                None => {
                    proof {
                        assert(false);
                    }
                    return Err(SyncError::Transport("unreachable".to_owned()));
                },
                Some(nc) => {
                    proof {
                        assert(nc as int == picked.last().seq);
                        lemma_rows_after_advance(lrows, cursor as int, batch_limit as int, filt);
                        let a = rows_after(lrows, cursor as int, filt);
                        lemma_rows_after_sorted(lrows, cursor as int, filt);
                        assert(picked.len() <= a.len());
                        assert(forall|k2: int|
                            0 <= k2 < picked.len() ==> #[trigger] picked[k2] == a[k2]);
                        assert(a =~= pending.skip(pushed_total as int));
                        assert(forall|k2: int|
                            0 <= k2 < picked.len() ==> a[k2] == pending[pushed_total + k2]);
                        assert(rows_after(lrows, nc as int, filt) =~= a.skip(
                            picked.len() as int,
                        ));
                        assert(a.skip(picked.len() as int) =~= pending.skip(
                            pushed_total + picked.len(),
                        ));
                        assert(nc as int == pending[pushed_total + picked.len() - 1].seq);
                        let oldtake = pending.take(pushed_total as int);
                        let newtake = pending.take(pushed_total + picked.len());
                        assert(newtake =~= oldtake + picked);
                        assert(entries_of(newtake) =~= entries_of(oldtake) + entries_of(
                            picked,
                        ));
                        lemma_batch_ids_concat(entries_of(oldtake), entries_of(picked));
                        assert(ids_of(remote@.rows) =~= ids_of(r0.rows) + batch_ids(
                            entries_of(newtake),
                        ));
                    }
                    pushed_total = pushed_total + entries_len;
                    cursor = nc;
                    match local.set_last_pushed_seq(peer_id, cursor) {
                        Ok(_) => (),
                        Err(e) => {
                            return Err(SyncError::Storage(e));
                        },
                    };
                },
            }
        }
    }
}

} // verus!
