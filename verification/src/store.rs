//! The local store: an append-only command log with a strictly monotonic
//! ingest sequence, per-peer pull and push cursors, and the peer address
//! cache.
//!
//! The store is modelled by [`StoreModel`]: the log as a sequence of rows in
//! ingest order, the cursor tables as maps from peer id to cursor value, and
//! the peer book as a sequence of records. Every operation's contract says
//! exactly how it reads or rewrites that model.

use crate::entry::{Entry, EntryModel};
use crate::strutil::str_eq;
use vstd::prelude::*;

verus! {

/// One committed row: an entry and the ingest sequence it was assigned.
pub struct LogRow {
    pub seq: i64,
    pub entry: Entry,
}

/// Model of one committed row.
pub ghost struct RowModel {
    pub seq: int,
    pub entry: EntryModel,
}

impl View for LogRow {
    type V = RowModel;

    open spec fn view(&self) -> RowModel {
        RowModel { seq: self.seq as int, entry: self.entry@ }
    }
}

/// One peer's saved cursor value.
pub struct PeerCursor {
    pub peer_id: String,
    pub value: i64,
}

/// A row of the peer address cache.
pub struct PeerBookPeer {
    pub peer_id: String,
    pub addrs: Vec<String>,
    pub user_id: Option<String>,
    pub device_id: Option<String>,
    pub last_seen_unix: i64,
}

/// Model of a peer-book row.
pub ghost struct PeerBookModel {
    pub peer_id: Seq<char>,
    pub addrs: Seq<Seq<char>>,
    pub user_id: Option<Seq<char>>,
    pub device_id: Option<Seq<char>>,
    pub last_seen_unix: int,
}

impl View for PeerBookPeer {
    type V = PeerBookModel;

    open spec fn view(&self) -> PeerBookModel {
        PeerBookModel {
            peer_id: self.peer_id@,
            addrs: self.addrs.deep_view(),
            user_id: match self.user_id {
                Some(u) => Some(u@),
                None => None,
            },
            device_id: match self.device_id {
                Some(d) => Some(d@),
                None => None,
            },
            last_seen_unix: self.last_seen_unix as int,
        }
    }
}

impl DeepView for PeerBookPeer {
    type V = PeerBookModel;

    open spec fn deep_view(&self) -> PeerBookModel {
        self.view()
    }
}

impl Clone for PeerBookPeer {
    fn clone(&self) -> (r: PeerBookPeer)
        ensures
            r@ == self@,
    {
        PeerBookPeer {
            peer_id: self.peer_id.clone(),
            addrs: self.addrs.clone(),
            user_id: match &self.user_id {
                Some(u) => Some(u.clone()),
                None => None,
            },
            device_id: match &self.device_id {
                Some(d) => Some(d.clone()),
                None => None,
            },
            last_seen_unix: self.last_seen_unix,
        }
    }
}

/// Counts returned by a batch insert: rows newly written and rows whose
/// `entry_id` was already present.
#[derive(Debug, Clone, Copy, PartialEq, Eq, Structural)]
pub struct InsertStats {
    pub inserted: usize,
    pub ignored: usize,
}

/// A batch of entries pulled from a log, with the cursor to resume from.
pub struct PullBatch {
    pub entries: Vec<Entry>,
    pub next_cursor: Option<i64>,
}

/// The store's only failure: the 64-bit ingest sequence is exhausted.
#[derive(Debug, Clone, Copy, PartialEq, Eq, Structural)]
pub enum StoreError {
    CapacityExhausted,
}

/// Mathematical model of the whole store.
pub ghost struct StoreModel {
    pub rows: Seq<RowModel>,
    pub next_seq: int,
    pub pull_cursors: Map<Seq<char>, int>,
    pub push_cursors: Map<Seq<char>, int>,
    pub peer_book: Seq<PeerBookModel>,
}

/// The log's invariants: sequences start at 1, strictly increase in log
/// order, stay below `next_seq`, and entry ids never repeat.
pub open spec fn rows_ok(rows: Seq<RowModel>, next_seq: int) -> bool {
    &&& next_seq >= 1
    &&& forall|i: int| 0 <= i < rows.len() ==> 1 <= #[trigger] rows[i].seq < next_seq
    &&& forall|i: int, j: int| 0 <= i < j < rows.len() ==> rows[i].seq < rows[j].seq
    &&& forall|i: int, j: int|
        0 <= i < j < rows.len() ==> rows[i].entry.entry_id != rows[j].entry.entry_id
}

/// The whole model's invariant.
pub open spec fn store_inv(m: StoreModel) -> bool {
    &&& rows_ok(m.rows, m.next_seq)
    &&& forall|i: int, j: int|
        0 <= i < j < m.peer_book.len() ==> m.peer_book[i].peer_id != m.peer_book[j].peer_id
}

/// The set of entry ids present in a row sequence.
pub open spec fn ids_of(rows: Seq<RowModel>) -> Set<Seq<char>> {
    Set::new(
        |id: Seq<char>|
            exists|i: int| 0 <= i < rows.len() && #[trigger] rows[i].entry.entry_id == id,
    )
}

/// A saved cursor value, or the default 0 for an unknown peer.
pub open spec fn cursor_or_zero(m: Map<Seq<char>, int>, k: Seq<char>) -> int {
    if m.dom().contains(k) {
        m[k]
    } else {
        0
    }
}

/// The largest ingest sequence in the log, or 0 when it is empty.
pub open spec fn latest_seq(m: StoreModel) -> int {
    if m.rows.len() == 0 {
        0
    } else {
        m.rows.last().seq
    }
}

/// The rows written by an insert batch: entries whose id is neither in the
/// log already nor earlier in the batch, each assigned the next sequence.
/// Yields the new log, the new `next_seq`, and the inserted count.
pub open spec fn spec_insert(rows: Seq<RowModel>, next_seq: int, es: Seq<EntryModel>) -> (
    Seq<RowModel>,
    int,
    int,
)
    decreases es.len(),
{
    if es.len() == 0 {
        (rows, next_seq, 0)
    } else {
        let e = es[0];
        if ids_of(rows).contains(e.entry_id) {
            spec_insert(rows, next_seq, es.subrange(1, es.len() as int))
        } else {
            let rest = spec_insert(
                rows.push(RowModel { seq: next_seq, entry: e }),
                next_seq + 1,
                es.subrange(1, es.len() as int),
            );
            (rest.0, rest.1, rest.2 + 1)
        }
    }
}

/// The set of entry ids named by a batch.
pub open spec fn batch_ids(es: Seq<EntryModel>) -> Set<Seq<char>> {
    Set::new(
        |id: Seq<char>| exists|i: int| 0 <= i < es.len() && #[trigger] es[i].entry_id == id,
    )
}

proof fn lemma_ids_push(rows: Seq<RowModel>, r: RowModel)
    ensures
        ids_of(rows.push(r)) =~= ids_of(rows).insert(r.entry.entry_id),
{
    let lhs = ids_of(rows.push(r));
    let rhs = ids_of(rows).insert(r.entry.entry_id);
    assert forall|k: Seq<char>| lhs.contains(k) implies rhs.contains(k) by {
        let i = choose|i: int|
            0 <= i < rows.push(r).len() && #[trigger] rows.push(r)[i].entry.entry_id == k;
        if i < rows.len() {
            assert(rows[i].entry.entry_id == k);
        }
    }
    assert forall|k: Seq<char>| rhs.contains(k) implies lhs.contains(k) by {
        if k == r.entry.entry_id {
            assert(rows.push(r)[rows.len() as int].entry.entry_id == k);
        } else {
            let i = choose|i: int|
                0 <= i < rows.len() && #[trigger] rows[i].entry.entry_id == k;
            assert(rows.push(r)[i].entry.entry_id == k);
        }
    }
}

proof fn lemma_batch_ids_tail(es: Seq<EntryModel>)
    requires
        es.len() > 0,
    ensures
        batch_ids(es) =~= batch_ids(es.subrange(1, es.len() as int)).insert(es[0].entry_id),
{
    let t = es.subrange(1, es.len() as int);
    let lhs = batch_ids(es);
    let rhs = batch_ids(t).insert(es[0].entry_id);
    assert forall|k: Seq<char>| lhs.contains(k) implies rhs.contains(k) by {
        let i = choose|i: int| 0 <= i < es.len() && #[trigger] es[i].entry_id == k;
        if i > 0 {
            assert(t[i - 1].entry_id == k);
        }
    }
    assert forall|k: Seq<char>| rhs.contains(k) implies lhs.contains(k) by {
        if k == es[0].entry_id {
            assert(es[0].entry_id == k);
        } else {
            let i = choose|i: int| 0 <= i < t.len() && #[trigger] t[i].entry_id == k;
            assert(es[i + 1].entry_id == k);
        }
    }
}

/// Inserting a batch makes the log's id set exactly the union of the old
/// ids and the batch's ids, and never removes or rewrites existing rows.
pub proof fn lemma_insert_ids(rows: Seq<RowModel>, next_seq: int, es: Seq<EntryModel>)
    ensures
        ids_of(spec_insert(rows, next_seq, es).0) =~= ids_of(rows) + batch_ids(es),
        rows.is_prefix_of(spec_insert(rows, next_seq, es).0),
    decreases es.len(),
{
    let t = spec_insert(rows, next_seq, es);
    if es.len() == 0 {
        assert(batch_ids(es) =~= Set::<Seq<char>>::empty());
        assert(rows.is_prefix_of(rows));
    } else {
        let tail = es.subrange(1, es.len() as int);
        lemma_batch_ids_tail(es);
        if ids_of(rows).contains(es[0].entry_id) {
            lemma_insert_ids(rows, next_seq, tail);
        } else {
            let rows1 = rows.push(RowModel { seq: next_seq, entry: es[0] });
            lemma_ids_push(rows, RowModel { seq: next_seq, entry: es[0] });
            lemma_insert_ids(rows1, next_seq + 1, tail);
            assert(rows.is_prefix_of(rows1));
            assert(rows1.is_prefix_of(t.0));
            assert(rows =~= t.0.subrange(0, rows.len() as int));
        }
    }
}

/// An insert advances `next_seq` by at most the batch's length.
pub proof fn lemma_insert_next_seq(rows: Seq<RowModel>, next_seq: int, es: Seq<EntryModel>)
    ensures
        next_seq <= spec_insert(rows, next_seq, es).1 <= next_seq + es.len(),
    decreases es.len(),
{
    if es.len() > 0 {
        let tail = es.subrange(1, es.len() as int);
        if ids_of(rows).contains(es[0].entry_id) {
            lemma_insert_next_seq(rows, next_seq, tail);
        } else {
            lemma_insert_next_seq(
                rows.push(RowModel { seq: next_seq, entry: es[0] }),
                next_seq + 1,
                tail,
            );
        }
    }
}

/// A batch whose every id is already present inserts nothing and changes
/// nothing.
proof fn lemma_insert_all_dup(rows: Seq<RowModel>, next_seq: int, es: Seq<EntryModel>)
    requires
        forall|i: int| 0 <= i < es.len() ==> ids_of(rows).contains(#[trigger] es[i].entry_id),
    ensures
        spec_insert(rows, next_seq, es).0 == rows,
        spec_insert(rows, next_seq, es).1 == next_seq,
        spec_insert(rows, next_seq, es).2 == 0,
    decreases es.len(),
{
    if es.len() > 0 {
        let tail = es.subrange(1, es.len() as int);
        assert(forall|i: int|
            0 <= i < tail.len() ==> ids_of(rows).contains(#[trigger] tail[i].entry_id));
        lemma_insert_all_dup(rows, next_seq, tail);
    }
}

/// Inserting the same batch twice leaves the log exactly as one insert
/// does, with nothing inserted the second time: the insert is idempotent.
pub proof fn lemma_insert_idempotent(rows: Seq<RowModel>, next_seq: int, es: Seq<EntryModel>)
    ensures
        spec_insert(spec_insert(rows, next_seq, es).0, spec_insert(rows, next_seq, es).1, es).0
            == spec_insert(rows, next_seq, es).0,
        spec_insert(spec_insert(rows, next_seq, es).0, spec_insert(rows, next_seq, es).1, es).1
            == spec_insert(rows, next_seq, es).1,
        spec_insert(spec_insert(rows, next_seq, es).0, spec_insert(rows, next_seq, es).1, es).2
            == 0,
{
    let t = spec_insert(rows, next_seq, es);
    lemma_insert_ids(rows, next_seq, es);
    assert(forall|i: int| 0 <= i < es.len() ==> batch_ids(es).contains(#[trigger] es[i].entry_id));
    lemma_insert_all_dup(t.0, t.1, es);
}


/// Whether a row passes an optional source-device filter.
pub open spec fn row_matches(r: RowModel, filter: Option<Seq<char>>) -> bool {
    match filter {
        Some(d) => r.entry.device_id == d,
        None => true,
    }
}

/// The rows with `seq > cursor` that pass the filter, in log order.
pub open spec fn rows_after(rows: Seq<RowModel>, cursor: int, filter: Option<Seq<char>>) -> Seq<
    RowModel,
>
    decreases rows.len(),
{
    if rows.len() == 0 {
        Seq::empty()
    } else {
        let rest = rows_after(rows.subrange(1, rows.len() as int), cursor, filter);
        if rows[0].seq > cursor && row_matches(rows[0], filter) {
            seq![rows[0]] + rest
        } else {
            rest
        }
    }
}

/// What one pull returns: the first `limit` rows past the cursor.
pub open spec fn spec_pull(
    rows: Seq<RowModel>,
    cursor: int,
    limit: int,
    filter: Option<Seq<char>>,
) -> Seq<RowModel> {
    let a = rows_after(rows, cursor, filter);
    if a.len() <= limit {
        a
    } else {
        a.subrange(0, limit)
    }
}

/// The entries of a row sequence, in order.
pub open spec fn entries_of(rows: Seq<RowModel>) -> Seq<EntryModel> {
    rows.map_values(|r: RowModel| r.entry)
}

/// Appending a row extends the filtered tail by that row when it passes.
proof fn lemma_rows_after_snoc(rows: Seq<RowModel>, r: RowModel, cursor: int, filter: Option<Seq<char>>)
    ensures
        rows_after(rows.push(r), cursor, filter) =~= rows_after(rows, cursor, filter) + (
        if r.seq > cursor && row_matches(r, filter) {
            seq![r]
        } else {
            Seq::empty()
        }),
    decreases rows.len(),
{
    let x: Seq<RowModel> = if r.seq > cursor && row_matches(r, filter) {
        seq![r]
    } else {
        Seq::empty()
    };
    if rows.len() == 0 {
        assert(rows.push(r).subrange(1, 1) =~= Seq::<RowModel>::empty());
        assert(rows_after(Seq::<RowModel>::empty(), cursor, filter) == Seq::<RowModel>::empty());
        assert(rows_after(rows.push(r).subrange(1, 1), cursor, filter)
            == Seq::<RowModel>::empty());
        assert(rows_after(rows.push(r), cursor, filter) =~= x);
        assert(rows_after(rows, cursor, filter) + x =~= x);
    } else {
        let t = rows.subrange(1, rows.len() as int);
        assert(rows.push(r).subrange(1, rows.len() as int + 1) =~= t.push(r));
        lemma_rows_after_snoc(t, r, cursor, filter);
        assert(rows_after(t.push(r), cursor, filter) == rows_after(t, cursor, filter) + x);
        assert(rows.push(r)[0] == rows[0]);
        if rows[0].seq > cursor && row_matches(rows[0], filter) {
            assert(rows_after(rows.push(r), cursor, filter) == seq![rows[0]] + (rows_after(
                t,
                cursor,
                filter,
            ) + x));
            assert(seq![rows[0]] + (rows_after(t, cursor, filter) + x) =~= (seq![rows[0]]
                + rows_after(t, cursor, filter)) + x);
        }
    }
}

/// Every row of the filtered tail lies past the cursor, passes the filter,
/// and the tail preserves log order.
pub proof fn lemma_rows_after_elems(rows: Seq<RowModel>, cursor: int, filter: Option<Seq<char>>)
    ensures
        forall|i: int|
            0 <= i < rows_after(rows, cursor, filter).len() ==> (#[trigger] rows_after(
                rows,
                cursor,
                filter,
            )[i]).seq > cursor && row_matches(rows_after(rows, cursor, filter)[i], filter),
        forall|i: int|
            0 <= i < rows_after(rows, cursor, filter).len() ==> exists|j: int|
                0 <= j < rows.len() && #[trigger] rows[j] == #[trigger] rows_after(
                    rows,
                    cursor,
                    filter,
                )[i],
    decreases rows.len(),
{
    if rows.len() > 0 {
        let t = rows.subrange(1, rows.len() as int);
        lemma_rows_after_elems(t, cursor, filter);
        let a = rows_after(rows, cursor, filter);
        assert forall|i: int| 0 <= i < a.len() implies exists|j: int|
            0 <= j < rows.len() && #[trigger] rows[j] == #[trigger] a[i] by {
            if rows[0].seq > cursor && row_matches(rows[0], filter) {
                if i == 0 {
                    assert(rows[0] == a[0]);
                } else {
                    let k = choose|k: int|
                        0 <= k < t.len() && #[trigger] t[k] == #[trigger] rows_after(
                            t,
                            cursor,
                            filter,
                        )[i - 1];
                    assert(rows[k + 1] == a[i]);
                }
            } else {
                let k = choose|k: int|
                    0 <= k < t.len() && #[trigger] t[k] == #[trigger] rows_after(
                        t,
                        cursor,
                        filter,
                    )[i];
                assert(rows[k + 1] == a[i]);
            }
        }
    }
}

/// Rows in strictly ascending ingest order.
pub open spec fn sorted_rows(s: Seq<RowModel>) -> bool {
    forall|i: int, j: int| 0 <= i < j < s.len() ==> s[i].seq < s[j].seq
}

/// The filtered tail of a sorted log is sorted.
pub proof fn lemma_rows_after_sorted(rows: Seq<RowModel>, cursor: int, filter: Option<Seq<char>>)
    requires
        sorted_rows(rows),
    ensures
        sorted_rows(rows_after(rows, cursor, filter)),
    decreases rows.len(),
{
    if rows.len() > 0 {
        let t = rows.subrange(1, rows.len() as int);
        assert(sorted_rows(t));
        lemma_rows_after_sorted(t, cursor, filter);
        lemma_rows_after_elems(t, cursor, filter);
        let a = rows_after(rows, cursor, filter);
        let b = rows_after(t, cursor, filter);
        if rows[0].seq > cursor && row_matches(rows[0], filter) {
            assert forall|i: int, j: int| 0 <= i < j < a.len() implies a[i].seq < a[j].seq by {
                if i == 0 {
                    assert(a[j] == b[j - 1]);
                    let k = choose|k: int| 0 <= k < t.len() && t[k] == b[j - 1];
                    assert(rows[k + 1] == t[k]);
                    assert(rows[0].seq < t[k].seq);
                } else {
                    assert(a[i] == b[i - 1] && a[j] == b[j - 1]);
                }
            }
        }
    }
}

/// Every row past the cursor that passes the filter appears in the
/// filtered tail.
pub proof fn lemma_rows_after_complete(rows: Seq<RowModel>, cursor: int, filter: Option<Seq<char>>)
    ensures
        forall|i: int|
            0 <= i < rows.len() && rows[i].seq > cursor && row_matches(#[trigger] rows[i], filter)
                ==> exists|k: int|
                0 <= k < rows_after(rows, cursor, filter).len() && #[trigger] rows_after(
                    rows,
                    cursor,
                    filter,
                )[k] == rows[i],
    decreases rows.len(),
{
    if rows.len() > 0 {
        let t = rows.subrange(1, rows.len() as int);
        lemma_rows_after_complete(t, cursor, filter);
        let a = rows_after(rows, cursor, filter);
        let b = rows_after(t, cursor, filter);
        let off: int = if rows[0].seq > cursor && row_matches(rows[0], filter) {
            1
        } else {
            0
        };
        assert forall|i: int|
            0 <= i < rows.len() && rows[i].seq > cursor && row_matches(
                #[trigger] rows[i],
                filter,
            ) implies exists|k: int| 0 <= k < a.len() && #[trigger] a[k] == rows[i] by {
            if i == 0 {
                assert(a[0] == rows[0]);
            } else {
                assert(t[i - 1] == rows[i]);
                let k = choose|k: int| 0 <= k < b.len() && #[trigger] b[k] == t[i - 1];
                assert(a[k + off] == rows[i]);
            }
        }
    }
}

/// The first `limit` rows past the cursor cover every matching row up to
/// the last sequence they contain: a pull batch has no gaps.
pub proof fn lemma_pull_window(
    rows: Seq<RowModel>,
    cursor: int,
    limit: int,
    filter: Option<Seq<char>>,
)
    requires
        sorted_rows(rows),
        0 <= limit,
    ensures
        ({
            let picked = spec_pull(rows, cursor, limit, filter);
            picked.len() > 0 ==> forall|i: int|
                0 <= i < rows.len() && rows[i].seq > cursor && rows[i].seq <= picked.last().seq
                    && row_matches(#[trigger] rows[i], filter) ==> exists|k: int|
                    0 <= k < picked.len() && #[trigger] picked[k] == rows[i]
        }),
{
    let a = rows_after(rows, cursor, filter);
    let picked = spec_pull(rows, cursor, limit, filter);
    lemma_rows_after_sorted(rows, cursor, filter);
    lemma_rows_after_complete(rows, cursor, filter);
    if picked.len() > 0 {
        assert(picked.len() <= a.len());
        assert(forall|k2: int| 0 <= k2 < picked.len() ==> #[trigger] picked[k2] == a[k2]);
        assert forall|i: int|
            0 <= i < rows.len() && rows[i].seq > cursor && rows[i].seq <= picked.last().seq
                && row_matches(#[trigger] rows[i], filter) implies exists|k: int|
            0 <= k < picked.len() && #[trigger] picked[k] == rows[i] by {
            let k = choose|k: int| 0 <= k < a.len() && #[trigger] a[k] == rows[i];
            assert(picked.last() == a[picked.len() - 1]);
            if k >= picked.len() {
                assert(a[picked.len() - 1].seq < a[k].seq);
                assert(false);
            } else {
                assert(picked[k] == a[k]);
            }
        }
    }
}

/// When every row is at or below the cursor, the tail is empty.
pub proof fn lemma_rows_after_none(rows: Seq<RowModel>, cursor: int, filter: Option<Seq<char>>)
    requires
        forall|i: int| 0 <= i < rows.len() ==> (#[trigger] rows[i]).seq <= cursor,
    ensures
        rows_after(rows, cursor, filter).len() == 0,
    decreases rows.len(),
{
    if rows.len() > 0 {
        let t = rows.subrange(1, rows.len() as int);
        lemma_rows_after_none(t, cursor, filter);
    }
}

/// When every row is past the cursor and passes the filter, the tail is
/// the whole sequence.
proof fn lemma_rows_after_all(rows: Seq<RowModel>, cursor: int, filter: Option<Seq<char>>)
    requires
        forall|i: int|
            0 <= i < rows.len() ==> (#[trigger] rows[i]).seq > cursor && row_matches(
                rows[i],
                filter,
            ),
    ensures
        rows_after(rows, cursor, filter) =~= rows,
    decreases rows.len(),
{
    if rows.len() > 0 {
        let t = rows.subrange(1, rows.len() as int);
        lemma_rows_after_all(t, cursor, filter);
        assert(rows_after(rows, cursor, filter) =~= seq![rows[0]] + t);
        assert(seq![rows[0]] + t =~= rows);
    }
}

/// Splitting at the point where sequences cross `nc`: the tail past `nc`
/// is the suffix after the split.
proof fn lemma_rows_after_split(a: Seq<RowModel>, nc: int, k: int, filter: Option<Seq<char>>)
    requires
        0 <= k <= a.len(),
        forall|i: int| 0 <= i < k ==> (#[trigger] a[i]).seq <= nc,
        forall|i: int|
            k <= i < a.len() ==> (#[trigger] a[i]).seq > nc && row_matches(a[i], filter),
    ensures
        rows_after(a, nc, filter) =~= a.skip(k),
    decreases k,
{
    if k == 0 {
        lemma_rows_after_all(a, nc, filter);
        assert(a.skip(0) =~= a);
    } else {
        let t = a.subrange(1, a.len() as int);
        assert(forall|i: int| 0 <= i < k - 1 ==> (#[trigger] t[i]).seq <= nc);
        assert(forall|i: int|
            k - 1 <= i < t.len() ==> (#[trigger] t[i]).seq > nc && row_matches(t[i], filter));
        lemma_rows_after_split(t, nc, k - 1, filter);
        assert(t.skip(k - 1) =~= a.skip(k));
    }
}

/// Filtering by a later cursor factors through filtering by an earlier one.
proof fn lemma_rows_after_compose(rows: Seq<RowModel>, c: int, nc: int, filter: Option<Seq<char>>)
    requires
        c <= nc,
    ensures
        rows_after(rows, nc, filter) =~= rows_after(rows_after(rows, c, filter), nc, filter),
    decreases rows.len(),
{
    if rows.len() > 0 {
        let t = rows.subrange(1, rows.len() as int);
        lemma_rows_after_compose(t, c, nc, filter);
        let bc = rows_after(t, c, filter);
        if rows[0].seq > c && row_matches(rows[0], filter) {
            assert(rows_after(rows, c, filter) == seq![rows[0]] + bc);
            assert((seq![rows[0]] + bc).subrange(1, (seq![rows[0]] + bc).len() as int) =~= bc);
            if rows[0].seq > nc {
                assert(rows_after(rows, nc, filter) =~= seq![rows[0]] + rows_after(
                    bc,
                    nc,
                    filter,
                ));
            }
        }
    }
}

/// After a batch that ends at `nc`, what remains past `nc` is what was
/// past the old cursor minus the batch: the pulled window is contiguous.
pub proof fn lemma_rows_after_advance(
    rows: Seq<RowModel>,
    c: int,
    limit: int,
    filter: Option<Seq<char>>,
)
    requires
        sorted_rows(rows),
        0 <= limit,
        spec_pull(rows, c, limit, filter).len() > 0,
    ensures
        ({
            let picked = spec_pull(rows, c, limit, filter);
            rows_after(rows, picked.last().seq, filter) =~= rows_after(rows, c, filter).skip(
                picked.len() as int,
            )
        }),
{
    let a = rows_after(rows, c, filter);
    let picked = spec_pull(rows, c, limit, filter);
    let k = picked.len() as int;
    let nc = picked.last().seq;
    lemma_rows_after_sorted(rows, c, filter);
    lemma_rows_after_elems(rows, c, filter);
    assert(picked.len() <= a.len());
    assert(forall|k2: int| 0 <= k2 < picked.len() ==> #[trigger] picked[k2] == a[k2]);
    assert(picked.last() == a[k - 1]);
    assert(forall|i: int| 0 <= i < k ==> (#[trigger] a[i]).seq <= nc);
    assert(forall|i: int| k <= i < a.len() ==> (#[trigger] a[i]).seq > nc);
    assert(forall|i: int| k <= i < a.len() ==> row_matches(#[trigger] a[i], filter));
    assert(c <= nc) by {
        assert(a[k - 1].seq > c);
    }
    lemma_rows_after_compose(rows, c, nc, filter);
    lemma_rows_after_split(a, nc, k, filter);
}

/// The filtered tail is never longer than the log itself.
pub proof fn lemma_rows_after_len(rows: Seq<RowModel>, cursor: int, filter: Option<Seq<char>>)
    ensures
        rows_after(rows, cursor, filter).len() <= rows.len(),
    decreases rows.len(),
{
    if rows.len() > 0 {
        lemma_rows_after_len(rows.subrange(1, rows.len() as int), cursor, filter);
    }
}

/// Index of the first peer-book row with the given id, or -1.
pub open spec fn book_index_of(book: Seq<PeerBookModel>, id: Seq<char>) -> int
    decreases book.len(),
{
    if book.len() == 0 {
        -1
    } else if book[0].peer_id == id {
        0
    } else {
        let r = book_index_of(book.subrange(1, book.len() as int), id);
        if r < 0 {
            -1
        } else {
            r + 1
        }
    }
}

/// What an upsert makes of the peer book: the row under the same id is
/// replaced in place, or a new row is appended.
pub open spec fn spec_upsert_book(book: Seq<PeerBookModel>, p: PeerBookModel) -> Seq<
    PeerBookModel,
> {
    let i = book_index_of(book, p.peer_id);
    if i >= 0 {
        book.update(i, p)
    } else {
        book.push(p)
    }
}

/// The scan characterisation of `book_index_of`.
proof fn lemma_book_index_at(book: Seq<PeerBookModel>, id: Seq<char>, i: int)
    requires
        0 <= i <= book.len(),
        forall|j: int| 0 <= j < i ==> (#[trigger] book[j]).peer_id != id,
        i == book.len() || book[i].peer_id == id,
    ensures
        book_index_of(book, id) == if i == book.len() {
            -1
        } else {
            i
        },
    decreases i,
{
    if book.len() > 0 {
        if i == 0 {
        } else {
            let t = book.subrange(1, book.len() as int);
            assert(forall|j: int| 0 <= j < i - 1 ==> (#[trigger] t[j]).peer_id != id);
            lemma_book_index_at(t, id, i - 1);
        }
    }
}

/// `book_index_of` finds a row with the id it was asked about.
proof fn lemma_book_index_found(book: Seq<PeerBookModel>, id: Seq<char>)
    requires
        book_index_of(book, id) >= 0,
    ensures
        book_index_of(book, id) < book.len(),
        book[book_index_of(book, id)].peer_id == id,
    decreases book.len(),
{
    if book.len() > 0 && book[0].peer_id != id {
        lemma_book_index_found(book.subrange(1, book.len() as int), id);
    }
}

/// Whether a peer-book row passes the user filter (a row without a user
/// passes any filter) and the freshness floor.
pub open spec fn book_row_matches(p: PeerBookModel, user: Option<Seq<char>>, min: int) -> bool {
    &&& (match user {
        Some(u) => p.user_id == Some(u) || p.user_id is None,
        None => true,
    })
    &&& p.last_seen_unix >= min
}

/// The peer-book rows that pass the filter, in cache order.
pub open spec fn book_filter(
    book: Seq<PeerBookModel>,
    user: Option<Seq<char>>,
    min: int,
) -> Seq<PeerBookModel>
    decreases book.len(),
{
    if book.len() == 0 {
        Seq::empty()
    } else {
        let rest = book_filter(book.subrange(1, book.len() as int), user, min);
        if book_row_matches(book[0], user, min) {
            seq![book[0]] + rest
        } else {
            rest
        }
    }
}

proof fn lemma_book_filter_snoc(
    book: Seq<PeerBookModel>,
    p: PeerBookModel,
    user: Option<Seq<char>>,
    min: int,
)
    ensures
        book_filter(book.push(p), user, min) =~= book_filter(book, user, min) + (
        if book_row_matches(p, user, min) {
            seq![p]
        } else {
            Seq::empty()
        }),
    decreases book.len(),
{
    let x: Seq<PeerBookModel> = if book_row_matches(p, user, min) {
        seq![p]
    } else {
        Seq::empty()
    };
    if book.len() == 0 {
        assert(book.push(p).subrange(1, 1) =~= Seq::<PeerBookModel>::empty());
        assert(book_filter(Seq::<PeerBookModel>::empty(), user, min)
            == Seq::<PeerBookModel>::empty());
        assert(book_filter(book.push(p).subrange(1, 1), user, min)
            == Seq::<PeerBookModel>::empty());
        assert(book_filter(book.push(p), user, min) =~= x);
        assert(book_filter(book, user, min) + x =~= x);
    } else {
        let t = book.subrange(1, book.len() as int);
        assert(book.push(p).subrange(1, book.len() as int + 1) =~= t.push(p));
        lemma_book_filter_snoc(t, p, user, min);
        assert(book_filter(t.push(p), user, min) == book_filter(t, user, min) + x);
        assert(book.push(p)[0] == book[0]);
        if book_row_matches(book[0], user, min) {
            assert(book_filter(book.push(p), user, min) == seq![book[0]] + (book_filter(
                t,
                user,
                min,
            ) + x));
            assert(seq![book[0]] + (book_filter(t, user, min) + x) =~= (seq![book[0]]
                + book_filter(t, user, min)) + x);
        }
    }
}

/// One peer's cursors, as the status report shows them.
pub struct PeerSyncStatus {
    pub peer_id: String,
    pub last_cursor: i64,
    pub last_pushed_seq: i64,
}

/// Every peer named in either cursor table appears in the status list.
pub open spec fn status_covers(m: StoreModel, v: Seq<PeerSyncStatus>) -> bool {
    forall|id: Seq<char>|
        m.pull_cursors.dom().contains(id) || m.push_cursors.dom().contains(id)
            ==> exists|a: int| 0 <= a < v.len() && #[trigger] v[a].peer_id@ == id
}

/// Association of peers to cursor values built from the cursor table.
pub open spec fn cursor_map(s: Seq<PeerCursor>) -> Map<Seq<char>, int>
    decreases s.len(),
{
    if s.len() == 0 {
        Map::empty()
    } else {
        cursor_map(s.drop_last()).insert(s.last().peer_id@, s.last().value as int)
    }
}

/// Pairwise distinct peer ids in a cursor table.
pub open spec fn cursor_keys_unique(s: Seq<PeerCursor>) -> bool {
    forall|i: int, j: int| 0 <= i < j < s.len() ==> s[i].peer_id@ != s[j].peer_id@
}

proof fn lemma_cursor_map_props(s: Seq<PeerCursor>)
    requires
        cursor_keys_unique(s),
    ensures
        forall|i: int|
            0 <= i < s.len() ==> #[trigger] cursor_map(s).dom().contains(s[i].peer_id@),
        forall|i: int|
            0 <= i < s.len() ==> cursor_map(s)[#[trigger] s[i].peer_id@] == s[i].value as int,
        forall|k: Seq<char>|
            #[trigger] cursor_map(s).dom().contains(k) ==> exists|i: int|
                0 <= i < s.len() && #[trigger] s[i].peer_id@ == k,
    decreases s.len(),
{
    if s.len() > 0 {
        let t = s.drop_last();
        assert(cursor_keys_unique(t));
        lemma_cursor_map_props(t);
        assert(forall|i: int| 0 <= i < t.len() ==> t[i] == s[i]);
        assert(forall|i: int|
            0 <= i < t.len() ==> #[trigger] s[i].peer_id@ != s[s.len() - 1].peer_id@);
        assert forall|k: Seq<char>| #[trigger] cursor_map(s).dom().contains(k) implies exists|i: int|
            0 <= i < s.len() && #[trigger] s[i].peer_id@ == k by {
            if k == s[s.len() - 1].peer_id@ {
                assert(s[s.len() - 1].peer_id@ == k);
            } else {
                assert(cursor_map(t).dom().contains(k));
                let i = choose|i: int| 0 <= i < t.len() && #[trigger] t[i].peer_id@ == k;
                assert(s[i].peer_id@ == k);
            }
        }
    }
}

/// Rewriting one slot of the table under its own key updates the map at
/// that key alone.
proof fn lemma_cursor_map_update(s: Seq<PeerCursor>, i: int, c: PeerCursor)
    requires
        cursor_keys_unique(s),
        0 <= i < s.len(),
        c.peer_id@ == s[i].peer_id@,
    ensures
        cursor_map(s.update(i, c)) =~= cursor_map(s).insert(c.peer_id@, c.value as int),
        cursor_keys_unique(s.update(i, c)),
    decreases s.len(),
{
    let t = s.update(i, c);
    if i == s.len() - 1 {
        assert(t.drop_last() =~= s.drop_last());
        assert(t.last() == c);
    } else {
        assert(t.drop_last() =~= s.drop_last().update(i, c));
        assert(cursor_keys_unique(s.drop_last()));
        lemma_cursor_map_update(s.drop_last(), i, c);
        assert(t.last() == s.last());
        assert(s.last().peer_id@ != c.peer_id@);
    }
}

/// Appending a fresh key inserts it into the map.
proof fn lemma_cursor_map_push(s: Seq<PeerCursor>, c: PeerCursor)
    requires
        cursor_keys_unique(s),
        forall|j: int| 0 <= j < s.len() ==> s[j].peer_id@ != c.peer_id@,
    ensures
        cursor_map(s.push(c)) =~= cursor_map(s).insert(c.peer_id@, c.value as int),
        cursor_keys_unique(s.push(c)),
{
    assert(s.push(c).drop_last() =~= s);
    assert(s.push(c).last() == c);
}

/// Index of a peer's slot in a cursor table.
fn find_cursor(s: &Vec<PeerCursor>, peer_id: &str) -> (r: Option<usize>)
    ensures
        match r {
            Some(i) => i < s@.len() && s@[i as int].peer_id@ == peer_id@,
            None => forall|j: int| 0 <= j < s@.len() ==> #[trigger] s@[j].peer_id@ != peer_id@,
        },
{
    let n: usize = s.len();
    let mut i: usize = 0;
    while i < n
        invariant
            n == s@.len(),
            i <= n,
            forall|j: int| 0 <= j < i ==> #[trigger] s@[j].peer_id@ != peer_id@,
        decreases n - i,
    {
        if str_eq(s[i].peer_id.as_str(), peer_id) {
            return Some(i);
        }
        i = i + 1;
    }
    None
}

/// Writes `value` under `peer_id` in a cursor table.
fn upsert_cursor(s: &mut Vec<PeerCursor>, peer_id: &str, value: i64)
    requires
        cursor_keys_unique(old(s)@),
    ensures
        cursor_keys_unique(final(s)@),
        cursor_map(final(s)@) == cursor_map(old(s)@).insert(peer_id@, value as int),
{
    match find_cursor(s, peer_id) {
        Some(i) => {
            let ghost s0 = s@;
            s[i].value = value;
            proof {
                assert(s@ =~= s0.update(i as int, s@[i as int]));
                assert(s@[i as int].peer_id@ == peer_id@);
                lemma_cursor_map_update(s0, i as int, s@[i as int]);
            }
        },
        None => {
            let ghost s0 = s@;
            s.push(PeerCursor { peer_id: peer_id.to_owned(), value });
            proof {
                lemma_cursor_map_push(s0, s@.last());
                assert(s@ =~= s0.push(s@.last()));
            }
        },
    }
}

/// The saved value under `peer_id`, if the table has one.
fn lookup_cursor(s: &Vec<PeerCursor>, peer_id: &str) -> (r: Option<i64>)
    requires
        cursor_keys_unique(s@),
    ensures
        match r {
            Some(v) => cursor_map(s@).dom().contains(peer_id@) && v as int == cursor_map(
                s@,
            )[peer_id@],
            None => !cursor_map(s@).dom().contains(peer_id@),
        },
{
    proof {
        lemma_cursor_map_props(s@);
    }
    match find_cursor(s, peer_id) {
        Some(i) => Some(s[i].value),
        None => None,
    }
}

/// The local store. The durable form of the same tables lives outside the
/// library; this verified core holds the state and enforces the log's
/// invariants.
pub struct LocalStore {
    rows: Vec<LogRow>,
    next_seq: i64,
    pull_cursors: Vec<PeerCursor>,
    push_cursors: Vec<PeerCursor>,
    peer_book: Vec<PeerBookPeer>,
}

impl View for LocalStore {
    type V = StoreModel;

    closed spec fn view(&self) -> StoreModel {
        StoreModel {
            rows: self.rows.deep_view(),
            next_seq: self.next_seq as int,
            pull_cursors: cursor_map(self.pull_cursors@),
            push_cursors: cursor_map(self.push_cursors@),
            peer_book: self.peer_book.deep_view(),
        }
    }
}

impl DeepView for LogRow {
    type V = RowModel;

    open spec fn deep_view(&self) -> RowModel {
        self.view()
    }
}

impl LocalStore {
    /// Well-formedness: the model invariant plus the representation's own
    /// conditions on the cursor tables.
    pub closed spec fn wf(&self) -> bool {
        &&& store_inv(self@)
        &&& cursor_keys_unique(self.pull_cursors@)
        &&& cursor_keys_unique(self.push_cursors@)
    }

    /// The model invariant follows from well-formedness.
    pub proof fn lemma_wf_inv(&self)
        requires
            self.wf(),
        ensures
            store_inv(self@),
    {
    }

    /// An empty store: no rows, no cursors, no cached peers, sequences
    /// starting at 1.
    pub fn new() -> (r: LocalStore)
        ensures
            r.wf(),
            r@.rows == Seq::<RowModel>::empty(),
            r@.next_seq == 1,
            r@.pull_cursors == Map::<Seq<char>, int>::empty(),
            r@.push_cursors == Map::<Seq<char>, int>::empty(),
            r@.peer_book == Seq::<PeerBookModel>::empty(),
    {
        let r = LocalStore {
            rows: Vec::new(),
            next_seq: 1,
            pull_cursors: Vec::new(),
            push_cursors: Vec::new(),
            peer_book: Vec::new(),
        };
        proof {
            assert(r.rows.deep_view() =~= Seq::<RowModel>::empty());
            assert(r.peer_book.deep_view() =~= Seq::<PeerBookModel>::empty());
        }
        r
    }

    /// Whether an entry id is present in the log.
    fn contains_id(&self, id: &String) -> (r: bool)
        ensures
            r == ids_of(self@.rows).contains(id@),
    {
        let n: usize = self.rows.len();
        let mut i: usize = 0;
        while i < n
            invariant
                n == self.rows@.len(),
                i <= n,
                self@.rows == self.rows.deep_view(),
                forall|j: int| 0 <= j < i ==> #[trigger] self@.rows[j].entry.entry_id != id@,
            decreases n - i,
        {
            if str_eq(self.rows[i].entry.entry_id.as_str(), id.as_str()) {
                assert(self@.rows[i as int].entry.entry_id == id@);
                return true;
            }
            i = i + 1;
        }
        assert(!ids_of(self@.rows).contains(id@));
        false
    }

    /// The log's length fits a vector's length.
    pub proof fn lemma_rows_len_bound(&self)
        ensures
            self@.rows.len() <= usize::MAX,
    {
        assert(vstd::std_specs::vec::spec_vec_len(&self.rows) == self.rows@.len());
        assert(self@.rows.len() == self.rows@.len());
    }

    /// The largest ingest sequence committed so far; 0 on an empty log.
    pub fn latest_ingest_seq(&self) -> (r: i64)
        requires
            self.wf(),
        ensures
            r as int == latest_seq(self@),
    {
        let n: usize = self.rows.len();
        if n == 0 {
            0
        } else {
            self.rows[n - 1].seq
        }
    }

    /// Atomically inserts a batch, skipping rows whose `entry_id` already
    /// exists, and reports how many were written and how many skipped.
    /// Duplicates are not an error; the only error is sequence exhaustion,
    /// which leaves the store untouched.
    #[verifier::rlimit(30)]
    pub fn insert_entries_with_stats(&mut self, entries: &Vec<Entry>) -> (r: Result<
        InsertStats,
        StoreError,
    >)
        requires
            old(self).wf(),
        ensures
            final(self).wf(),
            r matches Err(_) ==> final(self)@ == old(self)@ && old(self)@.next_seq
                + entries@.len() > i64::MAX,
            r matches Ok(stats) ==> {
                let t = spec_insert(old(self)@.rows, old(self)@.next_seq, entries.deep_view());
                &&& old(self)@.next_seq + entries@.len() <= i64::MAX
                &&& final(self)@ == StoreModel {
                    rows: t.0,
                    next_seq: t.1,
                    ..old(self)@
                }
                &&& stats.inserted == t.2
                &&& stats.inserted <= entries@.len()
                &&& stats.ignored == entries@.len() - stats.inserted
            },
    {
        let n: usize = entries.len();
        if n as u64 > (i64::MAX - self.next_seq) as u64 {
            return Err(StoreError::CapacityExhausted);
        }
        let ghost m0 = self@;
        let ghost dv = entries.deep_view();
        proof {
            assert(dv.subrange(0, n as int) =~= dv);
        }
        let mut inserted: usize = 0;
        let mut i: usize = 0;
        while i < n
            invariant
                self.wf(),
                n == entries@.len(),
                dv == entries.deep_view(),
                i <= n,
                inserted <= i,
                self@.pull_cursors == m0.pull_cursors,
                self@.push_cursors == m0.push_cursors,
                self@.peer_book == m0.peer_book,
                self@.next_seq <= m0.next_seq + i,
                m0.next_seq + n <= i64::MAX,
                spec_insert(m0.rows, m0.next_seq, dv).0 == spec_insert(
                    self@.rows,
                    self@.next_seq,
                    dv.subrange(i as int, n as int),
                ).0,
                spec_insert(m0.rows, m0.next_seq, dv).1 == spec_insert(
                    self@.rows,
                    self@.next_seq,
                    dv.subrange(i as int, n as int),
                ).1,
                spec_insert(m0.rows, m0.next_seq, dv).2 == inserted + spec_insert(
                    self@.rows,
                    self@.next_seq,
                    dv.subrange(i as int, n as int),
                ).2,
            decreases n - i,
        {
            let ghost tail = dv.subrange(i as int, n as int);
            proof {
                assert(tail[0] == dv[i as int]);
                assert(tail.subrange(1, tail.len() as int) =~= dv.subrange(i + 1, n as int));
                assert(dv[i as int] == entries@[i as int]@);
            }
            let e = &entries[i];
            if !self.contains_id(&e.entry_id) {
                let ghost mpre = self@;
                let row = LogRow { seq: self.next_seq, entry: e.clone() };
                self.rows.push(row);
                self.next_seq = self.next_seq + 1;
                inserted = inserted + 1;
                proof {
                    assert(self.rows.deep_view() =~= mpre.rows.push(
                        RowModel { seq: mpre.next_seq, entry: dv[i as int] },
                    ));
                    let newrows = self@.rows;
                    assert(newrows.len() == mpre.rows.len() + 1);
                    assert(newrows[newrows.len() - 1] == RowModel {
                        seq: mpre.next_seq,
                        entry: dv[i as int],
                    });
                    assert(forall|a: int| 0 <= a < mpre.rows.len() ==> newrows[a] == #[trigger] mpre.rows[a]);
                    assert forall|a: int, b: int|
                        0 <= a < b < newrows.len() implies newrows[a].entry.entry_id
                        != newrows[b].entry.entry_id by {
                        if b == newrows.len() - 1 {
                            if newrows[a].entry.entry_id == newrows[b].entry.entry_id {
                                assert(mpre.rows[a].entry.entry_id == dv[i as int].entry_id);
                                assert(ids_of(mpre.rows).contains(dv[i as int].entry_id));
                            }
                        }
                    }
                    assert(rows_ok(self@.rows, self@.next_seq));
                }
            }
            i = i + 1;
        }
        proof {
            assert(dv.subrange(n as int, n as int) =~= Seq::<EntryModel>::empty());
        }
        Ok(InsertStats { inserted, ignored: n - inserted })
    }

    /// The pull cursor saved for a peer, if one was ever set.
    pub fn get_last_cursor_opt(&self, peer_id: &str) -> (r: Result<Option<i64>, StoreError>)
        requires
            self.wf(),
        ensures
            r matches Ok(o) && (match o {
                Some(v) => self@.pull_cursors.dom().contains(peer_id@) && v as int
                    == self@.pull_cursors[peer_id@],
                None => !self@.pull_cursors.dom().contains(peer_id@),
            }),
    {
        Ok(lookup_cursor(&self.pull_cursors, peer_id))
    }

    /// The pull cursor for a peer, 0 when none was saved.
    pub fn get_last_cursor(&self, peer_id: &str) -> (r: Result<i64, StoreError>)
        requires
            self.wf(),
        ensures
            r matches Ok(v) && v as int == cursor_or_zero(self@.pull_cursors, peer_id@),
    {
        match lookup_cursor(&self.pull_cursors, peer_id) {
            Some(v) => Ok(v),
            None => Ok(0),
        }
    }

    /// Saves the pull cursor for a peer (an idempotent upsert).
    pub fn set_last_cursor(&mut self, peer_id: &str, cursor: i64) -> (r: Result<(), StoreError>)
        requires
            old(self).wf(),
        ensures
            final(self).wf(),
            r matches Ok(_),
            (final(self)@ == StoreModel {
                pull_cursors: old(self)@.pull_cursors.insert(peer_id@, cursor as int),
                ..old(self)@
            }),
    {
        upsert_cursor(&mut self.pull_cursors, peer_id, cursor);
        Ok(())
    }

    /// The push cursor saved for a peer, if one was ever set.
    pub fn get_last_pushed_seq_opt(&self, peer_id: &str) -> (r: Result<Option<i64>, StoreError>)
        requires
            self.wf(),
        ensures
            r matches Ok(o) && (match o {
                Some(v) => self@.push_cursors.dom().contains(peer_id@) && v as int
                    == self@.push_cursors[peer_id@],
                None => !self@.push_cursors.dom().contains(peer_id@),
            }),
    {
        Ok(lookup_cursor(&self.push_cursors, peer_id))
    }

    /// The push cursor for a peer, 0 when none was saved.
    pub fn get_last_pushed_seq(&self, peer_id: &str) -> (r: Result<i64, StoreError>)
        requires
            self.wf(),
        ensures
            r matches Ok(v) && v as int == cursor_or_zero(self@.push_cursors, peer_id@),
    {
        match lookup_cursor(&self.push_cursors, peer_id) {
            Some(v) => Ok(v),
            None => Ok(0),
        }
    }

    /// Saves the push cursor for a peer (an idempotent upsert).
    pub fn set_last_pushed_seq(&mut self, peer_id: &str, seq: i64) -> (r: Result<(), StoreError>)
        requires
            old(self).wf(),
        ensures
            final(self).wf(),
            r matches Ok(_),
            (final(self)@ == StoreModel {
                push_cursors: old(self)@.push_cursors.insert(peer_id@, seq as int),
                ..old(self)@
            }),
    {
        upsert_cursor(&mut self.push_cursors, peer_id, seq);
        Ok(())
    }

    /// Scans the log for the first `limit` rows past `cursor` that pass the
    /// optional source-device filter.
    fn pull_filtered(&self, cursor: i64, limit: usize, device_id: Option<&str>) -> (r: PullBatch)
        requires
            self.wf(),
        ensures
            ({
                let picked = spec_pull(
                    self@.rows,
                    cursor as int,
                    limit as int,
                    match device_id {
                        Some(d) => Some(d@),
                        None => None,
                    },
                );
                &&& r.entries.deep_view() == entries_of(picked)
                &&& (picked.len() == 0 ==> r.next_cursor is None)
                &&& (picked.len() > 0 ==> (r.next_cursor matches Some(nc) && nc as int
                    == picked.last().seq && nc > cursor))
            }),
    {
        let ghost filter: Option<Seq<char>> = match device_id {
            Some(d) => Some(d@),
            None => None,
        };
        let n: usize = self.rows.len();
        let mut entries: Vec<Entry> = Vec::new();
        let mut next_cursor: Option<i64> = None;
        let ghost mut picked: Seq<RowModel> = Seq::empty();
        let mut count: usize = 0;
        let mut i: usize = 0;
        proof {
            assert(self@.rows.subrange(0, 0) =~= Seq::<RowModel>::empty());
        }
        while i < n
            invariant
                self.wf(),
                n == self.rows@.len(),
                self@.rows == self.rows.deep_view(),
                (filter == match device_id {
                    Some(d) => Some(d@),
                    None => None::<Seq<char>>,
                }),
                i <= n,
                count == picked.len(),
                count <= limit,
                picked == spec_pull(
                    self@.rows.subrange(0, i as int),
                    cursor as int,
                    limit as int,
                    filter,
                ),
                entries.deep_view() == entries_of(picked),
                count < limit ==> picked == rows_after(
                    self@.rows.subrange(0, i as int),
                    cursor as int,
                    filter,
                ),
                match next_cursor {
                    Some(nc) => picked.len() > 0 && nc as int == picked.last().seq && nc > cursor,
                    None => picked.len() == 0,
                },
                forall|k: int|
                    0 <= k < picked.len() ==> (#[trigger] picked[k]).seq > cursor && row_matches(
                        picked[k],
                        filter,
                    ),
            decreases n - i,
        {
            let row = &self.rows[i];
            let ghost pre = self@.rows.subrange(0, i as int);
            proof {
                assert(self@.rows.subrange(0, i + 1) =~= pre.push(self@.rows[i as int]));
                lemma_rows_after_snoc(pre, self@.rows[i as int], cursor as int, filter);
            }
            let in_filter: bool = match device_id {
                Some(d) => str_eq(row.entry.device_id.as_str(), d),
                None => true,
            };
            let ghost rm = self@.rows[i as int];
            let ghost pre1 = self@.rows.subrange(0, i + 1);
            proof {
                assert(pre1 == pre.push(rm));
                assert(rm == self.rows@[i as int]@);
                assert(rm.entry == row.entry@);
                assert(in_filter == row_matches(rm, filter));
            }
            if row.seq > cursor && in_filter && count < limit {
                let ghost prev = entries@;
                let ghost prevdv = entries.deep_view();
                let ghost prevpicked = picked;
                let e2 = row.entry.clone();
                entries.push(e2);
                next_cursor = Some(row.seq);
                proof {
                    picked = picked.push(rm);
                    assert(e2@ == rm.entry);
                    assert(entries@ == prev.push(e2));
                    assert(entries.deep_view().len() == entries@.len());
                    assert(entries_of(picked).len() == prevpicked.len() + 1);
                    assert(prevdv.len() == prev.len());
                    assert(entries_of(prevpicked).len() == prevpicked.len());
                    assert(entries@.len() == picked.len());
                    assert forall|k: int|
                        0 <= k < entries.deep_view().len() implies entries.deep_view()[k]
                        == entries_of(picked)[k] by {
                        assert(entries.deep_view()[k] == entries@[k].deep_view());
                        assert(entries_of(picked)[k] == picked[k].entry);
                        if k < prevpicked.len() {
                            assert(entries@[k] == prev[k]);
                            assert(prevdv[k] == prev[k].deep_view());
                            assert(prevdv[k] == entries_of(prevpicked)[k]);
                            assert(entries_of(prevpicked)[k] == prevpicked[k].entry);
                            assert(picked[k] == prevpicked[k]);
                        } else {
                            assert(entries@[k] == e2);
                            assert(picked[k] == rm);
                        }
                    }
                    assert(entries.deep_view() =~= entries_of(picked));
                    assert(rows_after(pre1, cursor as int, filter) =~= rows_after(
                        pre,
                        cursor as int,
                        filter,
                    ).push(rm));
                    assert(picked =~= rows_after(pre1, cursor as int, filter));
                }
                count = count + 1;
            } else {
                proof {
                    if row.seq > cursor && in_filter {
                        let a = rows_after(pre, cursor as int, filter);
                        let a1 = rows_after(pre1, cursor as int, filter);
                        assert(a1 =~= a.push(rm));
                        assert(a.len() >= limit);
                        assert(a1.subrange(0, limit as int) =~= a.subrange(0, limit as int));
                        if a.len() == limit {
                            assert(a.subrange(0, limit as int) =~= a);
                        }
                        assert(picked == spec_pull(pre1, cursor as int, limit as int, filter));
                    } else {
                        assert(rows_after(pre1, cursor as int, filter) =~= rows_after(
                            pre,
                            cursor as int,
                            filter,
                        ));
                    }
                }
            }
            i = i + 1;
        }
        proof {
            assert(self@.rows.subrange(0, n as int) =~= self@.rows);
        }
        PullBatch { entries, next_cursor }
    }

    /// Rows with `ingest_seq > cursor` in ascending order, at most `limit`
    /// of them; `next_cursor` is the sequence of the last returned row.
    pub fn pull_since_cursor(&self, cursor: i64, limit: usize) -> (r: Result<
        PullBatch,
        StoreError,
    >)
        requires
            self.wf(),
        ensures
            r matches Ok(b) && {
                let picked = spec_pull(self@.rows, cursor as int, limit as int, None);
                &&& b.entries.deep_view() == entries_of(picked)
                &&& (picked.len() == 0 ==> b.next_cursor is None)
                &&& (picked.len() > 0 ==> (b.next_cursor matches Some(nc) && nc as int
                    == picked.last().seq && nc > cursor))
            },
    {
        Ok(self.pull_filtered(cursor, limit, None))
    }

    /// As `pull_since_cursor`, restricted to rows that a given device
    /// originated; push uses it so a device only ships its own entries.
    pub fn pull_since_cursor_for_device(&self, cursor: i64, limit: usize, device_id: &str) -> (r:
        Result<PullBatch, StoreError>)
        requires
            self.wf(),
        ensures
            r matches Ok(b) && {
                let picked = spec_pull(self@.rows, cursor as int, limit as int, Some(device_id@));
                &&& b.entries.deep_view() == entries_of(picked)
                &&& (picked.len() == 0 ==> b.next_cursor is None)
                &&& (picked.len() > 0 ==> (b.next_cursor matches Some(nc) && nc as int
                    == picked.last().seq && nc > cursor))
            },
    {
        Ok(self.pull_filtered(cursor, limit, Some(device_id)))
    }

    /// How many rows past the peer's push cursor a given device still has
    /// to ship.
    pub fn count_pending_push_entries(&self, peer_id: &str, source_device_id: Option<&str>) -> (r:
        Result<usize, StoreError>)
        requires
            self.wf(),
        ensures
            r matches Ok(c) && c == rows_after(
                self@.rows,
                cursor_or_zero(self@.push_cursors, peer_id@),
                match source_device_id {
                    Some(d) => Some(d@),
                    None => None,
                },
            ).len(),
    {
        let cursor = match self.get_last_pushed_seq(peer_id) {
            Ok(v) => v,
            Err(e) => {
                return Err(e);
            },
        };
        let batch = self.pull_filtered(cursor, self.rows.len(), source_device_id);
        let ghost filter: Option<Seq<char>> = match source_device_id {
            Some(d) => Some(d@),
            None => None,
        };
        proof {
            lemma_rows_after_len(self@.rows, cursor as int, filter);
            assert(self.rows.len() == self@.rows.len());
            assert(spec_pull(self@.rows, cursor as int, self.rows.len() as int, filter)
                == rows_after(self@.rows, cursor as int, filter));
            assert(batch.entries.deep_view().len() == batch.entries@.len());
            assert(batch.entries@.len() == rows_after(self@.rows, cursor as int, filter).len());
        }
        Ok(batch.entries.len())
    }

    /// Index of the peer-book row with this id, if any.
    fn find_book(&self, peer_id: &str) -> (r: Option<usize>)
        requires
            self.wf(),
        ensures
            self@.peer_book == self.peer_book.deep_view(),
            match r {
                Some(i) => i < self@.peer_book.len() && self@.peer_book[i as int].peer_id
                    == peer_id@ && book_index_of(self@.peer_book, peer_id@) == i,
                None => book_index_of(self@.peer_book, peer_id@) == -1,
            },
    {
        let n: usize = self.peer_book.len();
        let mut i: usize = 0;
        while i < n
            invariant
                self.wf(),
                n == self.peer_book@.len(),
                self@.peer_book == self.peer_book.deep_view(),
                i <= n,
                forall|j: int| 0 <= j < i ==> (#[trigger] self@.peer_book[j]).peer_id != peer_id@,
            decreases n - i,
        {
            if str_eq(self.peer_book[i].peer_id.as_str(), peer_id) {
                proof {
                    assert(self@.peer_book[i as int].peer_id == peer_id@);
                    lemma_book_index_at(self@.peer_book, peer_id@, i as int);
                }
                return Some(i);
            }
            i = i + 1;
        }
        proof {
            lemma_book_index_at(self@.peer_book, peer_id@, n as int);
        }
        None
    }

    /// Writes a peer's address-cache row, replacing any row with the same
    /// peer id.
    pub fn upsert_peer_book(&mut self, peer: &PeerBookPeer) -> (r: Result<(), StoreError>)
        requires
            old(self).wf(),
        ensures
            final(self).wf(),
            r matches Ok(_),
            (final(self)@ == StoreModel {
                peer_book: spec_upsert_book(old(self)@.peer_book, peer@),
                ..old(self)@
            }),
    {
        let ghost book0 = self@.peer_book;
        match self.find_book(&peer.peer_id) {
            Some(i) => {
                let ghost v0 = self.peer_book@;
                self.peer_book[i] = peer.clone();
                proof {
                    assert(self.peer_book@ == v0.update(i as int, self.peer_book@[i as int]));
                    assert(self.peer_book@[i as int]@ == peer@);
                    assert(self.peer_book.deep_view() =~= book0.update(i as int, peer@));
                    assert(forall|j: int, k: int|
                        0 <= j < k < self@.peer_book.len() ==> self@.peer_book[j].peer_id
                            != self@.peer_book[k].peer_id);
                }
            },
            None => {
                let ghost v0 = self.peer_book@;
                self.peer_book.push(peer.clone());
                proof {
                    assert(self.peer_book@ == v0.push(self.peer_book@[v0.len() as int]));
                    assert(self.peer_book@[v0.len() as int]@ == peer@);
                    assert(self.peer_book.deep_view() =~= book0.push(peer@));
                    assert forall|j: int, k: int|
                        0 <= j < k < self@.peer_book.len() implies self@.peer_book[j].peer_id
                        != self@.peer_book[k].peer_id by {
                        if k == self@.peer_book.len() - 1 {
                            if self@.peer_book[j].peer_id == peer@.peer_id {
                                lemma_book_index_at(book0, peer@.peer_id, j);
                            }
                        }
                    }
                }
            },
        }
        Ok(())
    }

    /// The rows that pass the user filter and freshness floor, in cache
    /// order, at most `limit` of them.
    pub fn list_peer_book(
        &self,
        user_id: Option<&str>,
        min_last_seen_unix: i64,
        limit: usize,
    ) -> (r: Result<Vec<PeerBookPeer>, StoreError>)
        requires
            self.wf(),
        ensures
            r matches Ok(v) && {
                let f = book_filter(
                    self@.peer_book,
                    match user_id {
                        Some(u) => Some(u@),
                        None => None,
                    },
                    min_last_seen_unix as int,
                );
                v.deep_view() == (if f.len() <= limit {
                    f
                } else {
                    f.subrange(0, limit as int)
                })
            },
    {
        let ghost user: Option<Seq<char>> = match user_id {
            Some(u) => Some(u@),
            None => None,
        };
        let ghost min = min_last_seen_unix as int;
        let n: usize = self.peer_book.len();
        let mut out: Vec<PeerBookPeer> = Vec::new();
        let ghost mut fpicked: Seq<PeerBookModel> = Seq::empty();
        let mut count: usize = 0;
        let mut i: usize = 0;
        proof {
            assert(self@.peer_book.subrange(0, 0) =~= Seq::<PeerBookModel>::empty());
        }
        while i < n
            invariant
                self.wf(),
                n == self.peer_book@.len(),
                self@.peer_book == self.peer_book.deep_view(),
                (user == match user_id {
                    Some(u) => Some(u@),
                    None => None::<Seq<char>>,
                }),
                min == min_last_seen_unix as int,
                i <= n,
                count == fpicked.len(),
                count <= limit,
                (fpicked == {
                    let f = book_filter(self@.peer_book.subrange(0, i as int), user, min);
                    if f.len() <= limit {
                        f
                    } else {
                        f.subrange(0, limit as int)
                    }
                }),
                count < limit ==> fpicked == book_filter(
                    self@.peer_book.subrange(0, i as int),
                    user,
                    min,
                ),
                out.deep_view() == fpicked,
            decreases n - i,
        {
            let row = &self.peer_book[i];
            let ghost pre = self@.peer_book.subrange(0, i as int);
            let ghost rm = self@.peer_book[i as int];
            let ghost pre1 = self@.peer_book.subrange(0, i + 1);
            proof {
                assert(pre1 =~= pre.push(rm));
                lemma_book_filter_snoc(pre, rm, user, min);
                assert(rm == self.peer_book@[i as int]@);
            }
            let user_ok: bool = match user_id {
                Some(u) => match &row.user_id {
                    Some(ru) => str_eq(ru.as_str(), u),
                    None => true,
                },
                None => true,
            };
            let row_ok: bool = user_ok && row.last_seen_unix >= min_last_seen_unix;
            proof {
                assert(row_ok == book_row_matches(rm, user, min));
            }
            if row_ok && count < limit {
                let ghost prev = out@;
                let ghost prevdv = out.deep_view();
                let ghost prevpicked = fpicked;
                let c2 = row.clone();
                out.push(c2);
                proof {
                    fpicked = fpicked.push(rm);
                    assert(out@ == prev.push(out@[prev.len() as int]));
                    assert(out@[prev.len() as int]@ == rm);
                    assert(out.deep_view().len() == out@.len());
                    assert(prevdv.len() == prev.len());
                    assert forall|k: int|
                        0 <= k < out.deep_view().len() implies out.deep_view()[k] == fpicked[k] by {
                        assert(out.deep_view()[k] == out@[k].deep_view());
                        if k < prevpicked.len() {
                            assert(out@[k] == prev[k]);
                            assert(prevdv[k] == prev[k].deep_view());
                            assert(prevdv[k] == prevpicked[k]);
                            assert(fpicked[k] == prevpicked[k]);
                        } else {
                            assert(fpicked[k] == rm);
                        }
                    }
                    assert(out.deep_view() =~= fpicked);
                    assert(book_filter(pre1, user, min) =~= book_filter(pre, user, min).push(
                        rm,
                    ));
                    assert(fpicked =~= book_filter(pre1, user, min));
                }
                count = count + 1;
            } else {
                proof {
                    if row_ok {
                        let f = book_filter(pre, user, min);
                        let f1 = book_filter(pre1, user, min);
                        assert(f1 =~= f.push(rm));
                        assert(f.len() >= limit);
                        assert(f1.subrange(0, limit as int) =~= f.subrange(0, limit as int));
                        if f.len() == limit {
                            assert(f.subrange(0, limit as int) =~= f);
                        }
                    } else {
                        assert(book_filter(pre1, user, min) =~= book_filter(pre, user, min));
                    }
                }
            }
            i = i + 1;
        }
        proof {
            assert(self@.peer_book.subrange(0, n as int) =~= self@.peer_book);
        }
        Ok(out)
    }

    /// When the peer book has a row for this peer, its `last_seen` stamp.
    pub fn peer_book_last_seen(&self, peer_id: &str) -> (r: Option<i64>)
        requires
            self.wf(),
        ensures
            ({
                let i = book_index_of(self@.peer_book, peer_id@);
                match r {
                    Some(v) => i >= 0 && v as int == self@.peer_book[i].last_seen_unix,
                    None => i == -1,
                }
            }),
    {
        match self.find_book(peer_id) {
            Some(i) => Some(self.peer_book[i].last_seen_unix),
            None => None,
        }
    }

    /// Whether the status list already names this peer.
    fn contains_status_id(v: &Vec<PeerSyncStatus>, id: &str) -> (r: bool)
        ensures
            r == exists|a: int| 0 <= a < v@.len() && (#[trigger] v@[a]).peer_id@ == id@,
    {
        let n: usize = v.len();
        let mut k: usize = 0;
        while k < n
            invariant
                n == v@.len(),
                k <= n,
                forall|a: int| 0 <= a < k ==> (#[trigger] v@[a]).peer_id@ != id@,
            decreases n - k,
        {
            if str_eq(v[k].peer_id.as_str(), id) {
                assert(v@[k as int].peer_id@ == id@);
                return true;
            }
            k = k + 1;
        }
        false
    }

    /// Every peer present in either cursor table, with both of its
    /// cursors; each peer appears once.
    pub fn list_peer_sync_status(&self) -> (r: Result<Vec<PeerSyncStatus>, StoreError>)
        requires
            self.wf(),
        ensures
            r matches Ok(v),
            (r matches Ok(v) ==> forall|a: int, b: int|
                0 <= a < b < v@.len() ==> v@[a].peer_id@ != v@[b].peer_id@),
            (r matches Ok(v) ==> forall|a: int|
                0 <= a < v@.len() ==> (self@.pull_cursors.dom().contains(
                    (#[trigger] v@[a]).peer_id@,
                ) || self@.push_cursors.dom().contains(v@[a].peer_id@))),
            (r matches Ok(v) ==> forall|a: int|
                0 <= a < v@.len() ==> (#[trigger] v@[a]).last_cursor as int == cursor_or_zero(
                    self@.pull_cursors,
                    v@[a].peer_id@,
                )),
            (r matches Ok(v) ==> forall|a: int|
                0 <= a < v@.len() ==> (#[trigger] v@[a]).last_pushed_seq as int == cursor_or_zero(
                    self@.push_cursors,
                    v@[a].peer_id@,
                )),
            (r matches Ok(v) ==> status_covers(self@, v@)),
    {
        proof {
            lemma_cursor_map_props(self.pull_cursors@);
            lemma_cursor_map_props(self.push_cursors@);
        }
        let mut out: Vec<PeerSyncStatus> = Vec::new();
        let np: usize = self.pull_cursors.len();
        let mut i: usize = 0;
        while i < np
            invariant
                self.wf(),
                np == self.pull_cursors@.len(),
                i <= np,
                forall|a: int, b: int|
                    0 <= a < b < out@.len() ==> (#[trigger] out@[a]).peer_id@ != (
                    #[trigger] out@[b]).peer_id@,
                forall|a: int|
                    0 <= a < out@.len() ==> {
                        let id = (#[trigger] out@[a]).peer_id@;
                        &&& (self@.pull_cursors.dom().contains(id)
                            || self@.push_cursors.dom().contains(id))
                        &&& out@[a].last_cursor as int == cursor_or_zero(self@.pull_cursors, id)
                        &&& out@[a].last_pushed_seq as int == cursor_or_zero(
                            self@.push_cursors,
                            id,
                        )
                    },
                forall|j: int|
                    0 <= j < i ==> exists|a: int|
                        0 <= a < out@.len() && (#[trigger] out@[a]).peer_id@ == (
                        #[trigger] self.pull_cursors@[j]).peer_id@,
                forall|a: int|
                    0 <= a < out@.len() ==> self@.pull_cursors.dom().contains(
                        (#[trigger] out@[a]).peer_id@,
                    ),
            decreases np - i,
        {
            proof {
                lemma_cursor_map_props(self.pull_cursors@);
                lemma_cursor_map_props(self.push_cursors@);
            }
            let pc = &self.pull_cursors[i];
            let pushed: i64 = match lookup_cursor(&self.push_cursors, pc.peer_id.as_str()) {
                Some(v) => v,
                None => 0,
            };
            let pulled: i64 = pc.value;
            let dup: bool = Self::contains_status_id(&out, pc.peer_id.as_str());
            let ghost outpre = out@;
            if !dup {
                out.push(
                    PeerSyncStatus {
                        peer_id: pc.peer_id.clone(),
                        last_cursor: pulled,
                        last_pushed_seq: pushed,
                    },
                );
                proof {
                    assert(out@ == outpre.push(out@[outpre.len() as int]));
                    assert(out@[outpre.len() as int].peer_id@
                        == self.pull_cursors@[i as int].peer_id@);
                }
            }
            proof {
                assert forall|j2: int| 0 <= j2 < i + 1 implies exists|a: int|
                    0 <= a < out@.len() && (#[trigger] out@[a]).peer_id@ == (
                    #[trigger] self.pull_cursors@[j2]).peer_id@ by {
                    if j2 == i {
                        if dup {
                            let a0 = choose|a: int|
                                0 <= a < outpre.len() && (#[trigger] outpre[a]).peer_id@
                                    == pc.peer_id@;
                            assert(out@[a0].peer_id@ == self.pull_cursors@[i as int].peer_id@);
                        } else {
                            assert(out@[outpre.len() as int].peer_id@
                                == self.pull_cursors@[i as int].peer_id@);
                        }
                    } else {
                        let a0 = choose|a: int|
                            0 <= a < outpre.len() && (#[trigger] outpre[a]).peer_id@ == (
                            #[trigger] self.pull_cursors@[j2]).peer_id@;
                        assert(out@[a0].peer_id@ == self.pull_cursors@[j2].peer_id@);
                    }
                }
            }
            i = i + 1;
        }
        let ghost outmid = out@;
        let nq: usize = self.push_cursors.len();
        let mut j: usize = 0;
        while j < nq
            invariant
                self.wf(),
                nq == self.push_cursors@.len(),
                j <= nq,
                forall|a: int, b: int|
                    0 <= a < b < out@.len() ==> (#[trigger] out@[a]).peer_id@ != (
                    #[trigger] out@[b]).peer_id@,
                forall|a: int|
                    0 <= a < out@.len() ==> {
                        let id = (#[trigger] out@[a]).peer_id@;
                        &&& (self@.pull_cursors.dom().contains(id)
                            || self@.push_cursors.dom().contains(id))
                        &&& out@[a].last_cursor as int == cursor_or_zero(self@.pull_cursors, id)
                        &&& out@[a].last_pushed_seq as int == cursor_or_zero(
                            self@.push_cursors,
                            id,
                        )
                    },
                outmid.is_prefix_of(out@),
                forall|p: int|
                    0 <= p < self.pull_cursors@.len() ==> exists|a: int|
                        0 <= a < outmid.len() && (#[trigger] outmid[a]).peer_id@ == (
                        #[trigger] self.pull_cursors@[p]).peer_id@,
                forall|q: int|
                    0 <= q < j ==> exists|a: int|
                        0 <= a < out@.len() && (#[trigger] out@[a]).peer_id@ == (
                        #[trigger] self.push_cursors@[q]).peer_id@,
            decreases nq - j,
        {
            proof {
                lemma_cursor_map_props(self.pull_cursors@);
                lemma_cursor_map_props(self.push_cursors@);
            }
            let qc = &self.push_cursors[j];
            let pulled: i64 = match lookup_cursor(&self.pull_cursors, qc.peer_id.as_str()) {
                Some(v) => v,
                None => 0,
            };
            let dup: bool = Self::contains_status_id(&out, qc.peer_id.as_str());
            let ghost outpre = out@;
            if !dup {
                out.push(
                    PeerSyncStatus {
                        peer_id: qc.peer_id.clone(),
                        last_cursor: pulled,
                        last_pushed_seq: qc.value,
                    },
                );
                proof {
                    assert(out@ == outpre.push(out@[outpre.len() as int]));
                    assert(out@[outpre.len() as int].peer_id@
                        == self.push_cursors@[j as int].peer_id@);
                    assert(outmid.is_prefix_of(out@));
                }
            }
            proof {
                assert forall|q2: int| 0 <= q2 < j + 1 implies exists|a: int|
                    0 <= a < out@.len() && (#[trigger] out@[a]).peer_id@ == (
                    #[trigger] self.push_cursors@[q2]).peer_id@ by {
                    if q2 == j {
                        if dup {
                            let a0 = choose|a: int|
                                0 <= a < outpre.len() && (#[trigger] outpre[a]).peer_id@
                                    == qc.peer_id@;
                            assert(out@[a0].peer_id@ == self.push_cursors@[j as int].peer_id@);
                        } else {
                            assert(out@[outpre.len() as int].peer_id@
                                == self.push_cursors@[j as int].peer_id@);
                        }
                    } else {
                        let a0 = choose|a: int|
                            0 <= a < outpre.len() && (#[trigger] outpre[a]).peer_id@ == (
                            #[trigger] self.push_cursors@[q2]).peer_id@;
                        assert(out@[a0].peer_id@ == self.push_cursors@[q2].peer_id@);
                    }
                }
            }
            j = j + 1;
        }
        proof {
            lemma_cursor_map_props(self.pull_cursors@);
            lemma_cursor_map_props(self.push_cursors@);
            assert forall|id: Seq<char>|
                self@.pull_cursors.dom().contains(id) || self@.push_cursors.dom().contains(
                    id,
                ) implies exists|a: int| 0 <= a < out@.len() && #[trigger] out@[a].peer_id@
                == id by {
                if self@.pull_cursors.dom().contains(id) {
                    let p = choose|p: int|
                        0 <= p < self.pull_cursors@.len()
                            && #[trigger] self.pull_cursors@[p].peer_id@ == id;
                    let a = choose|a: int|
                        0 <= a < outmid.len() && (#[trigger] outmid[a]).peer_id@ == (
                        #[trigger] self.pull_cursors@[p]).peer_id@;
                    assert(outmid.len() <= out@.len());
                    assert(outmid[a] == out@.subrange(0, outmid.len() as int)[a]);
                    assert(outmid[a] == out@[a]);
                    assert(out@[a].peer_id@ == id);
                } else {
                    let q = choose|q: int|
                        0 <= q < self.push_cursors@.len()
                            && #[trigger] self.push_cursors@[q].peer_id@ == id;
                    let a = choose|a: int|
                        0 <= a < out@.len() && (#[trigger] out@[a]).peer_id@ == (
                        #[trigger] self.push_cursors@[q]).peer_id@;
                    assert(out@[a].peer_id@ == id);
                }
            }
        }
        proof {
            assert(forall|a: int, b: int|
                0 <= a < b < out@.len() ==> out@[a].peer_id@ != out@[b].peer_id@);
            assert(forall|a: int|
                0 <= a < out@.len() ==> (self@.pull_cursors.dom().contains(
                    (#[trigger] out@[a]).peer_id@,
                ) || self@.push_cursors.dom().contains(out@[a].peer_id@)));
            assert(forall|a: int|
                0 <= a < out@.len() ==> (#[trigger] out@[a]).last_cursor as int == cursor_or_zero(
                    self@.pull_cursors,
                    out@[a].peer_id@,
                ));
            assert(forall|a: int|
                0 <= a < out@.len() ==> (#[trigger] out@[a]).last_pushed_seq as int
                    == cursor_or_zero(self@.push_cursors, out@[a].peer_id@));
            assert(status_covers(self@, out@));
        }
        Ok(out)
    }


    /// Inserts a batch, discarding the statistics.
    pub fn insert_entries(&mut self, entries: &Vec<Entry>) -> (r: Result<(), StoreError>)
        requires
            old(self).wf(),
        ensures
            final(self).wf(),
            r matches Err(_) ==> final(self)@ == old(self)@ && old(self)@.next_seq
                + entries@.len() > i64::MAX,
            r matches Ok(_) ==> {
                let t = spec_insert(old(self)@.rows, old(self)@.next_seq, entries.deep_view());
                &&& old(self)@.next_seq + entries@.len() <= i64::MAX
                &&& final(self)@ == StoreModel {
                    rows: t.0,
                    next_seq: t.1,
                    ..old(self)@
                }
            },
    {
        match self.insert_entries_with_stats(entries) {
            Ok(_) => Ok(()),
            Err(e) => Err(e),
        }
    }
}

} // verus!
