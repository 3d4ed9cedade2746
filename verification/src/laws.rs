use vstd::prelude::*;

use crate::store::{
    cell_key, cells_purged, cells_unique, count_at, lemma_cells_map_dom, lemma_count_at,
    lemma_filter_pairwise, relations_purged, sheets_purged, update_pred, updates_after,
    updates_purged, Ownership, Store, Update,
};

verus! {

/// Idempotent upsert: writing the same value to the same coordinate twice
/// leaves the grid exactly as after the first write — one cell at that
/// coordinate, holding the latest value. `apply_edit`'s own contract adds
/// that the second write changes no sheet's cell count, since the
/// coordinate is then already occupied.
pub proof fn lemma_upsert_idempotent(
    s0: Store,
    s1: Store,
    s2: Store,
    sheet_id: u128,
    column: char,
    row: i32,
    v: Seq<char>,
)
    requires
        cells_unique(s2.cells@),
        s1.cells_view() == s0.cells_view().insert((sheet_id, column, row as int), v),
        s2.cells_view() == s1.cells_view().insert((sheet_id, column, row as int), v),
    ensures
        s2.cells_view() == s1.cells_view(),
        s1.cells_view().contains_key((sheet_id, column, row as int)),
        count_at(s2.cells@, (sheet_id, column, row as int)) == 1,
        forall|i: int|
            0 <= i < s2.cells@.len() && cell_key(#[trigger] s2.cells@[i]) == (
            sheet_id,
            column,
            row as int,
        ) ==> s2.cells@[i].value@ == v,
{
    let k = (sheet_id, column, row as int);
    assert(s2.cells_view() =~= s1.cells_view());
    lemma_count_at(s2.cells@, k);
    lemma_cells_map_dom(s2.cells@, k);
    assert(s2.cells_view()[k] == v);
}

/// Exact cursor reads: a query returns precisely the entries of its sheet
/// and role with sequence ids strictly after the cursor — none omitted,
/// none invented — in strictly ascending sequence order, so nothing is
/// duplicated. `query` is a pure read, so repeating it with the same
/// cursor and an unchanged log returns the same entries.
pub proof fn lemma_query_exact(us: Seq<Update>, sid: u128, o: Ownership, cursor: u64)
    requires
        forall|i: int, j: int|
            0 <= i < j < us.len() ==> (#[trigger] us[i]).seq < (#[trigger] us[j]).seq,
    ensures
        forall|i: int|
            0 <= i < updates_after(us, sid, o, cursor).len() ==> {
                let u = #[trigger] updates_after(us, sid, o, cursor)[i];
                u.sheet_id == sid && u.ownership == o && u.seq > cursor
            },
        forall|i: int, j: int|
            0 <= i < j < updates_after(us, sid, o, cursor).len() ==> (#[trigger] updates_after(
                us,
                sid,
                o,
                cursor,
            )[i]).seq < (#[trigger] updates_after(us, sid, o, cursor)[j]).seq,
        forall|i: int|
            0 <= i < us.len() && (#[trigger] us[i]).sheet_id == sid && us[i].ownership == o
                && us[i].seq > cursor ==> updates_after(us, sid, o, cursor).contains(us[i]),
        forall|i: int|
            0 <= i < updates_after(us, sid, o, cursor).len() ==> us.contains(
                #[trigger] updates_after(us, sid, o, cursor)[i],
            ),
{
    let pred = update_pred(sid, o, cursor);
    let q = updates_after(us, sid, o, cursor);
    lemma_filter_pairwise(us, pred, (|a: Update, b: Update| a.seq < b.seq));
    assert forall|i: int| 0 <= i < q.len() implies {
        let u = #[trigger] q[i];
        u.sheet_id == sid && u.ownership == o && u.seq > cursor
    } by {
        us.lemma_filter_pred(pred, i);
    }
    assert forall|i: int|
        0 <= i < us.len() && (#[trigger] us[i]).sheet_id == sid && us[i].ownership == o && us[i].seq
            > cursor implies q.contains(us[i]) by {
        us.lemma_filter_contains(pred, i);
    }
}

/// Role isolation: the publisher and subscriber streams of one sheet are
/// disjoint — an entry appended under one role is never returned to a
/// query scoped to the other, whatever the cursor.
pub proof fn lemma_role_isolation(us: Seq<Update>, sid: u128, cursor: u64, u: Update)
    ensures
        u.ownership == Ownership::Subscriber ==> !updates_after(
            us,
            sid,
            Ownership::Publisher,
            cursor,
        ).contains(u),
        u.ownership == Ownership::Publisher ==> !updates_after(
            us,
            sid,
            Ownership::Subscriber,
            cursor,
        ).contains(u),
{
    let qp = updates_after(us, sid, Ownership::Publisher, cursor);
    let qs = updates_after(us, sid, Ownership::Subscriber, cursor);
    if qp.contains(u) {
        let i = choose|i: int| 0 <= i < qp.len() && qp[i] == u;
        us.lemma_filter_pred(update_pred(sid, Ownership::Publisher, cursor), i);
        assert(u.ownership == Ownership::Publisher);
    }
    if qs.contains(u) {
        let i = choose|i: int| 0 <= i < qs.len() && qs[i] == u;
        us.lemma_filter_pred(update_pred(sid, Ownership::Subscriber, cursor), i);
        assert(u.ownership == Ownership::Subscriber);
    }
}

/// Cascading delete: once a sheet id is among the deleted ids, nothing in
/// the store mentions it any more — no sheet row, no ownership relation,
/// no cell, no log entry. A later query of either role finds an empty
/// stream, and no coordinate of that sheet is set.
pub proof fn lemma_delete_cascades(
    pre: Store,
    post: Store,
    ids: Seq<u128>,
    sid: u128,
    o: Ownership,
    cursor: u64,
)
    requires
        post.sheets@ == sheets_purged(pre.sheets@, ids),
        post.relations@ == relations_purged(pre.relations@, ids),
        post.cells@ == cells_purged(pre.cells@, ids),
        post.updates@ == updates_purged(pre.updates@, ids),
        ids.contains(sid),
    ensures
        !post.has_sheet(sid),
        forall|i: int| 0 <= i < post.cells@.len() ==> (#[trigger] post.cells@[i]).sheet_id != sid,
        forall|i: int|
            0 <= i < post.updates@.len() ==> (#[trigger] post.updates@[i]).sheet_id != sid,
        forall|i: int|
            0 <= i < post.relations@.len() ==> (#[trigger] post.relations@[i]).sheet_id != sid,
        updates_after(post.updates@, sid, o, cursor).len() == 0,
        forall|column: char, row: int|
            !(#[trigger] post.cells_view().contains_key((sid, column, row))),
{
    assert forall|i: int| 0 <= i < post.sheets@.len() implies (#[trigger] post.sheets@[i]).id
        != sid by {
        pre.sheets@.lemma_filter_pred((|s: crate::store::Sheet| !ids.contains(s.id)), i);
    }
    assert forall|i: int| 0 <= i < post.cells@.len() implies (#[trigger] post.cells@[i]).sheet_id
        != sid by {
        pre.cells@.lemma_filter_pred((|c: crate::store::Cell| !ids.contains(c.sheet_id)), i);
    }
    assert forall|i: int| 0 <= i < post.updates@.len() implies (
    #[trigger] post.updates@[i]).sheet_id != sid by {
        pre.updates@.lemma_filter_pred((|u: Update| !ids.contains(u.sheet_id)), i);
    }
    assert forall|i: int| 0 <= i < post.relations@.len() implies (
    #[trigger] post.relations@[i]).sheet_id != sid by {
        pre.relations@.lemma_filter_pred(
            (|r: crate::store::Relation| !ids.contains(r.sheet_id)),
            i,
        );
    }
    let q = updates_after(post.updates@, sid, o, cursor);
    if q.len() > 0 {
        post.updates@.lemma_filter_pred(update_pred(sid, o, cursor), 0);
        lemma_filter_pairwise(
            post.updates@,
            update_pred(sid, o, cursor),
            (|a: Update, b: Update| true),
        );
        assert(post.updates@.contains(q[0]));
        let w = choose|w: int| 0 <= w < post.updates@.len() && post.updates@[w] == q[0];
        assert(post.updates@[w].sheet_id != sid);
        assert(false);
    }
    assert forall|column: char, row: int|
        !(#[trigger] post.cells_view().contains_key((sid, column, row))) by {
        lemma_cells_map_dom(post.cells@, (sid, column, row));
        if post.cells_view().contains_key((sid, column, row)) {
            let w = choose|w: int|
                0 <= w < post.cells@.len() && cell_key(#[trigger] post.cells@[w]) == (
                sid,
                column,
                row,
            );
            assert(post.cells@[w].sheet_id != sid);
            assert(false);
        }
    }
}

/// Appending one entry extends exactly one stream: the reader of its sheet
/// and role whose cursor lies below the new sequence id sees it appended at
/// the end, and every other reader sees an unchanged stream.
pub proof fn lemma_append_extends_stream(
    pre: Seq<Update>,
    post: Seq<Update>,
    u: Update,
    sid: u128,
    o: Ownership,
    cursor: u64,
)
    requires
        post == pre.push(u),
    ensures
        (u.sheet_id == sid && u.ownership == o && u.seq > cursor) ==> updates_after(
            post,
            sid,
            o,
            cursor,
        ) == updates_after(pre, sid, o, cursor).push(u),
        !(u.sheet_id == sid && u.ownership == o && u.seq > cursor) ==> updates_after(
            post,
            sid,
            o,
            cursor,
        ) == updates_after(pre, sid, o, cursor),
{
    reveal(Seq::filter);
    assert(post.drop_last() == pre);
    assert(post.last() == u);
}

} // verus!
