//! Properties that tie the operations together.

use vstd::prelude::*;
use crate::message::MailboxMessage;
use crate::query::{
    insert_ordered, listing, ordered, page_of, page_slice, per_page_of, precedes, selection,
    ListMailboxQuery,
};
use crate::store::{
    delete_step, handle_step, ids_ascending, is_slot, lemma_slot_is_index, lookup, slot,
    DeleteOutcome, HandleOutcome,
};

verus! {

broadcast use vstd::seq_lib::group_to_multiset_ensures;

/// `insert_ordered` is an insertion at the first position whose element
/// `m` precedes.
pub proof fn lemma_insert_ordered_position(m: MailboxMessage, t: Seq<MailboxMessage>)
    ensures
        exists|p: int|
            {
                &&& 0 <= p <= t.len()
                &&& forall|k: int| 0 <= k < p ==> !precedes(m, #[trigger] t[k])
                &&& (p == t.len() || precedes(m, t[p]))
                &&& insert_ordered(m, t) == t.insert(p, m)
            },
    decreases t.len(),
{
    if t.len() == 0 {
        assert(insert_ordered(m, t) =~= t.insert(0, m));
    } else if precedes(m, t[0]) {
        assert(insert_ordered(m, t) =~= t.insert(0, m));
    } else {
        let u = t.drop_first();
        lemma_insert_ordered_position(m, u);
        let q = choose|q: int|
            {
                &&& 0 <= q <= u.len()
                &&& forall|k: int| 0 <= k < q ==> !precedes(m, #[trigger] u[k])
                &&& (q == u.len() || precedes(m, u[q]))
                &&& insert_ordered(m, u) == u.insert(q, m)
            };
        assert(insert_ordered(m, t) =~= t.insert(q + 1, m));
        assert forall|k: int| 0 <= k < q + 1 implies !precedes(m, #[trigger] t[k]) by {
            if k > 0 {
                assert(t[k] == u[k - 1]);
            }
        }
        assert(q + 1 == t.len() || precedes(m, t[q + 1])) by {
            if q < u.len() {
                assert(t[q + 1] == u[q]);
            }
        }
    }
}

/// Arranging in listing order keeps every message, each as often as before.
pub proof fn lemma_ordered_permutes(s: Seq<MailboxMessage>)
    ensures
        ordered(s).to_multiset() == s.to_multiset(),
        ordered(s).len() == s.len(),
    decreases s.len(),
{
    if s.len() > 0 {
        let rest = ordered(s.drop_last());
        lemma_ordered_permutes(s.drop_last());
        lemma_insert_ordered_position(s.last(), rest);
        let p = choose|p: int|
            {
                &&& 0 <= p <= rest.len()
                &&& forall|k: int| 0 <= k < p ==> !precedes(s.last(), #[trigger] rest[k])
                &&& (p == rest.len() || precedes(s.last(), rest[p]))
                &&& insert_ordered(s.last(), rest) == rest.insert(p, s.last())
            };
        vstd::seq_lib::to_multiset_insert(rest, p, s.last());
        assert(s.drop_last().push(s.last()) =~= s);
        vstd::seq_lib::to_multiset_build(s.drop_last(), s.last());
    }
}

/// No two elements of `s` share an id.
pub open spec fn ids_distinct(s: Seq<MailboxMessage>) -> bool {
    forall|i: int, j: int| 0 <= i < s.len() && 0 <= j < s.len() && i != j ==> s[i].message_id != s[j].message_id
}

/// Each element of `t` comes before every later one in listing order.
pub open spec fn in_listing_order(t: Seq<MailboxMessage>) -> bool {
    forall|a: int, b: int| 0 <= a < b < t.len() ==> precedes(#[trigger] t[a], #[trigger] t[b])
}

/// Among messages with distinct ids, `ordered` sorts strictly: newest
/// `created_at` first, then highest `message_id`.
pub proof fn lemma_ordered_sorted(s: Seq<MailboxMessage>)
    requires
        ids_distinct(s),
    ensures
        in_listing_order(ordered(s)),
    decreases s.len(),
{
    if s.len() > 0 {
        let init = s.drop_last();
        let m = s.last();
        let rest = ordered(init);
        assert(ids_distinct(init)) by {
            assert forall|i: int, j: int| 0 <= i < init.len() && 0 <= j < init.len() && i != j implies init[i].message_id != init[j].message_id by {
                assert(init[i] == s[i] && init[j] == s[j]);
            }
        }
        lemma_ordered_sorted(init);
        lemma_ordered_permutes(init);
        assert forall|k: int| 0 <= k < rest.len() implies #[trigger] rest[k].message_id != m.message_id by {
            assert(rest.contains(rest[k]));
            assert(rest.to_multiset().count(rest[k]) > 0);
            assert(init.contains(rest[k]));
            let j = choose|j: int| 0 <= j < init.len() && init[j] == rest[k];
            assert(s[j] == rest[k]);
        }
        lemma_insert_ordered_position(m, rest);
        let p = choose|p: int|
            {
                &&& 0 <= p <= rest.len()
                &&& forall|k: int| 0 <= k < p ==> !precedes(m, #[trigger] rest[k])
                &&& (p == rest.len() || precedes(m, rest[p]))
                &&& insert_ordered(m, rest) == rest.insert(p, m)
            };
        let u = rest.insert(p, m);
        assert forall|k: int| 0 <= k < p implies precedes(#[trigger] rest[k], m) by {
            assert(!precedes(m, rest[k]));
        }
        assert forall|k: int| p <= k < rest.len() implies precedes(m, #[trigger] rest[k]) by {
            if k > p {
                assert(precedes(rest[p], rest[k]));
            }
        }
        assert forall|a: int, b: int| 0 <= a < b < u.len() implies precedes(#[trigger] u[a], #[trigger] u[b]) by {
            if a < p && b < p {
                assert(precedes(rest[a], rest[b]));
            } else if a < p && b == p {
                assert(precedes(rest[a], m));
            } else if a < p {
                assert(u[b] == rest[b - 1]);
                assert(precedes(rest[a], rest[b - 1]));
            } else if a == p {
                assert(u[b] == rest[b - 1]);
                assert(precedes(m, rest[b - 1]));
            } else {
                assert(u[a] == rest[a - 1] && u[b] == rest[b - 1]);
                assert(precedes(rest[a - 1], rest[b - 1]));
            }
        }
    }
}

/// Filtering keeps ids ascending.
pub proof fn lemma_filter_ascending(s: Seq<MailboxMessage>, pred: spec_fn(MailboxMessage) -> bool)
    requires
        ids_ascending(s),
    ensures
        ids_ascending(s.filter(pred)),
    decreases s.len(),
{
    if s.len() > 0 {
        let init = s.drop_last();
        assert(ids_ascending(init));
        lemma_filter_ascending(init, pred);
        assert(init.push(s.last()) =~= s);
        init.lemma_filter_push(s.last(), pred);
        let f0 = init.filter(pred);
        assert forall|k: int| 0 <= k < f0.len() implies #[trigger] f0[k].message_id < s.last().message_id by {
            assert(f0.contains(f0[k]));
            init.lemma_filter_contains_rev(pred, f0[k]);
            let j = choose|j: int| 0 <= j < init.len() && init[j] == f0[k];
            assert(s[j] == f0[k]);
        }
    }
}

/// Every message a listing returns is one the query selects.
pub proof fn lemma_listing_selected(
    s: Seq<MailboxMessage>,
    ws: Seq<char>,
    q: ListMailboxQuery,
    x: MailboxMessage,
)
    requires
        listing(s, ws, q).contains(x),
    ensures
        s.contains(x),
        q.admits(ws, x),
{
    let pred = |m: MailboxMessage| q.admits(ws, m);
    let f = s.filter(pred);
    let t = selection(s, ws, q);
    let j = choose|j: int| 0 <= j < listing(s, ws, q).len() && listing(s, ws, q)[j] == x;
    let off = (page_of(q.page) - 1) * per_page_of(q.per_page);
    let start = if off < t.len() {
        off
    } else {
        t.len() as int
    };
    assert(t[start + j] == x);
    assert(t.contains(x));
    lemma_ordered_permutes(f);
    assert(t.to_multiset().count(x) > 0);
    assert(f.contains(x));
    let i = choose|i: int| 0 <= i < f.len() && f[i] == x;
    s.lemma_filter_pred(pred, i);
    s.lemma_filter_contains_rev(pred, x);
}

/// A message of workspace `w1` cannot be reached from another workspace
/// `w2`: no listing there returns it, and looking it up, handling it or
/// deleting it there finds nothing and changes nothing.
pub proof fn lemma_workspace_isolation(
    s: Seq<MailboxMessage>,
    w1: Seq<char>,
    w2: Seq<char>,
    i: int,
    q: ListMailboxQuery,
    now: i64,
)
    requires
        ids_ascending(s),
        0 <= i < s.len(),
        s[i].in_workspace(w1),
        w1 != w2,
    ensures
        !listing(s, w2, q).contains(s[i]),
        lookup(s, w2, s[i].message_id) is None,
        handle_step(s, w2, s[i].message_id, now) == (s, HandleOutcome::NotFound),
        delete_step(s, w2, s[i].message_id) == (s, DeleteOutcome::NotFound),
{
    if listing(s, w2, q).contains(s[i]) {
        lemma_listing_selected(s, w2, q, s[i]);
    }
    if exists|j: int| is_slot(s, w2, s[i].message_id, j) {
        let j = choose|j: int| is_slot(s, w2, s[i].message_id, j);
        if j < i {
            assert(s[j].message_id < s[i].message_id);
        } else if i < j {
            assert(s[i].message_id < s[j].message_id);
        }
    }
}

/// Handling changes no id, so ids stay ascending.
pub proof fn lemma_handle_keeps_ascending(s: Seq<MailboxMessage>, ws: Seq<char>, id: i64, now: i64)
    requires
        ids_ascending(s),
    ensures
        ids_ascending(handle_step(s, ws, id, now).0),
{
    let t = handle_step(s, ws, id, now).0;
    assert forall|a: int, b: int| 0 <= a < b < t.len() implies t[a].message_id
        < t[b].message_id by {
        assert(t[a].message_id == s[a].message_id);
        assert(t[b].message_id == s[b].message_id);
    }
}

/// Handling a pending message twice: the first call wins and sets the
/// handling time, the second finds it already handled with the same time,
/// and changes nothing.
pub proof fn lemma_handle_twice(s: Seq<MailboxMessage>, ws: Seq<char>, id: i64, t1: i64, t2: i64)
    requires
        ids_ascending(s),
        lookup(s, ws, id) is Some,
        lookup(s, ws, id)->0.is_pending(),
    ensures
        ({
            let (s1, o1) = handle_step(s, ws, id, t1);
            let (s2, o2) = handle_step(s1, ws, id, t2);
            &&& o1 is Handled
            &&& o2 is AlreadyHandled
            &&& o1->Handled_0.handled_at == Some(t1)
            &&& o2->AlreadyHandled_0.handled_at == o1->Handled_0.handled_at
            &&& s2 == s1
        }),
{
    let i = slot(s, ws, id)->0;
    assert(is_slot(s, ws, id, i));
    let s1 = handle_step(s, ws, id, t1).0;
    lemma_handle_keeps_ascending(s, ws, id, t1);
    assert(is_slot(s1, ws, id, i));
    lemma_slot_is_index(s1, ws, id, i);
}

/// Handling never touches a message that was already handled: its
/// `handled_at` is set once and then stays.
pub proof fn lemma_handled_at_stable(
    s: Seq<MailboxMessage>,
    ws: Seq<char>,
    id: i64,
    now: i64,
    j: int,
)
    requires
        0 <= j < s.len(),
        !s[j].is_pending(),
    ensures
        handle_step(s, ws, id, now).0.len() == s.len(),
        handle_step(s, ws, id, now).0[j] == s[j],
{
}

/// The outcomes of handling message `id` of workspace `ws` once per entry
/// of `times`, one call after the other.
pub open spec fn handle_run(s: Seq<MailboxMessage>, ws: Seq<char>, id: i64, times: Seq<i64>) -> Seq<
    HandleOutcome,
>
    decreases times.len(),
{
    if times.len() == 0 {
        seq![]
    } else {
        let (s1, o) = handle_step(s, ws, id, times[0]);
        seq![o] + handle_run(s1, ws, id, times.drop_first())
    }
}

/// Once a message is handled, every further call finds it already handled.
pub proof fn lemma_handled_stays(s: Seq<MailboxMessage>, ws: Seq<char>, id: i64, times: Seq<i64>)
    requires
        lookup(s, ws, id) is Some,
        !lookup(s, ws, id)->0.is_pending(),
    ensures
        handle_run(s, ws, id, times).len() == times.len(),
        forall|k: int|
            0 <= k < times.len() ==> #[trigger] handle_run(s, ws, id, times)[k] is AlreadyHandled,
    decreases times.len(),
{
    if times.len() > 0 {
        lemma_handled_stays(s, ws, id, times.drop_first());
        let r = handle_run(s, ws, id, times);
        assert forall|k: int| 0 <= k < times.len() implies #[trigger] r[k] is AlreadyHandled by {
            if k > 0 {
                assert(r[k] == handle_run(s, ws, id, times.drop_first())[k - 1]);
            }
        }
    }
}

/// However many calls race to handle one pending message, taken in any
/// order they are serialized in, exactly one (the first) gets `Handled` and
/// all others get `AlreadyHandled`.
pub proof fn lemma_handle_race(s: Seq<MailboxMessage>, ws: Seq<char>, id: i64, times: Seq<i64>)
    requires
        ids_ascending(s),
        lookup(s, ws, id) is Some,
        lookup(s, ws, id)->0.is_pending(),
        times.len() >= 1,
    ensures
        handle_run(s, ws, id, times).len() == times.len(),
        handle_run(s, ws, id, times)[0] is Handled,
        forall|k: int|
            1 <= k < times.len() ==> #[trigger] handle_run(s, ws, id, times)[k] is AlreadyHandled,
{
    let i = slot(s, ws, id)->0;
    assert(is_slot(s, ws, id, i));
    let s1 = handle_step(s, ws, id, times[0]).0;
    lemma_handle_keeps_ascending(s, ws, id, times[0]);
    assert(is_slot(s1, ws, id, i));
    lemma_slot_is_index(s1, ws, id, i);
    lemma_handled_stays(s1, ws, id, times.drop_first());
    let r = handle_run(s, ws, id, times);
    assert forall|k: int| 1 <= k < times.len() implies #[trigger] r[k] is AlreadyHandled by {
        assert(r[k] == handle_run(s1, ws, id, times.drop_first())[k - 1]);
    }
}

/// Pages 1 through `k` of `t` cut in pages of `per_page`, end to end.
pub open spec fn pages_through(t: Seq<MailboxMessage>, per_page: int, k: nat) -> Seq<
    MailboxMessage,
>
    decreases k,
{
    if k == 0 {
        seq![]
    } else {
        pages_through(t, per_page, (k - 1) as nat) + page_slice(t, k as int, per_page)
    }
}

/// Pages 1 through `k` make up the first `k * per_page` elements of `t`.
pub proof fn lemma_pages_prefix(t: Seq<MailboxMessage>, per_page: int, k: nat)
    requires
        per_page >= 1,
    ensures
        pages_through(t, per_page, k) == t.subrange(
            0,
            if k * per_page < t.len() {
                k * per_page
            } else {
                t.len() as int
            },
        ),
    decreases k,
{
    if k == 0 {
        assert(pages_through(t, per_page, k) =~= t.subrange(0, 0));
    } else {
        lemma_pages_prefix(t, per_page, (k - 1) as nat);
        assert((k - 1) * per_page + per_page == k * per_page) by (nonlinear_arith);
        assert((k - 1) * per_page >= 0) by (nonlinear_arith)
            requires
                k >= 1,
                per_page >= 1,
        ;
        let end = if k * per_page < t.len() {
            k * per_page
        } else {
            t.len() as int
        };
        assert(pages_through(t, per_page, k) =~= t.subrange(0, end));
    }
}

/// Pages 1 through `k` of the listing of `s` in workspace `ws` with the
/// filter of `q`, end to end.
pub open spec fn listed_pages(s: Seq<MailboxMessage>, ws: Seq<char>, q: ListMailboxQuery, k: nat) -> Seq<
    MailboxMessage,
>
    decreases k,
{
    if k == 0 {
        seq![]
    } else {
        listed_pages(s, ws, q, (k - 1) as nat) + listing(s, ws, q.at_page(k as u32))
    }
}

/// Each page of a listing is that page of one fixed sequence, the selection.
proof fn lemma_listed_pages_slices(s: Seq<MailboxMessage>, ws: Seq<char>, q: ListMailboxQuery, k: nat)
    requires
        k <= u32::MAX,
    ensures
        listed_pages(s, ws, q, k) == pages_through(selection(s, ws, q), per_page_of(q.per_page), k),
    decreases k,
{
    if k > 0 {
        lemma_listed_pages_slices(s, ws, q, (k - 1) as nat);
        let qk = q.at_page(k as u32);
        assert((|m: MailboxMessage| qk.admits(ws, m)) =~= (|m: MailboxMessage| q.admits(ws, m)));
        assert(selection(s, ws, qk) == selection(s, ws, q));
    }
}

/// Listing pages 1 through `k`, for any `k` whose pages reach the end, and
/// putting them end to end gives every selected message exactly once and in
/// listing order: no overlap, no gap. The selection holds exactly the
/// messages that the filter admits, newest `created_at` first and, among
/// equal timestamps, highest `message_id` first.
pub proof fn lemma_pages_reassemble(s: Seq<MailboxMessage>, ws: Seq<char>, q: ListMailboxQuery, k: nat)
    requires
        ids_ascending(s),
        1 <= k <= u32::MAX,
        selection(s, ws, q).len() <= k * per_page_of(q.per_page),
    ensures
        listed_pages(s, ws, q, k) == selection(s, ws, q),
        in_listing_order(selection(s, ws, q)),
        selection(s, ws, q).to_multiset() == s.filter(|m: MailboxMessage| q.admits(ws, m)).to_multiset(),
{
    let t = selection(s, ws, q);
    lemma_listed_pages_slices(s, ws, q, k);
    lemma_pages_prefix(t, per_page_of(q.per_page), k);
    assert(t.subrange(0, t.len() as int) =~= t);
    let f = s.filter(|m: MailboxMessage| q.admits(ws, m));
    lemma_ordered_permutes(f);
    lemma_filter_ascending(s, |m: MailboxMessage| q.admits(ws, m));
    lemma_ordered_sorted(f);
}

} // verus!
