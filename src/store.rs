//! The message store: identity, workspace scoping, handling and deletion.

use vstd::prelude::*;
use crate::clock::now_micros;
use crate::message::{MailboxMessage, MailboxType};
use crate::query::{
    listing, normalize_page, normalize_per_page, select_ordered, take_page, ListMailboxQuery,
};

verus! {

/// What handling a message came to. Both `Handled` and `AlreadyHandled`
/// carry the message as it stands after the call.
#[derive(Debug)]
pub enum HandleOutcome {
    Handled(MailboxMessage),
    AlreadyHandled(MailboxMessage),
    NotFound,
}

/// What deleting one message came to.
#[derive(Clone, Copy, Debug, PartialEq, Eq, Structural)]
pub enum DeleteOutcome {
    Deleted,
    NotFound,
}

/// Ids to delete in one request.
#[derive(Debug)]
pub struct BulkDeleteRequest {
    pub message_ids: Vec<i64>,
}

/// Per-id result of a bulk delete: the ids that were removed, and the ids
/// that named no message of the workspace, each in request order.
#[derive(Debug)]
pub struct BulkDeleteReport {
    pub deleted: Vec<i64>,
    pub not_found: Vec<i64>,
}

/// Message ids strictly increase along `s` (so no id occurs twice).
pub open spec fn ids_ascending(s: Seq<MailboxMessage>) -> bool {
    forall|i: int, j: int| 0 <= i < j < s.len() ==> s[i].message_id < s[j].message_id
}

/// Index `i` of `s` holds message `id` of workspace `ws`.
pub open spec fn is_slot(s: Seq<MailboxMessage>, ws: Seq<char>, id: i64, i: int) -> bool {
    0 <= i < s.len() && s[i].message_id == id && s[i].in_workspace(ws)
}

/// Where message `id` of workspace `ws` stands in `s`, if it is there.
pub open spec fn slot(s: Seq<MailboxMessage>, ws: Seq<char>, id: i64) -> Option<int> {
    if exists|i: int| is_slot(s, ws, id, i) {
        Some(choose|i: int| is_slot(s, ws, id, i))
    } else {
        None
    }
}

/// The message `id` of workspace `ws` in `s`, if any.
pub open spec fn lookup(s: Seq<MailboxMessage>, ws: Seq<char>, id: i64) -> Option<MailboxMessage> {
    match slot(s, ws, id) {
        Some(i) => Some(s[i]),
        None => None,
    }
}

/// `m` marked as handled at time `now`.
pub open spec fn mark_handled(m: MailboxMessage, now: i64) -> MailboxMessage {
    MailboxMessage { handled_at: Some(now), ..m }
}

/// Contents after handling message `id` of workspace `ws` at time `now`,
/// and the outcome: only a pending message changes, and only once.
pub open spec fn handle_step(s: Seq<MailboxMessage>, ws: Seq<char>, id: i64, now: i64) -> (
    Seq<MailboxMessage>,
    HandleOutcome,
) {
    match slot(s, ws, id) {
        None => (s, HandleOutcome::NotFound),
        Some(i) => if s[i].is_pending() {
            (s.update(i, mark_handled(s[i], now)), HandleOutcome::Handled(mark_handled(s[i], now)))
        } else {
            (s, HandleOutcome::AlreadyHandled(s[i]))
        },
    }
}

/// Contents after deleting message `id` of workspace `ws`, and the outcome.
pub open spec fn delete_step(s: Seq<MailboxMessage>, ws: Seq<char>, id: i64) -> (
    Seq<MailboxMessage>,
    DeleteOutcome,
) {
    match slot(s, ws, id) {
        None => (s, DeleteOutcome::NotFound),
        Some(i) => (s.remove(i), DeleteOutcome::Deleted),
    }
}

/// Deleting `ids` one after the other in workspace `ws`: the contents left,
/// the ids deleted, and the ids not found. An id that already occurred
/// earlier in `ids` is skipped, so each id is reported once.
pub open spec fn bulk_step(s: Seq<MailboxMessage>, ws: Seq<char>, ids: Seq<i64>) -> (
    Seq<MailboxMessage>,
    Seq<i64>,
    Seq<i64>,
)
    decreases ids.len(),
{
    if ids.len() == 0 {
        (s, seq![], seq![])
    } else {
        let prev = bulk_step(s, ws, ids.drop_last());
        let id = ids.last();
        if ids.drop_last().contains(id) {
            prev
        } else {
            match delete_step(prev.0, ws, id) {
                (rest, DeleteOutcome::Deleted) => (rest, prev.1.push(id), prev.2),
                (rest, DeleteOutcome::NotFound) => (rest, prev.1, prev.2.push(id)),
            }
        }
    }
}

/// Removing index `i` leaves message `x` of `ws` in place unless `i` held it.
pub proof fn lemma_remove_lookup(s: Seq<MailboxMessage>, ws: Seq<char>, i: int, x: i64)
    requires
        ids_ascending(s),
        0 <= i < s.len(),
    ensures
        (lookup(s.remove(i), ws, x) is Some) <==> (lookup(s, ws, x) is Some && s[i].message_id
            != x),
{
    let t = s.remove(i);
    if exists|j: int| is_slot(t, ws, x, j) {
        let j = choose|j: int| is_slot(t, ws, x, j);
        let j0 = if j < i { j } else { j + 1 };
        assert(t[j] == s[j0]);
        assert(is_slot(s, ws, x, j0));
        if j0 < i {
            assert(s[j0].message_id < s[i].message_id);
        } else {
            assert(s[i].message_id < s[j0].message_id);
        }
    }
    if exists|j: int| is_slot(s, ws, x, j) {
        let j = choose|j: int| is_slot(s, ws, x, j);
        if s[i].message_id != x {
            let j1 = if j < i { j } else { j - 1 };
            assert(t[j1] == s[j]);
            assert(is_slot(t, ws, x, j1));
        }
    }
}

/// A bulk delete removes exactly the requested messages of `ws`; it reports
/// as deleted exactly the requested ids that named a message of `ws` when it
/// began, and as not found exactly the other requested ids.
pub proof fn lemma_bulk_report(s: Seq<MailboxMessage>, ws: Seq<char>, ids: Seq<i64>)
    requires
        ids_ascending(s),
    ensures
        ids_ascending(bulk_step(s, ws, ids).0),
        forall|x: i64|
            (#[trigger] lookup(bulk_step(s, ws, ids).0, ws, x) is Some) <==> (lookup(s, ws, x) is Some
                && !ids.contains(x)),
        forall|x: i64|
            #[trigger] bulk_step(s, ws, ids).1.contains(x) <==> (ids.contains(x) && lookup(s, ws, x) is Some),
        forall|x: i64|
            #[trigger] bulk_step(s, ws, ids).2.contains(x) <==> (ids.contains(x) && lookup(s, ws, x) is None),
    decreases ids.len(),
{
    broadcast use vstd::seq_lib::lemma_seq_contains_after_push;

    if ids.len() > 0 {
        let ids0 = ids.drop_last();
        let id = ids.last();
        lemma_bulk_report(s, ws, ids0);
        assert(ids0.push(id) =~= ids);
        let prev = bulk_step(s, ws, ids0);
        if !ids0.contains(id) {
            match slot(prev.0, ws, id) {
                Some(i) => {
                    assert(is_slot(prev.0, ws, id, i));
                    lemma_remove_keeps_ascending(prev.0, i);
                    assert forall|x: i64|
                        (#[trigger] lookup(prev.0.remove(i), ws, x) is Some) <==> (lookup(s, ws, x) is Some
                            && !ids.contains(x)) by {
                        lemma_remove_lookup(prev.0, ws, i, x);
                        assert(lookup(prev.0, ws, x) is Some <==> (lookup(s, ws, x) is Some
                            && !ids0.contains(x)));
                    }
                    assert(lookup(prev.0, ws, id) is Some);
                },
                None => {
                    assert(lookup(prev.0, ws, id) is None);
                },
            }
        }
    }
}

/// With ascending ids, a message's slot is its index.
pub proof fn lemma_slot_is_index(s: Seq<MailboxMessage>, ws: Seq<char>, id: i64, i: int)
    requires
        ids_ascending(s),
        is_slot(s, ws, id, i),
    ensures
        slot(s, ws, id) == Some(i),
{
    let j = choose|j: int| is_slot(s, ws, id, j);
    assert(is_slot(s, ws, id, j));
    if j < i {
        assert(s[j].message_id < s[i].message_id);
    } else if i < j {
        assert(s[i].message_id < s[j].message_id);
    }
}

/// Removing a message keeps the ids ascending.
pub proof fn lemma_remove_keeps_ascending(s: Seq<MailboxMessage>, i: int)
    requires
        ids_ascending(s),
        0 <= i < s.len(),
    ensures
        ids_ascending(s.remove(i)),
{
    let t = s.remove(i);
    assert forall|a: int, b: int| 0 <= a < b < t.len() implies t[a].message_id
        < t[b].message_id by {
        let a0 = if a < i { a } else { a + 1 };
        let b0 = if b < i { b } else { b + 1 };
        assert(t[a] == s[a0] && t[b] == s[b0]);
    }
}

/// Whether `ids[k]` already occurs among `ids[0..k]`.
pub fn occurs_before(ids: &Vec<i64>, k: usize) -> (r: bool)
    requires
        k < ids@.len(),
    ensures
        r == ids@.take(k as int).contains(ids@[k as int]),
{
    let mut j: usize = 0;
    while j < k
        invariant
            j <= k < ids@.len(),
            forall|a: int| 0 <= a < j ==> ids@[a] != ids@[k as int],
        decreases k - j,
    {
        if ids[j] == ids[k] {
            assert(ids@.take(k as int)[j as int] == ids@[k as int]);
            return true;
        }
        j = j + 1;
    }
    assert forall|a: int| 0 <= a < k implies ids@.take(k as int)[a] != ids@[k as int] by {}
    false
}

/// The messages of all workspaces, in order of id.
pub struct Mailbox {
    messages: Vec<MailboxMessage>,
    next_id: i64,
}

impl View for Mailbox {
    type V = Seq<MailboxMessage>;

    closed spec fn view(&self) -> Seq<MailboxMessage> {
        self.messages@
    }
}

impl Mailbox {
    /// The id the next inserted message gets; every id ever assigned is below it.
    pub closed spec fn id_counter(&self) -> int {
        self.next_id as int
    }

    /// Ids ascend, and each lies in `1 .. id_counter()`.
    pub closed spec fn wf(&self) -> bool {
        &&& 1 <= self.next_id
        &&& ids_ascending(self.messages@)
        &&& forall|i: int|
            0 <= i < self.messages@.len() ==> 1 <= #[trigger] self.messages@[i].message_id
                < self.next_id
    }

    /// A valid mailbox has ascending ids, all below the counter.
    pub proof fn lemma_wf_ids(&self)
        requires
            self.wf(),
        ensures
            ids_ascending(self@),
            forall|i: int|
                0 <= i < self@.len() ==> 1 <= #[trigger] self@[i].message_id < self.id_counter(),
            self.id_counter() <= i64::MAX,
    {
    }

    /// An empty mailbox whose first message gets id 1.
    pub fn new() -> (r: Mailbox)
        ensures
            r.wf(),
            r@ == Seq::<MailboxMessage>::empty(),
            r.id_counter() == 1,
    {
        Mailbox { messages: Vec::new(), next_id: 1 }
    }

    /// Stores a new pending message and returns its id, a fresh one that no
    /// message ever had. Returns `None`, changing nothing, once ids run out.
    pub fn insert(
        &mut self,
        workspace_id: String,
        mailbox_id: Option<String>,
        mailbox_type: MailboxType,
        payload: String,
        created_at: i64,
    ) -> (r: Option<i64>)
        requires
            old(self).wf(),
        ensures
            final(self).wf(),
            old(self).id_counter() < i64::MAX ==> {
                &&& r == Some(old(self).id_counter() as i64)
                &&& final(self).id_counter() == old(self).id_counter() + 1
                &&& final(self)@ == old(self)@.push(
                    MailboxMessage {
                        message_id: old(self).id_counter() as i64,
                        mailbox_id,
                        workspace_id,
                        mailbox_type,
                        created_at,
                        payload,
                        handled_at: None,
                    },
                )
            },
            old(self).id_counter() == i64::MAX ==> r is None && final(self)@ == old(self)@
                && final(self).id_counter() == old(self).id_counter(),
    {
        if self.next_id == i64::MAX {
            return None;
        }
        let id = self.next_id;
        self.messages.push(
            MailboxMessage {
                message_id: id,
                mailbox_id,
                workspace_id,
                mailbox_type,
                created_at,
                payload,
                handled_at: None,
            },
        );
        self.next_id = id + 1;
        Some(id)
    }

    /// `insert` stamped with the current time.
    pub fn insert_now(
        &mut self,
        workspace_id: String,
        mailbox_id: Option<String>,
        mailbox_type: MailboxType,
        payload: String,
    ) -> (r: Option<i64>)
        requires
            old(self).wf(),
        ensures
            final(self).wf(),
            old(self).id_counter() < i64::MAX ==> {
                &&& r == Some(old(self).id_counter() as i64)
                &&& final(self).id_counter() == old(self).id_counter() + 1
                &&& final(self)@ == old(self)@.push(
                    MailboxMessage {
                        message_id: old(self).id_counter() as i64,
                        mailbox_id,
                        workspace_id,
                        mailbox_type,
                        created_at: final(self)@.last().created_at,
                        payload,
                        handled_at: None,
                    },
                )
            },
            old(self).id_counter() == i64::MAX ==> r is None && final(self)@ == old(self)@
                && final(self).id_counter() == old(self).id_counter(),
    {
        let t = now_micros();
        self.insert(workspace_id, mailbox_id, mailbox_type, payload, t)
    }

    /// Index of message `id` of workspace `ws`.
    fn position(&self, ws: &String, id: i64) -> (r: Option<usize>)
        requires
            self.wf(),
        ensures
            match r {
                Some(i) => slot(self@, ws@, id) == Some(i as int),
                None => slot(self@, ws@, id) is None,
            },
    {
        let mut i: usize = 0;
        while i < self.messages.len()
            invariant
                i <= self.messages@.len(),
                self.wf(),
                forall|k: int| 0 <= k < i ==> !is_slot(self.messages@, ws@, id, k),
            decreases self.messages@.len() - i,
        {
            if self.messages[i].message_id == id && self.messages[i].workspace_id == *ws {
                proof {
                    lemma_slot_is_index(self.messages@, ws@, id, i as int);
                }
                return Some(i);
            }
            i = i + 1;
        }
        None
    }

    /// The message `id` of workspace `ws`, if there is one.
    pub fn get(&self, ws: &String, message_id: i64) -> (r: Option<MailboxMessage>)
        requires
            self.wf(),
        ensures
            r == lookup(self@, ws@, message_id),
    {
        match self.position(ws, message_id) {
            Some(i) => Some(self.messages[i].snapshot()),
            None => None,
        }
    }

    /// The page of messages of workspace `ws` that `q` selects, newest first.
    pub fn list(&self, ws: &String, q: &ListMailboxQuery) -> (r: Vec<MailboxMessage>)
        ensures
            r@ == listing(self@, ws@, *q),
    {
        let all = select_ordered(&self.messages, ws, q);
        take_page(&all, normalize_page(q.page), normalize_per_page(q.per_page))
    }

    /// Marks message `id` of workspace `ws` as handled at `now`, if it is
    /// pending: one check-and-set, so only one call ever wins.
    pub fn handle(&mut self, ws: &String, message_id: i64, now: i64) -> (r: HandleOutcome)
        requires
            old(self).wf(),
        ensures
            final(self).wf(),
            final(self).id_counter() == old(self).id_counter(),
            (final(self)@, r) == handle_step(old(self)@, ws@, message_id, now),
    {
        match self.position(ws, message_id) {
            None => HandleOutcome::NotFound,
            Some(i) => {
                if self.messages[i].handled_at.is_none() {
                    self.messages[i].handled_at = Some(now);
                    proof {
                        assert(self.messages@ =~= old(self).messages@.update(
                            i as int,
                            mark_handled(old(self).messages@[i as int], now),
                        ));
                        assert forall|k: int| 0 <= k < self.messages@.len() implies #[trigger]
                            self.messages@[k].message_id == old(self).messages@[k].message_id by {}
                    }
                    HandleOutcome::Handled(self.messages[i].snapshot())
                } else {
                    HandleOutcome::AlreadyHandled(self.messages[i].snapshot())
                }
            },
        }
    }

    /// `handle` at the current time.
    pub fn handle_now(&mut self, ws: &String, message_id: i64) -> (r: HandleOutcome)
        requires
            old(self).wf(),
        ensures
            final(self).wf(),
            final(self).id_counter() == old(self).id_counter(),
            exists|t: i64| (final(self)@, r) == handle_step(old(self)@, ws@, message_id, t),
    {
        let t = now_micros();
        self.handle(ws, message_id, t)
    }

    /// Removes message `id` of workspace `ws`, pending or handled.
    pub fn delete(&mut self, ws: &String, message_id: i64) -> (r: DeleteOutcome)
        requires
            old(self).wf(),
        ensures
            final(self).wf(),
            final(self).id_counter() == old(self).id_counter(),
            (final(self)@, r) == delete_step(old(self)@, ws@, message_id),
    {
        match self.position(ws, message_id) {
            None => DeleteOutcome::NotFound,
            Some(i) => {
                proof {
                    lemma_remove_keeps_ascending(self.messages@, i as int);
                }
                self.messages.remove(i);
                proof {
                    assert forall|k: int| 0 <= k < self.messages@.len() implies 1
                        <= #[trigger] self.messages@[k].message_id < self.next_id by {
                        if k >= i {
                            assert(self.messages@[k] == old(self).messages@[k + 1]);
                        }
                    }
                }
                DeleteOutcome::Deleted
            },
        }
    }

    /// Deletes each id of `req` in workspace `ws`, one after the other.
    /// Ids that name no message there are reported, not treated as failure.
    pub fn delete_many(&mut self, ws: &String, req: &BulkDeleteRequest) -> (r: BulkDeleteReport)
        requires
            old(self).wf(),
        ensures
            final(self).wf(),
            final(self).id_counter() == old(self).id_counter(),
            (final(self)@, r.deleted@, r.not_found@) == bulk_step(
                old(self)@,
                ws@,
                req.message_ids@,
            ),
            forall|x: i64|
                #[trigger] r.deleted@.contains(x) <==> (req.message_ids@.contains(x) && lookup(
                    old(self)@,
                    ws@,
                    x,
                ) is Some),
            forall|x: i64|
                #[trigger] r.not_found@.contains(x) <==> (req.message_ids@.contains(x) && lookup(
                    old(self)@,
                    ws@,
                    x,
                ) is None),
            forall|x: i64|
                (#[trigger] lookup(final(self)@, ws@, x) is Some) <==> (lookup(old(self)@, ws@, x) is Some
                    && !req.message_ids@.contains(x)),
    {
        let mut deleted: Vec<i64> = Vec::new();
        let mut not_found: Vec<i64> = Vec::new();
        let mut k: usize = 0;
        while k < req.message_ids.len()
            invariant
                k <= req.message_ids@.len(),
                self.wf(),
                self.id_counter() == old(self).id_counter(),
                (self@, deleted@, not_found@) == bulk_step(
                    old(self)@,
                    ws@,
                    req.message_ids@.take(k as int),
                ),
            decreases req.message_ids@.len() - k,
        {
            let id = req.message_ids[k];
            proof {
                let ids = req.message_ids@.take(k + 1);
                assert(ids.drop_last() =~= req.message_ids@.take(k as int));
                assert(ids.last() == id);
            }
            if !occurs_before(&req.message_ids, k) {
                match self.delete(ws, id) {
                    DeleteOutcome::Deleted => deleted.push(id),
                    DeleteOutcome::NotFound => not_found.push(id),
                }
            }
            k = k + 1;
        }
        assert(req.message_ids@.take(req.message_ids@.len() as int) =~= req.message_ids@);
        proof {
            old(self).lemma_wf_ids();
            lemma_bulk_report(old(self)@, ws@, req.message_ids@);
            let b = bulk_step(old(self)@, ws@, req.message_ids@);
            assert(deleted@ == b.1 && not_found@ == b.2 && self@ == b.0);
            assert forall|x: i64| #[trigger] deleted@.contains(x) <==> (req.message_ids@.contains(x)
                && lookup(old(self)@, ws@, x) is Some) by {
                assert(b.1.contains(x) == deleted@.contains(x));
            }
            assert forall|x: i64| #[trigger] not_found@.contains(x) <==> (req.message_ids@.contains(
                x,
            ) && lookup(old(self)@, ws@, x) is None) by {
                assert(b.2.contains(x) == not_found@.contains(x));
            }
        }
        BulkDeleteReport { deleted, not_found }
    }
}

} // verus!
