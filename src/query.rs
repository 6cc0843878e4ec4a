//! Listing: which messages a query selects, in which order, and which page
//! of them is returned.

use vstd::prelude::*;
use crate::message::{MailboxMessage, MailboxType};

verus! {

/// Page size used when the request names none, or names zero.
pub const DEFAULT_PER_PAGE: u32 = 50;

/// Largest page size a request can obtain.
pub const MAX_PER_PAGE: u32 = 500;

/// Filter and pagination of a listing. Every filter that is present must
/// hold (AND semantics); absent ones select everything.
#[derive(Debug)]
pub struct ListMailboxQuery {
    pub mailbox_type: Option<MailboxType>,
    pub mailbox_id: Option<String>,
    pub message_id: Option<i64>,
    pub page: Option<u32>,
    pub per_page: Option<u32>,
}

/// The page size a request asks for, once normalized.
pub open spec fn per_page_of(p: Option<u32>) -> int {
    match p {
        None => DEFAULT_PER_PAGE as int,
        Some(n) => if n == 0 {
            DEFAULT_PER_PAGE as int
        } else if n > MAX_PER_PAGE {
            MAX_PER_PAGE as int
        } else {
            n as int
        },
    }
}

/// The 1-based page number a request asks for, once normalized.
pub open spec fn page_of(p: Option<u32>) -> int {
    match p {
        None => 1,
        Some(n) => if n == 0 {
            1
        } else {
            n as int
        },
    }
}

/// Missing or zero page sizes become the default; oversized ones the maximum.
pub fn normalize_per_page(p: Option<u32>) -> (r: u32)
    ensures
        r == per_page_of(p),
        1 <= r <= MAX_PER_PAGE,
{
    match p {
        None => DEFAULT_PER_PAGE,
        Some(n) => if n == 0 {
            DEFAULT_PER_PAGE
        } else if n > MAX_PER_PAGE {
            MAX_PER_PAGE
        } else {
            n
        },
    }
}

/// Missing or zero page numbers become the first page.
pub fn normalize_page(p: Option<u32>) -> (r: u32)
    ensures
        r == page_of(p),
        r >= 1,
{
    match p {
        None => 1,
        Some(n) => if n == 0 {
            1
        } else {
            n
        },
    }
}

impl ListMailboxQuery {
    /// Whether message `m` is selected by this query scoped to workspace `ws`.
    pub open spec fn admits(&self, ws: Seq<char>, m: MailboxMessage) -> bool {
        &&& m.in_workspace(ws)
        &&& match self.mailbox_type {
            None => true,
            Some(t) => m.mailbox_type == t,
        }
        &&& match self.mailbox_id {
            None => true,
            Some(x) => m.mailbox_id is Some && m.mailbox_id->0@ == x@,
        }
        &&& match self.message_id {
            None => true,
            Some(id) => m.message_id == id,
        }
    }

    /// The same filter, asking for page `page`.
    pub open spec fn at_page(self, page: u32) -> ListMailboxQuery {
        ListMailboxQuery { page: Some(page), ..self }
    }

    pub fn admits_message(&self, ws: &String, m: &MailboxMessage) -> (r: bool)
        ensures
            r == self.admits(ws@, *m),
    {
        if !(m.workspace_id == *ws) {
            return false;
        }
        let type_ok = match self.mailbox_type {
            None => true,
            Some(t) => m.mailbox_type == t,
        };
        let mailbox_ok = match &self.mailbox_id {
            None => true,
            Some(x) => match &m.mailbox_id {
                None => false,
                Some(y) => *y == *x,
            },
        };
        let id_ok = match self.message_id {
            None => true,
            Some(id) => m.message_id == id,
        };
        type_ok && mailbox_ok && id_ok
    }
}

/// Listing order: newer `created_at` first, higher `message_id` first among
/// equal timestamps.
pub open spec fn precedes(a: MailboxMessage, b: MailboxMessage) -> bool {
    a.created_at > b.created_at || (a.created_at == b.created_at && a.message_id > b.message_id)
}

/// Puts `m` into `s` in front of the first element that it precedes.
pub open spec fn insert_ordered(m: MailboxMessage, s: Seq<MailboxMessage>) -> Seq<MailboxMessage>
    decreases s.len(),
{
    if s.len() == 0 {
        seq![m]
    } else if precedes(m, s[0]) {
        seq![m] + s
    } else {
        seq![s[0]] + insert_ordered(m, s.drop_first())
    }
}

/// `s` arranged in listing order.
pub open spec fn ordered(s: Seq<MailboxMessage>) -> Seq<MailboxMessage>
    decreases s.len(),
{
    if s.len() == 0 {
        s
    } else {
        insert_ordered(s.last(), ordered(s.drop_last()))
    }
}

/// Page `page` (1-based) of `t` cut in pages of `per_page`; empty past the end.
pub open spec fn page_slice(t: Seq<MailboxMessage>, page: int, per_page: int) -> Seq<MailboxMessage> {
    let off = (page - 1) * per_page;
    let start = if off < t.len() { off } else { t.len() as int };
    let end = if off + per_page < t.len() { off + per_page } else { t.len() as int };
    t.subrange(start, end)
}

/// All messages of `s` that `q` selects in workspace `ws`, in listing order.
pub open spec fn selection(s: Seq<MailboxMessage>, ws: Seq<char>, q: ListMailboxQuery) -> Seq<MailboxMessage> {
    ordered(s.filter(|m: MailboxMessage| q.admits(ws, m)))
}

/// What listing `s` with query `q` in workspace `ws` returns.
pub open spec fn listing(s: Seq<MailboxMessage>, ws: Seq<char>, q: ListMailboxQuery) -> Seq<MailboxMessage> {
    page_slice(selection(s, ws, q), page_of(q.page), per_page_of(q.per_page))
}

/// `insert_ordered` inserts at the first position whose element `m` precedes.
pub proof fn lemma_insert_ordered_at(m: MailboxMessage, s: Seq<MailboxMessage>, p: int)
    requires
        0 <= p <= s.len(),
        forall|k: int| 0 <= k < p ==> !precedes(m, #[trigger] s[k]),
        p == s.len() || precedes(m, s[p]),
    ensures
        insert_ordered(m, s) == s.insert(p, m),
    decreases s.len(),
{
    if s.len() == 0 {
        assert(seq![m] =~= s.insert(p, m));
    } else if p == 0 {
        assert(seq![m] + s =~= s.insert(p, m));
    } else {
        let t = s.drop_first();
        assert forall|k: int| 0 <= k < p - 1 implies !precedes(m, #[trigger] t[k]) by {
            assert(t[k] == s[k + 1]);
        }
        lemma_insert_ordered_at(m, t, p - 1);
        assert(seq![s[0]] + t.insert(p - 1, m) =~= s.insert(p, m));
    }
}

/// Inserts `m` into `out` where `insert_ordered` would put it.
pub fn insert_in_order(out: &mut Vec<MailboxMessage>, m: MailboxMessage)
    ensures
        final(out)@ == insert_ordered(m, old(out)@),
{
    let mut p: usize = 0;
    while p < out.len() && !(m.created_at > out[p].created_at || (m.created_at
        == out[p].created_at && m.message_id > out[p].message_id))
        invariant
            p <= out@.len(),
            forall|k: int| 0 <= k < p ==> !precedes(m, #[trigger] out@[k]),
        decreases out@.len() - p,
    {
        p = p + 1;
    }
    proof {
        lemma_insert_ordered_at(m, out@, p as int);
    }
    out.insert(p, m);
}

/// The messages of `all` that `q` selects in workspace `ws`, in listing
/// order, all pages together.
pub fn select_ordered(all: &Vec<MailboxMessage>, ws: &String, q: &ListMailboxQuery) -> (r: Vec<
    MailboxMessage,
>)
    ensures
        r@ == selection(all@, ws@, *q),
{
    let ghost pred = |m: MailboxMessage| q.admits(ws@, m);
    let mut out: Vec<MailboxMessage> = Vec::new();
    let mut i: usize = 0;
    while i < all.len()
        invariant
            i <= all@.len(),
            pred == (|m: MailboxMessage| q.admits(ws@, m)),
            out@ == ordered(all@.take(i as int).filter(pred)),
        decreases all@.len() - i,
    {
        let ghost before = all@.take(i as int).filter(pred);
        let ghost after = all@.take(i + 1).filter(pred);
        proof {
            assert(all@.take(i + 1) =~= all@.take(i as int).push(all@[i as int]));
            all@.take(i as int).lemma_filter_push(all@[i as int], pred);
            assert(pred(all@[i as int]) == q.admits(ws@, all@[i as int]));
        }
        if q.admits_message(ws, &all[i]) {
            let m = all[i].snapshot();
            proof {
                assert(after == before.push(m));
                assert(after.drop_last() =~= before);
                assert(after.last() == m);
            }
            insert_in_order(&mut out, m);
        } else {
            assert(after == before);
        }
        i = i + 1;
    }
    assert(all@.take(all@.len() as int) =~= all@);
    out
}

/// Page `page` of `t` cut in pages of `per_page`.
pub fn take_page(t: &Vec<MailboxMessage>, page: u32, per_page: u32) -> (r: Vec<MailboxMessage>)
    requires
        page >= 1,
        1 <= per_page <= MAX_PER_PAGE,
    ensures
        r@ == page_slice(t@, page as int, per_page as int),
{
    let before: u64 = (page - 1) as u64;
    assert(before * (per_page as u64) <= 4294967295u64 * 500u64) by (nonlinear_arith)
        requires
            before <= 4294967295u64,
            per_page <= 500,
    ;
    let off: u64 = before * (per_page as u64);
    let len: usize = t.len();
    let mut out: Vec<MailboxMessage> = Vec::new();
    if off >= len as u64 {
        assert(out@ =~= page_slice(t@, page as int, per_page as int));
        return out;
    }
    let start: usize = off as usize;
    let end: usize = if len - start > per_page as usize {
        start + per_page as usize
    } else {
        len
    };
    let mut k: usize = start;
    while k < end
        invariant
            start <= k <= end <= t@.len(),
            out@ == t@.subrange(start as int, k as int),
        decreases end - k,
    {
        out.push(t[k].snapshot());
        proof {
            assert(t@.subrange(start as int, k + 1) =~= t@.subrange(start as int, k as int).push(
                t@[k as int],
            ));
        }
        k = k + 1;
    }
    out
}

} // verus!
