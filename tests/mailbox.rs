use mailbox::message::{MailboxMessage, MailboxType};
use mailbox::query::{normalize_page, normalize_per_page, ListMailboxQuery};
use mailbox::store::{BulkDeleteRequest, DeleteOutcome, HandleOutcome, Mailbox};

fn ws(name: &str) -> String {
    name.to_string()
}

fn no_filter() -> ListMailboxQuery {
    ListMailboxQuery { mailbox_type: None, mailbox_id: None, message_id: None, page: None, per_page: None }
}

fn ids(msgs: &[MailboxMessage]) -> Vec<i64> {
    msgs.iter().map(|m| m.message_id).collect()
}

fn add(mb: &mut Mailbox, w: &str, created_at: i64) -> i64 {
    mb.insert(ws(w), None, MailboxType::SystemAlert, "{}".to_string(), created_at).unwrap()
}

#[test]
fn end_to_end_list_delete_handle() {
    let mut mb = Mailbox::new();
    let w = ws("w");
    assert_eq!(add(&mut mb, "w", 100), 1);
    assert_eq!(add(&mut mb, "w", 200), 2);
    assert_eq!(add(&mut mb, "w", 300), 3);
    assert_eq!(ids(&mb.list(&w, &no_filter())), vec![3, 2, 1]);
    assert_eq!(mb.delete(&w, 2), DeleteOutcome::Deleted);
    assert_eq!(ids(&mb.list(&w, &no_filter())), vec![3, 1]);
    assert!(matches!(mb.handle(&w, 3, 1000), HandleOutcome::Handled(_)));
    assert!(matches!(mb.handle(&w, 3, 2000), HandleOutcome::AlreadyHandled(_)));
}

#[test]
fn per_page_normalization() {
    assert_eq!(normalize_per_page(Some(0)), 50);
    assert_eq!(normalize_per_page(Some(10000)), 500);
    assert_eq!(normalize_per_page(None), 50);
    assert_eq!(normalize_per_page(Some(500)), 500);
    assert_eq!(normalize_per_page(Some(501)), 500);
    assert_eq!(normalize_per_page(Some(7)), 7);
    assert_eq!(normalize_page(None), 1);
    assert_eq!(normalize_page(Some(0)), 1);
    assert_eq!(normalize_page(Some(4)), 4);
}

#[test]
fn per_page_limits_applied_to_listing() {
    let mut mb = Mailbox::new();
    for i in 0..600 {
        add(&mut mb, "w", i);
    }
    let mut q = no_filter();
    q.per_page = Some(0);
    assert_eq!(mb.list(&ws("w"), &q).len(), 50);
    q.per_page = Some(10000);
    assert_eq!(mb.list(&ws("w"), &q).len(), 500);
}

#[test]
fn bulk_delete_partial_success() {
    let mut mb = Mailbox::new();
    for i in 0..5 {
        add(&mut mb, "w", i);
    }
    let w = ws("w");
    let report = mb.delete_many(&w, &BulkDeleteRequest { message_ids: vec![5, 999] });
    assert_eq!(report.deleted, vec![5]);
    assert_eq!(report.not_found, vec![999]);
    assert!(mb.get(&w, 5).is_none());
    assert_eq!(ids(&mb.list(&w, &no_filter())), vec![4, 3, 2, 1]);
}

#[test]
fn bulk_delete_empty_and_repeated_ids() {
    let mut mb = Mailbox::new();
    add(&mut mb, "w", 1);
    let w = ws("w");
    let report = mb.delete_many(&w, &BulkDeleteRequest { message_ids: vec![] });
    assert!(report.deleted.is_empty() && report.not_found.is_empty());
    assert_eq!(mb.list(&w, &no_filter()).len(), 1);
    let report = mb.delete_many(&w, &BulkDeleteRequest { message_ids: vec![1, 1] });
    assert_eq!(report.deleted, vec![1]);
    assert!(report.not_found.is_empty());
    assert!(mb.get(&w, 1).is_none());
    let report = mb.delete_many(&w, &BulkDeleteRequest { message_ids: vec![999, 999] });
    assert!(report.deleted.is_empty());
    assert_eq!(report.not_found, vec![999]);
}

#[test]
fn other_workspace_sees_nothing() {
    let mut mb = Mailbox::new();
    let id = add(&mut mb, "w1", 10);
    let w2 = ws("w2");
    assert!(mb.list(&w2, &no_filter()).is_empty());
    let mut q = no_filter();
    q.message_id = Some(id);
    assert!(mb.list(&w2, &q).is_empty());
    assert!(mb.get(&w2, id).is_none());
    assert!(matches!(mb.handle(&w2, id, 5), HandleOutcome::NotFound));
    assert_eq!(mb.delete(&w2, id), DeleteOutcome::NotFound);
    let report = mb.delete_many(&w2, &BulkDeleteRequest { message_ids: vec![id] });
    assert_eq!(report.not_found, vec![id]);
    let m = mb.get(&ws("w1"), id).unwrap();
    assert!(m.handled_at.is_none());
}

#[test]
fn handle_twice_keeps_time() {
    let mut mb = Mailbox::new();
    let id = add(&mut mb, "w", 10);
    let w = ws("w");
    let first = match mb.handle(&w, id, 111) {
        HandleOutcome::Handled(m) => m,
        other => panic!("expected Handled, got {:?}", other),
    };
    let second = match mb.handle(&w, id, 222) {
        HandleOutcome::AlreadyHandled(m) => m,
        other => panic!("expected AlreadyHandled, got {:?}", other),
    };
    assert_eq!(first.handled_at, Some(111));
    assert_eq!(second.handled_at, Some(111));
    assert_eq!(mb.get(&w, id).unwrap().handled_at, Some(111));
}

#[test]
fn repeated_handles_one_winner() {
    let mut mb = Mailbox::new();
    let id = add(&mut mb, "w", 10);
    let w = ws("w");
    let mut handled = 0;
    let mut already = 0;
    for t in 0..8 {
        match mb.handle(&w, id, t) {
            HandleOutcome::Handled(_) => handled += 1,
            HandleOutcome::AlreadyHandled(_) => already += 1,
            HandleOutcome::NotFound => panic!("message vanished"),
        }
    }
    assert_eq!(handled, 1);
    assert_eq!(already, 7);
}

#[test]
fn handle_missing_is_not_found() {
    let mut mb = Mailbox::new();
    assert!(matches!(mb.handle(&ws("w"), 42, 1), HandleOutcome::NotFound));
    assert_eq!(mb.delete(&ws("w"), 42), DeleteOutcome::NotFound);
}

#[test]
fn handled_message_can_be_deleted() {
    let mut mb = Mailbox::new();
    let id = add(&mut mb, "w", 10);
    let w = ws("w");
    mb.handle(&w, id, 5);
    assert_eq!(mb.delete(&w, id), DeleteOutcome::Deleted);
    assert!(mb.get(&w, id).is_none());
    assert_eq!(add(&mut mb, "w", 11), 2);
}

#[test]
fn pages_reassemble_in_order() {
    let mut mb = Mailbox::new();
    let stamps = [5, 3, 5, 9, 1, 3, 7];
    for s in stamps {
        add(&mut mb, "w", s);
    }
    let w = ws("w");
    let mut all = no_filter();
    all.per_page = Some(100);
    let full = ids(&mb.list(&w, &all));
    assert_eq!(full, vec![4, 7, 3, 1, 6, 2, 5]);
    let mut joined = Vec::new();
    for p in 1..=3 {
        let mut q = no_filter();
        q.per_page = Some(3);
        q.page = Some(p);
        let once = ids(&mb.list(&w, &q));
        let again = ids(&mb.list(&w, &q));
        assert_eq!(once, again);
        joined.extend(once);
    }
    assert_eq!(joined, full);
    let mut past = no_filter();
    past.per_page = Some(3);
    past.page = Some(4);
    assert!(mb.list(&w, &past).is_empty());
}

#[test]
fn filters_combine() {
    let mut mb = Mailbox::new();
    let w = ws("w");
    mb.insert(w.clone(), Some("a".to_string()), MailboxType::JobFailure, "1".to_string(), 1).unwrap();
    mb.insert(w.clone(), Some("b".to_string()), MailboxType::JobFailure, "2".to_string(), 2).unwrap();
    mb.insert(w.clone(), Some("a".to_string()), MailboxType::ApprovalRequest, "3".to_string(), 3).unwrap();
    mb.insert(w.clone(), None, MailboxType::JobFailure, "4".to_string(), 4).unwrap();
    let mut q = no_filter();
    q.mailbox_type = Some(MailboxType::JobFailure);
    assert_eq!(ids(&mb.list(&w, &q)), vec![4, 2, 1]);
    q.mailbox_id = Some("a".to_string());
    assert_eq!(ids(&mb.list(&w, &q)), vec![1]);
    q.message_id = Some(2);
    assert!(mb.list(&w, &q).is_empty());
    let mut by_id = no_filter();
    by_id.message_id = Some(3);
    let found = mb.list(&w, &by_id);
    assert_eq!(ids(&found), vec![3]);
    assert_eq!(found[0].payload, "3");
    assert_eq!(found[0].mailbox_type, MailboxType::ApprovalRequest);
}

#[test]
fn timestamped_operations_use_clock() {
    let mut mb = Mailbox::new();
    let w = ws("w");
    let id = mb.insert_now(w.clone(), None, MailboxType::SystemAlert, "{}".to_string()).unwrap();
    let created = mb.get(&w, id).unwrap().created_at;
    assert!(created > 1_600_000_000_000_000);
    match mb.handle_now(&w, id) {
        HandleOutcome::Handled(m) => assert!(m.handled_at.unwrap() >= created),
        other => panic!("expected Handled, got {:?}", other),
    }
}
