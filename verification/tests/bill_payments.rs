use remitwise::bills::{Bill, BillPayments, Error};

fn s(x: &str) -> String {
    x.to_string()
}

fn create(
    c: &mut BillPayments,
    owner: &str,
    name: &str,
    amount: i128,
    due: u64,
    recurring: bool,
    freq: u32,
    now: u64,
) -> u32 {
    c.create_bill(s(owner), s(name), amount, due, recurring, freq, now).unwrap()
}

fn pay(c: &mut BillPayments, owner: &str, id: u32, now: u64) {
    c.pay_bill(&s(owner), id, now).unwrap()
}

fn bill(c: &BillPayments, id: u32) -> Bill {
    c.get_bill(id).unwrap()
}

#[test]
fn test_create_bill() {
    let mut c = BillPayments::new();
    let id = create(&mut c, "owner", "Electricity", 1000, 1000000, false, 0, 0);
    assert_eq!(id, 1);
    let b = c.get_bill(1);
    assert!(b.is_some());
    let b = b.unwrap();
    assert_eq!(b.amount, 1000);
    assert!(!b.paid);
}

#[test]
fn test_create_bill_invalid_amount() {
    let mut c = BillPayments::new();
    let r = c.create_bill(s("owner"), s("Invalid"), 0, 1000000, false, 0, 0);
    assert_eq!(r, Err(Error::InvalidAmount));
}

#[test]
fn test_create_recurring_bill_invalid_frequency() {
    let mut c = BillPayments::new();
    let r = c.create_bill(s("owner"), s("Monthly"), 500, 1000000, true, 0, 0);
    assert_eq!(r, Err(Error::InvalidFrequency));
}

#[test]
fn test_create_bill_negative_amount() {
    let mut c = BillPayments::new();
    let r = c.create_bill(s("owner"), s("Invalid"), -100, 1000000, false, 0, 0);
    assert_eq!(r, Err(Error::InvalidAmount));
}

#[test]
fn test_pay_bill() {
    let mut c = BillPayments::new();
    let id = create(&mut c, "owner", "Water", 500, 1000000, false, 0, 0);
    pay(&mut c, "owner", id, 0);
    let b = bill(&c, id);
    assert!(b.paid);
    assert!(b.paid_at.is_some());
}

#[test]
fn test_recurring_bill() {
    let mut c = BillPayments::new();
    let id = create(&mut c, "owner", "Rent", 10000, 1000000, true, 30, 0);
    pay(&mut c, "owner", id, 0);
    assert!(bill(&c, id).paid);
    let b2 = bill(&c, 2);
    assert!(!b2.paid);
    assert_eq!(b2.amount, 10000);
    assert_eq!(b2.due_date, 1000000 + (30 * 86400));
}

#[test]
fn test_get_unpaid_bills() {
    let mut c = BillPayments::new();
    create(&mut c, "owner", "Bill1", 100, 1000000, false, 0, 0);
    create(&mut c, "owner", "Bill2", 200, 1000000, false, 0, 0);
    create(&mut c, "owner", "Bill3", 300, 1000000, false, 0, 0);
    pay(&mut c, "owner", 1, 0);
    assert_eq!(c.get_unpaid_bills(&s("owner")).len(), 2);
}

#[test]
fn test_get_total_unpaid() {
    let mut c = BillPayments::new();
    create(&mut c, "owner", "Bill1", 100, 1000000, false, 0, 0);
    create(&mut c, "owner", "Bill2", 200, 1000000, false, 0, 0);
    create(&mut c, "owner", "Bill3", 300, 1000000, false, 0, 0);
    pay(&mut c, "owner", 1, 0);
    assert_eq!(c.get_total_unpaid(&s("owner")), 500);
}

#[test]
fn test_pay_nonexistent_bill() {
    let mut c = BillPayments::new();
    assert_eq!(c.pay_bill(&s("owner"), 999, 0), Err(Error::BillNotFound));
}

#[test]
fn test_pay_already_paid_bill() {
    let mut c = BillPayments::new();
    let id = create(&mut c, "owner", "Test", 100, 1000000, false, 0, 0);
    pay(&mut c, "owner", id, 0);
    assert_eq!(c.pay_bill(&s("owner"), id, 0), Err(Error::BillAlreadyPaid));
}

#[test]
fn test_get_overdue_bills() {
    let now = 2_000_000;
    let mut c = BillPayments::new();
    create(&mut c, "owner", "Overdue1", 100, 1000000, false, 0, now);
    create(&mut c, "owner", "Overdue2", 200, 1500000, false, 0, now);
    create(&mut c, "owner", "Future", 300, 3000000, false, 0, now);
    assert_eq!(c.get_overdue_bills(&s("owner"), now).len(), 2);
}

#[test]
fn test_cancel_bill() {
    let mut c = BillPayments::new();
    let id = create(&mut c, "owner", "Test", 100, 1000000, false, 0, 0);
    c.cancel_bill(&s("owner"), id).unwrap();
    assert!(c.get_bill(id).is_none());
}

#[test]
fn test_cancel_bill_owner_succeeds() {
    let mut c = BillPayments::new();
    let id = create(&mut c, "owner", "Test", 100, 1000000, false, 0, 0);
    c.cancel_bill(&s("owner"), id).unwrap();
    assert!(c.get_bill(id).is_none());
}

#[test]
fn test_cancel_bill_unauthorized_fails() {
    let mut c = BillPayments::new();
    let id = create(&mut c, "owner", "Water", 500, 1000000, false, 0, 0);
    assert_eq!(c.cancel_bill(&s("other"), id), Err(Error::Unauthorized));
}

#[test]
fn test_cancel_nonexistent_bill() {
    let mut c = BillPayments::new();
    assert_eq!(c.cancel_bill(&s("owner"), 999), Err(Error::BillNotFound));
}

#[test]
fn test_multiple_recurring_payments() {
    let mut c = BillPayments::new();
    let id = create(&mut c, "owner", "Subscription", 999, 1000000, true, 30, 0);
    pay(&mut c, "owner", id, 0);
    let b2 = bill(&c, 2);
    assert!(!b2.paid);
    assert_eq!(b2.due_date, 1000000 + (30 * 86400));
    pay(&mut c, "owner", 2, 0);
    let b3 = bill(&c, 3);
    assert!(!b3.paid);
    assert_eq!(b3.due_date, 1000000 + (60 * 86400));
}

#[test]
fn test_get_all_bills_admin_only() {
    let mut c = BillPayments::new();
    c.set_pause_admin(&s("admin"), s("admin")).unwrap();
    create(&mut c, "owner", "Bill1", 100, 1000000, false, 0, 0);
    create(&mut c, "owner", "Bill2", 200, 1000000, false, 0, 0);
    create(&mut c, "owner", "Bill3", 300, 1000000, false, 0, 0);
    pay(&mut c, "owner", 1, 0);
    assert_eq!(c.get_all_bills(&s("admin")).unwrap().len(), 3);
}

#[test]
fn test_pay_bill_unauthorized() {
    let mut c = BillPayments::new();
    let id = create(&mut c, "owner", "Water", 500, 1000000, false, 0, 0);
    assert_eq!(c.pay_bill(&s("other"), id, 0), Err(Error::Unauthorized));
}

#[test]
fn test_recurring_bill_cancellation() {
    let mut c = BillPayments::new();
    let id = create(&mut c, "owner", "Rent", 1000, 1000000, true, 30, 0);
    c.cancel_bill(&s("owner"), id).unwrap();
    assert!(c.get_bill(id).is_none());
    assert_eq!(c.pay_bill(&s("owner"), id, 0), Err(Error::BillNotFound));
}

#[test]
fn test_pay_overdue_bill() {
    let now = 2_000_000;
    let mut c = BillPayments::new();
    let id = create(&mut c, "owner", "Late", 500, 1000000, false, 0, now);
    assert_eq!(c.get_overdue_bills(&s("owner"), now).len(), 1);
    pay(&mut c, "owner", id, now);
    assert_eq!(c.get_overdue_bills(&s("owner"), now).len(), 0);
}

#[test]
fn test_short_recurrence() {
    let mut c = BillPayments::new();
    let id = create(&mut c, "owner", "Daily", 10, 1000000, true, 1, 0);
    pay(&mut c, "owner", id, 0);
    assert_eq!(bill(&c, 2).due_date, 1000000 + 86400);
}

#[test]
fn test_get_all_bills_for_owner_basic() {
    let mut c = BillPayments::new();
    create(&mut c, "owner", "Electricity", 100, 1000000, false, 0, 0);
    create(&mut c, "owner", "Water", 200, 1000000, false, 0, 0);
    let bills = c.get_all_bills_for_owner(&s("owner"));
    assert_eq!(bills.len(), 2);
    for b in bills.iter() {
        assert_eq!(b.owner, "owner");
    }
}

#[test]
fn test_get_all_bills_for_owner_isolation() {
    let mut c = BillPayments::new();
    create(&mut c, "alice", "Alice Rent", 1000, 1000000, false, 0, 0);
    create(&mut c, "alice", "Alice Water", 200, 1000000, false, 0, 0);
    create(&mut c, "bob", "Bob Internet", 50, 1000000, false, 0, 0);
    let alice_bills = c.get_all_bills_for_owner(&s("alice"));
    let bob_bills = c.get_all_bills_for_owner(&s("bob"));
    assert_eq!(alice_bills.len(), 2);
    for b in alice_bills.iter() {
        assert_eq!(b.owner, "alice", "Alice received a bill she doesn't own");
    }
    assert_eq!(bob_bills.len(), 1);
    assert_eq!(bob_bills[0].owner, "bob");
}

#[test]
fn test_get_all_bills_for_owner_empty() {
    let mut c = BillPayments::new();
    create(&mut c, "alice", "Alice Bill", 500, 1000000, false, 0, 0);
    assert_eq!(c.get_all_bills_for_owner(&s("bob")).len(), 0);
}

#[test]
fn test_get_all_bills_for_owner_after_pay() {
    let mut c = BillPayments::new();
    let id = create(&mut c, "owner", "Paid Bill", 300, 1000000, false, 0, 0);
    pay(&mut c, "owner", id, 0);
    let bills = c.get_all_bills_for_owner(&s("owner"));
    assert_eq!(bills.len(), 1);
    assert!(bills[0].paid);
}

#[test]
fn test_get_all_bills_for_owner_after_cancel() {
    let mut c = BillPayments::new();
    let id = create(&mut c, "owner", "To Cancel", 100, 1000000, false, 0, 0);
    create(&mut c, "owner", "Keep", 200, 1000000, false, 0, 0);
    c.cancel_bill(&s("owner"), id).unwrap();
    let bills = c.get_all_bills_for_owner(&s("owner"));
    assert_eq!(bills.len(), 1);
    assert_eq!(bills[0].amount, 200);
}

#[test]
fn test_get_all_bills_non_admin_fails() {
    let mut c = BillPayments::new();
    c.set_pause_admin(&s("admin"), s("admin")).unwrap();
    create(&mut c, "alice", "Alice Bill", 100, 1000000, false, 0, 0);
    assert_eq!(c.get_all_bills(&s("alice")).unwrap_err(), Error::Unauthorized);
}

#[test]
fn test_get_all_bills_no_admin_set_fails() {
    let c = BillPayments::new();
    assert_eq!(c.get_all_bills(&s("alice")).unwrap_err(), Error::Unauthorized);
}

#[test]
fn test_get_overdue_bills_owner_scoped() {
    let now = 2_000_000;
    let mut c = BillPayments::new();
    create(&mut c, "alice", "Alice Overdue1", 100, 1_000_000, false, 0, now);
    create(&mut c, "alice", "Alice Overdue2", 200, 1_500_000, false, 0, now);
    create(&mut c, "bob", "Bob Overdue", 300, 1_000_000, false, 0, now);
    create(&mut c, "alice", "Alice Future", 400, 3_000_000, false, 0, now);
    let alice_overdue = c.get_overdue_bills(&s("alice"), now);
    let bob_overdue = c.get_overdue_bills(&s("bob"), now);
    assert_eq!(alice_overdue.len(), 2);
    for b in alice_overdue.iter() {
        assert_eq!(b.owner, "alice");
    }
    assert_eq!(bob_overdue.len(), 1);
    assert_eq!(bob_overdue[0].owner, "bob");
}

#[test]
fn test_recurring_date_math_frequency_1_day() {
    let mut c = BillPayments::new();
    let base_due_date = 1_000_000u64;
    let id = create(&mut c, "owner", "Daily Bill", 100, base_due_date, true, 1, 0);
    pay(&mut c, "owner", id, 0);
    let next = bill(&c, 2);
    assert!(!next.paid, "Next bill should be unpaid");
    assert_eq!(next.due_date, base_due_date + 86400, "Next due date should be exactly 1 day later");
    assert_eq!(next.frequency_days, 1, "Frequency should be preserved");
}

#[test]
fn test_recurring_date_math_frequency_30_days() {
    let mut c = BillPayments::new();
    let base_due_date = 1_000_000u64;
    let id = create(&mut c, "owner", "Monthly Bill", 500, base_due_date, true, 30, 0);
    pay(&mut c, "owner", id, 0);
    let next = bill(&c, 2);
    assert!(!next.paid, "Next bill should be unpaid");
    assert_eq!(next.due_date, base_due_date + (30u64 * 86400), "Next due date should be exactly 30 days later");
    assert_eq!(next.frequency_days, 30, "Frequency should be preserved");
}

#[test]
fn test_recurring_date_math_frequency_365_days() {
    let mut c = BillPayments::new();
    let base_due_date = 1_000_000u64;
    let id = create(&mut c, "owner", "Annual Bill", 1200, base_due_date, true, 365, 0);
    pay(&mut c, "owner", id, 0);
    let next = bill(&c, 2);
    assert!(!next.paid, "Next bill should be unpaid");
    assert_eq!(next.due_date, base_due_date + (365u64 * 86400), "Next due date should be exactly 365 days later");
    assert_eq!(next.frequency_days, 365, "Frequency should be preserved");
}

#[test]
fn test_recurring_date_math_paid_at_does_not_affect_next_due() {
    let now = 1_000_500;
    let mut c = BillPayments::new();
    let base_due_date = 1_000_000u64;
    let id = create(&mut c, "owner", "Late Payment Test", 300, base_due_date, true, 30, now);
    pay(&mut c, "owner", id, now);
    let paid = bill(&c, id);
    assert!(paid.paid, "Bill should be marked as paid");
    assert_eq!(paid.paid_at, Some(1_000_500), "paid_at should be set to current time");
    let next = bill(&c, 2);
    assert_eq!(
        next.due_date,
        base_due_date + (30u64 * 86400),
        "Next due date should be based on original due_date, not paid_at"
    );
    assert!(!next.paid, "Next bill should be unpaid");
}

#[test]
fn test_recurring_date_math_multiple_pay_cycles_2nd_bill() {
    let mut c = BillPayments::new();
    let base_due_date = 1_000_000u64;
    let id = create(&mut c, "owner", "Multi-Cycle Bill", 250, base_due_date, true, 30, 0);
    pay(&mut c, "owner", id, 0);
    let b2 = bill(&c, 2);
    let expected_b2 = base_due_date + (30u64 * 86400);
    assert_eq!(b2.due_date, expected_b2);
    assert!(!b2.paid);
    pay(&mut c, "owner", 2, 0);
    assert!(bill(&c, 2).paid);
    let b3 = bill(&c, 3);
    assert_eq!(b3.due_date, expected_b2 + (30u64 * 86400), "Bill 3 due_date should be Bill 2 due_date + (30*86400)");
    assert!(!b3.paid);
}

#[test]
fn test_recurring_date_math_multiple_pay_cycles_3rd_bill() {
    let mut c = BillPayments::new();
    let base_due_date = 1_000_000u64;
    let id = create(&mut c, "owner", "Three-Cycle Bill", 150, base_due_date, true, 30, 0);
    pay(&mut c, "owner", id, 0);
    pay(&mut c, "owner", 2, 0);
    pay(&mut c, "owner", 3, 0);
    assert!(bill(&c, 3).paid);
    let b4 = bill(&c, 4);
    assert_eq!(b4.due_date, base_due_date + (90u64 * 86400), "Bill 4 due_date should be base + (90*86400)");
    assert!(!b4.paid);
}

#[test]
fn test_recurring_date_math_early_payment_does_not_affect_schedule() {
    let now = 500_000;
    let mut c = BillPayments::new();
    let base_due_date = 1_000_000u64;
    let id = create(&mut c, "owner", "Early Payment Test", 200, base_due_date, true, 30, now);
    pay(&mut c, "owner", id, now);
    let paid = bill(&c, id);
    assert!(paid.paid);
    assert_eq!(paid.paid_at, Some(500_000));
    assert_eq!(
        bill(&c, 2).due_date,
        base_due_date + (30u64 * 86400),
        "Next due date should not be affected by early payment"
    );
}

#[test]
fn test_recurring_date_math_preserves_frequency_across_cycles() {
    let mut c = BillPayments::new();
    let frequency = 7u32;
    let id = create(&mut c, "owner", "Weekly Bill", 50, 1_000_000, true, frequency, 0);
    pay(&mut c, "owner", id, 0);
    pay(&mut c, "owner", 2, 0);
    assert_eq!(bill(&c, 1).frequency_days, frequency);
    assert_eq!(bill(&c, 2).frequency_days, frequency);
    assert_eq!(bill(&c, 3).frequency_days, frequency);
}

#[test]
fn test_recurring_date_math_amount_preserved_across_cycles() {
    let mut c = BillPayments::new();
    let amount = 999i128;
    let id = create(&mut c, "owner", "Fixed Amount Bill", amount, 1_000_000, true, 30, 0);
    pay(&mut c, "owner", id, 0);
    pay(&mut c, "owner", 2, 0);
    assert_eq!(bill(&c, 1).amount, amount);
    assert_eq!(bill(&c, 2).amount, amount);
    assert_eq!(bill(&c, 3).amount, amount);
}

#[test]
fn test_recurring_date_math_name_preserved_across_cycles() {
    let mut c = BillPayments::new();
    let id = create(&mut c, "owner", "Rent Payment", 1000, 1_000_000, true, 30, 0);
    pay(&mut c, "owner", id, 0);
    pay(&mut c, "owner", 2, 0);
    assert_eq!(bill(&c, 1).name, "Rent Payment");
    assert_eq!(bill(&c, 2).name, "Rent Payment");
    assert_eq!(bill(&c, 3).name, "Rent Payment");
}

#[test]
fn test_recurring_date_math_owner_preserved_across_cycles() {
    let mut c = BillPayments::new();
    let id = create(&mut c, "owner", "Owner Test", 100, 1_000_000, true, 30, 0);
    pay(&mut c, "owner", id, 0);
    pay(&mut c, "owner", 2, 0);
    assert_eq!(bill(&c, 1).owner, "owner");
    assert_eq!(bill(&c, 2).owner, "owner");
    assert_eq!(bill(&c, 3).owner, "owner");
}

#[test]
fn test_recurring_date_math_exact_calculation_verification() {
    let mut c = BillPayments::new();
    let id = create(&mut c, "owner", "Math Verification", 100, 1_000_000, true, 14, 0);
    pay(&mut c, "owner", id, 0);
    let next = bill(&c, 2);
    assert_eq!(next.due_date, 1_000_000u64 + (14u64 * 86400));
    assert_eq!(next.due_date, 2_209_600);
}

// ----- further cases -----

#[test]
fn archive_restore_and_cleanup_of_paid_bills() {
    let mut c = BillPayments::new();
    let a = create(&mut c, "owner", "A", 100, 10, false, 0, 0);
    let b = create(&mut c, "owner", "B", 200, 10, false, 0, 0);
    let u = create(&mut c, "owner", "U", 300, 10, false, 0, 0);
    pay(&mut c, "owner", a, 50);
    pay(&mut c, "owner", b, 500);
    // Only bills paid before the cut-off move.
    assert_eq!(c.archive_paid_bills(100, 1000), 1);
    assert!(c.get_bill(a).is_none());
    assert!(c.get_bill(b).is_some());
    assert!(c.get_bill(u).is_some());
    let entry = c.get_archived_bill(a).unwrap();
    assert_eq!(entry.archived_at, 1000);
    assert_eq!(entry.bill.amount, 100);
    assert_eq!(c.get_archived_bills(&s("owner")).len(), 1);
    let st = c.get_storage_stats();
    assert_eq!((st.active_bills, st.archived_bills), (2, 1));
    assert_eq!((st.total_active_amount, st.total_archived_amount, st.last_updated), (500, 100, 1000));
    // Restoring gives the bill back exactly as it was.
    let before = entry.bill;
    assert_eq!(c.restore_bill(&s("other"), a, 1100), Err(Error::Unauthorized));
    assert_eq!(c.restore_bill(&s("owner"), a, 1100), Ok(()));
    assert_eq!(bill(&c, a), before);
    assert_eq!(c.restore_bill(&s("owner"), a, 1100), Err(Error::BillNotFound));
    // Cleanup removes only archive entries made before the cut-off.
    assert_eq!(c.archive_paid_bills(1000, 2000), 2);
    assert_eq!(c.bulk_cleanup_bills(1500, 3000), 0);
    assert_eq!(c.bulk_cleanup_bills(2001, 3000), 2);
    assert_eq!(c.get_storage_stats().archived_bills, 0);
    assert_eq!(c.get_storage_stats().active_bills, 1);
}

#[test]
fn storage_stats_start_at_zero() {
    let c = BillPayments::new();
    let st = c.get_storage_stats();
    assert_eq!((st.active_bills, st.archived_bills, st.last_updated), (0, 0, 0));
}

#[test]
fn pause_admin_can_only_be_handed_on_by_itself() {
    let mut c = BillPayments::new();
    assert_eq!(c.set_pause_admin(&s("x"), s("admin")), Err(Error::Unauthorized));
    assert_eq!(c.set_pause_admin(&s("admin"), s("admin")), Ok(()));
    assert_eq!(c.set_pause_admin(&s("x"), s("x")), Err(Error::Unauthorized));
    assert_eq!(c.set_pause_admin(&s("admin"), s("next")), Ok(()));
    assert!(c.get_all_bills(&s("next")).is_ok());
    assert!(c.get_all_bills(&s("admin")).is_err());
}

#[test]
fn schedules_pay_their_bill_and_move_on() {
    let mut c = BillPayments::new();
    let b = create(&mut c, "owner", "Electricity", 1000, 2000, false, 0, 1000);
    assert_eq!(c.create_schedule(&s("owner"), b, 1000, 86400, 1000), Err(Error::InvalidAmount));
    assert_eq!(c.create_schedule(&s("other"), b, 3000, 86400, 1000), Err(Error::Unauthorized));
    assert_eq!(c.create_schedule(&s("owner"), 42, 3000, 86400, 1000), Err(Error::BillNotFound));
    let sid = c.create_schedule(&s("owner"), b, 3000, 86400, 1000).unwrap();
    assert_eq!(c.find_bill_by_schedule(sid), Some(b));
    assert_eq!(c.get_schedules(&s("owner")).len(), 1);
    // Nothing is due yet.
    assert_eq!(c.execute_due_schedules(2999), Vec::<u32>::new());
    assert_eq!(c.execute_due_schedules(3000), vec![sid]);
    assert!(bill(&c, b).paid);
    let sch = c.get_schedule(sid).unwrap();
    assert_eq!(sch.next_due, 3000 + 86400);
    assert_eq!(sch.last_executed, Some(3000));
    assert_eq!(sch.missed_count, 0);
    // Two whole intervals missed: they are counted and skipped.
    let late = 3000 + 3 * 86400 + 5;
    assert_eq!(c.execute_due_schedules(late), vec![sid]);
    let sch = c.get_schedule(sid).unwrap();
    assert_eq!(sch.missed_count, 2);
    assert_eq!(sch.next_due, 3000 + 4 * 86400);
    assert!(sch.next_due > late);
}

#[test]
fn one_off_schedule_runs_once() {
    let mut c = BillPayments::new();
    let b = create(&mut c, "owner", "Fee", 10, 2000, false, 0, 0);
    let sid = c.create_schedule(&s("owner"), b, 100, 0, 0).unwrap();
    assert_eq!(c.execute_due_schedules(100), vec![sid]);
    assert!(!c.get_schedule(sid).unwrap().active);
    assert_eq!(c.execute_due_schedules(10_000), Vec::<u32>::new());
}

#[test]
fn modifying_and_cancelling_schedules() {
    let mut c = BillPayments::new();
    let b = create(&mut c, "owner", "Fee", 10, 2000, true, 30, 0);
    let sid = c.create_schedule(&s("owner"), b, 100, 50, 0).unwrap();
    assert_eq!(c.modify_schedule(&s("other"), sid, 500, 0, 0), Err(Error::Unauthorized));
    assert_eq!(c.modify_schedule(&s("owner"), sid, 500, 0, 0), Ok(()));
    let sch = c.get_schedule(sid).unwrap();
    assert_eq!((sch.next_due, sch.interval, sch.recurring), (500, 0, false));
    assert_eq!(c.cancel_schedule(&s("other"), sid), Err(Error::Unauthorized));
    assert_eq!(c.cancel_schedule(&s("owner"), sid), Ok(()));
    assert!(!c.get_schedule(sid).unwrap().active);
    assert_eq!(c.execute_due_schedules(1000), Vec::<u32>::new());
    assert_eq!(c.cancel_schedule(&s("owner"), 99), Err(Error::BillNotFound));
}

#[test]
fn paying_a_recurring_bill_through_its_schedule_creates_the_next_bill() {
    let mut c = BillPayments::new();
    let b = create(&mut c, "owner", "Rent", 700, 5000, true, 30, 0);
    let sid = c.create_schedule(&s("owner"), b, 5000, 30 * 86400, 0).unwrap();
    assert_eq!(c.execute_due_schedules(5000), vec![sid]);
    assert!(bill(&c, b).paid);
    let next = bill(&c, 2);
    assert!(!next.paid);
    assert_eq!(next.due_date, 5000 + 30 * 86400);
    assert_eq!(next.schedule_id, Some(sid));
    assert_eq!(c.last_bill_id(), 2);
}

#[test]
fn schedules_that_would_overflow_are_refused_whole() {
    let mut c = BillPayments::new();
    let ok = create(&mut c, "owner", "Ok", 5, 100, false, 0, 0);
    let big = create(&mut c, "owner", "Big", 5, u64::MAX - 10, true, 30, 0);
    let s1 = c.create_schedule(&s("owner"), ok, 50, 0, 0).unwrap();
    c.create_schedule(&s("owner"), big, 50, 0, 0).unwrap();
    assert_eq!(c.try_execute_due_schedules(60), None);
    // Nothing changed, not even what the first schedule would have done.
    assert!(!bill(&c, ok).paid);
    assert!(c.get_schedule(s1).unwrap().active);
    assert_eq!(c.last_bill_id(), 2);
}

#[test]
fn stored_bills_round_trip() {
    let mut c = BillPayments::new();
    let a = create(&mut c, "owner", "A", 5, 100, true, 1, 0);
    pay(&mut c, "owner", a, 10);
    c.set_pause_admin(&s("admin"), s("admin")).unwrap();
    c.create_schedule(&s("owner"), 2, 500, 0, 0).unwrap();
    c.archive_paid_bills(11, 20);
    let parts = c.into_parts();
    assert_eq!(parts.bills.len(), 1);
    assert_eq!(parts.archived.len(), 1);
    assert_eq!(parts.next_id, 2);
    assert_eq!(parts.next_schedule_id, 1);
    let back = BillPayments::from_parts(parts).unwrap();
    assert_eq!(back.get_archived_bill(a).unwrap().archived_at, 20);
    assert_eq!(back.get_bill(2).unwrap().schedule_id, Some(1));
    assert!(back.get_all_bills(&s("admin")).is_ok());
    assert_eq!(back.get_storage_stats().archived_bills, 1);
}

#[test]
fn inconsistent_stored_bills_are_refused() {
    let mut c = BillPayments::new();
    create(&mut c, "owner", "A", 5, 100, false, 0, 0);
    create(&mut c, "owner", "B", 5, 100, false, 0, 0);
    let mut parts = c.into_parts();
    parts.bills.reverse();
    assert!(BillPayments::from_parts(parts).is_none());
    let mut c = BillPayments::new();
    create(&mut c, "owner", "A", 5, 100, false, 0, 0);
    let mut parts = c.into_parts();
    parts.next_id = 0;
    assert!(BillPayments::from_parts(parts).is_none());
}

#[test]
fn total_unpaid_is_the_sum_of_the_unpaid_bills() {
    let mut c = BillPayments::new();
    create(&mut c, "owner", "A", 120, 10, false, 0, 0);
    let b = create(&mut c, "owner", "B", 80, 10, true, 7, 0);
    create(&mut c, "other", "C", 1000, 10, false, 0, 0);
    create(&mut c, "owner", "D", 33, 10, false, 0, 0);
    pay(&mut c, "owner", b, 5);
    let listed: i128 = c.get_unpaid_bills(&s("owner")).iter().map(|x| x.amount).sum();
    assert_eq!(listed, 120 + 33 + 80);
    assert_eq!(c.get_total_unpaid(&s("owner")), listed);
}

#[test]
fn bill_ids_are_not_reused_after_cancelling() {
    let mut c = BillPayments::new();
    let first = create(&mut c, "owner", "Water", 100, 1000, false, 0, 0);
    assert_eq!(first, 1);
    c.cancel_bill(&s("owner"), first).unwrap();
    assert!(c.get_bill(first).is_none());
    let second = create(&mut c, "owner", "Gas", 200, 1000, true, 30, 0);
    assert_eq!(second, 2);
    pay(&mut c, "owner", second, 10);
    assert_eq!(c.last_bill_id(), 3);
    let third = create(&mut c, "owner", "Rent", 300, 1000, false, 0, 0);
    assert_eq!(third, 4);
}
