//! Bill payments: bills with owners, one-off or recurring, paid by their owner or
//! by a payment schedule, archived once paid and cleaned up later.

use vstd::prelude::*;
use crate::table::{
    Keyed, RowFilter, Table, sorted, key_at, lookup, has_key, put, drop_key, all_rows, lemma_put,
    lemma_put_keeps, lemma_drop_keeps, lemma_filter_step, lemma_lookup_some,
};
use crate::amount::{sat_add, saturating_sum};

verus! {

/// Seconds in a day: a recurring bill is due again `frequency_days` days later.
pub const SECONDS_PER_DAY: u64 = 86400;

#[derive(Clone, Copy, Debug, PartialEq, Eq, Structural)]
pub enum Error {
    BillNotFound,
    BillAlreadyPaid,
    InvalidAmount,
    InvalidFrequency,
    Unauthorized,
}

/// The kinds of bill event that the contract publishes.
#[derive(Clone, Copy, Debug, PartialEq, Eq)]
pub enum BillEvent {
    Created,
    Paid,
}

/// The kinds of schedule event that the contract publishes.
#[derive(Clone, Copy, Debug, PartialEq, Eq)]
pub enum ScheduleEvent {
    Created,
    Executed,
    Missed,
    Modified,
    Cancelled,
}

/// A bill, owned by the address that created it.
#[derive(Debug, PartialEq, Eq)]
pub struct Bill {
    pub id: u32,
    pub owner: String,
    pub name: String,
    pub amount: i128,
    pub due_date: u64,
    pub recurring: bool,
    pub frequency_days: u32,
    pub paid: bool,
    pub created_at: u64,
    pub paid_at: Option<u64>,
    pub schedule_id: Option<u32>,
}

impl Keyed for Bill {
    open spec fn key_spec(&self) -> u32 {
        self.id
    }

    fn key(&self) -> (k: u32) {
        self.id
    }

    fn duplicate(&self) -> (r: Self) {
        Bill {
            id: self.id,
            owner: self.owner.clone(),
            name: self.name.clone(),
            amount: self.amount,
            due_date: self.due_date,
            recurring: self.recurring,
            frequency_days: self.frequency_days,
            paid: self.paid,
            created_at: self.created_at,
            paid_at: self.paid_at,
            schedule_id: self.schedule_id,
        }
    }
}

/// A payment schedule for a bill: due at `next_due`, again every `interval`
/// seconds when `interval` is positive.
#[derive(Debug, PartialEq, Eq)]
pub struct Schedule {
    pub id: u32,
    pub owner: String,
    pub next_due: u64,
    pub interval: u64,
    pub recurring: bool,
    pub active: bool,
    pub created_at: u64,
    pub last_executed: Option<u64>,
    pub missed_count: u32,
}

impl Keyed for Schedule {
    open spec fn key_spec(&self) -> u32 {
        self.id
    }

    fn key(&self) -> (k: u32) {
        self.id
    }

    fn duplicate(&self) -> (r: Self) {
        Schedule {
            id: self.id,
            owner: self.owner.clone(),
            next_due: self.next_due,
            interval: self.interval,
            recurring: self.recurring,
            active: self.active,
            created_at: self.created_at,
            last_executed: self.last_executed,
            missed_count: self.missed_count,
        }
    }
}

/// A paid bill moved out of the active bills, with the time it was moved.
#[derive(Debug, PartialEq, Eq)]
pub struct ArchivedBill {
    pub bill: Bill,
    pub archived_at: u64,
}

impl Keyed for ArchivedBill {
    open spec fn key_spec(&self) -> u32 {
        self.bill.id
    }

    fn key(&self) -> (k: u32) {
        self.bill.id
    }

    fn duplicate(&self) -> (r: Self) {
        ArchivedBill { bill: self.bill.duplicate(), archived_at: self.archived_at }
    }
}

/// Counts and totals of the active and archived bills, as of `last_updated`.
#[derive(Clone, Copy, Debug, PartialEq, Eq)]
pub struct StorageStats {
    pub active_bills: u32,
    pub archived_bills: u32,
    pub total_active_amount: i128,
    pub total_archived_amount: i128,
    pub last_updated: u64,
}

// ----- what the operations mean -----

/// The bills of `owner`; only unpaid ones when `unpaid_only`; only those due
/// before `t` when `due_before` is `Some(t)`.
pub open spec fn bill_matches(owner: Seq<char>, unpaid_only: bool, due_before: Option<u64>) -> spec_fn(
    Bill,
) -> bool {
    |b: Bill|
        b.owner@ == owner && (unpaid_only ==> !b.paid) && (due_before matches Some(t) ==> b.due_date
            < t)
}

pub open spec fn owned_by(owner: Seq<char>) -> spec_fn(Bill) -> bool {
    bill_matches(owner, false, None)
}

pub open spec fn unpaid_of(owner: Seq<char>) -> spec_fn(Bill) -> bool {
    bill_matches(owner, true, None)
}

pub open spec fn overdue_of(owner: Seq<char>, now: u64) -> spec_fn(Bill) -> bool {
    bill_matches(owner, true, Some(now))
}

/// A query over the bills of one owner.
pub struct BillQuery {
    pub owner: String,
    pub unpaid_only: bool,
    pub due_before: Option<u64>,
}

impl RowFilter<Bill> for BillQuery {
    open spec fn keep(&self) -> spec_fn(Bill) -> bool {
        bill_matches(self.owner@, self.unpaid_only, self.due_before)
    }

    fn test(&self, b: &Bill) -> (r: bool) {
        let before_ok = match self.due_before {
            Some(t) => b.due_date < t,
            None => true,
        };
        b.owner == self.owner && (!self.unpaid_only || !b.paid) && before_ok
    }
}

/// Sum of the amounts of the unpaid bills of `owner`.
pub open spec fn unpaid_total(s: Seq<Bill>, owner: Seq<char>) -> int
    decreases s.len(),
{
    if s.len() == 0 {
        0
    } else {
        unpaid_total(s.drop_last(), owner) + if unpaid_of(owner)(s.last()) {
            s.last().amount as int
        } else {
            0
        }
    }
}

/// What a stored bill satisfies: its id is at most the last id handed out and not
/// zero, and its amount is positive.
pub open spec fn bill_ok(next_id: u32) -> spec_fn(Bill) -> bool {
    |b: Bill| 1 <= b.id <= next_id && b.amount > 0
}

pub open spec fn archived_ok(next_id: u32) -> spec_fn(ArchivedBill) -> bool {
    |a: ArchivedBill| bill_ok(next_id)(a.bill)
}

pub open spec fn schedule_ok(next_schedule_id: u32) -> spec_fn(Schedule) -> bool {
    |s: Schedule| 1 <= s.id <= next_schedule_id
}

/// When the bill after `b` is due: `frequency_days` days after `b` was due.
pub open spec fn next_due_date(b: Bill) -> int {
    b.due_date + b.frequency_days * 86400
}

/// Paying `b` stays within the machine's integers.
pub open spec fn can_settle(b: Bill, next_id: u32) -> bool {
    b.recurring ==> next_due_date(b) <= u64::MAX && next_id < u32::MAX
}

pub open spec fn paid_copy(b: Bill, now: u64) -> Bill {
    Bill {
        id: b.id,
        owner: b.owner,
        name: b.name,
        amount: b.amount,
        due_date: b.due_date,
        recurring: b.recurring,
        frequency_days: b.frequency_days,
        paid: true,
        created_at: b.created_at,
        paid_at: Some(now),
        schedule_id: b.schedule_id,
    }
}

/// The bill that follows a paid recurring bill `b`.
pub open spec fn following_bill(b: Bill, id: u32, now: u64) -> Bill {
    Bill {
        id,
        owner: b.owner,
        name: b.name,
        amount: b.amount,
        due_date: next_due_date(b) as u64,
        recurring: true,
        frequency_days: b.frequency_days,
        paid: false,
        created_at: now,
        paid_at: None,
        schedule_id: b.schedule_id,
    }
}

/// The bills and the last id handed out after `b` is paid at `now`: `b` is marked
/// paid, and when it recurs the next bill is created under the next id.
pub open spec fn settle(bills: Seq<Bill>, next_id: u32, b: Bill, now: u64) -> (Seq<Bill>, u32) {
    if b.recurring {
        (
            put(put(bills, following_bill(b, (next_id + 1) as u32, now)), paid_copy(b, now)),
            (next_id + 1) as u32,
        )
    } else {
        (put(bills, paid_copy(b, now)), next_id)
    }
}

/// Whether `caller` may pay bill `bill_id`, and if so the bill.
pub open spec fn pay_check(bills: Seq<Bill>, caller: Seq<char>, bill_id: u32) -> Result<Bill, Error> {
    match lookup(bills, bill_id) {
        None => Err(Error::BillNotFound),
        Some(b) => if b.owner@ != caller {
            Err(Error::Unauthorized)
        } else if b.paid {
            Err(Error::BillAlreadyPaid)
        } else {
            Ok(b)
        },
    }
}

/// A paid bill that was paid before `before`.
pub open spec fn archivable(before: u64) -> spec_fn(Bill) -> bool {
    |b: Bill| b.paid && (b.paid_at matches Some(t) && t < before)
}

pub open spec fn kept_active(before: u64) -> spec_fn(Bill) -> bool {
    |b: Bill| !archivable(before)(b)
}

/// The archive after the bills `moved` were archived, in order, at `now`.
pub open spec fn archive_all(archived: Seq<ArchivedBill>, moved: Seq<Bill>, now: u64) -> Seq<
    ArchivedBill,
>
    decreases moved.len(),
{
    if moved.len() == 0 {
        archived
    } else {
        put(
            archive_all(archived, moved.drop_last(), now),
            ArchivedBill { bill: moved.last(), archived_at: now },
        )
    }
}

/// An archive entry made before `before`.
pub open spec fn archived_before(before: u64) -> spec_fn(ArchivedBill) -> bool {
    |a: ArchivedBill| a.archived_at < before
}

pub open spec fn archived_since(before: u64) -> spec_fn(ArchivedBill) -> bool {
    |a: ArchivedBill| !(a.archived_at < before)
}

pub open spec fn archived_of(owner: Seq<char>) -> spec_fn(ArchivedBill) -> bool {
    |a: ArchivedBill| a.bill.owner@ == owner
}

/// The amounts of the bills, added up with saturation.
pub open spec fn bills_amount(s: Seq<Bill>) -> int
    decreases s.len(),
{
    if s.len() == 0 {
        0
    } else {
        sat_add(bills_amount(s.drop_last()), s.last().amount as int)
    }
}

pub open spec fn archived_amount(s: Seq<ArchivedBill>) -> int
    decreases s.len(),
{
    if s.len() == 0 {
        0
    } else {
        sat_add(archived_amount(s.drop_last()), s.last().bill.amount as int)
    }
}

/// The statistics of the given bills and archive, taken at `now`.
pub open spec fn stats_of(bills: Seq<Bill>, archived: Seq<ArchivedBill>, now: u64) -> StorageStats {
    StorageStats {
        active_bills: bills.len() as u32,
        archived_bills: archived.len() as u32,
        total_active_amount: bills_amount(bills) as i128,
        total_archived_amount: archived_amount(archived) as i128,
        last_updated: now,
    }
}

/// A query over the archived bills of one owner.
pub struct ArchiveQuery {
    pub owner: String,
}

impl RowFilter<ArchivedBill> for ArchiveQuery {
    open spec fn keep(&self) -> spec_fn(ArchivedBill) -> bool {
        archived_of(self.owner@)
    }

    fn test(&self, a: &ArchivedBill) -> (r: bool) {
        a.bill.owner == self.owner
    }
}

pub open spec fn schedule_of(owner: Seq<char>) -> spec_fn(Schedule) -> bool {
    |s: Schedule| s.owner@ == owner
}

/// A query over the schedules of one owner.
pub struct ScheduleQuery {
    pub owner: String,
}

impl RowFilter<Schedule> for ScheduleQuery {
    open spec fn keep(&self) -> spec_fn(Schedule) -> bool {
        schedule_of(self.owner@)
    }

    fn test(&self, s: &Schedule) -> (r: bool) {
        s.owner == self.owner
    }
}

/// The first bill, in increasing order of id, that schedule `schedule_id` pays.
pub open spec fn first_with_schedule(bills: Seq<Bill>, schedule_id: u32) -> Option<Bill>
    decreases bills.len(),
{
    if bills.len() == 0 {
        None
    } else if bills[0].schedule_id == Some(schedule_id) {
        Some(bills[0])
    } else {
        first_with_schedule(bills.drop_first(), schedule_id)
    }
}

/// Why a schedule cannot be made for bill `bill_id`, if it cannot.
pub open spec fn schedule_check(
    bills: Seq<Bill>,
    owner: Seq<char>,
    bill_id: u32,
    next_due: u64,
    now: u64,
) -> Option<Error> {
    match lookup(bills, bill_id) {
        None => Some(Error::BillNotFound),
        Some(b) => if b.owner@ != owner {
            Some(Error::Unauthorized)
        } else if next_due <= now {
            Some(Error::InvalidAmount)
        } else {
            None
        },
    }
}

/// Why `caller` may not change schedule `schedule_id`, if it may not.
pub open spec fn schedule_owner_check(schedules: Seq<Schedule>, caller: Seq<char>, schedule_id: u32) -> Option<
    Error,
> {
    match lookup(schedules, schedule_id) {
        None => Some(Error::BillNotFound),
        Some(s) => if s.owner@ != caller {
            Some(Error::Unauthorized)
        } else {
            None
        },
    }
}

/// A schedule runs when it is active and its due time has come.
pub open spec fn is_due(s: Schedule, now: u64) -> bool {
    s.active && s.next_due <= now
}

/// The whole intervals that passed between the due time and `now`.
pub open spec fn missed_periods(s: Schedule, now: u64) -> int {
    (now - s.next_due) / (s.interval as int)
}

/// A due schedule after it ran at `now`: a recurring one is due again at the
/// first interval boundary after `now` and counts the boundaries it skipped; any
/// other one is deactivated.
pub open spec fn advanced(s: Schedule, now: u64) -> Schedule {
    if s.recurring && s.interval > 0 {
        let m = missed_periods(s, now);
        Schedule {
            id: s.id,
            owner: s.owner,
            next_due: (s.next_due + (m + 1) * s.interval) as u64,
            interval: s.interval,
            recurring: s.recurring,
            active: s.active,
            created_at: s.created_at,
            last_executed: Some(now),
            missed_count: (s.missed_count + m) as u32,
        }
    } else {
        Schedule {
            id: s.id,
            owner: s.owner,
            next_due: s.next_due,
            interval: s.interval,
            recurring: s.recurring,
            active: false,
            created_at: s.created_at,
            last_executed: Some(now),
            missed_count: s.missed_count,
        }
    }
}

/// The bills, last bill id, schedules and executed schedule ids while the due
/// schedules are run.
pub struct RunState {
    pub bills: Seq<Bill>,
    pub next_id: u32,
    pub schedules: Seq<Schedule>,
    pub executed: Seq<u32>,
}

/// Running schedule `s`: when due, the first bill it pays is paid if unpaid, the
/// schedule advances, and its id is recorded.
pub open spec fn run_step(st: RunState, s: Schedule, now: u64) -> RunState {
    if !is_due(s, now) {
        st
    } else {
        let paid = match first_with_schedule(st.bills, s.id) {
            Some(b) => if !b.paid {
                settle(st.bills, st.next_id, b, now)
            } else {
                (st.bills, st.next_id)
            },
            None => (st.bills, st.next_id),
        };
        RunState {
            bills: paid.0,
            next_id: paid.1,
            schedules: put(st.schedules, advanced(s, now)),
            executed: st.executed.push(s.id),
        }
    }
}

/// Running schedule `s` stays within the machine's integers.
pub open spec fn step_fits(st: RunState, s: Schedule, now: u64) -> bool {
    is_due(s, now) ==> {
        &&& match first_with_schedule(st.bills, s.id) {
            Some(b) => !b.paid ==> can_settle(b, st.next_id),
            None => true,
        }
        &&& (s.recurring && s.interval > 0 ==> {
            let m = missed_periods(s, now);
            &&& s.next_due + (m + 1) * s.interval <= u64::MAX
            &&& m <= u32::MAX
            &&& s.missed_count + m <= u32::MAX
        })
    }
}

/// Running the schedules `rows`, in order, from `st`.
pub open spec fn run(st: RunState, rows: Seq<Schedule>, now: u64) -> RunState
    decreases rows.len(),
{
    if rows.len() == 0 {
        st
    } else {
        run_step(run(st, rows.drop_last(), now), rows.last(), now)
    }
}

pub open spec fn run_fits(st: RunState, rows: Seq<Schedule>, now: u64) -> bool
    decreases rows.len(),
{
    if rows.len() == 0 {
        true
    } else {
        run_fits(st, rows.drop_last(), now) && step_fits(run(st, rows.drop_last(), now), rows.last(), now)
    }
}

/// What the bill-payments contract keeps in storage.
pub struct BillPaymentsParts {
    pub bills: Vec<Bill>,
    pub next_id: u32,
    pub schedules: Vec<Schedule>,
    pub next_schedule_id: u32,
    pub archived: Vec<ArchivedBill>,
    pub stats: Option<StorageStats>,
    pub pause_admin: Option<String>,
}

/// Whether every bill has an id that was handed out and a positive amount.
fn bills_fit(rows: &Vec<Bill>, next_id: u32) -> (b: bool)
    ensures
        b == all_rows(rows@, bill_ok(next_id)),
{
    let n = rows.len();
    for i in 0..n
        invariant
            n == rows@.len(),
            forall|j: int| 0 <= j < i ==> #[trigger] bill_ok(next_id)(rows@[j]),
    {
        let b = &rows[i];
        if !(1 <= b.id && b.id <= next_id && b.amount > 0) {
            proof {
                assert(!bill_ok(next_id)(rows@[i as int]));
            }
            return false;
        }
    }
    true
}

/// Whether every archived bill has an id that was handed out and a positive
/// amount.
fn archive_fits(rows: &Vec<ArchivedBill>, next_id: u32) -> (b: bool)
    ensures
        b == all_rows(rows@, archived_ok(next_id)),
{
    let n = rows.len();
    for i in 0..n
        invariant
            n == rows@.len(),
            forall|j: int| 0 <= j < i ==> #[trigger] archived_ok(next_id)(rows@[j]),
    {
        let b = &rows[i].bill;
        if !(1 <= b.id && b.id <= next_id && b.amount > 0) {
            proof {
                assert(!archived_ok(next_id)(rows@[i as int]));
            }
            return false;
        }
    }
    true
}

/// Whether every schedule has an id that was handed out.
fn schedules_fit(rows: &Vec<Schedule>, next_schedule_id: u32) -> (b: bool)
    ensures
        b == all_rows(rows@, schedule_ok(next_schedule_id)),
{
    let n = rows.len();
    for i in 0..n
        invariant
            n == rows@.len(),
            forall|j: int| 0 <= j < i ==> #[trigger] schedule_ok(next_schedule_id)(rows@[j]),
    {
        let sch = &rows[i];
        if !(1 <= sch.id && sch.id <= next_schedule_id) {
            proof {
                assert(!schedule_ok(next_schedule_id)(rows@[i as int]));
            }
            return false;
        }
    }
    true
}

/// The state of the bill-payments contract.
pub struct BillPayments {
    bills: Table<Bill>,
    next_id: u32,
    schedules: Table<Schedule>,
    next_schedule_id: u32,
    archived: Table<ArchivedBill>,
    stats: Option<StorageStats>,
    pause_admin: Option<String>,
}

impl BillPayments {
    #[verifier::type_invariant]
    spec fn records_fit(self) -> bool {
        &&& all_rows(self.bills.rows(), bill_ok(self.next_id))
        &&& all_rows(self.archived.rows(), archived_ok(self.next_id))
        &&& all_rows(self.schedules.rows(), schedule_ok(self.next_schedule_id))
    }

    /// The active bills, in increasing order of id.
    pub closed spec fn bills(&self) -> Seq<Bill> {
        self.bills.rows()
    }

    /// The last bill id handed out.
    pub closed spec fn next_bill_id(&self) -> u32 {
        self.next_id
    }

    /// The schedules, in increasing order of id.
    pub closed spec fn schedules(&self) -> Seq<Schedule> {
        self.schedules.rows()
    }

    /// The last schedule id handed out.
    pub closed spec fn next_schedule(&self) -> u32 {
        self.next_schedule_id
    }

    /// The archived bills, in increasing order of id.
    pub closed spec fn archived(&self) -> Seq<ArchivedBill> {
        self.archived.rows()
    }

    /// The statistics last recorded, if any.
    pub closed spec fn stored_stats(&self) -> Option<StorageStats> {
        self.stats
    }

    /// The address allowed to list every bill, if one was set.
    pub closed spec fn admin(&self) -> Option<Seq<char>> {
        match self.pause_admin {
            Some(a) => Some(a@),
            None => None,
        }
    }

    /// Everything but the active bills and the last bill id is as in `other`.
    pub open spec fn same_besides_bills(&self, other: &Self) -> bool {
        &&& self.schedules() == other.schedules()
        &&& self.next_schedule() == other.next_schedule()
        &&& self.archived() == other.archived()
        &&& self.stored_stats() == other.stored_stats()
        &&& self.admin() == other.admin()
    }

    /// The contract before anything was stored.
    pub fn new() -> (r: Self)
        ensures
            r.bills() == Seq::<Bill>::empty(),
            r.next_bill_id() == 0,
            r.schedules() == Seq::<Schedule>::empty(),
            r.next_schedule() == 0,
            r.archived() == Seq::<ArchivedBill>::empty(),
            r.stored_stats() is None,
            r.admin() is None,
    {
        BillPayments {
            bills: Table::new(),
            next_id: 0,
            schedules: Table::new(),
            next_schedule_id: 0,
            archived: Table::new(),
            stats: None,
            pause_admin: None,
        }
    }

    /// Rebuilds the contract from what it keeps in storage, when that is
    /// consistent: bills, schedules and archive in increasing order of id, each
    /// id handed out, and every amount positive.
    pub fn from_parts(parts: BillPaymentsParts) -> (r: Option<Self>)
        ensures
            r is Some <==> {
                &&& sorted(parts.bills@)
                &&& sorted(parts.schedules@)
                &&& sorted(parts.archived@)
                &&& all_rows(parts.bills@, bill_ok(parts.next_id))
                &&& all_rows(parts.archived@, archived_ok(parts.next_id))
                &&& all_rows(parts.schedules@, schedule_ok(parts.next_schedule_id))
            },
            r matches Some(c) ==> {
                &&& c.bills() == parts.bills@
                &&& c.next_bill_id() == parts.next_id
                &&& c.schedules() == parts.schedules@
                &&& c.next_schedule() == parts.next_schedule_id
                &&& c.archived() == parts.archived@
                &&& c.stored_stats() == parts.stats
                &&& c.admin() == match parts.pause_admin {
                    Some(a) => Some(a@),
                    None => None,
                }
            },
    {
        if !bills_fit(&parts.bills, parts.next_id) || !archive_fits(&parts.archived, parts.next_id)
            || !schedules_fit(&parts.schedules, parts.next_schedule_id) {
            return None;
        }
        let bills = match Table::from_rows(parts.bills) {
            None => return None,
            Some(t) => t,
        };
        let schedules = match Table::from_rows(parts.schedules) {
            None => return None,
            Some(t) => t,
        };
        let archived = match Table::from_rows(parts.archived) {
            None => return None,
            Some(t) => t,
        };
        Some(
            BillPayments {
                bills,
                next_id: parts.next_id,
                schedules,
                next_schedule_id: parts.next_schedule_id,
                archived,
                stats: parts.stats,
                pause_admin: parts.pause_admin,
            },
        )
    }

    /// What the contract keeps in storage.
    pub fn into_parts(self) -> (r: BillPaymentsParts)
        ensures
            r.bills@ == self.bills(),
            r.next_id == self.next_bill_id(),
            r.schedules@ == self.schedules(),
            r.next_schedule_id == self.next_schedule(),
            r.archived@ == self.archived(),
            r.stats == self.stored_stats(),
            self.admin() == match r.pause_admin {
                Some(a) => Some(a@),
                None => None,
            },
    {
        BillPaymentsParts {
            bills: self.bills.into_rows(),
            next_id: self.next_id,
            schedules: self.schedules.into_rows(),
            next_schedule_id: self.next_schedule_id,
            archived: self.archived.into_rows(),
            stats: self.stats,
            pause_admin: self.pause_admin,
        }
    }

    /// How many active bills there are. They are in increasing order of id,
    /// each with an id that was handed out and a positive amount.
    pub fn bill_count(&self) -> (n: usize)
        ensures
            n == self.bills().len(),
            sorted(self.bills()),
            all_rows(self.bills(), bill_ok(self.next_bill_id())),
    {
        proof {
            use_type_invariant(self);
        }
        self.bills.len()
    }

    /// How many schedules there are. They are in increasing order of id, each
    /// with an id that was handed out.
    pub fn schedule_count(&self) -> (n: usize)
        ensures
            n == self.schedules().len(),
            sorted(self.schedules()),
            all_rows(self.schedules(), schedule_ok(self.next_schedule())),
    {
        proof {
            use_type_invariant(self);
        }
        self.schedules.len()
    }

    /// How many archived bills there are. They are in increasing order of id,
    /// each with an id that was handed out and a positive amount.
    pub fn archived_count(&self) -> (n: usize)
        ensures
            n == self.archived().len(),
            sorted(self.archived()),
            all_rows(self.archived(), archived_ok(self.next_bill_id())),
    {
        proof {
            use_type_invariant(self);
        }
        self.archived.len()
    }

    /// The last bill id handed out.
    pub fn last_bill_id(&self) -> (r: u32)
        ensures
            r == self.next_bill_id(),
    {
        self.next_id
    }

    /// Creates a bill of `owner`, due at `due_date`, and returns its id: one more
    /// than the last id handed out.
    pub fn create_bill(
        &mut self,
        owner: String,
        name: String,
        amount: i128,
        due_date: u64,
        recurring: bool,
        frequency_days: u32,
        now: u64,
    ) -> (r: Result<u32, Error>)
        requires
            amount > 0 && !(recurring && frequency_days == 0) ==> old(self).next_bill_id() < u32::MAX,
        ensures
            amount <= 0 ==> r == Err::<u32, Error>(Error::InvalidAmount),
            amount > 0 && recurring && frequency_days == 0 ==> r == Err::<u32, Error>(
                Error::InvalidFrequency,
            ),
            r is Ok <==> amount > 0 && !(recurring && frequency_days == 0),
            r is Err ==> *final(self) == *old(self),
            old(self).next_bill_id() <= final(self).next_bill_id(),
            r matches Ok(id) ==> {
                &&& id == old(self).next_bill_id() + 1
                &&& final(self).next_bill_id() == id
                &&& final(self).bills() == old(self).bills().push(
                    Bill {
                        id,
                        owner,
                        name,
                        amount,
                        due_date,
                        recurring,
                        frequency_days,
                        paid: false,
                        created_at: now,
                        paid_at: None,
                        schedule_id: None,
                    },
                )
                &&& final(self).same_besides_bills(old(self))
            },
    {
        if amount <= 0 {
            return Err(Error::InvalidAmount);
        }
        if recurring && frequency_days == 0 {
            return Err(Error::InvalidFrequency);
        }
        proof {
            use_type_invariant(&*self);
        }
        let next_id = self.next_id + 1;
        let bill = Bill {
            id: next_id,
            owner,
            name,
            amount,
            due_date,
            recurring,
            frequency_days,
            paid: false,
            created_at: now,
            paid_at: None,
            schedule_id: None,
        };
        let ghost old_rows = self.bills.rows();
        let mut bills = Table::new();
        std::mem::swap(&mut bills, &mut self.bills);
        proof {
            use_type_invariant(&bills);
            lemma_put(old_rows, bill);
            assert forall|j: int| 0 <= j < old_rows.len() implies key_at(old_rows, j) < bill.key_spec() by {
                assert(bill_ok(self.next_id)(old_rows[j]));
            }
            lemma_bill_ok_grows(old_rows, self.next_id, next_id);
            lemma_put_keeps(old_rows, bill, bill_ok(next_id));
        }
        bills.set(bill);
        proof {
            lemma_archived_ok_grows(self.archived.rows(), (next_id - 1) as u32, next_id);
        }
        self.next_id = next_id;
        self.bills = bills;
        Ok(next_id)
    }

    /// Marks bill `bill_id` paid at `now`, for its owner `caller`. A recurring bill
    /// is followed by a new unpaid bill under the next id, due `frequency_days`
    /// days after the paid one was due.
    pub fn pay_bill(&mut self, caller: &String, bill_id: u32, now: u64) -> (r: Result<(), Error>)
        requires
            pay_check(old(self).bills(), caller@, bill_id) matches Ok(b) ==> can_settle(
                b,
                old(self).next_bill_id(),
            ),
        ensures
            r is Err <==> pay_check(old(self).bills(), caller@, bill_id) is Err,
            pay_check(old(self).bills(), caller@, bill_id) matches Err(e) ==> r == Err::<(), Error>(e),
            r is Err ==> *final(self) == *old(self),
            old(self).next_bill_id() <= final(self).next_bill_id(),
            pay_check(old(self).bills(), caller@, bill_id) matches Ok(b) ==> {
                &&& (final(self).bills(), final(self).next_bill_id()) == settle(
                    old(self).bills(),
                    old(self).next_bill_id(),
                    b,
                    now,
                )
                &&& final(self).same_besides_bills(old(self))
            },
    {
        proof {
            use_type_invariant(&*self);
        }
        let bill = match self.bills.get(bill_id) {
            None => return Err(Error::BillNotFound),
            Some(b) => b,
        };
        if !(bill.owner == *caller) {
            return Err(Error::Unauthorized);
        }
        if bill.paid {
            return Err(Error::BillAlreadyPaid);
        }
        proof {
            use_type_invariant(&self.bills);
            lemma_lookup_some(self.bills.rows(), bill_id);
        }
        self.settle_bill(bill, now);
        Ok(())
    }

    /// The unpaid bills of `owner`, in increasing order of id.
    pub fn get_unpaid_bills(&self, owner: &String) -> (r: Vec<Bill>)
        ensures
            r@ == self.bills().filter(unpaid_of(owner@)),
    {
        self.bills.select(&BillQuery { owner: owner.clone(), unpaid_only: true, due_before: None })
    }

    /// The unpaid bills of `owner` that were due before `now`, in increasing order
    /// of id.
    pub fn get_overdue_bills(&self, owner: &String, now: u64) -> (r: Vec<Bill>)
        ensures
            r@ == self.bills().filter(overdue_of(owner@, now)),
    {
        self.bills.select(
            &BillQuery { owner: owner.clone(), unpaid_only: true, due_before: Some(now) },
        )
    }

    /// All active bills of `owner`, paid or not, in increasing order of id.
    pub fn get_all_bills_for_owner(&self, owner: &String) -> (r: Vec<Bill>)
        ensures
            r@ == self.bills().filter(owned_by(owner@)),
    {
        self.bills.select(&BillQuery { owner: owner.clone(), unpaid_only: false, due_before: None })
    }

    /// The sum of the amounts of the unpaid bills of `owner`.
    pub fn get_total_unpaid(&self, owner: &String) -> (total: i128)
        requires
            unpaid_total(self.bills(), owner@) <= i128::MAX,
        ensures
            total == unpaid_total(self.bills(), owner@),
    {
        proof {
            use_type_invariant(self);
        }
        let ghost rows = self.bills.rows();
        let n = self.bills.len();
        let mut total: i128 = 0;
        let mut i: usize = 0;
        while i < n
            invariant
                n == rows.len(),
                rows == self.bills.rows(),
                0 <= i <= n,
                all_rows(rows, bill_ok(self.next_id)),
                unpaid_total(rows, owner@) <= i128::MAX,
                total == unpaid_total(rows.take(i as int), owner@),
            decreases n - i,
        {
            proof {
                assert(rows.take(i + 1).drop_last() =~= rows.take(i as int));
                assert(bill_ok(self.next_id)(rows[i as int]));
                lemma_unpaid_total_prefix(rows, owner@, i + 1, self.next_id);
            }
            let b = self.bills.at(i);
            if !b.paid && b.owner == *owner {
                total = total + b.amount;
            }
            i = i + 1;
        }
        proof {
            assert(rows.take(n as int) =~= rows);
        }
        total
    }

    /// Removes bill `bill_id`, for its owner `caller`.
    pub fn cancel_bill(&mut self, caller: &String, bill_id: u32) -> (r: Result<(), Error>)
        ensures
            lookup(old(self).bills(), bill_id) is None ==> r == Err::<(), Error>(Error::BillNotFound),
            lookup(old(self).bills(), bill_id) matches Some(b) && b.owner@ != caller@ ==> r == Err::<
                (),
                Error,
            >(Error::Unauthorized),
            r is Ok <==> (lookup(old(self).bills(), bill_id) matches Some(b) && b.owner@ == caller@),
            r is Err ==> *final(self) == *old(self),
            r is Ok ==> {
                &&& final(self).bills() == drop_key(old(self).bills(), bill_id)
                &&& final(self).next_bill_id() == old(self).next_bill_id()
                &&& final(self).same_besides_bills(old(self))
            },
    {
        proof {
            use_type_invariant(&*self);
        }
        let bill = match self.bills.get(bill_id) {
            None => return Err(Error::BillNotFound),
            Some(b) => b,
        };
        if !(bill.owner == *caller) {
            return Err(Error::Unauthorized);
        }
        let ghost old_rows = self.bills.rows();
        let mut bills = Table::new();
        std::mem::swap(&mut bills, &mut self.bills);
        proof {
            use_type_invariant(&bills);
            lemma_drop_keeps(old_rows, bill_id, bill_ok(self.next_id));
        }
        bills.remove(bill_id);
        self.bills = bills;
        Ok(())
    }

    /// Every active bill, for the admin `caller` only.
    pub fn get_all_bills(&self, caller: &String) -> (r: Result<Vec<Bill>, Error>)
        ensures
            r is Ok <==> self.admin() == Some(caller@),
            r is Err ==> r == Err::<Vec<Bill>, Error>(Error::Unauthorized),
            r matches Ok(v) ==> v@ == self.bills(),
    {
        match &self.pause_admin {
            Some(admin) => {
                if *admin == *caller {
                    Ok(self.bills.to_vec())
                } else {
                    Err(Error::Unauthorized)
                }
            },
            None => Err(Error::Unauthorized),
        }
    }

    /// Sets the admin to `new_admin`. While there is none, an address may only make
    /// itself the admin; afterwards only the admin may hand the role on.
    pub fn set_pause_admin(&mut self, caller: &String, new_admin: String) -> (r: Result<(), Error>)
        ensures
            r is Ok <==> match old(self).admin() {
                None => caller@ == new_admin@,
                Some(a) => a == caller@,
            },
            r is Err ==> r == Err::<(), Error>(Error::Unauthorized) && *final(self) == *old(self),
            r is Ok ==> {
                &&& final(self).admin() == Some(new_admin@)
                &&& final(self).bills() == old(self).bills()
                &&& final(self).next_bill_id() == old(self).next_bill_id()
                &&& final(self).schedules() == old(self).schedules()
                &&& final(self).next_schedule() == old(self).next_schedule()
                &&& final(self).archived() == old(self).archived()
                &&& final(self).stored_stats() == old(self).stored_stats()
            },
    {
        proof {
            use_type_invariant(&*self);
        }
        let allowed = match &self.pause_admin {
            None => *caller == new_admin,
            Some(admin) => *admin == *caller,
        };
        if !allowed {
            return Err(Error::Unauthorized);
        }
        self.pause_admin = Some(new_admin);
        Ok(())
    }

    /// Moves every paid bill that was paid before `before_timestamp` to the
    /// archive, stamped `now`, records fresh statistics, and returns how many
    /// bills were moved.
    pub fn archive_paid_bills(&mut self, before_timestamp: u64, now: u64) -> (count: u32)
        ensures
            count == old(self).bills().filter(archivable(before_timestamp)).len(),
            final(self).bills() == old(self).bills().filter(kept_active(before_timestamp)),
            final(self).archived() == archive_all(
                old(self).archived(),
                old(self).bills().filter(archivable(before_timestamp)),
                now,
            ),
            final(self).stored_stats() == Some(stats_of(final(self).bills(), final(self).archived(), now)),
            final(self).next_bill_id() == old(self).next_bill_id(),
            final(self).schedules() == old(self).schedules(),
            final(self).next_schedule() == old(self).next_schedule(),
            final(self).admin() == old(self).admin(),
    {
        proof {
            use_type_invariant(&*self);
        }
        let ghost rows = self.bills.rows();
        let ghost moving = archivable(before_timestamp);
        let ghost staying = kept_active(before_timestamp);
        let ghost next_id = self.next_id;
        let n = self.bills.len();
        proof {
            assert forall|i: int| 0 <= i < rows.len() implies 1 <= #[trigger] key_at(rows, i) by {
                assert(bill_ok(next_id)(rows[i]));
            }
            crate::table::lemma_sorted_len(rows);
        }
        let mut archive = Table::new();
        std::mem::swap(&mut archive, &mut self.archived);
        let ghost old_archive = archive.rows();
        let mut kept: Vec<Bill> = Vec::new();
        let mut count: u32 = 0;
        for i in 0..n
            invariant
                n == rows.len(),
                n <= u32::MAX,
                rows == self.bills.rows(),
                next_id == self.next_id,
                all_rows(rows, bill_ok(next_id)),
                moving == archivable(before_timestamp),
                staying == kept_active(before_timestamp),
                kept@ == rows.take(i as int).filter(staying),
                count == rows.take(i as int).filter(moving).len(),
                archive.rows() == archive_all(old_archive, rows.take(i as int).filter(moving), now),
                all_rows(archive.rows(), archived_ok(next_id)),
        {
            proof {
                lemma_filter_step(rows, moving, i as int);
                lemma_filter_step(rows, staying, i as int);
                crate::table::lemma_filter_len(rows.take(i as int), moving);
                assert(bill_ok(next_id)(rows[i as int]));
            }
            let b = self.bills.at(i);
            let paid_before = match b.paid_at {
                Some(t) => t < before_timestamp,
                None => false,
            };
            if b.paid && paid_before {
                let entry = ArchivedBill { bill: b.duplicate(), archived_at: now };
                proof {
                    use_type_invariant(&archive);
                    lemma_put_keeps(archive.rows(), entry, archived_ok(next_id));
                    let moved = rows.take(i + 1).filter(moving);
                    assert(moved.drop_last() == rows.take(i as int).filter(moving));
                }
                archive.set(entry);
                count = count + 1;
            } else {
                kept.push(b.duplicate());
            }
        }
        proof {
            assert(rows.take(n as int) =~= rows);
            crate::table::lemma_filter_sorted(rows, staying);
            crate::table::lemma_filter_keeps(rows, staying, bill_ok(next_id));
        }
        self.archived = archive;
        self.bills = Table::from_sorted(kept);
        self.record_stats(now);
        count
    }

    /// The archived bills of `owner`, in increasing order of id.
    pub fn get_archived_bills(&self, owner: &String) -> (r: Vec<ArchivedBill>)
        ensures
            r@ == self.archived().filter(archived_of(owner@)),
    {
        self.archived.select(&ArchiveQuery { owner: owner.clone() })
    }

    /// The archived bill `bill_id`, if there is one.
    pub fn get_archived_bill(&self, bill_id: u32) -> (r: Option<ArchivedBill>)
        ensures
            r == lookup(self.archived(), bill_id),
    {
        self.archived.get(bill_id)
    }

    /// Moves archived bill `bill_id` back to the active bills, for its owner
    /// `caller`, and records fresh statistics taken at `now`.
    pub fn restore_bill(&mut self, caller: &String, bill_id: u32, now: u64) -> (r: Result<(), Error>)
        ensures
            lookup(old(self).archived(), bill_id) is None ==> r == Err::<(), Error>(Error::BillNotFound),
            lookup(old(self).archived(), bill_id) matches Some(a) && a.bill.owner@ != caller@ ==> r
                == Err::<(), Error>(Error::Unauthorized),
            r is Ok <==> (lookup(old(self).archived(), bill_id) matches Some(a) && a.bill.owner@
                == caller@),
            r is Err ==> *final(self) == *old(self),
            r is Ok ==> (lookup(old(self).archived(), bill_id) matches Some(a) && {
                &&& final(self).bills() == put(old(self).bills(), a.bill)
                &&& final(self).archived() == drop_key(old(self).archived(), bill_id)
                &&& final(self).stored_stats() == Some(stats_of(final(self).bills(), final(self).archived(), now))
                &&& final(self).next_bill_id() == old(self).next_bill_id()
                &&& final(self).schedules() == old(self).schedules()
                &&& final(self).next_schedule() == old(self).next_schedule()
                &&& final(self).admin() == old(self).admin()
            }),
    {
        proof {
            use_type_invariant(&*self);
        }
        let entry = match self.archived.get(bill_id) {
            None => return Err(Error::BillNotFound),
            Some(a) => a,
        };
        if !(entry.bill.owner == *caller) {
            return Err(Error::Unauthorized);
        }
        let ghost next_id = self.next_id;
        proof {
            use_type_invariant(&self.archived);
            lemma_lookup_some(self.archived.rows(), bill_id);
        }
        let mut archive = Table::new();
        std::mem::swap(&mut archive, &mut self.archived);
        let mut bills = Table::new();
        std::mem::swap(&mut bills, &mut self.bills);
        proof {
            use_type_invariant(&bills);
            assert(archived_ok(next_id)(entry));
            lemma_put_keeps(bills.rows(), entry.bill, bill_ok(next_id));
            lemma_drop_keeps(archive.rows(), bill_id, archived_ok(next_id));
        }
        bills.set(entry.bill);
        archive.remove(bill_id);
        self.bills = bills;
        self.archived = archive;
        self.record_stats(now);
        Ok(())
    }

    /// Deletes every archive entry made before `before_timestamp`, records fresh
    /// statistics taken at `now`, and returns how many entries were deleted.
    pub fn bulk_cleanup_bills(&mut self, before_timestamp: u64, now: u64) -> (count: u32)
        ensures
            count == old(self).archived().filter(archived_before(before_timestamp)).len(),
            final(self).archived() == old(self).archived().filter(archived_since(before_timestamp)),
            final(self).stored_stats() == Some(stats_of(final(self).bills(), final(self).archived(), now)),
            final(self).bills() == old(self).bills(),
            final(self).next_bill_id() == old(self).next_bill_id(),
            final(self).schedules() == old(self).schedules(),
            final(self).next_schedule() == old(self).next_schedule(),
            final(self).admin() == old(self).admin(),
    {
        proof {
            use_type_invariant(&*self);
        }
        let ghost rows = self.archived.rows();
        let ghost going = archived_before(before_timestamp);
        let ghost staying = archived_since(before_timestamp);
        let ghost next_id = self.next_id;
        let n = self.archived.len();
        proof {
            assert forall|i: int| 0 <= i < rows.len() implies 1 <= #[trigger] key_at(rows, i) by {
                assert(archived_ok(next_id)(rows[i]));
            }
            crate::table::lemma_sorted_len(rows);
        }
        let mut kept: Vec<ArchivedBill> = Vec::new();
        let mut count: u32 = 0;
        for i in 0..n
            invariant
                n == rows.len(),
                n <= u32::MAX,
                rows == self.archived.rows(),
                going == archived_before(before_timestamp),
                staying == archived_since(before_timestamp),
                kept@ == rows.take(i as int).filter(staying),
                count == rows.take(i as int).filter(going).len(),
        {
            proof {
                lemma_filter_step(rows, going, i as int);
                lemma_filter_step(rows, staying, i as int);
                crate::table::lemma_filter_len(rows.take(i as int), going);
            }
            let a = self.archived.at(i);
            if a.archived_at < before_timestamp {
                count = count + 1;
            } else {
                kept.push(a.duplicate());
            }
        }
        proof {
            assert(rows.take(n as int) =~= rows);
            crate::table::lemma_filter_sorted(rows, staying);
            crate::table::lemma_filter_keeps(rows, staying, archived_ok(next_id));
        }
        self.archived = Table::from_sorted(kept);
        self.record_stats(now);
        count
    }

    /// The statistics last recorded, or zeros when none were.
    pub fn get_storage_stats(&self) -> (r: StorageStats)
        ensures
            r == match self.stored_stats() {
                Some(st) => st,
                None => StorageStats {
                    active_bills: 0,
                    archived_bills: 0,
                    total_active_amount: 0,
                    total_archived_amount: 0,
                    last_updated: 0,
                },
            },
    {
        match self.stats {
            Some(st) => st,
            None => StorageStats {
                active_bills: 0,
                archived_bills: 0,
                total_active_amount: 0,
                total_archived_amount: 0,
                last_updated: 0,
            },
        }
    }

    /// Records the statistics of the current bills and archive, taken at `now`.
    fn record_stats(&mut self, now: u64)
        ensures
            final(self).stored_stats() == Some(stats_of(old(self).bills(), old(self).archived(), now)),
            final(self).bills() == old(self).bills(),
            final(self).archived() == old(self).archived(),
            final(self).next_bill_id() == old(self).next_bill_id(),
            final(self).schedules() == old(self).schedules(),
            final(self).next_schedule() == old(self).next_schedule(),
            final(self).admin() == old(self).admin(),
    {
        proof {
            use_type_invariant(&*self);
        }
        let ghost rows = self.bills.rows();
        let ghost arows = self.archived.rows();
        let ghost next_id = self.next_id;
        let n = self.bills.len();
        let m = self.archived.len();
        proof {
            assert forall|i: int| 0 <= i < rows.len() implies 1 <= #[trigger] key_at(rows, i) by {
                assert(bill_ok(next_id)(rows[i]));
            }
            crate::table::lemma_sorted_len(rows);
            assert forall|i: int| 0 <= i < arows.len() implies 1 <= #[trigger] key_at(arows, i) by {
                assert(archived_ok(next_id)(arows[i]));
            }
            crate::table::lemma_sorted_len(arows);
        }
        let mut active_amount: i128 = 0;
        for i in 0..n
            invariant
                n == rows.len(),
                rows == self.bills.rows(),
                active_amount == bills_amount(rows.take(i as int)),
        {
            proof {
                assert(rows.take(i + 1).drop_last() =~= rows.take(i as int));
            }
            active_amount = saturating_sum(active_amount, self.bills.at(i).amount);
        }
        let mut archived_total: i128 = 0;
        for i in 0..m
            invariant
                m == arows.len(),
                arows == self.archived.rows(),
                archived_total == archived_amount(arows.take(i as int)),
        {
            proof {
                assert(arows.take(i + 1).drop_last() =~= arows.take(i as int));
            }
            archived_total = saturating_sum(archived_total, self.archived.at(i).bill.amount);
        }
        proof {
            assert(rows.take(n as int) =~= rows);
            assert(arows.take(m as int) =~= arows);
        }
        self.stats = Some(
            StorageStats {
                active_bills: n as u32,
                archived_bills: m as u32,
                total_active_amount: active_amount,
                total_archived_amount: archived_total,
                last_updated: now,
            },
        );
    }

    /// Creates a schedule of `owner` for bill `bill_id`, first due at `next_due`,
    /// again every `interval` seconds when `interval` is positive, links the bill to
    /// it, and returns its id: one more than the last schedule id handed out.
    pub fn create_schedule(
        &mut self,
        owner: &String,
        bill_id: u32,
        next_due: u64,
        interval: u64,
        now: u64,
    ) -> (r: Result<u32, Error>)
        requires
            schedule_check(old(self).bills(), owner@, bill_id, next_due, now) is None ==> old(
                self,
            ).next_schedule() < u32::MAX,
        ensures
            schedule_check(old(self).bills(), owner@, bill_id, next_due, now) matches Some(e) ==> r
                == Err::<u32, Error>(e),
            r is Ok <==> schedule_check(old(self).bills(), owner@, bill_id, next_due, now) is None,
            r is Err ==> *final(self) == *old(self),
            r matches Ok(id) ==> lookup(old(self).bills(), bill_id) matches Some(b) && {
                &&& id == old(self).next_schedule() + 1
                &&& final(self).next_schedule() == id
                &&& final(self).schedules() == old(self).schedules().push(
                    Schedule {
                        id,
                        owner: *owner,
                        next_due,
                        interval,
                        recurring: interval > 0,
                        active: true,
                        created_at: now,
                        last_executed: None,
                        missed_count: 0,
                    },
                )
                &&& final(self).bills() == put(
                    old(self).bills(),
                    Bill { schedule_id: Some(id), ..b },
                )
                &&& final(self).next_bill_id() == old(self).next_bill_id()
                &&& final(self).archived() == old(self).archived()
                &&& final(self).stored_stats() == old(self).stored_stats()
                &&& final(self).admin() == old(self).admin()
            },
    {
        proof {
            use_type_invariant(&*self);
        }
        let mut bill = match self.bills.get(bill_id) {
            None => return Err(Error::BillNotFound),
            Some(b) => b,
        };
        if !(bill.owner == *owner) {
            return Err(Error::Unauthorized);
        }
        if next_due <= now {
            return Err(Error::InvalidAmount);
        }
        let ghost b = bill;
        let ghost next_id = self.next_id;
        proof {
            use_type_invariant(&self.bills);
            lemma_lookup_some(self.bills.rows(), bill_id);
        }
        let next_schedule_id = self.next_schedule_id + 1;
        let schedule = Schedule {
            id: next_schedule_id,
            owner: owner.clone(),
            next_due,
            interval,
            recurring: interval > 0,
            active: true,
            created_at: now,
            last_executed: None,
            missed_count: 0,
        };
        bill.schedule_id = Some(next_schedule_id);
        let mut schedules = Table::new();
        std::mem::swap(&mut schedules, &mut self.schedules);
        proof {
            use_type_invariant(&schedules);
            let old_rows = schedules.rows();
            assert forall|j: int| 0 <= j < old_rows.len() implies key_at(old_rows, j)
                < schedule.key_spec() by {
                assert(schedule_ok(self.next_schedule_id)(old_rows[j]));
            }
            lemma_put(old_rows, schedule);
            assert forall|j: int| 0 <= j < old_rows.len() implies #[trigger] schedule_ok(
                next_schedule_id,
            )(old_rows[j]) by {
                assert(schedule_ok(self.next_schedule_id)(old_rows[j]));
            }
            lemma_put_keeps(old_rows, schedule, schedule_ok(next_schedule_id));
        }
        schedules.set(schedule);
        self.next_schedule_id = next_schedule_id;
        self.schedules = schedules;
        let mut bills = Table::new();
        std::mem::swap(&mut bills, &mut self.bills);
        proof {
            use_type_invariant(&bills);
            assert(bill_ok(next_id)(b));
            lemma_put_keeps(bills.rows(), bill, bill_ok(next_id));
        }
        bills.set(bill);
        self.bills = bills;
        Ok(next_schedule_id)
    }

    /// Moves schedule `schedule_id` of `caller` to `next_due` and `interval`; it
    /// recurs when `interval` is positive.
    pub fn modify_schedule(
        &mut self,
        caller: &String,
        schedule_id: u32,
        next_due: u64,
        interval: u64,
        now: u64,
    ) -> (r: Result<(), Error>)
        ensures
            schedule_owner_check(old(self).schedules(), caller@, schedule_id) matches Some(e) ==> r
                == Err::<(), Error>(e),
            schedule_owner_check(old(self).schedules(), caller@, schedule_id) is None && next_due
                <= now ==> r == Err::<(), Error>(Error::InvalidAmount),
            r is Ok <==> schedule_owner_check(old(self).schedules(), caller@, schedule_id) is None
                && next_due > now,
            r is Err ==> *final(self) == *old(self),
            r is Ok ==> (lookup(old(self).schedules(), schedule_id) matches Some(s) && {
                &&& final(self).schedules() == put(
                    old(self).schedules(),
                    Schedule { next_due, interval, recurring: interval > 0, ..s },
                )
                &&& final(self).bills() == old(self).bills()
                &&& final(self).next_bill_id() == old(self).next_bill_id()
                &&& final(self).next_schedule() == old(self).next_schedule()
                &&& final(self).archived() == old(self).archived()
                &&& final(self).stored_stats() == old(self).stored_stats()
                &&& final(self).admin() == old(self).admin()
            }),
    {
        proof {
            use_type_invariant(&*self);
        }
        let mut schedule = match self.schedules.get(schedule_id) {
            None => return Err(Error::BillNotFound),
            Some(s) => s,
        };
        if !(schedule.owner == *caller) {
            return Err(Error::Unauthorized);
        }
        if next_due <= now {
            return Err(Error::InvalidAmount);
        }
        proof {
            use_type_invariant(&self.schedules);
            lemma_lookup_some(self.schedules.rows(), schedule_id);
            assert(schedule_ok(self.next_schedule_id)(schedule));
        }
        schedule.next_due = next_due;
        schedule.interval = interval;
        schedule.recurring = interval > 0;
        self.store_schedule(schedule);
        Ok(())
    }

    /// Deactivates schedule `schedule_id` of `caller`.
    pub fn cancel_schedule(&mut self, caller: &String, schedule_id: u32) -> (r: Result<(), Error>)
        ensures
            schedule_owner_check(old(self).schedules(), caller@, schedule_id) matches Some(e) ==> r
                == Err::<(), Error>(e),
            r is Ok <==> schedule_owner_check(old(self).schedules(), caller@, schedule_id) is None,
            r is Err ==> *final(self) == *old(self),
            r is Ok ==> (lookup(old(self).schedules(), schedule_id) matches Some(s) && {
                &&& final(self).schedules() == put(old(self).schedules(), Schedule { active: false, ..s })
                &&& final(self).bills() == old(self).bills()
                &&& final(self).next_bill_id() == old(self).next_bill_id()
                &&& final(self).next_schedule() == old(self).next_schedule()
                &&& final(self).archived() == old(self).archived()
                &&& final(self).stored_stats() == old(self).stored_stats()
                &&& final(self).admin() == old(self).admin()
            }),
    {
        proof {
            use_type_invariant(&*self);
        }
        let mut schedule = match self.schedules.get(schedule_id) {
            None => return Err(Error::BillNotFound),
            Some(s) => s,
        };
        if !(schedule.owner == *caller) {
            return Err(Error::Unauthorized);
        }
        proof {
            use_type_invariant(&self.schedules);
            lemma_lookup_some(self.schedules.rows(), schedule_id);
            assert(schedule_ok(self.next_schedule_id)(schedule));
        }
        schedule.active = false;
        self.store_schedule(schedule);
        Ok(())
    }

    /// Stores a schedule whose id was handed out already.
    fn store_schedule(&mut self, schedule: Schedule)
        requires
            schedule_ok(old(self).next_schedule())(schedule),
        ensures
            final(self).schedules() == put(old(self).schedules(), schedule),
            final(self).bills() == old(self).bills(),
            final(self).next_bill_id() == old(self).next_bill_id(),
            final(self).next_schedule() == old(self).next_schedule(),
            final(self).archived() == old(self).archived(),
            final(self).stored_stats() == old(self).stored_stats(),
            final(self).admin() == old(self).admin(),
    {
        proof {
            use_type_invariant(&*self);
        }
        let mut schedules = Table::new();
        std::mem::swap(&mut schedules, &mut self.schedules);
        proof {
            use_type_invariant(&schedules);
            lemma_put_keeps(schedules.rows(), schedule, schedule_ok(self.next_schedule_id));
        }
        schedules.set(schedule);
        self.schedules = schedules;
    }

    /// The schedules of `owner`, in increasing order of id.
    pub fn get_schedules(&self, owner: &String) -> (r: Vec<Schedule>)
        ensures
            r@ == self.schedules().filter(schedule_of(owner@)),
    {
        self.schedules.select(&ScheduleQuery { owner: owner.clone() })
    }

    /// The schedule `schedule_id`, if there is one.
    pub fn get_schedule(&self, schedule_id: u32) -> (r: Option<Schedule>)
        ensures
            r == lookup(self.schedules(), schedule_id),
    {
        self.schedules.get(schedule_id)
    }

    /// The id of the first bill, in increasing order of id, that schedule
    /// `schedule_id` pays.
    pub fn find_bill_by_schedule(&self, schedule_id: u32) -> (r: Option<u32>)
        ensures
            r == match first_with_schedule(self.bills(), schedule_id) {
                Some(b) => Some(b.id),
                None => None,
            },
    {
        match self.first_bill_of_schedule(schedule_id) {
            Some(i) => Some(self.bills.at(i).id),
            None => None,
        }
    }

    /// The position of the first bill that schedule `schedule_id` pays.
    fn first_bill_of_schedule(&self, schedule_id: u32) -> (r: Option<usize>)
        ensures
            r matches Some(i) ==> i < self.bills().len() && first_with_schedule(self.bills(), schedule_id)
                == Some(self.bills()[i as int]),
            r is None ==> first_with_schedule(self.bills(), schedule_id) is None,
    {
        let ghost rows = self.bills.rows();
        let n = self.bills.len();
        let mut i: usize = 0;
        while i < n
            invariant
                n == rows.len(),
                rows == self.bills.rows(),
                0 <= i <= n,
                forall|j: int| 0 <= j < i ==> rows[j].schedule_id != Some(schedule_id),
            decreases n - i,
        {
            if self.bills.at(i).schedule_id == Some(schedule_id) {
                proof {
                    lemma_first_with_schedule(rows, schedule_id, i as int);
                }
                return Some(i);
            }
            i = i + 1;
        }
        proof {
            lemma_no_schedule(rows, schedule_id);
        }
        None
    }

    /// The state the due schedules are run from.
    pub open spec fn initial_run(&self) -> RunState {
        RunState {
            bills: self.bills(),
            next_id: self.next_bill_id(),
            schedules: self.schedules(),
            executed: Seq::empty(),
        }
    }

    /// Runs every due schedule at `now`, in increasing order of id: the first bill
    /// each pays is paid when it is unpaid, each advances, and the ids of the
    /// schedules that ran are returned in that order.
    pub fn execute_due_schedules(&mut self, now: u64) -> (executed: Vec<u32>)
        requires
            run_fits(old(self).initial_run(), old(self).schedules(), now),
        ensures
            ({
                let st = run(old(self).initial_run(), old(self).schedules(), now);
                &&& executed@ == st.executed
                &&& final(self).bills() == st.bills
                &&& final(self).next_bill_id() == st.next_id
                &&& final(self).schedules() == st.schedules
            }),
            old(self).next_bill_id() <= final(self).next_bill_id(),
            final(self).next_schedule() == old(self).next_schedule(),
            final(self).archived() == old(self).archived(),
            final(self).stored_stats() == old(self).stored_stats(),
            final(self).admin() == old(self).admin(),
    {
        match self.try_execute_due_schedules(now) {
            Some(executed) => executed,
            None => Vec::new(),
        }
    }

    /// Runs every due schedule at `now` as `execute_due_schedules` does, when
    /// every step stays within the machine's integers; otherwise changes nothing
    /// and returns `None`.
    pub fn try_execute_due_schedules(&mut self, now: u64) -> (r: Option<Vec<u32>>)
        ensures
            r is Some <==> run_fits(old(self).initial_run(), old(self).schedules(), now),
            r matches Some(executed) ==> ({
                let st = run(old(self).initial_run(), old(self).schedules(), now);
                &&& executed@ == st.executed
                &&& final(self).bills() == st.bills
                &&& final(self).next_bill_id() == st.next_id
                &&& final(self).schedules() == st.schedules
            }),
            r is None ==> {
                &&& final(self).bills() == old(self).bills()
                &&& final(self).next_bill_id() == old(self).next_bill_id()
                &&& final(self).schedules() == old(self).schedules()
            },
            old(self).next_bill_id() <= final(self).next_bill_id(),
            final(self).next_schedule() == old(self).next_schedule(),
            final(self).archived() == old(self).archived(),
            final(self).stored_stats() == old(self).stored_stats(),
            final(self).admin() == old(self).admin(),
    {
        proof {
            use_type_invariant(&*self);
        }
        let ghost init = self.initial_run();
        let ghost nsid = self.next_schedule_id;
        let ghost old_archived = self.archived();
        let ghost old_stats = self.stored_stats();
        let ghost old_admin = self.admin();
        proof {
            use_type_invariant(&self.bills);
            use_type_invariant(&self.schedules);
        }
        let saved_bills = self.bills.to_vec();
        let saved_next = self.next_id;
        let snapshot = self.schedules.to_vec();
        let ghost rows = snapshot@;
        let n = snapshot.len();
        let mut schedules = Table::new();
        std::mem::swap(&mut schedules, &mut self.schedules);
        let mut executed: Vec<u32> = Vec::new();
        proof {
            assert(rows.take(0) =~= Seq::<Schedule>::empty());
        }
        for i in 0..n
            invariant
                n == rows.len(),
                snapshot@ == rows,
                rows == init.schedules,
                sorted(rows),
                saved_bills@ == init.bills,
                saved_next == init.next_id,
                init == old(self).initial_run(),
                nsid == old(self).next_schedule(),
                old_archived == old(self).archived(),
                old_stats == old(self).stored_stats(),
                old_admin == old(self).admin(),
                sorted(init.bills),
                all_rows(init.bills, bill_ok(init.next_id)),
                all_rows(old_archived, archived_ok(init.next_id)),
                run_fits(init, rows.take(i as int), now),
                all_rows(rows, schedule_ok(nsid)),
                all_rows(schedules.rows(), schedule_ok(nsid)),
                self.bills() == run(init, rows.take(i as int), now).bills,
                self.next_bill_id() == run(init, rows.take(i as int), now).next_id,
                schedules.rows() == run(init, rows.take(i as int), now).schedules,
                executed@ == run(init, rows.take(i as int), now).executed,
                self.schedules() == Seq::<Schedule>::empty(),
                self.next_schedule() == nsid,
                self.archived() == old_archived,
                self.stored_stats() == old_stats,
                self.admin() == old_admin,
        {
            let ghost before = run(init, rows.take(i as int), now);
            proof {
                assert(rows.take(i + 1).drop_last() =~= rows.take(i as int));
                assert(rows.take(i + 1).last() == rows[i as int]);
                assert(schedule_ok(nsid)(rows[i as int]));
            }
            let s = &snapshot[i];
            if s.active && s.next_due <= now {
                let found = self.first_bill_of_schedule(s.id);
                let bill_fits = match found {
                    Some(pos) => {
                        let b = self.bills.at(pos);
                        b.paid || settle_fits(b, self.next_id)
                    },
                    None => true,
                };
                if !bill_fits || !advance_fits(s, now) {
                    proof {
                        assert(!step_fits(before, rows[i as int], now));
                        assert(!run_fits(init, rows.take(i + 1), now));
                        if run_fits(init, rows, now) {
                            lemma_run_fits_prefix(init, rows, i + 1, now);
                        }
                        use_type_invariant(&*self);
                    }
                    self.bills = Table::new();
                    self.next_id = saved_next;
                    self.bills = Table::from_sorted(saved_bills);
                    self.schedules = Table::from_sorted(snapshot);
                    return None;
                }
                proof {
                    assert(step_fits(before, rows[i as int], now));
                }
                match found {
                    Some(pos) => {
                        let b = self.bills.at(pos).duplicate();
                        if !b.paid {
                            proof {
                                use_type_invariant(&self.bills);
                                crate::table::lemma_lookup_at(self.bills.rows(), pos as int);
                            }
                            self.settle_bill(b, now);
                        }
                    },
                    None => {},
                }
                let updated = advance_schedule(s, now);
                proof {
                    use_type_invariant(&schedules);
                    lemma_put_keeps(schedules.rows(), updated, schedule_ok(nsid));
                }
                schedules.set(updated);
                executed.push(s.id);
            }
        }
        proof {
            assert(rows.take(n as int) =~= rows);
            lemma_run_raises_ids(init, rows, now);
            use_type_invariant(&*self);
        }
        self.schedules = schedules;
        Some(executed)
    }

    /// Pays `bill`, one of the stored unpaid bills, at `now`.
    fn settle_bill(&mut self, bill: Bill, now: u64)
        requires
            has_key(old(self).bills(), bill.id),
            lookup(old(self).bills(), bill.id) == Some(bill),
            can_settle(bill, old(self).next_bill_id()),
        ensures
            (final(self).bills(), final(self).next_bill_id()) == settle(
                old(self).bills(),
                old(self).next_bill_id(),
                bill,
                now,
            ),
            final(self).same_besides_bills(old(self)),
    {
        proof {
            use_type_invariant(&*self);
        }
        let ghost old_rows = self.bills.rows();
        let ghost old_next = self.next_id;
        proof {
            use_type_invariant(&self.bills);
            lemma_lookup_some(old_rows, bill.id);
        }
        let mut bills = Table::new();
        std::mem::swap(&mut bills, &mut self.bills);
        let paid = Bill {
            id: bill.id,
            owner: bill.owner.clone(),
            name: bill.name.clone(),
            amount: bill.amount,
            due_date: bill.due_date,
            recurring: bill.recurring,
            frequency_days: bill.frequency_days,
            paid: true,
            created_at: bill.created_at,
            paid_at: Some(now),
            schedule_id: bill.schedule_id,
        };
        let ghost b = bill;
        assert(bill_ok(old_next)(b));
        if bill.recurring {
            let next_due_date = bill.due_date + (bill.frequency_days as u64 * 86400);
            let next_id = self.next_id + 1;
            let next_bill = Bill {
                id: next_id,
                owner: bill.owner,
                name: bill.name,
                amount: bill.amount,
                due_date: next_due_date,
                recurring: true,
                frequency_days: bill.frequency_days,
                paid: false,
                created_at: now,
                paid_at: None,
                schedule_id: bill.schedule_id,
            };
            proof {
                lemma_bill_ok_grows(old_rows, old_next, next_id);
                lemma_put_keeps(old_rows, next_bill, bill_ok(next_id));
                lemma_put(old_rows, next_bill);
            }
            bills.set(next_bill);
            proof {
                lemma_put_keeps(bills.rows(), paid, bill_ok(next_id));
            }
            bills.set(paid);
            proof {
                lemma_archived_ok_grows(self.archived.rows(), old_next, next_id);
            }
            self.next_id = next_id;
        } else {
            proof {
                lemma_put_keeps(old_rows, paid, bill_ok(old_next));
            }
            bills.set(paid);
        }
        self.bills = bills;
    }

    /// The bill `bill_id`, if it is active.
    pub fn get_bill(&self, bill_id: u32) -> (r: Option<Bill>)
        ensures
            r == lookup(self.bills(), bill_id),
    {
        self.bills.get(bill_id)
    }

}

/// Partial sums of the unpaid amounts of an owner grow toward the full sum.
proof fn lemma_unpaid_total_prefix(s: Seq<Bill>, owner: Seq<char>, i: int, next_id: u32)
    requires
        all_rows(s, bill_ok(next_id)),
        0 <= i <= s.len(),
    ensures
        0 <= unpaid_total(s.take(i), owner) <= unpaid_total(s, owner),
    decreases s.len(),
{
    if i == s.len() {
        assert(s.take(i) =~= s);
        lemma_unpaid_total_nonneg(s, owner, next_id);
    } else {
        let t = s.drop_last();
        assert(all_rows(t, bill_ok(next_id))) by {
            assert forall|j: int| 0 <= j < t.len() implies #[trigger] bill_ok(next_id)(t[j]) by {
                assert(t[j] == s[j]);
            }
        }
        assert(t.take(i) =~= s.take(i));
        lemma_unpaid_total_prefix(t, owner, i, next_id);
        assert(bill_ok(next_id)(s[s.len() - 1]));
    }
}

proof fn lemma_unpaid_total_nonneg(s: Seq<Bill>, owner: Seq<char>, next_id: u32)
    requires
        all_rows(s, bill_ok(next_id)),
    ensures
        0 <= unpaid_total(s, owner),
    decreases s.len(),
{
    if s.len() > 0 {
        let t = s.drop_last();
        assert(all_rows(t, bill_ok(next_id))) by {
            assert forall|j: int| 0 <= j < t.len() implies #[trigger] bill_ok(next_id)(t[j]) by {
                assert(t[j] == s[j]);
            }
        }
        lemma_unpaid_total_nonneg(t, owner, next_id);
        assert(bill_ok(next_id)(s[s.len() - 1]));
    }
}

/// Schedule `s`, due at `now`, after it ran.
fn advance_schedule(s: &Schedule, now: u64) -> (r: Schedule)
    requires
        is_due(*s, now),
        s.recurring && s.interval > 0 ==> {
            let m = missed_periods(*s, now);
            &&& s.next_due + (m + 1) * s.interval <= u64::MAX
            &&& m <= u32::MAX
            &&& s.missed_count + m <= u32::MAX
        },
    ensures
        r == advanced(*s, now),
{
    let mut r = s.duplicate();
    r.last_executed = Some(now);
    if s.recurring && s.interval > 0 {
        let ghost m = missed_periods(*s, now);
        let ghost x: int = now - s.next_due;
        let ghost d: int = s.interval as int;
        proof {
            lemma_periods(x, d, m);
        }
        let mut missed: u32 = 0;
        let mut next: u64 = s.next_due + s.interval;
        while next <= now
            invariant
                s.recurring && s.interval > 0,
                x == now - s.next_due,
                d == s.interval,
                m == x / d,
                m * d <= x < (m + 1) * d,
                s.next_due + (m + 1) * d <= u64::MAX,
                m <= u32::MAX,
                0 <= missed <= m,
                next == s.next_due + (missed + 1) * d,
            decreases m - missed,
        {
            proof {
                lemma_step_within(x, d, m, missed as int);
            }
            missed = missed + 1;
            next = next + s.interval;
        }
        proof {
            lemma_step_past(x, d, m, missed as int);
        }
        r.missed_count = s.missed_count + missed;
        r.next_due = next;
    } else {
        r.active = false;
    }
    r
}

/// Whether paying `b` stays within the machine's integers.
fn settle_fits(b: &Bill, next_id: u32) -> (r: bool)
    ensures
        r == can_settle(*b, next_id),
{
    if !b.recurring {
        return true;
    }
    let step: u64 = b.frequency_days as u64 * 86400;
    b.due_date.checked_add(step).is_some() && next_id < u32::MAX
}

/// Whether advancing the due schedule `s` at `now` stays within the machine's
/// integers.
fn advance_fits(s: &Schedule, now: u64) -> (r: bool)
    requires
        is_due(*s, now),
    ensures
        r == (s.recurring && s.interval > 0 ==> {
            let m = missed_periods(*s, now);
            &&& s.next_due + (m + 1) * s.interval <= u64::MAX
            &&& m <= u32::MAX
            &&& s.missed_count + m <= u32::MAX
        }),
{
    if !(s.recurring && s.interval > 0) {
        return true;
    }
    let m: u64 = (now - s.next_due) / s.interval;
    let ghost gm = missed_periods(*s, now);
    assert(m == gm);
    if m > u32::MAX as u64 {
        return false;
    }
    if s.missed_count as u64 + m > u32::MAX as u64 {
        return false;
    }
    match (m + 1).checked_mul(s.interval) {
        None => false,
        Some(span) => s.next_due.checked_add(span).is_some(),
    }
}

/// The whole periods of length `d` in `x`.
proof fn lemma_periods(x: int, d: int, m: int)
    requires
        x >= 0,
        d > 0,
        m == x / d,
    ensures
        m >= 0,
        m * d <= x < (m + 1) * d,
        (m + 1) * d >= d,
{
    vstd::arithmetic::div_mod::lemma_fundamental_div_mod(x, d);
    assert(0 <= x % d < d);
    assert(m * d == d * m) by (nonlinear_arith);
    assert((m + 1) * d == m * d + d) by (nonlinear_arith);
    assert(m >= 0) by (nonlinear_arith)
        requires
            x >= 0,
            d > 0,
            m == x / d,
    ;
    assert((m + 1) * d >= d) by (nonlinear_arith)
        requires
            m >= 0,
            d > 0,
    ;
}

/// While one more period still fits in `x`, the count stays below `m` and the
/// next boundary stays within the last one.
proof fn lemma_step_within(x: int, d: int, m: int, k: int)
    requires
        d > 0,
        0 <= k <= m,
        m * d <= x < (m + 1) * d,
        (k + 1) * d <= x,
    ensures
        k + 1 <= m,
        (k + 2) * d <= (m + 1) * d,
        (k + 2) * d == (k + 1) * d + d,
{
    assert((k + 2) * d == (k + 1) * d + d) by (nonlinear_arith);
    if k + 1 > m {
        assert((k + 1) * d >= (m + 1) * d) by (nonlinear_arith)
            requires
                k + 1 >= m + 1,
                d > 0,
        ;
    }
    assert((k + 2) * d <= (m + 1) * d) by (nonlinear_arith)
        requires
            k + 2 <= m + 1,
            d > 0,
    ;
}

/// Once a boundary lies past `x`, the count is `m`.
proof fn lemma_step_past(x: int, d: int, m: int, k: int)
    requires
        d > 0,
        0 <= k <= m,
        m * d <= x < (m + 1) * d,
        (k + 1) * d > x,
    ensures
        k == m,
{
    if k < m {
        assert((k + 1) * d <= m * d) by (nonlinear_arith)
            requires
                k + 1 <= m,
                d > 0,
        ;
    }
}

/// The run of a prefix of the schedules stays within the machine's integers when
/// the run of all of them does.
proof fn lemma_run_fits_prefix(st: RunState, rows: Seq<Schedule>, k: int, now: u64)
    requires
        run_fits(st, rows, now),
        0 <= k <= rows.len(),
    ensures
        run_fits(st, rows.take(k), now),
    decreases rows.len(),
{
    if k == rows.len() {
        assert(rows.take(k) =~= rows);
    } else {
        let t = rows.drop_last();
        assert(t.take(k) =~= rows.take(k));
        lemma_run_fits_prefix(st, t, k, now);
    }
}

proof fn lemma_first_with_schedule(s: Seq<Bill>, schedule_id: u32, i: int)
    requires
        0 <= i < s.len(),
        forall|j: int| 0 <= j < i ==> s[j].schedule_id != Some(schedule_id),
        s[i].schedule_id == Some(schedule_id),
    ensures
        first_with_schedule(s, schedule_id) == Some(s[i]),
    decreases i,
{
    if i > 0 {
        let t = s.drop_first();
        assert forall|j: int| 0 <= j < i - 1 implies t[j].schedule_id != Some(schedule_id) by {
            assert(t[j] == s[j + 1]);
        }
        lemma_first_with_schedule(t, schedule_id, i - 1);
    }
}

proof fn lemma_no_schedule(s: Seq<Bill>, schedule_id: u32)
    requires
        forall|j: int| 0 <= j < s.len() ==> s[j].schedule_id != Some(schedule_id),
    ensures
        first_with_schedule(s, schedule_id) is None,
    decreases s.len(),
{
    if s.len() > 0 {
        let t = s.drop_first();
        assert forall|j: int| 0 <= j < t.len() implies t[j].schedule_id != Some(schedule_id) by {
            assert(t[j] == s[j + 1]);
        }
        lemma_no_schedule(t, schedule_id);
    }
}

/// Raising the id bound keeps the bills within it.
proof fn lemma_bill_ok_grows(s: Seq<Bill>, a: u32, b: u32)
    requires
        all_rows(s, bill_ok(a)),
        a <= b,
    ensures
        all_rows(s, bill_ok(b)),
{
    assert forall|i: int| 0 <= i < s.len() implies #[trigger] bill_ok(b)(s[i]) by {
        assert(bill_ok(a)(s[i]));
    }
}

proof fn lemma_archived_ok_grows(s: Seq<ArchivedBill>, a: u32, b: u32)
    requires
        all_rows(s, archived_ok(a)),
        a <= b,
    ensures
        all_rows(s, archived_ok(b)),
{
    assert forall|i: int| 0 <= i < s.len() implies #[trigger] archived_ok(b)(s[i]) by {
        assert(archived_ok(a)(s[i]));
    }
}


// ----- laws -----

/// Archiving splits the bills in two without losing any: those moved were all
/// paid before the cut-off, and none of those kept was.
pub proof fn lemma_bill_archive_partition(bills: Seq<Bill>, before: u64)
    ensures
        bills.filter(archivable(before)).len() + bills.filter(kept_active(before)).len() == bills.len(),
        forall|i: int|
            0 <= i < bills.filter(archivable(before)).len() ==> #[trigger] archivable(before)(
                bills.filter(archivable(before))[i],
            ),
        forall|i: int|
            0 <= i < bills.filter(kept_active(before)).len() ==> !archivable(before)(
                #[trigger] bills.filter(kept_active(before))[i],
            ),
{
    crate::table::lemma_filter_partition(bills, archivable(before), kept_active(before));
    let moved = bills.filter(archivable(before));
    let kept = bills.filter(kept_active(before));
    assert forall|i: int| 0 <= i < moved.len() implies #[trigger] archivable(before)(moved[i]) by {
        bills.lemma_filter_pred(archivable(before), i);
    }
    assert forall|i: int| 0 <= i < kept.len() implies !archivable(before)(#[trigger] kept[i]) by {
        bills.lemma_filter_pred(kept_active(before), i);
    }
}

/// An archived bill is found in the archive under its id, so its owner can
/// restore it, and what is restored is the bill exactly as it was archived.
pub proof fn lemma_bill_archive_then_restore(archived: Seq<ArchivedBill>, b: Bill, archived_at: u64)
    requires
        crate::table::sorted(archived),
    ensures
        lookup(put(archived, ArchivedBill { bill: b, archived_at }), b.id) == Some(
            ArchivedBill { bill: b, archived_at },
        ),
{
    lemma_put(archived, ArchivedBill { bill: b, archived_at });
}

/// A bill that was paid cannot be paid again: the second request is refused
/// as already paid.
pub proof fn lemma_no_double_payment(
    bills: Seq<Bill>,
    next_id: u32,
    caller: Seq<char>,
    bill_id: u32,
    b: Bill,
    now: u64,
)
    requires
        crate::table::sorted(bills),
        pay_check(bills, caller, bill_id) == Ok::<Bill, Error>(b),
    ensures
        pay_check(settle(bills, next_id, b, now).0, caller, bill_id) == Err::<Bill, Error>(
            Error::BillAlreadyPaid,
        ),
{
    lemma_lookup_some(bills, bill_id);
    if b.recurring {
        let f = following_bill(b, (next_id + 1) as u32, now);
        lemma_put(bills, f);
        lemma_put(put(bills, f), paid_copy(b, now));
        assert(lookup(settle(bills, next_id, b, now).0, bill_id) == Some(paid_copy(b, now)));
    } else {
        lemma_put(bills, paid_copy(b, now));
        assert(lookup(settle(bills, next_id, b, now).0, bill_id) == Some(paid_copy(b, now)));
    }
}

/// Paying a recurring bill adds exactly one bill: an unpaid one under the next
/// id, for the same owner, name and amount, due `frequency_days` days after the
/// paid bill was due.
pub proof fn lemma_recurring_payment(bills: Seq<Bill>, next_id: u32, b: Bill, now: u64)
    requires
        crate::table::sorted(bills),
        crate::table::keys_within(bills, next_id),
        lookup(bills, b.id) == Some(b),
        b.recurring,
        can_settle(b, next_id),
    ensures
        settle(bills, next_id, b, now).1 == next_id + 1,
        lookup(settle(bills, next_id, b, now).0, (next_id + 1) as u32) == Some(
            following_bill(b, (next_id + 1) as u32, now),
        ),
        following_bill(b, (next_id + 1) as u32, now).due_date == b.due_date + b.frequency_days * 86400,
        !following_bill(b, (next_id + 1) as u32, now).paid,
        settle(bills, next_id, b, now).0.len() == bills.len() + 1,
{
    lemma_lookup_some(bills, b.id);
    let f = following_bill(b, (next_id + 1) as u32, now);
    let i = choose|i: int| 0 <= i < bills.len() && key_at(bills, i) == b.id && lookup(bills, b.id) == Some(bills[i]);
    assert(1 <= key_at(bills, i) <= next_id);
    if crate::table::has_key(bills, (next_id + 1) as u32) {
        let c = choose|c: int| 0 <= c < bills.len() && key_at(bills, c) == (next_id + 1) as u32;
        assert(1 <= key_at(bills, c) <= next_id);
    }
    lemma_put(bills, f);
    lemma_put(put(bills, f), paid_copy(b, now));
    assert(crate::table::has_key(put(bills, f), b.id)) by {
        assert(lookup(put(bills, f), b.id) is Some);
    }
}

/// A recurring schedule that ran at `now` is due again after `now`, and no more
/// than one interval after it.
pub proof fn lemma_schedule_moves_past(s: Schedule, now: u64)
    requires
        is_due(s, now),
        s.recurring,
        s.interval > 0,
        s.next_due + (missed_periods(s, now) + 1) * s.interval <= u64::MAX,
    ensures
        now < advanced(s, now).next_due <= now + s.interval,
        advanced(s, now).last_executed == Some(now),
{
    let x = now - s.next_due;
    let d = s.interval as int;
    let m = missed_periods(s, now);
    lemma_periods(x, d, m);
    assert((m + 1) * d == m * d + d) by (nonlinear_arith);
    assert(s.next_due + (m + 1) * d > now);
    assert(s.next_due + (m + 1) * d <= now + d);
}

/// A schedule that does not recur is switched off once it ran, so it is never
/// due again.
pub proof fn lemma_one_shot_schedule(s: Schedule, now: u64, later: u64)
    requires
        is_due(s, now),
        !(s.recurring && s.interval > 0),
    ensures
        !is_due(advanced(s, now), later),
{
}


/// The amounts of the bills, added up.
pub open spec fn amount_sum(s: Seq<Bill>) -> int
    decreases s.len(),
{
    if s.len() == 0 {
        0
    } else {
        amount_sum(s.drop_last()) + s.last().amount
    }
}

/// The unpaid total of an owner is the sum of the amounts of the unpaid bills
/// that `get_unpaid_bills` lists.
pub proof fn lemma_total_unpaid_is_sum_of_unpaid(bills: Seq<Bill>, owner: Seq<char>)
    ensures
        unpaid_total(bills, owner) == amount_sum(bills.filter(unpaid_of(owner))),
    decreases bills.len(),
{
    reveal_with_fuel(Seq::filter, 1);
    if bills.len() > 0 {
        let t = bills.drop_last();
        lemma_total_unpaid_is_sum_of_unpaid(t, owner);
        if unpaid_of(owner)(bills.last()) {
            assert(bills.filter(unpaid_of(owner)).drop_last() =~= t.filter(unpaid_of(owner)));
        }
    }
}

/// Running the due schedules never lowers the last bill id handed out.
pub proof fn lemma_run_raises_ids(st: RunState, rows: Seq<Schedule>, now: u64)
    requires
        run_fits(st, rows, now),
    ensures
        st.next_id <= run(st, rows, now).next_id,
    decreases rows.len(),
{
    if rows.len() > 0 {
        lemma_run_raises_ids(st, rows.drop_last(), now);
    }
}

/// The last bill id handed out did not go down from `before` to `after`.
pub open spec fn bill_ids_kept(before: BillPayments, after: BillPayments) -> bool {
    before.next_bill_id() <= after.next_bill_id()
}

/// Along a run of states in which no step lowers the last bill id, it only grows.
proof fn lemma_bill_ids_grow(states: Seq<BillPayments>, i: int, j: int)
    requires
        forall|k: int| 0 <= k < states.len() - 1 ==> #[trigger] bill_ids_kept(states[k], states[k + 1]),
        0 <= i <= j < states.len(),
    ensures
        states[i].next_bill_id() <= states[j].next_bill_id(),
    decreases j - i,
{
    if i < j {
        let k = j - 1;
        assert(bill_ids_kept(states[k], states[k + 1]));
        assert(k + 1 == j);
        lemma_bill_ids_grow(states, i, j - 1);
    }
}

/// Bill ids are never handed out twice: along any run of operations on the
/// contract, none of which lowers the last bill id handed out (every operation
/// keeps it or raises it; cancelling, archiving and restoring keep it), the id that
/// a later step hands out is greater than the one an earlier step handed out.
pub proof fn lemma_bill_ids_never_reused(states: Seq<BillPayments>, i: int, j: int)
    requires
        forall|k: int| 0 <= k < states.len() - 1 ==> #[trigger] bill_ids_kept(states[k], states[k + 1]),
        0 <= i < j,
        j + 1 < states.len(),
        states[i].next_bill_id() < states[i + 1].next_bill_id(),
        states[j].next_bill_id() < states[j + 1].next_bill_id(),
    ensures
        states[i + 1].next_bill_id() < states[j + 1].next_bill_id(),
{
    lemma_bill_ids_grow(states, i + 1, j);
}

/// The id that the next bill gets, one more than the last one handed out, is held
/// by no active and no archived bill.
pub proof fn lemma_next_bill_id_is_fresh(bills: Seq<Bill>, archived: Seq<ArchivedBill>, next_id: u32)
    requires
        all_rows(bills, bill_ok(next_id)),
        all_rows(archived, archived_ok(next_id)),
    ensures
        forall|k: int| 0 <= k < bills.len() ==> bills[k].id != next_id + 1,
        forall|k: int| 0 <= k < archived.len() ==> archived[k].bill.id != next_id + 1,
{
    assert forall|k: int| 0 <= k < bills.len() implies bills[k].id != next_id + 1 by {
        assert(bill_ok(next_id)(bills[k]));
    }
    assert forall|k: int| 0 <= k < archived.len() implies archived[k].bill.id != next_id + 1 by {
        assert(archived_ok(next_id)(archived[k]));
    }
}

/// A recurring schedule run late at `now` is due again at the first interval
/// boundary after `now`, and adds the whole intervals it skipped to the count it
/// had already missed: missed counts accumulate from run to run.
pub proof fn lemma_missed_intervals_accumulate(s: Schedule, now: u64)
    requires
        s.active,
        s.next_due <= now,
        s.recurring,
        s.interval > 0,
        s.next_due + ((now - s.next_due) / (s.interval as int) + 1) * s.interval <= u64::MAX,
        s.missed_count + (now - s.next_due) / (s.interval as int) <= u32::MAX,
    ensures
        advanced(s, now).missed_count == s.missed_count + (now - s.next_due) / (s.interval as int),
        advanced(s, now).next_due == s.next_due + ((now - s.next_due) / (s.interval as int) + 1)
            * s.interval,
        now < advanced(s, now).next_due,
        advanced(s, now).active,
        advanced(s, now).id == s.id,
        advanced(s, now).owner == s.owner,
        advanced(s, now).interval == s.interval,
{
    lemma_schedule_moves_past(s, now);
}

/// Two late runs of a recurring schedule: the count of missed intervals after the
/// second is the count before the first plus the intervals each run skipped.
pub proof fn lemma_missed_intervals_over_two_runs(s: Schedule, first: u64, second: u64)
    requires
        s.active,
        s.next_due <= first,
        s.recurring,
        s.interval > 0,
        s.next_due + ((first - s.next_due) / (s.interval as int) + 1) * s.interval <= u64::MAX,
        s.missed_count + (first - s.next_due) / (s.interval as int) <= u32::MAX,
        advanced(s, first).next_due <= second,
        advanced(s, first).next_due + ((second - advanced(s, first).next_due) / (s.interval as int)
            + 1) * s.interval <= u64::MAX,
        advanced(s, first).missed_count + (second - advanced(s, first).next_due) / (
        s.interval as int) <= u32::MAX,
    ensures
        advanced(advanced(s, first), second).missed_count == s.missed_count + (first - s.next_due) / (
        s.interval as int) + (second - advanced(s, first).next_due) / (s.interval as int),
{
    lemma_missed_intervals_accumulate(s, first);
    lemma_missed_intervals_accumulate(advanced(s, first), second);
}

/// `get_schedules(owner)` lists schedules of `owner` only, and every schedule of
/// `owner`.
pub proof fn lemma_schedules_listed_are_the_owners(schedules: Seq<Schedule>, owner: Seq<char>)
    ensures
        forall|i: int|
            0 <= i < schedules.filter(schedule_of(owner)).len() ==> (#[trigger] schedules.filter(
                schedule_of(owner),
            )[i]).owner@ == owner,
        forall|j: int|
            0 <= j < schedules.len() && (#[trigger] schedules[j]).owner@ == owner ==> schedules.filter(
                schedule_of(owner),
            ).contains(schedules[j]),
{
    schedules.filter_lemma(schedule_of(owner));
}

/// `get_archived_bills(owner)` lists archived bills of `owner` only, and every
/// archived bill of `owner`.
pub proof fn lemma_archived_bills_listed_are_the_owners(archived: Seq<ArchivedBill>, owner: Seq<char>)
    ensures
        forall|i: int|
            0 <= i < archived.filter(archived_of(owner)).len() ==> (#[trigger] archived.filter(
                archived_of(owner),
            )[i]).bill.owner@ == owner,
        forall|j: int|
            0 <= j < archived.len() && (#[trigger] archived[j]).bill.owner@ == owner ==> archived.filter(
                archived_of(owner),
            ).contains(archived[j]),
{
    archived.filter_lemma(archived_of(owner));
}

/// The bill lists of an owner hold that owner's bills only, and all of them:
/// `get_all_bills_for_owner` every one, `get_unpaid_bills` the unpaid ones and
/// `get_overdue_bills` the unpaid ones due before `now`.
pub proof fn lemma_bills_listed_are_the_owners(bills: Seq<Bill>, owner: Seq<char>, now: u64)
    ensures
        forall|i: int|
            0 <= i < bills.filter(owned_by(owner)).len() ==> (#[trigger] bills.filter(
                owned_by(owner),
            )[i]).owner@ == owner,
        forall|j: int|
            0 <= j < bills.len() && (#[trigger] bills[j]).owner@ == owner ==> bills.filter(
                owned_by(owner),
            ).contains(bills[j]),
        forall|i: int|
            0 <= i < bills.filter(unpaid_of(owner)).len() ==> {
                let b = #[trigger] bills.filter(unpaid_of(owner))[i];
                b.owner@ == owner && !b.paid
            },
        forall|j: int|
            0 <= j < bills.len() && (#[trigger] bills[j]).owner@ == owner && !bills[j].paid
                ==> bills.filter(unpaid_of(owner)).contains(bills[j]),
        forall|i: int|
            0 <= i < bills.filter(overdue_of(owner, now)).len() ==> {
                let b = #[trigger] bills.filter(overdue_of(owner, now))[i];
                b.owner@ == owner && !b.paid && b.due_date < now
            },
        forall|j: int|
            0 <= j < bills.len() && (#[trigger] bills[j]).owner@ == owner && !bills[j].paid
                && bills[j].due_date < now ==> bills.filter(overdue_of(owner, now)).contains(bills[j]),
{
    bills.filter_lemma(owned_by(owner));
    bills.filter_lemma(unpaid_of(owner));
    bills.filter_lemma(overdue_of(owner, now));
}

/// `archive_paid_bills(before, ..)` moves exactly the bills paid before `before`:
/// each one moved was paid, at a time before `before`, each one left active was
/// not, and every bill paid before `before` is among those moved.
pub proof fn lemma_archived_bills_were_paid_before(bills: Seq<Bill>, before: u64)
    ensures
        forall|i: int|
            0 <= i < bills.filter(archivable(before)).len() ==> {
                let b = #[trigger] bills.filter(archivable(before))[i];
                b.paid && b.paid_at is Some && b.paid_at->0 < before
            },
        forall|i: int|
            0 <= i < bills.filter(kept_active(before)).len() ==> {
                let b = #[trigger] bills.filter(kept_active(before))[i];
                !(b.paid && b.paid_at is Some && b.paid_at->0 < before)
            },
        forall|j: int|
            0 <= j < bills.len() && (#[trigger] bills[j]).paid && bills[j].paid_at is Some
                && bills[j].paid_at->0 < before ==> bills.filter(archivable(before)).contains(bills[j]),
        forall|j: int|
            0 <= j < bills.len() && !((#[trigger] bills[j]).paid && bills[j].paid_at is Some
                && bills[j].paid_at->0 < before) ==> bills.filter(kept_active(before)).contains(bills[j]),
{
    bills.filter_lemma(archivable(before));
    bills.filter_lemma(kept_active(before));
}

/// `bulk_cleanup_bills(before, ..)` deletes exactly the archive entries made
/// before `before`: every entry it keeps was made at or after `before`, and every
/// such entry is kept.
pub proof fn lemma_cleanup_keeps_recent_entries(archived: Seq<ArchivedBill>, before: u64)
    ensures
        forall|i: int|
            0 <= i < archived.filter(archived_since(before)).len() ==> (#[trigger] archived.filter(
                archived_since(before),
            )[i]).archived_at >= before,
        forall|j: int|
            0 <= j < archived.len() && (#[trigger] archived[j]).archived_at >= before ==> archived.filter(
                archived_since(before),
            ).contains(archived[j]),
        forall|i: int|
            0 <= i < archived.filter(archived_before(before)).len() ==> (#[trigger] archived.filter(
                archived_before(before),
            )[i]).archived_at < before,
{
    archived.filter_lemma(archived_since(before));
    archived.filter_lemma(archived_before(before));
}

/// The totals in the statistics add up every amount: one more bill adds its
/// amount (saturating at the bounds of `i128`), and the empty list counts zero.
pub proof fn lemma_amount_totals_add_up(bills: Seq<Bill>, archived: Seq<ArchivedBill>, b: Bill, a: ArchivedBill)
    ensures
        bills_amount(Seq::<Bill>::empty()) == 0,
        bills_amount(bills.push(b)) == sat_add(bills_amount(bills), b.amount as int),
        archived_amount(Seq::<ArchivedBill>::empty()) == 0,
        archived_amount(archived.push(a)) == sat_add(archived_amount(archived), a.bill.amount as int),
        amount_sum(bills.push(b)) == amount_sum(bills) + b.amount,
        unpaid_total(bills.push(b), b.owner@) == unpaid_total(bills, b.owner@) + if b.paid {
            0
        } else {
            b.amount as int
        },
{
    assert(bills.push(b).drop_last() =~= bills);
    assert(archived.push(a).drop_last() =~= archived);
}

} // verus!
