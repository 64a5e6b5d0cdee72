//! Savings goals: targets that owners save toward, with locking, archiving,
//! snapshots for migration and an audit trail.

use vstd::prelude::*;
use crate::table::{
    Keyed, RowFilter, Table, lookup, put, put_all, drop_key, sorted, keys_within, lemma_filter_step,
};
use crate::amount::{sat_add, saturating_sum};

verus! {

/// The snapshot format that `export_snapshot` writes and `import_snapshot` reads.
pub const SNAPSHOT_VERSION: u32 = 1;

/// The audit trail keeps at most this many entries, dropping the oldest.
pub const MAX_AUDIT_ENTRIES: u32 = 100;

/// Seconds in a year: a restored goal is due this long after it is restored.
pub const RESTORE_TERM: u64 = 31536000;

/// Why a savings operation was refused.
#[derive(Clone, Copy, Debug, PartialEq, Eq, Structural)]
pub enum SavingsError {
    /// The amount to add or withdraw was zero or negative.
    InvalidAmount,
    /// No active goal has the given id.
    GoalNotFound,
    /// The caller does not own the goal.
    Unauthorized,
    /// The goal is locked against withdrawals.
    GoalLocked,
    /// The goal holds less than the amount to withdraw.
    InsufficientBalance,
    /// The new balance does not fit in an `i128`.
    Overflow,
    /// The nonce given is not the caller's current nonce.
    InvalidNonce,
    /// The snapshot was written in another format.
    UnsupportedVersion,
    /// The snapshot's checksum does not match its contents.
    ChecksumMismatch,
    /// No archived goal has the given id.
    ArchivedGoalNotFound,
    /// The caller's nonce cannot be advanced any further.
    NonceOverflow,
}

/// The kinds of event that the savings contract publishes.
#[derive(Clone, Copy, Debug, PartialEq, Eq)]
pub enum SavingsEvent {
    GoalCreated,
    FundsAdded,
    FundsWithdrawn,
    GoalCompleted,
    GoalLocked,
    GoalUnlocked,
}

/// The kinds of event that archiving publishes.
#[derive(Clone, Copy, Debug, PartialEq, Eq)]
pub enum ArchiveEvent {
    GoalsArchived,
    GoalRestored,
    ArchivesCleaned,
}

/// The operations that the audit trail records.
#[derive(Clone, Copy, Debug, PartialEq, Eq, Structural)]
pub enum AuditOp {
    Create,
    Add,
    Withdraw,
    Lock,
    Unlock,
    Import,
    Archive,
    Restore,
    Cleanup,
}

/// A savings goal, owned by the address that created it.
#[derive(Debug, PartialEq, Eq)]
pub struct SavingsGoal {
    pub id: u32,
    pub owner: String,
    pub name: String,
    pub target_amount: i128,
    pub current_amount: i128,
    pub target_date: u64,
    pub locked: bool,
}

impl Keyed for SavingsGoal {
    open spec fn key_spec(&self) -> u32 {
        self.id
    }

    fn key(&self) -> (k: u32) {
        self.id
    }

    fn duplicate(&self) -> (r: Self) {
        SavingsGoal {
            id: self.id,
            owner: self.owner.clone(),
            name: self.name.clone(),
            target_amount: self.target_amount,
            current_amount: self.current_amount,
            target_date: self.target_date,
            locked: self.locked,
        }
    }
}

/// A goal moved out of the active goals: what it aimed at, what it reached,
/// and when it was moved.
#[derive(Debug, PartialEq, Eq)]
pub struct ArchivedGoal {
    pub id: u32,
    pub owner: String,
    pub name: String,
    pub target_amount: i128,
    pub final_amount: i128,
    pub archived_at: u64,
}

impl Keyed for ArchivedGoal {
    open spec fn key_spec(&self) -> u32 {
        self.id
    }

    fn key(&self) -> (k: u32) {
        self.id
    }

    fn duplicate(&self) -> (r: Self) {
        ArchivedGoal {
            id: self.id,
            owner: self.owner.clone(),
            name: self.name.clone(),
            target_amount: self.target_amount,
            final_amount: self.final_amount,
            archived_at: self.archived_at,
        }
    }
}

/// The goals as written for a migration, with a checksum over them.
#[derive(Debug)]
pub struct GoalsExportSnapshot {
    pub version: u32,
    pub checksum: u64,
    pub next_id: u32,
    pub goals: Vec<SavingsGoal>,
}

/// One entry of the audit trail.
#[derive(Debug, PartialEq, Eq)]
pub struct AuditEntry {
    pub operation: AuditOp,
    pub caller: String,
    pub timestamp: u64,
    pub success: bool,
}

/// Counts and totals of the active and archived goals, as of `last_updated`.
#[derive(Clone, Copy, Debug, PartialEq, Eq)]
pub struct StorageStats {
    pub active_goals: u32,
    pub archived_goals: u32,
    pub total_active_amount: i128,
    pub total_archived_amount: i128,
    pub last_updated: u64,
}

/// The replay counter of one address.
#[derive(Debug)]
pub struct NonceEntry {
    pub address: String,
    pub nonce: u64,
}

// ----- what the operations mean -----

/// The goals of `owner`.
pub open spec fn goal_of(owner: Seq<char>) -> spec_fn(SavingsGoal) -> bool {
    |g: SavingsGoal| g.owner@ == owner
}

/// A query over the goals of one owner.
pub struct GoalQuery {
    pub owner: String,
}

impl RowFilter<SavingsGoal> for GoalQuery {
    open spec fn keep(&self) -> spec_fn(SavingsGoal) -> bool {
        goal_of(self.owner@)
    }

    fn test(&self, g: &SavingsGoal) -> (r: bool) {
        g.owner == self.owner
    }
}

/// A goal has reached its target.
pub open spec fn completed(g: SavingsGoal) -> bool {
    g.current_amount >= g.target_amount
}

/// Whether `caller` may act on goal `goal_id`, and if so the goal.
pub open spec fn goal_check(goals: Seq<SavingsGoal>, caller: Seq<char>, goal_id: u32) -> Result<
    SavingsGoal,
    SavingsError,
> {
    match lookup(goals, goal_id) {
        None => Err(SavingsError::GoalNotFound),
        Some(g) => if g.owner@ != caller {
            Err(SavingsError::Unauthorized)
        } else {
            Ok(g)
        },
    }
}

/// Whether `caller` may add `amount` to goal `goal_id`, and if so the goal.
pub open spec fn add_check(goals: Seq<SavingsGoal>, caller: Seq<char>, goal_id: u32, amount: i128) -> Result<
    SavingsGoal,
    SavingsError,
> {
    if amount <= 0 {
        Err(SavingsError::InvalidAmount)
    } else {
        match goal_check(goals, caller, goal_id) {
            Err(e) => Err(e),
            Ok(g) => if g.current_amount + amount > i128::MAX {
                Err(SavingsError::Overflow)
            } else {
                Ok(g)
            },
        }
    }
}

/// Whether `caller` may withdraw `amount` from goal `goal_id`, and if so the goal.
pub open spec fn withdraw_check(goals: Seq<SavingsGoal>, caller: Seq<char>, goal_id: u32, amount: i128) -> Result<
    SavingsGoal,
    SavingsError,
> {
    if amount <= 0 {
        Err(SavingsError::InvalidAmount)
    } else {
        match goal_check(goals, caller, goal_id) {
            Err(e) => Err(e),
            Ok(g) => if g.locked {
                Err(SavingsError::GoalLocked)
            } else if amount > g.current_amount {
                Err(SavingsError::InsufficientBalance)
            } else {
                Ok(g)
            },
        }
    }
}

/// The goal with `amount` more saved.
pub open spec fn funded(g: SavingsGoal, amount: i128) -> SavingsGoal {
    SavingsGoal { current_amount: (g.current_amount + amount) as i128, ..g }
}

/// The goal with `amount` taken out.
pub open spec fn withdrawn(g: SavingsGoal, amount: i128) -> SavingsGoal {
    SavingsGoal { current_amount: (g.current_amount - amount) as i128, ..g }
}

/// A successful operation as the audit trail records it.
pub open spec fn audit_entry(operation: AuditOp, caller: String, now: u64) -> AuditEntry {
    AuditEntry { operation, caller, timestamp: now, success: true }
}

/// The audit trail with `e` recorded, the oldest entry dropped when it was full.
pub open spec fn audit_append(log: Seq<AuditEntry>, e: AuditEntry) -> Seq<AuditEntry> {
    if log.len() >= MAX_AUDIT_ENTRIES {
        log.drop_first().push(e)
    } else {
        log.push(e)
    }
}

/// At most `limit` entries of the trail, and never more than it can hold,
/// starting at `from`.
pub open spec fn audit_window(log: Seq<AuditEntry>, from: u32, limit: u32) -> Seq<AuditEntry> {
    let cap: int = if limit < MAX_AUDIT_ENTRIES {
        limit as int
    } else {
        MAX_AUDIT_ENTRIES as int
    };
    if from >= log.len() {
        Seq::empty()
    } else if from + cap < log.len() {
        log.subrange(from as int, from + cap)
    } else {
        log.subrange(from as int, log.len() as int)
    }
}

/// The nonce of `address`: the latest entry for it, or zero.
pub open spec fn nonce_of(s: Seq<NonceEntry>, address: Seq<char>) -> u64
    decreases s.len(),
{
    if s.len() == 0 {
        0
    } else if s.last().address@ == address {
        s.last().nonce
    } else {
        nonce_of(s.drop_last(), address)
    }
}

/// The goals that a snapshot holds: those whose id was handed out.
pub open spec fn in_snapshot(next_id: u32) -> spec_fn(SavingsGoal) -> bool {
    |g: SavingsGoal| 1 <= g.id <= next_id
}

/// A query over the goals whose id was handed out.
pub struct SnapshotQuery {
    pub next_id: u32,
}

impl RowFilter<SavingsGoal> for SnapshotQuery {
    open spec fn keep(&self) -> spec_fn(SavingsGoal) -> bool {
        in_snapshot(self.next_id)
    }

    fn test(&self, g: &SavingsGoal) -> (r: bool) {
        1 <= g.id && g.id <= self.next_id
    }
}

/// Whether `caller`, whose replay counters are `entries`, may import a snapshot
/// with the given fields using `nonce`.
pub open spec fn import_check(
    entries: Seq<NonceEntry>,
    caller: Seq<char>,
    nonce: u64,
    version: u32,
    checksum: u64,
    next_id: u32,
    goals: Seq<SavingsGoal>,
) -> Result<(), SavingsError> {
    if nonce != nonce_of(entries, caller) {
        Err(SavingsError::InvalidNonce)
    } else if version != SNAPSHOT_VERSION {
        Err(SavingsError::UnsupportedVersion)
    } else if checksum != goals_checksum(version, next_id, goals) {
        Err(SavingsError::ChecksumMismatch)
    } else if nonce == u64::MAX {
        Err(SavingsError::NonceOverflow)
    } else {
        Ok(())
    }
}

/// A goal that reached its target and whose target date is before `before`.
pub open spec fn archivable_goal(before: u64) -> spec_fn(SavingsGoal) -> bool {
    |g: SavingsGoal| completed(g) && g.target_date < before
}

pub open spec fn kept_goal(before: u64) -> spec_fn(SavingsGoal) -> bool {
    |g: SavingsGoal| !(completed(g) && g.target_date < before)
}

/// What the archive keeps of a goal moved there at `now`.
pub open spec fn archive_entry(g: SavingsGoal, now: u64) -> ArchivedGoal {
    ArchivedGoal {
        id: g.id,
        owner: g.owner,
        name: g.name,
        target_amount: g.target_amount,
        final_amount: g.current_amount,
        archived_at: now,
    }
}

/// The archive after the goals `moved` were archived, in order, at `now`.
pub open spec fn archive_goals(archived: Seq<ArchivedGoal>, moved: Seq<SavingsGoal>, now: u64) -> Seq<
    ArchivedGoal,
>
    decreases moved.len(),
{
    if moved.len() == 0 {
        archived
    } else {
        put(archive_goals(archived, moved.drop_last(), now), archive_entry(moved.last(), now))
    }
}

/// An archived goal brought back at `now`: locked, with what it had reached,
/// and due a year later.
pub open spec fn restored_goal(a: ArchivedGoal, now: u64) -> SavingsGoal {
    SavingsGoal {
        id: a.id,
        owner: a.owner,
        name: a.name,
        target_amount: a.target_amount,
        current_amount: a.final_amount,
        target_date: (now + RESTORE_TERM) as u64,
        locked: true,
    }
}

/// Whether `caller` may restore archived goal `goal_id`, and if so the entry.
pub open spec fn restore_check(archived: Seq<ArchivedGoal>, caller: Seq<char>, goal_id: u32) -> Result<
    ArchivedGoal,
    SavingsError,
> {
    match lookup(archived, goal_id) {
        None => Err(SavingsError::ArchivedGoalNotFound),
        Some(a) => if a.owner@ != caller {
            Err(SavingsError::Unauthorized)
        } else {
            Ok(a)
        },
    }
}

/// An archive entry made before `before`.
pub open spec fn archived_goal_before(before: u64) -> spec_fn(ArchivedGoal) -> bool {
    |a: ArchivedGoal| a.archived_at < before
}

pub open spec fn archived_goal_since(before: u64) -> spec_fn(ArchivedGoal) -> bool {
    |a: ArchivedGoal| !(a.archived_at < before)
}

/// The archived goals of `owner`.
pub open spec fn archived_goal_of(owner: Seq<char>) -> spec_fn(ArchivedGoal) -> bool {
    |a: ArchivedGoal| a.owner@ == owner
}

/// A query over the archived goals of one owner.
pub struct ArchivedGoalQuery {
    pub owner: String,
}

impl RowFilter<ArchivedGoal> for ArchivedGoalQuery {
    open spec fn keep(&self) -> spec_fn(ArchivedGoal) -> bool {
        archived_goal_of(self.owner@)
    }

    fn test(&self, a: &ArchivedGoal) -> (r: bool) {
        a.owner == self.owner
    }
}

/// The balances of the goals, added up with saturation.
pub open spec fn goals_amount(s: Seq<SavingsGoal>) -> int
    decreases s.len(),
{
    if s.len() == 0 {
        0
    } else {
        sat_add(goals_amount(s.drop_last()), s.last().current_amount as int)
    }
}

/// The final amounts of the archived goals, added up with saturation.
pub open spec fn archived_goals_amount(s: Seq<ArchivedGoal>) -> int
    decreases s.len(),
{
    if s.len() == 0 {
        0
    } else {
        sat_add(archived_goals_amount(s.drop_last()), s.last().final_amount as int)
    }
}

/// The statistics of the given goals and archive, taken at `now`.
pub open spec fn goal_stats_of(goals: Seq<SavingsGoal>, archived: Seq<ArchivedGoal>, now: u64) -> StorageStats {
    StorageStats {
        active_goals: goals.len() as u32,
        archived_goals: archived.len() as u32,
        total_active_amount: goals_amount(goals) as i128,
        total_archived_amount: archived_goals_amount(archived) as i128,
        last_updated: now,
    }
}

// ----- checksums -----

/// `x` reduced into the range of `u64`, as wrapping arithmetic sees it.
pub open spec fn word(x: int) -> int {
    x % 0x1_0000_0000_0000_0000
}

/// The sum of the ids, targets and balances of the goals.
pub open spec fn goal_sum(s: Seq<SavingsGoal>) -> int
    decreases s.len(),
{
    if s.len() == 0 {
        0
    } else {
        goal_sum(s.drop_last()) + s.last().id + s.last().target_amount + s.last().current_amount
    }
}

/// The checksum of a snapshot: thirty-one times the sum of its version, its
/// next id and the ids, targets and balances of its goals, modulo 2^64.
pub open spec fn goals_checksum(version: u32, next_id: u32, goals: Seq<SavingsGoal>) -> u64 {
    word((version + next_id + goal_sum(goals)) * 31) as u64
}

/// The low 64 bits of `x`.
fn low_word(x: i128) -> (r: u64)
    ensures
        r as int == word(x as int),
{
    assert((x as u64) as int == (x as int) % 0x1_0000_0000_0000_0000int) by (bit_vector);
    x as u64
}

/// Adding in `u64` with wraparound adds modulo 2^64.
fn add_word(c: u64, x: u64) -> (r: u64)
    ensures
        r as int == word(c + x),
{
    c.wrapping_add(x)
}

/// Computes `goals_checksum(version, next_id, goals@)`.
pub fn compute_goals_checksum(version: u32, next_id: u32, goals: &Vec<SavingsGoal>) -> (r: u64)
    ensures
        r == goals_checksum(version, next_id, goals@),
{
    let mut c: u64 = version as u64 + next_id as u64;
    let n = goals.len();
    proof {
        assert(goals@.take(0) =~= Seq::<SavingsGoal>::empty());
        vstd::arithmetic::div_mod::lemma_small_mod(
            (version + next_id) as nat,
            0x1_0000_0000_0000_0000nat,
        );
    }
    for i in 0..n
        invariant
            n == goals@.len(),
            c as int == word(version + next_id + goal_sum(goals@.take(i as int))),
    {
        let g = &goals[i];
        let ghost before = version + next_id + goal_sum(goals@.take(i as int));
        proof {
            assert(goals@.take(i + 1).drop_last() =~= goals@.take(i as int));
            lemma_word_add(before, g.id as int);
        }
        c = add_word(c, g.id as u64);
        proof {
            lemma_word_add(before + g.id, g.target_amount as int);
        }
        let t = low_word(g.target_amount);
        proof {
            lemma_word_add(c as int, t as int);
            lemma_word_add(before + g.id, g.target_amount as int);
        }
        c = add_word(c, t);
        let u = low_word(g.current_amount);
        proof {
            lemma_word_add(before + g.id + g.target_amount, g.current_amount as int);
        }
        c = add_word(c, u);
    }
    proof {
        assert(goals@.take(n as int) =~= goals@);
        lemma_word_mul(version + next_id + goal_sum(goals@), 31);
    }
    c.wrapping_mul(31)
}

/// Reducing the operands of a sum does not change the reduced sum.
proof fn lemma_word_add(a: int, b: int)
    ensures
        word(word(a) + word(b)) == word(a + b),
        word(a + word(b)) == word(a + b),
        word(word(a) + b) == word(a + b),
        0 <= word(a) < 0x1_0000_0000_0000_0000,
{
    vstd::arithmetic::div_mod::lemma_add_mod_noop(a, b, 0x1_0000_0000_0000_0000);
    vstd::arithmetic::div_mod::lemma_add_mod_noop_right(a, b, 0x1_0000_0000_0000_0000);
    vstd::arithmetic::div_mod::lemma_add_mod_noop_right(b, a, 0x1_0000_0000_0000_0000);
    vstd::arithmetic::div_mod::lemma_mod_bound(a, 0x1_0000_0000_0000_0000);
}

/// Reducing a factor of a product does not change the reduced product.
proof fn lemma_word_mul(a: int, b: int)
    ensures
        word(word(a) * b) == word(a * b),
{
    vstd::arithmetic::div_mod::lemma_mul_mod_noop_left(a, b, 0x1_0000_0000_0000_0000);
}


// ----- the contract -----

/// What the savings contract keeps in storage.
pub struct SavingsParts {
    pub goals: Vec<SavingsGoal>,
    pub next_id: u32,
    pub archived: Vec<ArchivedGoal>,
    pub stats: Option<StorageStats>,
    pub audit: Vec<AuditEntry>,
    pub nonces: Vec<NonceEntry>,
    pub initialized: bool,
}

/// The state of the savings contract.
pub struct SavingsGoalContract {
    goals: Table<SavingsGoal>,
    next_id: u32,
    archived: Table<ArchivedGoal>,
    stats: Option<StorageStats>,
    audit: Vec<AuditEntry>,
    nonces: Vec<NonceEntry>,
    initialized: bool,
}

impl SavingsGoalContract {
    #[verifier::type_invariant]
    spec fn audit_fits(self) -> bool {
        self.audit@.len() <= MAX_AUDIT_ENTRIES
    }

    /// The active goals, in increasing order of id.
    pub closed spec fn goals(&self) -> Seq<SavingsGoal> {
        self.goals.rows()
    }

    /// The last goal id handed out.
    pub closed spec fn next_goal_id(&self) -> u32 {
        self.next_id
    }

    /// The archived goals, in increasing order of id.
    pub closed spec fn archived(&self) -> Seq<ArchivedGoal> {
        self.archived.rows()
    }

    /// The statistics last recorded, if any.
    pub closed spec fn stored_stats(&self) -> Option<StorageStats> {
        self.stats
    }

    /// The audit trail, oldest entry first.
    pub closed spec fn audit_log(&self) -> Seq<AuditEntry> {
        self.audit@
    }

    /// The replay counters, latest entry last.
    pub closed spec fn nonce_entries(&self) -> Seq<NonceEntry> {
        self.nonces@
    }

    /// Whether `init` was called.
    pub closed spec fn is_initialized(&self) -> bool {
        self.initialized
    }

    /// The archive, statistics, nonces and initialization are as in `other`.
    pub open spec fn same_records(&self, other: &Self) -> bool {
        &&& self.archived() == other.archived()
        &&& self.stored_stats() == other.stored_stats()
        &&& self.nonce_entries() == other.nonce_entries()
        &&& self.is_initialized() == other.is_initialized()
    }

    /// The contract before anything was stored.
    pub fn new() -> (r: Self)
        ensures
            r.goals() == Seq::<SavingsGoal>::empty(),
            r.next_goal_id() == 0,
            r.archived() == Seq::<ArchivedGoal>::empty(),
            r.stored_stats() is None,
            r.audit_log() == Seq::<AuditEntry>::empty(),
            r.nonce_entries() == Seq::<NonceEntry>::empty(),
            !r.is_initialized(),
    {
        SavingsGoalContract {
            goals: Table::new(),
            next_id: 0,
            archived: Table::new(),
            stats: None,
            audit: Vec::new(),
            nonces: Vec::new(),
            initialized: false,
        }
    }

    /// Marks the contract initialized; nothing else changes.
    pub fn init(&mut self)
        ensures
            final(self).is_initialized(),
            final(self).goals() == old(self).goals(),
            final(self).next_goal_id() == old(self).next_goal_id(),
            final(self).archived() == old(self).archived(),
            final(self).stored_stats() == old(self).stored_stats(),
            final(self).audit_log() == old(self).audit_log(),
            final(self).nonce_entries() == old(self).nonce_entries(),
    {
        proof {
            use_type_invariant(&*self);
        }
        self.initialized = true;
    }

    /// Records a successful `operation` of `caller` at `now` in the audit trail.
    fn append_audit(&mut self, operation: AuditOp, caller: &String, now: u64)
        ensures
            final(self).audit_log() == audit_append(
                old(self).audit_log(),
                audit_entry(operation, *caller, now),
            ),
            final(self).goals() == old(self).goals(),
            final(self).next_goal_id() == old(self).next_goal_id(),
            final(self).same_records(&*old(self)),
    {
        proof {
            use_type_invariant(&*self);
        }
        let entry = AuditEntry { operation, caller: caller.clone(), timestamp: now, success: true };
        let mut log: Vec<AuditEntry> = Vec::new();
        std::mem::swap(&mut log, &mut self.audit);
        if log.len() >= MAX_AUDIT_ENTRIES as usize {
            log.remove(0);
            proof {
                assert(log@ =~= old(self).audit_log().drop_first());
            }
        }
        log.push(entry);
        self.audit = log;
    }

    /// Stores `g` over the goal with its id.
    fn store_goal(&mut self, g: SavingsGoal)
        ensures
            final(self).goals() == put(old(self).goals(), g),
            final(self).next_goal_id() == old(self).next_goal_id(),
            final(self).audit_log() == old(self).audit_log(),
            final(self).same_records(&*old(self)),
    {
        proof {
            use_type_invariant(&*self);
        }
        let mut goals = Table::new();
        std::mem::swap(&mut goals, &mut self.goals);
        goals.set(g);
        self.goals = goals;
    }

    /// Rebuilds the contract from what it keeps in storage, when that is
    /// consistent: goals and archive in increasing order of id, and an audit
    /// trail within its capacity.
    pub fn from_parts(parts: SavingsParts) -> (r: Option<Self>)
        ensures
            r is Some <==> sorted(parts.goals@) && sorted(parts.archived@) && parts.audit@.len()
                <= MAX_AUDIT_ENTRIES,
            r matches Some(c) ==> {
                &&& c.goals() == parts.goals@
                &&& c.next_goal_id() == parts.next_id
                &&& c.archived() == parts.archived@
                &&& c.stored_stats() == parts.stats
                &&& c.audit_log() == parts.audit@
                &&& c.nonce_entries() == parts.nonces@
                &&& c.is_initialized() == parts.initialized
            },
    {
        if parts.audit.len() > MAX_AUDIT_ENTRIES as usize {
            return None;
        }
        let goals = match Table::from_rows(parts.goals) {
            None => return None,
            Some(t) => t,
        };
        let archived = match Table::from_rows(parts.archived) {
            None => return None,
            Some(t) => t,
        };
        Some(
            SavingsGoalContract {
                goals,
                next_id: parts.next_id,
                archived,
                stats: parts.stats,
                audit: parts.audit,
                nonces: parts.nonces,
                initialized: parts.initialized,
            },
        )
    }

    /// What the contract keeps in storage.
    pub fn into_parts(self) -> (r: SavingsParts)
        ensures
            r.goals@ == self.goals(),
            r.next_id == self.next_goal_id(),
            r.archived@ == self.archived(),
            r.stats == self.stored_stats(),
            r.audit@ == self.audit_log(),
            r.nonces@ == self.nonce_entries(),
            r.initialized == self.is_initialized(),
    {
        SavingsParts {
            goals: self.goals.into_rows(),
            next_id: self.next_id,
            archived: self.archived.into_rows(),
            stats: self.stats,
            audit: self.audit,
            nonces: self.nonces,
            initialized: self.initialized,
        }
    }

    /// How many active goals there are. They are in increasing order of id.
    pub fn goal_count(&self) -> (n: usize)
        ensures
            n == self.goals().len(),
            sorted(self.goals()),
    {
        self.goals.len()
    }

    /// How many archived goals there are. They are in increasing order of id.
    pub fn archived_goal_count(&self) -> (n: usize)
        ensures
            n == self.archived().len(),
            sorted(self.archived()),
    {
        self.archived.len()
    }

    /// The last goal id handed out.
    pub fn last_goal_id(&self) -> (r: u32)
        ensures
            r == self.next_goal_id(),
    {
        self.next_id
    }

    /// Creates a locked goal of `owner`, with nothing saved yet, and returns its
    /// id: one more than the last id handed out. The target must be positive.
    pub fn create_goal(
        &mut self,
        owner: String,
        name: String,
        target_amount: i128,
        target_date: u64,
        now: u64,
    ) -> (id: u32)
        requires
            target_amount > 0,
            old(self).next_goal_id() < u32::MAX,
        ensures
            id == old(self).next_goal_id() + 1,
            final(self).next_goal_id() == id,
            final(self).goals() == put(
                old(self).goals(),
                SavingsGoal {
                    id,
                    owner,
                    name,
                    target_amount,
                    current_amount: 0,
                    target_date,
                    locked: true,
                },
            ),
            final(self).audit_log() == audit_append(
                old(self).audit_log(),
                audit_entry(AuditOp::Create, owner, now),
            ),
            final(self).same_records(&*old(self)),
    {
        proof {
            use_type_invariant(&*self);
        }
        let id = self.next_id + 1;
        let who = owner.clone();
        let goal = SavingsGoal {
            id,
            owner,
            name,
            target_amount,
            current_amount: 0,
            target_date,
            locked: true,
        };
        self.store_goal(goal);
        self.next_id = id;
        self.append_audit(AuditOp::Create, &who, now);
        id
    }

    /// The goal `goal_id` when `caller` owns it, or why `caller` may not act on it.
    fn owned_goal(&self, caller: &String, goal_id: u32) -> (r: Result<SavingsGoal, SavingsError>)
        ensures
            r == goal_check(self.goals(), caller@, goal_id),
    {
        match self.goals.get(goal_id) {
            None => Err(SavingsError::GoalNotFound),
            Some(g) => if g.owner == *caller {
                Ok(g)
            } else {
                Err(SavingsError::Unauthorized)
            },
        }
    }

    /// Whether `caller` may lock or unlock goal `goal_id`, and if not why:
    /// `lock_goal` and `unlock_goal` may be called exactly when this is `Ok`.
    pub fn check_goal_owner(&self, caller: &String, goal_id: u32) -> (r: Result<(), SavingsError>)
        ensures
            r is Ok <==> goal_check(self.goals(), caller@, goal_id) is Ok,
            goal_check(self.goals(), caller@, goal_id) matches Err(e) ==> r == Err::<(), SavingsError>(e),
    {
        match self.owned_goal(caller, goal_id) {
            Err(e) => Err(e),
            Ok(_) => Ok(()),
        }
    }

    /// Whether `caller` may add `amount` to goal `goal_id`, and if not why:
    /// `add_to_goal` may be called exactly when this is `Ok`.
    pub fn check_add_to_goal(&self, caller: &String, goal_id: u32, amount: i128) -> (r: Result<
        (),
        SavingsError,
    >)
        ensures
            r is Ok <==> add_check(self.goals(), caller@, goal_id, amount) is Ok,
            add_check(self.goals(), caller@, goal_id, amount) matches Err(e) ==> r == Err::<
                (),
                SavingsError,
            >(e),
    {
        if amount <= 0 {
            return Err(SavingsError::InvalidAmount);
        }
        let goal = match self.owned_goal(caller, goal_id) {
            Err(e) => return Err(e),
            Ok(g) => g,
        };
        if goal.current_amount.checked_add(amount).is_none() {
            return Err(SavingsError::Overflow);
        }
        Ok(())
    }

    /// Whether `caller` may withdraw `amount` from goal `goal_id`, and if not why:
    /// `withdraw_from_goal` may be called exactly when this is `Ok`.
    pub fn check_withdraw_from_goal(&self, caller: &String, goal_id: u32, amount: i128) -> (r: Result<
        (),
        SavingsError,
    >)
        ensures
            r is Ok <==> withdraw_check(self.goals(), caller@, goal_id, amount) is Ok,
            withdraw_check(self.goals(), caller@, goal_id, amount) matches Err(e) ==> r == Err::<
                (),
                SavingsError,
            >(e),
    {
        if amount <= 0 {
            return Err(SavingsError::InvalidAmount);
        }
        let goal = match self.owned_goal(caller, goal_id) {
            Err(e) => return Err(e),
            Ok(g) => g,
        };
        if goal.locked {
            return Err(SavingsError::GoalLocked);
        }
        if amount > goal.current_amount {
            return Err(SavingsError::InsufficientBalance);
        }
        Ok(())
    }

    /// Adds `amount` to goal `goal_id` for its owner `caller` and returns the
    /// new balance; `check_add_to_goal` tells when this may be called.
    pub fn add_to_goal(&mut self, caller: &String, goal_id: u32, amount: i128, now: u64) -> (v: i128)
        requires
            add_check(old(self).goals(), caller@, goal_id, amount) is Ok,
        ensures
            lookup(old(self).goals(), goal_id) matches Some(g) && {
                &&& v == g.current_amount + amount
                &&& final(self).goals() == put(old(self).goals(), funded(g, amount))
                &&& final(self).next_goal_id() == old(self).next_goal_id()
                &&& final(self).audit_log() == audit_append(
                    old(self).audit_log(),
                    audit_entry(AuditOp::Add, *caller, now),
                )
                &&& final(self).same_records(&*old(self))
            },
    {
        let mut goal = self.goals.get(goal_id).unwrap();
        let total = goal.current_amount + amount;
        goal.current_amount = total;
        self.store_goal(goal);
        self.append_audit(AuditOp::Add, caller, now);
        total
    }

    /// Withdraws `amount` from unlocked goal `goal_id` for its owner `caller` and
    /// returns the new balance; `check_withdraw_from_goal` tells when this may be
    /// called.
    pub fn withdraw_from_goal(&mut self, caller: &String, goal_id: u32, amount: i128, now: u64) -> (v: i128)
        requires
            withdraw_check(old(self).goals(), caller@, goal_id, amount) is Ok,
        ensures
            lookup(old(self).goals(), goal_id) matches Some(g) && {
                &&& v == g.current_amount - amount
                &&& v >= 0
                &&& final(self).goals() == put(old(self).goals(), withdrawn(g, amount))
                &&& final(self).next_goal_id() == old(self).next_goal_id()
                &&& final(self).audit_log() == audit_append(
                    old(self).audit_log(),
                    audit_entry(AuditOp::Withdraw, *caller, now),
                )
                &&& final(self).same_records(&*old(self))
            },
    {
        let mut goal = self.goals.get(goal_id).unwrap();
        let rest = goal.current_amount - amount;
        goal.current_amount = rest;
        self.store_goal(goal);
        self.append_audit(AuditOp::Withdraw, caller, now);
        rest
    }

    /// Sets whether goal `goal_id` of `caller` is locked.
    fn set_locked(&mut self, caller: &String, goal_id: u32, locked: bool, operation: AuditOp, now: u64)
        requires
            goal_check(old(self).goals(), caller@, goal_id) is Ok,
        ensures
            lookup(old(self).goals(), goal_id) matches Some(g) && {
                &&& final(self).goals() == put(old(self).goals(), SavingsGoal { locked, ..g })
                &&& final(self).next_goal_id() == old(self).next_goal_id()
                &&& final(self).audit_log() == audit_append(
                    old(self).audit_log(),
                    audit_entry(operation, *caller, now),
                )
                &&& final(self).same_records(&*old(self))
            },
    {
        let mut goal = self.goals.get(goal_id).unwrap();
        goal.locked = locked;
        self.store_goal(goal);
        self.append_audit(operation, caller, now);
    }

    /// Locks goal `goal_id` of `caller` against withdrawals and returns `true`;
    /// `check_goal_owner` tells when this may be called.
    pub fn lock_goal(&mut self, caller: &String, goal_id: u32, now: u64) -> (r: bool)
        requires
            goal_check(old(self).goals(), caller@, goal_id) is Ok,
        ensures
            r,
            lookup(old(self).goals(), goal_id) matches Some(g) && {
                &&& final(self).goals() == put(old(self).goals(), SavingsGoal { locked: true, ..g })
                &&& final(self).next_goal_id() == old(self).next_goal_id()
                &&& final(self).audit_log() == audit_append(
                    old(self).audit_log(),
                    audit_entry(AuditOp::Lock, *caller, now),
                )
                &&& final(self).same_records(&*old(self))
            },
    {
        self.set_locked(caller, goal_id, true, AuditOp::Lock, now);
        true
    }

    /// Unlocks goal `goal_id` of `caller` so that it can be withdrawn from, and
    /// returns `true`; `check_goal_owner` tells when this may be called.
    pub fn unlock_goal(&mut self, caller: &String, goal_id: u32, now: u64) -> (r: bool)
        requires
            goal_check(old(self).goals(), caller@, goal_id) is Ok,
        ensures
            r,
            lookup(old(self).goals(), goal_id) matches Some(g) && {
                &&& final(self).goals() == put(old(self).goals(), SavingsGoal { locked: false, ..g })
                &&& final(self).next_goal_id() == old(self).next_goal_id()
                &&& final(self).audit_log() == audit_append(
                    old(self).audit_log(),
                    audit_entry(AuditOp::Unlock, *caller, now),
                )
                &&& final(self).same_records(&*old(self))
            },
    {
        self.set_locked(caller, goal_id, false, AuditOp::Unlock, now);
        true
    }

    /// The active goal `goal_id`, if there is one.
    pub fn get_goal(&self, goal_id: u32) -> (r: Option<SavingsGoal>)
        ensures
            r == lookup(self.goals(), goal_id),
    {
        self.goals.get(goal_id)
    }

    /// The active goals of `owner`, in increasing order of id.
    pub fn get_all_goals(&self, owner: &String) -> (r: Vec<SavingsGoal>)
        ensures
            r@ == self.goals().filter(goal_of(owner@)),
    {
        self.goals.select(&GoalQuery { owner: owner.clone() })
    }

    /// Whether active goal `goal_id` has reached its target; `false` when there
    /// is no such goal.
    pub fn is_goal_completed(&self, goal_id: u32) -> (r: bool)
        ensures
            r == (lookup(self.goals(), goal_id) matches Some(g) && completed(g)),
    {
        match self.goals.get(goal_id) {
            Some(g) => g.current_amount >= g.target_amount,
            None => false,
        }
    }

    /// The current nonce of `address`.
    pub fn get_nonce(&self, address: &String) -> (r: u64)
        ensures
            r == nonce_of(self.nonce_entries(), address@),
    {
        let mut i = self.nonces.len();
        while i > 0
            invariant
                i <= self.nonces@.len(),
                forall|k: int| i <= k < self.nonces@.len() ==> #[trigger] self.nonces@[k].address@
                    != address@,
            decreases i,
        {
            if self.nonces[i - 1].address == *address {
                proof {
                    lemma_nonce_latest(self.nonces@, i - 1, address@);
                }
                return self.nonces[i - 1].nonce;
            }
            i = i - 1;
        }
        proof {
            lemma_nonce_absent(self.nonces@, address@);
        }
        0
    }

    /// Advances the nonce of `caller` by one.
    fn bump_nonce(&mut self, caller: &String)
        requires
            nonce_of(old(self).nonce_entries(), caller@) < u64::MAX,
        ensures
            forall|a: Seq<char>| #[trigger]
                nonce_of(final(self).nonce_entries(), a) == if a == caller@ {
                    nonce_of(old(self).nonce_entries(), a) + 1
                } else {
                    nonce_of(old(self).nonce_entries(), a) as int
                },
            final(self).goals() == old(self).goals(),
            final(self).next_goal_id() == old(self).next_goal_id(),
            final(self).archived() == old(self).archived(),
            final(self).stored_stats() == old(self).stored_stats(),
            final(self).audit_log() == old(self).audit_log(),
            final(self).is_initialized() == old(self).is_initialized(),
    {
        let ghost before = self.nonces@;
        let mut i = self.nonces.len();
        while i > 0
            invariant
                i <= self.nonces@.len(),
                self.nonces@ == before,
                *self == *old(self),
                nonce_of(before, caller@) < u64::MAX,
                forall|k: int| i <= k < self.nonces@.len() ==> #[trigger] self.nonces@[k].address@
                    != caller@,
            decreases i,
        {
            if self.nonces[i - 1].address == *caller {
                let j = i - 1;
                proof {
                    use_type_invariant(&*self);
                    lemma_nonce_latest(before, j as int, caller@);
                }
                let entry = NonceEntry {
                    address: self.nonces[j].address.clone(),
                    nonce: self.nonces[j].nonce + 1,
                };
                proof {
                    lemma_nonce_replace(before, j as int, entry);
                }
                let mut entries: Vec<NonceEntry> = Vec::new();
                std::mem::swap(&mut entries, &mut self.nonces);
                entries.set(j, entry);
                self.nonces = entries;
                return;
            }
            i = i - 1;
        }
        proof {
            use_type_invariant(&*self);
            lemma_nonce_absent(before, caller@);
        }
        let entry = NonceEntry { address: caller.clone(), nonce: 1 };
        proof {
            assert forall|a: Seq<char>| #[trigger]
                nonce_of(before.push(entry), a) == if a == caller@ {
                    nonce_of(before, a) + 1
                } else {
                    nonce_of(before, a) as int
                } by {
                assert(before.push(entry).drop_last() =~= before);
            }
        }
        let mut entries: Vec<NonceEntry> = Vec::new();
        std::mem::swap(&mut entries, &mut self.nonces);
        entries.push(entry);
        self.nonces = entries;
    }

    /// The goals whose ids were handed out, in increasing order of id, with the
    /// last id and a checksum over them.
    pub fn export_snapshot(&self) -> (r: GoalsExportSnapshot)
        ensures
            r.version == SNAPSHOT_VERSION,
            r.next_id == self.next_goal_id(),
            r.goals@ == self.goals().filter(in_snapshot(self.next_goal_id())),
            r.checksum == goals_checksum(SNAPSHOT_VERSION, self.next_goal_id(), r.goals@),
    {
        let goals = self.goals.select(&SnapshotQuery { next_id: self.next_id });
        let checksum = compute_goals_checksum(SNAPSHOT_VERSION, self.next_id, &goals);
        GoalsExportSnapshot { version: SNAPSHOT_VERSION, checksum, next_id: self.next_id, goals }
    }

    /// Whether `caller` may import `snapshot` presenting `nonce`, and if not why:
    /// `import_snapshot` may be called exactly when this is `Ok`.
    pub fn check_import_snapshot(&self, caller: &String, nonce: u64, snapshot: &GoalsExportSnapshot) -> (r:
        Result<(), SavingsError>)
        ensures
            r is Ok <==> import_check(
                self.nonce_entries(),
                caller@,
                nonce,
                snapshot.version,
                snapshot.checksum,
                snapshot.next_id,
                snapshot.goals@,
            ) is Ok,
            import_check(
                self.nonce_entries(),
                caller@,
                nonce,
                snapshot.version,
                snapshot.checksum,
                snapshot.next_id,
                snapshot.goals@,
            ) matches Err(e) ==> r == Err::<(), SavingsError>(e),
    {
        let current = self.get_nonce(caller);
        if nonce != current {
            return Err(SavingsError::InvalidNonce);
        }
        if snapshot.version != SNAPSHOT_VERSION {
            return Err(SavingsError::UnsupportedVersion);
        }
        let expected = compute_goals_checksum(snapshot.version, snapshot.next_id, &snapshot.goals);
        if snapshot.checksum != expected {
            return Err(SavingsError::ChecksumMismatch);
        }
        if current == u64::MAX {
            return Err(SavingsError::NonceOverflow);
        }
        Ok(())
    }

    /// Replaces the active goals and the last id by those of `snapshot`, for
    /// `caller` presenting its current `nonce`, which then advances, and returns
    /// `true`; `check_import_snapshot` tells when this may be called.
    pub fn import_snapshot(
        &mut self,
        caller: &String,
        nonce: u64,
        snapshot: GoalsExportSnapshot,
        now: u64,
    ) -> (r: bool)
        requires
            import_check(
                old(self).nonce_entries(),
                caller@,
                nonce,
                snapshot.version,
                snapshot.checksum,
                snapshot.next_id,
                snapshot.goals@,
            ) is Ok,
        ensures
            r,
            final(self).goals() == put_all(Seq::<SavingsGoal>::empty(), snapshot.goals@),
            final(self).next_goal_id() == snapshot.next_id,
            forall|a: Seq<char>| #[trigger]
                nonce_of(final(self).nonce_entries(), a) == if a == caller@ {
                    nonce + 1
                } else {
                    nonce_of(old(self).nonce_entries(), a) as int
                },
            final(self).audit_log() == audit_append(
                old(self).audit_log(),
                audit_entry(AuditOp::Import, *caller, now),
            ),
            final(self).archived() == old(self).archived(),
            final(self).stored_stats() == old(self).stored_stats(),
            final(self).is_initialized() == old(self).is_initialized(),
    {
        let mut goals: Table<SavingsGoal> = Table::new();
        let n = snapshot.goals.len();
        for i in 0..n
            invariant
                n == snapshot.goals@.len(),
                goals.rows() == put_all(Seq::<SavingsGoal>::empty(), snapshot.goals@.take(i as int)),
        {
            proof {
                assert(snapshot.goals@.take(i + 1).drop_last() =~= snapshot.goals@.take(i as int));
            }
            goals.set(snapshot.goals[i].duplicate());
        }
        proof {
            assert(snapshot.goals@.take(n as int) =~= snapshot.goals@);
            use_type_invariant(&*self);
        }
        self.goals = goals;
        self.next_id = snapshot.next_id;
        self.bump_nonce(caller);
        self.append_audit(AuditOp::Import, caller, now);
        true
    }

    /// At most `limit` audit entries, and never more than the trail holds,
    /// starting at entry `from_index`.
    pub fn get_audit_log(&self, from_index: u32, limit: u32) -> (r: Vec<AuditEntry>)
        ensures
            r@ == audit_window(self.audit_log(), from_index, limit),
            self.audit_log().len() <= MAX_AUDIT_ENTRIES,
    {
        proof {
            use_type_invariant(self);
        }
        let len = self.audit.len();
        let cap: usize = if limit < MAX_AUDIT_ENTRIES {
            limit as usize
        } else {
            MAX_AUDIT_ENTRIES as usize
        };
        let from = from_index as usize;
        let mut out: Vec<AuditEntry> = Vec::new();
        if from >= len {
            return out;
        }
        let end = if from + cap < len {
            from + cap
        } else {
            len
        };
        let mut i = from;
        while i < end
            invariant
                from <= i <= end,
                end <= len,
                len == self.audit@.len(),
                out@ == self.audit@.subrange(from as int, i as int),
            decreases end - i,
        {
            out.push(copy_entry(&self.audit[i]));
            proof {
                assert(self.audit@.subrange(from as int, i + 1) =~= self.audit@.subrange(
                    from as int,
                    i as int,
                ).push(self.audit@[i as int]));
            }
            i = i + 1;
        }
        out
    }

    /// Records the statistics of the current goals and archive, taken at `now`.
    fn record_stats(&mut self, now: u64)
        requires
            old(self).goals().len() <= u32::MAX,
            old(self).archived().len() <= u32::MAX,
        ensures
            final(self).stored_stats() == Some(goal_stats_of(old(self).goals(), old(self).archived(), now)),
            final(self).goals() == old(self).goals(),
            final(self).next_goal_id() == old(self).next_goal_id(),
            final(self).archived() == old(self).archived(),
            final(self).audit_log() == old(self).audit_log(),
            final(self).nonce_entries() == old(self).nonce_entries(),
            final(self).is_initialized() == old(self).is_initialized(),
    {
        proof {
            use_type_invariant(&*self);
        }
        let ghost rows = self.goals.rows();
        let ghost arows = self.archived.rows();
        let n = self.goals.len();
        let m = self.archived.len();
        let mut active_amount: i128 = 0;
        for i in 0..n
            invariant
                n == rows.len(),
                rows == self.goals.rows(),
                active_amount == goals_amount(rows.take(i as int)),
        {
            proof {
                assert(rows.take(i + 1).drop_last() =~= rows.take(i as int));
            }
            active_amount = saturating_sum(active_amount, self.goals.at(i).current_amount);
        }
        let mut archived_total: i128 = 0;
        for i in 0..m
            invariant
                m == arows.len(),
                arows == self.archived.rows(),
                archived_total == archived_goals_amount(arows.take(i as int)),
        {
            proof {
                assert(arows.take(i + 1).drop_last() =~= arows.take(i as int));
            }
            archived_total = saturating_sum(archived_total, self.archived.at(i).final_amount);
        }
        proof {
            assert(rows.take(n as int) =~= rows);
            assert(arows.take(m as int) =~= arows);
        }
        self.stats = Some(
            StorageStats {
                active_goals: n as u32,
                archived_goals: m as u32,
                total_active_amount: active_amount,
                total_archived_amount: archived_total,
                last_updated: now,
            },
        );
    }

    /// The statistics last recorded, or zeros when none were.
    pub fn get_storage_stats(&self) -> (r: StorageStats)
        ensures
            r == match self.stored_stats() {
                Some(st) => st,
                None => StorageStats {
                    active_goals: 0,
                    archived_goals: 0,
                    total_active_amount: 0,
                    total_archived_amount: 0,
                    last_updated: 0,
                },
            },
    {
        match self.stats {
            Some(st) => st,
            None => StorageStats {
                active_goals: 0,
                archived_goals: 0,
                total_active_amount: 0,
                total_archived_amount: 0,
                last_updated: 0,
            },
        }
    }

    /// Moves every goal that reached its target and whose target date is before
    /// `before_timestamp` to the archive, stamped `now`, records fresh statistics,
    /// and returns how many goals were moved.
    pub fn archive_completed_goals(&mut self, caller: &String, before_timestamp: u64, now: u64) -> (count: u32)
        requires
            old(self).goals().len() <= u32::MAX,
            archive_goals(
                old(self).archived(),
                old(self).goals().filter(archivable_goal(before_timestamp)),
                now,
            ).len() <= u32::MAX,
        ensures
            count == old(self).goals().filter(archivable_goal(before_timestamp)).len(),
            final(self).goals() == old(self).goals().filter(kept_goal(before_timestamp)),
            final(self).archived() == archive_goals(
                old(self).archived(),
                old(self).goals().filter(archivable_goal(before_timestamp)),
                now,
            ),
            final(self).stored_stats() == Some(
                goal_stats_of(final(self).goals(), final(self).archived(), now),
            ),
            final(self).audit_log() == audit_append(
                old(self).audit_log(),
                audit_entry(AuditOp::Archive, *caller, now),
            ),
            final(self).next_goal_id() == old(self).next_goal_id(),
            final(self).nonce_entries() == old(self).nonce_entries(),
            final(self).is_initialized() == old(self).is_initialized(),
    {
        proof {
            use_type_invariant(&*self);
        }
        let ghost rows = self.goals.rows();
        let ghost moving = archivable_goal(before_timestamp);
        let ghost staying = kept_goal(before_timestamp);
        let n = self.goals.len();
        let mut archive = Table::new();
        std::mem::swap(&mut archive, &mut self.archived);
        let ghost old_archive = archive.rows();
        let mut kept: Vec<SavingsGoal> = Vec::new();
        let mut count: u32 = 0;
        for i in 0..n
            invariant
                n == rows.len(),
                n <= u32::MAX,
                rows == self.goals.rows(),
                moving == archivable_goal(before_timestamp),
                staying == kept_goal(before_timestamp),
                kept@ == rows.take(i as int).filter(staying),
                count == rows.take(i as int).filter(moving).len(),
                kept@.len() + count == i,
                archive.rows() == archive_goals(old_archive, rows.take(i as int).filter(moving), now),
        {
            proof {
                lemma_filter_step(rows, moving, i as int);
                lemma_filter_step(rows, staying, i as int);
            }
            let g = self.goals.at(i);
            if g.current_amount >= g.target_amount && g.target_date < before_timestamp {
                let entry = ArchivedGoal {
                    id: g.id,
                    owner: g.owner.clone(),
                    name: g.name.clone(),
                    target_amount: g.target_amount,
                    final_amount: g.current_amount,
                    archived_at: now,
                };
                proof {
                    let moved = rows.take(i + 1).filter(moving);
                    assert(moved.drop_last() == rows.take(i as int).filter(moving));
                }
                archive.set(entry);
                count = count + 1;
            } else {
                kept.push(g.duplicate());
            }
        }
        proof {
            assert(rows.take(n as int) =~= rows);
            crate::table::lemma_filter_sorted(rows, staying);
        }
        self.archived = archive;
        self.goals = Table::from_sorted(kept);
        self.record_stats(now);
        self.append_audit(AuditOp::Archive, caller, now);
        count
    }

    /// The archived goals of `owner`, in increasing order of id.
    pub fn get_archived_goals(&self, owner: &String) -> (r: Vec<ArchivedGoal>)
        ensures
            r@ == self.archived().filter(archived_goal_of(owner@)),
    {
        self.archived.select(&ArchivedGoalQuery { owner: owner.clone() })
    }

    /// The archived goal `goal_id`, if there is one.
    pub fn get_archived_goal(&self, goal_id: u32) -> (r: Option<ArchivedGoal>)
        ensures
            r == lookup(self.archived(), goal_id),
    {
        self.archived.get(goal_id)
    }

    /// Whether `caller` may restore archived goal `goal_id`, and if not why:
    /// `restore_goal` may be called only when this is `Ok`.
    pub fn check_restore_goal(&self, caller: &String, goal_id: u32) -> (r: Result<(), SavingsError>)
        ensures
            r is Ok <==> restore_check(self.archived(), caller@, goal_id) is Ok,
            restore_check(self.archived(), caller@, goal_id) matches Err(e) ==> r == Err::<
                (),
                SavingsError,
            >(e),
    {
        match self.archived.get(goal_id) {
            None => Err(SavingsError::ArchivedGoalNotFound),
            Some(a) => if a.owner == *caller {
                Ok(())
            } else {
                Err(SavingsError::Unauthorized)
            },
        }
    }

    /// Moves archived goal `goal_id` of `caller` back to the active goals, locked
    /// and due a year after `now`, records fresh statistics and returns `true`;
    /// `check_restore_goal` tells when this may be called.
    pub fn restore_goal(&mut self, caller: &String, goal_id: u32, now: u64) -> (r: bool)
        requires
            restore_check(old(self).archived(), caller@, goal_id) is Ok,
            restore_check(old(self).archived(), caller@, goal_id) matches Ok(a) ==> now + RESTORE_TERM
                <= u64::MAX && put(old(self).goals(), restored_goal(a, now)).len() <= u32::MAX,
            old(self).archived().len() <= u32::MAX,
        ensures
            r,
            lookup(old(self).archived(), goal_id) matches Some(a) && {
                &&& final(self).goals() == put(old(self).goals(), restored_goal(a, now))
                &&& final(self).archived() == drop_key(old(self).archived(), goal_id)
                &&& final(self).stored_stats() == Some(
                    goal_stats_of(final(self).goals(), final(self).archived(), now),
                )
                &&& final(self).audit_log() == audit_append(
                    old(self).audit_log(),
                    audit_entry(AuditOp::Restore, *caller, now),
                )
                &&& final(self).next_goal_id() == old(self).next_goal_id()
                &&& final(self).nonce_entries() == old(self).nonce_entries()
                &&& final(self).is_initialized() == old(self).is_initialized()
            },
    {
        let entry = self.archived.get(goal_id).unwrap();
        proof {
            use_type_invariant(&*self);
        }
        let goal = SavingsGoal {
            id: entry.id,
            owner: entry.owner,
            name: entry.name,
            target_amount: entry.target_amount,
            current_amount: entry.final_amount,
            target_date: now + RESTORE_TERM,
            locked: true,
        };
        proof {
            use_type_invariant(&self.archived);
            use_type_invariant(&self.goals);
        }
        proof {
            crate::table::lemma_lookup_some(self.archived.rows(), goal_id);
            crate::table::lemma_put(self.goals.rows(), goal);
            crate::table::lemma_drop_key(self.archived.rows(), goal_id);
        }
        let mut goals = Table::new();
        std::mem::swap(&mut goals, &mut self.goals);
        goals.set(goal);
        self.goals = goals;
        let mut archive = Table::new();
        std::mem::swap(&mut archive, &mut self.archived);
        archive.remove(goal_id);
        self.archived = archive;
        self.record_stats(now);
        self.append_audit(AuditOp::Restore, caller, now);
        true
    }

    /// Deletes every archive entry made before `before_timestamp`, records fresh
    /// statistics taken at `now`, and returns how many entries were deleted.
    pub fn cleanup_old_archives(&mut self, caller: &String, before_timestamp: u64, now: u64) -> (count: u32)
        requires
            old(self).goals().len() <= u32::MAX,
            old(self).archived().len() <= u32::MAX,
        ensures
            count == old(self).archived().filter(archived_goal_before(before_timestamp)).len(),
            final(self).archived() == old(self).archived().filter(archived_goal_since(before_timestamp)),
            final(self).stored_stats() == Some(
                goal_stats_of(final(self).goals(), final(self).archived(), now),
            ),
            final(self).audit_log() == audit_append(
                old(self).audit_log(),
                audit_entry(AuditOp::Cleanup, *caller, now),
            ),
            final(self).goals() == old(self).goals(),
            final(self).next_goal_id() == old(self).next_goal_id(),
            final(self).nonce_entries() == old(self).nonce_entries(),
            final(self).is_initialized() == old(self).is_initialized(),
    {
        proof {
            use_type_invariant(&*self);
        }
        let ghost rows = self.archived.rows();
        let ghost going = archived_goal_before(before_timestamp);
        let ghost staying = archived_goal_since(before_timestamp);
        let n = self.archived.len();
        let mut kept: Vec<ArchivedGoal> = Vec::new();
        let mut count: u32 = 0;
        for i in 0..n
            invariant
                n == rows.len(),
                n <= u32::MAX,
                rows == self.archived.rows(),
                going == archived_goal_before(before_timestamp),
                staying == archived_goal_since(before_timestamp),
                kept@ == rows.take(i as int).filter(staying),
                count == rows.take(i as int).filter(going).len(),
                kept@.len() + count == i,
        {
            proof {
                lemma_filter_step(rows, going, i as int);
                lemma_filter_step(rows, staying, i as int);
            }
            let a = self.archived.at(i);
            if a.archived_at < before_timestamp {
                count = count + 1;
            } else {
                kept.push(a.duplicate());
            }
        }
        proof {
            assert(rows.take(n as int) =~= rows);
            crate::table::lemma_filter_sorted(rows, staying);
        }
        self.archived = Table::from_sorted(kept);
        self.record_stats(now);
        self.append_audit(AuditOp::Cleanup, caller, now);
        count
    }
}

/// A copy of an audit entry.
fn copy_entry(e: &AuditEntry) -> (r: AuditEntry)
    ensures
        r == *e,
{
    AuditEntry {
        operation: e.operation,
        caller: e.caller.clone(),
        timestamp: e.timestamp,
        success: e.success,
    }
}

/// The nonce of an address is held by its latest entry.
proof fn lemma_nonce_latest(s: Seq<NonceEntry>, j: int, a: Seq<char>)
    requires
        0 <= j < s.len(),
        s[j].address@ == a,
        forall|k: int| j < k < s.len() ==> #[trigger] s[k].address@ != a,
    ensures
        nonce_of(s, a) == s[j].nonce,
    decreases s.len(),
{
    if j < s.len() - 1 {
        let t = s.drop_last();
        assert(s[s.len() - 1].address@ != a);
        assert forall|k: int| j < k < t.len() implies #[trigger] t[k].address@ != a by {
            assert(t[k] == s[k]);
        }
        lemma_nonce_latest(t, j, a);
    }
}

/// An address without entries has nonce zero.
proof fn lemma_nonce_absent(s: Seq<NonceEntry>, a: Seq<char>)
    requires
        forall|k: int| 0 <= k < s.len() ==> #[trigger] s[k].address@ != a,
    ensures
        nonce_of(s, a) == 0,
    decreases s.len(),
{
    if s.len() > 0 {
        let t = s.drop_last();
        assert(s[s.len() - 1].address@ != a);
        assert forall|k: int| 0 <= k < t.len() implies #[trigger] t[k].address@ != a by {
            assert(t[k] == s[k]);
        }
        lemma_nonce_absent(t, a);
    }
}

/// Replacing the latest entry of an address changes the nonce of that address
/// alone.
proof fn lemma_nonce_replace(s: Seq<NonceEntry>, j: int, e: NonceEntry)
    requires
        0 <= j < s.len(),
        s[j].address@ == e.address@,
        forall|k: int| j < k < s.len() ==> #[trigger] s[k].address@ != e.address@,
    ensures
        forall|a: Seq<char>| #[trigger]
            nonce_of(s.update(j, e), a) == if a == e.address@ {
                e.nonce
            } else {
                nonce_of(s, a)
            },
{
    let u = s.update(j, e);
    assert forall|a: Seq<char>| #[trigger]
        nonce_of(u, a) == if a == e.address@ {
            e.nonce
        } else {
            nonce_of(s, a)
        } by {
        if a == e.address@ {
            assert forall|k: int| j < k < u.len() implies #[trigger] u[k].address@ != a by {
                assert(u[k] == s[k]);
            }
            lemma_nonce_latest(u, j, a);
        } else {
            lemma_nonce_other(s, j, e, a);
        }
    }
}

/// Replacing an entry of another address leaves the nonce of `a` alone.
proof fn lemma_nonce_other(s: Seq<NonceEntry>, j: int, e: NonceEntry, a: Seq<char>)
    requires
        0 <= j < s.len(),
        s[j].address@ != a,
        e.address@ != a,
    ensures
        nonce_of(s.update(j, e), a) == nonce_of(s, a),
    decreases s.len(),
{
    let u = s.update(j, e);
    if j == s.len() - 1 {
        assert(u.drop_last() =~= s.drop_last());
    } else {
        assert(u.drop_last() =~= s.drop_last().update(j, e));
        assert(u.last() == s.last());
        lemma_nonce_other(s.drop_last(), j, e, a);
    }
}


// ----- laws -----

/// Adding an amount to an unlocked goal whose balance is not negative and then
/// withdrawing the same amount succeeds, and leaves the goals exactly as they
/// were.
pub proof fn lemma_add_then_withdraw(
    goals: Seq<SavingsGoal>,
    caller: Seq<char>,
    goal_id: u32,
    amount: i128,
    g: SavingsGoal,
)
    requires
        sorted(goals),
        add_check(goals, caller, goal_id, amount) == Ok::<SavingsGoal, SavingsError>(g),
        !g.locked,
        g.current_amount >= 0,
    ensures
        withdraw_check(put(goals, funded(g, amount)), caller, goal_id, amount) == Ok::<
            SavingsGoal,
            SavingsError,
        >(funded(g, amount)),
        put(put(goals, funded(g, amount)), withdrawn(funded(g, amount), amount)) == goals,
{
    crate::table::lemma_lookup_some(goals, goal_id);
    crate::table::lemma_put(goals, funded(g, amount));
    assert(lookup(put(goals, funded(g, amount)), goal_id) == Some(funded(g, amount)));
    crate::table::lemma_put_twice(goals, funded(g, amount), g);
    assert(withdrawn(funded(g, amount), amount) == g);
    crate::table::lemma_put_same(goals, g);
}

/// Adding to a goal that reached its target keeps it completed.
pub proof fn lemma_funding_keeps_completion(g: SavingsGoal, amount: i128)
    requires
        completed(g),
        amount > 0,
        g.current_amount + amount <= i128::MAX,
    ensures
        completed(funded(g, amount)),
{
}

/// Importing the snapshot that the goals export, with the caller's current
/// nonce, passes every check and stores exactly the exported goals; when every
/// goal's id was handed out, those are all the goals.
pub proof fn lemma_snapshot_roundtrip(
    goals: Seq<SavingsGoal>,
    next_id: u32,
    entries: Seq<NonceEntry>,
    caller: Seq<char>,
)
    requires
        sorted(goals),
        nonce_of(entries, caller) < u64::MAX,
    ensures
        import_check(
            entries,
            caller,
            nonce_of(entries, caller),
            SNAPSHOT_VERSION,
            goals_checksum(SNAPSHOT_VERSION, next_id, goals.filter(in_snapshot(next_id))),
            next_id,
            goals.filter(in_snapshot(next_id)),
        ) is Ok,
        put_all(Seq::<SavingsGoal>::empty(), goals.filter(in_snapshot(next_id))) == goals.filter(
            in_snapshot(next_id),
        ),
        keys_within(goals, next_id) ==> goals.filter(in_snapshot(next_id)) == goals,
{
    crate::table::lemma_filter_sorted(goals, in_snapshot(next_id));
    crate::table::lemma_put_all_sorted(goals.filter(in_snapshot(next_id)));
    if keys_within(goals, next_id) {
        assert forall|i: int| 0 <= i < goals.len() implies #[trigger] in_snapshot(next_id)(goals[i]) by {
            assert(1 <= crate::table::key_at(goals, i) <= next_id);
        }
        crate::table::lemma_filter_everything(goals, in_snapshot(next_id));
    }
}

/// Once an import with `nonce` went through, presenting `nonce` again is
/// refused.
pub proof fn lemma_nonce_replay(
    before: Seq<NonceEntry>,
    after: Seq<NonceEntry>,
    caller: Seq<char>,
    nonce: u64,
    version: u32,
    checksum: u64,
    next_id: u32,
    goals: Seq<SavingsGoal>,
)
    requires
        forall|a: Seq<char>| #[trigger]
            nonce_of(after, a) == if a == caller {
                nonce + 1
            } else {
                nonce_of(before, a) as int
            },
    ensures
        import_check(after, caller, nonce, version, checksum, next_id, goals) == Err::<(), SavingsError>(
            SavingsError::InvalidNonce,
        ),
{
    assert(nonce_of(after, caller) == nonce + 1);
}

/// Its owner can restore an archived goal, which comes back with the id, owner,
/// name, target and balance it had, locked and due a year after the restore.
pub proof fn lemma_archive_then_restore(
    archived: Seq<ArchivedGoal>,
    g: SavingsGoal,
    archived_at: u64,
    now: u64,
)
    requires
        sorted(archived),
        now + RESTORE_TERM <= u64::MAX,
    ensures
        restore_check(put(archived, archive_entry(g, archived_at)), g.owner@, g.id) == Ok::<
            ArchivedGoal,
            SavingsError,
        >(archive_entry(g, archived_at)),
        restored_goal(archive_entry(g, archived_at), now) == (SavingsGoal {
            target_date: (now + RESTORE_TERM) as u64,
            locked: true,
            ..g
        }),
{
    crate::table::lemma_put(archived, archive_entry(g, archived_at));
    assert(lookup(put(archived, archive_entry(g, archived_at)), g.id) == Some(
        archive_entry(g, archived_at),
    ));
}

/// Archiving splits the goals in two without losing any: those moved all
/// reached their target before the cut-off, and none of those kept did.
pub proof fn lemma_archive_partition(goals: Seq<SavingsGoal>, before: u64)
    ensures
        goals.filter(archivable_goal(before)).len() + goals.filter(kept_goal(before)).len()
            == goals.len(),
        forall|i: int|
            0 <= i < goals.filter(archivable_goal(before)).len() ==> #[trigger] archivable_goal(
                before,
            )(goals.filter(archivable_goal(before))[i]),
        forall|i: int|
            0 <= i < goals.filter(kept_goal(before)).len() ==> !archivable_goal(before)(
                #[trigger] goals.filter(kept_goal(before))[i],
            ),
{
    crate::table::lemma_filter_partition(goals, archivable_goal(before), kept_goal(before));
    let moved = goals.filter(archivable_goal(before));
    let kept = goals.filter(kept_goal(before));
    assert forall|i: int| 0 <= i < moved.len() implies #[trigger] archivable_goal(before)(moved[i]) by {
        goals.lemma_filter_pred(archivable_goal(before), i);
    }
    assert forall|i: int| 0 <= i < kept.len() implies !archivable_goal(before)(#[trigger] kept[i]) by {
        goals.lemma_filter_pred(kept_goal(before), i);
    }
}

/// Recording an operation keeps the trail within its capacity and puts the new
/// entry last; only a full trail loses its oldest entry.
pub proof fn lemma_audit_append(log: Seq<AuditEntry>, e: AuditEntry)
    requires
        log.len() <= MAX_AUDIT_ENTRIES,
    ensures
        audit_append(log, e).len() <= MAX_AUDIT_ENTRIES,
        audit_append(log, e).last() == e,
        log.len() < MAX_AUDIT_ENTRIES ==> audit_append(log, e) == log.push(e),
        log.len() == MAX_AUDIT_ENTRIES ==> audit_append(log, e) == log.subrange(
            1,
            MAX_AUDIT_ENTRIES as int,
        ).push(e),
{
    if log.len() == MAX_AUDIT_ENTRIES {
        assert(log.drop_first() =~= log.subrange(1, MAX_AUDIT_ENTRIES as int));
    }
}

/// `get_all_goals(owner)` lists goals of `owner` only, and every goal of `owner`.
pub proof fn lemma_goals_listed_are_the_owners(goals: Seq<SavingsGoal>, owner: Seq<char>)
    ensures
        forall|i: int|
            0 <= i < goals.filter(goal_of(owner)).len() ==> (#[trigger] goals.filter(goal_of(owner))[i]).owner@
                == owner,
        forall|j: int|
            0 <= j < goals.len() && (#[trigger] goals[j]).owner@ == owner ==> goals.filter(
                goal_of(owner),
            ).contains(goals[j]),
{
    goals.filter_lemma(goal_of(owner));
}

/// `get_archived_goals(owner)` lists archived goals of `owner` only, and every
/// archived goal of `owner`.
pub proof fn lemma_archived_goals_listed_are_the_owners(archived: Seq<ArchivedGoal>, owner: Seq<char>)
    ensures
        forall|i: int|
            0 <= i < archived.filter(archived_goal_of(owner)).len() ==> (#[trigger] archived.filter(
                archived_goal_of(owner),
            )[i]).owner@ == owner,
        forall|j: int|
            0 <= j < archived.len() && (#[trigger] archived[j]).owner@ == owner ==> archived.filter(
                archived_goal_of(owner),
            ).contains(archived[j]),
{
    archived.filter_lemma(archived_goal_of(owner));
}

/// The sum that the checksum covers takes in every goal: a goal alone counts its
/// id, target and balance, and two runs of goals count what each counts.
pub proof fn lemma_goal_sum_covers_every_goal(a: Seq<SavingsGoal>, b: Seq<SavingsGoal>, g: SavingsGoal)
    ensures
        goal_sum(Seq::<SavingsGoal>::empty()) == 0,
        goal_sum(seq![g]) == g.id + g.target_amount + g.current_amount,
        goal_sum(a + b) == goal_sum(a) + goal_sum(b),
        goal_sum(a.push(g)) == goal_sum(a) + g.id + g.target_amount + g.current_amount,
    decreases b.len(),
{
    assert(seq![g].drop_last() =~= Seq::<SavingsGoal>::empty());
    assert(a.push(g).drop_last() =~= a);
    if b.len() == 0 {
        assert(a + b =~= a);
    } else {
        lemma_goal_sum_covers_every_goal(a, b.drop_last(), g);
        assert((a + b).drop_last() =~= a + b.drop_last());
        assert((a + b).last() == b.last());
    }
}

/// The checksum of a snapshot is thirty-one times the version, plus the next id,
/// plus the id, target and balance of every goal, modulo 2^64: adding a goal adds
/// its id, target and balance to the sum.
pub proof fn lemma_checksum_of_goals(version: u32, next_id: u32, goals: Seq<SavingsGoal>, g: SavingsGoal)
    ensures
        goals_checksum(version, next_id, Seq::<SavingsGoal>::empty()) as int == ((version + next_id) * 31)
            % 0x1_0000_0000_0000_0000,
        goals_checksum(version, next_id, goals.push(g)) as int == ((version + next_id + goal_sum(goals)
            + g.id + g.target_amount + g.current_amount) * 31) % 0x1_0000_0000_0000_0000,
{
    lemma_goal_sum_covers_every_goal(goals, Seq::<SavingsGoal>::empty(), g);
}

/// `archive_completed_goals(.., before, ..)` moves exactly the goals that reached
/// their target and whose target date is before `before`: each one moved did,
/// each one left active did not, and every such goal is moved.
pub proof fn lemma_archived_goals_were_completed(goals: Seq<SavingsGoal>, before: u64)
    ensures
        forall|i: int|
            0 <= i < goals.filter(archivable_goal(before)).len() ==> {
                let g = #[trigger] goals.filter(archivable_goal(before))[i];
                g.current_amount >= g.target_amount && g.target_date < before
            },
        forall|i: int|
            0 <= i < goals.filter(kept_goal(before)).len() ==> {
                let g = #[trigger] goals.filter(kept_goal(before))[i];
                !(g.current_amount >= g.target_amount && g.target_date < before)
            },
        forall|j: int|
            0 <= j < goals.len() && (#[trigger] goals[j]).current_amount >= goals[j].target_amount
                && goals[j].target_date < before ==> goals.filter(archivable_goal(before)).contains(goals[j]),
{
    goals.filter_lemma(archivable_goal(before));
    goals.filter_lemma(kept_goal(before));
}

/// `cleanup_old_archives(.., before)` keeps exactly the archive entries made at or
/// after `before`.
pub proof fn lemma_goal_cleanup_keeps_recent_entries(archived: Seq<ArchivedGoal>, before: u64)
    ensures
        forall|i: int|
            0 <= i < archived.filter(archived_goal_since(before)).len() ==> (#[trigger] archived.filter(
                archived_goal_since(before),
            )[i]).archived_at >= before,
        forall|j: int|
            0 <= j < archived.len() && (#[trigger] archived[j]).archived_at >= before ==> archived.filter(
                archived_goal_since(before),
            ).contains(archived[j]),
        forall|i: int|
            0 <= i < archived.filter(archived_goal_before(before)).len() ==> (#[trigger] archived.filter(
                archived_goal_before(before),
            )[i]).archived_at < before,
{
    archived.filter_lemma(archived_goal_since(before));
    archived.filter_lemma(archived_goal_before(before));
}

/// A snapshot holds exactly the goals whose id lies between 1 and its next id.
pub proof fn lemma_snapshot_holds_issued_goals(goals: Seq<SavingsGoal>, next_id: u32)
    ensures
        forall|i: int|
            0 <= i < goals.filter(in_snapshot(next_id)).len() ==> {
                let g = #[trigger] goals.filter(in_snapshot(next_id))[i];
                1 <= g.id <= next_id
            },
        forall|j: int|
            0 <= j < goals.len() && 1 <= (#[trigger] goals[j]).id <= next_id ==> goals.filter(
                in_snapshot(next_id),
            ).contains(goals[j]),
{
    goals.filter_lemma(in_snapshot(next_id));
}

/// The totals in the statistics add up every balance: one more goal adds its
/// balance (saturating at the bounds of `i128`), and the empty list counts zero.
pub proof fn lemma_goal_totals_add_up(goals: Seq<SavingsGoal>, archived: Seq<ArchivedGoal>, g: SavingsGoal, a: ArchivedGoal)
    ensures
        goals_amount(Seq::<SavingsGoal>::empty()) == 0,
        goals_amount(goals.push(g)) == sat_add(goals_amount(goals), g.current_amount as int),
        archived_goals_amount(Seq::<ArchivedGoal>::empty()) == 0,
        archived_goals_amount(archived.push(a)) == sat_add(archived_goals_amount(archived), a.final_amount as int),
{
    assert(goals.push(g).drop_last() =~= goals);
    assert(archived.push(a).drop_last() =~= archived);
}

} // verus!
