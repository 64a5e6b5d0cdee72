//! Micro-insurance: policies with owners, monthly premiums and coverage.

use vstd::prelude::*;
use crate::table::{
    Keyed, RowFilter, Table, sorted, key_at, lookup, put, all_rows, lemma_put, lemma_put_keeps,
    lemma_lookup_some,
};

verus! {

/// Seconds in thirty days: a premium buys cover until this long after it is paid.
pub const PREMIUM_PERIOD: u64 = 2592000;

/// Why an insurance operation was refused.
#[derive(Clone, Copy, Debug, PartialEq, Eq, Structural)]
pub enum InsuranceError {
    /// No policy has the given id.
    PolicyNotFound,
    /// The caller does not own the policy.
    Unauthorized,
    /// The policy was deactivated.
    PolicyNotActive,
}

/// The kinds of event that the insurance contract publishes.
#[derive(Clone, Copy, Debug, PartialEq, Eq)]
pub enum InsuranceEvent {
    PolicyCreated,
    PremiumPaid,
    PolicyDeactivated,
    ExternalRefUpdated,
}

/// An insurance policy, owned by the address that created it.
#[derive(Debug, PartialEq, Eq)]
pub struct InsurancePolicy {
    pub id: u32,
    pub owner: String,
    pub name: String,
    pub external_ref: Option<String>,
    pub coverage_type: String,
    pub monthly_premium: i128,
    pub coverage_amount: i128,
    pub active: bool,
    pub next_payment_date: u64,
}

fn copy_reference(r: &Option<String>) -> (c: Option<String>)
    ensures
        c == *r,
{
    match r {
        Some(s) => Some(s.clone()),
        None => None,
    }
}

impl Keyed for InsurancePolicy {
    open spec fn key_spec(&self) -> u32 {
        self.id
    }

    fn key(&self) -> (k: u32) {
        self.id
    }

    fn duplicate(&self) -> (r: Self) {
        InsurancePolicy {
            id: self.id,
            owner: self.owner.clone(),
            name: self.name.clone(),
            external_ref: copy_reference(&self.external_ref),
            coverage_type: self.coverage_type.clone(),
            monthly_premium: self.monthly_premium,
            coverage_amount: self.coverage_amount,
            active: self.active,
            next_payment_date: self.next_payment_date,
        }
    }
}

/// The active policies of `owner` whose id is at most `max_id`.
pub open spec fn active_of(owner: Seq<char>, max_id: u32) -> spec_fn(InsurancePolicy) -> bool {
    |p: InsurancePolicy| p.active && p.owner@ == owner && 1 <= p.id <= max_id
}

/// A query over the active policies of one owner.
pub struct ActivePolicyQuery {
    pub owner: String,
    pub max_id: u32,
}

impl RowFilter<InsurancePolicy> for ActivePolicyQuery {
    open spec fn keep(&self) -> spec_fn(InsurancePolicy) -> bool {
        active_of(self.owner@, self.max_id)
    }

    fn test(&self, p: &InsurancePolicy) -> (r: bool) {
        p.active && p.owner == self.owner && 1 <= p.id && p.id <= self.max_id
    }
}

/// The sum of the monthly premiums of a sequence of policies.
pub open spec fn premium_total(s: Seq<InsurancePolicy>) -> int
    decreases s.len(),
{
    if s.len() == 0 {
        0
    } else {
        premium_total(s.drop_last()) + s.last().monthly_premium
    }
}

/// What a stored policy satisfies: its id was handed out, and its premium is
/// positive.
pub open spec fn policy_ok(next_id: u32) -> spec_fn(InsurancePolicy) -> bool {
    |p: InsurancePolicy| 1 <= p.id <= next_id && p.monthly_premium > 0
}

/// Whether `caller` may act on policy `policy_id`, and if so the policy.
pub open spec fn owner_check(policies: Seq<InsurancePolicy>, caller: Seq<char>, policy_id: u32) -> Result<
    InsurancePolicy,
    InsuranceError,
> {
    match lookup(policies, policy_id) {
        None => Err(InsuranceError::PolicyNotFound),
        Some(p) => if p.owner@ != caller {
            Err(InsuranceError::Unauthorized)
        } else {
            Ok(p)
        },
    }
}

/// Whether `caller` may pay the premium of policy `policy_id`, and if so the policy.
pub open spec fn premium_check(policies: Seq<InsurancePolicy>, caller: Seq<char>, policy_id: u32) -> Result<
    InsurancePolicy,
    InsuranceError,
> {
    match owner_check(policies, caller, policy_id) {
        Err(e) => Err(e),
        Ok(p) => if !p.active {
            Err(InsuranceError::PolicyNotActive)
        } else {
            Ok(p)
        },
    }
}

/// What the insurance contract keeps in storage.
pub struct InsuranceParts {
    pub policies: Vec<InsurancePolicy>,
    pub next_id: u32,
}

/// Whether every policy has an id that was handed out and a positive premium.
fn policies_fit(rows: &Vec<InsurancePolicy>, next_id: u32) -> (b: bool)
    ensures
        b == all_rows(rows@, policy_ok(next_id)),
{
    let n = rows.len();
    for i in 0..n
        invariant
            n == rows@.len(),
            forall|j: int| 0 <= j < i ==> #[trigger] policy_ok(next_id)(rows@[j]),
    {
        let p = &rows[i];
        if !(1 <= p.id && p.id <= next_id && p.monthly_premium > 0) {
            proof {
                assert(!policy_ok(next_id)(rows@[i as int]));
            }
            return false;
        }
    }
    true
}

/// The state of the insurance contract.
pub struct Insurance {
    policies: Table<InsurancePolicy>,
    next_id: u32,
}

impl Insurance {
    #[verifier::type_invariant]
    spec fn policies_fit(self) -> bool {
        all_rows(self.policies.rows(), policy_ok(self.next_id))
    }

    /// The policies, in increasing order of id.
    pub closed spec fn policies(&self) -> Seq<InsurancePolicy> {
        self.policies.rows()
    }

    /// The last policy id handed out.
    pub closed spec fn next_policy_id(&self) -> u32 {
        self.next_id
    }

    /// The contract before any policy was created.
    pub fn new() -> (r: Self)
        ensures
            r.policies() == Seq::<InsurancePolicy>::empty(),
            r.next_policy_id() == 0,
    {
        Insurance { policies: Table::new(), next_id: 0 }
    }

    /// Rebuilds the contract from what it keeps in storage, when that is
    /// consistent: policies in increasing order of id, each with an id that was
    /// handed out and a positive premium.
    pub fn from_parts(parts: InsuranceParts) -> (r: Option<Self>)
        ensures
            r is Some <==> sorted(parts.policies@) && all_rows(parts.policies@, policy_ok(parts.next_id)),
            r matches Some(c) ==> c.policies() == parts.policies@ && c.next_policy_id() == parts.next_id,
    {
        if !policies_fit(&parts.policies, parts.next_id) {
            return None;
        }
        match Table::from_rows(parts.policies) {
            None => None,
            Some(policies) => Some(Insurance { policies, next_id: parts.next_id }),
        }
    }

    /// What the contract keeps in storage.
    pub fn into_parts(self) -> (r: InsuranceParts)
        ensures
            r.policies@ == self.policies(),
            r.next_id == self.next_policy_id(),
    {
        InsuranceParts { policies: self.policies.into_rows(), next_id: self.next_id }
    }

    /// How many policies there are. They are in increasing order of id, each
    /// with an id that was handed out and a positive premium.
    pub fn policy_count(&self) -> (n: usize)
        ensures
            n == self.policies().len(),
            sorted(self.policies()),
            all_rows(self.policies(), policy_ok(self.next_policy_id())),
    {
        proof {
            use_type_invariant(self);
        }
        self.policies.len()
    }

    /// The last policy id handed out.
    pub fn last_policy_id(&self) -> (r: u32)
        ensures
            r == self.next_policy_id(),
    {
        self.next_id
    }

    /// Creates an active policy of `owner`, paid up for thirty days from `now`,
    /// and returns its id: one more than the last id handed out. The premium and
    /// the coverage must be positive.
    pub fn create_policy(
        &mut self,
        owner: String,
        name: String,
        coverage_type: String,
        monthly_premium: i128,
        coverage_amount: i128,
        external_ref: Option<String>,
        now: u64,
    ) -> (id: u32)
        requires
            monthly_premium > 0,
            coverage_amount > 0,
            old(self).next_policy_id() < u32::MAX,
            now + PREMIUM_PERIOD <= u64::MAX,
        ensures
            id == old(self).next_policy_id() + 1,
            final(self).next_policy_id() == id,
            final(self).policies() == old(self).policies().push(
                InsurancePolicy {
                    id,
                    owner,
                    name,
                    external_ref,
                    coverage_type,
                    monthly_premium,
                    coverage_amount,
                    active: true,
                    next_payment_date: (now + PREMIUM_PERIOD) as u64,
                },
            ),
    {
        proof {
            use_type_invariant(&*self);
        }
        let next_id = self.next_id + 1;
        let policy = InsurancePolicy {
            id: next_id,
            owner,
            name,
            external_ref,
            coverage_type,
            monthly_premium,
            coverage_amount,
            active: true,
            next_payment_date: now + PREMIUM_PERIOD,
        };
        let ghost old_rows = self.policies.rows();
        let mut policies = Table::new();
        std::mem::swap(&mut policies, &mut self.policies);
        proof {
            use_type_invariant(&policies);
            assert forall|j: int| 0 <= j < old_rows.len() implies key_at(old_rows, j)
                < policy.key_spec() by {
                assert(policy_ok(self.next_id)(old_rows[j]));
            }
            lemma_put(old_rows, policy);
            assert forall|j: int| 0 <= j < old_rows.len() implies #[trigger] policy_ok(next_id)(
                old_rows[j],
            ) by {
                assert(policy_ok(self.next_id)(old_rows[j]));
            }
            lemma_put_keeps(old_rows, policy, policy_ok(next_id));
        }
        policies.set(policy);
        self.next_id = next_id;
        self.policies = policies;
        next_id
    }

    /// The policy `policy_id` when `caller` owns it, or why `caller` may not act
    /// on it.
    fn owned_policy(&self, caller: &String, policy_id: u32) -> (r: Result<InsurancePolicy, InsuranceError>)
        ensures
            r == owner_check(self.policies(), caller@, policy_id),
    {
        match self.policies.get(policy_id) {
            None => Err(InsuranceError::PolicyNotFound),
            Some(p) => if p.owner == *caller {
                Ok(p)
            } else {
                Err(InsuranceError::Unauthorized)
            },
        }
    }

    /// Whether `caller` may deactivate policy `policy_id` or set its external
    /// reference, and if not why: `deactivate_policy` and `set_external_ref` may
    /// be called exactly when this is `Ok`.
    pub fn check_policy_owner(&self, caller: &String, policy_id: u32) -> (r: Result<(), InsuranceError>)
        ensures
            r is Ok <==> owner_check(self.policies(), caller@, policy_id) is Ok,
            owner_check(self.policies(), caller@, policy_id) matches Err(e) ==> r == Err::<
                (),
                InsuranceError,
            >(e),
    {
        match self.owned_policy(caller, policy_id) {
            Err(e) => Err(e),
            Ok(_) => Ok(()),
        }
    }

    /// Whether `caller` may pay the premium of policy `policy_id`, and if not why:
    /// `pay_premium` may be called only when this is `Ok`.
    pub fn check_pay_premium(&self, caller: &String, policy_id: u32) -> (r: Result<(), InsuranceError>)
        ensures
            r is Ok <==> premium_check(self.policies(), caller@, policy_id) is Ok,
            premium_check(self.policies(), caller@, policy_id) matches Err(e) ==> r == Err::<
                (),
                InsuranceError,
            >(e),
    {
        match self.owned_policy(caller, policy_id) {
            Err(e) => Err(e),
            Ok(p) => if p.active {
                Ok(())
            } else {
                Err(InsuranceError::PolicyNotActive)
            },
        }
    }

    /// Pays the premium of active policy `policy_id` for its owner `caller`: the
    /// policy is paid up for thirty days from `now`; returns `true`.
    /// `check_pay_premium` tells when this may be called.
    pub fn pay_premium(&mut self, caller: &String, policy_id: u32, now: u64) -> (r: bool)
        requires
            premium_check(old(self).policies(), caller@, policy_id) is Ok,
            now + PREMIUM_PERIOD <= u64::MAX,
        ensures
            r,
            lookup(old(self).policies(), policy_id) matches Some(p) && {
                &&& final(self).policies() == put(
                    old(self).policies(),
                    InsurancePolicy { next_payment_date: (now + PREMIUM_PERIOD) as u64, ..p },
                )
                &&& final(self).next_policy_id() == old(self).next_policy_id()
            },
    {
        let mut policy = self.policies.get(policy_id).unwrap();
        policy.next_payment_date = now + PREMIUM_PERIOD;
        self.store_policy(policy);
        true
    }

    /// Stores `policy` over the policy with its id.
    fn store_policy(&mut self, policy: InsurancePolicy)
        requires
            lookup(old(self).policies(), policy.id) matches Some(p) && p.monthly_premium
                == policy.monthly_premium,
        ensures
            final(self).policies() == put(old(self).policies(), policy),
            final(self).next_policy_id() == old(self).next_policy_id(),
    {
        proof {
            use_type_invariant(&*self);
            use_type_invariant(&self.policies);
        }
        proof {
            lemma_lookup_some(self.policies.rows(), policy.id);
            let p = lookup(self.policies.rows(), policy.id)->0;
            assert(policy_ok(self.next_id)(p));
        }
        let mut policies = Table::new();
        std::mem::swap(&mut policies, &mut self.policies);
        proof {
            lemma_put_keeps(policies.rows(), policy, policy_ok(self.next_id));
        }
        policies.set(policy);
        self.policies = policies;
    }

    /// The policy `policy_id`, if there is one.
    pub fn get_policy(&self, policy_id: u32) -> (r: Option<InsurancePolicy>)
        ensures
            r == lookup(self.policies(), policy_id),
    {
        self.policies.get(policy_id)
    }

    /// The active policies of `owner`, in increasing order of id, among the ids
    /// handed out.
    pub fn get_active_policies(&self, owner: &String) -> (r: Vec<InsurancePolicy>)
        ensures
            r@ == self.policies().filter(active_of(owner@, self.next_policy_id())),
    {
        self.policies.select(&ActivePolicyQuery { owner: owner.clone(), max_id: self.next_id })
    }

    /// The sum of the monthly premiums of the active policies of `owner`.
    pub fn get_total_monthly_premium(&self, owner: &String) -> (total: i128)
        requires
            premium_total(self.policies().filter(active_of(owner@, self.next_policy_id())))
                <= i128::MAX,
        ensures
            total == premium_total(self.policies().filter(active_of(owner@, self.next_policy_id()))),
    {
        proof {
            use_type_invariant(self);
        }
        let active = self.get_active_policies(owner);
        let ghost rows = active@;
        proof {
            crate::table::lemma_filter_keeps(
                self.policies.rows(),
                active_of(owner@, self.next_id),
                policy_ok(self.next_id),
            );
        }
        let mut total: i128 = 0;
        let n = active.len();
        for i in 0..n
            invariant
                n == rows.len(),
                rows == active@,
                all_rows(rows, policy_ok(self.next_id)),
                premium_total(rows) <= i128::MAX,
                total == premium_total(rows.take(i as int)),
        {
            proof {
                assert(rows.take(i + 1).drop_last() =~= rows.take(i as int));
                lemma_premium_total_prefix(rows, i + 1, self.next_id);
            }
            total = total + active[i].monthly_premium;
        }
        proof {
            assert(rows.take(n as int) =~= rows);
        }
        total
    }

    /// Deactivates policy `policy_id` of `caller` and returns `true`;
    /// `check_policy_owner` tells when this may be called.
    pub fn deactivate_policy(&mut self, caller: &String, policy_id: u32) -> (r: bool)
        requires
            owner_check(old(self).policies(), caller@, policy_id) is Ok,
        ensures
            r,
            lookup(old(self).policies(), policy_id) matches Some(p) && {
                &&& final(self).policies() == put(
                    old(self).policies(),
                    InsurancePolicy { active: false, ..p },
                )
                &&& final(self).next_policy_id() == old(self).next_policy_id()
            },
    {
        let mut policy = self.policies.get(policy_id).unwrap();
        policy.active = false;
        self.store_policy(policy);
        true
    }

    /// Sets or clears the external reference of policy `policy_id` of `caller`
    /// and returns `true`; `check_policy_owner` tells when this may be called.
    pub fn set_external_ref(
        &mut self,
        caller: &String,
        policy_id: u32,
        external_ref: Option<String>,
    ) -> (r: bool)
        requires
            owner_check(old(self).policies(), caller@, policy_id) is Ok,
        ensures
            r,
            lookup(old(self).policies(), policy_id) matches Some(p) && {
                &&& final(self).policies() == put(
                    old(self).policies(),
                    InsurancePolicy { external_ref, ..p },
                )
                &&& final(self).next_policy_id() == old(self).next_policy_id()
            },
    {
        let mut policy = self.policies.get(policy_id).unwrap();
        policy.external_ref = external_ref;
        self.store_policy(policy);
        true
    }
}

/// Partial sums of positive premiums grow toward the full sum.
proof fn lemma_premium_total_prefix(s: Seq<InsurancePolicy>, i: int, next_id: u32)
    requires
        all_rows(s, policy_ok(next_id)),
        0 <= i <= s.len(),
    ensures
        0 <= premium_total(s.take(i)) <= premium_total(s),
    decreases s.len(),
{
    if i == s.len() {
        assert(s.take(i) =~= s);
        lemma_premium_total_nonneg(s, next_id);
    } else {
        let t = s.drop_last();
        assert(all_rows(t, policy_ok(next_id))) by {
            assert forall|j: int| 0 <= j < t.len() implies #[trigger] policy_ok(next_id)(t[j]) by {
                assert(t[j] == s[j]);
            }
        }
        assert(t.take(i) =~= s.take(i));
        lemma_premium_total_prefix(t, i, next_id);
        assert(policy_ok(next_id)(s[s.len() - 1]));
    }
}

proof fn lemma_premium_total_nonneg(s: Seq<InsurancePolicy>, next_id: u32)
    requires
        all_rows(s, policy_ok(next_id)),
    ensures
        0 <= premium_total(s),
    decreases s.len(),
{
    if s.len() > 0 {
        let t = s.drop_last();
        assert(all_rows(t, policy_ok(next_id))) by {
            assert forall|j: int| 0 <= j < t.len() implies #[trigger] policy_ok(next_id)(t[j]) by {
                assert(t[j] == s[j]);
            }
        }
        lemma_premium_total_nonneg(t, next_id);
        assert(policy_ok(next_id)(s[s.len() - 1]));
    }
}


/// Once its owner deactivated a policy, paying its premium is refused as not
/// active.
pub proof fn lemma_deactivated_refuses_premium(
    policies: Seq<InsurancePolicy>,
    caller: Seq<char>,
    policy_id: u32,
    p: InsurancePolicy,
)
    requires
        crate::table::sorted(policies),
        owner_check(policies, caller, policy_id) == Ok::<InsurancePolicy, InsuranceError>(p),
    ensures
        premium_check(put(policies, InsurancePolicy { active: false, ..p }), caller, policy_id)
            == Err::<InsurancePolicy, InsuranceError>(InsuranceError::PolicyNotActive),
{
    lemma_lookup_some(policies, policy_id);
    lemma_put(policies, InsurancePolicy { active: false, ..p });
    assert(lookup(put(policies, InsurancePolicy { active: false, ..p }), policy_id) == Some(
        InsurancePolicy { active: false, ..p },
    ));
}

/// Paying the premium of a policy keeps it payable by its owner, paid up until
/// thirty days after the payment.
pub proof fn lemma_premium_keeps_policy(
    policies: Seq<InsurancePolicy>,
    caller: Seq<char>,
    policy_id: u32,
    p: InsurancePolicy,
    now: u64,
)
    requires
        crate::table::sorted(policies),
        premium_check(policies, caller, policy_id) == Ok::<InsurancePolicy, InsuranceError>(p),
        now + PREMIUM_PERIOD <= u64::MAX,
    ensures
        premium_check(
            put(policies, InsurancePolicy { next_payment_date: (now + PREMIUM_PERIOD) as u64, ..p }),
            caller,
            policy_id,
        ) is Ok,
        lookup(
            put(policies, InsurancePolicy { next_payment_date: (now + PREMIUM_PERIOD) as u64, ..p }),
            policy_id,
        ) == Some(InsurancePolicy { next_payment_date: (now + PREMIUM_PERIOD) as u64, ..p }),
{
    let q = InsurancePolicy { next_payment_date: (now + PREMIUM_PERIOD) as u64, ..p };
    lemma_lookup_some(policies, policy_id);
    lemma_put(policies, q);
    assert(lookup(put(policies, q), policy_id) == Some(q));
}

/// `get_active_policies(owner)` lists active policies of `owner` only, among
/// the ids handed out up to `max_id`, and every such policy.
pub proof fn lemma_policies_listed_are_the_owners(policies: Seq<InsurancePolicy>, owner: Seq<char>, max_id: u32)
    ensures
        forall|i: int|
            0 <= i < policies.filter(active_of(owner, max_id)).len() ==> {
                let p = #[trigger] policies.filter(active_of(owner, max_id))[i];
                p.active && p.owner@ == owner && 1 <= p.id <= max_id
            },
        forall|j: int|
            0 <= j < policies.len() && (#[trigger] policies[j]).active && policies[j].owner@ == owner
                && 1 <= policies[j].id <= max_id ==> policies.filter(active_of(owner, max_id)).contains(
                policies[j],
            ),
{
    policies.filter_lemma(active_of(owner, max_id));
}

/// The premium total adds up every premium: the empty list counts zero, one more
/// policy adds its premium, and two lists count what each counts.
pub proof fn lemma_premium_total_adds_up(a: Seq<InsurancePolicy>, b: Seq<InsurancePolicy>, p: InsurancePolicy)
    ensures
        premium_total(Seq::<InsurancePolicy>::empty()) == 0,
        premium_total(a.push(p)) == premium_total(a) + p.monthly_premium,
        premium_total(a + b) == premium_total(a) + premium_total(b),
    decreases b.len(),
{
    assert(a.push(p).drop_last() =~= a);
    if b.len() == 0 {
        assert(a + b =~= a);
    } else {
        lemma_premium_total_adds_up(a, b.drop_last(), p);
        assert((a + b).drop_last() =~= a + b.drop_last());
    }
}

} // verus!
