use remitwise::insurance::{Insurance, InsuranceError, InsuranceParts, InsurancePolicy, PREMIUM_PERIOD};

const NOW: u64 = 1000000000;

fn s(x: &str) -> String {
    x.to_string()
}

// The contract answers a refused request by panicking with these messages.

fn create(
    c: &mut Insurance,
    owner: &str,
    name: &str,
    coverage_type: &str,
    premium: i128,
    coverage: i128,
    external_ref: Option<String>,
    now: u64,
) -> u32 {
    if premium <= 0 {
        panic!("Monthly premium must be positive");
    }
    if coverage <= 0 {
        panic!("Coverage amount must be positive");
    }
    c.create_policy(s(owner), s(name), s(coverage_type), premium, coverage, external_ref, now)
}

fn pay(c: &mut Insurance, caller: &str, id: u32, now: u64) -> bool {
    match c.check_pay_premium(&s(caller), id) {
        Ok(()) => c.pay_premium(&s(caller), id, now),
        Err(InsuranceError::PolicyNotFound) => panic!("Policy not found"),
        Err(InsuranceError::Unauthorized) => panic!("Only the policy owner can pay premiums"),
        Err(InsuranceError::PolicyNotActive) => panic!("Policy is not active"),
    }
}

fn deactivate(c: &mut Insurance, caller: &str, id: u32) -> bool {
    match c.check_policy_owner(&s(caller), id) {
        Ok(()) => c.deactivate_policy(&s(caller), id),
        Err(InsuranceError::PolicyNotFound) => panic!("Policy not found"),
        Err(InsuranceError::Unauthorized) => panic!("Only the policy owner can deactivate this policy"),
        Err(e) => panic!("{:?}", e),
    }
}

fn set_ref(c: &mut Insurance, caller: &str, id: u32, r: Option<String>) -> bool {
    match c.check_policy_owner(&s(caller), id) {
        Ok(()) => c.set_external_ref(&s(caller), id, r),
        Err(InsuranceError::PolicyNotFound) => panic!("Policy not found"),
        Err(InsuranceError::Unauthorized) => {
            panic!("Only the policy owner can update this policy reference")
        }
        Err(e) => panic!("{:?}", e),
    }
}

fn policy(c: &Insurance, id: u32) -> InsurancePolicy {
    c.get_policy(id).unwrap()
}

#[test]
fn test_create_policy_success() {
    let mut c = Insurance::new();
    let external_ref = Some(s("POLICY-EXT-1"));
    let policy_id = create(&mut c, "owner", "Health Insurance", "health", 100, 10000, external_ref.clone(), NOW);
    assert_eq!(policy_id, 1);
    let p = policy(&c, policy_id);
    assert_eq!(p.id, 1);
    assert_eq!(p.owner, "owner");
    assert_eq!(p.name, "Health Insurance");
    assert_eq!(p.external_ref, external_ref);
    assert_eq!(p.coverage_type, "health");
    assert_eq!(p.monthly_premium, 100);
    assert_eq!(p.coverage_amount, 10000);
    assert!(p.active);
    assert_eq!(p.next_payment_date, 1000000000 + (30 * 86400));
}

#[test]
#[should_panic(expected = "Monthly premium must be positive")]
fn test_create_policy_zero_premium() {
    let mut c = Insurance::new();
    create(&mut c, "owner", "Health Insurance", "health", 0, 10000, None, NOW);
}

#[test]
#[should_panic(expected = "Monthly premium must be positive")]
fn test_create_policy_negative_premium() {
    let mut c = Insurance::new();
    create(&mut c, "owner", "Health Insurance", "health", -100, 10000, None, NOW);
}

#[test]
#[should_panic(expected = "Coverage amount must be positive")]
fn test_create_policy_zero_coverage() {
    let mut c = Insurance::new();
    create(&mut c, "owner", "Health Insurance", "health", 100, 0, None, NOW);
}

#[test]
#[should_panic(expected = "Coverage amount must be positive")]
fn test_create_policy_negative_coverage() {
    let mut c = Insurance::new();
    create(&mut c, "owner", "Health Insurance", "health", 100, -10000, None, NOW);
}

#[test]
fn test_pay_premium_success() {
    let mut c = Insurance::new();
    let id = create(&mut c, "owner", "Health Insurance", "health", 100, 10000, None, NOW);
    assert!(pay(&mut c, "owner", id, NOW));
    assert_eq!(policy(&c, id).next_payment_date, 1000000000 + (30 * 86400));
}

#[test]
#[should_panic(expected = "Policy is not active")]
fn test_pay_premium_inactive_policy() {
    let mut c = Insurance::new();
    let id = create(&mut c, "owner", "Health Insurance", "health", 100, 10000, None, NOW);
    deactivate(&mut c, "owner", id);
    pay(&mut c, "owner", id, NOW);
}

#[test]
#[should_panic(expected = "Policy not found")]
fn test_pay_premium_nonexistent_policy() {
    let mut c = Insurance::new();
    pay(&mut c, "owner", 999, NOW);
}

#[test]
fn test_get_policy_nonexistent() {
    let c = Insurance::new();
    assert!(c.get_policy(999).is_none());
}

#[test]
fn lib_test_get_active_policies() {
    let mut c = Insurance::new();
    let id1 = create(&mut c, "owner", "Health Insurance", "health", 100, 10000, None, NOW);
    let id2 = create(&mut c, "owner", "Emergency Insurance", "emergency", 200, 20000, None, NOW);
    let id3 = create(&mut c, "owner", "Life Insurance", "life", 300, 30000, None, NOW);
    deactivate(&mut c, "owner", id2);
    let active = c.get_active_policies(&s("owner"));
    assert_eq!(active.len(), 2);
    let ids: Vec<u32> = active.iter().map(|p| p.id).collect();
    assert!(ids.contains(&id1));
    assert!(ids.contains(&id3));
    assert!(!ids.contains(&id2));
}

#[test]
fn lib_test_get_total_monthly_premium() {
    let mut c = Insurance::new();
    create(&mut c, "owner", "Health Insurance", "health", 100, 10000, None, NOW);
    create(&mut c, "owner", "Emergency Insurance", "emergency", 200, 20000, None, NOW);
    let id3 = create(&mut c, "owner", "Life Insurance", "life", 300, 30000, None, NOW);
    deactivate(&mut c, "owner", id3);
    assert_eq!(c.get_total_monthly_premium(&s("owner")), 300);
}

#[test]
fn test_deactivate_policy_success() {
    let mut c = Insurance::new();
    let id = create(&mut c, "owner", "Health Insurance", "health", 100, 10000, None, NOW);
    assert!(deactivate(&mut c, "owner", id));
    assert!(!policy(&c, id).active);
}

#[test]
#[should_panic(expected = "Policy not found")]
fn test_deactivate_policy_nonexistent() {
    let mut c = Insurance::new();
    deactivate(&mut c, "owner", 999);
}

#[test]
fn test_set_external_ref_success() {
    let mut c = Insurance::new();
    let id = create(&mut c, "owner", "Health Insurance", "health", 100, 10000, None, NOW);
    let external_ref = Some(s("POLICY-EXT-99"));
    assert!(set_ref(&mut c, "owner", id, external_ref.clone()));
    assert_eq!(policy(&c, id).external_ref, external_ref);
}

#[test]
#[should_panic(expected = "Only the policy owner can update this policy reference")]
fn test_set_external_ref_unauthorized() {
    let mut c = Insurance::new();
    let id = create(&mut c, "owner", "Health Insurance", "health", 100, 10000, None, NOW);
    set_ref(&mut c, "other", id, Some(s("POLICY-EXT-99")));
}

#[test]
fn test_multiple_policies_management() {
    let mut c = Insurance::new();
    let names = ["Policy 1", "Policy 2", "Policy 3", "Policy 4", "Policy 5"];
    let mut ids = Vec::new();
    for (i, name) in names.iter().enumerate() {
        let premium = ((i + 1) as i128) * 100;
        let coverage = ((i + 1) as i128) * 10000;
        ids.push(create(&mut c, "owner", name, "health", premium, coverage, None, NOW));
    }
    for id in ids.iter() {
        assert!(pay(&mut c, "owner", *id, NOW));
    }
    deactivate(&mut c, "owner", ids[1]);
    deactivate(&mut c, "owner", ids[3]);
    assert_eq!(c.get_active_policies(&s("owner")).len(), 3);
    assert_eq!(c.get_total_monthly_premium(&s("owner")), 900);
}

#[test]
fn test_large_amounts() {
    let mut c = Insurance::new();
    let monthly_premium = i128::MAX / 2;
    let coverage_amount = i128::MAX / 2;
    let id = create(&mut c, "owner", "Premium Insurance", "premium", monthly_premium, coverage_amount, None, NOW);
    let p = policy(&c, id);
    assert_eq!(p.monthly_premium, monthly_premium);
    assert_eq!(p.coverage_amount, coverage_amount);
}

// ----- policies without external references -----

#[test]
fn test_create_policy() {
    let mut c = Insurance::new();
    let id = create(&mut c, "owner", "Health Policy", "Health", 100, 10000, None, 0);
    assert_eq!(id, 1);
    let p = policy(&c, id);
    assert_eq!(p.owner, "owner");
    assert_eq!(p.monthly_premium, 100);
    assert_eq!(p.coverage_amount, 10000);
    assert!(p.active);
}

#[test]
#[should_panic(expected = "Monthly premium must be positive")]
fn test_create_policy_invalid_premium() {
    let mut c = Insurance::new();
    create(&mut c, "owner", "Bad", "Type", 0, 10000, None, 0);
}

#[test]
#[should_panic(expected = "Coverage amount must be positive")]
fn test_create_policy_invalid_coverage() {
    let mut c = Insurance::new();
    create(&mut c, "owner", "Bad", "Type", 100, 0, None, 0);
}

#[test]
fn test_pay_premium() {
    let mut c = Insurance::new();
    let id = create(&mut c, "owner", "Policy", "Type", 100, 10000, None, 0);
    let initial_due = policy(&c, id).next_payment_date;
    assert!(pay(&mut c, "owner", id, 1000));
    assert!(policy(&c, id).next_payment_date > initial_due);
}

#[test]
#[should_panic(expected = "Only the policy owner can pay premiums")]
fn test_pay_premium_unauthorized() {
    let mut c = Insurance::new();
    let id = create(&mut c, "owner", "Policy", "Type", 100, 10000, None, 0);
    pay(&mut c, "other", id, 0);
}

#[test]
fn test_deactivate_policy() {
    let mut c = Insurance::new();
    let id = create(&mut c, "owner", "Policy", "Type", 100, 10000, None, 0);
    assert!(deactivate(&mut c, "owner", id));
    assert!(!policy(&c, id).active);
}

#[test]
fn test_test_get_active_policies() {
    let mut c = Insurance::new();
    create(&mut c, "owner", "P1", "T1", 100, 1000, None, 0);
    let p2 = create(&mut c, "owner", "P2", "T2", 200, 2000, None, 0);
    create(&mut c, "owner", "P3", "T3", 300, 3000, None, 0);
    deactivate(&mut c, "owner", p2);
    assert_eq!(c.get_active_policies(&s("owner")).len(), 2);
}

#[test]
fn test_test_get_total_monthly_premium() {
    let mut c = Insurance::new();
    create(&mut c, "owner", "P1", "T1", 100, 1000, None, 0);
    create(&mut c, "owner", "P2", "T2", 200, 2000, None, 0);
    assert_eq!(c.get_total_monthly_premium(&s("owner")), 300);
}

#[test]
fn test_multiple_premium_payments() {
    let mut c = Insurance::new();
    let id = create(&mut c, "owner", "LongTerm", "Life", 100, 10000, None, 0);
    let first_due = policy(&c, id).next_payment_date;
    pay(&mut c, "owner", id, 0);
    pay(&mut c, "owner", id, 5000);
    let p2 = policy(&c, id);
    assert!(p2.next_payment_date > first_due);
    assert_eq!(p2.next_payment_date, 5000 + (30 * 86400));
}

// ----- further cases -----

#[test]
fn deactivated_policy_refuses_premium_but_keeps_its_data() {
    let mut c = Insurance::new();
    let id = create(&mut c, "owner", "P", "T", 100, 1000, Some(s("R")), 7);
    assert!(deactivate(&mut c, "owner", id));
    assert_eq!(c.check_pay_premium(&s("owner"), id), Err(InsuranceError::PolicyNotActive));
    let p = policy(&c, id);
    assert_eq!(p.next_payment_date, 7 + PREMIUM_PERIOD);
    assert_eq!(p.external_ref, Some(s("R")));
}

#[test]
fn policies_of_other_owners_are_not_counted() {
    let mut c = Insurance::new();
    create(&mut c, "alice", "A", "T", 100, 1000, None, 0);
    create(&mut c, "bob", "B", "T", 250, 1000, None, 0);
    assert_eq!(c.get_total_monthly_premium(&s("alice")), 100);
    assert_eq!(c.get_total_monthly_premium(&s("bob")), 250);
    assert_eq!(c.get_active_policies(&s("carol")).len(), 0);
    assert_eq!(c.check_policy_owner(&s("bob"), 1), Err(InsuranceError::Unauthorized));
    assert_eq!(c.check_pay_premium(&s("bob"), 1), Err(InsuranceError::Unauthorized));
    assert_eq!(c.check_pay_premium(&s("bob"), 9), Err(InsuranceError::PolicyNotFound));
    assert_eq!(c.last_policy_id(), 2);
}

#[test]
fn clearing_an_external_reference() {
    let mut c = Insurance::new();
    let id = create(&mut c, "owner", "P", "T", 100, 1000, Some(s("R")), 0);
    assert!(set_ref(&mut c, "owner", id, None));
    assert_eq!(policy(&c, id).external_ref, None);
}

#[test]
fn stored_policies_round_trip() {
    let mut c = Insurance::new();
    create(&mut c, "owner", "P", "T", 100, 1000, None, 0);
    create(&mut c, "owner", "Q", "T", 200, 1000, None, 0);
    let parts = c.into_parts();
    assert_eq!(parts.policies.len(), 2);
    let back = Insurance::from_parts(parts).unwrap();
    assert_eq!(back.get_total_monthly_premium(&s("owner")), 300);
    assert_eq!(back.last_policy_id(), 2);
    let mut c = Insurance::new();
    create(&mut c, "owner", "P", "T", 100, 1000, None, 0);
    let InsuranceParts { policies, .. } = c.into_parts();
    assert!(Insurance::from_parts(InsuranceParts { policies, next_id: 0 }).is_none());
}
