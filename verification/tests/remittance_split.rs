use remitwise::remittance::RemittanceSplit;

fn setup() -> RemittanceSplit {
    RemittanceSplit::new()
}

#[test]
fn test_initialize_split_valid() {
    let mut c = setup();
    let ok = c.initialize_split(40, 30, 20, 10);
    assert!(ok);
    assert_eq!(c.get_split(), vec![40, 30, 20, 10]);
}

#[test]
fn lib_test_initialize_split_invalid_sum() {
    let mut c = setup();
    let ok = c.initialize_split(50, 30, 10, 5);
    assert!(!ok);
    assert_eq!(c.get_split(), vec![50, 30, 15, 5]);
}

#[test]
fn test_initialize_split_invalid_over_100() {
    let mut c = setup();
    let ok = c.initialize_split(101, 0, 0, 0);
    assert!(!ok);
    assert_eq!(c.get_split(), vec![50, 30, 15, 5]);
}

#[test]
fn test_initialize_split_update_existing() {
    let mut c = setup();
    assert!(c.initialize_split(60, 20, 15, 5));
    assert!(c.initialize_split(25, 25, 25, 25));
    assert_eq!(c.get_split(), vec![25, 25, 25, 25]);
}

#[test]
fn test_initialize_split_invalid_does_not_overwrite() {
    let mut c = setup();
    assert!(c.initialize_split(60, 20, 15, 5));
    assert!(!c.initialize_split(60, 20, 15, 10));
    assert_eq!(c.get_split(), vec![60, 20, 15, 5]);
}

#[test]
fn test_initialize_split_with_zero_percentages() {
    let mut c = setup();
    let ok = c.initialize_split(100, 0, 0, 0);
    assert!(ok);
    assert_eq!(c.get_split(), vec![100, 0, 0, 0]);
}

#[test]
fn test_get_split_default() {
    let c = setup();
    assert_eq!(c.get_split(), vec![50, 30, 15, 5]);
}

#[test]
fn test_get_split_configured_values() {
    let mut c = setup();
    assert!(c.initialize_split(70, 20, 5, 5));
    assert_eq!(c.get_split(), vec![70, 20, 5, 5]);
}

#[test]
fn test_calculate_split_basic() {
    let mut c = setup();
    assert!(c.initialize_split(50, 30, 15, 5));
    assert_eq!(c.calculate_split(1000), vec![500, 300, 150, 50]);
}

#[test]
fn test_calculate_split_rounding_total_matches() {
    let mut c = setup();
    assert!(c.initialize_split(50, 30, 15, 5));
    let total_amount: i128 = 101;
    let amounts = c.calculate_split(total_amount);
    let total = amounts[0] + amounts[1] + amounts[2] + amounts[3];
    assert_eq!(total, total_amount);
    assert_eq!(amounts, vec![50, 30, 15, 6]);
}

#[test]
fn test_calculate_split_rounding_varied_percentages() {
    let mut c = setup();
    assert!(c.initialize_split(33, 33, 33, 1));
    let total_amount: i128 = 101;
    let amounts = c.calculate_split(total_amount);
    let total = amounts[0] + amounts[1] + amounts[2] + amounts[3];
    assert_eq!(total, total_amount);
    assert_eq!(amounts, vec![33, 33, 33, 2]);
}

#[test]
fn test_calculate_split_small_amount_rounding() {
    let c = setup();
    assert_eq!(c.calculate_split(1), vec![0, 0, 0, 1]);
}

#[test]
fn lib_test_calculate_split_zero_amount() {
    let c = setup();
    assert_eq!(c.calculate_split(0), vec![0, 0, 0, 0]);
}

#[test]
fn test_calculate_split_negative_amount() {
    let c = setup();
    assert_eq!(c.calculate_split(-10), vec![0, 0, 0, 0]);
}

#[test]
fn test_calculate_split_default_when_uninitialized() {
    let c = setup();
    assert_eq!(c.calculate_split(200), vec![100, 60, 30, 10]);
}

#[test]
fn test_calculate_split_with_zero_categories() {
    let mut c = setup();
    assert!(c.initialize_split(100, 0, 0, 0));
    assert_eq!(c.calculate_split(123), vec![123, 0, 0, 0]);
}

#[test]
fn test_calculate_split_large_non_divisible_amount() {
    let c = setup();
    let total_amount: i128 = 1_000_000_000_000_000_001;
    let amounts = c.calculate_split(total_amount);
    let total = amounts[0] + amounts[1] + amounts[2] + amounts[3];
    assert_eq!(total, total_amount);
    assert_eq!(
        amounts,
        vec![
            500_000_000_000_000_000,
            300_000_000_000_000_000,
            150_000_000_000_000_000,
            50_000_000_000_000_001
        ]
    );
}

#[test]
fn test_calculate_split_large_amount() {
    let c = setup();
    let total_amount: i128 = 1_000_000_000_000_000_000;
    let amounts = c.calculate_split(total_amount);
    let expected = vec![
        500_000_000_000_000_000,
        300_000_000_000_000_000,
        150_000_000_000_000_000,
        50_000_000_000_000_000,
    ];
    assert_eq!(amounts, expected);
}

// ----- further cases -----

#[test]
fn split_amounts_always_add_up_to_the_total() {
    let mut c = setup();
    assert!(c.initialize_split(17, 23, 41, 19));
    for total in [1i128, 7, 99, 100, 101, 12345, 987_654_321_987] {
        let a = c.calculate_split(total);
        assert_eq!(a[0] + a[1] + a[2] + a[3], total);
        assert!(a.iter().all(|x| *x >= 0 && *x <= total));
    }
}

#[test]
fn split_amount_of_one_category() {
    assert_eq!(RemittanceSplit::split_amount(1000, 50), 500);
    assert_eq!(RemittanceSplit::split_amount(101, 33), 33);
    assert_eq!(RemittanceSplit::split_amount(199, 50), 99);
    assert_eq!(RemittanceSplit::split_amount(-250, 10), -25);
}

#[test]
fn is_valid_split_needs_a_sum_of_100() {
    assert!(RemittanceSplit::is_valid_split(25, 25, 25, 25));
    assert!(RemittanceSplit::is_valid_split(0, 0, 0, 100));
    assert!(!RemittanceSplit::is_valid_split(25, 25, 25, 24));
    assert!(!RemittanceSplit::is_valid_split(101, 0, 0, 0));
    assert!(!RemittanceSplit::is_valid_split(u32::MAX, 1, 0, 100));
}
