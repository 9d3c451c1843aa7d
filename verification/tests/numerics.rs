use rust_project_complete::modules::math::MathUtils;
use rust_project_complete::modules::stats::{Config, Statistics};

#[test]
fn test_config_default() {
    let config = Config::default();
    assert_eq!(config.max_history_size, 1000);
    assert_eq!(config.precision, 2);
    assert!(!config.debug_mode);
}

#[test]
fn test_statistics_new() {
    let stats = Statistics::new();
    assert_eq!(stats.total_operations, 0);
    assert!(stats.is_empty());
}

#[test]
fn test_statistics_add_operation() {
    let mut stats = Statistics::new();
    stats.add_operation("add", 5);

    assert_eq!(stats.total_operations, 1);
    assert_eq!(stats.get_operation_count("add"), 1);
    assert_eq!(stats.average_result, 5);
    assert_eq!(stats.min_result, 5);
    assert_eq!(stats.max_result, 5);
}

#[test]
fn test_statistics_multiple_operations() {
    let mut stats = Statistics::new();
    stats.add_operation("add", 2);
    stats.add_operation("add", 8);
    stats.add_operation("multiply", 10);

    assert_eq!(stats.total_operations, 3);
    assert_eq!(stats.get_operation_count("add"), 2);
    assert_eq!(stats.get_operation_count("multiply"), 1);
    assert_eq!(stats.average_result, (2 + 8 + 10) / 3);
    assert_eq!(stats.min_result, 2);
    assert_eq!(stats.max_result, 10);
}

#[test]
fn test_statistics_clear() {
    let mut stats = Statistics::new();
    stats.add_operation("add", 5);
    stats.clear();

    assert!(stats.is_empty());
    assert_eq!(stats.total_operations, 0);
}

#[test]
fn test_statistics_unknown_label() {
    let stats = Statistics::new();
    assert_eq!(stats.get_operation_count("never seen"), 0);
}

#[test]
fn test_statistics_equal_values_keep_bounds() {
    let mut stats = Statistics::new();
    stats.add_operation("add", 7);
    stats.add_operation("add", 7);
    assert_eq!(stats.min_result, 7);
    assert_eq!(stats.max_result, 7);
    assert_eq!(stats.average_result, 7);
    assert_eq!(stats.get_operation_count("add"), 2);
}

#[test]
fn test_statistics_integration() {
    let mut stats = Statistics::new();

    stats.add_operation("add", 10);
    stats.add_operation("multiply", 20);
    stats.add_operation("subtract", 5);
    stats.add_operation("add", 15);

    assert_eq!(stats.total_operations, 4);
    assert_eq!(stats.get_operation_count("add"), 2);
    assert_eq!(stats.get_operation_count("multiply"), 1);
    assert_eq!(stats.average_result, (10 + 20 + 5 + 15) / 4);
    assert_eq!(stats.min_result, 5);
    assert_eq!(stats.max_result, 20);
}

#[test]
fn test_statistics_scenario() {
    let mut stats = Statistics::new();
    stats.add_operation("add", 10);
    stats.add_operation("multiply", 20);
    stats.add_operation("subtract", 5);
    assert_eq!(stats.total_operations, 3);
    // The exact mean is 35/3; the aggregator reports it rounded toward zero.
    assert_eq!(stats.average_result, 11);
    assert_eq!(stats.min_result, 5);
    assert_eq!(stats.max_result, 20);
}

#[test]
fn test_gcd_cases() {
    assert_eq!(MathUtils::gcd(12, 8), 4);
    assert_eq!(MathUtils::gcd(54, 24), 6);
    assert_eq!(MathUtils::gcd(17, 13), 1);
    assert_eq!(MathUtils::gcd(0, 5), 5);
    assert_eq!(MathUtils::gcd(48, 18), 6);
}

#[test]
fn test_lcm_cases() {
    assert_eq!(MathUtils::lcm(12, 8).unwrap(), 24);
    assert_eq!(MathUtils::lcm(4, 6).unwrap(), 12);
    assert_eq!(MathUtils::lcm(7, 13).unwrap(), 91);
    assert_eq!(MathUtils::lcm(48, 18).unwrap(), 144);
}

#[test]
fn test_lcm_with_zero() {
    assert!(MathUtils::lcm(0, 5).is_err());
    assert!(MathUtils::lcm(5, 0).is_err());
}

#[test]
fn test_lcm_overflow() {
    let result = MathUtils::lcm(u64::MAX, u64::MAX - 1);
    assert!(result.is_err());
}

#[test]
fn test_is_prime_cases() {
    assert!(MathUtils::is_prime(2));
    assert!(MathUtils::is_prime(3));
    assert!(MathUtils::is_prime(17));
    assert!(MathUtils::is_prime(97));
    assert!(!MathUtils::is_prime(0));
    assert!(!MathUtils::is_prime(1));
    assert!(!MathUtils::is_prime(4));
    assert!(!MathUtils::is_prime(15));
    assert!(!MathUtils::is_prime(100));
}

#[test]
fn test_fibonacci_cases() {
    assert_eq!(MathUtils::fibonacci(0).unwrap(), 0);
    assert_eq!(MathUtils::fibonacci(1).unwrap(), 1);
    assert_eq!(MathUtils::fibonacci(2).unwrap(), 1);
    assert_eq!(MathUtils::fibonacci(3).unwrap(), 2);
    assert_eq!(MathUtils::fibonacci(10).unwrap(), 55);
    assert_eq!(MathUtils::fibonacci(20).unwrap(), 6765);
    assert_eq!(MathUtils::fibonacci(93).unwrap(), 12200160415121876738);
}

#[test]
fn test_fibonacci_overflow() {
    assert!(MathUtils::fibonacci(100).is_err());
    assert!(MathUtils::fibonacci(94).is_err());
}

#[test]
fn test_math_utils_integration() {
    let a = 12u64;
    let b = 8u64;

    let gcd = MathUtils::gcd(a, b);
    let lcm = MathUtils::lcm(a, b).unwrap();

    assert_eq!(gcd, 4);
    assert_eq!(lcm, 24);

    assert!(MathUtils::is_prime(17));
    assert!(!MathUtils::is_prime(18));

    assert_eq!(MathUtils::fibonacci(10).unwrap(), 55);
}
