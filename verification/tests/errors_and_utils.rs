use rust_project_complete::modules::error::ProjectError;
use rust_project_complete::modules::math::MathUtils;
use rust_project_complete::modules::utils::{
    calculate_average, calculate_standard_deviation, file_exists, find_maximum, find_minimum,
    generate_id, sort_numbers, validate_email, celsius_to_fahrenheit, fahrenheit_to_celsius,
};
use rust_project_complete::Calculator;

#[test]
fn test_error_display() {
    let error = ProjectError::DivisionByZero;
    assert_eq!(error.message(), "Division durch Null ist nicht erlaubt");
}

#[test]
fn test_overflow_error() {
    let error = ProjectError::OverflowError("Test overflow".to_string());
    assert_eq!(error.message(), "Overflow-Fehler: Test overflow");
}

#[test]
fn test_invalid_input_error() {
    let error = ProjectError::InvalidInput("Invalid number".to_string());
    assert_eq!(error.message(), "Ungültige Eingabe: Invalid number");
}

#[test]
fn test_io_error_conversion() {
    let io_error = std::io::Error::new(std::io::ErrorKind::NotFound, "File not found");
    let project_error = ProjectError::from(io_error);

    match project_error {
        ProjectError::IoError(msg) => assert!(msg.contains("File not found")),
        _ => panic!("Expected IoError"),
    }
}

#[test]
fn test_parse_int_error_conversion() {
    let parse_error = "abc".parse::<i32>().unwrap_err();
    let project_error = ProjectError::from(parse_error);

    match project_error {
        ProjectError::ParseError(_) => (),
        _ => panic!("Expected ParseError"),
    }
}

#[test]
fn test_parse_float_error_conversion() {
    let parse_error = "xyz".parse::<f64>().unwrap_err();
    let project_error = ProjectError::from(parse_error);

    match project_error {
        ProjectError::ParseError(_) => (),
        _ => panic!("Expected ParseError"),
    }
}

#[test]
fn test_error_equality() {
    let error1 = ProjectError::DivisionByZero;
    let error2 = ProjectError::DivisionByZero;
    assert_eq!(error1, error2);
}

#[test]
fn test_error_clone() {
    let error = ProjectError::DivisionByZero;
    let cloned = error.clone();
    assert_eq!(error, cloned);
}

#[test]
fn test_error_messages_all_variants() {
    assert_eq!(
        ProjectError::IoError("kaputt".to_string()).message(),
        "IO-Fehler: kaputt"
    );
    assert_eq!(
        ProjectError::ParseError("krumm".to_string()).message(),
        "Parsing-Fehler: krumm"
    );
}

#[test]
fn test_generate_id() {
    let id1 = generate_id();
    let id2 = generate_id();

    assert_ne!(id1, id2);
    assert!(id1.len() > 0);
    assert!(id2.len() > 0);
    assert_eq!(id1.chars().count(), 36);
}

#[test]
fn test_file_exists_missing_path() {
    assert!(!file_exists("definitely/not/a/real/path/anywhere.txt"));
}

#[test]
fn test_validate_email() {
    assert!(validate_email("test@example.com"));
    assert!(validate_email("user@domain.org"));
    assert!(!validate_email("invalid-email"));
    assert!(!validate_email("@domain.com"));
    assert!(!validate_email("user@"));
}

#[test]
fn test_validate_email_length_edge() {
    assert!(!validate_email("a@b.c"));
    assert!(validate_email("a@bb.c"));
}

#[test]
fn test_calculate_average() {
    let numbers = vec![1, 2, 3, 4, 5];
    let avg = calculate_average(&numbers).unwrap();
    assert_eq!(avg, 3);

    let empty: Vec<i64> = vec![];
    assert!(calculate_average(&empty).is_err());
}

#[test]
fn test_calculate_average_truncates() {
    let numbers = vec![1, 2];
    assert_eq!(calculate_average(&numbers).unwrap(), 1);
    let negatives = vec![-1, -2];
    assert_eq!(calculate_average(&negatives).unwrap(), -1);
}

#[test]
fn test_find_minimum() {
    let numbers = vec![30, 10, 40, 15, 90];
    let min = find_minimum(&numbers).unwrap();
    assert_eq!(min, 10);

    let empty: Vec<i64> = vec![];
    assert!(find_minimum(&empty).is_err());
}

#[test]
fn test_find_maximum() {
    let numbers = vec![30, 10, 40, 15, 90];
    let max = find_maximum(&numbers).unwrap();
    assert_eq!(max, 90);

    let empty: Vec<i64> = vec![];
    assert!(find_maximum(&empty).is_err());
}

#[test]
fn test_sort_numbers() {
    let mut numbers = vec![30, 10, 40, 15, 90];
    sort_numbers(&mut numbers);
    assert_eq!(numbers, vec![10, 15, 30, 40, 90]);
}

#[test]
fn test_sort_numbers_with_duplicates() {
    let mut numbers = vec![5, -3, 5, 0, -3];
    sort_numbers(&mut numbers);
    assert_eq!(numbers, vec![-3, -3, 0, 5, 5]);
}

#[test]
fn test_calculate_standard_deviation() {
    let numbers = vec![2, 4, 4, 4, 5, 5, 7, 9];
    let std_dev = calculate_standard_deviation(&numbers).unwrap();
    assert_eq!(std_dev, 2);

    let empty: Vec<i64> = vec![];
    assert!(calculate_standard_deviation(&empty).is_err());
}

#[test]
fn test_temperature_conversion() {
    assert_eq!(celsius_to_fahrenheit(0), 32);
    assert_eq!(celsius_to_fahrenheit(100), 212);
    assert_eq!(fahrenheit_to_celsius(32), 0);
    assert_eq!(fahrenheit_to_celsius(212), 100);
}

#[test]
fn test_temperature_conversion_negative() {
    assert_eq!(celsius_to_fahrenheit(-40), -40);
    assert_eq!(fahrenheit_to_celsius(-40), -40);
}

#[test]
fn test_utils_integration() {
    let numbers = vec![1, 2, 3, 4, 5];

    let avg = calculate_average(&numbers).unwrap();
    let min = find_minimum(&numbers).unwrap();
    let max = find_maximum(&numbers).unwrap();
    let std_dev = calculate_standard_deviation(&numbers).unwrap();

    assert_eq!(avg, 3);
    assert_eq!(min, 1);
    assert_eq!(max, 5);
    // The exact deviation is the square root of two; the helper reports the
    // whole-number part.
    assert_eq!(std_dev, 1);
}

#[test]
fn test_error_handling_integration() {
    let mut calc = Calculator::new();

    let result = calc.divide(10, 0);
    assert!(result.is_err());

    let result = calc.factorial(100);
    assert!(result.is_err());

    let result = MathUtils::lcm(0, 5);
    assert!(result.is_err());
}
