use rust_project_complete::{Calculator, OperationType};

#[test]
fn test_new_calculator() {
    let calc = Calculator::new();
    assert_eq!(calc.history_count(), 0);
}

#[test]
fn test_add() {
    let mut calc = Calculator::new();
    let result = calc.add(2, 3);
    assert_eq!(result, 5);
    assert_eq!(calc.history_count(), 1);
}

#[test]
fn test_subtract() {
    let mut calc = Calculator::new();
    let result = calc.subtract(5, 3);
    assert_eq!(result, 2);
    assert_eq!(calc.history_count(), 1);
}

#[test]
fn test_multiply() {
    let mut calc = Calculator::new();
    let result = calc.multiply(4, 3);
    assert_eq!(result, 12);
    assert_eq!(calc.history_count(), 1);
}

#[test]
fn test_divide() {
    let mut calc = Calculator::new();
    let result = calc.divide(10, 2).unwrap();
    assert_eq!(result, 5);
    assert_eq!(calc.history_count(), 1);
}

#[test]
fn test_divide_by_zero() {
    let mut calc = Calculator::new();
    let result = calc.divide(10, 0);
    assert!(result.is_err());
    assert_eq!(calc.history_count(), 0);
}

#[test]
fn test_divide_truncates_toward_zero() {
    let mut calc = Calculator::new();
    assert_eq!(calc.divide(7, 2).unwrap(), 3);
    assert_eq!(calc.divide(-7, 2).unwrap(), -3);
    assert_eq!(calc.divide(7, -2).unwrap(), -3);
    assert_eq!(calc.divide(-7, -2).unwrap(), 3);
    assert_eq!(calc.history_count(), 4);
}

#[test]
fn test_factorial() {
    let calc = Calculator::new();
    assert_eq!(calc.factorial(0).unwrap(), 1);
    assert_eq!(calc.factorial(1).unwrap(), 1);
    assert_eq!(calc.factorial(5).unwrap(), 120);
}

#[test]
fn test_factorial_overflow() {
    let calc = Calculator::new();
    let result = calc.factorial(25);
    assert!(result.is_err());
}

#[test]
fn test_factorial_largest_and_first_rejected() {
    let calc = Calculator::new();
    assert_eq!(calc.factorial(20).unwrap(), 2432902008176640000);
    assert!(calc.factorial(21).is_err());
    assert_eq!(calc.history_count(), 0);
}

#[test]
fn test_clear_history() {
    let mut calc = Calculator::new();
    calc.add(1, 2);
    calc.add(3, 4);
    assert_eq!(calc.history_count(), 2);

    calc.clear_history();
    assert_eq!(calc.history_count(), 0);
}

#[test]
fn test_default() {
    let calc = Calculator::default();
    assert_eq!(calc.history_count(), 0);
}

#[test]
fn test_add_commutative_concrete() {
    let mut calc1 = Calculator::new();
    let mut calc2 = Calculator::new();
    let r1 = calc1.add(7, 9);
    let r2 = calc2.add(9, 7);
    assert_eq!(r1, r2);
    assert_eq!(calc1.history_count(), 1);
    assert_eq!(calc2.history_count(), 1);
}

#[test]
fn test_history_records_operations() {
    let mut calc = Calculator::new();
    calc.add(1, 2);
    calc.multiply(3, 4);
    let history = calc.get_history();
    assert_eq!(history.len(), 2);
    assert_eq!(history[0].operation_type, OperationType::Add);
    assert_eq!(history[0].operands, vec![1, 2]);
    assert_eq!(history[0].result, 3);
    assert_eq!(history[1].operation_type, OperationType::Multiply);
    assert_eq!(history[1].operands, vec![3, 4]);
    assert_eq!(history[1].result, 12);
}

#[test]
fn test_operation_type_labels() {
    assert_eq!(OperationType::Add.label(), "Addition");
    assert_eq!(OperationType::Subtract.label(), "Subtraktion");
    assert_eq!(OperationType::Multiply.label(), "Multiplikation");
    assert_eq!(OperationType::Divide.label(), "Division");
}

#[test]
fn test_calculator_integration() {
    let mut calc = Calculator::new();

    let result1 = calc.add(10, 5);
    let result2 = calc.multiply(result1, 2);
    let result3 = calc.subtract(result2, 5);
    let result4 = calc.divide(result3, 5).unwrap();

    assert_eq!(result4, 5);
    assert_eq!(calc.history_count(), 4);
}

#[test]
fn test_serialization_integration() {
    let mut calc = Calculator::new();
    calc.add(1, 2);
    calc.multiply(3, 4);

    let words = calc.serialize();
    let deserialized = Calculator::deserialize(&words).unwrap();

    assert_eq!(deserialized.history_count(), 2);
    assert_eq!(deserialized.get_history().len(), 2);
}

#[test]
fn test_serialize_roundtrip_elementwise() {
    let mut calc = Calculator::new();
    calc.add(10, 5);
    calc.subtract(3, 8);
    calc.divide(-9, 4).unwrap();

    let words = calc.serialize();
    let back = Calculator::deserialize(&words).unwrap();

    assert_eq!(back.history_count(), calc.history_count());
    let before = calc.get_history();
    let after = back.get_history();
    for i in 0..before.len() {
        assert_eq!(before[i].operation_type, after[i].operation_type);
        assert_eq!(before[i].operands, after[i].operands);
        assert_eq!(before[i].result, after[i].result);
        assert_eq!(before[i].timestamp, after[i].timestamp);
    }
}

#[test]
fn test_deserialize_rejects_garbage() {
    assert!(Calculator::deserialize(&vec![5]).is_none());
    assert!(Calculator::deserialize(&vec![1, 9, 0, 7, 7]).is_none());
    let empty: Vec<u64> = Vec::new();
    assert!(Calculator::deserialize(&empty).is_none());
}

#[test]
fn test_serialize_empty_calculator() {
    let calc = Calculator::new();
    let words = calc.serialize();
    let back = Calculator::deserialize(&words).unwrap();
    assert_eq!(back.history_count(), 0);
}
