use beancount_formatter::sort;

#[test]
fn test_basic_sorting() {
    let content = r#"2025-12-05 * "Transaction 3"
  Assets:Checking  -10 EUR

2025-12-01 * "Transaction 1"
  Assets:Checking  -20 EUR
"#;

    let sorted = sort(content);
    let expected = r#"2025-12-01 * "Transaction 1"
  Assets:Checking  -20 EUR

2025-12-05 * "Transaction 3"
  Assets:Checking  -10 EUR
"#;
    assert_eq!(sorted, expected);
}

#[test]
fn test_already_sorted() {
    let content = r#"2025-12-01 * "Transaction 1"
  Assets:Checking  -20 EUR

2025-12-05 * "Transaction 3"
  Assets:Checking  -10 EUR
"#;

    let sorted = sort(content);
    assert_eq!(sorted, content);
}

#[test]
fn test_comments_as_boundaries() {
    let content = r#"; Header comment

2025-12-05 * "Transaction 3"
  Assets:Checking  -10 EUR

2025-12-01 * "Transaction 1"
  Assets:Checking  -20 EUR

; Middle comment

2025-12-03 * "Transaction 2"
  Assets:Checking  -30 EUR
"#;

    let sorted = sort(content);
    let expected = r#"; Header comment

2025-12-01 * "Transaction 1"
  Assets:Checking  -20 EUR

2025-12-05 * "Transaction 3"
  Assets:Checking  -10 EUR

; Middle comment

2025-12-03 * "Transaction 2"
  Assets:Checking  -30 EUR
"#;
    assert_eq!(sorted, expected);
}

#[test]
fn test_stable_sort() {
    let content = r#"2025-12-01 * "Transaction A"
  Assets:A  -10 EUR

2025-12-01 * "Transaction B"
  Assets:B  -20 EUR

2025-12-01 * "Transaction C"
  Assets:C  -30 EUR
"#;

    let sorted = sort(content);
    assert_eq!(sorted, content);
}

#[test]
fn test_empty_file() {
    let content = "";
    let sorted = sort(content);
    assert_eq!(sorted, "");
}

#[test]
fn test_only_comments() {
    let content = r#"; Comment 1
; Comment 2
"#;
    let sorted = sort(content);
    assert_eq!(sorted, content);
}

#[test]
fn test_balance_directives() {
    let content = r#"2025-12-05 balance Assets:Cash  100.00 EUR
2025-12-01 balance Assets:Cash  50.00 EUR
"#;

    let sorted = sort(content);
    let expected = r#"2025-12-01 balance Assets:Cash  50.00 EUR
2025-12-05 balance Assets:Cash  100.00 EUR
"#;
    assert_eq!(sorted, expected);
}

#[test]
fn test_mixed_directive_types() {
    let content = r#"2025-12-05 * "Transaction"
  Assets:Cash  -10 EUR

2025-12-01 balance Assets:Cash  100.00 EUR

2025-12-03 price EUR  1.0 USD
"#;

    let sorted = sort(content);
    let expected = r#"2025-12-01 balance Assets:Cash  100.00 EUR

2025-12-03 price EUR  1.0 USD

2025-12-05 * "Transaction"
  Assets:Cash  -10 EUR
"#;
    assert_eq!(sorted, expected);
}

#[test]
fn test_idempotent() {
    let content = r#"2025-12-05 * "Transaction 3"
  Assets:Checking  -10 EUR

2025-12-01 * "Transaction 1"
  Assets:Checking  -20 EUR
"#;

    let sorted1 = sort(content);
    let sorted2 = sort(&sorted1);
    let expected = r#"2025-12-01 * "Transaction 1"
  Assets:Checking  -20 EUR

2025-12-05 * "Transaction 3"
  Assets:Checking  -10 EUR
"#;
    assert_eq!(sorted2, expected);
}

#[test]
fn test_blank_lines_preserved() {
    let content = r#"2025-12-05 * "Transaction 3"
  Assets:Checking  -10 EUR


2025-12-01 * "Transaction 1"
  Assets:Checking  -20 EUR
"#;

    let sorted = sort(content);
    let expected = r#"2025-12-01 * "Transaction 1"
  Assets:Checking  -20 EUR


2025-12-05 * "Transaction 3"
  Assets:Checking  -10 EUR
"#;
    assert_eq!(sorted, expected);
}

#[test]
fn test_regression_1() {
    let content = r#"2025-12-29 * "a" "b"
    Assets:BIBEssen:Checking                         -17.99 EUR
    Expenses:Gifts                                    17.99 EUR

2025-12-29 * "a" "b"
    Assets:BIBEssen:Checking                         -10.54 EUR
    Expenses:Food:Groceries                           10.54 EUR

2025-12-30 * "a" "b"
    Assets:BIBEssen:Checking                         -99.00 EUR
    Expenses:Entertainment:Guitar                     99.00 EUR

2025-12-05 * "a" "b"
    Assets:BIBEssen:Checking                         -21.94 EUR
    Expenses:Car:Maintenance                          21.94 EUR
"#;

    let sorted = sort(content);
    let expected = r#"2025-12-05 * "a" "b"
    Assets:BIBEssen:Checking                         -21.94 EUR
    Expenses:Car:Maintenance                          21.94 EUR

2025-12-29 * "a" "b"
    Assets:BIBEssen:Checking                         -17.99 EUR
    Expenses:Gifts                                    17.99 EUR

2025-12-29 * "a" "b"
    Assets:BIBEssen:Checking                         -10.54 EUR
    Expenses:Food:Groceries                           10.54 EUR

2025-12-30 * "a" "b"
    Assets:BIBEssen:Checking                         -99.00 EUR
    Expenses:Entertainment:Guitar                     99.00 EUR
"#;
    assert_eq!(sorted, expected);
}

#[test]
fn test_regression_2() {
    let content = r#"2026-01-02 balance Assets:ScalableCapital:MsciWorldEM   426.1754 ~    0.01 IE00BKM4GZ66
2026-01-02 balance Assets:ScalableCapital:MsciWorld    2868.0171 ~    0.01 IE00BYX2JD69

2024-06-02 * "a" "b"
    Assets:Asset                                             -21.27 EUR
    Expenses:Gifts"#;

    let sorted = sort(content);
    let expected = r#"2024-06-02 * "a" "b"
    Assets:Asset                                             -21.27 EUR
    Expenses:Gifts

2026-01-02 balance Assets:ScalableCapital:MsciWorldEM   426.1754 ~    0.01 IE00BKM4GZ66
2026-01-02 balance Assets:ScalableCapital:MsciWorld    2868.0171 ~    0.01 IE00BYX2JD69"#;
    assert_eq!(sorted, expected);
}
