use beancount_formatter::sort;

// Balance directive runs and blank line preservation.

#[test]
fn test_balance_no_blanks() {
    let content = r#"2026-01-02 balance Assets:B  200 USD
2026-01-01 balance Assets:A  100 USD
"#;

    let sorted = sort(content);
    let expected = r#"2026-01-01 balance Assets:A  100 USD
2026-01-02 balance Assets:B  200 USD
"#;
    assert_eq!(sorted, expected);
}

#[test]
fn test_balance_one_blank() {
    let content = r#"2026-01-02 balance Assets:B  200 USD

2026-01-01 balance Assets:A  100 USD
"#;

    let sorted = sort(content);
    let expected = r#"2026-01-01 balance Assets:A  100 USD

2026-01-02 balance Assets:B  200 USD
"#;
    assert_eq!(sorted, expected);
}

#[test]
fn test_balance_mixed_blanks_three() {
    let content = r#"2026-01-03 balance Assets:C  300 USD

2026-01-02 balance Assets:B  200 USD
2026-01-01 balance Assets:A  100 USD
"#;

    let sorted = sort(content);
    let expected = r#"2026-01-01 balance Assets:A  100 USD
2026-01-02 balance Assets:B  200 USD

2026-01-03 balance Assets:C  300 USD
"#;
    assert_eq!(sorted, expected);
}

#[test]
fn test_balance_mixed_blanks_complex() {
    let content = r#"2026-01-04 balance Assets:D  400 USD

2026-01-03 balance Assets:C  300 USD
2026-01-02 balance Assets:B  200 USD

2026-01-01 balance Assets:A  100 USD
"#;

    let sorted = sort(content);
    let expected = r#"2026-01-01 balance Assets:A  100 USD

2026-01-02 balance Assets:B  200 USD
2026-01-03 balance Assets:C  300 USD

2026-01-04 balance Assets:D  400 USD
"#;
    assert_eq!(sorted, expected);
}

#[test]
fn test_balance_preserve_no_blanks_when_sorted() {
    let content = r#"2026-01-01 balance Assets:A  100 USD
2026-01-02 balance Assets:B  200 USD
2026-01-03 balance Assets:C  300 USD
"#;

    let sorted = sort(content);
    assert_eq!(
        sorted, content,
        "Already sorted balances with no blanks should be unchanged"
    );
}

#[test]
fn test_balance_preserve_mixed_when_sorted() {
    let content = r#"2026-01-01 balance Assets:A  100 USD
2026-01-02 balance Assets:B  200 USD

2026-01-03 balance Assets:C  300 USD
2026-01-04 balance Assets:D  400 USD
"#;

    let sorted = sort(content);
    assert_eq!(
        sorted, content,
        "Already sorted balances with mixed blanks should be unchanged"
    );
}

// Non-dated directives act as boundaries: no reordering across them.

#[test]
fn test_option_boundary() {
    let content = r#"2025-12-05 * "Transaction 3"
  Assets:Checking  -10 EUR

option "operating_currency" "USD"

2025-12-01 * "Transaction 1"
  Assets:Checking  -20 EUR
"#;

    let sorted = sort(content);
    assert_eq!(sorted, content);
}

#[test]
fn test_include_boundary() {
    let content = r#"2025-12-05 balance Assets:B  200 USD

include "accounts.beancount"

2025-12-01 balance Assets:A  100 USD
"#;

    let sorted = sort(content);
    assert_eq!(sorted, content);
}

#[test]
fn test_plugin_boundary() {
    let content = r#"2025-12-05 * "Transaction 3"
  Assets:Checking  -10 EUR

plugin "beancount.plugins.auto_accounts"

2025-12-01 * "Transaction 1"
  Assets:Checking  -20 EUR
"#;

    let sorted = sort(content);
    assert_eq!(sorted, content);
}

#[test]
fn test_pushtag_poptag_boundary() {
    let content = r#"2025-12-05 * "Transaction 3"
  Assets:Checking  -10 EUR

pushtag #trip

2025-12-01 * "Transaction 1"
  Assets:Checking  -20 EUR

poptag #trip

2025-12-03 * "Transaction 2"
  Assets:Checking  -30 EUR
"#;

    let sorted = sort(content);
    assert_eq!(sorted, content);
}

#[test]
fn test_multiple_sections_with_options() {
    let content = r#"2025-12-05 * "Transaction 3"
  Assets:Checking  -10 EUR

2025-12-03 * "Transaction 2"
  Assets:Checking  -30 EUR

option "operating_currency" "USD"

2025-12-02 * "Transaction 1"
  Assets:Checking  -20 EUR

2025-12-01 * "Transaction 0"
  Assets:Checking  -5 EUR
"#;

    let sorted = sort(content);
    let expected = r#"2025-12-03 * "Transaction 2"
  Assets:Checking  -30 EUR

2025-12-05 * "Transaction 3"
  Assets:Checking  -10 EUR

option "operating_currency" "USD"

2025-12-01 * "Transaction 0"
  Assets:Checking  -5 EUR

2025-12-02 * "Transaction 1"
  Assets:Checking  -20 EUR
"#;
    assert_eq!(sorted, expected);
}
