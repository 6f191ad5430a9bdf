use beancount_formatter::sort;

// Files that should be left exactly as-is.

#[test]
fn test_unchanged_already_sorted_file() {
    let content = r#"2025-12-01 * "Transaction 1"
  Assets:Checking  -20 EUR

2025-12-02 * "Transaction 2"
  Assets:Checking  -30 EUR

2025-12-03 * "Transaction 3"
  Assets:Checking  -10 EUR
"#;

    let sorted = sort(content);
    assert_eq!(sorted, content, "Already sorted file should be unchanged");
}

#[test]
fn test_unchanged_only_comments() {
    let content = r#"; This is a comment
; Another comment
; More comments

; Even more comments
"#;

    let sorted = sort(content);
    assert_eq!(
        sorted, content,
        "File with only comments should be unchanged"
    );
}

#[test]
fn test_unchanged_only_non_dated_directives() {
    let content = r#"option "title" "My Ledger"
option "operating_currency" "USD"

plugin "beancount.plugins.auto_accounts"

include "accounts.beancount"
"#;

    let sorted = sort(content);
    assert_eq!(
        sorted, content,
        "File with only non-dated directives should be unchanged"
    );
}

#[test]
fn test_unchanged_empty_file() {
    let content = "";
    let sorted = sort(content);
    assert_eq!(sorted, content, "Empty file should be unchanged");
}

#[test]
fn test_unchanged_single_directive() {
    let content = r#"2025-12-01 * "Only transaction"
  Assets:Checking  -100 EUR
  Expenses:Food     100 EUR
"#;

    let sorted = sort(content);
    assert_eq!(
        sorted, content,
        "File with single directive should be unchanged"
    );
}

#[test]
fn test_unchanged_mixed_with_proper_order() {
    let content = r#"option "title" "My Ledger"

2020-01-01 open Assets:Checking

2025-12-01 * "Transaction 1"
  Assets:Checking  -20 EUR

2025-12-02 balance Assets:Checking  100.00 EUR

; End of file comment
"#;

    let sorted = sort(content);
    assert_eq!(
        sorted, content,
        "Properly ordered mixed file should be unchanged"
    );
}

#[test]
fn test_unchanged_with_blank_lines() {
    let content = r#"2025-12-01 * "Transaction 1"
  Assets:Checking  -20 EUR


2025-12-02 * "Transaction 2"
  Assets:Checking  -30 EUR
"#;

    let sorted = sort(content);
    assert_eq!(
        sorted, content,
        "Sorted file with blank lines should be unchanged"
    );
}

#[test]
fn test_unchanged_complex_sorted_file() {
    let content = r#"; Header
option "operating_currency" "EUR"

2020-01-01 open Assets:Checking EUR

2025-12-01 * "Transaction 1"
  Assets:Checking  -20 EUR

2025-12-02 * "Transaction 2"
  Assets:Checking  -30 EUR

; Middle section
2025-12-03 price EUR 1.1 USD

; End comment
"#;

    let sorted = sort(content);
    assert_eq!(sorted, content, "Complex sorted file should be unchanged");
}

#[test]
fn test_unchanged_single_import() {
    let content = r#"include "src/transactions.beancount""#;

    let sorted = sort(content);
    assert_eq!(sorted, content);
}

#[test]
fn test_unchanged_open_and_pad_directives_same_date() {
    let content = r#"2020-01-01 open Assets:BIBEssen:Checking EUR
2020-01-01 pad Assets:BIBEssen:Checking Equity:Opening-Balances

2020-01-01 open Assets:Revolut EUR
2020-01-01 open Expenses:Revolut:Fees EUR
"#;

    let sorted = sort(content);
    assert_eq!(
        sorted, content,
        "File with same-date open and pad directives should preserve blank lines"
    );
}
