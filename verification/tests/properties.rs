use beancount_formatter::sort;
use beancount_formatter::is_sorted;
use beancount_formatter::reconstruct_file;
use beancount_formatter::DatedDirective;
use beancount_formatter::SortableGroup;

fn chars(s: &str) -> Vec<char> {
    s.chars().collect()
}

fn single_line_directive(line: usize, date: &str, text: &str, index: usize) -> DatedDirective {
    DatedDirective {
        start_line: line,
        end_line: line,
        date: chars(date),
        text: vec![chars(text)],
        blank_lines: 0,
        trailing_blank_lines: 0,
        leading_blank_lines: 0,
        original_index: index,
    }
}

#[test]
fn test_two_entries_swap() {
    let content = "2025-12-05 * \"C\"\n\n2025-12-01 * \"A\"\n";
    let sorted = sort(content);
    assert_eq!(sorted, "2025-12-01 * \"A\"\n\n2025-12-05 * \"C\"\n");
}

#[test]
fn test_three_same_date_entries_untouched() {
    let content = "2025-12-01 * \"A\"\n\n2025-12-01 * \"B\"\n\n2025-12-01 * \"C\"\n";
    let sorted = sort(content);
    assert_eq!(sorted, content);
}

#[test]
fn test_header_comment_stays_first() {
    let content = "; header\n\n2025-12-05 * \"C\"\n\n2025-12-01 * \"A\"\n";
    let sorted = sort(content);
    assert_eq!(sorted, "; header\n\n2025-12-01 * \"A\"\n\n2025-12-05 * \"C\"\n");
}

#[test]
fn test_option_line_blocks_reordering() {
    let content = "2025-12-05 * \"C\"\n\noption \"title\" \"x\"\n\n2025-12-01 * \"A\"\n";
    let sorted = sort(content);
    assert_eq!(sorted, content);
}

#[test]
fn test_sort_twice_equals_sort_once() {
    let content = "2025-12-30 * \"D\"\n2025-12-05 * \"C\"\n\n2025-12-01 * \"A\"\n";
    let once = sort(content);
    let twice = sort(&once);
    assert_eq!(twice, once);
}

#[test]
fn test_equal_dates_keep_relative_order() {
    let content = "2025-12-05 * \"B1\"\n2025-12-05 * \"B2\"\n2025-12-01 * \"A\"\n";
    let sorted = sort(content);
    assert_eq!(
        sorted,
        "2025-12-01 * \"A\"\n2025-12-05 * \"B1\"\n2025-12-05 * \"B2\"\n"
    );
}

#[test]
fn test_whitespace_line_travels_with_its_directive() {
    // The grammar absorbs a whitespace-only indented line into the
    // preceding directive's span, so it moves together with that directive.
    let content = "2026-01-02 balance Assets:B  200 USD\n   \n2026-01-01 balance Assets:A  100 USD\n";
    let sorted = sort(content);
    assert_eq!(
        sorted,
        "2026-01-01 balance Assets:A  100 USD\n2026-01-02 balance Assets:B  200 USD\n   \n"
    );
}

#[test]
fn test_adjacent_pair_keeps_trailing_spacing() {
    // B and A are adjacent originally (no blank between them) and stay
    // adjacent after sorting, so no blank line may appear between them.
    let content = "2026-01-03 balance Assets:C  300 USD\n\n2026-01-02 balance Assets:B  200 USD\n2026-01-01 balance Assets:A  100 USD\n";
    let sorted = sort(content);
    assert_eq!(
        sorted,
        "2026-01-01 balance Assets:A  100 USD\n2026-01-02 balance Assets:B  200 USD\n\n2026-01-03 balance Assets:C  300 USD\n"
    );
}

#[test]
fn test_new_neighbors_take_larger_spacing() {
    // C and A were not adjacent originally; C wants one blank line around
    // it and A wants none, so one blank line separates them after sorting.
    let content = "2025-12-05 * \"C\"\n\n2025-12-01 * \"A\"\n2025-12-07 * \"D\"\n";
    let sorted = sort(content);
    assert_eq!(sorted, "2025-12-01 * \"A\"\n\n2025-12-05 * \"C\"\n\n2025-12-07 * \"D\"\n");
}

#[test]
fn test_is_sorted_ascending_group() {
    let group = SortableGroup {
        directives: vec![
            single_line_directive(0, "2025-01-01", "2025-01-01 open Assets:A", 0),
            single_line_directive(1, "2025-01-02", "2025-01-02 open Assets:B", 1),
        ],
    };
    assert!(is_sorted(&group));
}

#[test]
fn test_is_sorted_equal_dates_group() {
    let group = SortableGroup {
        directives: vec![
            single_line_directive(0, "2025-01-01", "2025-01-01 open Assets:A", 0),
            single_line_directive(1, "2025-01-01", "2025-01-01 open Assets:B", 1),
        ],
    };
    assert!(is_sorted(&group));
}

#[test]
fn test_is_sorted_descending_group() {
    let group = SortableGroup {
        directives: vec![
            single_line_directive(0, "2025-01-02", "2025-01-02 open Assets:B", 0),
            single_line_directive(1, "2025-01-01", "2025-01-01 open Assets:A", 1),
        ],
    };
    assert!(!is_sorted(&group));
}

#[test]
fn test_reconstruct_file_swaps_group() {
    let content = "2025-12-02 open Assets:B\n2025-12-01 open Assets:A\n";
    let groups = vec![SortableGroup {
        directives: vec![
            single_line_directive(0, "2025-12-02", "2025-12-02 open Assets:B", 0),
            single_line_directive(1, "2025-12-01", "2025-12-01 open Assets:A", 1),
        ],
    }];
    let rebuilt = reconstruct_file(content, &groups);
    assert_eq!(rebuilt, "2025-12-01 open Assets:A\n2025-12-02 open Assets:B\n");
}
