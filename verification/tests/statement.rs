use pies::statement::row_sentence;

fn row(cols: &[&str]) -> Vec<String> {
    cols.iter().map(|c| c.to_string()).collect()
}

#[test]
fn columns_are_joined_with_commas() {
    assert_eq!(row_sentence(&row(&["a", "b", "c"])), "a,b,c");
}

#[test]
fn empty_row_prints_nothing() {
    assert_eq!(row_sentence(&row(&[])), "");
}

#[test]
fn leading_empty_columns_are_skipped() {
    assert_eq!(row_sentence(&row(&["", "a"])), "a");
    assert_eq!(row_sentence(&row(&["", "", "a", "b"])), "a,b");
    assert_eq!(row_sentence(&row(&["", ""])), "");
}

#[test]
fn inner_and_trailing_empty_columns_keep_their_commas() {
    assert_eq!(row_sentence(&row(&["a", "", "b"])), "a,,b");
    assert_eq!(row_sentence(&row(&["a", ""])), "a,");
}
