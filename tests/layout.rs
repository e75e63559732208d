use wraptable::layout::{maxcols, transform, transform_maxwidth};

fn table(rows: &[&[&str]]) -> Vec<Vec<String>> {
    rows.iter()
        .map(|r| r.iter().map(|c| c.to_string()).collect())
        .collect()
}

#[test]
fn folds_three_rows_into_two_blocks() {
    let t = table(&[&["a", "b"], &["1", "2"], &["3", "4"], &["5", "6"]]);
    let (blocks, folded) = transform(&t, 2);
    assert_eq!(blocks, 2);
    assert_eq!(
        folded,
        table(&[&["a", "b", "a", "b"], &["1", "2", "5", "6"], &["3", "4", "", ""]])
    );
}

#[test]
fn folded_shape_follows_block_count() {
    let t = table(&[
        &["h1", "h2", "h3"],
        &["1", "2", "3"],
        &["4", "5", "6"],
        &["7", "8", "9"],
        &["10", "11", "12"],
        &["13", "14", "15"],
    ]);
    for k in 1..8usize {
        let (blocks, folded) = transform(&t, k);
        assert_eq!(blocks, (5 + k - 1) / k);
        assert_eq!(folded.len(), k + 1);
        for row in &folded {
            assert_eq!(row.len(), 3 * blocks);
        }
    }
}

#[test]
fn padding_cells_are_empty() {
    let t = table(&[&["x"], &["1"], &["2"], &["3"], &["4"], &["5"]]);
    let (blocks, folded) = transform(&t, 3);
    assert_eq!(blocks, 2);
    assert_eq!(folded, table(&[&["x", "x"], &["1", "4"], &["2", "5"], &["3", ""]]));
}

#[test]
fn header_only_gives_no_blocks() {
    let t = table(&[&["a", "b"]]);
    let (blocks, folded) = transform(&t, 3);
    assert_eq!(blocks, 0);
    assert_eq!(folded.len(), 4);
    assert!(folded.iter().all(|r| r.is_empty()));
}

#[test]
fn one_block_when_height_equals_data_rows() {
    let t = table(&[&["a", "b"], &["1", "2"], &["3", "4"], &["5", "6"]]);
    let (blocks, folded) = transform(&t, 3);
    assert_eq!(blocks, 1);
    assert_eq!(folded, t);
}

#[test]
fn one_block_with_empty_rows_below() {
    let t = table(&[&["a", "b"], &["1", "2"]]);
    let (blocks, folded) = transform(&t, 3);
    assert_eq!(blocks, 1);
    assert_eq!(folded, table(&[&["a", "b"], &["1", "2"], &["", ""], &["", ""]]));
}

#[test]
fn natural_widths_count_characters() {
    let t = table(&[&["héllo", "b"], &["x", "ccc"], &["", "dd"]]);
    assert_eq!(maxcols(&t), vec![5, 3]);
}

#[test]
fn natural_widths_of_empty_column_are_zero() {
    let t = table(&[&["", "abc"], &["", "d"]]);
    assert_eq!(maxcols(&t), vec![0, 3]);
}

#[test]
fn widths_repeat_once_per_block() {
    assert_eq!(transform_maxwidth(vec![1, 2], 3), vec![1, 2, 1, 2, 1, 2]);
    assert_eq!(transform_maxwidth(vec![4, 5], 0), Vec::<usize>::new());
}
