use wraptable::render::{concat_cells_in_row, draw, draw_cell, draw_row, hline};
use wraptable::table::{has_uniform_columns, render, RenderError};

fn table(rows: &[&[&str]]) -> Vec<Vec<String>> {
    rows.iter()
        .map(|r| r.iter().map(|c| c.to_string()).collect())
        .collect()
}

fn strings(items: &[&str]) -> Vec<String> {
    items.iter().map(|s| s.to_string()).collect()
}

#[test]
fn wraps_hello_at_two() {
    assert_eq!(draw_cell("hello".to_string(), 2), strings(&["he", "ll", "o"]));
}

#[test]
fn empty_cell_gives_one_empty_line() {
    assert_eq!(draw_cell("".to_string(), 4), strings(&[""]));
}

#[test]
fn wrapped_line_counts() {
    assert_eq!(draw_cell("abcdef".to_string(), 3), strings(&["abc", "def"]));
    assert_eq!(draw_cell("abcdefg".to_string(), 3), strings(&["abc", "def", "g"]));
    assert_eq!(draw_cell("ab".to_string(), 5), strings(&["ab"]));
    assert_eq!(draw_cell("äöüß".to_string(), 3), strings(&["äöü", "ß"]));
    for len in 1..20usize {
        for w in 1..7usize {
            let text: String = std::iter::repeat('z').take(len).collect();
            let lines = draw_cell(text, w);
            assert_eq!(lines.len(), (len + w - 1) / w);
            for l in &lines[..lines.len() - 1] {
                assert_eq!(l.chars().count(), w);
            }
            let last = if len % w == 0 { w } else { len % w };
            assert_eq!(lines[lines.len() - 1].chars().count(), last);
        }
    }
}

#[test]
fn rule_lines() {
    assert_eq!(hline(&vec![1, 3], 1, '-'), "+---+-----+");
    assert_eq!(hline(&vec![2], 0, '='), "+==+");
    assert_eq!(hline(&vec![], 1, '='), "++");
}

#[test]
fn row_is_as_tall_as_its_tallest_cell() {
    let out = draw_row(&strings(&["hello", "x"]), &vec![2, 3]);
    assert_eq!(out, "| he |   x |\n| ll |     |\n|  o |     |");
}

#[test]
fn cells_pad_to_common_height() {
    let cells = vec![strings(&["a"]), strings(&["b", "c"]), strings(&[""])];
    let out = concat_cells_in_row(cells, &vec![1, 2, 1]);
    assert_eq!(out, "| a |  b |   |\n|   |  c |   |");
}

#[test]
fn row_of_no_cells_has_no_lines() {
    assert_eq!(concat_cells_in_row(vec![], &vec![]), "");
}

#[test]
fn draws_header_rule_heavy() {
    let t = table(&[&["a", "bb"], &["1", "2"]]);
    let out = draw(t, &vec![1, 2]);
    assert_eq!(
        out,
        "+---+----+\n| a | bb |\n+===+====+\n| 1 |  2 |\n+---+----+"
    );
}

#[test]
fn renders_folded_table() {
    let t = table(&[&["a", "b"], &["1", "2"], &["3", "4"], &["5", "6"]]);
    let out = render(&t, 2, None).unwrap();
    let want = [
        "+---+---+---+---+",
        "| a | b | a | b |",
        "+===+===+===+===+",
        "| 1 | 2 | 5 | 6 |",
        "+---+---+---+---+",
        "| 3 | 4 |   |   |",
        "+---+---+---+---+",
    ]
    .join("\n");
    assert_eq!(out, want);
}

#[test]
fn renders_with_given_widths() {
    let t = table(&[&["name", "n"], &["abcdef", "12"]]);
    let out = render(&t, 5, Some(vec![3, 1])).unwrap();
    let want = [
        "+-----+---+",
        "| nam | n |",
        "|   e |   |",
        "+=====+===+",
        "| abc | 1 |",
        "| def | 2 |",
        "+-----+---+",
        "|     |   |",
        "+-----+---+",
        "|     |   |",
        "+-----+---+",
        "|     |   |",
        "+-----+---+",
        "|     |   |",
        "+-----+---+",
    ]
    .join("\n");
    assert_eq!(out, want);
}

#[test]
fn header_only_renders_empty_frames() {
    let t = table(&[&["a", "b"]]);
    assert_eq!(render(&t, 2, None).unwrap(), "++\n\n++\n\n++\n\n++");
}

#[test]
fn empty_input_renders_nothing() {
    assert_eq!(render(&vec![], 3, None), Ok(String::new()));
    assert_eq!(render(&vec![], 0, Some(vec![1])), Ok(String::new()));
}

#[test]
fn wrong_width_count_is_rejected() {
    let t = table(&[&["a", "b"], &["1", "2"]]);
    assert_eq!(render(&t, 2, Some(vec![1, 2, 3])), Err(RenderError::WidthCountMismatch));
    assert_eq!(render(&t, 2, Some(vec![1])), Err(RenderError::WidthCountMismatch));
}

#[test]
fn zero_block_height_is_rejected() {
    let t = table(&[&["a"], &["1"]]);
    assert_eq!(render(&t, 0, None), Err(RenderError::ZeroLineToWrap));
}

#[test]
fn zero_width_is_rejected() {
    let t = table(&[&["a", "b"], &["1", "2"]]);
    assert_eq!(render(&t, 2, Some(vec![0, 1])), Err(RenderError::ZeroWidth));
    let blank = table(&[&["a", ""], &["1", ""]]);
    assert_eq!(render(&blank, 2, None), Err(RenderError::ZeroWidth));
}

#[test]
fn ragged_rows_are_rejected() {
    let t = table(&[&["a", "b"], &["1"]]);
    assert!(!has_uniform_columns(&t));
    assert_eq!(render(&t, 2, None), Err(RenderError::RaggedRows));
    assert!(has_uniform_columns(&table(&[&["a"], &["b"]])));
}

#[test]
fn rendering_twice_gives_the_same_text() {
    let t = table(&[&["k", "value"], &["1", "longer text"], &["2", ""], &["3", "x"]]);
    let first = render(&t, 2, Some(vec![1, 4]));
    let second = render(&t, 2, Some(vec![1, 4]));
    assert!(first.is_ok());
    assert_eq!(first, second);
}
