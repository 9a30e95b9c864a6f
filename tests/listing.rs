use lscol::{
    column_lines, column_width, filter_invisible, is_visible, name_lt, num_columns, num_rows,
    read_dir_sorted, render_rows, transpose,
};

fn names(list: &[&str]) -> Vec<Vec<u8>> {
    list.iter().map(|s| s.as_bytes().to_vec()).collect()
}

fn text(lines: &[Vec<u8>]) -> Vec<String> {
    lines.iter().map(|l| String::from_utf8(l.clone()).unwrap()).collect()
}

fn listing(list: &[&str]) -> Vec<Vec<u8>> {
    filter_invisible(read_dir_sorted(names(list)))
}

#[test]
fn hidden_entry_dropped_and_rest_sorted_one_column() {
    let l = listing(&["b.txt", ".hidden", "a.txt"]);
    assert_eq!(l, names(&["a.txt", "b.txt"]));
    assert_eq!(column_lines(&l, 0), names(&["a.txt", "b.txt"]));
}

#[test]
fn five_names_in_three_columns() {
    let l = listing(&["apple", "kiwi", "fig", "banana", "date"]);
    assert_eq!(l, names(&["apple", "banana", "date", "fig", "kiwi"]));
    assert_eq!(column_width(&l), 7);
    assert_eq!(num_columns(30, 7), 3);
    assert_eq!(num_rows(5, 3), 2);
    let grid = transpose(l.clone(), 3, 2);
    assert_eq!(grid, names(&["apple", "date", "kiwi", "banana", "fig", ""]));
    assert_eq!(
        text(&column_lines(&l, 30)),
        vec!["apple  date   kiwi  ", "banana fig          "]
    );
    assert_eq!(text(&column_lines(&l, 30))[1].len(), 3 * 7 - 1);
}

#[test]
fn empty_directory_prints_nothing() {
    let l = listing(&[]);
    assert!(l.is_empty());
    assert!(column_lines(&l, 80).is_empty());
    assert!(column_lines(&l, 0).is_empty());
}

#[test]
fn only_hidden_entries_print_nothing() {
    let l = listing(&[".", "..", ".git"]);
    assert!(l.is_empty());
    assert!(column_lines(&l, 80).is_empty());
}

#[test]
fn listing_is_in_byte_order_without_hidden_names() {
    let l = listing(&["b", "abc", ".x", "Zed", "ab", "a.b", "_u", "~t"]);
    assert_eq!(l, names(&["Zed", "_u", "a.b", "ab", "abc", "b", "~t"]));
}

#[test]
fn sort_keeps_every_entry() {
    let sorted = read_dir_sorted(names(&["c", ".c", "a", "b", ".a"]));
    assert_eq!(sorted, names(&[".a", ".c", "a", "b", "c"]));
}

#[test]
fn sort_orders_raw_bytes() {
    let sorted = read_dir_sorted(vec![vec![0xff], vec![0x80, 1], vec![0x80], vec![]]);
    assert_eq!(sorted, vec![vec![], vec![0x80], vec![0x80, 1], vec![0xff]]);
}

#[test]
fn byte_order_of_two_names() {
    assert!(name_lt(&b"ab".to_vec(), &b"abc".to_vec()));
    assert!(!name_lt(&b"abc".to_vec(), &b"ab".to_vec()));
    assert!(name_lt(&b"B".to_vec(), &b"a".to_vec()));
    assert!(!name_lt(&b"same".to_vec(), &b"same".to_vec()));
    assert!(name_lt(&vec![], &b"a".to_vec()));
    assert!(!name_lt(&vec![], &vec![]));
}

#[test]
fn visibility_of_names() {
    assert!(!is_visible(&b".hidden".to_vec()));
    assert!(!is_visible(&b".".to_vec()));
    assert!(is_visible(&b"a.txt".to_vec()));
    assert!(is_visible(&vec![]));
}

#[test]
fn empty_name_is_kept() {
    let kept = filter_invisible(vec![vec![], b".x".to_vec(), b"y".to_vec()]);
    assert_eq!(kept, vec![vec![], b"y".to_vec()]);
}

#[test]
fn column_count_never_below_one() {
    assert_eq!(num_columns(0, 7), 1);
    assert_eq!(num_columns(7, 7), 1);
    assert_eq!(num_columns(13, 7), 1);
    assert_eq!(num_columns(14, 7), 1);
    assert_eq!(num_columns(21, 7), 2);
    assert_eq!(num_columns(80, 0), 1);
    assert_eq!(num_columns(80, 9), 7);
}

#[test]
fn rows_round_up() {
    assert_eq!(num_rows(5, 3), 2);
    assert_eq!(num_rows(6, 3), 2);
    assert_eq!(num_rows(7, 3), 3);
    assert_eq!(num_rows(0, 4), 0);
    assert_eq!(num_rows(1, 4), 1);
    assert_eq!(num_rows(9, 1), 9);
}

#[test]
fn column_width_is_longest_name_plus_one() {
    assert_eq!(column_width(&names(&["a", "abcd", "ab"])), 5);
    assert_eq!(column_width(&names(&[])), 0);
    assert_eq!(column_width(&vec![vec![]]), 1);
}

#[test]
fn empty_cells_sit_in_the_final_column() {
    let l = names(&["a", "b", "c", "d", "e", "f", "g"]);
    let grid = transpose(l, 3, 3);
    assert_eq!(grid, names(&["a", "d", "g", "b", "e", "", "c", "f", ""]));
    let empty: Vec<usize> = (0..grid.len()).filter(|k| grid[*k].is_empty()).collect();
    assert_eq!(empty.len(), 3 * 3 - 7);
    assert!(empty.iter().all(|k| k % 3 == 2));
}

#[test]
fn too_many_columns_leave_whole_columns_empty() {
    let grid = transpose(names(&["a", "b", "c", "d", "e"]), 4, 2);
    assert_eq!(grid, names(&["a", "c", "e", "", "b", "d", "", ""]));
}

#[test]
fn column_major_reading_gives_names_back() {
    let l = names(&["n0", "n1", "n2", "n3", "n4", "n5", "n6", "n7", "n8", "n9"]);
    let (cols, rows) = (4, 3);
    let grid = transpose(l.clone(), cols, rows);
    let read: Vec<Vec<u8>> = (0..cols * rows).map(|i| grid[(i % rows) * cols + i / rows].clone()).collect();
    assert_eq!(read[..l.len()].to_vec(), l);
    assert!(read[l.len()..].iter().all(|c| c.is_empty()));
}

#[test]
fn render_pads_every_cell() {
    let grid = names(&["apple", "date", "kiwi", "banana", "fig", ""]);
    let lines = render_rows(&grid, 3, 2, 7);
    assert_eq!(text(&lines), vec!["apple  date   kiwi  ", "banana fig          "]);
    assert!(lines.iter().all(|l| l.len() == 20));
}

#[test]
fn wide_terminal_lays_out_rows() {
    let l = listing(&["one", "two", "three", "four", "five", "six", "seven"]);
    assert_eq!(column_width(&l), 6);
    assert_eq!(num_columns(40, 6), 5);
    assert_eq!(
        text(&column_lines(&l, 40)),
        vec!["five  one   six   two        ", "four  seven three            "]
    );
}

#[test]
fn narrow_terminal_gives_one_column() {
    let l = listing(&["bb", "a", "ccc"]);
    assert_eq!(text(&column_lines(&l, 5)), vec!["a  ", "bb ", "ccc"]);
}

#[test]
fn entries_reaching_the_final_column_leave_it_empty() {
    let grid = transpose(names(&["a", "b", "c", "d"]), 3, num_rows(4, 3));
    assert_eq!(grid, names(&["a", "c", "", "b", "d", ""]));
    let empty: Vec<usize> = (0..grid.len()).filter(|k| grid[*k].is_empty()).collect();
    assert_eq!(empty, vec![2, 5]);
}
