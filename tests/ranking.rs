use levtable::{Lev, LevError, Rows, Table, UNMATCHED};

fn rows_of(data: &[&[&str]]) -> Vec<Vec<String>> {
    data.iter().map(|row| row.iter().map(|c| c.to_string()).collect()).collect()
}

fn owned(result: Vec<(&[String], i32)>) -> Vec<(Vec<String>, i32)> {
    result.into_iter().map(|(row, d)| (row.to_vec(), d)).collect()
}

fn signatures() -> Table {
    Table::new(
        80,
        2,
        rows_of(&[
            &["pop", "Vec->Option"],
            &["first", "Vec->Option"],
            &["take", "Option->Option"],
        ]),
    )
    .expect("rows of width two")
}

fn row(cells: &[&str]) -> Vec<String> {
    cells.iter().map(|c| c.to_string()).collect()
}

#[test]
fn compare_with_empty_word_counts_every_character() {
    let lev = Lev::new(10, 10);
    assert_eq!(lev.compare("", "abcde").unwrap(), 5);
    assert_eq!(lev.compare("abcde", "").unwrap(), 5);
    assert_eq!(lev.compare("", "").unwrap(), 0);
}

#[test]
fn compare_word_with_itself_is_zero() {
    let lev = Lev::new(16, 16);
    for w in ["a", "kitten", "Option->Option", "ééé"] {
        assert_eq!(lev.compare(w, w).unwrap(), 0);
    }
}

#[test]
fn compare_is_symmetric() {
    let lev = Lev::new(16, 16);
    assert_eq!(lev.compare("kitten", "sitting").unwrap(), 3);
    assert_eq!(lev.compare("sitting", "kitten").unwrap(), 3);
    assert_eq!(lev.compare("flaw", "lawn").unwrap(), lev.compare("lawn", "flaw").unwrap());
}

#[test]
fn compare_obeys_triangle_inequality() {
    let lev = Lev::new(16, 16);
    let words = ["kitten", "sitting", "sitter", "mitten", "", "k"];
    for a in words {
        for b in words {
            for c in words {
                let ac = lev.compare(a, c).unwrap();
                let ab = lev.compare(a, b).unwrap();
                let bc = lev.compare(b, c).unwrap();
                assert!(ac <= ab + bc, "{a} {b} {c}");
            }
        }
    }
}

#[test]
fn compare_exact_distances() {
    let lev = Lev::new(32, 32);
    assert_eq!(lev.compare("flaw", "lawn").unwrap(), 2);
    assert_eq!(lev.compare("intention", "execution").unwrap(), 5);
    assert_eq!(lev.compare("aa", "a").unwrap(), 1);
    assert_eq!(lev.compare("a", "aa").unwrap(), 1);
    assert_eq!(lev.compare("pop", "Vec->Option").unwrap(), 9);
}

#[test]
fn compare_reuses_matrix_across_lengths() {
    let lev = Lev::new(12, 12);
    assert_eq!(lev.compare("abcdefghij", "abcdefghij").unwrap(), 0);
    assert_eq!(lev.compare("ab", "ba").unwrap(), 2);
    assert_eq!(lev.compare("abcdefghij", "a").unwrap(), 9);
    assert_eq!(lev.compare("b", "abc").unwrap(), 2);
}

#[test]
fn compare_counts_characters_not_bytes() {
    let lev = Lev::new(2, 2);
    assert_eq!(lev.compare("é", "e").unwrap(), 1);
    assert_eq!(lev.compare("é", "é").unwrap(), 0);
}

#[test]
fn compare_capacity_boundary_query() {
    let lev = Lev::new(5, 8);
    assert_eq!(lev.compare("abcde", "x"), Err(LevError::XWordOutOfBound));
    assert_eq!(lev.compare("abcd", "x"), Ok(4));
}

#[test]
fn compare_capacity_boundary_candidate() {
    let lev = Lev::new(8, 4);
    assert_eq!(lev.compare("x", "abcd"), Err(LevError::YWordOutOfBound));
    assert_eq!(lev.compare("x", "abc"), Ok(3));
}

#[test]
fn compare_checks_query_before_candidate() {
    let lev = Lev::new(2, 2);
    assert_eq!(lev.compare("abc", "abc"), Err(LevError::XWordOutOfBound));
}

#[test]
fn zero_capacity_refuses_every_word() {
    let lev = Lev::new(0, 4);
    assert_eq!(lev.compare("", "a"), Err(LevError::XWordOutOfBound));
    let lev = Lev::new(4, 0);
    assert_eq!(lev.compare("a", ""), Err(LevError::YWordOutOfBound));
}

#[test]
fn rank_first_takes_exact_row() {
    let table = signatures();
    let got = owned(table.compare("first", 1));
    assert_eq!(got, vec![(row(&["first", "Vec->Option"]), 0)]);
}

#[test]
fn rank_pop_orders_by_best_cell() {
    let table = signatures();
    let got = owned(table.compare("pop", 2));
    assert_eq!(
        got,
        vec![(row(&["pop", "Vec->Option"]), 0), (row(&["take", "Option->Option"]), 4)]
    );
    let all = owned(table.compare("pop", 3));
    assert_eq!(all[2], (row(&["first", "Vec->Option"]), 5));
}

#[test]
fn rank_take_zero_is_empty() {
    let table = signatures();
    assert!(table.compare("pop", 0).is_empty());
}

#[test]
fn rank_take_beyond_row_count_returns_all_sorted() {
    let table = signatures();
    let got = owned(table.compare("pop", 10));
    assert_eq!(got.len(), 3);
    assert!(got.windows(2).all(|w| w[0].1 <= w[1].1));
    assert_eq!(got.iter().map(|(_, d)| *d).collect::<Vec<_>>(), vec![0, 4, 5]);
}

#[test]
fn rank_is_deterministic() {
    let table = signatures();
    for q in ["pop", "first", "Option", "", "zzz"] {
        assert_eq!(owned(table.compare(q, 3)), owned(table.compare(q, 3)));
    }
}

#[test]
fn rank_keeps_table_order_on_ties() {
    let table = Table::new(8, 1, rows_of(&[&["zz"], &["xa"], &["a"], &["ya"]])).unwrap();
    let got = owned(table.compare("a", 4));
    assert_eq!(
        got,
        vec![(row(&["a"]), 0), (row(&["xa"]), 1), (row(&["ya"]), 1), (row(&["zz"]), 2)]
    );
}

#[test]
fn rank_query_too_long_gives_unmatched_in_table_order() {
    let table = Table::new(3, 1, rows_of(&[&["abc"], &["ab"], &["a"]])).unwrap();
    let got = owned(table.compare("abcd", 3));
    assert_eq!(
        got,
        vec![(row(&["abc"]), UNMATCHED), (row(&["ab"]), UNMATCHED), (row(&["a"]), UNMATCHED)]
    );
    let ok = owned(table.compare("ab", 3));
    assert_eq!(ok[0], (row(&["ab"]), 0));
}

#[test]
fn construction_rejects_wrong_width() {
    let bad = rows_of(&[&["pop", "Vec->Option"], &["first"], &["take", "Option->Option"]]);
    assert!(Table::new(80, 2, bad).is_none());
    let too_wide = rows_of(&[&["pop", "Vec->Option", "extra"]]);
    assert!(Table::new(80, 2, too_wide).is_none());
}

#[test]
fn construction_accepts_empty_table() {
    let table = Table::new(80, 3, Vec::new()).unwrap();
    assert_eq!(table.col_count, 3);
    assert!(table.compare("pop", 5).is_empty());
}

#[test]
fn construction_sizes_engine_from_longest_cell() {
    let table = Table::new(80, 1, rows_of(&[&["abcdefghijklmnopqrstuvwxyz"]])).unwrap();
    let got = owned(table.compare("abc", 1));
    assert_eq!(got, vec![(row(&["abcdefghijklmnopqrstuvwxyz"]), 23)]);
}

#[test]
fn rows_keep_ranked_order() {
    let table = signatures();
    let rows = Rows::from_ranked(table.compare("pop", 3));
    let names: Vec<&str> = rows.content().iter().map(|r| r[0].as_str()).collect();
    assert_eq!(names, vec!["pop", "take", "first"]);
}
