use mdbook_diagrams::apply::apply_edits;
use mdbook_diagrams::apply::apply_edits_to_book_item_recursively;
use mdbook_diagrams::apply::apply_edits_to_text;
use mdbook_diagrams::apply::edits_fit_text;
use mdbook_diagrams::apply::sort_edits_by_start;
use mdbook_diagrams::apply::split_by_place;
use mdbook_diagrams::model::child_place;
use mdbook_diagrams::model::clone_place;
use mdbook_diagrams::model::same_place;
use mdbook_diagrams::DocumentUnit;
use mdbook_diagrams::PendingEdit;

fn path(components: &[&str]) -> Vec<String> {
    components.iter().map(|c| c.to_string()).collect()
}

fn edit(unit: &[usize], start: usize, end: usize, new_text: &str) -> PendingEdit {
    PendingEdit {
        unit: unit.to_vec(),
        start,
        end,
        new_text: new_text.to_string(),
        cached_filename: String::new(),
    }
}

fn copy(edits: &[PendingEdit]) -> Vec<PendingEdit> {
    edits
        .iter()
        .map(|e| PendingEdit {
            unit: e.unit.clone(),
            start: e.start,
            end: e.end,
            new_text: e.new_text.clone(),
            cached_filename: e.cached_filename.clone(),
        })
        .collect()
}

/// Applies edits that are ordered by start from the first to the last,
/// moving every range by the bytes gained so far.
fn forward(text: &str, ordered: &[PendingEdit]) -> String {
    let mut out = text.to_string();
    let mut shift: isize = 0;
    for e in ordered {
        let start = (e.start as isize + shift) as usize;
        let end = (e.end as isize + shift) as usize;
        out.replace_range(start..end, &e.new_text);
        shift += e.new_text.len() as isize - (e.end - e.start) as isize;
    }
    out
}

/// A text of `n` blocks with separators, and one edit per block whose
/// replacement differs in length from the block.
fn blocks_and_edits(n: usize) -> (String, Vec<PendingEdit>) {
    let mut text = String::from("head|");
    let mut edits = Vec::new();
    for i in 0..n {
        let block = format!("<{}>", "b".repeat(1 + i % 7));
        let start = text.len();
        text.push_str(&block);
        let end = text.len();
        text.push_str(&format!(" gap{} é ", i));
        edits.push(edit(&[0], start, end, &"R".repeat((i * 5) % 11)));
    }
    text.push_str("|tail");
    (text, edits)
}

fn check_non_interference(n: usize) {
    let (text, edits) = blocks_and_edits(n);
    let expected = forward(&text, &edits);
    assert_eq!(apply_edits_to_text(&text, copy(&edits)), Some(expected.clone()));
    let mut reversed = copy(&edits);
    reversed.reverse();
    assert_eq!(apply_edits_to_text(&text, reversed), Some(expected.clone()));
    let mut rotated = copy(&edits);
    if n > 1 {
        rotated.rotate_left(n / 2);
    }
    assert_eq!(apply_edits_to_text(&text, rotated), Some(expected));
}

#[test]
fn non_interference_for_no_edit() {
    check_non_interference(0);
    assert_eq!(apply_edits_to_text("unchanged", Vec::new()), Some("unchanged".to_string()));
}

#[test]
fn non_interference_for_one_edit() {
    check_non_interference(1);
}

#[test]
fn non_interference_for_five_edits() {
    check_non_interference(5);
}

#[test]
fn non_interference_for_fifty_edits() {
    check_non_interference(50);
}

#[test]
fn edits_of_unequal_length_leave_the_rest_alone() {
    let text = "aa[1]bb[22]cc[333]dd";
    let edits = vec![
        edit(&[], 2, 5, "LONGER-THAN-BEFORE"),
        edit(&[], 7, 11, ""),
        edit(&[], 13, 18, "x"),
    ];
    assert_eq!(
        apply_edits_to_text(text, edits),
        Some("aaLONGER-THAN-BEFOREbbccxdd".to_string())
    );
}

#[test]
fn sorting_orders_by_start_and_keeps_ties_in_order() {
    let edits = vec![
        edit(&[], 9, 9, "c"),
        edit(&[], 3, 3, "first at three"),
        edit(&[], 0, 1, "a"),
        edit(&[], 3, 3, "second at three"),
        edit(&[], 3, 5, "third at three"),
    ];
    let sorted = sort_edits_by_start(edits);
    let seen: Vec<(usize, &str)> = sorted.iter().map(|e| (e.start, e.new_text.as_str())).collect();
    assert_eq!(
        seen,
        vec![
            (0, "a"),
            (3, "first at three"),
            (3, "second at three"),
            (3, "third at three"),
            (9, "c"),
        ]
    );
}

#[test]
fn insertions_at_one_place_keep_their_order() {
    let edits = vec![edit(&[], 2, 2, "X"), edit(&[], 2, 2, "Y"), edit(&[], 2, 4, "Z")];
    assert_eq!(apply_edits_to_text("abcdef", edits), Some("abXYZef".to_string()));
}

#[test]
fn overlapping_edits_are_refused() {
    let edits = vec![edit(&[], 0, 4, "x"), edit(&[], 3, 6, "y")];
    assert_eq!(apply_edits_to_text("abcdefgh", edits), None);
    let nested = vec![edit(&[], 1, 6, "x"), edit(&[], 2, 3, "y")];
    assert_eq!(apply_edits_to_text("abcdefgh", nested), None);
    let same_start = vec![edit(&[], 2, 4, "x"), edit(&[], 2, 2, "y")];
    assert_eq!(apply_edits_to_text("abcdefgh", same_start), None);
}

#[test]
fn edits_outside_the_text_are_refused() {
    assert_eq!(apply_edits_to_text("abc", vec![edit(&[], 2, 4, "x")]), None);
    assert_eq!(apply_edits_to_text("abc", vec![edit(&[], 2, 1, "x")]), None);
    assert_eq!(apply_edits_to_text("aé", vec![edit(&[], 1, 2, "x")]), None);
    assert_eq!(apply_edits_to_text("aé", vec![edit(&[], 1, 3, "x")]), Some("ax".to_string()));
}

#[test]
fn edits_fit_text_tests_ranges_and_order() {
    let text = "abcdefgh";
    assert!(edits_fit_text(text, &Vec::new()));
    assert!(edits_fit_text(text, &vec![edit(&[], 0, 2, ""), edit(&[], 2, 8, "")]));
    assert!(!edits_fit_text(text, &vec![edit(&[], 2, 8, ""), edit(&[], 0, 2, "")]));
    assert!(!edits_fit_text(text, &vec![edit(&[], 0, 3, ""), edit(&[], 2, 8, "")]));
    assert!(!edits_fit_text(text, &vec![edit(&[], 0, 9, "")]));
}

#[test]
fn edits_are_parted_by_place() {
    let edits = vec![
        edit(&[0], 0, 1, "1"),
        edit(&[1], 0, 1, "2"),
        edit(&[0], 2, 3, "3"),
        edit(&[], 0, 1, "4"),
        edit(&[0, 0], 0, 1, "5"),
    ];
    let (mine, others) = split_by_place(edits, &vec![0]);
    let mine: Vec<&str> = mine.iter().map(|e| e.new_text.as_str()).collect();
    let others: Vec<&str> = others.iter().map(|e| e.new_text.as_str()).collect();
    assert_eq!(mine, vec!["1", "3"]);
    assert_eq!(others, vec!["2", "4", "5"]);
}

#[test]
fn places_are_compared_by_their_indices() {
    assert!(same_place(&vec![], &vec![]));
    assert!(same_place(&vec![0, 2], &vec![0, 2]));
    assert!(!same_place(&vec![0, 2], &vec![0, 3]));
    assert!(!same_place(&vec![0, 2], &vec![0]));
    assert!(!same_place(&vec![2, 0], &vec![0, 2]));
    assert_eq!(clone_place(&vec![4, 5]), vec![4, 5]);
    assert_eq!(child_place(&vec![4, 5], 6), vec![4, 5, 6]);
    assert_eq!(child_place(&vec![], 0), vec![0]);
}

#[test]
fn a_unit_takes_the_edits_for_its_place() {
    let nested = DocumentUnit::new(path(&["dir", "n.md"]), "0123456789".to_string(), Vec::new());
    let unit = DocumentUnit::new(path(&["u.md"]), "abcdefghij".to_string(), vec![nested]);
    let edits = vec![
        edit(&[3, 0], 8, 10, "<N2>"),
        edit(&[3], 0, 2, "<U1>"),
        edit(&[9], 0, 1, "?"),
        edit(&[3, 0], 1, 3, ""),
        edit(&[3], 5, 6, "<U2>"),
    ];
    let (unit, left) = apply_edits_to_book_item_recursively(unit, &vec![3], edits).unwrap();
    assert_eq!(unit.path, path(&["u.md"]));
    assert_eq!(unit.text, "<U1>cde<U2>ghij");
    assert_eq!(unit.sub_units.len(), 1);
    assert_eq!(unit.sub_units[0].path, path(&["dir", "n.md"]));
    assert_eq!(unit.sub_units[0].text, "034567<N2>");
    assert_eq!(left.len(), 1);
    assert_eq!(left[0].unit, vec![9]);
}

#[test]
fn a_unit_without_edits_is_left_untouched() {
    let a = DocumentUnit::new(path(&["a.md"]), "alpha é".to_string(), Vec::new());
    let b = DocumentUnit::new(path(&["b.md"]), "beta".to_string(), Vec::new());
    let (book, left) = apply_edits(vec![a, b], vec![edit(&[1], 0, 4, "BETA")]).unwrap();
    assert_eq!(book.len(), 2);
    assert_eq!(book[0].text, "alpha é");
    assert_eq!(book[1].text, "BETA");
    assert_eq!(left.len(), 0);
    let (empty, left) = apply_edits(Vec::new(), vec![edit(&[1], 0, 4, "BETA")]).unwrap();
    assert_eq!(empty.len(), 0);
    assert_eq!(left.len(), 1);
}

#[test]
fn the_tree_keeps_its_shape() {
    let leaf = |name: &str| DocumentUnit::new(path(&[name]), format!("text of {}", name), Vec::new());
    let inner = DocumentUnit::new(path(&["inner.md"]), "inner".to_string(), vec![leaf("x.md"), leaf("y.md")]);
    let root = DocumentUnit::new(path(&["root.md"]), "root".to_string(), vec![inner, leaf("z.md")]);
    let edits = vec![edit(&[0, 0, 1], 0, 4, "TEXT"), edit(&[0], 4, 4, "!")];
    let (book, left) = apply_edits(vec![root], edits).unwrap();
    assert_eq!(left.len(), 0);
    assert_eq!(book.len(), 1);
    assert_eq!(book[0].text, "root!");
    assert_eq!(book[0].sub_units.len(), 2);
    assert_eq!(book[0].sub_units[0].path, path(&["inner.md"]));
    assert_eq!(book[0].sub_units[0].text, "inner");
    assert_eq!(book[0].sub_units[0].sub_units.len(), 2);
    assert_eq!(book[0].sub_units[0].sub_units[0].text, "text of x.md");
    assert_eq!(book[0].sub_units[0].sub_units[1].text, "TEXT of y.md");
    assert_eq!(book[0].sub_units[1].path, path(&["z.md"]));
    assert_eq!(book[0].sub_units[1].text, "text of z.md");
}

#[test]
fn units_that_share_a_path_get_their_own_edits() {
    let first = DocumentUnit::new(path(&["same.md"]), "0123456789".to_string(), Vec::new());
    let second = DocumentUnit::new(path(&["same.md"]), "abcdefghij".to_string(), Vec::new());
    let third = DocumentUnit::new(Vec::new(), "third".to_string(), Vec::new());
    let fourth = DocumentUnit::new(Vec::new(), "fourth".to_string(), Vec::new());
    let edits = vec![
        edit(&[3], 0, 6, "4"),
        edit(&[1], 5, 6, "Y"),
        edit(&[0], 0, 1, "X"),
        edit(&[2], 0, 5, "3"),
    ];
    let (book, left) = apply_edits(vec![first, second, third, fourth], edits).unwrap();
    assert_eq!(book[0].text, "X123456789");
    assert_eq!(book[1].text, "abcdeYghij");
    assert_eq!(book[2].text, "3");
    assert_eq!(book[3].text, "4");
    assert_eq!(left.len(), 0);
}

#[test]
fn the_arrival_order_of_edits_does_not_matter() {
    let text = "aa[1]bb[22]cc[333]dd";
    let edits = || vec![edit(&[], 2, 5, "one"), edit(&[], 7, 11, ""), edit(&[], 13, 18, "three!")];
    let expected = Some("aaonebbccthree!dd".to_string());
    let orders: [[usize; 3]; 6] = [[0, 1, 2], [0, 2, 1], [1, 0, 2], [1, 2, 0], [2, 0, 1], [2, 1, 0]];
    for order in orders {
        let all = edits();
        let arranged: Vec<PendingEdit> = order.iter().map(|&i| copy(&all[i..i + 1]).remove(0)).collect();
        assert_eq!(apply_edits_to_text(text, arranged), expected);
    }
}

#[test]
fn edits_that_do_not_fit_a_unit_fail_the_pass() {
    let a = DocumentUnit::new(path(&["a.md"]), "short".to_string(), Vec::new());
    assert!(apply_edits(vec![a], vec![edit(&[0], 3, 30, "x")]).is_none());
    let nested = DocumentUnit::new(path(&["n.md"]), "short".to_string(), Vec::new());
    let outer = DocumentUnit::new(path(&["o.md"]), "outer".to_string(), vec![nested]);
    let edits = vec![edit(&[0], 0, 1, "O"), edit(&[0, 0], 0, 3, "x"), edit(&[0, 0], 2, 4, "y")];
    assert!(apply_edits_to_book_item_recursively(outer, &vec![0], edits).is_none());
}
