use bogchamp::layout::format_solutions;

fn owned(words: &[&str]) -> Vec<String> {
    words.iter().map(|w| w.to_string()).collect()
}

#[test]
fn layout_of_nothing_is_one_empty_row() {
    let rows = format_solutions(&Vec::new());
    assert_eq!(rows, vec![Vec::<String>::new()]);
}

#[test]
fn layout_puts_shortest_first_five_to_a_row() {
    let rows = format_solutions(&owned(&["aaaaaa", "bbbb", "ccccc", "dddd", "eeeeeee", "ffff", "gggggg"]));
    // equal lengths come out in reverse order of the input
    assert_eq!(rows, vec![owned(&["ffff", "dddd", "bbbb", "ccccc", "gggggg"]), owned(&["aaaaaa", "eeeeeee"])]);
}

#[test]
fn layout_of_full_rows_ends_with_an_empty_row() {
    let words = owned(&["abcd", "bcde", "cdef", "defg", "efgh"]);
    let rows = format_solutions(&words);
    assert_eq!(rows.len(), 2);
    assert_eq!(rows[0], owned(&["efgh", "defg", "cdef", "bcde", "abcd"]));
    assert!(rows[1].is_empty());
}

#[test]
fn layout_row_count() {
    for n in 0..23usize {
        let words: Vec<String> = (0..n).map(|i| "x".repeat(4 + i % 3)).collect();
        let rows = format_solutions(&words);
        assert_eq!(rows.len(), n / 5 + 1);
        let total: usize = rows.iter().map(|r| r.len()).sum();
        assert_eq!(total, n);
        assert!(rows.iter().all(|r| r.len() <= 5));
        let flat: Vec<&String> = rows.iter().flatten().collect();
        assert!(flat.windows(2).all(|w| w[0].len() <= w[1].len()));
    }
}
