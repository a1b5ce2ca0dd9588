use dokosa::chunker::Chunker;

fn texts(input: &str, window: usize, step: usize) -> Vec<(usize, String)> {
    Chunker::new(window, step)
        .apply(input.as_bytes())
        .into_iter()
        .map(|c| (c.line, String::from_utf8(c.data).unwrap()))
        .collect()
}

#[test]
fn test_apply_windows() {
    let input = "a\nb\nc\nd\n";
    assert_eq!(
        texts(input, 2, 1),
        vec![
            (0, "a\nb".to_string()),
            (1, "b\nc".to_string()),
            (2, "c\nd".to_string()),
        ]
    );
    assert_eq!(texts(input, 2, 2), vec![(0, "a\nb".to_string()), (2, "c\nd".to_string())]);
    assert_eq!(texts(input, 4, 1), vec![(0, "a\nb\nc\nd".to_string())]);
}

#[test]
fn test_apply_short_input_gives_one_chunk() {
    // fewer lines than one window: a single undersized chunk at line zero
    assert_eq!(texts("a\nb", 5, 2), vec![(0, "a\nb".to_string())]);
    assert_eq!(texts("", 3, 1), vec![(0, String::new())]);
}

#[test]
fn test_apply_strips_carriage_returns() {
    assert_eq!(texts("a\r\nb\r\n", 2, 1), vec![(0, "a\nb".to_string())]);
}
