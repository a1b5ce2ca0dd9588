use dokosa::vcs::parse_diff_output;

#[test]
fn test_parse_diff_output() {
    let out = b"M\tsrc/a.rs\nD\tc.txt\nA\tb.txt\nR100\told new\n\nnotab\n";
    let (updated, removed) = parse_diff_output(out);
    assert_eq!(
        updated,
        vec![b"src/a.rs".to_vec(), b"b.txt".to_vec(), b"old new".to_vec()]
    );
    assert_eq!(removed, vec![b"c.txt".to_vec()]);
}

#[test]
fn test_parse_diff_output_empty() {
    let (updated, removed) = parse_diff_output(b"");
    assert!(updated.is_empty());
    assert!(removed.is_empty());
}
