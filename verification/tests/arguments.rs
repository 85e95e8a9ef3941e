use splirst::{run, Arguments, Method, SplitError};

fn arguments() -> Arguments {
    Arguments {
        suffix_length: 2,
        numeric_suffix: false,
        line_count: 1000,
        chunk_count: None,
        byte_count: None,
        pattern: None,
        file_path: String::from("source.txt"),
        prefix: String::from("x"),
    }
}

fn names_and_contents(args: Arguments, source: &[u8]) -> Vec<(String, String)> {
    run(args, source)
        .unwrap()
        .into_iter()
        .map(|file| (file.name, String::from_utf8(file.contents).unwrap()))
        .collect()
}

fn pair(name: &str, contents: &str) -> (String, String) {
    (String::from(name), String::from(contents))
}

#[test]
fn default_arguments_choose_nothing() {
    let args = Arguments::default();
    assert_eq!(0, args.suffix_length);
    assert!(!args.numeric_suffix);
    assert_eq!(0, args.line_count);
    assert_eq!(None, args.chunk_count);
    assert_eq!(None, args.byte_count);
    assert_eq!(None, args.pattern);
    assert_eq!("", args.file_path);
    assert_eq!("", args.prefix);
}

#[test]
fn lines_are_counted_where_nothing_else_is_chosen() {
    let args = Arguments { line_count: 2, ..arguments() };
    assert!(matches!(args.method(), Ok(Method::ByLineCount(2))));
    assert_eq!(
        vec![pair("xaa", "a\nb\nc"), pair("xab", "d")],
        names_and_contents(args, b"a\nb\nc\nd\n")
    );
}

#[test]
fn a_chunk_count_chooses_chunks() {
    let args = Arguments { chunk_count: Some(2), ..arguments() };
    assert!(matches!(args.method(), Ok(Method::ByChunkCount(2))));
    assert_eq!(vec![pair("xaa", "ab"), pair("xab", "cde")], names_and_contents(args, b"abcde"));
}

#[test]
fn a_byte_count_chooses_bytes() {
    let args = Arguments { byte_count: Some(2), ..arguments() };
    assert!(matches!(args.method(), Ok(Method::ByByteCount(2))));
    assert_eq!(
        vec![pair("xaa", "ab"), pair("xab", "cd"), pair("xac", "e")],
        names_and_contents(args, b"abcde")
    );
}

#[test]
fn a_pattern_chooses_matches() {
    let args = Arguments { pattern: Some(String::from("c")), ..arguments() };
    assert!(matches!(args.method(), Ok(Method::ByPattern(pattern)) if pattern == "c"));
    assert_eq!(
        vec![pair("xaa", "a\nb"), pair("xab", "c\nd")],
        names_and_contents(args, b"a\nb\nc\nd\n")
    );
}

#[test]
fn the_arguments_name_the_files() {
    let args = Arguments {
        byte_count: Some(2),
        suffix_length: 4,
        numeric_suffix: true,
        prefix: String::from("part-"),
        ..arguments()
    };
    assert_eq!(
        vec![pair("part-0000", "ab"), pair("part-0001", "cd"), pair("part-0002", "e")],
        names_and_contents(args, b"abcde")
    );
    let args = Arguments { byte_count: Some(3), suffix_length: 13, ..arguments() };
    assert_eq!(
        vec![pair("xaaaaaaaaaaaaa", "abc"), pair("xaaaaaaaaaaaab", "de")],
        names_and_contents(args, b"abcde")
    );
}

#[test]
fn two_ways_of_splitting_are_refused() {
    let args = Arguments { chunk_count: Some(2), byte_count: Some(2), ..arguments() };
    assert_eq!(Some(SplitError::ConflictingMethods), args.method().err());
    assert_eq!(Some(SplitError::ConflictingMethods), run(args, b"abc").err());
    let args = Arguments { chunk_count: Some(2), pattern: Some(String::from("a")), ..arguments() };
    assert_eq!(Some(SplitError::ConflictingMethods), run(args, b"abc").err());
    let args = Arguments { byte_count: Some(2), pattern: Some(String::from("a")), ..arguments() };
    assert_eq!(Some(SplitError::ConflictingMethods), run(args, b"abc").err());
    let args = Arguments {
        chunk_count: Some(0),
        byte_count: Some(0),
        pattern: Some(String::from("(")),
        ..arguments()
    };
    assert_eq!(Some(SplitError::ConflictingMethods), run(args, b"abc").err());
}

#[test]
fn a_suffix_length_out_of_range_is_refused() {
    for suffix_length in [i64::MIN, -1, 0, 1, 14, i64::MAX] {
        let args = Arguments { suffix_length, ..arguments() };
        assert_eq!(Some(SplitError::InvalidSuffixLength), args.file_options().err());
        assert_eq!(Some(SplitError::InvalidSuffixLength), run(args, b"abc").err());
    }
    for suffix_length in 2..14 {
        let args = Arguments { suffix_length, ..arguments() };
        let options = args.file_options().unwrap();
        assert_eq!(suffix_length as usize, options.suffix_length);
        assert_eq!("x", options.prefix);
        assert!(!options.numeric_suffix);
        assert_eq!(1, run(args, b"abc").unwrap().len());
    }
}

#[test]
fn the_suffix_length_is_looked_at_first() {
    let args = Arguments {
        suffix_length: 1,
        chunk_count: Some(2),
        byte_count: Some(2),
        ..arguments()
    };
    assert_eq!(Some(SplitError::InvalidSuffixLength), run(args, b"abc").err());
}

#[test]
fn a_chunk_count_out_of_range_is_refused() {
    for chunk_count in [i64::MIN, -1, 0, 677, i64::MAX] {
        let args = Arguments { chunk_count: Some(chunk_count), ..arguments() };
        assert_eq!(Some(SplitError::InvalidChunkCount), args.method().err());
        assert_eq!(Some(SplitError::InvalidChunkCount), run(args, b"abc").err());
    }
    let source = vec![b'a'; 676];
    let args = Arguments { chunk_count: Some(676), ..arguments() };
    assert_eq!(676, run(args, &source).unwrap().len());
    let args = Arguments { chunk_count: Some(1), ..arguments() };
    assert_eq!(1, run(args, &source).unwrap().len());
}

#[test]
fn counts_of_zero_are_refused() {
    let args = Arguments { byte_count: Some(0), ..arguments() };
    assert_eq!(Some(SplitError::InvalidByteCount), run(args, b"abc").err());
    let args = Arguments { line_count: 0, ..arguments() };
    assert_eq!(Some(SplitError::InvalidLineCount), run(args, b"abc").err());
}

#[test]
fn a_malformed_pattern_in_the_arguments_is_refused() {
    let args = Arguments { pattern: Some(String::from("a)")), ..arguments() };
    assert_eq!(Some(SplitError::InvalidPattern), run(args, b"abc").err());
}

#[test]
fn too_many_files_for_the_suffix_are_refused() {
    let source = vec![b'a'; 677];
    let args = Arguments { byte_count: Some(1), ..arguments() };
    assert_eq!(Some(SplitError::SuffixExhausted), run(args, &source).err());
    let args = Arguments { byte_count: Some(1), numeric_suffix: true, ..arguments() };
    assert_eq!(Some(SplitError::SuffixExhausted), run(args, &source).err());
    let args =
        Arguments { byte_count: Some(1), numeric_suffix: true, suffix_length: 3, ..arguments() };
    assert_eq!(677, run(args, &source).unwrap().len());
}
