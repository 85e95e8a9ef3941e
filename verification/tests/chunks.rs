use splirst::chunks::{cut_by_count, cut_by_size};
use splirst::{split_by_byte_count, split_by_chunk_count, FileOptions, SplitError};

fn options(prefix: &str) -> FileOptions {
    FileOptions { prefix: String::from(prefix), suffix_length: 2, numeric_suffix: false }
}

fn bytes(length: usize) -> Vec<u8> {
    (0..length).map(|i| (i * 7 % 251) as u8).collect()
}

#[test]
fn cut_by_size_gives_full_chunks_and_a_rest() {
    let chunks = cut_by_size(b"abcdefghij", 4);
    assert_eq!(vec![b"abcd".to_vec(), b"efgh".to_vec(), b"ij".to_vec()], chunks);
}

#[test]
fn cut_by_size_gives_no_empty_chunk_at_the_end() {
    let chunks = cut_by_size(b"abcdefgh", 4);
    assert_eq!(vec![b"abcd".to_vec(), b"efgh".to_vec()], chunks);
}

#[test]
fn cut_by_size_of_nothing_gives_nothing() {
    assert!(cut_by_size(b"", 4).is_empty());
}

#[test]
fn cut_by_size_larger_than_the_source_gives_one_chunk() {
    assert_eq!(vec![b"abc".to_vec()], cut_by_size(b"abc", 3));
    assert_eq!(vec![b"abc".to_vec()], cut_by_size(b"abc", 4));
    assert_eq!(vec![b"abc".to_vec()], cut_by_size(b"abc", usize::MAX));
}

#[test]
fn cut_by_count_puts_the_rest_into_the_last_chunk() {
    let chunks = cut_by_count(b"abcdefghij", 3);
    assert_eq!(vec![b"abc".to_vec(), b"def".to_vec(), b"ghij".to_vec()], chunks);
    let chunks = cut_by_count(b"abcdefghij", 4);
    assert_eq!(vec![b"ab".to_vec(), b"cd".to_vec(), b"ef".to_vec(), b"ghij".to_vec()], chunks);
}

#[test]
fn cut_by_count_of_an_odd_source_in_two_gives_the_smaller_half_first() {
    let chunks = cut_by_count(b"abcde", 2);
    assert_eq!(vec![b"ab".to_vec(), b"cde".to_vec()], chunks);
}

#[test]
fn cut_by_count_gives_as_many_chunks_as_asked_where_the_source_is_long_enough() {
    for length in 1..60 {
        for count in 1..=length {
            let source = bytes(length);
            let chunks = cut_by_count(&source, count);
            assert_eq!(count, chunks.len());
            for chunk in &chunks[..count - 1] {
                assert_eq!(length / count, chunk.len());
            }
            assert_eq!(length - (count - 1) * (length / count), chunks[count - 1].len());
            assert_eq!(source, chunks.concat());
        }
    }
}

#[test]
fn cut_by_count_of_a_short_source_gives_one_chunk() {
    assert_eq!(vec![b"abc".to_vec()], cut_by_count(b"abc", 4));
    assert_eq!(vec![b"a".to_vec()], cut_by_count(b"a", 2));
    assert_eq!(vec![b"abc".to_vec()], cut_by_count(b"abc", usize::MAX));
}

#[test]
fn cut_by_count_of_nothing_gives_nothing() {
    assert!(cut_by_count(b"", 1).is_empty());
    assert!(cut_by_count(b"", 3).is_empty());
}

#[test]
fn chunks_by_size_put_together_are_the_source() {
    for length in 0..50 {
        for size in 1..55 {
            let source = bytes(length);
            let chunks = cut_by_size(&source, size);
            assert_eq!(source, chunks.concat());
            assert_eq!(length.div_ceil(size), chunks.len());
            for (i, chunk) in chunks.iter().enumerate() {
                if i + 1 < chunks.len() {
                    assert_eq!(size, chunk.len());
                } else {
                    assert!(1 <= chunk.len() && chunk.len() <= size);
                }
            }
        }
    }
}

#[test]
fn files_by_byte_count_put_together_are_the_source() {
    let source = bytes(1000);
    let files = split_by_byte_count(300, &source, options("x")).unwrap();
    let names: Vec<&str> = files.iter().map(|file| file.name.as_str()).collect();
    assert_eq!(vec!["xaa", "xab", "xac", "xad"], names);
    let sizes: Vec<usize> = files.iter().map(|file| file.contents.len()).collect();
    assert_eq!(vec![300, 300, 300, 100], sizes);
    let together: Vec<u8> = files.iter().flat_map(|file| file.contents.clone()).collect();
    assert_eq!(source, together);
}

#[test]
fn files_by_chunk_count_put_together_are_the_source() {
    let source = bytes(1000);
    let files = split_by_chunk_count(3, &source, options("x")).unwrap();
    let names: Vec<&str> = files.iter().map(|file| file.name.as_str()).collect();
    assert_eq!(vec!["xaa", "xab", "xac"], names);
    let sizes: Vec<usize> = files.iter().map(|file| file.contents.len()).collect();
    assert_eq!(vec![333, 333, 334], sizes);
    let together: Vec<u8> = files.iter().flat_map(|file| file.contents.clone()).collect();
    assert_eq!(source, together);
}

#[test]
fn two_chunks_of_any_source_are_its_halves() {
    for length in 2..200 {
        let source = bytes(length);
        let files = split_by_chunk_count(2, &source, options("x")).unwrap();
        assert_eq!(2, files.len());
        assert_eq!(length / 2, files[0].contents.len());
        assert_eq!(length, files[0].contents.len() + files[1].contents.len());
        assert_eq!(source[..length / 2], files[0].contents[..]);
        assert_eq!(source[length / 2..], files[1].contents[..]);
    }
}

#[test]
fn two_chunks_of_one_byte_are_one_file() {
    let files = split_by_chunk_count(2, b"a", options("x")).unwrap();
    assert_eq!(1, files.len());
    assert_eq!("xaa", files[0].name);
    assert_eq!(b"a".to_vec(), files[0].contents);
}

#[test]
fn an_empty_source_gives_no_file() {
    assert!(split_by_chunk_count(2, b"", options("x")).unwrap().is_empty());
    assert!(split_by_byte_count(10, b"", options("x")).unwrap().is_empty());
}

#[test]
fn a_byte_count_of_zero_is_refused() {
    let result = split_by_byte_count(0, b"abc", options("x"));
    assert_eq!(Some(SplitError::InvalidByteCount), result.err());
    let result = split_by_byte_count(0, b"", options("x"));
    assert_eq!(Some(SplitError::InvalidByteCount), result.err());
}

#[test]
fn a_chunk_count_of_zero_is_refused() {
    let result = split_by_chunk_count(0, b"abc", options("x"));
    assert_eq!(Some(SplitError::InvalidChunkCount), result.err());
}

#[test]
fn a_byte_count_beyond_the_source_gives_one_file() {
    let files = split_by_byte_count(u64::MAX, b"abc", options("x")).unwrap();
    assert_eq!(1, files.len());
    assert_eq!(b"abc".to_vec(), files[0].contents);
}

#[test]
fn more_files_than_letters_can_number_are_refused() {
    let source = bytes(677);
    let result = split_by_byte_count(1, &source, options("x"));
    assert_eq!(Some(SplitError::SuffixExhausted), result.err());
    let result = split_by_chunk_count(677, &source, options("x"));
    assert_eq!(Some(SplitError::SuffixExhausted), result.err());
    let files = split_by_byte_count(1, &source[..676], options("x")).unwrap();
    assert_eq!(676, files.len());
    assert_eq!("xzz", files[675].name);
}

#[test]
fn more_files_than_digits_can_number_are_refused() {
    let numeric = FileOptions { prefix: String::from("x"), suffix_length: 2, numeric_suffix: true };
    let source = bytes(101);
    let result = split_by_byte_count(1, &source, numeric);
    assert_eq!(Some(SplitError::SuffixExhausted), result.err());
    let numeric = FileOptions { prefix: String::from("x"), suffix_length: 2, numeric_suffix: true };
    let files = split_by_byte_count(1, &source[..100], numeric).unwrap();
    assert_eq!(100, files.len());
    assert_eq!("x00", files[0].name);
    assert_eq!("x99", files[99].name);
}

#[test]
fn a_suffix_too_short_for_letters_names_no_file() {
    let short = FileOptions { prefix: String::from("x"), suffix_length: 1, numeric_suffix: false };
    let result = split_by_byte_count(1, b"abc", short);
    assert_eq!(Some(SplitError::SuffixExhausted), result.err());
    let short = FileOptions { prefix: String::from("x"), suffix_length: 1, numeric_suffix: false };
    assert!(split_by_byte_count(1, b"", short).unwrap().is_empty());
}
