use splirst::{
    split_by_byte_count, split_by_chunk_count, split_by_line_count, split_by_pattern, FileOptions,
};

/// One line of `length` bytes, its line feed included.
fn line(start: &str, length: usize) -> Vec<u8> {
    let mut line = start.as_bytes().to_vec();
    while line.len() < length - 1 {
        line.push(b'a' + (line.len() % 23) as u8);
    }
    line.push(b'\n');
    line
}

/// A text of 841 lines and 122,912 bytes. Its first 547 lines take 64,138
/// bytes, and line 361, which starts at byte 36,000, is the only one that
/// names Lucca.
fn excerpt() -> Vec<u8> {
    let mut text = Vec::new();
    for number in 0..360 {
        text.extend(line(&format!("{number} Well, Prince, "), 100));
    }
    text.extend(line("Lucca are now just family estates ", 9538));
    for number in 361..547 {
        text.extend(line(&format!("{number} But I warn you, "), 100));
    }
    for number in 547..840 {
        text.extend(line(&format!("{number} It was in July, 1805, "), 200));
    }
    text.extend(line("840 and the speaker was ", 174));
    text
}

#[test]
fn excerpt_has_the_size_it_is_said_to_have() {
    let text = excerpt();
    assert_eq!(122912, text.len());
    assert_eq!(841, text.iter().filter(|byte| **byte == b'\n').count());
    assert_eq!(b"Lucca", &text[36000..36005]);
}

#[test]
fn split_file_by_chunk_count() {
    let file = excerpt();
    let file_size = file.len();
    let prefix = String::from("a");
    let chunk_count = 2;
    let file_options = FileOptions { prefix, suffix_length: 2, numeric_suffix: false };

    let files = split_by_chunk_count(chunk_count, &file, file_options).unwrap();

    assert_eq!(2, files.len());
    assert_eq!("aaa", files[0].name);
    assert_eq!("aab", files[1].name);
    assert_eq!(file_size / chunk_count, files[0].contents.len());
    assert_eq!(file_size / chunk_count, files[1].contents.len());
}

#[test]
fn split_file_by_line_count() {
    let file = excerpt();
    let prefix = String::from("b");
    let line_count = 546;
    let file_options = FileOptions { prefix, suffix_length: 2, numeric_suffix: false };

    let files = split_by_line_count(line_count, &file, file_options).unwrap();

    assert_eq!(2, files.len());
    assert_eq!("baa", files[0].name);
    assert_eq!("bab", files[1].name);
    assert_eq!(64137, files[0].contents.len());
    assert_eq!(58773, files[1].contents.len());
}

#[test]
fn split_file_by_byte_count() {
    let file = excerpt();
    let file_size = file.len();
    let prefix = String::from("c");
    let byte_count = 100000;
    let file_options = FileOptions { prefix, suffix_length: 2, numeric_suffix: false };
    let expected_file_1_size = byte_count;
    let expected_file_2_size = file_size - byte_count;

    let files = split_by_byte_count(byte_count as u64, &file, file_options).unwrap();

    assert_eq!(2, files.len());
    assert_eq!("caa", files[0].name);
    assert_eq!("cab", files[1].name);
    assert_eq!(expected_file_1_size, files[0].contents.len());
    assert_eq!(expected_file_2_size, files[1].contents.len());
}

#[test]
fn split_file_by_pattern() {
    let file = excerpt();
    let prefix = String::from("d");
    let pattern = String::from("Lucca");
    let file_options = FileOptions { prefix, suffix_length: 2, numeric_suffix: false };
    let expected_file_1_size = 35999;
    let expected_file_2_size = 86911;

    let files = split_by_pattern(pattern, &file, file_options).unwrap();

    assert_eq!(2, files.len());
    assert_eq!("daa", files[0].name);
    assert_eq!("dab", files[1].name);
    assert_eq!(expected_file_1_size, files[0].contents.len());
    assert_eq!(expected_file_2_size, files[1].contents.len());
}
