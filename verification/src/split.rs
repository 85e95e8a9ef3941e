//! The four ways of splitting a source into files, and the choice among them.

use vstd::prelude::*;
use regex::Regex;
use crate::arguments::{Arguments, Method};
use crate::chunks::{
    byte_chunks, count_chunks, cut_by_count, cut_by_size, lemma_byte_chunks_concat,
    lemma_count_chunk_sizes, lemma_count_chunks_concat, lemma_one_chunk,
};
use crate::error::SplitError;
use crate::lines::{
    counted_groups, group_contents, group_lines, join_lines, lemma_contents_join,
    lemma_counted_groups, lemma_lines_exist, lemma_lines_rejoin, lemma_single_group,
    line_count_starts, lines_of, plainly_ended, split_lines, starts_group,
};
use crate::output::{
    contents_of, file_name, lemma_named_contents, models, name_files, named, names_suffice,
    outcome, output_plan, FileOptions, Naming, OutputFile, OutputModel,
};
use crate::pattern::{compiled, line_matches, match_flags, matching_lines};

verus! {

/// What splitting into files of `byte_count` bytes gives.
pub open spec fn byte_count_plan(byte_count: nat, source: Seq<u8>, naming: Naming) -> Result<
    Seq<OutputModel>,
    SplitError,
> {
    if byte_count == 0 {
        Err(SplitError::InvalidByteCount)
    } else {
        output_plan(byte_chunks(source, byte_count), naming)
    }
}

/// What splitting into `chunk_count` files gives.
pub open spec fn chunk_count_plan(chunk_count: nat, source: Seq<u8>, naming: Naming) -> Result<
    Seq<OutputModel>,
    SplitError,
> {
    if chunk_count == 0 {
        Err(SplitError::InvalidChunkCount)
    } else {
        output_plan(count_chunks(source, chunk_count), naming)
    }
}

/// What splitting by a number of lines gives.
pub open spec fn line_count_plan(line_count: nat, source: Seq<u8>, naming: Naming) -> Result<
    Seq<OutputModel>,
    SplitError,
> {
    let lines = lines_of(source);
    if line_count == 0 {
        Err(SplitError::InvalidLineCount)
    } else {
        output_plan(group_contents(lines, line_count_starts(lines.len(), line_count)), naming)
    }
}

/// What splitting before each line for which `matches` is set gives. Line `i`
/// of the source goes by `matches[i]`; a line beyond the end of `matches`
/// counts as not matching.
pub open spec fn matches_plan(matches: Seq<bool>, source: Seq<u8>, naming: Naming) -> Result<
    Seq<OutputModel>,
    SplitError,
> {
    output_plan(group_contents(lines_of(source), matches), naming)
}

/// What splitting before each line that a pattern matches gives.
pub open spec fn pattern_plan(pattern: Seq<char>, source: Seq<u8>, naming: Naming) -> Result<
    Seq<OutputModel>,
    SplitError,
> {
    match compiled(pattern) {
        Some(expression) => matches_plan(
            match_flags(expression, lines_of(source)),
            source,
            naming,
        ),
        None => Err(SplitError::InvalidPattern),
    }
}

/// The one file that holds everything: it has file number one.
pub open spec fn one_file(contents: Seq<u8>, naming: Naming) -> Seq<OutputModel> {
    seq![OutputModel { name: file_name(naming, 1), contents }]
}

/// A source with at least as many bytes as files are asked for gives exactly
/// that many files, where the suffix can number them: each but the last holds
/// the bytes of the source divided by the number of files, rounded down, and
/// the last holds what is left.
pub proof fn lemma_chunk_count_files(chunk_count: nat, source: Seq<u8>, naming: Naming)
    requires
        chunk_count > 0,
        source.len() >= chunk_count,
        names_suffice(chunk_count, naming),
    ensures
        chunk_count_plan(chunk_count, source, naming) matches Ok(files) && {
            &&& files.len() == chunk_count
            &&& forall|i: int|
                0 <= i < chunk_count - 1 ==> (#[trigger] files[i]).contents.len() == source.len()
                    / chunk_count
            &&& files[chunk_count - 1].contents.len() == source.len() - (chunk_count - 1) * (
            source.len() / chunk_count)
        },
{
    lemma_count_chunk_sizes(source, chunk_count);
    let files = named(count_chunks(source, chunk_count), naming);
    assert forall|i: int| 0 <= i < chunk_count - 1 implies (#[trigger] files[i]).contents.len()
        == source.len() / chunk_count by {
        assert(files[i].contents == count_chunks(source, chunk_count)[i]);
    }
}

/// A source of at least two bytes, split in two, gives exactly two files,
/// where the suffix can number them. The first holds half of the bytes,
/// rounded down, and the two together hold as many bytes as the source.
pub proof fn lemma_split_in_two(source: Seq<u8>, naming: Naming)
    requires
        source.len() >= 2,
        names_suffice(2, naming),
    ensures
        chunk_count_plan(2, source, naming) matches Ok(files) && {
            &&& files.len() == 2
            &&& files[0].contents.len() == source.len() / 2
            &&& files[0].contents.len() + files[1].contents.len() == source.len()
        },
{
    lemma_chunk_count_files(2, source, naming);
}

/// Where no line after the first is marked as a match, a source that is not
/// empty goes into one file, which holds its lines joined by line feeds. A
/// plainly ended source goes into it unchanged.
pub proof fn lemma_no_match_one_file(matches: Seq<bool>, source: Seq<u8>, naming: Naming)
    requires
        source.len() > 0,
        names_suffice(1, naming),
        forall|i: int| 0 < i < lines_of(source).len() ==> !starts_group(matches, i),
    ensures
        matches_plan(matches, source, naming) == Ok::<Seq<OutputModel>, SplitError>(
            one_file(join_lines(lines_of(source)), naming),
        ),
        plainly_ended(source) ==> join_lines(lines_of(source)) == source,
{
    let lines = lines_of(source);
    lemma_lines_exist(source);
    lemma_single_group(lines, matches);
    assert(named(group_contents(lines, matches), naming) =~= one_file(join_lines(lines), naming));
    if plainly_ended(source) {
        lemma_lines_rejoin(source);
    }
}

/// A pattern that matches no line of the source after the first puts a
/// source that is not empty into one file, which holds its lines joined by
/// line feeds. A plainly ended source goes into it unchanged.
pub proof fn lemma_pattern_without_match(pattern: Seq<char>, source: Seq<u8>, naming: Naming)
    requires
        source.len() > 0,
        names_suffice(1, naming),
        compiled(pattern) matches Some(expression) && forall|i: int|
            0 < i < lines_of(source).len() ==> !line_matches(
                expression,
                #[trigger] lines_of(source)[i],
            ),
    ensures
        pattern_plan(pattern, source, naming) == Ok::<Seq<OutputModel>, SplitError>(
            one_file(join_lines(lines_of(source)), naming),
        ),
        plainly_ended(source) ==> join_lines(lines_of(source)) == source,
{
    let expression = compiled(pattern)->0;
    let lines = lines_of(source);
    let matches = match_flags(expression, lines);
    assert forall|i: int| 0 < i < lines.len() implies !starts_group(matches, i) by {
        assert(!line_matches(expression, lines[i]));
    }
    lemma_no_match_one_file(matches, source, naming);
}

/// A source with no more lines than one more than are counted to a file goes
/// into one file, unless it is empty.
pub proof fn lemma_few_lines_one_file(line_count: nat, source: Seq<u8>, naming: Naming)
    requires
        line_count > 0,
        0 < lines_of(source).len() <= line_count + 1,
        names_suffice(1, naming),
    ensures
        line_count_plan(line_count, source, naming) == Ok::<Seq<OutputModel>, SplitError>(
            one_file(join_lines(lines_of(source)), naming),
        ),
{
    let lines = lines_of(source);
    let starts = line_count_starts(lines.len(), line_count);
    assert forall|i: int| 0 < i < lines.len() implies !starts_group(starts, i) by {
        if i >= 2 {
            assert(0 < i - 1 < line_count);
            assert((i - 1) % (line_count as int) == i - 1) by (nonlinear_arith)
                requires
                    0 < i - 1 < line_count,
            ;
        }
    }
    lemma_single_group(lines, starts);
    assert(named(group_contents(lines, starts), naming) =~= one_file(join_lines(lines), naming));
}

/// Splitting by a number of lines puts the first `line_count + 1` lines into
/// the first file and the next `line_count` lines into each later file; the
/// last file holds what is left.
pub proof fn lemma_line_count_files(line_count: nat, source: Seq<u8>, naming: Naming)
    requires
        line_count > 0,
    ensures
        line_count_plan(line_count, source, naming) == output_plan(
            counted_groups(lines_of(source), line_count).map_values(
                |group: Seq<Seq<u8>>| join_lines(group),
            ),
            naming,
        ),
{
    let lines = lines_of(source);
    lemma_counted_groups(lines, lines.len(), line_count);
}

/// Splits the source into files of `byte_count` bytes each; the last file
/// holds what is left and may be smaller. The files, one after another, are
/// the source. A `byte_count` of zero is refused, and so is a split into more
/// files than the suffix can number.
pub fn split_by_byte_count(byte_count: u64, source: &[u8], file_options: FileOptions) -> (result:
    Result<Vec<OutputFile>, SplitError>)
    ensures
        outcome(result) == byte_count_plan(byte_count as nat, source@, file_options@),
        result matches Ok(files) ==> contents_of(models(files@)).flatten() == source@,
{
    if byte_count == 0 {
        return Err(SplitError::InvalidByteCount);
    }
    let length = source.len();
    let size: usize = if byte_count <= length as u64 {
        byte_count as usize
    } else if length == 0 {
        1
    } else {
        length
    };
    proof {
        if byte_count > length {
            lemma_one_chunk(source@, byte_count as nat);
            lemma_one_chunk(source@, size as nat);
        }
        lemma_byte_chunks_concat(source@, byte_count as nat);
        lemma_named_contents(byte_chunks(source@, byte_count as nat), file_options@);
    }
    name_files(cut_by_size(source, size), &file_options)
}

/// Splits the source into `chunk_count` files: each holds as many bytes as
/// the source has, divided by `chunk_count` and rounded down, and the last
/// file holds what is left as well. No empty file is made: a source with
/// fewer bytes than `chunk_count` goes into one file, and an empty source into
/// none. The files, one after another, are the source. A `chunk_count` of
/// zero is refused, and so is a split into more files than the suffix can
/// number.
pub fn split_by_chunk_count(chunk_count: usize, source: &[u8], file_options: FileOptions) -> (result:
    Result<Vec<OutputFile>, SplitError>)
    ensures
        outcome(result) == chunk_count_plan(chunk_count as nat, source@, file_options@),
        result matches Ok(files) ==> contents_of(models(files@)).flatten() == source@,
{
    if chunk_count == 0 {
        return Err(SplitError::InvalidChunkCount);
    }
    proof {
        lemma_count_chunks_concat(source@, chunk_count as nat);
        lemma_named_contents(count_chunks(source@, chunk_count as nat), file_options@);
    }
    name_files(cut_by_count(source, chunk_count), &file_options)
}

/// Says for each of `total` lines whether a file starts with it when
/// `line_count` lines are counted.
fn starts_by_count(total: usize, line_count: usize) -> (starts: Vec<bool>)
    requires
        line_count > 0,
    ensures
        starts@ == line_count_starts(total as nat, line_count as nat),
{
    let mut starts: Vec<bool> = Vec::new();
    let mut i: usize = 0;
    while i < total
        invariant
            line_count > 0,
            i <= total,
            starts@ =~= line_count_starts(total as nat, line_count as nat).take(i as int),
        decreases total - i,
    {
        starts.push(i >= 2 && (i - 1) % line_count == 0);
        i += 1;
    }
    assert(starts@ =~= line_count_starts(total as nat, line_count as nat));
    starts
}

/// Splits the source by lines. A file is closed after the line at index `i`
/// of the source where `i` is positive and a multiple of `line_count`: the
/// first file holds the first `line_count + 1` lines and each later file the
/// next `line_count` lines; the last file holds what is left. The lines of a
/// file are joined by line feeds, with none after the last line. The contents
/// of the files, joined by line feeds, are the lines of the source joined by
/// line feeds. A `line_count` of zero is refused, and so is a split into more
/// files than the suffix can number.
pub fn split_by_line_count(line_count: usize, source: &[u8], file_options: FileOptions) -> (result:
    Result<Vec<OutputFile>, SplitError>)
    ensures
        outcome(result) == line_count_plan(line_count as nat, source@, file_options@),
        result matches Ok(files) ==> join_lines(contents_of(models(files@))) == join_lines(
            lines_of(source@),
        ),
{
    if line_count == 0 {
        return Err(SplitError::InvalidLineCount);
    }
    let lines = split_lines(source);
    let starts = starts_by_count(lines.len(), line_count);
    proof {
        lemma_contents_join(lines_of(source@), starts@);
        lemma_named_contents(group_contents(lines_of(source@), starts@), file_options@);
    }
    name_files(group_lines(&lines, &starts), &file_options)
}

/// Splits the source by lines, a new file starting with each line `i` for
/// which `matches[i]` is set, and with the first line. A line for which
/// `matches` has no entry starts no file. The contents of the files, joined
/// by line feeds, are the lines of the source joined by line feeds. A split
/// into more files than the suffix can number is refused.
pub fn split_at_matches(source: &[u8], matches: &Vec<bool>, file_options: FileOptions) -> (result:
    Result<Vec<OutputFile>, SplitError>)
    ensures
        outcome(result) == matches_plan(matches@, source@, file_options@),
        result matches Ok(files) ==> join_lines(contents_of(models(files@))) == join_lines(
            lines_of(source@),
        ),
{
    let lines = split_lines(source);
    proof {
        lemma_contents_join(lines_of(source@), matches@);
        lemma_named_contents(group_contents(lines_of(source@), matches@), file_options@);
    }
    name_files(group_lines(&lines, matches), &file_options)
}

/// Splits the source by lines, a new file starting with each line that the
/// pattern matches: the matching line is the first of its file, and what
/// stands before the first match is a file of its own. A line that is not
/// valid UTF-8 matches nothing and stays where it is. The contents of the
/// files, joined by line feeds, are the lines of the source joined by line
/// feeds. A pattern that does not compile is refused, and so is a split into
/// more files than the suffix can number.
pub fn split_by_pattern(pattern: String, source: &[u8], file_options: FileOptions) -> (result:
    Result<Vec<OutputFile>, SplitError>)
    ensures
        outcome(result) == pattern_plan(pattern@, source@, file_options@),
        result matches Ok(files) ==> join_lines(contents_of(models(files@))) == join_lines(
            lines_of(source@),
        ),
{
    let expression = match Regex::new(pattern.as_str()) {
        Ok(expression) => expression,
        Err(_) => {
            return Err(SplitError::InvalidPattern);
        },
    };
    let lines = split_lines(source);
    let matches = matching_lines(&expression, &lines);
    proof {
        lemma_contents_join(lines_of(source@), matches@);
        lemma_named_contents(group_contents(lines_of(source@), matches@), file_options@);
    }
    name_files(group_lines(&lines, &matches), &file_options)
}

/// What splitting in the given way gives.
pub open spec fn method_plan(method: Method, source: Seq<u8>, naming: Naming) -> Result<
    Seq<OutputModel>,
    SplitError,
> {
    match method {
        Method::ByLineCount(line_count) => line_count_plan(line_count as nat, source, naming),
        Method::ByChunkCount(chunk_count) => chunk_count_plan(chunk_count as nat, source, naming),
        Method::ByByteCount(byte_count) => byte_count_plan(byte_count as nat, source, naming),
        Method::ByPattern(pattern) => pattern_plan(pattern@, source, naming),
    }
}

/// What a run with the given arguments gives. The suffix length is looked
/// at first, then the choice of the way of splitting, then what that way
/// itself asks for.
pub open spec fn run_plan(args: Arguments, source: Seq<u8>) -> Result<Seq<OutputModel>, SplitError> {
    match args.naming() {
        Err(error) => Err(error),
        Ok(naming) => match args.selected() {
            Err(error) => Err(error),
            Ok(method) => method_plan(method, source, naming),
        },
    }
}

/// Splits the source as the arguments say, and returns the files to be
/// written, in their order. Nothing is returned where an argument is refused.
pub fn run(args: Arguments, source: &[u8]) -> (result: Result<Vec<OutputFile>, SplitError>)
    ensures
        outcome(result) == run_plan(args, source@),
{
    let file_options = match args.file_options() {
        Ok(file_options) => file_options,
        Err(error) => {
            return Err(error);
        },
    };
    let method = match args.method() {
        Ok(method) => method,
        Err(error) => {
            return Err(error);
        },
    };
    match method {
        Method::ByLineCount(line_count) => split_by_line_count(line_count, source, file_options),
        Method::ByChunkCount(chunk_count) => split_by_chunk_count(
            chunk_count,
            source,
            file_options,
        ),
        Method::ByByteCount(byte_count) => split_by_byte_count(byte_count, source, file_options),
        Method::ByPattern(pattern) => split_by_pattern(pattern, source, file_options),
    }
}

} // verus!
