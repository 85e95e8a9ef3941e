//! Output files: what a split hands back, and how its files are named.

use vstd::prelude::*;
use crate::error::SplitError;
use crate::decimal::lemma_decimal_length_monotonic;
use crate::filename::{has_suffix, lemma_names_differ, suffix_of, Filename};

verus! {

/// How the output files are named.
#[derive(Debug, PartialEq, Eq)]
pub struct FileOptions {
    /// What every file name starts with.
    pub prefix: String,
    /// The width of the suffix.
    pub suffix_length: usize,
    /// Whether the suffix is in decimal digits rather than in letters.
    pub numeric_suffix: bool,
}

/// The naming options as plain values.
pub struct Naming {
    pub prefix: Seq<char>,
    pub suffix_length: nat,
    pub numeric: bool,
}

impl View for FileOptions {
    type V = Naming;

    open spec fn view(&self) -> Naming {
        Naming {
            prefix: self.prefix@,
            suffix_length: self.suffix_length as nat,
            numeric: self.numeric_suffix,
        }
    }
}

/// One file to be written: its name and everything it holds.
#[derive(Debug, PartialEq, Eq)]
pub struct OutputFile {
    /// The name of the file.
    pub name: String,
    /// The bytes of the file.
    pub contents: Vec<u8>,
}

/// An output file as a pair of sequences.
pub struct OutputModel {
    pub name: Seq<char>,
    pub contents: Seq<u8>,
}

impl View for OutputFile {
    type V = OutputModel;

    open spec fn view(&self) -> OutputModel {
        OutputModel { name: self.name@, contents: self.contents@ }
    }
}

/// The files of a vector, each as its model.
pub open spec fn models(files: Seq<OutputFile>) -> Seq<OutputModel> {
    files.map_values(|file: OutputFile| file@)
}

/// The byte sequences that a vector of buffers holds.
pub open spec fn byte_views(buffers: Seq<Vec<u8>>) -> Seq<Seq<u8>> {
    buffers.map_values(|buffer: Vec<u8>| buffer@)
}

/// What a split returns, over models.
pub open spec fn outcome(result: Result<Vec<OutputFile>, SplitError>) -> Result<
    Seq<OutputModel>,
    SplitError,
> {
    match result {
        Ok(files) => Ok(models(files@)),
        Err(error) => Err(error),
    }
}

/// The contents of the files, in order.
pub open spec fn contents_of(files: Seq<OutputModel>) -> Seq<Seq<u8>> {
    files.map_values(|file: OutputModel| file.contents)
}

/// The name of the file with the given number.
pub open spec fn file_name(naming: Naming, file_number: nat) -> Seq<char> {
    naming.prefix + suffix_of(file_number, naming.suffix_length, naming.numeric)
}

/// The chunks as files: the chunk at position `i` gets file number `i + 1`.
pub open spec fn named(chunks: Seq<Seq<u8>>, naming: Naming) -> Seq<OutputModel> {
    Seq::new(
        chunks.len(),
        |i: int| OutputModel { name: file_name(naming, (i + 1) as nat), contents: chunks[i] },
    )
}

/// Whether `count` files can be numbered: none is needed, or the last one
/// has a suffix (and with it every file before, see `lemma_suffix_downward`).
pub open spec fn names_suffice(count: nat, naming: Naming) -> bool {
    count == 0 || has_suffix(count, naming.suffix_length, naming.numeric)
}

/// The files for the given chunks, or the refusal where they cannot all be
/// numbered.
pub open spec fn output_plan(chunks: Seq<Seq<u8>>, naming: Naming) -> Result<
    Seq<OutputModel>,
    SplitError,
> {
    if names_suffice(chunks.len(), naming) {
        Ok(named(chunks, naming))
    } else {
        Err(SplitError::SuffixExhausted)
    }
}

/// Where a file number has a suffix, so has every file number before it.
pub proof fn lemma_suffix_downward(smaller: nat, larger: nat, suffix_length: nat, numeric: bool)
    requires
        1 <= smaller <= larger,
        has_suffix(larger, suffix_length, numeric),
    ensures
        has_suffix(smaller, suffix_length, numeric),
{
    if numeric {
        lemma_decimal_length_monotonic((smaller - 1) as nat, (larger - 1) as nat);
    }
}

/// No two files of a plan have the same name.
pub proof fn lemma_file_names_differ(chunks: Seq<Seq<u8>>, naming: Naming, i: int, j: int)
    requires
        names_suffice(chunks.len(), naming),
        0 <= i < chunks.len(),
        0 <= j < chunks.len(),
        i != j,
    ensures
        named(chunks, naming)[i].name != named(chunks, naming)[j].name,
{
    lemma_suffix_downward((i + 1) as nat, chunks.len(), naming.suffix_length, naming.numeric);
    lemma_suffix_downward((j + 1) as nat, chunks.len(), naming.suffix_length, naming.numeric);
    lemma_names_differ(
        naming.prefix,
        (i + 1) as nat,
        (j + 1) as nat,
        naming.suffix_length,
        naming.numeric,
    );
}

/// The files that a plan names hold the chunks, in their order.
pub proof fn lemma_named_contents(chunks: Seq<Seq<u8>>, naming: Naming)
    ensures
        contents_of(named(chunks, naming)) == chunks,
{
    assert(contents_of(named(chunks, naming)) =~= chunks);
}

/// Names the chunks in order, the first with file number one. Where the
/// suffix cannot number them all, no file is named.
pub fn name_files(chunks: Vec<Vec<u8>>, file_options: &FileOptions) -> (result: Result<
    Vec<OutputFile>,
    SplitError,
>)
    ensures
        outcome(result) == output_plan(byte_views(chunks@), file_options@),
{
    let count = chunks.len();
    if count > 0 && !Filename::can_build(
        count,
        file_options.suffix_length,
        file_options.numeric_suffix,
    ) {
        return Err(SplitError::SuffixExhausted);
    }
    let ghost expected = named(byte_views(chunks@), file_options@);
    let mut files: Vec<OutputFile> = Vec::new();
    for contents in it: chunks
        invariant
            it.seq() == chunks@,
            count == chunks@.len(),
            names_suffice(count as nat, file_options@),
            expected == named(byte_views(chunks@), file_options@),
            files@.len() == it.index(),
            models(files@) =~= expected.take(it.index() as int),
    {
        let number = files.len() + 1;
        proof {
            lemma_suffix_downward(
                number as nat,
                count as nat,
                file_options.suffix_length as nat,
                file_options.numeric_suffix,
            );
        }
        let name = Filename::build(
            number,
            file_options.suffix_length,
            file_options.numeric_suffix,
            file_options.prefix.clone(),
        );
        files.push(OutputFile { name, contents });
    }
    assert(models(files@) =~= expected);
    Ok(files)
}

} // verus!
