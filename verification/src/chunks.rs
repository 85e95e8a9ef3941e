//! Cutting a byte sequence into consecutive chunks, by a size or by a count.

use vstd::prelude::*;
use vstd::slice::{slice_subrange, slice_to_vec};
use crate::output::byte_views;

verus! {

/// The smaller of two integers.
pub open spec fn smaller(a: int, b: int) -> int {
    if a <= b {
        a
    } else {
        b
    }
}

/// How many chunks of `size` bytes cover `length` bytes, the last one
/// possibly shorter: `length / size`, rounded up.
pub open spec fn chunk_total(length: nat, size: nat) -> nat {
    ((length + size - 1) / (size as int)) as nat
}

/// The source cut into chunks of `size` bytes: chunk `i` starts at byte
/// `i * size`, and the last chunk ends where the source ends.
pub open spec fn byte_chunks(source: Seq<u8>, size: nat) -> Seq<Seq<u8>>
    recommends
        size > 0,
{
    Seq::new(
        chunk_total(source.len(), size),
        |i: int| source.subrange(i * size, smaller((i + 1) * size, source.len() as int)),
    )
}

/// The source cut into `count` chunks: each holds `source.len() / count`
/// bytes, but the last, which takes what is left as well. Where the source has
/// fewer bytes than `count`, that share is empty and the last chunk is the only
/// one; an empty source has no chunk at all.
pub open spec fn count_chunks(source: Seq<u8>, count: nat) -> Seq<Seq<u8>>
    recommends
        count > 0,
{
    let size = source.len() / count;
    if source.len() == 0 {
        Seq::empty()
    } else if size == 0 {
        seq![source]
    } else {
        Seq::new(
            count,
            |i: int|
                source.subrange(
                    i * size,
                    if i == count - 1 {
                        source.len() as int
                    } else {
                        (i + 1) * size
                    },
                ),
        )
    }
}

/// The next multiple of a size is one size further.
pub proof fn lemma_next_multiple(i: int, size: int)
    ensures
        (i + 1) * size == i * size + size,
{
    assert((i + 1) * size == i * size + size) by (nonlinear_arith);
}

/// Multiples of a size come in the order of their factors.
pub proof fn lemma_multiples_ordered(i: int, j: int, size: int)
    requires
        0 <= i <= j,
        0 <= size,
    ensures
        0 <= i * size <= j * size,
{
    assert(0 <= i * size <= j * size) by (nonlinear_arith)
        requires
            0 <= i <= j,
            0 <= size,
    ;
}

/// `chunk_total` is the least number of chunks that reach the end.
pub proof fn lemma_chunk_total(length: nat, size: nat)
    requires
        size > 0,
    ensures
        chunk_total(length, size) * size >= length,
        length > 0 ==> chunk_total(length, size) >= 1 && (chunk_total(length, size) - 1) * size
            < length,
        length == 0 ==> chunk_total(length, size) == 0,
{
    let total = (length + size - 1) / (size as int);
    let rest = (length + size - 1) % (size as int);
    assert(total * size + rest == length + size - 1 && 0 <= rest < size) by (nonlinear_arith)
        requires
            size > 0,
            total == (length + size - 1) / (size as int),
            rest == (length + size - 1) % (size as int),
    ;
    assert((total - 1) * size == total * size - size) by (nonlinear_arith);
    if length == 0 {
        assert(total == 0) by (nonlinear_arith)
            requires
                total * size + rest == size - 1,
                0 <= rest < size,
                size > 0,
        ;
    } else {
        assert(total >= 1) by (nonlinear_arith)
            requires
                total * size + rest == length + size - 1,
                0 <= rest < size,
                length > 0,
                size > 0,
        ;
    }
}

/// A number of chunks that reaches the end, and not with one chunk fewer, is
/// `chunk_total`.
pub proof fn lemma_chunk_total_unique(length: nat, size: nat, total: nat)
    requires
        size > 0,
        total * size >= length,
        total > 0 ==> (total - 1) * size < length,
    ensures
        total == chunk_total(length, size),
{
    lemma_chunk_total(length, size);
    let other = chunk_total(length, size);
    if total < other {
        lemma_multiples_ordered(total as int, other - 1, size as int);
    } else if other < total {
        lemma_multiples_ordered(other as int, total - 1, size as int);
    }
}

/// The share of each chunk, taken `count` times, does not exceed the whole.
proof fn lemma_share(length: nat, count: nat)
    requires
        count > 0,
    ensures
        (length / count) * count <= length,
        count * (length / count) <= length,
        length >= count ==> length / count >= 1,
        length < count ==> length / count == 0,
{
    let size = length / count;
    let rest = length % count;
    assert(size * count + rest == length && 0 <= rest < count) by (nonlinear_arith)
        requires
            count > 0,
            size == length / count,
            rest == length % count,
    ;
    assert(count * size == size * count) by (nonlinear_arith);
    if length >= count {
        assert(size >= 1) by (nonlinear_arith)
            requires
                size * count + rest == length,
                0 <= rest < count,
                length >= count,
        ;
    } else {
        assert(size == 0) by (nonlinear_arith)
            requires
                size * count + rest == length,
                0 <= rest,
                length < count,
                size >= 0,
        ;
    }
}

/// Chunks that are consecutive ranges of the source, the first of which starts
/// where the source starts, make up the range that they cover.
proof fn lemma_ranges_concat(source: Seq<u8>, chunks: Seq<Seq<u8>>, cuts: Seq<int>, k: nat)
    requires
        cuts.len() == chunks.len() + 1,
        cuts[0] == 0,
        forall|i: int| 0 <= i < cuts.len() ==> 0 <= #[trigger] cuts[i] <= source.len(),
        forall|i: int|
            0 <= i < chunks.len() ==> (#[trigger] chunks[i]) == source.subrange(
                cuts[i],
                cuts[i + 1],
            ) && cuts[i] <= cuts[i + 1],
        k <= chunks.len(),
    ensures
        chunks.take(k as int).flatten() =~= source.subrange(0, cuts[k as int]),
    decreases k,
{
    if k > 0 {
        lemma_ranges_concat(source, chunks, cuts, (k - 1) as nat);
        assert(chunks.take(k as int) =~= chunks.take(k - 1).push(chunks[k - 1]));
        Seq::lemma_flatten_push(chunks.take(k - 1), chunks[k - 1]);
    }
}

/// Where byte chunk `i` starts, and where the one before it ends.
spec fn byte_cut(source: Seq<u8>, size: nat, i: int) -> int {
    smaller(i * size, source.len() as int)
}

/// Chunks of a given size, put together again in order, are the source.
pub proof fn lemma_byte_chunks_concat(source: Seq<u8>, size: nat)
    requires
        size > 0,
    ensures
        byte_chunks(source, size).flatten() == source,
{
    let chunks = byte_chunks(source, size);
    let cuts = Seq::new(chunks.len() + 1, |i: int| byte_cut(source, size, i));
    lemma_chunk_total(source.len(), size);
    assert forall|i: int| 0 <= i < cuts.len() implies 0 <= #[trigger] cuts[i] <= source.len() by {
        lemma_multiples_ordered(0, i, size as int);
    }
    assert forall|i: int| 0 <= i < chunks.len() implies (#[trigger] chunks[i]) == source.subrange(
        cuts[i],
        cuts[i + 1],
    ) && cuts[i] <= cuts[i + 1] by {
        lemma_multiples_ordered(i, i + 1, size as int);
        lemma_multiples_ordered(i, chunks.len() - 1, size as int);
    }
    lemma_ranges_concat(source, chunks, cuts, chunks.len());
    assert(chunks.take(chunks.len() as int) =~= chunks);
    assert(source.subrange(0, source.len() as int) =~= source);
}

/// Every chunk of a given size but the last holds exactly that many bytes,
/// and the last holds at least one and no more than that many.
pub proof fn lemma_byte_chunk_sizes(source: Seq<u8>, size: nat, i: int)
    requires
        size > 0,
        0 <= i < byte_chunks(source, size).len(),
    ensures
        i < byte_chunks(source, size).len() - 1 ==> byte_chunks(source, size)[i].len() == size,
        1 <= byte_chunks(source, size)[i].len() <= size,
{
    let total = chunk_total(source.len(), size);
    lemma_chunk_total(source.len(), size);
    lemma_next_multiple(i, size as int);
    lemma_multiples_ordered(i, total - 1, size as int);
    if i < total - 1 {
        lemma_multiples_ordered(i + 1, total - 1, size as int);
    }
}

/// A source that is no longer than the size of a chunk is one chunk, and an
/// empty source is none.
pub proof fn lemma_one_chunk(source: Seq<u8>, size: nat)
    requires
        size > 0,
        source.len() <= size,
    ensures
        source.len() > 0 ==> byte_chunks(source, size) == seq![source],
        source.len() == 0 ==> byte_chunks(source, size) == Seq::<Seq<u8>>::empty(),
{
    lemma_chunk_total(source.len(), size);
    if source.len() > 0 {
        lemma_chunk_total_unique(source.len(), size, 1);
        assert(byte_chunks(source, size).len() == 1);
        assert(byte_chunks(source, size)[0] =~= source);
        assert(byte_chunks(source, size) =~= seq![source]);
    } else {
        assert(byte_chunks(source, size) =~= Seq::<Seq<u8>>::empty());
    }
}

/// Where count chunk `i` starts, and where the one before it ends.
spec fn count_cut(source: Seq<u8>, count: nat, i: int) -> int {
    if i == count {
        source.len() as int
    } else {
        i * (source.len() / count)
    }
}

/// Chunks by count, put together again in order, are the source.
pub proof fn lemma_count_chunks_concat(source: Seq<u8>, count: nat)
    requires
        count > 0,
    ensures
        count_chunks(source, count).flatten() == source,
{
    let chunks = count_chunks(source, count);
    let size = source.len() / count;
    lemma_share(source.len(), count);
    if source.len() == 0 {
        assert(source =~= Seq::<u8>::empty());
    } else if size == 0 {
        chunks.lemma_flatten_one_element();
    } else {
        let cuts = Seq::new(count + 1, |i: int| count_cut(source, count, i));
        assert forall|i: int| 0 <= i < cuts.len() implies 0 <= #[trigger] cuts[i]
            <= source.len() by {
            if i < count {
                lemma_multiples_ordered(0, i, size as int);
                lemma_multiples_ordered(i, count as int, size as int);
            }
        }
        assert forall|i: int| 0 <= i < chunks.len() implies (#[trigger] chunks[i])
            == source.subrange(cuts[i], cuts[i + 1]) && cuts[i] <= cuts[i + 1] by {
            lemma_multiples_ordered(i, i + 1, size as int);
            lemma_multiples_ordered(i, count as int, size as int);
        }
        lemma_ranges_concat(source, chunks, cuts, chunks.len());
        assert(chunks.take(chunks.len() as int) =~= chunks);
        assert(source.subrange(0, source.len() as int) =~= source);
    }
}

/// A source with at least `count` bytes gives exactly `count` chunks: each
/// but the last holds `source.len() / count` bytes, and the last holds what
/// is left, which is at least as much.
pub proof fn lemma_count_chunk_sizes(source: Seq<u8>, count: nat)
    requires
        count > 0,
        source.len() >= count,
    ensures
        count_chunks(source, count).len() == count,
        forall|i: int|
            0 <= i < count - 1 ==> (#[trigger] count_chunks(source, count)[i]).len() == source.len()
                / count,
        count_chunks(source, count)[count - 1].len() == source.len() - (count - 1) * (source.len()
            / count),
        count_chunks(source, count)[count - 1].len() >= source.len() / count,
{
    let size = source.len() / count;
    lemma_share(source.len(), count);
    lemma_next_multiple(count - 1, size as int);
    assert forall|i: int| 0 <= i < count - 1 implies (#[trigger] count_chunks(
        source,
        count,
    )[i]).len() == size by {
        lemma_next_multiple(i, size as int);
        lemma_multiples_ordered(0, i, size as int);
        lemma_multiples_ordered(i + 1, count as int, size as int);
    }
    lemma_multiples_ordered(0, count - 1, size as int);
}

/// A source of at least two bytes, cut in two, gives exactly two chunks. The
/// first holds half of the bytes, rounded down, and the two together hold as
/// many bytes as the source.
pub proof fn lemma_halves(source: Seq<u8>)
    requires
        source.len() >= 2,
    ensures
        count_chunks(source, 2).len() == 2,
        count_chunks(source, 2)[0].len() == source.len() / 2,
        count_chunks(source, 2)[0].len() + count_chunks(source, 2)[1].len() == source.len(),
{
    lemma_count_chunk_sizes(source, 2);
}

/// Copies the bytes from `start` up to `end` into a buffer of their own.
pub(crate) fn copy_range(source: &[u8], start: usize, end: usize) -> (bytes: Vec<u8>)
    requires
        start <= end <= source@.len(),
    ensures
        bytes@ == source@.subrange(start as int, end as int),
{
    slice_to_vec(slice_subrange(source, start, end))
}

/// Cuts the source into chunks of `size` bytes.
pub fn cut_by_size(source: &[u8], size: usize) -> (chunks: Vec<Vec<u8>>)
    requires
        size > 0,
    ensures
        byte_views(chunks@) == byte_chunks(source@, size as nat),
{
    let length = source.len();
    let mut chunks: Vec<Vec<u8>> = Vec::new();
    let mut start: usize = 0;
    while start < length
        invariant
            size > 0,
            length == source@.len(),
            start == byte_cut(source@, size as nat, chunks@.len() as int),
            chunks@.len() > 0 ==> (chunks@.len() - 1) * size < length,
            forall|i: int|
                0 <= i < chunks@.len() ==> (#[trigger] chunks@[i])@ == source@.subrange(
                    i * size,
                    smaller((i + 1) * size, length as int),
                ),
        decreases length - start,
    {
        proof {
            lemma_next_multiple(chunks@.len() as int, size as int);
        }
        let end = if size <= length - start {
            start + size
        } else {
            length
        };
        let chunk = copy_range(source, start, end);
        chunks.push(chunk);
        start = end;
    }
    proof {
        lemma_chunk_total_unique(length as nat, size as nat, chunks@.len());
        assert(byte_views(chunks@) =~= byte_chunks(source@, size as nat));
    }
    chunks
}

/// Cuts the source into `count` chunks.
pub fn cut_by_count(source: &[u8], count: usize) -> (chunks: Vec<Vec<u8>>)
    requires
        count > 0,
    ensures
        byte_views(chunks@) == count_chunks(source@, count as nat),
{
    let length = source.len();
    let mut chunks: Vec<Vec<u8>> = Vec::new();
    if length == 0 {
        assert(byte_views(chunks@) =~= count_chunks(source@, count as nat));
        return chunks;
    }
    let size = length / count;
    if size == 0 {
        chunks.push(copy_range(source, 0, length));
        assert(source@.subrange(0, length as int) =~= source@);
        assert(byte_views(chunks@) =~= count_chunks(source@, count as nat));
        return chunks;
    }
    proof {
        lemma_share(length as nat, count as nat);
    }
    let mut start: usize = 0;
    while chunks.len() < count - 1
        invariant
            count > 0,
            size > 0,
            length == source@.len(),
            size == length / count,
            count * size <= length,
            chunks@.len() <= count - 1,
            start == chunks@.len() * size,
            forall|i: int|
                0 <= i < chunks@.len() ==> (#[trigger] chunks@[i])@ == source@.subrange(
                    i * size,
                    (i + 1) * size,
                ),
        decreases count - chunks@.len(),
    {
        proof {
            lemma_next_multiple(chunks@.len() as int, size as int);
            lemma_multiples_ordered(chunks@.len() as int + 1, count as int, size as int);
        }
        let chunk = copy_range(source, start, start + size);
        chunks.push(chunk);
        start = start + size;
    }
    proof {
        lemma_multiples_ordered(count - 1, count as int, size as int);
    }
    chunks.push(copy_range(source, start, length));
    assert(byte_views(chunks@) =~= count_chunks(source@, count as nat));
    chunks
}

} // verus!
