//! Lines: how a byte sequence falls into lines, how lines are joined again,
//! and how a run of lines is divided into groups.

use vstd::prelude::*;
use vstd::arithmetic::div_mod::{lemma_fundamental_div_mod, lemma_mod_multiples_basic};
use crate::chunks::{
    chunk_total, copy_range, lemma_chunk_total, lemma_chunk_total_unique, lemma_multiples_ordered,
    lemma_next_multiple, smaller,
};
use crate::output::byte_views;

verus! {

/// The byte that ends a line.
pub const LINE_FEED: u8 = 10;

/// The byte that may stand before the line feed and then belongs to the line
/// ending.
pub const CARRIAGE_RETURN: u8 = 13;

/// Where the first line of `bytes` ends: the position of its first line
/// feed, or the length of `bytes` where there is none.
pub open spec fn line_end(bytes: Seq<u8>) -> int
    decreases bytes.len(),
{
    if bytes.len() == 0 || bytes[0] == LINE_FEED {
        0
    } else {
        1 + line_end(bytes.drop_first())
    }
}

/// The line without the carriage return at its end, if it has one.
pub open spec fn without_return(line: Seq<u8>) -> Seq<u8> {
    if line.len() > 0 && line.last() == CARRIAGE_RETURN {
        line.drop_last()
    } else {
        line
    }
}

/// The lines of `source`. A line ends with a line feed, or with a carriage
/// return and a line feed, neither of which belongs to the line; what follows
/// the last line feed is a line too, unless nothing follows it. An empty
/// source has no line.
pub open spec fn lines_of(source: Seq<u8>) -> Seq<Seq<u8>>
    decreases source.len(),
{
    let end = line_end(source);
    if source.len() == 0 {
        Seq::empty()
    } else if 0 <= end < source.len() {
        seq![without_return(source.take(end))] + lines_of(source.skip(end + 1))
    } else {
        seq![source]
    }
}

/// The lines with a line feed between each two of them.
pub open spec fn join_lines(lines: Seq<Seq<u8>>) -> Seq<u8>
    decreases lines.len(),
{
    if lines.len() == 0 {
        Seq::empty()
    } else if lines.len() == 1 {
        lines[0]
    } else {
        join_lines(lines.drop_last()) + seq![LINE_FEED] + lines.last()
    }
}

/// Whether a new group starts with line `i`: with the first line always, with
/// a later one where `starts` says so. Beyond its end `starts` says no.
pub open spec fn starts_group(starts: Seq<bool>, i: int) -> bool {
    i == 0 || (0 < i < starts.len() && starts[i])
}

/// The lines divided into groups of consecutive lines. Every line belongs to
/// the group of the line before it, unless a new group starts with it.
pub open spec fn grouped(lines: Seq<Seq<u8>>, starts: Seq<bool>) -> Seq<Seq<Seq<u8>>>
    decreases lines.len(),
{
    if lines.len() == 0 {
        Seq::empty()
    } else {
        let before = grouped(lines.drop_last(), starts);
        if starts_group(starts, lines.len() - 1) {
            before.push(seq![lines.last()])
        } else {
            before.drop_last().push(before.last().push(lines.last()))
        }
    }
}

/// What the files of the groups hold: each group's lines, joined.
pub open spec fn group_contents(lines: Seq<Seq<u8>>, starts: Seq<bool>) -> Seq<Seq<u8>> {
    grouped(lines, starts).map_values(|group: Seq<Seq<u8>>| join_lines(group))
}

/// Where files start when lines are counted. A file is closed after the line
/// at index `i` of the source where `i` is positive and a multiple of
/// `line_count`; so a new file starts with the line that follows such a line.
pub open spec fn line_count_starts(total: nat, line_count: nat) -> Seq<bool> {
    Seq::new(total, |i: int| i >= 2 && (i - 1) % (line_count as int) == 0)
}

/// The index of the first line of file `k` when lines are counted: the first
/// file holds one line more than `line_count`, every later one `line_count`.
pub open spec fn counted_start(k: int, line_count: nat) -> int {
    if k <= 0 {
        0
    } else {
        k * line_count + 1
    }
}

/// How many files `total` lines make when lines are counted.
pub open spec fn counted_total(total: nat, line_count: nat) -> nat {
    if total <= 1 {
        total
    } else {
        chunk_total((total - 1) as nat, line_count)
    }
}

/// The lines in groups by their number: group `k` starts with the line at
/// `counted_start(k, line_count)` and ends before the first line of the next
/// group, or with the last line.
pub open spec fn counted_groups(lines: Seq<Seq<u8>>, line_count: nat) -> Seq<Seq<Seq<u8>>> {
    Seq::new(
        counted_total(lines.len(), line_count),
        |k: int|
            lines.subrange(
                counted_start(k, line_count),
                smaller(counted_start(k + 1, line_count), lines.len() as int),
            ),
    )
}

/// `line_end` is the position of the first line feed.
pub proof fn lemma_line_end(bytes: Seq<u8>)
    ensures
        0 <= line_end(bytes) <= bytes.len(),
        forall|j: int| 0 <= j < line_end(bytes) ==> bytes[j] != LINE_FEED,
        line_end(bytes) < bytes.len() ==> bytes[line_end(bytes)] == LINE_FEED,
    decreases bytes.len(),
{
    if bytes.len() > 0 && bytes[0] != LINE_FEED {
        let rest = bytes.drop_first();
        lemma_line_end(rest);
        assert forall|j: int| 0 <= j < line_end(bytes) implies bytes[j] != LINE_FEED by {
            if j > 0 {
                assert(bytes[j] == rest[j - 1]);
            }
        }
        assert(line_end(bytes) < bytes.len() ==> bytes[line_end(bytes)] == rest[line_end(rest)]);
    }
}

/// A position before which no line feed stands, and which holds one or is the
/// end, is `line_end`.
pub proof fn lemma_line_end_is(bytes: Seq<u8>, end: int)
    requires
        0 <= end <= bytes.len(),
        forall|j: int| 0 <= j < end ==> bytes[j] != LINE_FEED,
        end < bytes.len() ==> bytes[end] == LINE_FEED,
    ensures
        line_end(bytes) == end,
{
    lemma_line_end(bytes);
}

/// No line holds a line feed.
pub proof fn lemma_lines_hold_no_line_feed(source: Seq<u8>, k: int, j: int)
    requires
        0 <= k < lines_of(source).len(),
        0 <= j < lines_of(source)[k].len(),
    ensures
        lines_of(source)[k][j] != LINE_FEED,
    decreases source.len(),
{
    let end = line_end(source);
    lemma_line_end(source);
    if end < source.len() {
        let rest = source.skip(end + 1);
        if k == 0 {
            assert(source.take(end)[j] == source[j]);
        } else {
            assert(lines_of(source)[k] == lines_of(rest)[k - 1]);
            lemma_lines_hold_no_line_feed(rest, k - 1, j);
        }
    }
}

/// Every group holds at least one line, and where there is a line there is a
/// group.
pub proof fn lemma_groups_nonempty(lines: Seq<Seq<u8>>, starts: Seq<bool>)
    ensures
        lines.len() > 0 ==> grouped(lines, starts).len() > 0,
        lines.len() == 0 ==> grouped(lines, starts).len() == 0,
        forall|k: int|
            0 <= k < grouped(lines, starts).len() ==> (#[trigger] grouped(lines, starts)[k]).len()
                > 0,
    decreases lines.len(),
{
    if lines.len() > 0 {
        lemma_groups_nonempty(lines.drop_last(), starts);
    }
}

/// The groups, one after another, are the lines: none is lost, none comes
/// twice, and their order stays.
pub proof fn lemma_groups_concat(lines: Seq<Seq<u8>>, starts: Seq<bool>)
    ensures
        grouped(lines, starts).flatten() == lines,
    decreases lines.len(),
{
    if lines.len() == 0 {
        assert(grouped(lines, starts).flatten() =~= lines);
    } else {
        let shorter = lines.drop_last();
        let before = grouped(shorter, starts);
        lemma_groups_concat(shorter, starts);
        lemma_groups_nonempty(shorter, starts);
        if starts_group(starts, lines.len() - 1) {
            Seq::lemma_flatten_push(before, seq![lines.last()]);
        } else {
            assert(before =~= before.drop_last().push(before.last()));
            Seq::lemma_flatten_push(before.drop_last(), before.last());
            Seq::lemma_flatten_push(before.drop_last(), before.last().push(lines.last()));
        }
        assert(grouped(lines, starts).flatten() =~= shorter.push(lines.last()));
        assert(shorter.push(lines.last()) =~= lines);
    }
}

/// Where no new group starts after the first line, all lines are one group.
pub proof fn lemma_single_group(lines: Seq<Seq<u8>>, starts: Seq<bool>)
    requires
        lines.len() > 0,
        forall|i: int| 0 < i < lines.len() ==> !starts_group(starts, i),
    ensures
        grouped(lines, starts) == seq![lines],
        group_contents(lines, starts) == seq![join_lines(lines)],
    decreases lines.len(),
{
    let shorter = lines.drop_last();
    let before = grouped(shorter, starts);
    if lines.len() > 1 {
        lemma_single_group(shorter, starts);
        assert(!starts_group(starts, lines.len() - 1));
        assert(before.drop_last().push(before.last().push(lines.last())) =~= seq![
            shorter.push(lines.last()),
        ]);
        assert(shorter.push(lines.last()) =~= lines);
    } else {
        assert(before =~= Seq::<Seq<Seq<u8>>>::empty());
        assert(seq![lines.last()] =~= lines);
        assert(before.push(seq![lines.last()]) =~= seq![lines]);
    }
    assert(grouped(lines, starts) == seq![lines]);
    assert(group_contents(lines, starts) =~= seq![join_lines(lines)]);
}

/// Counting lines gives the groups by number: the first group holds the
/// first `line_count + 1` lines, every later group the next `line_count`
/// lines, and the last group what is left.
pub proof fn lemma_counted_groups(lines: Seq<Seq<u8>>, total: nat, line_count: nat)
    requires
        line_count > 0,
        lines.len() <= total,
    ensures
        grouped(lines, line_count_starts(total, line_count)) == counted_groups(lines, line_count),
    decreases lines.len(),
{
    let n = line_count as int;
    let starts = line_count_starts(total, line_count);
    let after = counted_groups(lines, line_count);
    if lines.len() == 0 {
        assert(grouped(lines, starts) =~= after);
    } else {
        let shorter = lines.drop_last();
        let line = lines.last();
        let i = lines.len() - 1;
        let before = counted_groups(shorter, line_count);
        lemma_counted_groups(shorter, total, line_count);
        if i == 0 {
            assert(after.len() == 1);
            assert(after[0] =~= seq![line]);
            assert(before.push(seq![line]) =~= after);
        } else {
            let c = counted_total(i as nat, line_count) as int;
            if i >= 2 {
                lemma_chunk_total((i - 1) as nat, line_count);
            }
            assert(c >= 1);
            assert(before.len() == c);
            if starts_group(starts, i) {
                let q = (i - 1) / n;
                lemma_fundamental_div_mod(i - 1, n);
                assert(n * q == q * n) by (nonlinear_arith);
                assert(i - 1 == q * n);
                assert(q >= 1) by (nonlinear_arith)
                    requires
                        i - 1 == q * n,
                        i - 1 >= 1,
                        n > 0,
                ;
                lemma_next_multiple(q - 1, n);
                lemma_next_multiple(q, n);
                lemma_chunk_total_unique((i - 1) as nat, line_count, q as nat);
                lemma_chunk_total_unique(i as nat, line_count, (q + 1) as nat);
                assert(after.len() == q + 1);
                assert forall|k: int| 0 <= k < q implies after[k] == before[k] by {
                    lemma_multiples_ordered(k + 1, q, n);
                    lemma_multiples_ordered(k, k + 1, n);
                    assert(after[k] =~= before[k]);
                }
                assert(after[q] =~= seq![line]);
                assert(after =~= before.push(seq![line]));
            } else {
                if i >= 2 {
                    lemma_mod_multiples_basic(c, n);
                    lemma_next_multiple(c - 1, n);
                    lemma_chunk_total_unique(i as nat, line_count, c as nat);
                } else {
                    assert((1nat - 1) * line_count < 1nat) by (nonlinear_arith);
                    assert(1nat * line_count >= 1nat) by (nonlinear_arith)
                        requires
                            line_count > 0,
                    ;
                    lemma_chunk_total_unique(1, line_count, 1);
                }
                lemma_next_multiple(c - 1, n);
                assert(c * n >= i);
                assert(after.len() == c);
                assert forall|k: int| 0 <= k < c - 1 implies after[k] == before[k] by {
                    lemma_multiples_ordered(k + 1, c - 1, n);
                    lemma_multiples_ordered(k, k + 1, n);
                    assert(after[k] =~= before[k]);
                }
                lemma_multiples_ordered(0, c - 1, n);
                assert(after[c - 1] =~= before[c - 1].push(line));
                assert(after =~= before.drop_last().push(before.last().push(line)));
            }
        }
    }
}

/// Joining after one more line: the line feed comes between what was joined
/// and the new line.
pub proof fn lemma_join_push(lines: Seq<Seq<u8>>, line: Seq<u8>)
    requires
        lines.len() > 0,
    ensures
        join_lines(lines.push(line)) == join_lines(lines) + seq![LINE_FEED] + line,
{
    assert(lines.push(line).drop_last() =~= lines);
}

/// The contents of the files, joined with line feeds between them, are the
/// lines joined: putting the line feed back where the lines were divided gives
/// every line again, in its place.
pub proof fn lemma_contents_join(lines: Seq<Seq<u8>>, starts: Seq<bool>)
    ensures
        join_lines(group_contents(lines, starts)) == join_lines(lines),
    decreases lines.len(),
{
    if lines.len() > 0 {
        let shorter = lines.drop_last();
        let line = lines.last();
        let before = grouped(shorter, starts);
        let contents = group_contents(shorter, starts);
        lemma_contents_join(shorter, starts);
        lemma_groups_nonempty(shorter, starts);
        if starts_group(starts, lines.len() - 1) {
            assert(group_contents(lines, starts) =~= contents.push(line));
            if shorter.len() > 0 {
                lemma_join_push(contents, line);
            }
        } else {
            let open = before.last();
            lemma_join_push(open, line);
            assert(group_contents(lines, starts) =~= contents.drop_last().push(
                join_lines(open) + seq![LINE_FEED] + line,
            ));
            assert(contents =~= contents.drop_last().push(join_lines(open)));
            if contents.len() > 1 {
                lemma_join_push(contents.drop_last(), join_lines(open));
                lemma_join_push(
                    contents.drop_last(),
                    join_lines(open) + seq![LINE_FEED] + line,
                );
                assert(join_lines(group_contents(lines, starts)) =~= join_lines(contents) + seq![
                    LINE_FEED,
                ] + line);
            } else {
                assert(contents.drop_last().len() == 0);
                assert(group_contents(lines, starts).len() == 1);
            }
            assert(shorter.len() > 0);
        }
        if shorter.len() > 0 {
            lemma_join_push(shorter, line);
            assert(shorter.push(line) =~= lines);
        }
    }
}

/// Joining with one more line in front: the line feed comes between the new
/// line and what was joined.
pub proof fn lemma_join_prepend(line: Seq<u8>, lines: Seq<Seq<u8>>)
    requires
        lines.len() > 0,
    ensures
        join_lines(seq![line] + lines) == line + seq![LINE_FEED] + join_lines(lines),
    decreases lines.len(),
{
    let all = seq![line] + lines;
    assert(all.drop_last() =~= seq![line] + lines.drop_last());
    assert(all.last() == lines.last());
    if lines.len() == 1 {
        assert(all.drop_last() =~= seq![line]);
        assert(join_lines(seq![line]) == line);
        assert(join_lines(lines) == lines.last());
        assert(join_lines(all) =~= line + seq![LINE_FEED] + join_lines(lines));
    } else {
        lemma_join_prepend(line, lines.drop_last());
        assert(join_lines(all) =~= line + seq![LINE_FEED] + join_lines(lines));
    }
}

/// A source that is not empty has at least one line.
pub proof fn lemma_lines_exist(source: Seq<u8>)
    ensures
        source.len() > 0 ==> lines_of(source).len() > 0,
        source.len() == 0 ==> lines_of(source).len() == 0,
{
}

/// Whether every line of the source ends with a line feed alone, but the last
/// line, which ends with the source: no carriage return stands before a line
/// feed, and no line feed at the end.
pub open spec fn plainly_ended(source: Seq<u8>) -> bool {
    &&& source.len() > 0 ==> source.last() != LINE_FEED
    &&& forall|i: int|
        0 < i < source.len() && source[i] == LINE_FEED ==> #[trigger] source[i - 1]
            != CARRIAGE_RETURN
}

/// The lines of a plainly ended source, joined, are the source: dividing
/// such a source into lines and joining them again changes nothing.
pub proof fn lemma_lines_rejoin(source: Seq<u8>)
    requires
        plainly_ended(source),
    ensures
        join_lines(lines_of(source)) == source,
    decreases source.len(),
{
    if source.len() == 0 {
        assert(join_lines(lines_of(source)) =~= source);
    } else {
        let end = line_end(source);
        lemma_line_end(source);
        if end < source.len() {
            let first = source.take(end);
            let rest = source.skip(end + 1);
            assert(end + 1 < source.len());
            assert(rest.last() == source.last());
            assert forall|i: int| 0 < i < rest.len() && rest[i] == LINE_FEED implies #[trigger] rest[i
                - 1] != CARRIAGE_RETURN by {
                assert(rest[i] == source[i + end + 1]);
                assert(rest[i - 1] == source[(i + end + 1) - 1]);
            }
            lemma_lines_rejoin(rest);
            if end > 0 {
                assert(first.last() == source[end - 1]);
            }
            assert(without_return(first) == first);
            lemma_lines_exist(rest);
            lemma_join_prepend(first, lines_of(rest));
            assert(first + seq![LINE_FEED] + rest =~= source);
        } else {
            assert(lines_of(source) == seq![source]);
        }
    }
}

/// Splits the source into its lines.
pub fn split_lines(source: &[u8]) -> (lines: Vec<Vec<u8>>)
    ensures
        byte_views(lines@) == lines_of(source@),
{
    let length = source.len();
    let mut lines: Vec<Vec<u8>> = Vec::new();
    let mut start: usize = 0;
    let mut i: usize = 0;
    assert(source@.skip(0) =~= source@);
    while i < length
        invariant
            length == source@.len(),
            start <= i <= length,
            forall|j: int| start <= j < i ==> source@[j] != LINE_FEED,
            lines_of(source@) =~= byte_views(lines@) + lines_of(source@.skip(start as int)),
        decreases length - i,
    {
        if source[i] == LINE_FEED {
            let end = if i > start && source[i - 1] == CARRIAGE_RETURN {
                i - 1
            } else {
                i
            };
            let line = copy_range(source, start, end);
            proof {
                let rest = source@.skip(start as int);
                lemma_line_end_is(rest, i - start);
                assert(rest.take(i - start) =~= source@.subrange(start as int, i as int));
                assert(line@ =~= without_return(rest.take(i - start)));
                assert(rest.skip(i - start + 1) =~= source@.skip(i + 1));
            }
            lines.push(line);
            start = i + 1;
        }
        i += 1;
    }
    if start < length {
        let line = copy_range(source, start, length);
        proof {
            let rest = source@.skip(start as int);
            lemma_line_end_is(rest, length - start);
            assert(line@ =~= rest);
        }
        lines.push(line);
    }
    assert(byte_views(lines@) =~= lines_of(source@));
    lines
}

/// Divides the lines into groups and joins the lines of each group. A new
/// group starts with the first line, and with each later line `i` for which
/// `starts[i]` is set.
pub fn group_lines(lines: &Vec<Vec<u8>>, starts: &Vec<bool>) -> (contents: Vec<Vec<u8>>)
    ensures
        byte_views(contents@) == group_contents(byte_views(lines@), starts@),
{
    let ghost all = byte_views(lines@);
    let mut contents: Vec<Vec<u8>> = Vec::new();
    let mut buffer: Vec<u8> = Vec::new();
    let mut i: usize = 0;
    while i < lines.len()
        invariant
            all == byte_views(lines@),
            i <= lines@.len(),
            i == 0 ==> contents@.len() == 0 && buffer@.len() == 0,
            i > 0 ==> grouped(all.take(i as int), starts@).len() > 0,
            i > 0 ==> byte_views(contents@) =~= group_contents(
                all.take(i as int),
                starts@,
            ).drop_last(),
            i > 0 ==> buffer@ == join_lines(grouped(all.take(i as int), starts@).last()),
        decreases lines@.len() - i,
    {
        let ghost taken = all.take(i as int);
        let ghost next = all.take(i + 1);
        let ghost line = lines@[i as int]@;
        let ghost before = grouped(taken, starts@);
        let ghost after = grouped(next, starts@);
        let ghost closed = byte_views(contents@);
        let ghost open = buffer@;
        proof {
            assert(next.drop_last() =~= taken);
            assert(next.last() == line);
            lemma_groups_nonempty(taken, starts@);
            lemma_groups_nonempty(next, starts@);
        }
        if i == 0 {
            proof {
                assert(after =~= seq![seq![line]]);
            }
        } else if i < starts.len() && starts[i] {
            contents.push(buffer);
            buffer = Vec::new();
            proof {
                assert(starts_group(starts@, i as int));
                assert(after == before.push(seq![line]));
                assert(group_contents(taken, starts@) =~= closed.push(open));
                assert(group_contents(next, starts@).drop_last() =~= closed.push(open));
            }
        } else {
            buffer.push(LINE_FEED);
            proof {
                assert(!starts_group(starts@, i as int));
                assert(after == before.drop_last().push(before.last().push(line)));
                lemma_join_push(before.last(), line);
                assert(group_contents(next, starts@).drop_last() =~= closed);
                assert(buffer@ =~= open + seq![LINE_FEED]);
            }
        }
        let ghost joined = buffer@;
        buffer.extend_from_slice(lines[i].as_slice());
        proof {
            assert(buffer@ =~= joined + line);
            assert(buffer@ == join_lines(after.last()));
        }
        i += 1;
    }
    if i > 0 {
        contents.push(buffer);
        proof {
            assert(all.take(i as int) =~= all);
            let groups = group_contents(all, starts@);
            assert(groups =~= groups.drop_last().push(groups.last()));
        }
    } else {
        assert(all =~= Seq::<Seq<u8>>::empty());
    }
    assert(byte_views(contents@) =~= group_contents(all, starts@));
    contents
}

} // verus!
