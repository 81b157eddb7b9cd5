//! Line counting and result aggregation.

use vstd::prelude::*;

verus! {

/// The byte that delimits lines.
pub const TERMINATOR: u8 = 10;

/// Number of terminator bytes in a byte sequence. This is the line count of
/// a file with those bytes: a trailing run of bytes without a terminator
/// contributes nothing.
pub open spec fn terminator_count(s: Seq<u8>) -> nat
    decreases s.len(),
{
    if s.len() == 0 {
        0
    } else {
        terminator_count(s.drop_last()) + if s.last() == TERMINATOR {
            1nat
        } else {
            0nat
        }
    }
}

/// Counting distributes over concatenation, so a file may be read and
/// counted in chunks of any size.
pub proof fn lemma_terminator_count_concat(a: Seq<u8>, b: Seq<u8>)
    ensures
        terminator_count(a + b) == terminator_count(a) + terminator_count(b),
    decreases b.len(),
{
    if b.len() == 0 {
        assert(a + b =~= a);
    } else {
        lemma_terminator_count_concat(a, b.drop_last());
        assert((a + b).drop_last() =~= a + b.drop_last());
    }
}

/// A trailing tail holding no terminator byte does not change the count:
/// a file that ends without a final terminator after `k` terminators still
/// counts `k` lines.
pub proof fn lemma_tail_without_terminator(s: Seq<u8>, tail: Seq<u8>)
    requires
        forall|i: int| 0 <= i < tail.len() ==> tail[i] != TERMINATOR,
    ensures
        terminator_count(s + tail) == terminator_count(s),
    decreases tail.len(),
{
    if tail.len() == 0 {
        assert(s + tail =~= s);
    } else {
        lemma_tail_without_terminator(s, tail.drop_last());
        assert((s + tail).drop_last() =~= s + tail.drop_last());
    }
}

/// Count the terminator bytes in one chunk.
pub fn count_lines(buf: &[u8]) -> (n: usize)
    ensures
        n == terminator_count(buf@),
{
    let mut n: usize = 0;
    let mut i: usize = 0;
    while i < buf.len()
        invariant
            0 <= i <= buf.len(),
            n == terminator_count(buf@.take(i as int)),
            n <= i,
        decreases buf.len() - i,
    {
        proof {
            assert(buf@.take(i + 1).drop_last() =~= buf@.take(i as int));
        }
        if buf[i] == TERMINATOR {
            n = n + 1;
        }
        i = i + 1;
    }
    proof {
        assert(buf@.take(buf@.len() as int) =~= buf@);
    }
    n
}

/// Lines contributed by one per-file result: a failed file contributes none.
pub open spec fn contrib_lines(r: Option<usize>) -> int {
    match r {
        Option::Some(n) => n as int,
        Option::None => 0,
    }
}

/// Files contributed by one per-file result: only a successful file counts.
pub open spec fn contrib_files(r: Option<usize>) -> int {
    match r {
        Option::Some(_) => 1,
        Option::None => 0,
    }
}

/// Total lines over a sequence of per-file results.
pub open spec fn lines_of(rs: Seq<Option<usize>>) -> int
    decreases rs.len(),
{
    if rs.len() == 0 {
        0
    } else {
        lines_of(rs.drop_last()) + contrib_lines(rs.last())
    }
}

/// Number of successfully counted files over a sequence of per-file results.
pub open spec fn files_of(rs: Seq<Option<usize>>) -> int
    decreases rs.len(),
{
    if rs.len() == 0 {
        0
    } else {
        files_of(rs.drop_last()) + contrib_files(rs.last())
    }
}

/// Sum of a sequence of line counts.
pub open spec fn sum_counts(cs: Seq<usize>) -> int
    decreases cs.len(),
{
    if cs.len() == 0 {
        0
    } else {
        sum_counts(cs.drop_last()) + cs.last()
    }
}

pub proof fn lemma_lines_of_concat(a: Seq<Option<usize>>, b: Seq<Option<usize>>)
    ensures
        lines_of(a + b) == lines_of(a) + lines_of(b),
        files_of(a + b) == files_of(a) + files_of(b),
    decreases b.len(),
{
    if b.len() == 0 {
        assert(a + b =~= a);
    } else {
        lemma_lines_of_concat(a, b.drop_last());
        assert((a + b).drop_last() =~= a + b.drop_last());
    }
}

pub proof fn lemma_lines_of_bounds(rs: Seq<Option<usize>>)
    ensures
        0 <= lines_of(rs),
        0 <= files_of(rs) <= rs.len(),
    decreases rs.len(),
{
    if rs.len() > 0 {
        lemma_lines_of_bounds(rs.drop_last());
    }
}

pub proof fn lemma_lines_of_take(rs: Seq<Option<usize>>, i: int)
    requires
        0 <= i <= rs.len(),
    ensures
        lines_of(rs.take(i)) <= lines_of(rs),
        files_of(rs.take(i)) <= files_of(rs),
    decreases rs.len() - i,
{
    if i == rs.len() {
        assert(rs.take(i) =~= rs);
    } else {
        lemma_lines_of_take(rs, i + 1);
        assert(rs.take(i + 1).drop_last() =~= rs.take(i));
    }
}

/// When every file is counted successfully, the totals are the sum of the
/// individual line counts and the number of files.
pub proof fn lemma_all_files_counted(counts: Seq<usize>)
    ensures
        lines_of(counts.map_values(|n: usize| Option::Some(n))) == sum_counts(counts),
        files_of(counts.map_values(|n: usize| Option::Some(n))) == counts.len(),
    decreases counts.len(),
{
    let rs = counts.map_values(|n: usize| Option::Some(n));
    if counts.len() > 0 {
        lemma_all_files_counted(counts.drop_last());
        assert(rs.drop_last() =~= counts.drop_last().map_values(|n: usize| Option::Some(n)));
    }
}

/// An empty file was still read successfully: it adds nothing to the line
/// total but increments the file counter. An empty byte stream holds no
/// terminator, so its line count is zero.
pub proof fn lemma_empty_file_counted(rs: Seq<Option<usize>>)
    ensures
        terminator_count(Seq::<u8>::empty()) == 0,
        lines_of(rs.push(Option::Some(0))) == lines_of(rs),
        files_of(rs.push(Option::Some(0))) == files_of(rs) + 1,
{
    assert(rs.push(Option::Some(0)).drop_last() =~= rs);
}

/// A file that failed to open or read contributes to neither counter.
pub proof fn lemma_error_excluded(rs: Seq<Option<usize>>)
    ensures
        lines_of(rs.push(Option::None)) == lines_of(rs),
        files_of(rs.push(Option::None)) == files_of(rs),
{
    assert(rs.push(Option::None).drop_last() =~= rs);
}

pub proof fn lemma_lines_of_remove(rs: Seq<Option<usize>>, j: int)
    requires
        0 <= j < rs.len(),
    ensures
        lines_of(rs.remove(j)) == lines_of(rs) - contrib_lines(rs[j]),
        files_of(rs.remove(j)) == files_of(rs) - contrib_files(rs[j]),
{
    let mid = seq![rs[j]];
    assert(rs =~= rs.take(j) + mid + rs.skip(j + 1));
    assert(rs.remove(j) =~= rs.take(j) + rs.skip(j + 1));
    lemma_lines_of_concat(rs.take(j) + mid, rs.skip(j + 1));
    lemma_lines_of_concat(rs.take(j), mid);
    lemma_lines_of_concat(rs.take(j), rs.skip(j + 1));
    assert(mid.drop_last() =~= Seq::<Option<usize>>::empty());
    assert(mid.len() == 1 && mid.last() == rs[j]);
    assert(lines_of(Seq::<Option<usize>>::empty()) == 0);
    assert(files_of(Seq::<Option<usize>>::empty()) == 0);
    assert(lines_of(mid) == lines_of(mid.drop_last()) + contrib_lines(mid.last()));
    assert(files_of(mid) == files_of(mid.drop_last()) + contrib_files(mid.last()));
}

/// Aggregation is order-independent: two runs that count the same files
/// with the same per-file outcomes report the same totals, however the
/// worker pool interleaved them.
pub proof fn lemma_aggregate_order_independent(a: Seq<Option<usize>>, b: Seq<Option<usize>>)
    requires
        a.to_multiset() == b.to_multiset(),
    ensures
        lines_of(a) == lines_of(b),
        files_of(a) == files_of(b),
    decreases a.len(),
{
    broadcast use vstd::seq_lib::group_to_multiset_ensures;

    if a.len() == 0 {
        assert(b.to_multiset().len() == 0);
        assert(b.len() == 0);
    } else {
        let x = a.last();
        let i = a.len() - 1;
        assert(a[i] == x);
        assert(a.contains(x));
        assert(b.to_multiset().count(x) > 0);
        assert(b.contains(x));
        let j = choose|j: int| 0 <= j < b.len() && b[j] == x;
        let a2 = a.remove(i);
        let b2 = b.remove(j);
        assert(a2.to_multiset() =~= b2.to_multiset());
        lemma_aggregate_order_independent(a2, b2);
        lemma_lines_of_remove(a, i);
        lemma_lines_of_remove(b, j);
    }
}

/// The running totals of one run: lines summed over the successfully
/// counted files, and the number of such files.
pub struct Summary {
    pub total_lines: usize,
    pub total_files: usize,
}

impl Summary {
    pub fn new() -> (s: Summary)
        ensures
            s.total_lines == 0,
            s.total_files == 0,
    {
        Summary { total_lines: 0, total_files: 0 }
    }

    /// Fold one per-file result into the totals. A successful count adds
    /// its lines and one file; a failure leaves both counters unchanged.
    pub fn add(&mut self, r: Option<usize>)
        requires
            old(self).total_lines + contrib_lines(r) <= usize::MAX,
            old(self).total_files + contrib_files(r) <= usize::MAX,
        ensures
            final(self).total_lines == old(self).total_lines + contrib_lines(r),
            final(self).total_files == old(self).total_files + contrib_files(r),
    {
        match r {
            Option::Some(n) => {
                self.total_lines = self.total_lines + n;
                self.total_files = self.total_files + 1;
            },
            Option::None => {},
        }
    }
}

/// Fold a whole sequence of per-file results into a summary.
pub fn aggregate(results: &Vec<Option<usize>>) -> (s: Summary)
    requires
        lines_of(results@) <= usize::MAX,
    ensures
        s.total_lines == lines_of(results@),
        s.total_files == files_of(results@),
{
    let mut s = Summary::new();
    let mut i: usize = 0;
    proof {
        assert(results@.take(0) =~= Seq::<Option<usize>>::empty());
    }
    while i < results.len()
        invariant
            0 <= i <= results@.len(),
            lines_of(results@) <= usize::MAX,
            s.total_lines == lines_of(results@.take(i as int)),
            s.total_files == files_of(results@.take(i as int)),
        decreases results@.len() - i,
    {
        proof {
            assert(results@.take(i + 1).drop_last() =~= results@.take(i as int));
            lemma_lines_of_take(results@, i + 1);
            lemma_lines_of_bounds(results@.take(i + 1));
            lemma_lines_of_bounds(results@.take(i as int));
        }
        s.add(results[i]);
        i = i + 1;
    }
    proof {
        assert(results@.take(results@.len() as int) =~= results@);
    }
    s
}

} // verus!
