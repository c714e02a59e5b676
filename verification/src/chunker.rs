//! Grouping a sequence of lines into chunks: maximal runs of lines between
//! boundary lines.

use vstd::prelude::*;
use vstd::string::*;
use crate::text::{is_blank, is_blank_line, texts};

verus! {

/// The first index at or after `i` whose mark is not `skipped`, or the
/// length where every mark from `i` on is `skipped`.
pub open spec fn skip_run(marks: Seq<bool>, i: int, skipped: bool) -> int
    decreases marks.len() - i,
{
    if 0 <= i < marks.len() && marks[i] == skipped {
        skip_run(marks, i + 1, skipped)
    } else {
        i
    }
}

/// `skip_run` stops within the sequence, passes only over marks equal to
/// `skipped`, and stops at one that differs.
pub proof fn lemma_skip_run(marks: Seq<bool>, i: int, skipped: bool)
    requires
        0 <= i <= marks.len(),
    ensures
        i <= skip_run(marks, i, skipped) <= marks.len(),
        forall|j: int| i <= j < skip_run(marks, i, skipped) ==> marks[j] == skipped,
        skip_run(marks, i, skipped) < marks.len() ==> marks[skip_run(marks, i, skipped)]
            != skipped,
    decreases marks.len() - i,
{
    if i < marks.len() && marks[i] == skipped {
        lemma_skip_run(marks, i + 1, skipped);
    }
}

/// The chunks of the lines from index `i` on. A mark says that its line is a
/// boundary. A chunk starts at the first line that is no boundary and runs
/// up to the next boundary or the end of the input.
pub open spec fn chunks_from(lines: Seq<Seq<char>>, marks: Seq<bool>, i: int) -> Seq<
    Seq<Seq<char>>,
>
    decreases marks.len() - i,
{
    let start = skip_run(marks, i, true);
    if 0 <= i <= marks.len() && start < marks.len() {
        let end = skip_run(marks, start + 1, false);
        proof {
            lemma_skip_run(marks, i, true);
            lemma_skip_run(marks, start + 1, false);
        }
        seq![lines.subrange(start, end)] + chunks_from(lines, marks, end)
    } else {
        Seq::empty()
    }
}

/// The chunks of a whole input.
pub open spec fn chunks_of(lines: Seq<Seq<char>>, marks: Seq<bool>) -> Seq<Seq<Seq<char>>> {
    chunks_from(lines, marks, 0)
}

/// Boundary lines yield nothing: the chunks from `i` on are those from `j`
/// on where every line from `i` up to `j` is a boundary.
pub proof fn lemma_boundaries_yield_nothing(
    lines: Seq<Seq<char>>,
    marks: Seq<bool>,
    i: int,
    j: int,
)
    requires
        0 <= i <= j <= marks.len(),
        forall|k: int| i <= k < j ==> marks[k],
    ensures
        chunks_from(lines, marks, i) == chunks_from(lines, marks, j),
    decreases j - i,
{
    if i < j {
        lemma_boundaries_yield_nothing(lines, marks, i + 1, j);
        assert(skip_run(marks, i, true) == skip_run(marks, i + 1, true));
    }
}

/// An input in which every line is a boundary, the empty input among them,
/// has no chunks.
pub proof fn lemma_only_boundaries_no_chunks(lines: Seq<Seq<char>>, marks: Seq<bool>)
    requires
        forall|k: int| 0 <= k < marks.len() ==> marks[k],
    ensures
        chunks_of(lines, marks).len() == 0,
{
    lemma_boundaries_yield_nothing(lines, marks, 0, marks.len() as int);
}

/// An input with lines and without a boundary is one chunk: all of it.
pub proof fn lemma_no_boundary_one_chunk(lines: Seq<Seq<char>>, marks: Seq<bool>)
    requires
        lines.len() == marks.len(),
        lines.len() > 0,
        forall|k: int| 0 <= k < marks.len() ==> !marks[k],
    ensures
        chunks_of(lines, marks) == seq![lines],
{
    lemma_skip_run(marks, 1, false);
    assert(skip_run(marks, 0, true) == 0);
    let end = skip_run(marks, 1, false);
    assert(end == marks.len());
    assert(lines.subrange(0, end) =~= lines);
    assert(chunks_from(lines, marks, end) =~= Seq::empty());
    assert(chunks_of(lines, marks) =~= seq![lines]);
}

/// Every chunk has a line.
pub proof fn lemma_chunks_have_lines(lines: Seq<Seq<char>>, marks: Seq<bool>, i: int)
    requires
        lines.len() == marks.len(),
        0 <= i <= marks.len(),
    ensures
        forall|c: int|
            0 <= c < chunks_from(lines, marks, i).len() ==> (#[trigger] chunks_from(
                lines,
                marks,
                i,
            )[c]).len() > 0,
    decreases marks.len() - i,
{
    lemma_skip_run(marks, i, true);
    let start = skip_run(marks, i, true);
    if start < marks.len() {
        lemma_skip_run(marks, start + 1, false);
        let end = skip_run(marks, start + 1, false);
        lemma_chunks_have_lines(lines, marks, end);
        let all = chunks_from(lines, marks, i);
        let rest = chunks_from(lines, marks, end);
        assert(all =~= seq![lines.subrange(start, end)] + rest);
        assert forall|c: int| 0 <= c < all.len() implies (#[trigger] all[c]).len() > 0 by {
            if c == 0 {
                assert(all[0] == lines.subrange(start, end));
            } else {
                assert(all[c] == rest[c - 1]);
            }
        }
    }
}

/// The lines from index `i` on that are no boundaries, in order.
pub open spec fn lines_kept(lines: Seq<Seq<char>>, marks: Seq<bool>, i: int) -> Seq<Seq<char>>
    decreases marks.len() - i,
{
    if 0 <= i < marks.len() {
        if marks[i] {
            lines_kept(lines, marks, i + 1)
        } else {
            seq![lines[i]] + lines_kept(lines, marks, i + 1)
        }
    } else {
        Seq::empty()
    }
}

/// A stretch of boundary lines keeps nothing.
proof fn lemma_kept_over_boundaries(lines: Seq<Seq<char>>, marks: Seq<bool>, i: int, j: int)
    requires
        0 <= i <= j <= marks.len(),
        forall|k: int| i <= k < j ==> marks[k],
    ensures
        lines_kept(lines, marks, i) == lines_kept(lines, marks, j),
    decreases j - i,
{
    if i < j {
        lemma_kept_over_boundaries(lines, marks, i + 1, j);
    }
}

/// A stretch without a boundary line is kept whole.
proof fn lemma_kept_over_run(lines: Seq<Seq<char>>, marks: Seq<bool>, i: int, j: int)
    requires
        lines.len() == marks.len(),
        0 <= i <= j <= marks.len(),
        forall|k: int| i <= k < j ==> !marks[k],
    ensures
        lines_kept(lines, marks, i) == lines.subrange(i, j) + lines_kept(lines, marks, j),
    decreases j - i,
{
    if i < j {
        lemma_kept_over_run(lines, marks, i + 1, j);
        assert(lines.subrange(i, j) =~= seq![lines[i]] + lines.subrange(i + 1, j));
        assert(lines_kept(lines, marks, i) =~= lines.subrange(i, j) + lines_kept(lines, marks, j));
    } else {
        assert(lines_kept(lines, marks, i) =~= lines.subrange(i, j) + lines_kept(lines, marks, j));
    }
}

/// Chunking loses no line and adds none: the chunks, one after the other,
/// are the lines that are no boundaries, in their order.
pub proof fn lemma_chunks_keep_lines(lines: Seq<Seq<char>>, marks: Seq<bool>, i: int)
    requires
        lines.len() == marks.len(),
        0 <= i <= marks.len(),
    ensures
        chunks_from(lines, marks, i).flatten() == lines_kept(lines, marks, i),
    decreases marks.len() - i,
{
    lemma_skip_run(marks, i, true);
    let start = skip_run(marks, i, true);
    lemma_kept_over_boundaries(lines, marks, i, start);
    if start < marks.len() {
        lemma_skip_run(marks, start + 1, false);
        let end = skip_run(marks, start + 1, false);
        lemma_kept_over_run(lines, marks, start, end);
        lemma_chunks_keep_lines(lines, marks, end);
        let chunk = lines.subrange(start, end);
        let rest = chunks_from(lines, marks, end);
        let all = chunks_from(lines, marks, i);
        assert(all =~= seq![chunk] + rest);
        assert(all.first() == chunk);
        assert(all.drop_first() =~= rest);
    }
}

/// Where marks stand behind others, skipping among them goes as it does
/// without the others.
proof fn lemma_skip_run_behind(front: Seq<bool>, back: Seq<bool>, i: int, skipped: bool)
    requires
        0 <= i <= back.len(),
    ensures
        skip_run(front + back, front.len() + i, skipped) == front.len() + skip_run(
            back,
            i,
            skipped,
        ),
    decreases back.len() - i,
{
    if i < back.len() {
        assert((front + back)[front.len() + i] == back[i]);
        if back[i] == skipped {
            lemma_skip_run_behind(front, back, i + 1, skipped);
        }
    }
}

/// Where marks stand before others, skipping among them goes as it does
/// without the others, until it reaches their end.
proof fn lemma_skip_run_before(front: Seq<bool>, back: Seq<bool>, i: int, skipped: bool)
    requires
        0 <= i <= front.len(),
    ensures
        skip_run(front, i, skipped) < front.len() ==> skip_run(front + back, i, skipped)
            == skip_run(front, i, skipped),
        skip_run(front, i, skipped) >= front.len() ==> skip_run(front + back, i, skipped)
            == skip_run(front + back, front.len() as int, skipped),
    decreases front.len() - i,
{
    if i < front.len() {
        assert((front + back)[i] == front[i]);
        if front[i] == skipped {
            lemma_skip_run_before(front, back, i + 1, skipped);
        }
    }
}

/// The chunks of lines that stand behind others are the chunks that they
/// have by themselves.
pub proof fn lemma_chunks_behind(
    front_lines: Seq<Seq<char>>,
    front_marks: Seq<bool>,
    back_lines: Seq<Seq<char>>,
    back_marks: Seq<bool>,
    i: int,
)
    requires
        front_lines.len() == front_marks.len(),
        back_lines.len() == back_marks.len(),
        0 <= i <= back_marks.len(),
    ensures
        chunks_from(
            front_lines + back_lines,
            front_marks + back_marks,
            front_marks.len() + i,
        ) == chunks_from(back_lines, back_marks, i),
    decreases back_marks.len() - i,
{
    let n = front_marks.len() as int;
    lemma_skip_run_behind(front_marks, back_marks, i, true);
    lemma_skip_run(back_marks, i, true);
    let start = skip_run(back_marks, i, true);
    if start < back_marks.len() {
        lemma_skip_run_behind(front_marks, back_marks, start + 1, false);
        lemma_skip_run(back_marks, start + 1, false);
        let end = skip_run(back_marks, start + 1, false);
        assert((front_lines + back_lines).subrange(n + start, n + end) =~= back_lines.subrange(
            start,
            end,
        ));
        lemma_chunks_behind(front_lines, front_marks, back_lines, back_marks, end);
    }
}

/// The chunks of lines that stand before a boundary line, or at the end of
/// the input, are the chunks that they have by themselves; those of the
/// rest follow them.
pub proof fn lemma_chunks_before(
    front_lines: Seq<Seq<char>>,
    front_marks: Seq<bool>,
    back_lines: Seq<Seq<char>>,
    back_marks: Seq<bool>,
    i: int,
)
    requires
        front_lines.len() == front_marks.len(),
        back_lines.len() == back_marks.len(),
        0 <= i <= front_marks.len(),
        back_marks.len() > 0 ==> back_marks[0],
    ensures
        chunks_from(front_lines + back_lines, front_marks + back_marks, i) == chunks_from(
            front_lines,
            front_marks,
            i,
        ) + chunks_from(
            front_lines + back_lines,
            front_marks + back_marks,
            front_marks.len() as int,
        ),
    decreases front_marks.len() - i,
{
    let n = front_marks.len() as int;
    let lines = front_lines + back_lines;
    let marks = front_marks + back_marks;
    let rest = chunks_from(lines, marks, n);
    lemma_skip_run_before(front_marks, back_marks, i, true);
    lemma_skip_run(front_marks, i, true);
    let start = skip_run(front_marks, i, true);
    if start < n {
        lemma_skip_run_before(front_marks, back_marks, start + 1, false);
        lemma_skip_run(front_marks, start + 1, false);
        let end = skip_run(front_marks, start + 1, false);
        if end >= n && back_marks.len() > 0 {
            assert(marks[n] == back_marks[0]);
        }
        assert(skip_run(marks, start + 1, false) == end);
        assert(lines.subrange(start, end) =~= front_lines.subrange(start, end));
        lemma_chunks_before(front_lines, front_marks, back_lines, back_marks, end);
        assert(chunks_from(lines, marks, i) =~= chunks_from(front_lines, front_marks, i) + rest);
    } else {
        assert(chunks_from(front_lines, front_marks, i) =~= Seq::empty());
        assert(chunks_from(lines, marks, i) =~= chunks_from(front_lines, front_marks, i) + rest);
    }
}

/// Boundary lines between two inputs keep their chunks apart and add none,
/// however many they are: the chunks of the whole are the chunks of the
/// first input, then those of the second.
pub proof fn lemma_gap_separates(
    first_lines: Seq<Seq<char>>,
    first_marks: Seq<bool>,
    gap_lines: Seq<Seq<char>>,
    gap_marks: Seq<bool>,
    second_lines: Seq<Seq<char>>,
    second_marks: Seq<bool>,
)
    requires
        first_lines.len() == first_marks.len(),
        gap_lines.len() == gap_marks.len(),
        second_lines.len() == second_marks.len(),
        gap_marks.len() > 0,
        forall|k: int| 0 <= k < gap_marks.len() ==> gap_marks[k],
    ensures
        chunks_of(
            first_lines + gap_lines + second_lines,
            first_marks + gap_marks + second_marks,
        ) == chunks_of(first_lines, first_marks) + chunks_of(second_lines, second_marks),
{
    let lines = first_lines + gap_lines + second_lines;
    let marks = first_marks + gap_marks + second_marks;
    let n = first_marks.len() as int;
    let g = gap_marks.len() as int;
    assert(lines =~= first_lines + (gap_lines + second_lines));
    assert(marks =~= first_marks + (gap_marks + second_marks));
    assert((gap_marks + second_marks)[0] == gap_marks[0]);
    lemma_chunks_before(
        first_lines,
        first_marks,
        gap_lines + second_lines,
        gap_marks + second_marks,
        0,
    );
    assert forall|k: int| n <= k < n + g implies marks[k] by {
        assert(marks[k] == gap_marks[k - n]);
    }
    lemma_boundaries_yield_nothing(lines, marks, n, n + g);
    lemma_chunks_behind(
        first_lines + gap_lines,
        first_marks + gap_marks,
        second_lines,
        second_marks,
        0,
    );
}

/// `b` is an answer that `test` may give on a line with the text `line`.
pub open spec fn outcome<F: Fn(&str) -> bool>(test: F, line: Seq<char>, b: bool) -> bool {
    exists|s: &str| s@ == line && #[trigger] test.ensures((s,), b)
}

/// A test that always answers as a predicate on the text of the line
/// says gives the marks of that predicate.
pub proof fn lemma_marks_of_pure_test<F: Fn(&str) -> bool>(
    test: F,
    lines: Seq<Seq<char>>,
    marks: Seq<bool>,
    boundary: spec_fn(Seq<char>) -> bool,
)
    requires
        marks.len() == lines.len(),
        forall|i: int| 0 <= i < lines.len() ==> outcome(test, lines[i], #[trigger] marks[i]),
        forall|s: &str, b: bool| #[trigger] test.ensures((s,), b) ==> b == boundary(s@),
    ensures
        marks == Seq::new(lines.len(), |i: int| boundary(lines[i])),
{
    assert forall|i: int| 0 <= i < lines.len() implies #[trigger] marks[i] == boundary(
        lines[i],
    ) by {
        assert(outcome(test, lines[i], marks[i]));
    }
    assert(marks =~= Seq::new(lines.len(), |i: int| boundary(lines[i])));
}

/// The marks that the blank-line test gives: one for each line, true where
/// the line is blank.
pub open spec fn blank_marks(lines: Seq<Seq<char>>) -> Seq<bool> {
    Seq::new(lines.len(), |i: int| is_blank(lines[i]))
}

/// Hands out the chunks of a sequence of lines, one for each call of `next`.
#[derive(Debug)]
pub struct Chunker {
    lines: Vec<String>,
    marks: Vec<bool>,
    pos: usize,
}

impl Chunker {
    /// The lines that the chunker was made with.
    pub closed spec fn lines(&self) -> Seq<Seq<char>> {
        texts(self.lines@)
    }

    /// For each line, whether it is a boundary.
    pub closed spec fn marks(&self) -> Seq<bool> {
        self.marks@
    }

    /// How many lines have been consumed.
    pub closed spec fn position(&self) -> int {
        self.pos as int
    }

    /// Every line has its mark, and the position lies within the lines.
    #[verifier::type_invariant]
    closed spec fn wf(&self) -> bool {
        &&& self.marks.len() == self.lines.len()
        &&& self.pos <= self.lines.len()
    }

    /// The chunks that are still to come.
    pub open spec fn remaining(&self) -> Seq<Seq<Seq<char>>> {
        chunks_from(self.lines(), self.marks(), self.position())
    }

    /// A chunker over `lines` in which `test` says which lines are
    /// boundaries. The test is asked once for each line, in order.
    pub fn with_test<F: Fn(&str) -> bool>(lines: Vec<String>, test: F) -> (chunker: Chunker)
        requires
            forall|s: &str| test.requires((s,)),
        ensures
            chunker.lines() == texts(lines@),
            chunker.position() == 0,
            chunker.marks().len() == lines.len(),
            forall|i: int|
                0 <= i < lines.len() ==> outcome(test, lines[i]@, #[trigger] chunker.marks()[i]),
    {
        let mut marks: Vec<bool> = Vec::new();
        let mut i: usize = 0;
        while i < lines.len()
            invariant
                i <= lines.len(),
                marks.len() == i,
                forall|s: &str| test.requires((s,)),
                forall|k: int| 0 <= k < i ==> outcome(test, lines[k]@, #[trigger] marks[k]),
            decreases lines.len() - i,
        {
            let line = lines[i].as_str();
            let b = test(line);
            assert(test.ensures((line,), b));
            marks.push(b);
            i += 1;
        }
        Chunker { lines, marks, pos: 0 }
    }

    /// The next chunk, or `None` once all have been handed out; from then on
    /// every call gives `None`.
    pub fn next(&mut self) -> (chunk: Option<Vec<String>>)
        ensures
            final(self).lines() == old(self).lines(),
            final(self).marks() == old(self).marks(),
            match chunk {
                Some(c) => {
                    &&& old(self).remaining().len() > 0
                    &&& texts(c@) == old(self).remaining()[0]
                    &&& c.len() > 0
                    &&& final(self).remaining() == old(self).remaining().drop_first()
                },
                None => {
                    &&& old(self).remaining().len() == 0
                    &&& final(self).remaining().len() == 0
                },
            },
    {
        let n = self.lines.len();
        let ghost from = self.pos as int;
        let ghost marks = self.marks@;
        proof {
            use_type_invariant(&*self);
            lemma_skip_run(marks, from, true);
        }
        while self.pos < n && self.marks[self.pos]
            invariant
                self.pos <= n,
                n == self.lines.len(),
                n == self.marks.len(),
                self.lines == old(self).lines,
                self.marks == old(self).marks,
                marks == self.marks@,
                from <= self.pos,
                skip_run(marks, from, true) == skip_run(marks, self.pos as int, true),
            decreases n - self.pos,
        {
            self.pos += 1;
        }
        if self.pos >= n {
            return None;
        }
        let start = self.pos;
        let mut chunk: Vec<String> = Vec::new();
        chunk.push(self.lines[start].clone());
        self.pos += 1;
        assert(texts(chunk@) =~= self.lines().subrange(start as int, self.pos as int));
        while self.pos < n && !self.marks[self.pos]
            invariant
                self.pos <= n,
                n == self.lines.len(),
                n == self.marks.len(),
                self.lines == old(self).lines,
                self.marks == old(self).marks,
                marks == self.marks@,
                start < self.pos <= n,
                skip_run(marks, start + 1, false) == skip_run(marks, self.pos as int, false),
                texts(chunk@) == self.lines().subrange(start as int, self.pos as int),
            decreases n - self.pos,
        {
            let ghost before = texts(chunk@);
            let line = self.lines[self.pos].clone();
            chunk.push(line);
            self.pos += 1;
            assert(texts(chunk@) =~= before.push(line@));
            assert(texts(chunk@) =~= self.lines().subrange(start as int, self.pos as int));
        }
        proof {
            lemma_skip_run(marks, self.pos as int, true);
            assert(old(self).remaining().drop_first() =~= final(self).remaining());
        }
        Some(chunk)
    }
}

/// A chunker over `lines` with `test` as its boundary test.
pub fn chunks_with_test<F: Fn(&str) -> bool>(lines: Vec<String>, test: F) -> (chunker: Chunker)
    requires
        forall|s: &str| test.requires((s,)),
    ensures
        chunker.lines() == texts(lines@),
        chunker.position() == 0,
        chunker.marks().len() == lines.len(),
        forall|i: int|
            0 <= i < lines.len() ==> outcome(test, lines[i]@, #[trigger] chunker.marks()[i]),
{
    Chunker::with_test(lines, test)
}

/// A chunker over `lines` in which the blank lines are the boundaries.
pub fn chunks_at_blanks(lines: Vec<String>) -> (chunker: Chunker)
    ensures
        chunker.lines() == texts(lines@),
        chunker.position() == 0,
        chunker.marks() == blank_marks(texts(lines@)),
        chunker.remaining() == chunks_of(texts(lines@), blank_marks(texts(lines@))),
{
    let ghost input = texts(lines@);
    let chunker = chunks_with_test(lines, is_blank_line);
    proof {
        lemma_marks_of_pure_test(
            is_blank_line,
            input,
            chunker.marks(),
            |line: Seq<char>| is_blank(line),
        );
        assert(chunker.marks() =~= blank_marks(input));
    }
    chunker
}

} // verus!
