//! Character-level helpers shared by the parsers: indexable characters,
//! whitespace and trimming.

use vstd::prelude::*;
use vstd::string::*;

verus! {

/// Whether `char::is_whitespace` holds of `c`: membership in Unicode's
/// `White_Space` property, a fixed set of code points.
pub uninterp spec fn white_space(c: char) -> bool;

/// `char::is_whitespace`. Its answer is taken on trust and named
/// `white_space`; nothing is claimed about which characters it accepts.
#[verifier::external_body]
fn is_whitespace(c: char) -> (b: bool)
    ensures
        b == white_space(c),
{
    c.is_whitespace()
}

/// The texts of a sequence of strings, in order.
pub open spec fn texts(v: Seq<String>) -> Seq<Seq<char>> {
    Seq::new(v.len(), |i: int| v[i]@)
}

/// `line` without its leading whitespace.
pub open spec fn trim_start(line: Seq<char>) -> Seq<char>
    decreases line.len(),
{
    if line.len() > 0 && white_space(line[0]) {
        trim_start(line.skip(1))
    } else {
        line
    }
}

/// `line` without its trailing whitespace.
pub open spec fn trim_end(line: Seq<char>) -> Seq<char>
    decreases line.len(),
{
    if line.len() > 0 && white_space(line.last()) {
        trim_end(line.drop_last())
    } else {
        line
    }
}

/// `line` without leading and trailing whitespace.
pub open spec fn trimmed(line: Seq<char>) -> Seq<char> {
    trim_end(trim_start(line))
}

/// A line is blank when nothing is left of it after trimming.
pub open spec fn is_blank(line: Seq<char>) -> bool {
    trimmed(line).len() == 0
}

/// Every character of the line is whitespace.
pub open spec fn all_white_space(line: Seq<char>) -> bool {
    forall|i: int| 0 <= i < line.len() ==> white_space(#[trigger] line[i])
}

/// Trimming at the end leaves nothing exactly of a line that is all
/// whitespace.
pub proof fn lemma_trim_end_empty(line: Seq<char>)
    ensures
        trim_end(line).len() == 0 <==> all_white_space(line),
    decreases line.len(),
{
    if line.len() > 0 && white_space(line.last()) {
        let front = line.drop_last();
        lemma_trim_end_empty(front);
        if all_white_space(front) {
            assert forall|i: int| 0 <= i < line.len() implies white_space(#[trigger] line[i]) by {
                if i < front.len() {
                    assert(front[i] == line[i]);
                }
            }
        }
        if all_white_space(line) {
            assert forall|i: int| 0 <= i < front.len() implies white_space(
                #[trigger] front[i],
            ) by {
                assert(front[i] == line[i]);
            }
        }
    } else if line.len() > 0 {
        assert(!white_space(line[line.len() - 1]));
    }
}

/// Trimming at the start takes off whitespace alone, and what it leaves
/// does not start with whitespace.
pub proof fn lemma_trim_start(line: Seq<char>)
    ensures
        exists|c: int|
            {
                &&& 0 <= c <= line.len()
                &&& #[trigger] line.skip(c) == trim_start(line)
                &&& all_white_space(line.take(c))
                &&& c < line.len() ==> !white_space(line[c])
            },
    decreases line.len(),
{
    if line.len() > 0 && white_space(line[0]) {
        let rest = line.skip(1);
        lemma_trim_start(rest);
        let c = choose|c: int|
            {
                &&& 0 <= c <= rest.len()
                &&& #[trigger] rest.skip(c) == trim_start(rest)
                &&& all_white_space(rest.take(c))
                &&& c < rest.len() ==> !white_space(rest[c])
            };
        assert(line.skip(c + 1) =~= rest.skip(c));
        assert forall|i: int| 0 <= i < c + 1 implies white_space(
            #[trigger] line.take(c + 1)[i],
        ) by {
            if i > 0 {
                assert(line.take(c + 1)[i] == rest.take(c)[i - 1]);
            }
        }
        if c + 1 < line.len() {
            assert(line[c + 1] == rest[c]);
        }
    } else {
        assert(line.skip(0) =~= line);
    }
}

/// A line is blank exactly if it holds nothing but whitespace.
pub proof fn lemma_blank_is_all_white_space(line: Seq<char>)
    ensures
        is_blank(line) <==> all_white_space(line),
{
    lemma_trim_start(line);
    let c = choose|c: int|
        {
            &&& 0 <= c <= line.len()
            &&& #[trigger] line.skip(c) == trim_start(line)
            &&& all_white_space(line.take(c))
            &&& c < line.len() ==> !white_space(line[c])
        };
    let rest = line.skip(c);
    lemma_trim_end_empty(rest);
    if all_white_space(line) {
        assert(c == line.len());
    }
    if is_blank(line) {
        if c < line.len() {
            assert(rest[0] == line[c]);
        }
        assert forall|i: int| 0 <= i < line.len() implies white_space(#[trigger] line[i]) by {
            assert(line.take(c)[i] == line[i]);
        }
    }
}

/// Copies the characters of a string slice into a vector, so that they can
/// be reached by index.
pub fn chars_of(s: &str) -> (out: Vec<char>)
    ensures
        out@ == s@,
{
    let mut out: Vec<char> = Vec::new();
    for c in it: s.chars()
        invariant
            out@ == it.seq().take(it.index@ as int),
    {
        out.push(c);
    }
    out
}

/// Strips leading and trailing whitespace.
pub fn trim(s: &str) -> (t: &str)
    ensures
        t@ == trimmed(s@),
{
    let chars = chars_of(s);
    let n = chars.len();
    let mut start: usize = 0;
    assert(s@.skip(0) =~= s@);
    while start < n && is_whitespace(chars[start])
        invariant
            start <= n,
            n == s@.len(),
            chars@ == s@,
            trim_start(s@) == trim_start(s@.skip(start as int)),
        decreases n - start,
    {
        proof {
            assert(s@.skip(start as int).skip(1) =~= s@.skip(start + 1));
        }
        start += 1;
    }
    assert(s@.skip(start as int) =~= s@.subrange(start as int, n as int));
    let mut end: usize = n;
    while end > start && is_whitespace(chars[end - 1])
        invariant
            start <= end <= n,
            n == s@.len(),
            chars@ == s@,
            trimmed(s@) == trim_end(s@.subrange(start as int, end as int)),
        decreases end - start,
    {
        proof {
            assert(s@.subrange(start as int, end as int).drop_last() =~= s@.subrange(
                start as int,
                end - 1,
            ));
        }
        end -= 1;
    }
    s.substring_char(start, end)
}

/// Tells whether a line is blank: empty once trimmed.
pub fn is_blank_line(s: &str) -> (b: bool)
    ensures
        b == is_blank(s@),
{
    trim(s).is_empty()
}

} // verus!
