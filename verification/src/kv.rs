//! Splitting one line into a key and a value at a separator.

use vstd::prelude::*;
use vstd::string::*;
use crate::text::chars_of;

verus! {

/// The separator stands in `line` at index `i`.
pub open spec fn occurs_at(line: Seq<char>, sep: Seq<char>, i: int) -> bool {
    &&& 0 <= i
    &&& i + sep.len() <= line.len()
    &&& line.subrange(i, i + sep.len()) == sep
}

/// The separator stands at `i` and nowhere before it.
pub open spec fn is_first_occurrence(line: Seq<char>, sep: Seq<char>, i: int) -> bool {
    &&& occurs_at(line, sep, i)
    &&& forall|j: int| 0 <= j < i ==> !occurs_at(line, sep, j)
}

/// Where the separator first stands in the line, if it does at all.
pub open spec fn separator_index(line: Seq<char>, sep: Seq<char>) -> Option<int> {
    if exists|i: int| occurs_at(line, sep, i) {
        Some(choose|i: int| is_first_occurrence(line, sep, i))
    } else {
        None
    }
}

/// The key of a line: what stands before the first separator, or the whole
/// line where there is none.
pub open spec fn key_of(line: Seq<char>, sep: Seq<char>) -> Seq<char> {
    match separator_index(line, sep) {
        Some(i) => line.take(i),
        None => line,
    }
}

/// The value of a line: what follows the first character of the first
/// separator (one character is skipped, however long the separator is), or
/// nothing where the line has no separator or ends before that.
pub open spec fn value_of(line: Seq<char>, sep: Seq<char>) -> Seq<char> {
    match separator_index(line, sep) {
        Some(i) => if i < line.len() {
            line.skip(i + 1)
        } else {
            Seq::empty()
        },
        None => Seq::empty(),
    }
}

/// A first occurrence is the one that `separator_index` names.
pub proof fn lemma_first_occurrence_is_index(line: Seq<char>, sep: Seq<char>, i: int)
    requires
        is_first_occurrence(line, sep, i),
    ensures
        separator_index(line, sep) == Some(i),
{
    let k = choose|k: int| is_first_occurrence(line, sep, k);
    assert(occurs_at(line, sep, i));
    assert(is_first_occurrence(line, sep, k));
    if k < i {
        assert(!occurs_at(line, sep, k));
    }
    if i < k {
        assert(!occurs_at(line, sep, i));
    }
}

/// Where the separator occurs nowhere, `separator_index` is `None`.
pub proof fn lemma_no_occurrence_is_none(line: Seq<char>, sep: Seq<char>)
    requires
        forall|j: int| 0 <= j <= line.len() ==> !occurs_at(line, sep, j),
    ensures
        separator_index(line, sep) is None,
{
    if exists|i: int| occurs_at(line, sep, i) {
        let i = choose|i: int| occurs_at(line, sep, i);
        assert(0 <= i <= line.len());
    }
}

/// Where the separator stands somewhere, it stands somewhere first.
pub proof fn lemma_first_occurrence_exists(line: Seq<char>, sep: Seq<char>, i: int)
    requires
        occurs_at(line, sep, i),
    ensures
        exists|k: int| 0 <= k <= i && is_first_occurrence(line, sep, k),
    decreases i,
{
    if exists|j: int| 0 <= j < i && occurs_at(line, sep, j) {
        let j = choose|j: int| 0 <= j < i && occurs_at(line, sep, j);
        lemma_first_occurrence_exists(line, sep, j);
        let k = choose|k: int| 0 <= k <= j && is_first_occurrence(line, sep, k);
        assert(0 <= k <= i && is_first_occurrence(line, sep, k));
    } else {
        assert(is_first_occurrence(line, sep, i));
    }
}

/// A line in which the separator stands is made of its key, the first
/// character of the separator and its value, and the key holds no
/// separator.
pub proof fn lemma_key_and_value_make_line(line: Seq<char>, sep: Seq<char>)
    requires
        sep.len() > 0,
        exists|i: int| occurs_at(line, sep, i),
    ensures
        line == key_of(line, sep) + seq![sep[0]] + value_of(line, sep),
        forall|j: int| !occurs_at(key_of(line, sep), sep, j),
{
    let some = choose|i: int| occurs_at(line, sep, i);
    lemma_first_occurrence_exists(line, sep, some);
    let i = choose|i: int| is_first_occurrence(line, sep, i);
    let key = key_of(line, sep);
    assert(line.subrange(i, i + sep.len())[0] == sep[0]);
    assert(line =~= key + seq![sep[0]] + value_of(line, sep));
    assert forall|j: int| !occurs_at(key, sep, j) by {
        if occurs_at(key, sep, j) {
            assert(key.subrange(j, j + sep.len()) =~= line.subrange(j, j + sep.len()));
            assert(occurs_at(line, sep, j));
        }
    }
}

/// Tells whether `sep` stands in `line` at index `i`.
fn matches_at(line: &Vec<char>, sep: &Vec<char>, i: usize) -> (found: bool)
    requires
        i + sep.len() <= line.len(),
    ensures
        found == occurs_at(line@, sep@, i as int),
{
    let mut k: usize = 0;
    while k < sep.len()
        invariant
            k <= sep.len(),
            i + sep.len() <= line.len(),
            forall|m: int| 0 <= m < k ==> line@[i + m] == sep@[m],
        decreases sep.len() - k,
    {
        if line[i + k] != sep[k] {
            proof {
                let window = line@.subrange(i as int, i + sep.len());
                assert(window[k as int] == line@[i + k]);
            }
            return false;
        }
        k += 1;
    }
    assert(line@.subrange(i as int, i + sep.len()) =~= sep@);
    true
}

/// Finds the index at which `sep` first stands in `line`.
pub fn find_first(line: &Vec<char>, sep: &Vec<char>) -> (found: Option<usize>)
    ensures
        match found {
            Some(i) => separator_index(line@, sep@) == Some(i as int) && i + sep.len()
                <= line.len(),
            None => separator_index(line@, sep@) is None,
        },
{
    if sep.len() > line.len() {
        proof {
            lemma_no_occurrence_is_none(line@, sep@);
        }
        return None;
    }
    let last: usize = line.len() - sep.len();
    let mut i: usize = 0;
    while i < last
        invariant
            i <= last,
            last == line.len() - sep.len(),
            forall|j: int| 0 <= j < i ==> !occurs_at(line@, sep@, j),
        decreases last - i,
    {
        if matches_at(line, sep, i) {
            proof {
                lemma_first_occurrence_is_index(line@, sep@, i as int);
            }
            return Some(i);
        }
        i += 1;
    }
    if matches_at(line, sep, last) {
        proof {
            lemma_first_occurrence_is_index(line@, sep@, last as int);
        }
        return Some(last);
    }
    proof {
        lemma_no_occurrence_is_none(line@, sep@);
    }
    None
}

/// Splits lines at a fixed separator, which is a plain substring.
#[derive(Debug)]
pub struct KvParser<'a>(&'a str);

/// The key and the value of one line.
#[derive(Debug)]
pub struct Kv<'a>(&'a str, &'a str);

impl<'a> View for KvParser<'a> {
    type V = Seq<char>;

    /// The separator.
    closed spec fn view(&self) -> Seq<char> {
        self.0@
    }
}

impl<'a> View for Kv<'a> {
    type V = (Seq<char>, Seq<char>);

    /// The key, then the value.
    closed spec fn view(&self) -> (Seq<char>, Seq<char>) {
        (self.0@, self.1@)
    }
}

impl<'a> KvParser<'a> {
    /// A parser that splits at `separator`.
    pub fn with_separator(separator: &'a str) -> (parser: KvParser<'a>)
        ensures
            parser@ == separator@,
    {
        KvParser(separator)
    }

    /// Splits `s` at the first occurrence of the separator. Every line gives
    /// a pair: one without separator is all key.
    pub fn parse<'b>(&self, s: &'b str) -> (kv: Kv<'b>)
        ensures
            kv@.0 == key_of(s@, self@),
            kv@.1 == value_of(s@, self@),
    {
        let line = chars_of(s);
        let sep = chars_of(self.0);
        let n = line.len();
        match find_first(&line, &sep) {
            Some(i) => {
                let key = s.substring_char(0, i);
                let value = if i < n {
                    s.substring_char(i + 1, n)
                } else {
                    s.substring_char(n, n)
                };
                assert(value@ =~= value_of(s@, self@));
                Kv(key, value)
            },
            None => {
                let value = s.substring_char(n, n);
                assert(value@ =~= Seq::<char>::empty());
                assert(s@.subrange(0, n as int) =~= s@);
                Kv(s, value)
            },
        }
    }
}

impl<'a> Kv<'a> {
    /// The key.
    pub fn key(&self) -> (key: &str)
        ensures
            key@ == self@.0,
    {
        self.0
    }

    /// The value.
    pub fn value(&self) -> (value: &str)
        ensures
            value@ == self@.1,
    {
        self.1
    }
}

} // verus!
