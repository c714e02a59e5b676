//! Tagged records to table: paragraphs of `key<sep>value` lines, separated
//! by blank lines, become rows under a header made of every key seen.

use vstd::prelude::*;
use vstd::string::*;
use crate::chunker::{
    blank_marks, chunks_at_blanks, chunks_of, lemma_gap_separates,
    lemma_only_boundaries_no_chunks,
};
use crate::kv::{key_of, value_of, KvParser};
use crate::record::{distinct_keys, has_key, lemma_put, lookup, put, Entries, Record};
use crate::text::{is_blank, texts, trimmed};

pub mod text;
pub mod kv;
pub mod chunker;
pub mod record;
pub mod columns;

verus! {

/// `std::io::Error`, carried through as an opaque value.
#[verifier::external_type_specification]
#[verifier::external_body]
pub struct ExIoError(std::io::Error);

/// What can go wrong while records are read: only the reading itself.
#[derive(Debug)]
pub enum Error {
    /// A line could not be read.
    IoError(std::io::Error),
}

/// The key and the value that one line gives. The key is never trimmed;
/// the value is where `trim` asks for it.
pub open spec fn entry_of(line: Seq<char>, sep: Seq<char>, trim: bool) -> (Seq<char>, Seq<char>) {
    (
        key_of(line, sep),
        if trim {
            trimmed(value_of(line, sep))
        } else {
            value_of(line, sep)
        },
    )
}

/// The entries of the record that a chunk gives: its lines are written in
/// order, so of two lines with one key the later one gives the value.
pub open spec fn record_entries(chunk: Seq<Seq<char>>, sep: Seq<char>, trim: bool) -> Entries
    decreases chunk.len(),
{
    if chunk.len() == 0 {
        Seq::empty()
    } else {
        let entry = entry_of(chunk.last(), sep, trim);
        put(record_entries(chunk.drop_last(), sep, trim), entry.0, entry.1)
    }
}

/// The records of a whole input: one for each chunk between blank lines, in
/// the order of the input.
pub open spec fn records_of(lines: Seq<Seq<char>>, sep: Seq<char>, trim: bool) -> Seq<Entries> {
    let chunks = chunks_of(lines, blank_marks(lines));
    Seq::new(chunks.len(), |i: int| record_entries(chunks[i], sep, trim))
}

/// The entries of each record, in order.
pub open spec fn record_views(records: Seq<Record>) -> Seq<Entries> {
    Seq::new(records.len(), |i: int| records[i]@)
}

/// The text of each line that was read; nothing for one that failed.
pub open spec fn line_texts(lines: Seq<Result<String, std::io::Error>>) -> Seq<Seq<char>> {
    Seq::new(
        lines.len(),
        |i: int|
            match lines[i] {
                Ok(line) => line@,
                Err(_) => Seq::empty(),
            },
    )
}

/// The line at `i` failed, and none before it did.
pub open spec fn is_first_failure(lines: Seq<Result<String, std::io::Error>>, i: int) -> bool {
    &&& 0 <= i < lines.len()
    &&& lines[i] is Err
    &&& forall|j: int| 0 <= j < i ==> (#[trigger] lines[j]) is Ok
}

/// The record of a chunk names no key twice, and has exactly the keys of
/// its lines.
pub proof fn lemma_record_keys(chunk: Seq<Seq<char>>, sep: Seq<char>, trim: bool)
    ensures
        distinct_keys(record_entries(chunk, sep, trim)),
        forall|k: Seq<char>|
            has_key(record_entries(chunk, sep, trim), k) <==> exists|i: int|
                0 <= i < chunk.len() && key_of(#[trigger] chunk[i], sep) == k,
    decreases chunk.len(),
{
    let record = record_entries(chunk, sep, trim);
    if chunk.len() > 0 {
        let front = chunk.drop_last();
        let before = record_entries(front, sep, trim);
        let entry = entry_of(chunk.last(), sep, trim);
        lemma_record_keys(front, sep, trim);
        lemma_put(before, entry.0, entry.1);
        assert forall|k: Seq<char>|
            has_key(record, k) <==> exists|i: int|
                0 <= i < chunk.len() && key_of(#[trigger] chunk[i], sep) == k by {
            if has_key(before, k) {
                let i = choose|i: int| 0 <= i < front.len() && key_of(#[trigger] front[i], sep) == k;
                assert(key_of(chunk[i], sep) == k);
            }
            if k == entry.0 {
                assert(key_of(chunk[chunk.len() - 1], sep) == k);
            }
            if exists|i: int| 0 <= i < chunk.len() && key_of(#[trigger] chunk[i], sep) == k {
                let i = choose|i: int| 0 <= i < chunk.len() && key_of(#[trigger] chunk[i], sep) == k;
                if i < chunk.len() - 1 {
                    assert(key_of(front[i], sep) == k);
                }
            }
        }
    }
}

/// Of the lines of a chunk that share a key, the last one gives the value.
pub proof fn lemma_last_line_wins(chunk: Seq<Seq<char>>, sep: Seq<char>, trim: bool, i: int)
    requires
        0 <= i < chunk.len(),
        forall|j: int| i < j < chunk.len() ==> key_of(#[trigger] chunk[j], sep) != key_of(chunk[i], sep),
    ensures
        lookup(record_entries(chunk, sep, trim), key_of(chunk[i], sep)) == Some(
            entry_of(chunk[i], sep, trim).1,
        ),
    decreases chunk.len(),
{
    let front = chunk.drop_last();
    let entry = entry_of(chunk.last(), sep, trim);
    lemma_record_keys(front, sep, trim);
    lemma_put(record_entries(front, sep, trim), entry.0, entry.1);
    if i < chunk.len() - 1 {
        assert(front[i] == chunk[i]);
        assert forall|j: int| i < j < front.len() implies key_of(#[trigger] front[j], sep)
            != key_of(front[i], sep) by {
            assert(front[j] == chunk[j]);
        }
        lemma_last_line_wins(front, sep, trim, i);
        assert(key_of(chunk[chunk.len() - 1], sep) != key_of(chunk[i], sep));
    }
}

/// An input of blank lines alone, the empty input among them, has no
/// records.
pub proof fn lemma_blank_input_no_records(lines: Seq<Seq<char>>, sep: Seq<char>, trim: bool)
    requires
        forall|i: int| 0 <= i < lines.len() ==> is_blank(#[trigger] lines[i]),
    ensures
        records_of(lines, sep, trim).len() == 0,
{
    lemma_only_boundaries_no_chunks(lines, blank_marks(lines));
}

/// Blank lines between two inputs, however many, do not change the
/// records: those of the whole are the records of the first input, then
/// those of the second.
pub proof fn lemma_blank_lines_separate_records(
    first: Seq<Seq<char>>,
    gap: Seq<Seq<char>>,
    second: Seq<Seq<char>>,
    sep: Seq<char>,
    trim: bool,
)
    requires
        gap.len() > 0,
        forall|i: int| 0 <= i < gap.len() ==> is_blank(#[trigger] gap[i]),
    ensures
        records_of(first + gap + second, sep, trim) == records_of(first, sep, trim) + records_of(
            second,
            sep,
            trim,
        ),
{
    let whole = first + gap + second;
    assert(blank_marks(whole) =~= blank_marks(first) + blank_marks(gap) + blank_marks(second));
    lemma_gap_separates(
        first,
        blank_marks(first),
        gap,
        blank_marks(gap),
        second,
        blank_marks(second),
    );
    assert(records_of(whole, sep, trim) =~= records_of(first, sep, trim) + records_of(
        second,
        sep,
        trim,
    ));
}

/// Builds the record of one chunk.
pub fn record_from_chunk(chunk: Vec<String>, parser: &KvParser, trim: bool) -> (record: Record)
    ensures
        record@ == record_entries(texts(chunk@), parser@, trim),
{
    let mut record = Record::new();
    let ghost lines = texts(chunk@);
    let mut i: usize = 0;
    assert(lines.take(0) =~= Seq::<Seq<char>>::empty());
    while i < chunk.len()
        invariant
            i <= chunk.len(),
            lines == texts(chunk@),
            record@ == record_entries(lines.take(i as int), parser@, trim),
        decreases chunk.len() - i,
    {
        let kv = parser.parse(chunk[i].as_str());
        let value = if trim {
            crate::text::trim(kv.value())
        } else {
            kv.value()
        };
        proof {
            let upto = lines.take(i + 1);
            assert(upto.drop_last() =~= lines.take(i as int));
            assert(upto.last() == chunk@[i as int]@);
        }
        record.insert(kv.key().to_owned(), value.to_owned());
        i += 1;
    }
    assert(lines.take(chunk.len() as int) =~= lines);
    record
}

/// The records of the lines of an input, in input order.
pub fn records_from_lines(lines: Vec<String>, input_separator: &str, trim: bool) -> (records: Vec<
    Record,
>)
    ensures
        record_views(records@) == records_of(texts(lines@), input_separator@, trim),
{
    let ghost input = texts(lines@);
    let parser = KvParser::with_separator(input_separator);
    let mut chunker = chunks_at_blanks(lines);
    let ghost chunks = chunker.remaining();
    let mut records: Vec<Record> = Vec::new();
    assert(chunks.skip(0) =~= chunks);
    loop
        invariant
            parser@ == input_separator@,
            chunks == chunks_of(input, blank_marks(input)),
            records.len() <= chunks.len(),
            chunker.remaining() == chunks.skip(records.len() as int),
            forall|i: int|
                0 <= i < records.len() ==> (#[trigger] records[i])@ == record_entries(
                    chunks[i],
                    input_separator@,
                    trim,
                ),
        ensures
            records.len() == chunks.len(),
        decreases chunker.remaining().len(),
    {
        let ghost before = chunker.remaining();
        match chunker.next() {
            None => {
                break ;
            },
            Some(chunk) => {
                let record = record_from_chunk(chunk, &parser, trim);
                proof {
                    assert(before[0] == chunks[records.len() as int]);
                    assert(before.drop_first() =~= chunks.skip(records.len() + 1));
                }
                records.push(record);
            },
        }
    }
    assert(record_views(records@) =~= records_of(input, input_separator@, trim));
    records
}

/// The records of an input whose lines were read one by one. A line that
/// could not be read makes the whole input fail, with the error of the
/// first such line; no records are given then.
pub fn read_records_from_chunks(
    lines: Vec<Result<String, std::io::Error>>,
    input_separator: &str,
    trim: bool,
) -> (result: Result<Vec<Record>, Error>)
    ensures
        result is Ok <==> forall|i: int| 0 <= i < lines.len() ==> (#[trigger] lines[i]) is Ok,
        match result {
            Ok(records) => record_views(records@) == records_of(
                line_texts(lines@),
                input_separator@,
                trim,
            ),
            Err(Error::IoError(e)) => exists|i: int|
                is_first_failure(lines@, i) && lines[i] == Err::<String, std::io::Error>(e),
        },
{
    let ghost input = lines@;
    let mut good: Vec<String> = Vec::new();
    for item in it: lines
        invariant
            it.seq() == input,
            good.len() == it.index@,
            forall|j: int|
                0 <= j < it.index@ ==> (#[trigger] input[j]) == Ok::<String, std::io::Error>(
                    good[j],
                ),
    {
        match item {
            Ok(line) => {
                good.push(line);
            },
            Err(e) => {
                assert(is_first_failure(input, it.index@));
                return Err(Error::IoError(e));
            },
        }
    }
    assert(texts(good@) =~= line_texts(input));
    Ok(records_from_lines(good, input_separator, trim))
}

} // verus!
