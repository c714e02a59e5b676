//! The columns of the table: which keys there are, in which order they
//! stand, and the lines that come of them.

use vstd::prelude::*;
use vstd::string::*;
use itertools::Itertools;
use crate::record::{has_key, keys_of, lookup, Entries, Record};
use crate::text::{chars_of, texts};
use crate::record_views;

verus! {

/// `keys`, followed by each key of `more` that has not come before, in the
/// order of `more`.
pub open spec fn append_new(keys: Seq<Seq<char>>, more: Seq<Seq<char>>) -> Seq<Seq<char>>
    decreases more.len(),
{
    if more.len() == 0 {
        keys
    } else {
        let before = append_new(keys, more.drop_last());
        if before.contains(more.last()) {
            before
        } else {
            before.push(more.last())
        }
    }
}

/// Every key of the records, once, in the order in which the keys are first
/// seen: record by record, and within a record in the order of its entries.
pub open spec fn all_key_names(records: Seq<Entries>) -> Seq<Seq<char>>
    decreases records.len(),
{
    if records.len() == 0 {
        Seq::empty()
    } else {
        append_new(all_key_names(records.drop_last()), keys_of(records.last()))
    }
}

/// The pieces of `s` between its commas: one more piece than commas.
pub open spec fn split_commas(s: Seq<char>) -> Seq<Seq<char>>
    decreases s.len(),
{
    if s.len() == 0 {
        seq![Seq::empty()]
    } else {
        let before = split_commas(s.drop_last());
        if s.last() == ',' {
            before.push(Seq::empty())
        } else {
            before.drop_last().push(before.last().push(s.last()))
        }
    }
}

/// The keys that a comma-separated list names; none for the empty list.
pub open spec fn first_keys(list: Seq<char>) -> Seq<Seq<char>> {
    if list.len() == 0 {
        Seq::empty()
    } else {
        split_commas(list)
    }
}

/// The column order: the keys of `first` in the order given, each once,
/// then the keys of `rest` that `first` does not name, in the order of
/// `rest`.
pub open spec fn ordered_keys(first: Seq<Seq<char>>, rest: Seq<Seq<char>>) -> Seq<Seq<char>> {
    append_new(append_new(Seq::empty(), first), rest)
}

/// The parts, with the separator between each two of them.
pub open spec fn joined(parts: Seq<Seq<char>>, sep: Seq<char>) -> Seq<char>
    decreases parts.len(),
{
    if parts.len() == 0 {
        Seq::empty()
    } else if parts.len() == 1 {
        parts[0]
    } else {
        joined(parts.drop_last(), sep) + sep + parts.last()
    }
}

/// The cells of a record under the columns `keys`: its value for each key,
/// and nothing for a key that it does not have.
pub open spec fn row_of(keys: Seq<Seq<char>>, entries: Entries) -> Seq<Seq<char>> {
    Seq::new(
        keys.len(),
        |i: int|
            match lookup(entries, keys[i]) {
                Some(value) => value,
                None => Seq::empty(),
            },
    )
}

/// `append_new` keeps `keys` as the start of its result, adds nothing
/// twice, and holds exactly the keys of its two arguments.
pub proof fn lemma_append_new(keys: Seq<Seq<char>>, more: Seq<Seq<char>>)
    requires
        keys.no_duplicates(),
    ensures
        append_new(keys, more).no_duplicates(),
        keys.len() <= append_new(keys, more).len(),
        append_new(keys, more).take(keys.len() as int) == keys,
        forall|k: Seq<char>|
            append_new(keys, more).contains(k) <==> (keys.contains(k) || more.contains(k)),
    decreases more.len(),
{
    let out = append_new(keys, more);
    if more.len() == 0 {
        assert(out.take(keys.len() as int) =~= keys);
    } else {
        let before = append_new(keys, more.drop_last());
        let last = more.last();
        lemma_append_new(keys, more.drop_last());
        assert(out.take(keys.len() as int) =~= before.take(keys.len() as int));
        assert forall|k: Seq<char>| out.contains(k) <==> (keys.contains(k) || more.contains(
            k,
        )) by {
            if out.contains(k) {
                let i = choose|i: int| 0 <= i < out.len() && out[i] == k;
                if i < before.len() {
                    assert(before[i] == k);
                    assert(before.contains(k));
                    if more.drop_last().contains(k) {
                        let j = choose|j: int|
                            0 <= j < more.drop_last().len() && more.drop_last()[j] == k;
                        assert(more[j] == k);
                    }
                } else {
                    assert(k == last);
                    assert(more[more.len() - 1] == k);
                }
            }
            if keys.contains(k) {
                assert(before.contains(k));
                let i = choose|i: int| 0 <= i < before.len() && before[i] == k;
                assert(out[i] == k);
            }
            if more.contains(k) {
                let j = choose|j: int| 0 <= j < more.len() && more[j] == k;
                if j < more.len() - 1 {
                    assert(more.drop_last()[j] == k);
                    assert(more.drop_last().contains(k));
                    assert(before.contains(k));
                    let i = choose|i: int| 0 <= i < before.len() && before[i] == k;
                    assert(out[i] == k);
                } else if before.contains(k) {
                    let i = choose|i: int| 0 <= i < before.len() && before[i] == k;
                    assert(out[i] == k);
                } else {
                    assert(out[out.len() - 1] == k);
                }
            }
        }
    }
}

/// The column order names no key twice, starts with the first keys (each
/// once, in the order given), and holds exactly the keys of both lists.
pub proof fn lemma_ordered_keys(first: Seq<Seq<char>>, rest: Seq<Seq<char>>)
    ensures
        ordered_keys(first, rest).no_duplicates(),
        forall|k: Seq<char>|
            ordered_keys(first, rest).contains(k) <==> (first.contains(k) || rest.contains(k)),
        append_new(Seq::empty(), first).len() <= ordered_keys(first, rest).len(),
        ordered_keys(first, rest).take(append_new(Seq::empty(), first).len() as int)
            == append_new(Seq::empty(), first),
        first.no_duplicates() ==> append_new(Seq::empty(), first) == first,
{
    let head = append_new(Seq::<Seq<char>>::empty(), first);
    lemma_append_new(Seq::empty(), first);
    lemma_append_new(head, rest);
    lemma_append_new_of_distinct(first);
}

/// A list without repetitions is what `append_new` makes of it from nothing.
pub proof fn lemma_append_new_of_distinct(keys: Seq<Seq<char>>)
    ensures
        keys.no_duplicates() ==> append_new(Seq::empty(), keys) == keys,
    decreases keys.len(),
{
    if keys.no_duplicates() {
        if keys.len() == 0 {
            assert(append_new(Seq::empty(), keys) =~= keys);
        } else {
            let front = keys.drop_last();
            lemma_append_new_of_distinct(front);
            assert(front.no_duplicates());
            if front.contains(keys.last()) {
                let i = choose|i: int| 0 <= i < front.len() && front[i] == keys.last();
                assert(keys[i] == keys[keys.len() - 1]);
            }
            assert(append_new(Seq::empty(), keys) =~= keys);
        }
    }
}

/// The key names of the records are distinct, and a key is among them
/// exactly if some record has it.
pub proof fn lemma_all_key_names(records: Seq<Entries>)
    ensures
        all_key_names(records).no_duplicates(),
        forall|k: Seq<char>|
            all_key_names(records).contains(k) <==> exists|i: int|
                0 <= i < records.len() && has_key(#[trigger] records[i], k),
    decreases records.len(),
{
    if records.len() > 0 {
        let front = records.drop_last();
        let last = records.last();
        lemma_all_key_names(front);
        lemma_append_new(all_key_names(front), keys_of(last));
        assert forall|k: Seq<char>|
            all_key_names(records).contains(k) <==> exists|i: int|
                0 <= i < records.len() && has_key(#[trigger] records[i], k) by {
            if keys_of(last).contains(k) {
                let j = choose|j: int| 0 <= j < keys_of(last).len() && keys_of(last)[j] == k;
                assert(last[j].0 == k);
                assert(has_key(records[records.len() - 1], k));
            }
            if all_key_names(front).contains(k) {
                let i = choose|i: int| 0 <= i < front.len() && has_key(#[trigger] front[i], k);
                assert(has_key(records[i], k));
            }
            if exists|i: int| 0 <= i < records.len() && has_key(#[trigger] records[i], k) {
                let i = choose|i: int| 0 <= i < records.len() && has_key(#[trigger] records[i], k);
                if i < records.len() - 1 {
                    assert(has_key(front[i], k));
                } else {
                    let j = choose|j: int| 0 <= j < last.len() && (#[trigger] last[j]).0 == k;
                    assert(keys_of(last)[j] == k);
                }
            }
        }
    }
}

/// The pieces of a list hold no comma, and with commas between them they
/// make the list again.
pub proof fn lemma_split_commas(s: Seq<char>)
    ensures
        split_commas(s).len() >= 1,
        joined(split_commas(s), seq![',']) == s,
        forall|p: int, i: int|
            0 <= p < split_commas(s).len() && 0 <= i < split_commas(s)[p].len()
                ==> #[trigger] split_commas(s)[p][i] != ',',
    decreases s.len(),
{
    let comma = seq![','];
    let pieces = split_commas(s);
    if s.len() == 0 {
        assert(joined(pieces, comma) =~= s);
    } else {
        let front = s.drop_last();
        let before = split_commas(front);
        lemma_split_commas(front);
        assert(s =~= front.push(s.last()));
        if s.last() == ',' {
            assert(pieces.drop_last() =~= before);
            assert(joined(pieces, comma) =~= joined(before, comma) + comma + Seq::<char>::empty());
            assert(joined(pieces, comma) =~= s);
        } else {
            let grown = before.last().push(s.last());
            assert(pieces.last() == grown);
            assert(pieces.drop_last() =~= before.drop_last());
            if before.len() == 1 {
                assert(joined(pieces, comma) =~= s);
            } else {
                assert(joined(pieces, comma) =~= joined(before.drop_last(), comma) + comma
                    + grown);
                assert(joined(pieces, comma) =~= s);
            }
            assert forall|p: int, i: int|
                0 <= p < pieces.len() && 0 <= i < pieces[p].len() implies #[trigger] pieces[p][i]
                != ',' by {
                if p < pieces.len() - 1 {
                    assert(pieces[p] == before[p]);
                } else if i < before.last().len() {
                    assert(pieces[p][i] == before[p][i]);
                }
            }
        }
    }
}

/// Tells whether `key` is among `keys`.
fn contains_key(keys: &Vec<String>, key: &String) -> (found: bool)
    ensures
        found == texts(keys@).contains(key@),
{
    let mut i: usize = 0;
    while i < keys.len()
        invariant
            i <= keys.len(),
            forall|j: int| 0 <= j < i ==> (#[trigger] texts(keys@)[j]) != key@,
        decreases keys.len() - i,
    {
        if keys[i] == *key {
            assert(texts(keys@)[i as int] == key@);
            return true;
        }
        i += 1;
    }
    false
}

/// Adds `key` to `keys` unless it is there.
fn push_new(keys: &mut Vec<String>, key: &String)
    ensures
        texts(final(keys)@) == if texts(old(keys)@).contains(key@) {
            texts(old(keys)@)
        } else {
            texts(old(keys)@).push(key@)
        },
{
    if !contains_key(keys, key) {
        keys.push(key.clone());
        assert(texts(keys@) =~= texts(old(keys)@).push(key@));
    }
}

/// Adds to `keys` each key of `more` that is not there yet.
fn push_all_new(keys: &mut Vec<String>, more: &Vec<String>)
    ensures
        texts(final(keys)@) == append_new(texts(old(keys)@), texts(more@)),
{
    let ghost start = texts(keys@);
    let ghost added = texts(more@);
    let mut i: usize = 0;
    assert(added.take(0) =~= Seq::<Seq<char>>::empty());
    while i < more.len()
        invariant
            i <= more.len(),
            added == texts(more@),
            texts(keys@) == append_new(start, added.take(i as int)),
        decreases more.len() - i,
    {
        proof {
            assert(added.take(i + 1).drop_last() =~= added.take(i as int));
        }
        push_new(keys, &more[i]);
        i += 1;
    }
    assert(added.take(more.len() as int) =~= added);
}

/// Every key of the records, once, in the order in which they are first
/// seen.
pub fn get_all_key_names(recs: &Vec<Record>) -> (names: Vec<String>)
    ensures
        texts(names@) == all_key_names(record_views(recs@)),
        texts(names@).no_duplicates(),
{
    let ghost views = record_views(recs@);
    let mut names: Vec<String> = Vec::new();
    let mut r: usize = 0;
    assert(views.take(0) =~= Seq::<Entries>::empty());
    assert(texts(names@) =~= Seq::<Seq<char>>::empty());
    while r < recs.len()
        invariant
            r <= recs.len(),
            views == record_views(recs@),
            texts(names@) == all_key_names(views.take(r as int)),
        decreases recs.len() - r,
    {
        let rec = &recs[r];
        let ghost start = texts(names@);
        let ghost keys = keys_of(rec@);
        let count = rec.len();
        let mut i: usize = 0;
        assert(keys.take(0) =~= Seq::<Seq<char>>::empty());
        while i < count
            invariant
                i <= count,
                count == rec@.len(),
                keys == keys_of(rec@),
                texts(names@) == append_new(start, keys.take(i as int)),
            decreases count - i,
        {
            proof {
                assert(keys.take(i + 1).drop_last() =~= keys.take(i as int));
            }
            push_new(&mut names, rec.key_at(i));
            i += 1;
        }
        proof {
            assert(keys.take(count as int) =~= keys);
            assert(views.take(r + 1).drop_last() =~= views.take(r as int));
            assert(views.take(r + 1).last() == rec@);
        }
        r += 1;
    }
    proof {
        assert(views.take(recs.len() as int) =~= views);
        lemma_all_key_names(views);
    }
    names
}

/// The keys that a comma-separated list names, in its order; none for the
/// empty list.
pub fn get_first_keys(list: &str) -> (keys: Vec<String>)
    ensures
        texts(keys@) == first_keys(list@),
{
    let chars = chars_of(list);
    let n = chars.len();
    let mut keys: Vec<String> = Vec::new();
    if n == 0 {
        assert(texts(keys@) =~= Seq::<Seq<char>>::empty());
        return keys;
    }
    let mut start: usize = 0;
    let mut i: usize = 0;
    assert(list@.subrange(0, 0) =~= Seq::<char>::empty());
    assert(list@.take(0).len() == 0);
    assert(texts(keys@).push(list@.subrange(0, 0)) =~= split_commas(list@.take(0)));
    while i < n
        invariant
            start <= i <= n,
            n == list@.len(),
            chars@ == list@,
            split_commas(list@.take(i as int)) == texts(keys@).push(
                list@.subrange(start as int, i as int),
            ),
        decreases n - i,
    {
        let ghost done = texts(keys@);
        let ghost piece = list@.subrange(start as int, i as int);
        proof {
            assert(list@.take(i + 1).drop_last() =~= list@.take(i as int));
            assert(list@.take(i + 1).last() == list@[i as int]);
            assert(done.push(piece).drop_last() =~= done);
        }
        if chars[i] == ',' {
            keys.push(list.substring_char(start, i).to_owned());
            start = i + 1;
            assert(texts(keys@) =~= done.push(piece));
            assert(list@.subrange(start as int, i + 1) =~= Seq::<char>::empty());
        } else {
            assert(list@.subrange(start as int, i + 1) =~= piece.push(list@[i as int]));
        }
        i += 1;
    }
    keys.push(list.substring_char(start, n).to_owned());
    assert(list@.take(n as int) =~= list@);
    assert(texts(keys@) =~= split_commas(list@));
    keys
}

/// The column order: the keys of `first` in the order given, each once,
/// then the keys of `unordered` that `first` does not name, in the order in
/// which `unordered` has them.
pub fn get_ordered_keys(first: &Vec<String>, unordered: &Vec<String>) -> (keys: Vec<String>)
    ensures
        texts(keys@) == ordered_keys(texts(first@), texts(unordered@)),
        texts(keys@).no_duplicates(),
{
    let mut keys: Vec<String> = Vec::new();
    assert(texts(keys@) =~= Seq::<Seq<char>>::empty());
    push_all_new(&mut keys, first);
    push_all_new(&mut keys, unordered);
    proof {
        lemma_ordered_keys(texts(first@), texts(unordered@));
    }
    keys
}

/// `Itertools::join` on the strings of `parts`: the parts in order, with
/// `sep` between each two of them and nothing around them. It reserves
/// room for the separators first, by a product of two lengths that has to
/// fit.
#[verifier::external_body]
fn join(parts: &Vec<String>, sep: &str) -> (line: String)
    requires
        sep.spec_bytes().len() * parts.len() <= usize::MAX,
    ensures
        line@ == joined(texts(parts@), sep@),
{
    parts.iter().join(sep)
}

/// The header line: the column keys with the separator between them.
pub fn header_line(keys: &Vec<String>, separator: &str) -> (line: String)
    requires
        separator.spec_bytes().len() * keys.len() <= usize::MAX,
    ensures
        line@ == joined(texts(keys@), separator@),
{
    join(keys, separator)
}

/// The line of one record: under each column key the record's value, or
/// nothing where it has none, with the separator between them.
pub fn record_line(keys: &Vec<String>, record: &Record, separator: &str) -> (line: String)
    requires
        separator.spec_bytes().len() * keys.len() <= usize::MAX,
    ensures
        line@ == joined(row_of(texts(keys@), record@), separator@),
{
    let mut cells: Vec<String> = Vec::new();
    let mut i: usize = 0;
    while i < keys.len()
        invariant
            i <= keys.len(),
            cells.len() == i,
            forall|j: int|
                0 <= j < i ==> (#[trigger] cells[j])@ == row_of(texts(keys@), record@)[j],
        decreases keys.len() - i,
    {
        let cell = match record.get(&keys[i]) {
            Some(value) => value.clone(),
            None => String::new(),
        };
        cells.push(cell);
        i += 1;
    }
    assert(texts(cells@) =~= row_of(texts(keys@), record@));
    join(&cells, separator)
}

/// The lines of the records, one for each, in the order of the records.
pub fn record_lines(keys: &Vec<String>, records: &Vec<Record>, separator: &str) -> (lines: Vec<
    String,
>)
    requires
        separator.spec_bytes().len() * keys.len() <= usize::MAX,
    ensures
        lines.len() == records.len(),
        forall|i: int|
            0 <= i < records.len() ==> (#[trigger] lines[i])@ == joined(
                row_of(texts(keys@), records[i]@),
                separator@,
            ),
{
    let mut lines: Vec<String> = Vec::new();
    let mut i: usize = 0;
    while i < records.len()
        invariant
            i <= records.len(),
            separator.spec_bytes().len() * keys.len() <= usize::MAX,
            lines.len() == i,
            forall|j: int|
                0 <= j < i ==> (#[trigger] lines[j])@ == joined(
                    row_of(texts(keys@), records[j]@),
                    separator@,
                ),
        decreases records.len() - i,
    {
        lines.push(record_line(keys, &records[i], separator));
        i += 1;
    }
    lines
}

} // verus!
