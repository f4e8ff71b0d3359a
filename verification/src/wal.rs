use crate::key::{Key, Value};
use crate::text::{find, find_char, lemma_find_at, text_of, to_chars};
use vstd::prelude::*;
use vstd::string::StringExecFns;

verus! {

/// Why a line of the log is no record.
#[derive(Clone, Copy, Debug, PartialEq, Eq)]
pub enum WalError {
    /// The line holds no `!`, so it names no operation.
    MissingTag,
    /// The line is an insert, but no `;` parts its key from its value.
    MissingSeparator,
}

/// The tag of the one operation that the log knows.
pub open spec fn insert_tag() -> Seq<char> {
    seq!['i', 'n', 's', 'e', 'r', 't']
}

/// The line that records the insert of `value` under `key`.
pub open spec fn record_text(key: Seq<char>, value: Seq<char>) -> Seq<char> {
    insert_tag() + seq!['!'] + key + seq![';'] + value
}

/// What a line of the log says: `Ok(Some((key, value)))` for an insert,
/// `Ok(None)` for an operation that is not known and is passed over. The tag
/// ends at the first `!`, and the key of an insert at the first `;` behind it.
pub open spec fn parse_line(line: Seq<char>) -> Result<Option<(Seq<char>, Seq<char>)>, WalError> {
    let bang = find(line, '!', 0);
    if bang == line.len() {
        Err(WalError::MissingTag)
    } else if line.take(bang) != insert_tag() {
        Ok(None)
    } else {
        let data = line.skip(bang + 1);
        let semi = find(data, ';', 0);
        if semi == data.len() {
            Err(WalError::MissingSeparator)
        } else {
            Ok(Some((data.take(semi), data.skip(semi + 1))))
        }
    }
}

/// The lines of a log: each ends before a line feed, and what follows the
/// last line feed is a line unless it is empty.
pub open spec fn lines(log: Seq<char>) -> Seq<Seq<char>>
    decreases log.len(),
{
    if log.len() == 0 {
        Seq::empty()
    } else {
        let end = find(log, '\n', 0);
        if end < 0 || end >= log.len() {
            seq![log]
        } else {
            seq![log.take(end)] + lines(log.skip(end + 1))
        }
    }
}

/// The inserts that `lines` record, in their order. Lines that are no
/// records or name another operation add nothing.
pub open spec fn inserts(lines: Seq<Seq<char>>) -> Seq<(Seq<char>, Seq<char>)>
    decreases lines.len(),
{
    if lines.len() == 0 {
        Seq::empty()
    } else {
        let before = inserts(lines.drop_last());
        match parse_line(lines.last()) {
            Ok(Some(pair)) => before.push(pair),
            _ => before,
        }
    }
}

/// Whether `chars` from `start` up to `end` spell the tag of an insert.
fn is_insert_tag(chars: &Vec<char>, start: usize, end: usize) -> (r: bool)
    requires
        start <= end <= chars.len(),
    ensures
        r == (chars@.subrange(start as int, end as int) == insert_tag()),
{
    let ghost part = chars@.subrange(start as int, end as int);
    if end - start != 6 {
        assert(insert_tag().len() == 6);
        return false;
    }
    let r = chars[start] == 'i' && chars[start + 1] == 'n' && chars[start + 2] == 's' && chars[start
        + 3] == 'e' && chars[start + 4] == 'r' && chars[start + 5] == 't';
    proof {
        assert(part[0] == chars@[start as int]);
        assert(part[1] == chars@[start + 1]);
        assert(part[2] == chars@[start + 2]);
        assert(part[3] == chars@[start + 3]);
        assert(part[4] == chars@[start + 4]);
        assert(part[5] == chars@[start + 5]);
        if r {
            assert(part =~= insert_tag());
        }
    }
    r
}

/// Reads the line that `chars` hold from `start` up to `end`.
pub fn parse_range(chars: &Vec<char>, start: usize, end: usize) -> (parsed: Result<
    Option<(String, String)>,
    WalError,
>)
    requires
        start <= end <= chars.len(),
    ensures
        parsed_as(parsed, parse_line(chars@.subrange(start as int, end as int))),
{
    let ghost line = chars@.subrange(start as int, end as int);
    let bang = find_char(chars, '!', start, end);
    if bang == end {
        return Err(WalError::MissingTag);
    }
    assert(line.take(bang - start) =~= chars@.subrange(start as int, bang as int));
    if !is_insert_tag(chars, start, bang) {
        return Ok(None);
    }
    let ghost data = line.skip(bang - start + 1);
    assert(data =~= chars@.subrange(bang + 1, end as int));
    let semi = find_char(chars, ';', bang + 1, end);
    if semi == end {
        return Err(WalError::MissingSeparator);
    }
    let key = text_of(chars, bang + 1, semi);
    let value = text_of(chars, semi + 1, end);
    proof {
        assert(data.take(semi - bang - 1) =~= chars@.subrange(bang + 1, semi as int));
        assert(data.skip(semi - bang - 1 + 1) =~= chars@.subrange(semi + 1, end as int));
    }
    Ok(Some((key, value)))
}

/// `parsed` holds, as strings, what `line` says.
pub open spec fn parsed_as(
    parsed: Result<Option<(String, String)>, WalError>,
    line: Result<Option<(Seq<char>, Seq<char>)>, WalError>,
) -> bool {
    match line {
        Ok(Some(pair)) => parsed matches Ok(Some(got)) && got.0@ == pair.0 && got.1@ == pair.1,
        Ok(None) => parsed == Ok::<Option<(String, String)>, WalError>(None),
        Err(e) => parsed == Err::<Option<(String, String)>, WalError>(e),
    }
}

/// Reads one line of the log: the key and the value of an insert, nothing
/// for another operation, or why the line is no record.
pub fn read_line(line: &str) -> (parsed: Result<Option<(String, String)>, WalError>)
    ensures
        parsed_as(parsed, parse_line(line@)),
{
    let chars = to_chars(line);
    assert(chars@.subrange(0, chars@.len() as int) =~= chars@);
    parse_range(&chars, 0, chars.len())
}

/// The line that records the insert of `value` under `key`, without the
/// line feed that ends it in the log.
pub fn encode_insert(key: &str, value: &str) -> (line: String)
    ensures
        line@ == record_text(key@, value@),
{
    let mut line = String::from_str("insert!");
    proof {
        reveal_strlit("insert!");
        reveal_strlit(";");
        assert("insert!"@ =~= insert_tag() + seq!['!']);
        assert(";"@ =~= seq![';']);
    }
    line.append(key);
    line.append(";");
    line.append(value);
    line
}

/// What the log held when it was opened.
#[derive(Clone, Copy, Debug, PartialEq, Eq)]
pub enum WalStatus {
    /// Nothing: there is nothing to replay.
    Empty,
    /// Records, which are replayed before any call is served.
    HasData,
}

/// The write-ahead log as the engine sees it: it counts the records and
/// gives each the text that is appended to the file.
pub struct WAL {
    writes: u16,
}

impl WAL {
    /// The number of records written since the log was opened; the count
    /// starts again at 0 after 65535.
    pub closed spec fn writes(&self) -> u16 {
        self.writes
    }

    /// The log of a file that holds `log`, with the state it is found in.
    pub fn new(log: &str) -> (opened: (Self, WalStatus))
        ensures
            opened.0.writes() == 0,
            log@.len() == 0 ==> opened.1 == WalStatus::Empty,
            log@.len() != 0 ==> opened.1 == WalStatus::HasData,
    {
        let status = if log.is_empty() {
            WalStatus::Empty
        } else {
            WalStatus::HasData
        };
        (WAL { writes: 0 }, status)
    }

    /// Counts one record and returns the count with the text to append to
    /// the file: `line` and a line feed.
    pub fn write(&mut self, line: &str) -> (out: (u16, String))
        ensures
            final(self).writes() == next_count(old(self).writes()),
            out.0 == final(self).writes(),
            out.1@ == line@ + seq!['\n'],
    {
        self.writes = if self.writes == u16::MAX {
            0
        } else {
            self.writes + 1
        };
        let mut text = String::from_str(line);
        proof {
            reveal_strlit("\n");
            assert("\n"@ =~= seq!['\n']);
        }
        text.append("\n");
        (self.writes, text)
    }

    /// Records the insert of `v` under `k`: counts it and returns the count
    /// with the text to append to the file.
    pub fn insert<K: Key, V: Value>(&mut self, k: &K, v: &V) -> (out: (u16, String))
        ensures
            final(self).writes() == next_count(old(self).writes()),
            out.0 == final(self).writes(),
            out.1@ == record_text(k.text(), v.text()) + seq!['\n'],
    {
        let key = k.to_text();
        let value = v.to_text();
        let line = encode_insert(key.as_str(), value.as_str());
        self.write(line.as_str())
    }
}

/// The count that follows `count`.
pub open spec fn next_count(count: u16) -> u16 {
    if count == u16::MAX {
        0
    } else {
        (count + 1) as u16
    }
}

/// The log that holds the inserts of `pairs`, each on a line of its own.
pub open spec fn log_text(pairs: Seq<(Seq<char>, Seq<char>)>) -> Seq<char>
    decreases pairs.len(),
{
    if pairs.len() == 0 {
        Seq::empty()
    } else {
        record_text(pairs[0].0, pairs[0].1) + seq!['\n'] + log_text(pairs.drop_first())
    }
}

/// The key holds neither of the characters that would end it early, and the
/// value holds no line feed.
pub open spec fn plain(pair: (Seq<char>, Seq<char>)) -> bool {
    &&& !pair.0.contains(';')
    &&& !pair.0.contains('\n')
    &&& !pair.1.contains('\n')
}

/// The record of an insert reads back as that insert, if the key holds no
/// `;`.
pub proof fn lemma_record_reads_back(key: Seq<char>, value: Seq<char>)
    requires
        !key.contains(';'),
    ensures
        parse_line(record_text(key, value)) == Ok::<Option<(Seq<char>, Seq<char>)>, WalError>(
            Some((key, value)),
        ),
{
    let line = record_text(key, value);
    assert(line.len() == 8 + key.len() + value.len());
    assert forall|i: int| 0 <= i < 6 implies line[i] != '!' by {
        assert(line[i] == insert_tag()[i]);
    }
    assert(line[6] == '!');
    lemma_find_at(line, '!', 0, 6);
    assert(line.take(6) =~= insert_tag());
    let data = line.skip(7);
    assert(data =~= key + seq![';'] + value);
    assert forall|i: int| 0 <= i < key.len() implies data[i] != ';' by {
        assert(data[i] == key[i]);
        assert(key.contains(key[i]));
    }
    lemma_find_at(data, ';', 0, key.len() as int);
    assert(data.take(key.len() as int) =~= key);
    assert(data.skip(key.len() as int + 1) =~= value);
}

/// The log of plain inserts has one line for each, its record.
pub proof fn lemma_log_lines(pairs: Seq<(Seq<char>, Seq<char>)>)
    requires
        forall|i: int| 0 <= i < pairs.len() ==> plain(#[trigger] pairs[i]),
    ensures
        lines(log_text(pairs)).len() == pairs.len(),
        forall|i: int|
            0 <= i < pairs.len() ==> #[trigger] lines(log_text(pairs))[i] == record_text(
                pairs[i].0,
                pairs[i].1,
            ),
    decreases pairs.len(),
{
    if pairs.len() > 0 {
        let key = pairs[0].0;
        let value = pairs[0].1;
        let rec = record_text(key, value);
        let rest = pairs.drop_first();
        let log = log_text(pairs);
        assert(plain(pairs[0]));
        assert(rec.len() == 8 + key.len() + value.len());
        assert forall|i: int| 0 <= i < rec.len() implies rec[i] != '\n' by {
            if i < 6 {
                assert(rec[i] == insert_tag()[i]);
            } else if i == 6 {
            } else if i < 7 + key.len() {
                assert(rec[i] == key[i - 7]);
                assert(key.contains(key[i - 7]));
            } else if i == 7 + key.len() {
            } else {
                assert(rec[i] == value[i - 8 - key.len()]);
                assert(value.contains(value[i - 8 - key.len()]));
            }
        }
        assert forall|i: int| 0 <= i < rec.len() implies log[i] != '\n' by {
            assert(log[i] == rec[i]);
        }
        assert(log[rec.len() as int] == '\n');
        lemma_find_at(log, '\n', 0, rec.len() as int);
        assert(log.take(rec.len() as int) =~= rec);
        assert(log.skip(rec.len() as int + 1) =~= log_text(rest));
        assert forall|i: int| 0 <= i < rest.len() implies plain(#[trigger] rest[i]) by {
            assert(rest[i] == pairs[i + 1]);
        }
        lemma_log_lines(rest);
        assert(lines(log) == seq![rec] + lines(log_text(rest)));
        assert forall|i: int| 0 <= i < pairs.len() implies #[trigger] lines(log)[i] == record_text(
            pairs[i].0,
            pairs[i].1,
        ) by {
            if i > 0 {
                assert(lines(log)[i] == lines(log_text(rest))[i - 1]);
                assert(rest[i - 1] == pairs[i]);
            }
        }
    }
}

/// Lines that each record an insert record those inserts, in their order.
pub proof fn lemma_inserts_all(all: Seq<Seq<char>>, pairs: Seq<(Seq<char>, Seq<char>)>)
    requires
        all.len() == pairs.len(),
        forall|i: int|
            0 <= i < all.len() ==> parse_line(#[trigger] all[i]) == Ok::<
                Option<(Seq<char>, Seq<char>)>,
                WalError,
            >(Some(pairs[i])),
    ensures
        inserts(all) == pairs,
    decreases all.len(),
{
    if all.len() > 0 {
        let init = all.drop_last();
        let before = pairs.drop_last();
        assert forall|i: int| 0 <= i < init.len() implies parse_line(#[trigger] init[i]) == Ok::<
            Option<(Seq<char>, Seq<char>)>,
            WalError,
        >(Some(before[i])) by {
            assert(init[i] == all[i]);
        }
        lemma_inserts_all(init, before);
        assert(parse_line(all[all.len() - 1]) == Ok::<Option<(Seq<char>, Seq<char>)>, WalError>(
            Some(pairs[all.len() - 1]),
        ));
        assert(inserts(all) =~= pairs);
    } else {
        assert(inserts(all) =~= pairs);
    }
}

/// What was logged is what a replay reads: the log of plain inserts holds
/// no line that is refused, and records exactly those inserts, in their
/// order.
pub proof fn lemma_log_reads_back(pairs: Seq<(Seq<char>, Seq<char>)>)
    requires
        forall|i: int| 0 <= i < pairs.len() ==> plain(#[trigger] pairs[i]),
    ensures
        inserts(lines(log_text(pairs))) == pairs,
        forall|i: int|
            0 <= i < lines(log_text(pairs)).len() ==> parse_line(
                #[trigger] lines(log_text(pairs))[i],
            ) is Ok,
{
    let all = lines(log_text(pairs));
    lemma_log_lines(pairs);
    assert forall|i: int| 0 <= i < all.len() implies parse_line(#[trigger] all[i]) == Ok::<
        Option<(Seq<char>, Seq<char>)>,
        WalError,
    >(Some(pairs[i])) by {
        assert(plain(pairs[i]));
        lemma_record_reads_back(pairs[i].0, pairs[i].1);
    }
    lemma_inserts_all(all, pairs);
}

} // verus!
