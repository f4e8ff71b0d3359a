use crate::key::{Key, Value};
use crate::model::{extend, insert_entry, inserts_of, lookup, Entry};
use crate::skiplist::SkipList;
use crate::text::{find_char, lemma_find, to_chars};
use crate::wal::{inserts, lines, parse_line, parse_range, WalError};
use vstd::prelude::*;

verus! {

/// Why a replay of the log stopped.
#[derive(Clone, Copy, Debug, PartialEq, Eq)]
pub struct ReplayError {
    /// The line that is no record, counted from 0.
    pub line: usize,
    /// What is wrong with it.
    pub kind: WalError,
}

/// The table of the most recent writes: one index, and a count of its
/// entries that is not kept yet.
pub struct MemTable<K: Key, V: Value> {
    cardinality: u16,
    map: SkipList<K, V>,
}

/// `after` is `before` with the insert that `line` records, or `before`
/// itself where the line records none.
pub open spec fn applied(
    before: Seq<Entry>,
    after: Seq<Entry>,
    line: Result<Option<(Seq<char>, Seq<char>)>, WalError>,
    levels: nat,
) -> bool {
    match line {
        Ok(Some(pair)) => exists|level: nat|
            level < levels && after == #[trigger] insert_entry(
                before,
                (Entry { key: pair.0, value: pair.1, level }),
            ),
        _ => after == before,
    }
}

/// `after` is `before` with the inserts of `pairs` put in, in turn, at some
/// levels below `levels`.
pub open spec fn replayed(
    before: Seq<Entry>,
    after: Seq<Entry>,
    pairs: Seq<(Seq<char>, Seq<char>)>,
    levels: nat,
) -> bool {
    exists|ops: Seq<Entry>| inserts_of(ops, pairs, levels) && after == #[trigger] extend(before, ops)
}

impl<K: Key, V: Value> MemTable<K, V> {
    /// The entries of the table's index.
    pub closed spec fn view(&self) -> Seq<Entry> {
        self.map@
    }

    /// The number of levels of the table's index.
    pub closed spec fn levels(&self) -> nat {
        self.map.levels()
    }

    /// The table's index is well formed.
    pub closed spec fn wf(&self) -> bool {
        self.map.wf()
    }

    /// An empty table over an index of `levels` levels.
    pub fn init(levels: usize) -> (table: Self)
        requires
            levels > 0,
        ensures
            table.wf(),
            table.levels() == levels,
            table@ == Seq::<Entry>::empty(),
    {
        MemTable { cardinality: 0, map: SkipList::init(levels) }
    }

    /// Puts `v` under `k` into the index, at a level drawn by chance. The
    /// usage that is returned is not measured yet and always 0.
    pub fn insert(&mut self, k: &K, v: &V) -> (usage: u16)
        requires
            old(self).wf(),
        ensures
            final(self).wf(),
            final(self).levels() == old(self).levels(),
            usage == 0,
            exists|level: nat|
                level < old(self).levels() && final(self)@ == #[trigger] insert_entry(
                    old(self)@,
                    (Entry { key: k.text(), value: v.text(), level }),
                ),
    {
        self.map.insert(k, v);
        proof {
            let level = choose|level: nat|
                level < old(self).map.levels() && self.map@ == #[trigger] insert_entry(
                    old(self).map@,
                    (Entry { key: k.text(), value: v.text(), level }),
                );
            assert(self@ == insert_entry(
                old(self)@,
                (Entry { key: k.text(), value: v.text(), level }),
            ));
        }
        0
    }

    /// The value found under `k`, if any.
    pub fn get(&self, k: &K) -> (found: Option<V>)
        requires
            self.wf(),
        ensures
            match found {
                Some(v) => lookup(self@, k.text()) == Some(v.text()),
                None => lookup(self@, k.text()) is None,
            },
    {
        self.map.get(k)
    }

    /// Applies the line that `chars` hold from `start` up to `end`.
    fn apply(&mut self, chars: &Vec<char>, start: usize, end: usize) -> (done: Result<(), WalError>)
        requires
            old(self).wf(),
            start <= end <= chars.len(),
        ensures
            final(self).wf(),
            final(self).levels() == old(self).levels(),
            match parse_line(chars@.subrange(start as int, end as int)) {
                Ok(said) => done is Ok && applied(old(self)@, final(self)@, Ok(said), old(self).levels()),
                Err(e) => done == Err::<(), WalError>(e) && final(self)@ == old(self)@,
            },
    {
        match parse_range(chars, start, end) {
            Ok(Some((key, value))) => {
                let k = K::from_text(key.as_str());
                let v = V::from_text(value.as_str());
                self.insert(&k, &v);
                Ok(())
            },
            Ok(None) => Ok(()),
            Err(e) => Err(e),
        }
    }

    /// Applies one line of the log: an insert is put into the index, another
    /// operation is passed over, and a line that is no record is refused.
    pub fn interpret(&mut self, line: String) -> (done: Result<(), WalError>)
        requires
            old(self).wf(),
        ensures
            final(self).wf(),
            final(self).levels() == old(self).levels(),
            match parse_line(line@) {
                Ok(said) => done is Ok && applied(old(self)@, final(self)@, Ok(said), old(self).levels()),
                Err(e) => done == Err::<(), WalError>(e) && final(self)@ == old(self)@,
            },
    {
        let chars = to_chars(line.as_str());
        assert(chars@.subrange(0, chars@.len() as int) =~= chars@);
        self.apply(&chars, 0, chars.len())
    }

    /// Replays a log, line by line, without writing to any log. The replay
    /// stops at the first line that is no record; the inserts before it stay.
    pub fn load_wal(&mut self, log: &str) -> (done: Result<(), ReplayError>)
        requires
            old(self).wf(),
        ensures
            final(self).wf(),
            final(self).levels() == old(self).levels(),
            match done {
                Ok(_) => {
                    &&& forall|i: int|
                        0 <= i < lines(log@).len() ==> parse_line(#[trigger] lines(log@)[i]) is Ok
                    &&& replayed(old(self)@, final(self)@, inserts(lines(log@)), old(self).levels())
                },
                Err(e) => {
                    &&& e.line < lines(log@).len()
                    &&& parse_line(lines(log@)[e.line as int]) == Err::<
                        Option<(Seq<char>, Seq<char>)>,
                        WalError,
                    >(e.kind)
                    &&& forall|i: int|
                        0 <= i < e.line ==> parse_line(#[trigger] lines(log@)[i]) is Ok
                    &&& replayed(
                        old(self)@,
                        final(self)@,
                        inserts(lines(log@).take(e.line as int)),
                        old(self).levels(),
                    )
                },
            },
    {
        let chars = to_chars(log);
        let n = chars.len();
        let ghost all = lines(log@);
        let ghost base = self@;
        let ghost levels = self.levels();
        let ghost mut seen: Seq<Seq<char>> = Seq::empty();
        let ghost mut ops: Seq<Entry> = Seq::empty();
        let mut at: usize = 0;
        let mut count: usize = 0;
        proof {
            assert(chars@.skip(0) =~= chars@);
            assert(seen + lines(chars@.skip(0)) =~= all);
        }
        while at < n
            invariant
                self.wf(),
                self.levels() == levels,
                levels == old(self).levels(),
                base == old(self)@,
                chars@ == log@,
                n == chars.len(),
                at <= n,
                all == lines(log@),
                all == seen + lines(chars@.skip(at as int)),
                count == seen.len(),
                count <= at,
                forall|i: int| 0 <= i < seen.len() ==> parse_line(#[trigger] seen[i]) is Ok,
                inserts_of(ops, inserts(seen), levels),
                self@ == extend(base, ops),
            decreases n - at,
        {
            let ghost rest = chars@.skip(at as int);
            assert(chars@.subrange(at as int, n as int) =~= rest);
            let end = find_char(&chars, '\n', at, n);
            let ghost line = chars@.subrange(at as int, end as int);
            let ghost before = self@;
            proof {
                lemma_find(rest, '\n', 0);
                if end < n {
                    assert(rest.take(end - at) =~= line);
                    assert(rest.skip(end - at + 1) =~= chars@.skip(end + 1));
                    assert(lines(rest) == seq![line] + lines(chars@.skip(end + 1)));
                } else {
                    assert(rest =~= line);
                    assert(lines(rest) == seq![line]);
                    assert(chars@.skip(n as int).len() == 0);
                    assert(lines(chars@.skip(n as int)) =~= Seq::<Seq<char>>::empty());
                }
                assert(all[count as int] == line);
            }
            match self.apply(&chars, at, end) {
                Ok(_) => {},
                Err(kind) => {
                    proof {
                        assert(seen =~= all.take(count as int));
                        assert(replayed(base, self@, inserts(seen), levels));
                    }
                    return Err(ReplayError { line: count, kind });
                },
            }
            proof {
                let next = seen.push(line);
                assert(next.drop_last() =~= seen);
                match parse_line(line) {
                    Ok(Some(pair)) => {
                        let level = choose|level: nat|
                            level < levels && self@ == #[trigger] insert_entry(
                                before,
                                (Entry { key: pair.0, value: pair.1, level }),
                            );
                        let e = Entry { key: pair.0, value: pair.1, level };
                        let grown = ops.push(e);
                        assert(grown.drop_last() =~= ops);
                        assert(inserts(next) == inserts(seen).push(pair));
                        ops = grown;
                    },
                    _ => {
                        assert(inserts(next) == inserts(seen));
                    },
                }
                seen = next;
                if end < n {
                    assert(all =~= seen + lines(chars@.skip(end + 1)));
                } else {
                    assert(all =~= seen + lines(chars@.skip(n as int)));
                }
            }
            count = count + 1;
            at = if end < n {
                end + 1
            } else {
                n
            };
        }
        proof {
            assert(chars@.skip(n as int).len() == 0);
            assert(all =~= seen);
            assert(replayed(base, self@, inserts(all), levels));
        }
        Ok(())
    }
}

} // verus!
