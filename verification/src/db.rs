use crate::key::{Key, Value};
use crate::memtable::{replayed, MemTable, ReplayError};
use crate::model::{
    distinct_keys, extend, fill, insert_entry, inserts_of, lemma_same_inserts_same_lookups, lookup,
    Entry,
};
use crate::wal::{
    inserts, lemma_log_reads_back, lines, log_text, next_count, parse_line, plain, record_text,
    WalError, WalStatus, WAL,
};
use vstd::prelude::*;

verus! {

/// The number of levels of the engine's index.
pub const SKIPLIST_LEVELS: usize = 3;

/// Why an insert was not made.
#[derive(Clone, Copy, Debug, PartialEq, Eq)]
pub enum InsertError {
    /// An earlier insert still waits to hear whether its record was appended.
    Staged,
    /// No insert waits for its record.
    NothingStaged,
    /// The record could not be appended to the log, so the table was left
    /// as it was.
    AppendFailed,
}

/// The place kept for a cache of pages of a tier on disk.
pub struct PageCache {}

/// The place kept for what will manage a tier on disk.
pub struct DiskManager {}

/// The engine: the log's counter and the table. It neither reads nor writes
/// the log file: it takes the log's text when it is made, and hands out the
/// text of each record for its caller to append.
pub struct DB<K: Key, V: Value> {
    wal: WAL,
    kv: MemTable<K, V>,
    staged: Option<(K, V)>,
    buffer: PageCache,
    disk_manager: DiskManager,
}

impl<K: Key, V: Value> DB<K, V> {
    /// The entries of the engine's table.
    pub closed spec fn view(&self) -> Seq<Entry> {
        self.kv@
    }

    /// The number of records handed out since the engine was made.
    pub closed spec fn writes(&self) -> u16 {
        self.wal.writes()
    }

    /// The key and the value of the insert that waits for its record to be
    /// appended, if one does.
    pub closed spec fn staged(&self) -> Option<(Seq<char>, Seq<char>)> {
        match self.staged {
            Some(pair) => Some((pair.0.text(), pair.1.text())),
            None => None,
        }
    }

    /// The engine's table is well formed and has the engine's levels.
    pub closed spec fn wf(&self) -> bool {
        self.kv.wf() && self.kv.levels() == SKIPLIST_LEVELS
    }

    /// The engine over a log that holds `log`. A log that holds anything is
    /// replayed into the fresh table before the engine is returned; a line
    /// that is no record makes the start fail.
    pub fn new(log: &str) -> (made: Result<Self, ReplayError>)
        ensures
            match made {
                Ok(db) => {
                    &&& db.wf()
                    &&& db.writes() == 0
                    &&& db.staged() is None
                    &&& forall|i: int|
                        0 <= i < lines(log@).len() ==> parse_line(#[trigger] lines(log@)[i]) is Ok
                    &&& replayed(
                        Seq::<Entry>::empty(),
                        db@,
                        inserts(lines(log@)),
                        SKIPLIST_LEVELS as nat,
                    )
                },
                Err(e) => {
                    &&& e.line < lines(log@).len()
                    &&& parse_line(lines(log@)[e.line as int]) == Err::<
                        Option<(Seq<char>, Seq<char>)>,
                        WalError,
                    >(e.kind)
                    &&& forall|i: int|
                        0 <= i < e.line ==> parse_line(#[trigger] lines(log@)[i]) is Ok
                },
            },
    {
        let (wal, status) = WAL::new(log);
        let mut kv: MemTable<K, V> = MemTable::init(SKIPLIST_LEVELS);
        match status {
            WalStatus::HasData => {
                match kv.load_wal(log) {
                    Ok(_) => {},
                    Err(e) => {
                        return Err(e);
                    },
                }
            },
            WalStatus::Empty => {
                proof {
                    assert(log@.len() == 0);
                    assert(lines(log@) =~= Seq::<Seq<char>>::empty());
                    let none = Seq::<Entry>::empty();
                    assert(inserts_of(none, inserts(lines(log@)), SKIPLIST_LEVELS as nat));
                    assert(kv@ == extend(Seq::<Entry>::empty(), none));
                }
            },
        }
        Ok(DB { wal, kv, staged: None, buffer: PageCache {  }, disk_manager: DiskManager {  } })
    }

    /// Takes up the insert of `v` under `k` and returns the text of its
    /// record, line feed included, which the caller appends to the log
    /// before it calls [`DB::commit`]. The table is not touched yet. While an
    /// earlier insert waits, nothing is taken up.
    pub fn insert(&mut self, k: K, v: V) -> (record: Result<String, InsertError>)
        requires
            old(self).wf(),
        ensures
            final(self).wf(),
            final(self)@ == old(self)@,
            match old(self).staged() {
                Some(_) => {
                    &&& record == Err::<String, InsertError>(InsertError::Staged)
                    &&& final(self).staged() == old(self).staged()
                    &&& final(self).writes() == old(self).writes()
                },
                None => {
                    &&& record matches Ok(text)
                    &&& text@ == record_text(k.text(), v.text()) + seq!['\n']
                    &&& final(self).staged() == Some((k.text(), v.text()))
                    &&& final(self).writes() == next_count(old(self).writes())
                },
            },
    {
        if self.staged.is_some() {
            return Err(InsertError::Staged);
        }
        let (_, text) = self.wal.insert(&k, &v);
        self.staged = Some((k, v));
        Ok(text)
    }

    /// Ends the insert that waits. Where its record was appended, the insert
    /// is made in the table; where not, the insert fails and the table stays
    /// as it was.
    pub fn commit(&mut self, appended: bool) -> (done: Result<(), InsertError>)
        requires
            old(self).wf(),
        ensures
            final(self).wf(),
            final(self).writes() == old(self).writes(),
            final(self).staged() is None,
            match old(self).staged() {
                None => {
                    &&& done == Err::<(), InsertError>(InsertError::NothingStaged)
                    &&& final(self)@ == old(self)@
                },
                Some(pair) => if appended {
                    &&& done is Ok
                    &&& exists|level: nat|
                        level < SKIPLIST_LEVELS && final(self)@ == #[trigger] insert_entry(
                            old(self)@,
                            (Entry { key: pair.0, value: pair.1, level }),
                        )
                } else {
                    &&& done == Err::<(), InsertError>(InsertError::AppendFailed)
                    &&& final(self)@ == old(self)@
                },
            },
    {
        match self.staged.take() {
            None => Err(InsertError::NothingStaged),
            Some((k, v)) => {
                if appended {
                    self.kv.insert(&k, &v);
                    proof {
                        let level = choose|level: nat|
                            level < old(self).kv.levels() && self.kv@ == #[trigger] insert_entry(
                                old(self).kv@,
                                (Entry { key: k.text(), value: v.text(), level }),
                            );
                        let pair = old(self).staged()->0;
                        assert(self@ == insert_entry(
                            old(self)@,
                            (Entry { key: pair.0, value: pair.1, level }),
                        ));
                    }
                    Ok(())
                } else {
                    Err(InsertError::AppendFailed)
                }
            },
        }
    }

    /// The value found under `k` in the table, if any. The log is not
    /// consulted.
    pub fn get(&self, k: &K) -> (found: Option<V>)
        requires
            self.wf(),
        ensures
            match found {
                Some(v) => lookup(self@, k.text()) == Some(v.text()),
                None => lookup(self@, k.text()) is None,
            },
    {
        self.kv.get(k)
    }
}

/// Recovery: a table that took plain inserts with keys that all differ, and
/// a table that a fresh engine fills from the log of those inserts, give the
/// same searches.
pub proof fn lemma_recovery(
    pairs: Seq<(Seq<char>, Seq<char>)>,
    before: Seq<Entry>,
    after: Seq<Entry>,
    levels: nat,
    key: Seq<char>,
)
    requires
        forall|i: int| 0 <= i < pairs.len() ==> plain(#[trigger] pairs[i]),
        inserts_of(before, pairs, levels),
        inserts_of(after, inserts(lines(log_text(pairs))), levels),
        distinct_keys(before),
    ensures
        lookup(fill(before), key) == lookup(fill(after), key),
{
    lemma_log_reads_back(pairs);
    lemma_same_inserts_same_lookups(pairs, before, after, levels, key);
}

/// Replay is repeatable: two fresh tables that replay the same log give the
/// same searches, if no key is recorded twice.
pub proof fn lemma_replay_deterministic(
    log: Seq<char>,
    first: Seq<Entry>,
    second: Seq<Entry>,
    levels: nat,
    key: Seq<char>,
)
    requires
        replayed(Seq::<Entry>::empty(), first, inserts(lines(log)), levels),
        replayed(Seq::<Entry>::empty(), second, inserts(lines(log)), levels),
        forall|i: int, j: int|
            0 <= i < j < inserts(lines(log)).len() ==> (#[trigger] inserts(lines(log))[i]).0 != (
            #[trigger] inserts(lines(log))[j]).0,
    ensures
        lookup(first, key) == lookup(second, key),
{
    let pairs = inserts(lines(log));
    let a = choose|ops: Seq<Entry>|
        inserts_of(ops, pairs, levels) && first == #[trigger] extend(
            Seq::<Entry>::empty(),
            ops,
        );
    let b = choose|ops: Seq<Entry>|
        inserts_of(ops, pairs, levels) && second == #[trigger] extend(
            Seq::<Entry>::empty(),
            ops,
        );
    assert forall|i: int, j: int| 0 <= i < j < a.len() implies #[trigger] a[i].key
        != #[trigger] a[j].key by {
        assert(pairs[i].0 != pairs[j].0);
    }
    lemma_same_inserts_same_lookups(pairs, a, b, levels, key);
}

} // verus!
