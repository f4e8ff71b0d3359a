use crate::text::{
    lemma_text_lt_asymmetric, lemma_text_lt_irreflexive, lemma_text_lt_le, lemma_text_lt_total,
    text_lt,
};
use vstd::prelude::*;

verus! {

/// What one node of the index holds, as the contracts see it: the texts of
/// its key and value, and the highest level at which it is linked.
pub struct Entry {
    pub key: Seq<char>,
    pub value: Seq<char>,
    pub level: nat,
}

/// The keys of `entries` never go down from left to right.
pub open spec fn sorted(entries: Seq<Entry>) -> bool {
    forall|i: int, j: int|
        0 <= i <= j < entries.len() ==> !text_lt(#[trigger] entries[j].key, #[trigger] entries[i].key)
}

/// No key occurs twice in `entries`.
pub open spec fn distinct_keys(entries: Seq<Entry>) -> bool {
    forall|i: int, j: int|
        0 <= i < j < entries.len() ==> #[trigger] entries[i].key != #[trigger] entries[j].key
}

/// Whether some entry has the key `key`.
pub open spec fn has_key(entries: Seq<Entry>, key: Seq<char>) -> bool {
    exists|i: int| 0 <= i < entries.len() && #[trigger] entries[i].key == key
}

/// Entry `i` is the one a search for `key` ends at: among the entries with
/// that key it is linked at the highest level, and among those that share
/// that level it stands first.
pub open spec fn is_winner(entries: Seq<Entry>, key: Seq<char>, i: int) -> bool {
    &&& 0 <= i < entries.len()
    &&& entries[i].key == key
    &&& forall|j: int|
        0 <= j < entries.len() && #[trigger] entries[j].key == key ==> entries[j].level
            < entries[i].level || (entries[j].level == entries[i].level && i <= j)
}

/// The value a search for `key` returns.
pub open spec fn lookup(entries: Seq<Entry>, key: Seq<char>) -> Option<Seq<char>> {
    if exists|i: int| is_winner(entries, key, i) {
        Some(entries[choose|i: int| is_winner(entries, key, i)].value)
    } else {
        None
    }
}

/// Where a new entry with the key `key` goes: behind the leading entries
/// whose keys do not come after `key`.
pub open spec fn upper_bound(entries: Seq<Entry>, key: Seq<char>) -> int
    decreases entries.len(),
{
    if entries.len() == 0 || text_lt(key, entries[0].key) {
        0
    } else {
        1 + upper_bound(entries.drop_first(), key)
    }
}

/// `entries` with `e` put in at its place.
pub open spec fn insert_entry(entries: Seq<Entry>, e: Entry) -> Seq<Entry> {
    entries.insert(upper_bound(entries, e.key), e)
}

/// Sorted entries with keys that all differ go strictly up in their keys.
pub proof fn lemma_strictly_sorted(entries: Seq<Entry>, i: int, j: int)
    requires
        sorted(entries),
        distinct_keys(entries),
        0 <= i < j < entries.len(),
    ensures
        text_lt(entries[i].key, entries[j].key),
{
    lemma_text_lt_total(entries[i].key, entries[j].key);
}

/// At most one entry wins a search.
pub proof fn lemma_winner_unique(entries: Seq<Entry>, key: Seq<char>, i: int, j: int)
    requires
        is_winner(entries, key, i),
        is_winner(entries, key, j),
    ensures
        i == j,
{
}

/// A search returns the value of the entry that wins it.
pub proof fn lemma_lookup_winner(entries: Seq<Entry>, key: Seq<char>, i: int)
    requires
        is_winner(entries, key, i),
    ensures
        lookup(entries, key) == Some(entries[i].value),
{
    let c = choose|i: int| is_winner(entries, key, i);
    lemma_winner_unique(entries, key, i, c);
}

/// A search for a key that no entry has returns nothing.
pub proof fn lemma_lookup_absent(entries: Seq<Entry>, key: Seq<char>)
    requires
        !has_key(entries, key),
    ensures
        lookup(entries, key) is None,
{
    if exists|i: int| is_winner(entries, key, i) {
        let c = choose|i: int| is_winner(entries, key, i);
        assert(entries[c].key == key);
    }
}

/// The place of a new entry lies within `entries`, no entry before it has a
/// key after `key`, and in sorted `entries` every entry from it on has.
pub proof fn lemma_upper_bound(entries: Seq<Entry>, key: Seq<char>)
    requires
        sorted(entries),
    ensures
        0 <= upper_bound(entries, key) <= entries.len(),
        forall|r: int|
            0 <= r < upper_bound(entries, key) ==> !text_lt(key, #[trigger] entries[r].key),
        forall|r: int|
            upper_bound(entries, key) <= r < entries.len() ==> text_lt(
                key,
                #[trigger] entries[r].key,
            ),
    decreases entries.len(),
{
    if entries.len() == 0 {
    } else if text_lt(key, entries[0].key) {
        assert forall|r: int| 0 <= r < entries.len() implies text_lt(
            key,
            #[trigger] entries[r].key,
        ) by {
            assert(!text_lt(entries[r].key, entries[0].key));
            lemma_text_lt_le(key, entries[0].key, entries[r].key);
        }
    } else {
        let rest = entries.drop_first();
        assert forall|i: int, j: int| 0 <= i <= j < rest.len() implies !text_lt(
            #[trigger] rest[j].key,
            #[trigger] rest[i].key,
        ) by {
            assert(rest[i] == entries[i + 1] && rest[j] == entries[j + 1]);
        }
        lemma_upper_bound(rest, key);
        let p = upper_bound(entries, key);
        assert forall|r: int| 0 <= r < p implies !text_lt(key, #[trigger] entries[r].key) by {
            if r > 0 {
                assert(entries[r] == rest[r - 1]);
            }
        }
        assert forall|r: int| p <= r < entries.len() implies text_lt(
            key,
            #[trigger] entries[r].key,
        ) by {
            assert(entries[r] == rest[r - 1]);
        }
    }
}

/// Putting an entry in at its place keeps sorted entries sorted.
pub proof fn lemma_insert_entry_sorted(entries: Seq<Entry>, e: Entry)
    requires
        sorted(entries),
    ensures
        sorted(insert_entry(entries, e)),
{
    lemma_upper_bound(entries, e.key);
    let p = upper_bound(entries, e.key);
    let out = insert_entry(entries, e);
    assert forall|i: int, j: int| 0 <= i <= j < out.len() implies !text_lt(
        #[trigger] out[j].key,
        #[trigger] out[i].key,
    ) by {
        if i == j {
            lemma_text_lt_irreflexive(out[i].key);
        } else if j == p {
            assert(out[i] == entries[i]);
        } else if i == p {
            assert(out[j] == entries[j - 1]);
            lemma_text_lt_asymmetric(e.key, out[j].key);
        } else {
            let i0 = if i < p { i } else { i - 1 };
            let j0 = if j < p { j } else { j - 1 };
            assert(out[i] == entries[i0] && out[j] == entries[j0]);
        }
    }
}

/// The position in `entries.insert(pos, e)` of what stood at position `i`.
spec fn moved(pos: int, i: int) -> int {
    if i < pos {
        i
    } else {
        i + 1
    }
}

/// The place of a new entry lies within `entries`.
pub proof fn lemma_upper_bound_range(entries: Seq<Entry>, key: Seq<char>)
    ensures
        0 <= upper_bound(entries, key) <= entries.len(),
    decreases entries.len(),
{
    if !(entries.len() == 0 || text_lt(key, entries[0].key)) {
        lemma_upper_bound_range(entries.drop_first(), key);
    }
}

/// A search for the key of an entry just put in returns its value, if no
/// entry had that key before.
pub proof fn lemma_lookup_inserted(entries: Seq<Entry>, e: Entry)
    requires
        !has_key(entries, e.key),
    ensures
        lookup(insert_entry(entries, e), e.key) == Some(e.value),
{
    lemma_upper_bound_range(entries, e.key);
    let pos = upper_bound(entries, e.key);
    let out = insert_entry(entries, e);
    assert forall|j: int| 0 <= j < out.len() && #[trigger] out[j].key == e.key implies j == pos by {
        if j < pos {
            assert(entries[j].key == e.key);
        } else if j > pos {
            assert(entries[j - 1].key == e.key);
        }
    }
    assert(is_winner(out, e.key, pos));
    lemma_lookup_winner(out, e.key, pos);
}

/// Putting in an entry changes no search for another key.
pub proof fn lemma_lookup_other(entries: Seq<Entry>, e: Entry, key: Seq<char>)
    requires
        key != e.key,
    ensures
        lookup(insert_entry(entries, e), key) == lookup(entries, key),
{
    lemma_upper_bound_range(entries, e.key);
    let pos = upper_bound(entries, e.key);
    let out = insert_entry(entries, e);
    assert forall|i: int| 0 <= i < entries.len() implies out[moved(pos, i)] == entries[i] by {}
    if exists|i: int| is_winner(entries, key, i) {
        let i = choose|i: int| is_winner(entries, key, i);
        let i1 = moved(pos, i);
        assert forall|j1: int| 0 <= j1 < out.len() && #[trigger] out[j1].key == key implies out[j1].level
            < out[i1].level || (out[j1].level == out[i1].level && i1 <= j1) by {
            let j = if j1 < pos { j1 } else { j1 - 1 };
            assert(j1 != pos);
            assert(out[j1] == entries[j]);
            assert(entries[j].key == key);
        }
        assert(is_winner(out, key, i1));
        lemma_lookup_winner(out, key, i1);
        lemma_lookup_winner(entries, key, i);
    } else if exists|i1: int| is_winner(out, key, i1) {
        let i1 = choose|i1: int| is_winner(out, key, i1);
        let i = if i1 < pos { i1 } else { i1 - 1 };
        assert(i1 != pos);
        assert(out[i1] == entries[i]);
        assert forall|j: int| 0 <= j < entries.len() && #[trigger] entries[j].key == key implies entries[j].level
            < entries[i].level || (entries[j].level == entries[i].level && i <= j) by {
            assert(out[moved(pos, j)].key == key);
        }
        assert(is_winner(entries, key, i));
    }
}

/// Putting in an entry adds its key to the keys that entries have, and no
/// other.
pub proof fn lemma_insert_entry_keys(entries: Seq<Entry>, e: Entry, key: Seq<char>)
    ensures
        has_key(insert_entry(entries, e), key) <==> (key == e.key || has_key(entries, key)),
{
    lemma_upper_bound_range(entries, e.key);
    let pos = upper_bound(entries, e.key);
    let out = insert_entry(entries, e);
    if has_key(out, key) {
        let j = choose|j: int| 0 <= j < out.len() && #[trigger] out[j].key == key;
        if j < pos {
            assert(entries[j].key == key);
        } else if j > pos {
            assert(entries[j - 1].key == key);
        }
    }
    if key == e.key {
        assert(out[pos].key == key);
    }
    if has_key(entries, key) {
        let i = choose|i: int| 0 <= i < entries.len() && #[trigger] entries[i].key == key;
        assert(out[moved(pos, i)].key == key);
    }
}

/// The entries of an index that held `base` and then took `ops` one after
/// the other, each at the level that it names.
pub open spec fn extend(base: Seq<Entry>, ops: Seq<Entry>) -> Seq<Entry>
    decreases ops.len(),
{
    if ops.len() == 0 {
        base
    } else {
        insert_entry(extend(base, ops.drop_last()), ops.last())
    }
}

/// The entries of an index that was empty and then took `ops`.
pub open spec fn fill(ops: Seq<Entry>) -> Seq<Entry> {
    extend(Seq::empty(), ops)
}

/// `ops` put in the keys and values of `pairs`, in turn, each at a level
/// below `levels`.
pub open spec fn inserts_of(ops: Seq<Entry>, pairs: Seq<(Seq<char>, Seq<char>)>, levels: nat) -> bool {
    &&& ops.len() == pairs.len()
    &&& forall|i: int|
        0 <= i < ops.len() ==> (#[trigger] ops[i]).key == pairs[i].0 && ops[i].value == pairs[i].1
            && ops[i].level < levels
}

/// An index holds the keys that were put into it, and no others.
pub proof fn lemma_fill_keys(ops: Seq<Entry>, key: Seq<char>)
    ensures
        has_key(fill(ops), key) <==> has_key(ops, key),
    decreases ops.len(),
{
    if ops.len() == 0 {
    } else {
        let init = ops.drop_last();
        lemma_fill_keys(init, key);
        lemma_insert_entry_keys(fill(init), ops.last(), key);
        if has_key(init, key) {
            let i = choose|i: int| 0 <= i < init.len() && #[trigger] init[i].key == key;
            assert(ops[i].key == key);
        }
        if has_key(ops, key) && key != ops.last().key {
            let i = choose|i: int| 0 <= i < ops.len() && #[trigger] ops[i].key == key;
            assert(init[i].key == key);
        }
        if key == ops.last().key {
            assert(ops[ops.len() - 1].key == key);
        }
    }
}

/// After entries with keys that all differ were put into an empty index, a
/// search for the key of any of them returns its value, at whatever levels
/// they were linked.
pub proof fn lemma_unique_inserts_found(ops: Seq<Entry>, i: int)
    requires
        distinct_keys(ops),
        0 <= i < ops.len(),
    ensures
        lookup(fill(ops), ops[i].key) == Some(ops[i].value),
    decreases ops.len(),
{
    let init = ops.drop_last();
    let last = ops.last();
    if i == ops.len() - 1 {
        lemma_fill_keys(init, last.key);
        if has_key(init, last.key) {
            let j = choose|j: int| 0 <= j < init.len() && #[trigger] init[j].key == last.key;
            assert(ops[j].key != ops[i].key);
        }
        lemma_lookup_inserted(fill(init), last);
    } else {
        assert(ops[i].key != ops[ops.len() - 1].key);
        assert(distinct_keys(init)) by {
            assert forall|a: int, b: int| 0 <= a < b < init.len() implies #[trigger] init[a].key
                != #[trigger] init[b].key by {
                assert(ops[a].key != ops[b].key);
            }
        }
        lemma_unique_inserts_found(init, i);
        lemma_lookup_other(fill(init), last, ops[i].key);
    }
}

/// A search for a key that was never put in returns nothing.
pub proof fn lemma_never_inserted_absent(ops: Seq<Entry>, key: Seq<char>)
    requires
        !has_key(ops, key),
    ensures
        lookup(fill(ops), key) is None,
{
    lemma_fill_keys(ops, key);
    lemma_lookup_absent(fill(ops), key);
}

/// Some entry of `ops` has the key `key` and the value `value`.
pub open spec fn has_pair(ops: Seq<Entry>, key: Seq<char>, value: Seq<char>) -> bool {
    exists|i: int| 0 <= i < ops.len() && (#[trigger] ops[i]).key == key && ops[i].value == value
}

/// `a` and `b` give the same keys the same values, whatever their order and
/// their levels.
pub open spec fn same_pairs(a: Seq<Entry>, b: Seq<Entry>) -> bool {
    &&& forall|i: int| 0 <= i < a.len() ==> has_pair(b, (#[trigger] a[i]).key, a[i].value)
    &&& forall|j: int| 0 <= j < b.len() ==> has_pair(a, (#[trigger] b[j]).key, b[j].value)
}

/// Entries with keys that all differ give the same searches in whatever
/// order, and at whatever levels, they are put into an empty index.
pub proof fn lemma_order_independent(a: Seq<Entry>, b: Seq<Entry>, key: Seq<char>)
    requires
        distinct_keys(a),
        distinct_keys(b),
        same_pairs(a, b),
    ensures
        lookup(fill(a), key) == lookup(fill(b), key),
{
    if has_key(a, key) {
        let i = choose|i: int| 0 <= i < a.len() && #[trigger] a[i].key == key;
        assert(has_pair(b, a[i].key, a[i].value));
        let j = choose|j: int|
            0 <= j < b.len() && (#[trigger] b[j]).key == a[i].key && b[j].value == a[i].value;
        lemma_unique_inserts_found(a, i);
        lemma_unique_inserts_found(b, j);
    } else {
        if has_key(b, key) {
            let j = choose|j: int| 0 <= j < b.len() && #[trigger] b[j].key == key;
            assert(has_pair(a, b[j].key, b[j].value));
            let i = choose|i: int|
                0 <= i < a.len() && (#[trigger] a[i]).key == b[j].key && a[i].value == b[j].value;
            assert(a[i].key == key);
        }
        lemma_never_inserted_absent(a, key);
        lemma_never_inserted_absent(b, key);
    }
}

/// Two indexes that took the same keys and values in the same order, all
/// keys different, give the same searches, at whatever levels each linked
/// them.
pub proof fn lemma_same_inserts_same_lookups(
    pairs: Seq<(Seq<char>, Seq<char>)>,
    a: Seq<Entry>,
    b: Seq<Entry>,
    levels: nat,
    key: Seq<char>,
)
    requires
        inserts_of(a, pairs, levels),
        inserts_of(b, pairs, levels),
        distinct_keys(a),
    ensures
        lookup(fill(a), key) == lookup(fill(b), key),
{
    assert forall|i: int, j: int| 0 <= i < j < b.len() implies #[trigger] b[i].key
        != #[trigger] b[j].key by {
        assert(a[i].key != a[j].key);
    }
    assert forall|i: int| 0 <= i < a.len() implies has_pair(b, (#[trigger] a[i]).key, a[i].value) by {
        assert(b[i].key == a[i].key && b[i].value == a[i].value);
    }
    assert forall|j: int| 0 <= j < b.len() implies has_pair(a, (#[trigger] b[j]).key, b[j].value) by {
        assert(a[j].key == b[j].key && a[j].value == b[j].value);
    }
    lemma_order_independent(a, b, key);
}

/// However entries are put into an empty index, its entries are sorted.
pub proof fn lemma_fill_sorted(ops: Seq<Entry>)
    ensures
        sorted(fill(ops)),
    decreases ops.len(),
{
    if ops.len() > 0 {
        lemma_fill_sorted(ops.drop_last());
        lemma_insert_entry_sorted(fill(ops.drop_last()), ops.last());
    }
}

/// The keys of the entries from position `from` on that take part in level
/// `l`, in their order.
pub open spec fn level_keys(entries: Seq<Entry>, l: nat, from: int) -> Seq<Seq<char>>
    decreases entries.len() - from,
{
    if from < 0 || from >= entries.len() {
        Seq::empty()
    } else if entries[from].level >= l {
        seq![entries[from].key] + level_keys(entries, l, from + 1)
    } else {
        level_keys(entries, l, from + 1)
    }
}

/// A key is among the keys of a level exactly if an entry with that key
/// takes part in the level.
pub proof fn lemma_level_keys_contains(entries: Seq<Entry>, l: nat, from: int, key: Seq<char>)
    requires
        0 <= from,
    ensures
        level_keys(entries, l, from).contains(key) <==> exists|i: int|
            from <= i < entries.len() && (#[trigger] entries[i]).level >= l && entries[i].key
                == key,
    decreases entries.len() - from,
{
    let here = level_keys(entries, l, from);
    if from < entries.len() {
        let rest = level_keys(entries, l, from + 1);
        lemma_level_keys_contains(entries, l, from + 1, key);
        if entries[from].level >= l {
            let head = seq![entries[from].key];
            assert(here == head + rest);
            if here.contains(key) {
                let i = choose|i: int| 0 <= i < here.len() && here[i] == key;
                if i > 0 {
                    assert(rest[i - 1] == key);
                }
            }
            if rest.contains(key) {
                let i = choose|i: int| 0 <= i < rest.len() && rest[i] == key;
                assert(here[i + 1] == key);
            }
            if entries[from].key == key {
                assert(here[0] == key);
            }
        }
    }
}

/// Every key of a level above 0 is a key of the level below it.
pub proof fn lemma_level_keys_nest(entries: Seq<Entry>, l: nat, key: Seq<char>)
    requires
        l > 0,
        level_keys(entries, l, 0).contains(key),
    ensures
        level_keys(entries, (l - 1) as nat, 0).contains(key),
{
    lemma_level_keys_contains(entries, l, 0, key);
    lemma_level_keys_contains(entries, (l - 1) as nat, 0, key);
}

} // verus!
