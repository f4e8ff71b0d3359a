use crate::key::{Key, Value};
use crate::model::{
    insert_entry, is_winner, lemma_insert_entry_sorted, lemma_level_keys_nest, lemma_lookup_absent,
    lemma_lookup_winner, lemma_upper_bound, level_keys, lookup, sorted, upper_bound, Entry,
};
use crate::node::Node;
use crate::text::{lemma_text_lt_total, text_lt};
use vstd::prelude::*;

verus! {

/// A sorted index from keys to values. The nodes live in an arena; node 0 is
/// the sentinel, and `order` lists the data nodes as level 0 links them.
pub struct SkipList<K: Key, V: Value> {
    levels: usize,
    nodes: Vec<Node<K, V>>,
    order: Ghost<Seq<int>>,
}

/// The arena place of the node at position `p` of `order`; the sentinel
/// stands at position -1.
spec fn node_at(order: Seq<int>, p: int) -> int {
    if p < 0 {
        0
    } else {
        order[p]
    }
}

/// The level of the node at position `p`.
spec fn level_of<K: Key, V: Value>(nodes: Seq<Node<K, V>>, order: Seq<int>, p: int) -> int {
    nodes[node_at(order, p)].entry().level as int
}

/// The key of the node at position `p`.
spec fn key_of<K: Key, V: Value>(nodes: Seq<Node<K, V>>, order: Seq<int>, p: int) -> Seq<char> {
    nodes[node_at(order, p)].entry().key
}

/// No node strictly between the positions `p` and `q` takes part in level `l`.
spec fn gap<K: Key, V: Value>(nodes: Seq<Node<K, V>>, order: Seq<int>, l: int, p: int, q: int) -> bool {
    forall|r: int| p < r < q ==> #[trigger] level_of(nodes, order, r) < l
}

/// Node `j` stands at position `q`, and is the first node behind position `p`
/// that takes part in level `l`.
spec fn is_succ<K: Key, V: Value>(
    nodes: Seq<Node<K, V>>,
    order: Seq<int>,
    l: int,
    p: int,
    q: int,
    j: int,
) -> bool {
    &&& p < q < order.len()
    &&& order[q] == j
    &&& level_of(nodes, order, q) >= l
    &&& gap(nodes, order, l, p, q)
}

/// The link of level `l` of the node at position `p` leads to the next node
/// of that level, or is empty where there is none.
spec fn next_ok<K: Key, V: Value>(nodes: Seq<Node<K, V>>, order: Seq<int>, l: int, p: int) -> bool {
    match nodes[node_at(order, p)].links()[l] {
        None => gap(nodes, order, l, p, order.len() as int),
        Some(j) => exists|q: int| #[trigger] is_succ(nodes, order, l, p, q, j as int),
    }
}

/// The node at position `p` takes part in level `l`.
spec fn on_level<K: Key, V: Value>(nodes: Seq<Node<K, V>>, order: Seq<int>, l: int, p: int) -> bool {
    p == -1 || (0 <= p < order.len() && level_of(nodes, order, p) >= l)
}

/// Every link of level `l` is as `order` and the nodes' levels ask.
spec fn level_ok<K: Key, V: Value>(nodes: Seq<Node<K, V>>, order: Seq<int>, l: int) -> bool {
    forall|p: int|
        -1 <= p < order.len() && on_level(nodes, order, l, p) ==> #[trigger] next_ok(
            nodes,
            order,
            l,
            p,
        )
}

/// Every node has `levels` links and a level below `levels`; `order` names
/// data nodes of the arena, none twice.
spec fn shape<K: Key, V: Value>(nodes: Seq<Node<K, V>>, order: Seq<int>, levels: int) -> bool {
    &&& levels >= 1
    &&& nodes.len() >= 1
    &&& forall|i: int|
        0 <= i < nodes.len() ==> (#[trigger] nodes[i]).links().len() == levels
            && nodes[i].entry().level < levels
    &&& forall|p: int| 0 <= p < order.len() ==> 1 <= #[trigger] order[p] < nodes.len()
    &&& forall|p: int, q: int|
        0 <= p < q < order.len() ==> #[trigger] order[p] != #[trigger] order[q]
}

/// The entries of the data nodes, in the order of level 0.
spec fn entries_of<K: Key, V: Value>(nodes: Seq<Node<K, V>>, order: Seq<int>) -> Seq<Entry> {
    Seq::new(order.len(), |p: int| nodes[order[p]].entry())
}


/// The position in `order.insert(pos, n)` of what stood at position `p`.
spec fn shifted(pos: int, p: int) -> int {
    if p < pos {
        p
    } else {
        p + 1
    }
}

/// Every node of the arena holds in `after` what it held in `before`.
spec fn same_entries<K: Key, V: Value>(before: Seq<Node<K, V>>, after: Seq<Node<K, V>>) -> bool {
    &&& before.len() <= after.len()
    &&& forall|i: int| 0 <= i < before.len() ==> (#[trigger] after[i]).entry() == before[i].entry()
}

/// `order` names nodes of the first `n` places of the arena.
spec fn within(order: Seq<int>, n: int) -> bool {
    forall|p: int| 0 <= p < order.len() ==> 0 <= #[trigger] order[p] < n
}

/// `order` with a node of the arena put in still names nodes of the arena.
proof fn lemma_within_insert(order: Seq<int>, pos: int, n: int)
    requires
        0 <= pos <= order.len(),
        0 <= n,
        within(order, n),
    ensures
        within(order.insert(pos, n), n + 1),
{
    let o1 = order.insert(pos, n);
    assert forall|p: int| 0 <= p < o1.len() implies 0 <= #[trigger] o1[p] < n + 1 by {
        if p < pos {
            assert(o1[p] == order[p]);
        } else if p > pos {
            assert(o1[p] == order[p - 1]);
        }
    }
}

/// Links of a level that no node changed still fit `order`.
proof fn lemma_frame<K: Key, V: Value>(
    before: Seq<Node<K, V>>,
    after: Seq<Node<K, V>>,
    order: Seq<int>,
    l: int,
)
    requires
        same_entries(before, after),
        before.len() >= 1,
        within(order, before.len() as int),
        forall|i: int| 0 <= i < before.len() ==> (#[trigger] after[i]).links()[l] == before[i].links()[l],
        level_ok(before, order, l),
    ensures
        level_ok(after, order, l),
{
    assert forall|r: int| -1 <= r < order.len() implies level_of(after, order, r) == level_of(
        before,
        order,
        r,
    ) by {
        assert(after[node_at(order, r)].entry() == before[node_at(order, r)].entry());
    }
    assert forall|p: int|
        -1 <= p < order.len() && on_level(after, order, l, p) implies #[trigger] next_ok(
        after,
        order,
        l,
        p,
    ) by {
        let c = node_at(order, p);
        assert(after[c].links()[l] == before[c].links()[l]);
        assert(level_of(after, order, p) == level_of(before, order, p));
        assert(on_level(before, order, l, p));
        assert(next_ok(before, order, l, p));
        match before[c].links()[l] {
            None => {
                assert(gap(after, order, l, p, order.len() as int));
            },
            Some(j) => {
                let q = choose|q: int| is_succ(before, order, l, p, q, j as int);
                assert(level_of(after, order, q) == level_of(before, order, q));
                assert(gap(after, order, l, p, q));
                assert(is_succ(after, order, l, p, q, j as int));
            },
        }
    }
}

/// A stretch without nodes of level `l` stays one when a node is put into
/// `order`, unless that node falls into it and takes part in the level.
proof fn lemma_gap_shift<K: Key, V: Value>(
    nodes: Seq<Node<K, V>>,
    order: Seq<int>,
    pos: int,
    n: int,
    l: int,
    p: int,
    q: int,
)
    requires
        0 <= pos <= order.len(),
        -1 <= p,
        q <= order.len(),
        gap(nodes, order, l, p, q),
        nodes[n].entry().level < l || !(p < pos <= q),
    ensures
        gap(nodes, order.insert(pos, n), l, shifted(pos, p), shifted(pos, q)),
{
    let o1 = order.insert(pos, n);
    assert forall|r: int| shifted(pos, p) < r < shifted(pos, q) implies #[trigger] level_of(
        nodes,
        o1,
        r,
    ) < l by {
        if r < pos {
            assert(o1[r] == order[r]);
            assert(level_of(nodes, order, r) < l);
        } else if r == pos {
            assert(o1[r] == n);
        } else {
            assert(o1[r] == order[r - 1]);
            assert(level_of(nodes, order, r - 1) < l);
        }
    }
}

/// The links of a level above the new node's fit `order` with the new node
/// put in as they fitted it without.
proof fn lemma_skip<K: Key, V: Value>(
    nodes: Seq<Node<K, V>>,
    order: Seq<int>,
    pos: int,
    n: int,
    l: int,
)
    requires
        0 <= pos <= order.len(),
        nodes[n].entry().level < l,
        level_ok(nodes, order, l),
    ensures
        level_ok(nodes, order.insert(pos, n), l),
{
    let o1 = order.insert(pos, n);
    assert forall|p1: int|
        -1 <= p1 < o1.len() && on_level(nodes, o1, l, p1) implies #[trigger] next_ok(
        nodes,
        o1,
        l,
        p1,
    ) by {
        assert(p1 != pos) by {
            if p1 == pos {
                assert(o1[p1] == n);
            }
        }
        let p = if p1 < pos { p1 } else { p1 - 1 };
        assert(shifted(pos, p) == p1);
        assert(node_at(o1, p1) == node_at(order, p));
        assert(on_level(nodes, order, l, p));
        assert(next_ok(nodes, order, l, p));
        match nodes[node_at(order, p)].links()[l] {
            None => {
                lemma_gap_shift(nodes, order, pos, n, l, p, order.len() as int);
            },
            Some(j) => {
                let q = choose|q: int| is_succ(nodes, order, l, p, q, j as int);
                lemma_gap_shift(nodes, order, pos, n, l, p, q);
                let q1 = shifted(pos, q);
                assert(node_at(o1, q1) == node_at(order, q));
                assert(is_succ(nodes, o1, l, p1, q1, j as int));
            },
        }
    }
}

/// After the new node `n` is linked in behind the node at position `pc`, the
/// links of level `l` fit `order` with the new node put in at `pos`.
proof fn lemma_splice<K: Key, V: Value>(
    before: Seq<Node<K, V>>,
    after: Seq<Node<K, V>>,
    order: Seq<int>,
    pos: int,
    n: usize,
    l: int,
    pc: int,
)
    requires
        before.len() == n + 1,
        after.len() == n + 1,
        same_entries(before, after),
        within(order, n as int),
        forall|p: int| 0 <= p < order.len() ==> 1 <= #[trigger] order[p],
        forall|p: int, q: int|
            0 <= p < q < order.len() ==> #[trigger] order[p] != #[trigger] order[q],
        0 <= l <= before[n as int].entry().level,
        0 <= pos <= order.len(),
        -1 <= pc < pos,
        on_level(before, order, l, pc),
        level_ok(before, order, l),
        gap(before, order, l, pc, pos),
        after[node_at(order, pc)].links()[l] == Some(n),
        after[n as int].links()[l] == before[node_at(order, pc)].links()[l],
        forall|i: int|
            0 <= i < n && i != node_at(order, pc) ==> (#[trigger] after[i]).links()[l]
                == before[i].links()[l],
    ensures
        level_ok(after, order.insert(pos, n as int), l),
{
    let o1 = order.insert(pos, n as int);
    let c = node_at(order, pc);
    assert forall|r: int| -1 <= r < order.len() implies level_of(after, order, r) == level_of(
        before,
        order,
        r,
    ) by {
        assert(after[node_at(order, r)].entry() == before[node_at(order, r)].entry());
    }
    assert(after[n as int].entry() == before[n as int].entry());
    assert forall|r: int| -1 <= r < order.len() implies level_of(
        after,
        o1,
        shifted(pos, r),
    ) == level_of(after, order, r) && node_at(o1, shifted(pos, r)) == node_at(order, r) by {}
    assert forall|a: int, b: int| gap(before, order, l, a, b) && -1 <= a && b <= order.len() implies gap(
        after,
        order,
        l,
        a,
        b,
    ) by {
        assert forall|r: int| a < r < b implies #[trigger] level_of(after, order, r) < l by {
            assert(level_of(before, order, r) < l);
        }
    }
    assert(next_ok(before, order, l, pc));
    assert forall|p1: int|
        -1 <= p1 < o1.len() && on_level(after, o1, l, p1) implies #[trigger] next_ok(
        after,
        o1,
        l,
        p1,
    ) by {
        if p1 == pos {
            assert(node_at(o1, p1) == n);
            match before[c].links()[l] {
                None => {
                    assert(gap(after, order, l, pc, order.len() as int));
                    assert forall|r: int| pos < r < o1.len() implies #[trigger] level_of(
                        after,
                        o1,
                        r,
                    ) < l by {
                        assert(r == shifted(pos, r - 1));
                        assert(level_of(after, order, r - 1) < l);
                    }
                },
                Some(j) => {
                    let q = choose|q: int| is_succ(before, order, l, pc, q, j as int);
                    assert(is_succ(before, order, l, pc, q, j as int));
                    if q < pos {
                        assert(level_of(before, order, q) < l);
                    }
                    assert(gap(after, order, l, pc, q));
                    assert forall|r: int| pos < r < q + 1 implies #[trigger] level_of(
                        after,
                        o1,
                        r,
                    ) < l by {
                        assert(r == shifted(pos, r - 1));
                        assert(level_of(after, order, r - 1) < l);
                    }
                    assert(q + 1 == shifted(pos, q));
                    assert(is_succ(after, o1, l, p1, q + 1, j as int));
                },
            }
        } else {
            let p = if p1 < pos { p1 } else { p1 - 1 };
            assert(shifted(pos, p) == p1);
            assert(node_at(o1, p1) == node_at(order, p));
            assert(on_level(before, order, l, p));
            if p == pc {
                assert(gap(after, order, l, pc, pos));
                assert forall|r: int| pc < r < pos implies #[trigger] level_of(after, o1, r) < l by {
                    assert(r == shifted(pos, r));
                    assert(level_of(after, order, r) < l);
                }
                assert(o1[pos] == n);
                assert(is_succ(after, o1, l, p1, pos, n as int));
                assert(after[node_at(o1, p1)].links()[l]->0 == n);
            } else {
                let m = node_at(order, p);
                assert(m != c) by {
                    if p >= 0 && pc >= 0 {
                        if p < pc {
                            assert(order[p] != order[pc]);
                        } else {
                            assert(order[pc] != order[p]);
                        }
                    }
                }
                assert(after[m].links()[l] == before[m].links()[l]);
                assert(next_ok(before, order, l, p));
                if pc < p < pos {
                    assert(level_of(before, order, p) < l);
                }
                match before[m].links()[l] {
                    None => {
                        if p < pc {
                            assert(level_of(before, order, pc) < l);
                        }
                        assert(gap(after, order, l, p, order.len() as int));
                        lemma_gap_shift(after, order, pos, n as int, l, p, order.len() as int);
                        },
                    Some(j) => {
                        let q = choose|q: int| is_succ(before, order, l, p, q, j as int);
                        assert(is_succ(before, order, l, p, q, j as int));
                        if p < pc && pc < q {
                            assert(level_of(before, order, pc) < l);
                        }
                        assert(gap(after, order, l, p, q));
                        lemma_gap_shift(after, order, pos, n as int, l, p, q);
                        let q1 = shifted(pos, q);
                        assert(is_succ(after, o1, l, p1, q1, j as int));
                        },
                }
            }
        }
    }
}

/// The keys of the nodes that the links of level `l` lead through, from the
/// link `from` on, for at most `fuel` steps.
spec fn walk<K: Key, V: Value>(nodes: Seq<Node<K, V>>, l: int, from: Option<usize>, fuel: nat) -> Seq<
    Seq<char>,
>
    decreases fuel,
{
    match from {
        None => Seq::empty(),
        Some(j) => if fuel == 0 || j >= nodes.len() {
            Seq::empty()
        } else {
            seq![nodes[j as int].entry().key] + walk(
                nodes,
                l,
                nodes[j as int].links()[l],
                (fuel - 1) as nat,
            )
        },
    }
}

/// Where no node of positions `p + 1` to `q - 1` takes part in level `l`, the
/// keys of the level from `p + 1` on are those from `q` on.
proof fn lemma_level_keys_gap<K: Key, V: Value>(
    nodes: Seq<Node<K, V>>,
    order: Seq<int>,
    l: nat,
    p: int,
    q: int,
)
    requires
        -1 <= p < q <= order.len(),
        gap(nodes, order, l as int, p, q),
    ensures
        level_keys(entries_of(nodes, order), l, p + 1) == level_keys(entries_of(nodes, order), l, q),
    decreases q - p,
{
    if p + 1 < q {
        assert(level_of(nodes, order, p + 1) < l);
        assert(entries_of(nodes, order)[p + 1].level == level_of(nodes, order, p + 1));
        lemma_level_keys_gap(nodes, order, l, p + 1, q);
    }
}

/// Following the links of level `l` from the node at position `p` leads
/// through the keys of the level behind that position.
proof fn lemma_walk<K: Key, V: Value>(
    nodes: Seq<Node<K, V>>,
    order: Seq<int>,
    levels: int,
    l: nat,
    p: int,
    fuel: nat,
)
    requires
        shape(nodes, order, levels),
        l < levels,
        level_ok(nodes, order, l as int),
        -1 <= p < order.len(),
        on_level(nodes, order, l as int, p),
        fuel >= order.len() - p,
    ensures
        walk(nodes, l as int, nodes[node_at(order, p)].links()[l as int], fuel) == level_keys(
            entries_of(nodes, order),
            l,
            p + 1,
        ),
    decreases order.len() - p,
{
    let ents = entries_of(nodes, order);
    assert(next_ok(nodes, order, l as int, p));
    match nodes[node_at(order, p)].links()[l as int] {
        None => {
            lemma_level_keys_gap(nodes, order, l, p, order.len() as int);
        },
        Some(j) => {
            let q = choose|q: int| is_succ(nodes, order, l as int, p, q, j as int);
            assert(is_succ(nodes, order, l as int, p, q, j as int));
            lemma_level_keys_gap(nodes, order, l, p, q);
            lemma_walk(nodes, order, levels, l, q, (fuel - 1) as nat);
            assert(ents[q].level == level_of(nodes, order, q));
            assert(ents[q].key == nodes[j as int].entry().key);
        },
    }
}

/// The level that a new node gets when the coin falls as `flips` tell: the
/// descent starts at the top level, goes down one level for each heads, and
/// stops at the first tails, at level 0, or when the flips run out.
pub open spec fn level_for(levels: nat, flips: Seq<bool>) -> nat
    decreases flips.len(),
{
    if levels <= 1 || flips.len() == 0 || !flips[0] {
        (levels - 1) as nat
    } else {
        level_for((levels - 1) as nat, flips.drop_first())
    }
}

/// The level of [`level_for`] is one of the `levels` levels.
pub proof fn lemma_level_for_bound(levels: nat, flips: Seq<bool>)
    requires
        levels > 0,
    ensures
        level_for(levels, flips) < levels,
    decreases flips.len(),
{
    if !(levels <= 1 || flips.len() == 0 || !flips[0]) {
        lemma_level_for_bound((levels - 1) as nat, flips.drop_first());
    }
}

/// The level for an index of `levels` levels when the coin falls as `flips`
/// tell (`true` is heads).
pub fn level_from_flips(levels: usize, flips: &Vec<bool>) -> (level: usize)
    requires
        levels > 0,
    ensures
        level == level_for(levels as nat, flips@),
{
    let mut level: usize = levels - 1;
    let mut i: usize = 0;
    assert(flips@.skip(0) =~= flips@);
    while level > 0 && i < flips.len() && flips[i]
        invariant
            i <= flips.len(),
            level < levels,
            level_for(levels as nat, flips@) == level_for((level + 1) as nat, flips@.skip(i as int)),
        decreases level,
    {
        assert(flips@.skip(i as int).drop_first() =~= flips@.skip(i + 1));
        level -= 1;
        i += 1;
    }
    level
}

/// One flip of a coin, by `rand::random::<bool>()`, which draws from the
/// thread's generator. Nothing is claimed of the side that comes up.
#[verifier::external_body]
fn coin_flip() -> bool {
    rand::random::<bool>()
}

impl<K: Key, V: Value> SkipList<K, V> {
    /// The entries of the index, in the order in which level 0 links them.
    pub closed spec fn view(&self) -> Seq<Entry> {
        entries_of(self.nodes@, self.order@)
    }

    /// The number of levels that the index was made with.
    pub closed spec fn levels(&self) -> nat {
        self.levels as nat
    }

    /// The links of every level lead through the nodes of that level in the
    /// order of the entries, and the sentinel anchors each level.
    pub closed spec fn wf(&self) -> bool {
        &&& shape(self.nodes@, self.order@, self.levels as int)
        &&& self.nodes@.len() == self.order@.len() + 1
        &&& sorted(self@)
        &&& forall|l: int| 0 <= l < self.levels ==> #[trigger] level_ok(self.nodes@, self.order@, l)
    }

    /// The keys that a walk along the links of level `l` passes, from the
    /// sentinel to the end of the level.
    pub closed spec fn reachable(&self, l: nat) -> Seq<Seq<char>> {
        walk(self.nodes@, l as int, self.nodes@[0].links()[l as int], self.nodes@.len())
    }

    /// The links of a level lead through the entries that take part in it,
    /// in the order of the entries, and through no others.
    pub proof fn lemma_reachable(&self, l: nat)
        requires
            self.wf(),
            l < self.levels(),
        ensures
            self.reachable(l) == level_keys(self@, l, 0),
    {
        assert(level_ok(self.nodes@, self.order@, l as int));
        lemma_walk(self.nodes@, self.order@, self.levels as int, l, -1, self.nodes@.len());
    }

    /// Every key that can be reached at a level above 0 can be reached at
    /// the level below it.
    pub proof fn lemma_levels_nest(&self, l: nat, key: Seq<char>)
        requires
            self.wf(),
            0 < l < self.levels(),
            self.reachable(l).contains(key),
        ensures
            self.reachable((l - 1) as nat).contains(key),
    {
        self.lemma_reachable(l);
        self.lemma_reachable((l - 1) as nat);
        lemma_level_keys_nest(self@, l, key);
    }

    /// The entries of an index never go down in their keys.
    pub proof fn lemma_sorted(&self)
        requires
            self.wf(),
        ensures
            sorted(self@),
    {
    }

    /// An empty index of `levels` levels.
    pub fn init(levels: usize) -> (list: Self)
        requires
            levels > 0,
        ensures
            list.wf(),
            list.levels() == levels,
            list@ == Seq::<Entry>::empty(),
    {
        let mut nodes: Vec<Node<K, V>> = Vec::new();
        nodes.push(Node::empty(levels));
        let list = SkipList { levels, nodes, order: Ghost(Seq::empty()) };
        proof {
            assert(list@ =~= Seq::<Entry>::empty());
            assert forall|l: int| 0 <= l < levels implies #[trigger] level_ok(
                list.nodes@,
                list.order@,
                l,
            ) by {
                assert(next_ok(list.nodes@, list.order@, l, -1));
            }
        }
        list
    }

    /// Draws the level of a new node: from the top level, one level down for
    /// each heads of a fair coin, until tails or level 0.
    pub fn randlvl(&self) -> (level: usize)
        requires
            self.wf(),
        ensures
            level < self.levels(),
    {
        let mut flips: Vec<bool> = Vec::new();
        let mut heads = true;
        while heads && flips.len() < self.levels - 1
            invariant
                self.levels >= 1,
                flips.len() <= self.levels - 1,
            decreases self.levels - 1 - flips.len(),
        {
            heads = coin_flip();
            flips.push(heads);
        }
        proof {
            lemma_level_for_bound(self.levels as nat, flips@);
        }
        level_from_flips(self.levels, &flips)
    }

    /// Puts a new entry for `key` and `value` into the index at a level that
    /// [`SkipList::randlvl`] draws.
    pub fn insert(&mut self, key: &K, value: &V)
        requires
            old(self).wf(),
        ensures
            final(self).wf(),
            final(self).levels() == old(self).levels(),
            exists|level: nat|
                level < old(self).levels() && final(self)@ == #[trigger] insert_entry(
                    old(self)@,
                    (Entry { key: key.text(), value: value.text(), level }),
                ),
    {
        let level = self.randlvl();
        self.insert_with_level(key, value, level);
        assert(self@ == insert_entry(
            old(self)@,
            Entry { key: key.text(), value: value.text(), level: level as nat },
        ));
    }

    /// Puts a new entry for `key` and `value` into the index and links it at
    /// every level from `level` down to 0. At each level it goes behind the
    /// nodes whose keys do not come after `key`; an entry that already has
    /// the key stays, and the new one follows it.
    pub fn insert_with_level(&mut self, key: &K, value: &V, level: usize)
        requires
            old(self).wf(),
            level < old(self).levels(),
        ensures
            final(self).wf(),
            final(self).levels() == old(self).levels(),
            final(self)@ == insert_entry(
                old(self)@,
                (Entry { key: key.text(), value: value.text(), level: level as nat }),
            ),
    {
        let n = self.nodes.len();
        let levels = self.levels;
        let ghost nodes0 = self.nodes@;
        let ghost order0 = self.order@;
        let ghost ents = self@;
        let ghost e = Entry { key: key.text(), value: value.text(), level: level as nat };
        let ghost pos = upper_bound(ents, e.key);
        let ghost order1 = order0.insert(pos, n as int);
        self.nodes.push(Node::new(key, value, level, levels));
        let ghost nodes1 = self.nodes@;
        proof {
            lemma_upper_bound(ents, e.key);
            assert(same_entries(nodes0, nodes1));
            assert forall|l: int| 0 <= l < levels implies #[trigger] level_ok(nodes1, order0, l) by {
                assert(level_ok(nodes0, order0, l));
                lemma_frame(nodes0, nodes1, order0, l);
            }
            assert forall|l: int| level < l < levels implies #[trigger] level_ok(
                nodes1,
                order1,
                l,
            ) by {
                assert(level_ok(nodes1, order0, l));
                lemma_skip(nodes1, order0, pos, n as int, l);
            }
        }
        let mut cur: usize = 0;
        let ghost mut pc: int = -1;
        let mut remaining: usize = level + 1;
        while remaining > 0
            invariant
                self.levels == levels,
                self.order@ == order0,
                self.nodes@.len() == n + 1,
                n == order0.len() + 1,
                within(order0, n as int),
                pos <= order0.len(),
                shape(self.nodes@, order0, levels as int),
                same_entries(nodes1, self.nodes@),
                nodes1.len() == n + 1,
                nodes1[n as int].entry() == e,
                ents == entries_of(nodes1, order0),
                sorted(ents),
                pos == upper_bound(ents, e.key),
                order1 == order0.insert(pos, n as int),
                e.key == key.text(),
                e.level == level,
                level < levels,
                remaining <= level + 1,
                forall|l: int| remaining <= l < levels ==> #[trigger] level_ok(self.nodes@, order1, l),
                forall|l: int| 0 <= l < remaining ==> #[trigger] level_ok(self.nodes@, order0, l),
                -1 <= pc < pos,
                cur == node_at(order0, pc),
                remaining > 0 ==> on_level(self.nodes@, order0, remaining - 1, pc),
            decreases remaining,
        {
            let l = remaining - 1;
            let mut walking = true;
            while walking
                invariant
                    self.levels == levels,
                    self.order@ == order0,
                    self.nodes@.len() == n + 1,
                    n == order0.len() + 1,
                    within(order0, n as int),
                    pos <= order0.len(),
                    shape(self.nodes@, order0, levels as int),
                    same_entries(nodes1, self.nodes@),
                    nodes1.len() == n + 1,
                    ents == entries_of(nodes1, order0),
                    sorted(ents),
                    pos == upper_bound(ents, e.key),
                    e.key == key.text(),
                    l < levels,
                    level_ok(self.nodes@, order0, l as int),
                    -1 <= pc < pos,
                    cur == node_at(order0, pc),
                    on_level(self.nodes@, order0, l as int, pc),
                    !walking ==> gap(self.nodes@, order0, l as int, pc, pos),
                decreases order0.len() - pc, (if walking { 1int } else { 0int }),
            {
                proof {
                    lemma_upper_bound(ents, e.key);
                    assert(next_ok(self.nodes@, order0, l as int, pc));
                }
                let next = self.nodes[cur].link(l);
                let ghost mut q: int = order0.len() as int;
                let mut stop = true;
                if let Some(j) = next {
                    proof {
                        q = choose|q: int| is_succ(self.nodes@, order0, l as int, pc, q, j as int);
                        assert(is_succ(self.nodes@, order0, l as int, pc, q, j as int));
                        assert(self.nodes@[j as int].entry() == nodes1[j as int].entry());
                        assert(ents[q].key == self.nodes@[j as int].entry().key);
                    }
                    if !self.nodes[j].follows(key) {
                        proof {
                            pc = q;
                        }
                        cur = j;
                        stop = false;
                    }
                }
                if stop {
                    walking = false;
                    proof {
                        assert(pos <= q);
                        assert(gap(self.nodes@, order0, l as int, pc, q));
                    }
                }
            }
            let ghost before = self.nodes@;
            let displaced = self.nodes[cur].push(l, n);
            self.nodes[n].set_link(l, displaced);
            proof {
                let after = self.nodes@;
                assert(same_entries(before, after));
                lemma_splice(before, after, order0, pos, n, l as int, pc);
                assert forall|m: int| remaining <= m < levels implies #[trigger] level_ok(
                    after,
                    order1,
                    m,
                ) by {
                    assert(level_ok(before, order1, m));
                    lemma_within_insert(order0, pos, n as int);
                    lemma_frame(before, after, order1, m);
                }
                assert forall|m: int| 0 <= m < l implies #[trigger] level_ok(after, order0, m) by {
                    assert(level_ok(before, order0, m));
                    lemma_frame(before, after, order0, m);
                }
            }
            remaining = remaining - 1;
        }
        self.order = Ghost(order1);
        proof {
            assert(self@ =~= insert_entry(ents, e));
            lemma_insert_entry_sorted(ents, e);
        }
    }

    /// The keys of one level, as its links lead through them from the
    /// sentinel to the end.
    pub fn keys_at(&self, level: usize) -> (keys: Vec<K>)
        requires
            self.wf(),
            level < self.levels(),
        ensures
            keys.len() == self.reachable(level as nat).len(),
            forall|i: int|
                0 <= i < keys.len() ==> (#[trigger] keys[i]).text() == self.reachable(
                    level as nat,
                )[i],
    {
        let ghost nodes = self.nodes@;
        let ghost order = self.order@;
        let ghost want = level_keys(self@, level as nat, 0);
        let ghost mut got: Seq<Seq<char>> = Seq::empty();
        let ghost mut pc: int = -1;
        let mut keys: Vec<K> = Vec::new();
        proof {
            self.lemma_reachable(level as nat);
            assert(level_ok(nodes, order, level as int));
        }
        let mut next = self.nodes[0].link(level);
        while next.is_some()
            invariant
                self.wf(),
                nodes == self.nodes@,
                order == self.order@,
                level < self.levels,
                level_ok(nodes, order, level as int),
                -1 <= pc < order.len(),
                on_level(nodes, order, level as int, pc),
                next == nodes[node_at(order, pc)].links()[level as int],
                want == got + level_keys(self@, level as nat, pc + 1),
                keys.len() == got.len(),
                forall|i: int| 0 <= i < keys.len() ==> (#[trigger] keys[i]).text() == got[i],
            decreases order.len() - pc,
        {
            let j = next.unwrap();
            proof {
                assert(next_ok(nodes, order, level as int, pc));
                let q = choose|q: int| is_succ(nodes, order, level as int, pc, q, j as int);
                assert(is_succ(nodes, order, level as int, pc, q, j as int));
                lemma_level_keys_gap(nodes, order, level as nat, pc, q);
                assert(self@[q].level == level_of(nodes, order, q));
                assert(self@[q].key == nodes[j as int].entry().key);
                assert(want =~= got.push(self@[q].key) + level_keys(self@, level as nat, q + 1));
                got = got.push(self@[q].key);
                pc = q;
            }
            keys.push(self.nodes[j].key());
            next = self.nodes[j].link(level);
        }
        proof {
            assert(next_ok(nodes, order, level as int, pc));
            lemma_level_keys_gap(nodes, order, level as nat, pc, order.len() as int);
            assert(want =~= got);
        }
        keys
    }

    /// Searches for `key` from the top level down. Of the entries with that
    /// key, the one linked at the highest level is found, and of several at
    /// that level the first.
    pub fn get(&self, key: &K) -> (found: Option<V>)
        requires
            self.wf(),
        ensures
            match found {
                Some(v) => lookup(self@, key.text()) == Some(v.text()),
                None => lookup(self@, key.text()) is None,
            },
    {
        let ghost nodes = self.nodes@;
        let ghost order = self.order@;
        let ghost k = key.text();
        let mut cur: usize = 0;
        let mut l: usize = self.levels - 1;
        let ghost mut pc: int = -1;
        loop
            invariant
                self.wf(),
                nodes == self.nodes@,
                order == self.order@,
                k == key.text(),
                l < self.levels,
                -1 <= pc < order.len(),
                cur == node_at(order, pc),
                on_level(nodes, order, l as int, pc),
                pc >= 0 ==> text_lt(key_of(nodes, order, pc), k),
                forall|r: int|
                    0 <= r < order.len() && level_of(nodes, order, r) > l ==> #[trigger] key_of(
                        nodes,
                        order,
                        r,
                    ) != k,
            decreases l, order.len() - pc,
        {
            assert(level_ok(nodes, order, l as int));
            assert(next_ok(nodes, order, l as int, pc));
            let next = self.nodes[cur].link(l);
            let mut advanced = false;
            let ghost mut q: int = order.len() as int;
            if let Some(j) = next {
                proof {
                    q = choose|q: int| is_succ(nodes, order, l as int, pc, q, j as int);
                    assert(is_succ(nodes, order, l as int, pc, q, j as int));
                }
                if !self.nodes[j].follows(key) {
                    if !self.nodes[j].precedes(key) {
                        let v = self.nodes[j].value();
                        proof {
                            lemma_text_lt_total(key_of(nodes, order, q), k);
                            assert(self@[q] == nodes[j as int].entry());
                            assert forall|i: int|
                                0 <= i < self@.len() && #[trigger] self@[i].key == k implies self@[i].level
                                < self@[q].level || (self@[i].level == self@[q].level && q
                                <= i) by {
                                assert(self@[i].key == key_of(nodes, order, i));
                                assert(self@[i].level == level_of(nodes, order, i));
                                if i <= pc {
                                    assert(!text_lt(self@[pc].key, self@[i].key));
                                }
                            }
                            assert(is_winner(self@, k, q));
                            lemma_lookup_winner(self@, k, q);
                        }
                        return Some(v);
                    }
                    proof {
                        lemma_text_lt_total(key_of(nodes, order, q), k);
                        pc = q;
                    }
                    cur = j;
                    advanced = true;
                }
            }
            if !advanced {
                proof {
                    assert forall|r: int|
                        0 <= r < order.len() && level_of(nodes, order, r) >= l implies #[trigger] key_of(
                        nodes,
                        order,
                        r,
                    ) != k by {
                        assert(self@[r].key == key_of(nodes, order, r));
                        if r <= pc {
                            assert(!text_lt(self@[pc].key, self@[r].key));
                        } else {
                            assert(q <= r);
                            assert(q < order.len());
                            assert(!text_lt(self@[r].key, self@[q].key));
                        }
                    }
                }
                if l == 0 {
                    proof {
                        assert forall|i: int| 0 <= i < self@.len() implies self@[i].key != k by {
                            assert(self@[i].key == key_of(nodes, order, i));
                            assert(level_of(nodes, order, i) >= 0);
                        }
                        lemma_lookup_absent(self@, k);
                    }
                    return None;
                }
                l -= 1;
            }
        }
    }
}

} // verus!
