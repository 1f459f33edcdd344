//! Marked-pointer skip list over a node arena.
//!
//! The algorithm follows the lock-free skip list of Herlihy and Shavit:
//! removal first marks a node's links top-down (the logical deletion),
//! and traversals physically unlink marked nodes as they pass. Here the
//! steps run one at a time, so every compare-and-swap provably finds the
//! value it expects and the algorithm's retry paths fall away.
//! Nodes live in an arena; a link field holds `2 * index + mark`, so the
//! low bit carries the per-level deletion mark the way a tagged pointer's
//! low bit would. Unlinked nodes are retired through the hazard-pointer
//! registry rather than freed in place.
//!
//! The list's mathematical content is an ordered map from keys to values:
//! the key/value pairs of the bottom-level chain's unmarked nodes.

mod find_result;
mod node;

use vstd::prelude::*;

use crate::memory_management::{HazarPointerRecord, HprRegistry};
pub use find_result::FindResult;
pub use node::{KeyType, Node, LEVELS, TOP_LEVEL};

verus! {

broadcast use vstd::seq_lib::group_seq_properties;

/// Strips the mark bit: the handle of the node a tagged link points to.
pub fn get_node(ptr: usize) -> (r: usize)
    ensures
        r == 2 * (ptr / 2),
{
    proof {
        assert(ptr & !1usize == 2 * (ptr / 2)) by (bit_vector);
    }
    ptr & !1usize
}

/// The mark bit of a tagged link.
pub fn get_marker(ptr: usize) -> (r: bool)
    ensures
        r == (ptr % 2 == 1),
{
    proof {
        assert((ptr & 1usize) == ptr % 2) by (bit_vector);
    }
    (ptr & 1usize) == 1
}

/// Sets or clears the mark bit of a tagged link.
pub fn add_marker(ptr: usize, marker: bool) -> (r: usize)
    ensures
        marker ==> r == 2 * (ptr / 2) + 1,
        !marker ==> r == 2 * (ptr / 2),
{
    if marker {
        proof {
            assert(ptr | 1usize == 2 * (ptr / 2) + 1) by (bit_vector);
        }
        ptr | 1usize
    } else {
        proof {
            assert(ptr & !1usize == 2 * (ptr / 2)) by (bit_vector);
        }
        ptr & !1usize
    }
}

/// Ordered map over 128-bit keys: a skip list whose nodes live in `nodes`,
/// with its own hazard-pointer registry. `links@[l]` is the level-`l` chain
/// from head to tail, the ghost spine the link fields are verified against.
pub struct SkipList<V> {
    nodes: Vec<Node<V>>,
    head: usize,
    tail: usize,
    registry: HprRegistry,
    links: Ghost<Seq<Seq<usize>>>,
}

impl<V: Copy> SkipList<V> {
    spec fn s_key(nodes: Seq<Node<V>>, i: usize) -> int {
        nodes[i as int].key as int
    }

    spec fn s_top(nodes: Seq<Node<V>>, i: usize) -> int {
        nodes[i as int].top_level as int
    }

    spec fn s_link(nodes: Seq<Node<V>>, i: usize, lvl: int) -> usize {
        nodes[i as int].next@[lvl]
    }

    spec fn s_succ(nodes: Seq<Node<V>>, i: usize, lvl: int) -> usize {
        Self::s_link(nodes, i, lvl) / 2
    }

    spec fn s_mark(nodes: Seq<Node<V>>, i: usize, lvl: int) -> bool {
        Self::s_link(nodes, i, lvl) % 2 == 1
    }

    spec fn s_val(nodes: Seq<Node<V>>, i: usize) -> V {
        nodes[i as int].value.unwrap()
    }

    /// The level-`lvl` chain, head to tail.
    pub closed spec fn chain(&self, lvl: int) -> Seq<usize> {
        self.links@[lvl]
    }

    /// The key of node `i`.
    pub closed spec fn key_of(&self, i: usize) -> int {
        Self::s_key(self.nodes@, i)
    }

    /// The height of node `i`.
    pub closed spec fn top_of(&self, i: usize) -> int {
        Self::s_top(self.nodes@, i)
    }

    /// The tagged level-`lvl` link of node `i`.
    pub closed spec fn link_of(&self, i: usize, lvl: int) -> usize {
        Self::s_link(self.nodes@, i, lvl)
    }

    /// The node the level-`lvl` link of node `i` points to.
    pub closed spec fn succ_of(&self, i: usize, lvl: int) -> usize {
        Self::s_succ(self.nodes@, i, lvl)
    }

    /// The level-`lvl` deletion mark of node `i`.
    pub closed spec fn mark_of(&self, i: usize, lvl: int) -> bool {
        Self::s_mark(self.nodes@, i, lvl)
    }

    /// The value of node `i`.
    pub closed spec fn val_of(&self, i: usize) -> V {
        Self::s_val(self.nodes@, i)
    }

    pub closed spec fn arena_len(&self) -> int {
        self.nodes@.len() as int
    }

    /// Protected slots handed out by this list's registry so far.
    pub closed spec fn registry_total(&self) -> int {
        self.registry.total_hp_count as int
    }

    #[verifier::opaque]
    spec fn nodes_form(nodes: Seq<Node<V>>) -> bool {
        &&& nodes.len() >= 2
        &&& Self::s_key(nodes, 0) == i128::MIN as int
        &&& Self::s_key(nodes, 1) == i128::MAX as int
        &&& Self::s_top(nodes, 0) == TOP_LEVEL as int
        &&& Self::s_top(nodes, 1) == TOP_LEVEL as int
        &&& nodes[0].value is None
        &&& nodes[1].value is None
        &&& forall|i: int|
            0 <= i < nodes.len() ==> (#[trigger] nodes[i]).next@.len() == LEVELS
                && nodes[i].top_level <= TOP_LEVEL
        &&& forall|i: usize, l: int|
            0 <= i < nodes.len() && 0 <= l < LEVELS ==> (#[trigger] Self::s_succ(nodes, i, l)
                as int) < nodes.len()
        &&& forall|l: int| 0 <= l < LEVELS ==> !(#[trigger] Self::s_mark(nodes, 0, l))
        &&& forall|l: int| 0 <= l < LEVELS ==> !(#[trigger] Self::s_mark(nodes, 1, l))
    }

    #[verifier::opaque]
    spec fn chain_form(nodes: Seq<Node<V>>, c: Seq<usize>, lvl: int) -> bool {
        &&& c.len() >= 2
        &&& c[0] == 0
        &&& c[c.len() - 1] == 1
        &&& forall|p: int| 0 <= p < c.len() ==> (#[trigger] c[p] as int) < nodes.len()
        &&& forall|p: int|
            0 <= p < c.len() - 1 ==> Self::s_succ(nodes, #[trigger] c[p], lvl) == c[p + 1]
        &&& forall|p: int|
            0 <= p < c.len() - 1 ==> Self::s_key(nodes, #[trigger] c[p]) < Self::s_key(
                nodes,
                c[p + 1],
            )
        &&& forall|p: int|
            1 <= p < c.len() - 1 ==> Self::s_top(nodes, #[trigger] c[p]) >= lvl && nodes[
                c[p] as int
            ].value is Some
    }

    spec fn chains_form(nodes: Seq<Node<V>>, links: Seq<Seq<usize>>) -> bool {
        &&& links.len() == LEVELS
        &&& forall|lvl: int|
            0 <= lvl < LEVELS ==> #[trigger] Self::chain_form(nodes, links[lvl], lvl)
    }

    /// Every unmarked member of a chain is also a member of the chain one
    /// level below.
    #[verifier::opaque]
    spec fn subset_form(nodes: Seq<Node<V>>, links: Seq<Seq<usize>>) -> bool {
        forall|lvl: int, x: usize|
            1 <= lvl < LEVELS && #[trigger] links[lvl].contains(x) && !Self::s_mark(
                nodes,
                x,
                lvl - 1,
            ) ==> links[lvl - 1].contains(x)
    }

    /// A node's marked levels form a suffix of its levels: removal marks
    /// top-down, so a mark at a level implies marks at all higher levels.
    #[verifier::opaque]
    spec fn marks_form(nodes: Seq<Node<V>>) -> bool {
        forall|i: usize, a: int, b: int|
            0 <= i < nodes.len() && 0 <= a <= b <= Self::s_top(nodes, i)
                && #[trigger] Self::s_mark(nodes, i, a) ==> #[trigger] Self::s_mark(nodes, i, b)
    }

    /// Retired nodes sit in the arena and are never part of the bottom
    /// chain: retirement happens only after physical unlinking. Every
    /// record of this list's registry has the list's five slots.
    #[verifier::opaque]
    spec fn hpr_form(reg: HprRegistry, nodes: Seq<Node<V>>, links: Seq<Seq<usize>>) -> bool {
        &&& reg.wf()
        &&& forall|i: int|
            0 <= i < reg.records@.len() ==> (#[trigger] reg.records@[i]).hazard_pointers@.len()
                == 5
        &&& forall|n: usize|
            #[trigger] reg.retired(n) ==> (n as int) < nodes.len() && !links[0].contains(n)
    }

    pub closed spec fn wf(&self) -> bool {
        &&& self.head == 0
        &&& self.tail == 1
        &&& Self::nodes_form(self.nodes@)
        &&& Self::chains_form(self.nodes@, self.links@)
        &&& Self::subset_form(self.nodes@, self.links@)
        &&& Self::marks_form(self.nodes@)
        &&& Self::hpr_form(self.registry, self.nodes@, self.links@)
    }

    /// There is an unmarked node with key `k` in the bottom chain.
    #[verifier::opaque]
    spec fn live_form(nodes: Seq<Node<V>>, c0: Seq<usize>, k: int) -> bool {
        exists|p: int|
            1 <= p < c0.len() - 1 && Self::s_key(nodes, #[trigger] c0[p]) == k && !Self::s_mark(
                nodes,
                c0[p],
                0,
            )
    }

    #[verifier::opaque]
    spec fn live_val_form(nodes: Seq<Node<V>>, c0: Seq<usize>, k: int) -> V {
        let p = choose|p: int|
            1 <= p < c0.len() - 1 && Self::s_key(nodes, #[trigger] c0[p]) == k && !Self::s_mark(
                nodes,
                c0[p],
                0,
            );
        Self::s_val(nodes, c0[p])
    }

    /// There is an unmarked bottom-chain node with key `k`.
    pub closed spec fn has_live(&self, k: int) -> bool {
        Self::live_form(self.nodes@, self.links@[0], k)
    }

    pub closed spec fn live_val(&self, k: int) -> V {
        Self::live_val_form(self.nodes@, self.links@[0], k)
    }

    /// The ordered map this list denotes: the key/value pairs of the
    /// unmarked bottom-chain nodes.
    pub closed spec fn view(&self) -> Map<int, V> {
        Self::map_form(self.nodes@, self.links@)
    }

    #[verifier::opaque]
    spec fn map_form(nodes: Seq<Node<V>>, links: Seq<Seq<usize>>) -> Map<int, V> {
        Map::new(
            |k: int| Self::live_form(nodes, links[0], k),
            |k: int| Self::live_val_form(nodes, links[0], k),
        )
    }

    /// Room in the registry's slot counter for the records one traversal
    /// may allocate.
    pub open spec fn hp_headroom(&self) -> bool {
        self.registry_total() + 10 <= u32::MAX as int
    }

    /// Room in the registry's slot counter for a whole mutating operation,
    /// which may traverse more than once.
    pub open spec fn op_headroom(&self) -> bool {
        self.registry_total() + 30 <= u32::MAX as int
    }

    /// The slot counter, for callers checking headroom at run time.
    pub fn registry_slots(&self) -> (t: u32)
        ensures
            t as int == self.registry_total(),
    {
        self.registry.total_hp_count
    }

    /// The arena size, for callers checking headroom at run time.
    pub fn node_count(&self) -> (n: usize)
        ensures
            n as int == self.arena_len(),
    {
        self.nodes.len()
    }

    /// Whether the next operation's preconditions on registry and arena
    /// headroom hold, decided at run time.
    pub fn has_headroom(&self) -> (r: bool)
        ensures
            r == (self.op_headroom() && self.arena_headroom() && self.hp_headroom()),
    {
        let slots_ok: bool = self.registry.total_hp_count <= u32::MAX - 30;
        let arena_ok: bool = self.nodes.len() <= (usize::MAX - 4) / 2;
        proof {
            assert(self.nodes@.len() <= (usize::MAX - 4) / 2 <==> 2 * self.arena_len() + 4
                <= usize::MAX as int) by (nonlinear_arith);
        }
        slots_ok && arena_ok
    }

    /// Room in the arena for one more node and its even handle.
    pub open spec fn arena_headroom(&self) -> bool {
        2 * self.arena_len() + 4 <= usize::MAX as int
    }

    /// Keys strictly increase along a chain, between any two positions.
    proof fn lemma_chain_incr(nodes: Seq<Node<V>>, c: Seq<usize>, lvl: int, p1: int, p2: int)
        requires
            Self::chain_form(nodes, c, lvl),
            0 <= p1 < p2 < c.len(),
        ensures
            Self::s_key(nodes, c[p1]) < Self::s_key(nodes, c[p2]),
        decreases p2 - p1,
    {        reveal(SkipList::chain_form);

        if p1 + 1 < p2 {
            Self::lemma_chain_incr(nodes, c, lvl, p1 + 1, p2);
        }
    }

    /// A chain never repeats a node.
    proof fn lemma_chain_distinct(nodes: Seq<Node<V>>, c: Seq<usize>, lvl: int, p1: int, p2: int)
        requires
            Self::chain_form(nodes, c, lvl),
            0 <= p1 < p2 < c.len(),
        ensures
            c[p1] != c[p2],
    {        reveal(SkipList::chain_form);

        Self::lemma_chain_incr(nodes, c, lvl, p1, p2);
    }

    /// At most one bottom-chain position carries a given key.
    proof fn lemma_live_unique(nodes: Seq<Node<V>>, c0: Seq<usize>, k: int, p1: int, p2: int)
        requires
            Self::chain_form(nodes, c0, 0),
            1 <= p1 < c0.len() - 1,
            1 <= p2 < c0.len() - 1,
            Self::s_key(nodes, c0[p1]) == k,
            Self::s_key(nodes, c0[p2]) == k,
        ensures
            p1 == p2,
    {        reveal(SkipList::chain_form);

        if p1 < p2 {
            Self::lemma_chain_incr(nodes, c0, 0, p1, p2);
        }
        if p2 < p1 {
            Self::lemma_chain_incr(nodes, c0, 0, p2, p1);
        }
    }

    /// An empty list: head and tail sentinels wired together at every
    /// level, and a registry seeded with one record.
    pub fn new() -> (r: SkipList<V>)
        ensures
            r.wf(),
            r@ == Map::<int, V>::empty(),
            r.registry_total() == 5,
            r.arena_len() == 2,
    {
        let mut head_node: Node<V> = Node::new_sentinel(i128::MIN);
        let tail_node: Node<V> = Node::new_sentinel(i128::MAX);
        let mut i: usize = 0;
        while i < LEVELS
            invariant
                i <= LEVELS,
                head_node.next@.len() == LEVELS,
                head_node.key == i128::MIN,
                head_node.value is None,
                head_node.top_level == TOP_LEVEL,
                forall|l: int| 0 <= l < i ==> head_node.next@[l] == 2,
                forall|l: int| i <= l < LEVELS ==> head_node.next@[l] == 0,
            decreases LEVELS - i,
        {
            head_node.next[i] = 2;
            i = i + 1;
        }
        let mut nodes: Vec<Node<V>> = Vec::new();
        nodes.push(head_node);
        nodes.push(tail_node);
        let mut registry: HprRegistry = HprRegistry::new();
        let hp: usize = HazarPointerRecord::allocate_hp_record(&mut registry, 5);
        let ghost chain0: Seq<usize> = seq![0usize, 1usize];
        let ghost links: Seq<Seq<usize>> = Seq::new(LEVELS as nat, |l: int| chain0);
        let r = SkipList { nodes, head: 0, tail: 1, registry, links: Ghost(links) };
        proof {
            reveal(SkipList::nodes_form);
            reveal(SkipList::chain_form);
            reveal(SkipList::subset_form);
            reveal(SkipList::marks_form);
            reveal(SkipList::hpr_form);
            reveal(SkipList::live_form);
            reveal(SkipList::live_val_form);
            reveal(SkipList::map_form);
            assert forall|lvl: int|
                0 <= lvl < LEVELS implies #[trigger] Self::chain_form(
                r.nodes@,
                r.links@[lvl],
                lvl,
            ) by {
                assert(r.links@[lvl] == chain0);
                assert(chain0[0] == 0);
                assert(chain0[1] == 1);
                assert(Self::s_succ(r.nodes@, 0, lvl) == 1);
            }
            assert forall|n: usize| #[trigger] r.registry.retired(n) implies false by {
                let i = choose|i: int|
                    0 <= i < r.registry.records@.len() && (#[trigger] r.registry.records@[
                        i
                    ]).has_retired(n);
            }
            assert(r.wf());
            assert forall|k: int| !r.has_live(k) by {
                if Self::live_form(r.nodes@, r.links@[0], k) {
                    let p = choose|p: int|
                        1 <= p < r.links@[0].len() - 1 && Self::s_key(
                            r.nodes@,
                            #[trigger] r.links@[0][p],
                        ) == k && !Self::s_mark(r.nodes@, r.links@[0][p], 0);
                }
            }
            assert(r@ =~= Map::<int, V>::empty());
        }
        r
    }

    /// `ph` and `sh` are unmarked handles of two adjacent nodes of chain
    /// `c`, with the key between them (pred strictly below, succ at or
    /// above), the successor unmarked, and the predecessor's link exactly
    /// the successor's handle.
    #[verifier::opaque]
    spec fn pair_form(
        nodes: Seq<Node<V>>,
        c: Seq<usize>,
        lvl: int,
        key: int,
        ph: usize,
        sh: usize,
    ) -> bool {
        let pi = (ph / 2) as usize;
        let si = (sh / 2) as usize;
        &&& ph % 2 == 0
        &&& sh % 2 == 0
        &&& (pi as int) < nodes.len()
        &&& (si as int) < nodes.len()
        &&& exists|q: int| 0 <= q < c.len() - 1 && c[q] == pi && #[trigger] c[q + 1] == si
        &&& Self::s_link(nodes, pi, lvl) == sh
        &&& Self::s_key(nodes, pi) < key
        &&& key <= Self::s_key(nodes, si)
        &&& !Self::s_mark(nodes, si, lvl)
    }

    /// The result of a traversal at one level: see `pair_form`.
    pub closed spec fn found_pair(&self, lvl: int, key: int, ph: usize, sh: usize) -> bool {
        Self::pair_form(self.nodes@, self.links@[lvl], lvl, key, ph, sh)
    }

    /// Same node count, keys, values and heights; only links may differ.
    #[verifier::opaque]
    spec fn entries_form(a: Seq<Node<V>>, b: Seq<Node<V>>) -> bool {
        &&& a.len() == b.len()
        &&& forall|i: int|
            0 <= i < a.len() ==> (#[trigger] a[i]).key == b[i].key && a[i].value == b[i].value
                && a[i].top_level == b[i].top_level
    }

    /// Both lists hold the same nodes: same count, keys, values, heights.
    /// Only the links and the registry may differ.
    pub closed spec fn entries_match(&self, other: &Self) -> bool {
        Self::entries_form(self.nodes@, other.nodes@)
    }

    /// Record `i` of this list's registry is held by an operation.
    pub closed spec fn record_active(&self, i: int) -> bool {
        0 <= i < self.registry.records@.len() && self.registry.records@[i].active
    }

    /// `nodes2` is `nodes1` with only the level-`lvl` link of node `pi`
    /// changed.
    spec fn link_update(nodes1: Seq<Node<V>>, nodes2: Seq<Node<V>>, pi: usize, lvl: int) -> bool {
        &&& nodes2.len() == nodes1.len()
        &&& (pi as int) < nodes1.len()
        &&& forall|i: int| 0 <= i < nodes1.len() && i != pi ==> nodes2[i] == nodes1[i]
        &&& nodes2[pi as int].key == nodes1[pi as int].key
        &&& nodes2[pi as int].value == nodes1[pi as int].value
        &&& nodes2[pi as int].top_level == nodes1[pi as int].top_level
        &&& nodes2[pi as int].next@ == nodes1[pi as int].next@.update(
            lvl,
            nodes2[pi as int].next@[lvl],
        )
    }

    proof fn lemma_link_update_frame(
        nodes1: Seq<Node<V>>,
        nodes2: Seq<Node<V>>,
        pi: usize,
        lvl: int,
    )
        requires
            Self::link_update(nodes1, nodes2, pi, lvl),
            0 <= lvl < LEVELS,
            nodes1[pi as int].next@.len() == LEVELS,
        ensures
            forall|x: usize|
                0 <= x < nodes1.len() ==> #[trigger] Self::s_key(nodes2, x) == Self::s_key(
                    nodes1,
                    x,
                ),
            forall|x: usize|
                0 <= x < nodes1.len() ==> #[trigger] Self::s_top(nodes2, x) == Self::s_top(
                    nodes1,
                    x,
                ),
            forall|x: usize|
                0 <= x < nodes1.len() ==> nodes2[x as int].value == nodes1[x as int].value,
            forall|x: usize, l: int|
                0 <= x < nodes1.len() && 0 <= l < LEVELS && !(x == pi && l == lvl)
                    ==> #[trigger] Self::s_link(nodes2, x, l) == Self::s_link(nodes1, x, l),
    {
        assert forall|x: usize, l: int|
            0 <= x < nodes1.len() && 0 <= l < LEVELS && !(x == pi && l == lvl) implies
            #[trigger] Self::s_link(nodes2, x, l) == Self::s_link(nodes1, x, l) by {
            if x == pi {
                assert(nodes2[pi as int].next@[l] == nodes1[pi as int].next@[l]);
            }
        }
    }

    /// What a traversal preserves: well-formedness, the denoted map, the
    /// node entries, and every record another operation holds.
    spec fn trav_frame(pre: SkipList<V>, cur: SkipList<V>) -> bool {
        &&& cur.wf()
        &&& cur@ == pre@
        &&& cur.entries_match(&pre)
        &&& cur.head == pre.head
        &&& cur.tail == pre.tail
        &&& cur.registry_total() <= pre.registry_total() + 5
        &&& forall|i: int| pre.record_active(i) ==> cur.record_active(i)
    }

    /// Nodes collected for retirement: in the arena, off the bottom chain.
    #[verifier::opaque]
    spec fn fc_form(alen: int, c0: Seq<usize>, fc: Seq<usize>) -> bool {
        forall|t: int|
            0 <= t < fc.len() ==> ((#[trigger] fc[t]) as int) < alen && !c0.contains(fc[t])
    }

    spec fn fc_ok(cur: SkipList<V>, fc: Seq<usize>) -> bool {
        Self::fc_form(cur.nodes@.len() as int, cur.links@[0], fc)
    }

    /// A node unmarked at its level of some chain is an unmarked member of
    /// the bottom chain: marks grow upward and unmarked members persist
    /// downward.
    proof fn lemma_unmarked_descends(
        nodes: Seq<Node<V>>,
        links: Seq<Seq<usize>>,
        lvl: int,
        x: usize,
    )
        requires
            Self::nodes_form(nodes),
            Self::chains_form(nodes, links),
            Self::subset_form(nodes, links),
            Self::marks_form(nodes),
            0 <= lvl < LEVELS,
            links[lvl].contains(x),
            !Self::s_mark(nodes, x, lvl),
        ensures
            links[0].contains(x),
            !Self::s_mark(nodes, x, 0),
        decreases lvl,
    {
        reveal(SkipList::marks_form);
        reveal(SkipList::chain_form);
        reveal(SkipList::subset_form);
        reveal(SkipList::nodes_form);
        if lvl > 0 {
            let p = choose|p: int| 0 <= p < links[lvl].len() && links[lvl][p] == x;
            assert(Self::chain_form(nodes, links[lvl], lvl));
            assert((x as int) < nodes.len());
            assert(Self::s_top(nodes, x) >= lvl) by {
                if x == 0 || x == 1 {
                } else {
                    assert(p != 0);
                    assert(p != links[lvl].len() - 1);
                }
            }
            assert(!Self::s_mark(nodes, x, lvl - 1)) by {
                if Self::s_mark(nodes, x, lvl - 1) {
                    assert(Self::s_mark(nodes, x, lvl));
                }
            }
            assert(links[lvl - 1].contains(x));
            Self::lemma_unmarked_descends(nodes, links, lvl - 1, x);
        }
    }

    /// An unmarked bottom-chain node with a user key witnesses a live key.
    proof fn lemma_live_from_member(nodes: Seq<Node<V>>, c0: Seq<usize>, x: usize, k: int)
        requires
            Self::nodes_form(nodes),
            Self::chain_form(nodes, c0, 0),
            c0.contains(x),
            !Self::s_mark(nodes, x, 0),
            Self::s_key(nodes, x) == k,
            i128::MIN < k < i128::MAX,
        ensures
            Self::live_form(nodes, c0, k),
    {        reveal(SkipList::chain_form);
        reveal(SkipList::nodes_form);
        reveal(SkipList::live_form);

        let p = choose|p: int| 0 <= p < c0.len() && c0[p] == x;
        assert(p != 0) by {
            if p == 0 {
                assert(Self::s_key(nodes, c0[0]) == i128::MIN as int);
            }
        }
        assert(p != c0.len() - 1) by {
            if p == c0.len() - 1 {
                assert(Self::s_key(nodes, c0[p]) == i128::MAX as int);
            }
        }
        assert(1 <= p < c0.len() - 1 && Self::s_key(nodes, c0[p]) == k && !Self::s_mark(
            nodes,
            c0[p],
            0,
        ));
    }

    /// Publishes a node in one of the operation's protected slots.
    fn protect_slot(&mut self, hp: usize, slot: usize, node: usize)
        requires
            old(self).wf(),
            old(self).record_active(hp as int),
            slot < 5,
        ensures
            final(self).wf(),
            final(self)@ == old(self)@,
            final(self).nodes == old(self).nodes,
            final(self).links == old(self).links,
            final(self).head == old(self).head,
            final(self).tail == old(self).tail,
            final(self).registry_total() == old(self).registry_total(),
            forall|i: int| old(self).record_active(i) ==> final(self).record_active(i),
            final(self).record_active(hp as int),
            final(self).registry.records@.len() == old(self).registry.records@.len(),
            forall|i: int|
                0 <= i < old(self).registry.records@.len()
                    ==> (#[trigger] final(self).registry.records@[i]).r_list
                    == old(self).registry.records@[i].r_list,
            forall|n: usize|
                (#[trigger] final(self).registry.retired(n)) == old(self).registry.retired(n),
    {
        let ghost pre = *self;
        proof {
            reveal(SkipList::hpr_form);
        }
        HazarPointerRecord::protect(&mut self.registry, hp, slot, node);
        proof {
            reveal(SkipList::hpr_form);
            assert forall|i: int|
                0 <= i < self.registry.records@.len() implies (#[trigger] self.registry.records@[
                i
            ]).r_list == pre.registry.records@[i].r_list by {
            }
            crate::memory_management::lemma_retired_frame(&self.registry, &pre.registry);
            assert forall|n: usize| #[trigger] self.registry.retired(n) implies (n as int)
                < self.nodes@.len() && !self.links@[0].contains(n) by {
                assert(pre.registry.retired(n));
            }
            assert forall|i: int|
                0 <= i < self.registry.records@.len() implies (#[trigger] self.registry.records@[
                i
            ]).hazard_pointers@.len() == 5 by {
                if i != hp {
                    assert(self.registry.records@[i] == pre.registry.records@[i]);
                }
            }
            assert(self.wf());
            assert(self@ == pre@);
        }
    }

    /// Retires a physically unlinked node into the operation's record, with
    /// the aggressive threshold of one retired node per scan. A node is
    /// retired at most once: it leaves the bottom chain exactly once and
    /// never returns, so it can never already sit in a retired set.
    fn retire_unlinked(&mut self, hp: usize, node: usize)
        requires
            old(self).wf(),
            old(self).record_active(hp as int),
            (node as int) < old(self).arena_len(),
            !old(self).chain(0).contains(node),
            !old(self).registry.retired(node),
        ensures
            forall|n: usize|
                (#[trigger] final(self).registry.retired(n)) ==> old(self).registry.retired(n)
                    || n == node,
            final(self).wf(),
            final(self)@ == old(self)@,
            final(self).nodes == old(self).nodes,
            final(self).links == old(self).links,
            final(self).head == old(self).head,
            final(self).tail == old(self).tail,
            final(self).registry_total() == old(self).registry_total(),
            forall|i: int| old(self).record_active(i) ==> final(self).record_active(i),
            final(self).record_active(hp as int),
    {
        let ghost pre = *self;
        proof {
            reveal(SkipList::hpr_form);
        }
        let freed: Vec<usize> = HazarPointerRecord::retire_node(&mut self.registry, hp, node, 1);
        proof {
            reveal(SkipList::hpr_form);
            assert forall|n: usize| #[trigger] self.registry.retired(n) implies (n as int)
                < self.nodes@.len() && !self.links@[0].contains(n) by {
                assert(pre.registry.retired(n) || n == node);
            }
            assert forall|i: int|
                0 <= i < self.registry.records@.len() implies (#[trigger] self.registry.records@[
                i
            ]).hazard_pointers@.len() == 5 by {
                assert(self.registry.records@[i].hazard_pointers == pre.registry.records@[
                    i
                ].hazard_pointers);
            }
            assert forall|i: int| pre.record_active(i) implies self.record_active(i) by {
                assert(self.registry.records@[i].active == pre.registry.records@[i].active);
            }
            assert(self.wf());
            assert(self@ == pre@);
        }
    }

    /// Acquires a hazard-pointer record for one operation.
    fn enter(&mut self) -> (hp: usize)
        requires
            old(self).wf(),
            old(self).registry_total() + 5 <= u32::MAX as int,
        ensures
            final(self).wf(),
            final(self)@ == old(self)@,
            final(self).nodes == old(self).nodes,
            final(self).links == old(self).links,
            final(self).head == old(self).head,
            final(self).tail == old(self).tail,
            final(self).registry_total() <= old(self).registry_total() + 5,
            hp < final(self).registry.records@.len(),
            final(self).registry.records@[hp as int].active,
            final(self).registry.records@[hp as int].hazard_pointers@.len() == 5,
            final(self).record_active(hp as int),
            !old(self).record_active(hp as int),
            forall|i: int| old(self).record_active(i) ==> final(self).record_active(i),
            forall|n: usize|
                (#[trigger] final(self).registry.retired(n)) == old(self).registry.retired(n),
    {
        let ghost pre = *self;
        proof {
            reveal(SkipList::hpr_form);
        }
        let hp: usize = HazarPointerRecord::allocate_hp_record(&mut self.registry, 5);
        proof {
            reveal(SkipList::hpr_form);
            assert forall|n: usize| #[trigger] self.registry.retired(n) implies (n as int)
                < self.nodes@.len() && !self.chain(0).contains(n) by {
                let i = choose|i: int|
                    0 <= i < self.registry.records@.len() && (#[trigger] self.registry.records@[
                        i
                    ]).has_retired(n);
                assert(i < pre.registry.records@.len());
                assert((pre.registry.records@[i]).has_retired(n));
                assert(pre.registry.retired(n));
            }
            assert forall|i: int|
                0 <= i < self.registry.records@.len() implies (#[trigger] self.registry.records@[
                i
            ]).hazard_pointers@.len() == 5 by {
                if i < pre.registry.records@.len() && i != hp {
                    assert(self.registry.records@[i] == pre.registry.records@[i]);
                }
            }
            assert forall|n: usize|
                (#[trigger] self.registry.retired(n)) == pre.registry.retired(n) by {
                if self.registry.retired(n) {
                    let i = choose|i: int|
                        0 <= i < self.registry.records@.len() && (
                        #[trigger] self.registry.records@[i]).has_retired(n);
                    assert(i < pre.registry.records@.len());
                    assert((pre.registry.records@[i]).has_retired(n));
                }
                if pre.registry.retired(n) {
                    let i = choose|i: int|
                        0 <= i < pre.registry.records@.len() && (
                        #[trigger] pre.registry.records@[i]).has_retired(n);
                    assert((self.registry.records@[i]).has_retired(n));
                }
            }
            assert(self.wf());
            assert(self@ == pre@);
        }
        hp
    }

    /// Releases the operation's hazard-pointer record.
    fn exit(&mut self, hp_record: usize)
        requires
            old(self).wf(),
            hp_record < old(self).registry.records@.len(),
        ensures
            final(self).wf(),
            final(self)@ == old(self)@,
            final(self).nodes == old(self).nodes,
            final(self).links == old(self).links,
            final(self).head == old(self).head,
            final(self).tail == old(self).tail,
            final(self).registry_total() == old(self).registry_total(),
            final(self).registry.records@.len() == old(self).registry.records@.len(),
            forall|i: int|
                old(self).record_active(i) && i != hp_record ==> final(self).record_active(i),
    {
        let ghost pre = *self;
        proof {
            reveal(SkipList::hpr_form);
        }
        HazarPointerRecord::retire_hp_record(&mut self.registry, hp_record);
        proof {
            reveal(SkipList::hpr_form);
            assert forall|i: int|
                0 <= i < self.registry.records@.len() implies (#[trigger] self.registry.records@[
                i
            ]).r_list == pre.registry.records@[i].r_list by {
            }
            crate::memory_management::lemma_retired_frame(&self.registry, &pre.registry);
            assert forall|n: usize| #[trigger] self.registry.retired(n) implies (n as int)
                < self.nodes@.len() && !self.chain(0).contains(n) by {
                assert(pre.registry.retired(n));
            }
            assert forall|i: int|
                0 <= i < self.registry.records@.len() implies (#[trigger] self.registry.records@[
                i
            ]).hazard_pointers@.len() == 5 by {
                if i != hp_record {
                    assert(self.registry.records@[i] == pre.registry.records@[i]);
                }
            }
            assert(self.wf());
            assert(self@ == pre@);
        }
    }

    /// Removing a marked node from the bottom chain does not change the
    /// live keys or their values.
    proof fn lemma_live_remove(
        nodes1: Seq<Node<V>>,
        nodes2: Seq<Node<V>>,
        c: Seq<usize>,
        q1: int,
        k: int,
    )
        requires
            Self::chain_form(nodes1, c, 0),
            0 < q1 < c.len() - 1,
            Self::s_mark(nodes1, c[q1], 0),
            nodes2.len() == nodes1.len(),
            forall|x: usize|
                0 <= x < nodes1.len() ==> #[trigger] Self::s_key(nodes2, x) == Self::s_key(
                    nodes1,
                    x,
                ),
            forall|x: usize|
                0 <= x < nodes1.len() ==> #[trigger] Self::s_mark(nodes2, x, 0) == Self::s_mark(
                    nodes1,
                    x,
                    0,
                ),
            forall|x: usize|
                0 <= x < nodes1.len() ==> nodes2[x as int].value == nodes1[x as int].value,
        ensures
            Self::live_form(nodes2, c.remove(q1), k) == Self::live_form(nodes1, c, k),
            Self::live_form(nodes1, c, k) ==> Self::live_val_form(nodes2, c.remove(q1), k)
                == Self::live_val_form(nodes1, c, k),
    {        reveal(SkipList::chain_form);
        reveal(SkipList::live_form);
        reveal(SkipList::live_val_form);

        let c2 = c.remove(q1);
        assert(c2.len() == c.len() - 1);
        assert(forall|j: int|
            0 <= j < c2.len() ==> c2[j] == (if j < q1 {
                c[j]
            } else {
                c[j + 1]
            }));
        if Self::live_form(nodes2, c2, k) {
            let p2 = choose|p: int|
                1 <= p < c2.len() - 1 && Self::s_key(nodes2, #[trigger] c2[p]) == k
                    && !Self::s_mark(nodes2, c2[p], 0);
            let p = if p2 < q1 {
                p2
            } else {
                p2 + 1
            };
            assert(c[p] == c2[p2]);
            assert(1 <= p < c.len() - 1 && Self::s_key(nodes1, c[p]) == k && !Self::s_mark(
                nodes1,
                c[p],
                0,
            ));
            assert(Self::live_form(nodes1, c, k));
        }
        if Self::live_form(nodes1, c, k) {
            let p = choose|p: int|
                1 <= p < c.len() - 1 && Self::s_key(nodes1, #[trigger] c[p]) == k
                    && !Self::s_mark(nodes1, c[p], 0);
            assert(p != q1);
            let p2 = if p < q1 {
                p
            } else {
                p - 1
            };
            assert(c2[p2] == c[p]);
            assert(1 <= p2 < c2.len() - 1 && Self::s_key(nodes2, c2[p2]) == k && !Self::s_mark(
                nodes2,
                c2[p2],
                0,
            ));
            assert(Self::live_form(nodes2, c2, k));
            let pa = choose|p: int|
                1 <= p < c.len() - 1 && Self::s_key(nodes1, #[trigger] c[p]) == k
                    && !Self::s_mark(nodes1, c[p], 0);
            let pb = choose|p: int|
                1 <= p < c2.len() - 1 && Self::s_key(nodes2, #[trigger] c2[p]) == k
                    && !Self::s_mark(nodes2, c2[p], 0);
            let pb_in_c = if pb < q1 {
                pb
            } else {
                pb + 1
            };
            assert(c[pb_in_c] == c2[pb]);
            assert(Self::s_key(nodes1, c[pb_in_c]) == k);
            Self::lemma_live_unique(nodes1, c, k, pa, pb_in_c);
            assert(Self::live_val_form(nodes2, c2, k) == Self::s_val(nodes2, c2[pb]));
            assert(Self::live_val_form(nodes1, c, k) == Self::s_val(nodes1, c[pa]));
            assert(Self::s_val(nodes2, c2[pb]) == Self::s_val(nodes1, c[pa]));
        }
    }

    /// One physical unlink: swings the predecessor's level-`lvl` link past
    /// the marked node to its successor. The chain loses exactly the marked
    /// node; the denoted map is unchanged.
    #[verifier::rlimit(100)]
    #[verifier::spinoff_prover]
    fn unlink_step(
        &mut self,
        lvl: usize,
        pred_h: usize,
        curr_h: usize,
        succ_h: usize,
        key: KeyType,
        Ghost(orig): Ghost<SkipList<V>>,
        Ghost(qpos): Ghost<int>,
    )
        requires
            Self::trav_frame(orig, *old(self)),
            lvl < LEVELS,
            pred_h % 2 == 0,
            curr_h % 2 == 0,
            succ_h % 2 == 0,
            0 <= qpos,
            qpos + 1 < old(self).chain(lvl as int).len(),
            old(self).chain(lvl as int)[qpos] == (pred_h / 2) as usize,
            old(self).chain(lvl as int)[qpos + 1] == (curr_h / 2) as usize,
            old(self).link_of((pred_h / 2) as usize, lvl as int) == curr_h,
            old(self).link_of((curr_h / 2) as usize, lvl as int) == succ_h + 1,
            old(self).key_of((pred_h / 2) as usize) < key as int,
        ensures
            Self::trav_frame(orig, *final(self)),
            final(self).chain(lvl as int).len() == old(self).chain(lvl as int).len() - 1,
            qpos + 1 < final(self).chain(lvl as int).len(),
            final(self).chain(lvl as int)[qpos] == (pred_h / 2) as usize,
            final(self).chain(lvl as int)[qpos + 1] == (succ_h / 2) as usize,
            final(self).link_of((pred_h / 2) as usize, lvl as int) == succ_h,
            final(self).key_of((pred_h / 2) as usize) < key as int,
            forall|l: int, ph: usize, sh: usize|
                0 <= l < LEVELS && l != lvl && #[trigger] Self::pair_form(
                    old(self).nodes@,
                    old(self).links@[l],
                    l,
                    key as int,
                    ph,
                    sh,
                ) ==> Self::pair_form(final(self).nodes@, final(self).links@[l], l, key as int, ph, sh),
            forall|n: usize|
                #[trigger] final(self).chain(0).contains(n) ==> old(self).chain(0).contains(n),
            lvl == 0 ==> !final(self).chain(0).contains((curr_h / 2) as usize),
            final(self).registry == old(self).registry,
            forall|i: int| old(self).record_active(i) ==> final(self).record_active(i),
            final(self).arena_len() == old(self).arena_len(),
    {
        let pred_i: usize = pred_h / 2;
        let ghost curr_i = (curr_h / 2) as usize;
        proof {
            assert((pred_i as int) < self.arena_len() && self.nodes@[pred_i as int].next@.len()
                == LEVELS && qpos + 2 < self.chain(lvl as int).len() && self.chain(
                lvl as int,
            )[qpos + 2] == (succ_h / 2) as usize) by {
                reveal(SkipList::nodes_form);
                reveal(SkipList::chain_form);
                assert(Self::chain_form(self.nodes@, self.links@[lvl as int], lvl as int));
                assert(self.mark_of(curr_i, lvl as int));
                assert(curr_i != 1usize) by {
                    assert(!self.mark_of(1usize, lvl as int));
                }
                assert(qpos + 1 != self.chain(lvl as int).len() - 1);
                assert(self.chain(lvl as int)[qpos + 2] == self.succ_of(curr_i, lvl as int));
                assert((succ_h / 2) as usize == self.succ_of(curr_i, lvl as int));
            }
        }
        let expected: usize = self.nodes[pred_i].next[lvl];
        proof {
            assert(expected == curr_h);
        }
        let ghost before = *self;
        let ghost c_old = self.chain(lvl as int);
        self.nodes[pred_i].next[lvl] = succ_h;
        proof {
            self.links = Ghost(before.links@.update(lvl as int, c_old.remove(qpos + 1)));
            Self::lemma_unlink_restore(
                before,
                *self,
                orig,
                lvl as int,
                qpos,
                pred_h,
                curr_h,
                succ_h,
                key as int,
            );
            assert forall|i: int| old(self).record_active(i) implies self.record_active(i) by {
            }
            if lvl == 0 {
                assert(!self.chain(0).contains(curr_i)) by {
                    reveal(SkipList::chain_form);
                    if self.chain(0).contains(curr_i) {
                        let pp = choose|p: int|
                            0 <= p < self.chain(0).len() && self.chain(0)[p] == curr_i;
                        let c2 = before.links@[0].remove(qpos + 1);
                        assert(self.chain(0) == c2);
                        let p_old = if pp < qpos + 1 {
                            pp
                        } else {
                            pp + 1
                        };
                        assert(before.links@[0][p_old] == curr_i);
                        assert(before.links@[0][qpos + 1] == curr_i);
                        assert(Self::chain_form(before.nodes@, before.links@[0], 0));
                        if p_old < qpos + 1 {
                            Self::lemma_chain_distinct(
                                before.nodes@,
                                before.links@[0],
                                0,
                                p_old,
                                qpos + 1,
                            );
                        } else {
                            Self::lemma_chain_distinct(
                                before.nodes@,
                                before.links@[0],
                                0,
                                qpos + 1,
                                p_old,
                            );
                        }
                    }
                }
            }
        }
    }

    /// Inserting an unmarked node with a fresh key between two adjacent
    /// bottom-chain nodes adds exactly that key to the live map.
    #[verifier::rlimit(100)]
    #[verifier::spinoff_prover]
    proof fn lemma_live_insert(
        nodes1: Seq<Node<V>>,
        nodes2: Seq<Node<V>>,
        c: Seq<usize>,
        q1: int,
        x: usize,
        k: int,
    )
        requires
            Self::chain_form(nodes1, c, 0),
            1 <= q1 <= c.len() - 1,
            !Self::live_form(nodes1, c, k),
            nodes2.len() >= nodes1.len(),
            (x as int) < nodes2.len(),
            Self::s_key(nodes2, x) == k,
            !Self::s_mark(nodes2, x, 0),
            forall|y: usize|
                0 <= y < nodes1.len() ==> #[trigger] Self::s_key(nodes2, y) == Self::s_key(
                    nodes1,
                    y,
                ),
            forall|y: usize|
                0 <= y < nodes1.len() ==> #[trigger] Self::s_mark(nodes2, y, 0) == Self::s_mark(
                    nodes1,
                    y,
                    0,
                ),
            forall|y: usize|
                0 <= y < nodes1.len() ==> nodes2[y as int].value == nodes1[y as int].value,
        ensures
            forall|k2: int|
                #[trigger] Self::live_form(nodes2, c.insert(q1, x), k2) == (Self::live_form(
                    nodes1,
                    c,
                    k2,
                ) || k2 == k),
            Self::live_val_form(nodes2, c.insert(q1, x), k) == Self::s_val(nodes2, x),
            forall|k2: int|
                k2 != k && Self::live_form(nodes1, c, k2) ==> #[trigger] Self::live_val_form(
                    nodes2,
                    c.insert(q1, x),
                    k2,
                ) == Self::live_val_form(nodes1, c, k2),
    {
        reveal(SkipList::chain_form);
        reveal(SkipList::live_form);
        reveal(SkipList::live_val_form);
        let c2 = c.insert(q1, x);
        c.insert_ensures(q1, x);
        assert(c2.len() == c.len() + 1);
        assert(forall|j: int| 0 <= j < q1 ==> #[trigger] c2[j] == c[j]);
        assert(c2[q1] == x);
        assert(forall|j: int| q1 < j < c2.len() ==> #[trigger] c2[j] == c[j - 1]);
        assert(1 <= q1 < c2.len() - 1 && Self::s_key(nodes2, c2[q1]) == k && !Self::s_mark(
            nodes2,
            c2[q1],
            0,
        ));
        assert(Self::live_form(nodes2, c2, k));
        assert forall|k2: int|
            #[trigger] Self::live_form(nodes2, c2, k2) == (Self::live_form(nodes1, c, k2) || k2
                == k) by {
            if Self::live_form(nodes2, c2, k2) && k2 != k {
                let p2 = choose|p: int|
                    1 <= p < c2.len() - 1 && Self::s_key(nodes2, #[trigger] c2[p]) == k2
                        && !Self::s_mark(nodes2, c2[p], 0);
                assert(p2 != q1);
                let p = if p2 < q1 {
                    p2
                } else {
                    p2 - 1
                };
                assert(c[p] == c2[p2]);
                assert(1 <= p < c.len() - 1 && Self::s_key(nodes1, c[p]) == k2 && !Self::s_mark(
                    nodes1,
                    c[p],
                    0,
                ));
            }
            if Self::live_form(nodes1, c, k2) {
                let p = choose|p: int|
                    1 <= p < c.len() - 1 && Self::s_key(nodes1, #[trigger] c[p]) == k2
                        && !Self::s_mark(nodes1, c[p], 0);
                let p2 = if p < q1 {
                    p
                } else {
                    p + 1
                };
                assert(c2[p2] == c[p]);
                assert(1 <= p2 < c2.len() - 1 && Self::s_key(nodes2, c2[p2]) == k2
                    && !Self::s_mark(nodes2, c2[p2], 0));
            }
        }
        assert(Self::live_val_form(nodes2, c2, k) == Self::s_val(nodes2, x)) by {
            let pv = choose|p: int|
                1 <= p < c2.len() - 1 && Self::s_key(nodes2, #[trigger] c2[p]) == k
                    && !Self::s_mark(nodes2, c2[p], 0);
            if pv != q1 {
                let p = if pv < q1 {
                    pv
                } else {
                    pv - 1
                };
                assert(c[p] == c2[pv]);
                assert(1 <= p < c.len() - 1 && Self::s_key(nodes1, c[p]) == k && !Self::s_mark(
                    nodes1,
                    c[p],
                    0,
                ));
                assert(Self::live_form(nodes1, c, k));
            }
        }
        assert forall|k2: int|
            k2 != k && Self::live_form(nodes1, c, k2) implies #[trigger] Self::live_val_form(
                nodes2,
                c2,
                k2,
            ) == Self::live_val_form(nodes1, c, k2) by {
            let pa = choose|p: int|
                1 <= p < c.len() - 1 && Self::s_key(nodes1, #[trigger] c[p]) == k2
                    && !Self::s_mark(nodes1, c[p], 0);
            assert(Self::live_form(nodes2, c2, k2));
            let pb = choose|p: int|
                1 <= p < c2.len() - 1 && Self::s_key(nodes2, #[trigger] c2[p]) == k2
                    && !Self::s_mark(nodes2, c2[p], 0);
            assert(pb != q1);
            let pb_in_c = if pb < q1 {
                pb
            } else {
                pb - 1
            };
            assert(c[pb_in_c] == c2[pb]);
            assert(Self::s_key(nodes1, c[pb_in_c]) == k2);
            Self::lemma_live_unique(nodes1, c, k2, pa, pb_in_c);
        }
    }

    /// Linking a fresh node into the level-`lvl` chain between the found
    /// pair restores every invariant; at the bottom level it adds the new
    /// key to the map, above it leaves the map unchanged.
    #[verifier::rlimit(100)]
    #[verifier::spinoff_prover]
    proof fn lemma_insert_restore_struct(
        pre: SkipList<V>,
        post: SkipList<V>,
        lvl: int,
        q: int,
        pred_h: usize,
        succ_h: usize,
        idx: usize,
        key: int,
    )
        requires
            pre.wf(),
            0 <= lvl < LEVELS,
            pred_h % 2 == 0,
            succ_h % 2 == 0,
            0 <= q,
            q + 1 < pre.links@[lvl].len(),
            pre.links@[lvl][q] == (pred_h / 2) as usize,
            pre.links@[lvl][q + 1] == (succ_h / 2) as usize,
            Self::s_link(pre.nodes@, (pred_h / 2) as usize, lvl) == succ_h,
            Self::s_key(pre.nodes@, (pred_h / 2) as usize) < key,
            key < Self::s_key(pre.nodes@, (succ_h / 2) as usize),
            (idx as int) < pre.nodes@.len(),
            !pre.registry.retired(idx),
            idx != (pred_h / 2) as usize,
            Self::s_key(pre.nodes@, idx) == key,
            pre.nodes@[idx as int].value is Some,
            Self::s_top(pre.nodes@, idx) >= lvl,
            Self::s_link(pre.nodes@, idx, lvl) == succ_h,
            forall|l2: int| 0 <= l2 < LEVELS ==> !(#[trigger] Self::s_mark(pre.nodes@, idx, l2)),
            !pre.links@[lvl].contains(idx),
            lvl >= 1 ==> pre.links@[lvl - 1].contains(idx),
            lvl == 0 ==> !Self::live_form(pre.nodes@, pre.links@[0], key),
            i128::MIN < key < i128::MAX,
            post.nodes@.len() == pre.nodes@.len(),
            Self::link_update(pre.nodes@, post.nodes@, (pred_h / 2) as usize, lvl),
            Self::s_link(post.nodes@, (pred_h / 2) as usize, lvl) == 2 * idx,
            post.links@ == pre.links@.update(lvl, pre.links@[lvl].insert(q + 1, idx)),
            post.registry == pre.registry,
            post.head == pre.head,
            post.tail == pre.tail,
        ensures
            post.wf(),
            post.links@[lvl] == pre.links@[lvl].insert(q + 1, idx),
            post.links@[lvl].contains(idx),
            forall|l: int| 0 <= l < LEVELS && l != lvl ==> post.links@[l] == pre.links@[l],
    {
        let pi = (pred_h / 2) as usize;
        let si = (succ_h / 2) as usize;
        let n1 = pre.nodes@;
        let n2 = post.nodes@;
        let c = pre.links@[lvl];
        let c2 = c.insert(q + 1, idx);
        assert(n1[pi as int].next@.len() == LEVELS) by {
            reveal(SkipList::nodes_form);
        }
        Self::lemma_link_update_frame(n1, n2, pi, lvl);
        c.insert_ensures(q + 1, idx);
        assert(Self::chain_form(n1, c, lvl));
        assert(forall|j: int| 0 <= j < q + 1 ==> #[trigger] c2[j] == c[j]);
        assert(c2[q + 1] == idx);
        assert(forall|j: int| q + 1 < j < c2.len() ==> #[trigger] c2[j] == c[j - 1]);
        assert(forall|j: int| 0 <= j < q + 1 ==> #[trigger] c2[j] == c[j]);
        assert(c2[q + 1] == idx);
        assert(forall|j: int| q + 1 < j < c2.len() ==> #[trigger] c2[j] == c[j - 1]);
        assert forall|p: int| 0 <= p < c.len() && p != q implies c[p] != pi by {
            if p < q {
                Self::lemma_chain_distinct(n1, c, lvl, p, q);
            } else {
                Self::lemma_chain_distinct(n1, c, lvl, q, p);
            }
        }
        assert(Self::chain_form(n2, c2, lvl)) by {
            reveal(SkipList::chain_form);
            assert(c2[0] == c[0]);
            assert(c2[c2.len() - 1] == c[c.len() - 1]);
            assert forall|p: int| 0 <= p < c2.len() implies (#[trigger] c2[p] as int)
                < n2.len() by {
                if p < q + 1 {
                    assert(c2[p] == c[p]);
                } else if p > q + 1 {
                    assert(c2[p] == c[p - 1]);
                }
            }
            assert forall|p: int|
                0 <= p < c2.len() - 1 implies Self::s_succ(n2, #[trigger] c2[p], lvl) == c2[p
                + 1] by {
                if p == q {
                    assert(c2[p] == pi && c2[p + 1] == idx);
                    assert(Self::s_link(n2, pi, lvl) == 2 * idx);
                } else if p == q + 1 {
                    assert(c2[p] == idx && c2[p + 1] == c[q + 1]);
                    assert(n2[idx as int] == n1[idx as int]);
                    assert(Self::s_link(n2, idx, lvl) == succ_h);
                } else if p < q {
                    assert(c2[p] == c[p] && c2[p + 1] == c[p + 1]);
                    assert(c[p] != pi);
                    assert(n2[c[p] as int] == n1[c[p] as int]);
                } else {
                    assert(c2[p] == c[p - 1] && c2[p + 1] == c[p]);
                    assert(c[p - 1] != pi);
                    assert(n2[c[p - 1] as int] == n1[c[p - 1] as int]);
                }
            }
            assert forall|p: int|
                0 <= p < c2.len() - 1 implies Self::s_key(n2, #[trigger] c2[p]) < Self::s_key(
                    n2,
                    c2[p + 1],
                ) by {
                if p == q {
                } else if p == q + 1 {
                } else if p < q {
                    assert(Self::s_key(n1, c[p]) < Self::s_key(n1, c[p + 1]));
                } else {
                    assert(Self::s_key(n1, c[p - 1]) < Self::s_key(n1, c[p]));
                }
            }
            assert forall|p: int|
                1 <= p < c2.len() - 1 implies Self::s_top(n2, #[trigger] c2[p]) >= lvl && n2[
                c2[p] as int
            ].value is Some by {
                if p == q + 1 {
                    assert(n2[idx as int] == n1[idx as int]);
                } else if p < q + 1 {
                    assert(c2[p] == c[p]);
                } else {
                    assert(c2[p] == c[p - 1]);
                }
            }
        }
        assert forall|l: int|
            0 <= l < LEVELS && l != lvl implies #[trigger] Self::chain_form(
            n2,
            post.links@[l],
            l,
        ) by {
            reveal(SkipList::chain_form);
            let cl = pre.links@[l];
            assert(post.links@[l] == cl);
            assert(Self::chain_form(n1, cl, l));
            assert forall|p: int|
                0 <= p < cl.len() - 1 implies Self::s_succ(n2, #[trigger] cl[p], l) == cl[p
                + 1] by {
                assert(Self::s_link(n2, cl[p], l) == Self::s_link(n1, cl[p], l));
            }
            assert forall|p: int|
                0 <= p < cl.len() - 1 implies Self::s_key(n2, #[trigger] cl[p]) < Self::s_key(
                    n2,
                    cl[p + 1],
                ) by {
                assert(Self::s_key(n1, cl[p]) < Self::s_key(n1, cl[p + 1]));
            }
            assert forall|p: int|
                1 <= p < cl.len() - 1 implies Self::s_top(n2, #[trigger] cl[p]) >= l && n2[
                cl[p] as int
            ].value is Some by {
                assert(Self::s_top(n1, cl[p]) >= l && n1[cl[p] as int].value is Some);
            }
        }
        assert(Self::chains_form(n2, post.links@));
        assert(Self::nodes_form(n2)) by {
            reveal(SkipList::nodes_form);
            assert(n2.len() >= 2);
        assert(Self::s_key(n2, 0usize) == i128::MIN as int);
        assert(Self::s_key(n2, 1usize) == i128::MAX as int);
        assert(Self::s_top(n2, 0usize) == TOP_LEVEL as int);
        assert(Self::s_top(n2, 1usize) == TOP_LEVEL as int);
        assert(n2[0].value is None);
        assert(n2[1].value is None);
        assert(forall|i: int|
            0 <= i < n2.len() ==> (#[trigger] n2[i]).next@.len() == LEVELS && n2[i].top_level
                <= TOP_LEVEL);
        assert forall|i: usize, l: int|
            0 <= i < n2.len() && 0 <= l < LEVELS implies ((#[trigger] Self::s_succ(n2, i, l))
            as int) < n2.len() by {
            if i == pi && l == lvl {
                assert(Self::s_succ(n2, pi, lvl) == idx);
            } else {
                assert(Self::s_link(n2, i, l) == Self::s_link(n1, i, l));
                assert((Self::s_succ(n1, i, l) as int) < n1.len());
            }
        }
        assert forall|l: int| 0 <= l < LEVELS implies !(#[trigger] Self::s_mark(n2, 0, l)) by {
            assert(!Self::s_mark(n1, 0usize, l));
            if pi == 0 && l == lvl {
                assert(Self::s_link(n2, 0usize, l) == 2 * idx);
            } else {
                assert(Self::s_link(n2, 0usize, l) == Self::s_link(n1, 0usize, l));
            }
        }
        assert forall|l: int| 0 <= l < LEVELS implies !(#[trigger] Self::s_mark(n2, 1, l)) by {
            assert(!Self::s_mark(n1, 1usize, l));
            if pi == 1 && l == lvl {
                assert(Self::s_link(n2, 1usize, l) == 2 * idx);
            } else {
                assert(Self::s_link(n2, 1usize, l) == Self::s_link(n1, 1usize, l));
            }
        }
        }
        assert(Self::marks_form(n2)) by {
            reveal(SkipList::marks_form);
            reveal(SkipList::nodes_form);
            assert forall|i: usize, a: int, b: int|
                0 <= i < n2.len() && 0 <= a <= b <= Self::s_top(n2, i) && #[trigger] Self::s_mark(
                    n2,
                    i,
                    a,
                ) implies #[trigger] Self::s_mark(n2, i, b) by {
                assert(Self::s_top(n2, i) == Self::s_top(n1, i));
                assert(Self::s_top(n1, i) <= TOP_LEVEL as int);
                assert(Self::s_mark(n2, i, a) == Self::s_mark(n1, i, a)) by {
                    if i == pi && a == lvl {
                        assert(Self::s_link(n2, pi, lvl) == 2 * idx);
                        assert(Self::s_link(n1, pi, lvl) == succ_h);
                    }
                }
                assert(Self::s_mark(n1, i, b));
                assert(Self::s_mark(n2, i, b) == Self::s_mark(n1, i, b)) by {
                    if i == pi && b == lvl {
                        assert(Self::s_link(n2, pi, lvl) == 2 * idx);
                        assert(Self::s_link(n1, pi, lvl) == succ_h);
                    }
                }
            }
        }
        Self::lemma_insert_restore_aux(pre, post, lvl, q, pred_h, succ_h, idx, key);
        assert(post.wf());
    }

    /// Companion to `lemma_insert_restore_struct`: the subset and
    /// reclamation invariants after linking the fresh node in.
    #[verifier::rlimit(100)]
    #[verifier::spinoff_prover]
    proof fn lemma_insert_restore_aux(
        pre: SkipList<V>,
        post: SkipList<V>,
        lvl: int,
        q: int,
        pred_h: usize,
        succ_h: usize,
        idx: usize,
        key: int,
    )
        requires
            pre.wf(),
            0 <= lvl < LEVELS,
            pred_h % 2 == 0,
            succ_h % 2 == 0,
            0 <= q,
            q + 1 < pre.links@[lvl].len(),
            pre.links@[lvl][q] == (pred_h / 2) as usize,
            pre.links@[lvl][q + 1] == (succ_h / 2) as usize,
            Self::s_link(pre.nodes@, (pred_h / 2) as usize, lvl) == succ_h,
            Self::s_key(pre.nodes@, (pred_h / 2) as usize) < key,
            key < Self::s_key(pre.nodes@, (succ_h / 2) as usize),
            (idx as int) < pre.nodes@.len(),
            !pre.registry.retired(idx),
            idx != (pred_h / 2) as usize,
            Self::s_key(pre.nodes@, idx) == key,
            pre.nodes@[idx as int].value is Some,
            Self::s_top(pre.nodes@, idx) >= lvl,
            Self::s_link(pre.nodes@, idx, lvl) == succ_h,
            forall|l2: int| 0 <= l2 < LEVELS ==> !(#[trigger] Self::s_mark(pre.nodes@, idx, l2)),
            !pre.links@[lvl].contains(idx),
            lvl >= 1 ==> pre.links@[lvl - 1].contains(idx),
            lvl == 0 ==> !Self::live_form(pre.nodes@, pre.links@[0], key),
            i128::MIN < key < i128::MAX,
            post.nodes@.len() == pre.nodes@.len(),
            Self::link_update(pre.nodes@, post.nodes@, (pred_h / 2) as usize, lvl),
            Self::s_link(post.nodes@, (pred_h / 2) as usize, lvl) == 2 * idx,
            post.links@ == pre.links@.update(lvl, pre.links@[lvl].insert(q + 1, idx)),
            post.registry == pre.registry,
            post.head == pre.head,
            post.tail == pre.tail,
        ensures
            Self::subset_form(post.nodes@, post.links@),
            Self::hpr_form(post.registry, post.nodes@, post.links@),
    {
        let pi = (pred_h / 2) as usize;
        let si = (succ_h / 2) as usize;
        let n1 = pre.nodes@;
        let n2 = post.nodes@;
        let c = pre.links@[lvl];
        let c2 = c.insert(q + 1, idx);
        assert(n1[pi as int].next@.len() == LEVELS) by {
            reveal(SkipList::nodes_form);
        }
        Self::lemma_link_update_frame(n1, n2, pi, lvl);
        c.insert_ensures(q + 1, idx);
        assert(Self::chain_form(n1, c, lvl));
        assert(forall|j: int| 0 <= j < q + 1 ==> #[trigger] c2[j] == c[j]);
        assert(c2[q + 1] == idx);
        assert(forall|j: int| q + 1 < j < c2.len() ==> #[trigger] c2[j] == c[j - 1]);
        assert(Self::subset_form(n2, post.links@)) by {
            reveal(SkipList::subset_form);
            reveal(SkipList::chain_form);
            assert forall|l: int, x: usize|
                1 <= l < LEVELS && #[trigger] post.links@[l].contains(x) && !Self::s_mark(
                    n2,
                    x,
                    l - 1,
                ) implies post.links@[l - 1].contains(x) by {
                if l == lvl {
                    let p = choose|p: int| 0 <= p < c2.len() && c2[p] == x;
                    if p == q + 1 {
                        assert(x == idx);
                        assert(pre.links@[l - 1].contains(idx));
                        assert(post.links@[l - 1] == pre.links@[l - 1]);
                    } else {
                        let p_old = if p < q + 1 {
                            p
                        } else {
                            p - 1
                        };
                        assert(c[p_old] == x);
                        assert(pre.links@[l].contains(x));
                        assert((x as int) < n1.len());
                        assert(Self::s_mark(n2, x, l - 1) == Self::s_mark(n1, x, l - 1)) by {
                            if x == pi {
                                assert(n2[pi as int].next@ == n1[pi as int].next@.update(
                                    lvl,
                                    n2[pi as int].next@[lvl],
                                ));
                                assert(n2[x as int].next@[l - 1] == n1[x as int].next@[l - 1]);
                            } else {
                                assert(n2[x as int] == n1[x as int]);
                            }
                        }
                        assert(pre.links@[l - 1].contains(x));
                        assert(post.links@[l - 1] == pre.links@[l - 1]);
                    }
                } else if l == lvl + 1 {
                    assert(post.links@[l] == pre.links@[l]);
                    assert((x as int) < n1.len()) by {
                        let pb = choose|pb: int|
                            0 <= pb < pre.links@[l].len() && pre.links@[l][pb] == x;
                        assert(Self::chain_form(n1, pre.links@[l], l));
                    }
                    assert(Self::s_mark(n2, x, lvl) == Self::s_mark(n1, x, lvl)) by {
                        if x == pi {
                            assert(Self::s_link(n2, pi, lvl) == 2 * idx);
                            assert(Self::s_link(n1, pi, lvl) == succ_h);
                        } else {
                            assert(n2[x as int] == n1[x as int]);
                        }
                    }
                    if x == pi {
                        assert(!Self::s_mark(n1, pi, lvl));
                        assert(pre.links@[lvl].contains(pi));
                        let po = choose|po: int| 0 <= po < c.len() && c[po] == pi;
                        let pn = if po < q + 1 {
                            po
                        } else {
                            po + 1
                        };
                        assert(c2[pn] == pi);
                        assert(post.links@[lvl].contains(pi));
                    } else {
                        assert(pre.links@[lvl].contains(x));
                        let po = choose|po: int| 0 <= po < c.len() && c[po] == x;
                        let pn = if po < q + 1 {
                            po
                        } else {
                            po + 1
                        };
                        assert(c2[pn] == x);
                        assert(post.links@[lvl].contains(x));
                    }
                } else {
                    assert(post.links@[l] == pre.links@[l]);
                    assert(post.links@[l - 1] == pre.links@[l - 1]);
                    assert((x as int) < n1.len()) by {
                        let pb = choose|pb: int|
                            0 <= pb < pre.links@[l].len() && pre.links@[l][pb] == x;
                        assert(Self::chain_form(n1, pre.links@[l], l));
                    }
                    assert(Self::s_mark(n2, x, l - 1) == Self::s_mark(n1, x, l - 1)) by {
                        if x == pi && l - 1 == lvl {
                            assert(false);
                        } else if x == pi {
                            assert(n2[pi as int].next@ == n1[pi as int].next@.update(
                                lvl,
                                n2[pi as int].next@[lvl],
                            ));
                            assert(n2[x as int].next@[l - 1] == n1[x as int].next@[l - 1]);
                        } else {
                            assert(n2[x as int] == n1[x as int]);
                        }
                    }
                    assert(pre.links@[l - 1].contains(x));
                }
            }
        }
        assert(Self::hpr_form(post.registry, n2, post.links@)) by {
            reveal(SkipList::hpr_form);
            assert forall|n: usize|
                #[trigger] post.registry.retired(n) implies (n as int) < n2.len()
                    && !post.links@[0].contains(n) by {
                assert(pre.registry.retired(n));
                if post.links@[0].contains(n) {
                    if lvl == 0 {
                        let p = choose|p: int|
                            0 <= p < c2.len() && c2[p] == n;
                        if p == q + 1 {
                            assert(n == idx);
                            assert(false);
                        } else {
                            let p_old = if p < q + 1 {
                                p
                            } else {
                                p - 1
                            };
                            assert(c[p_old] == n);
                            assert(pre.links@[0].contains(n));
                        }
                    } else {
                        assert(pre.links@[0].contains(n));
                    }
                }
            }
        }
    }

    /// Companion to `lemma_insert_restore_struct`: the map and pair
    /// consequences of linking the fresh node in.
    #[verifier::rlimit(100)]
    #[verifier::spinoff_prover]
    proof fn lemma_insert_restore_map(
        pre: SkipList<V>,
        post: SkipList<V>,
        lvl: int,
        q: int,
        pred_h: usize,
        succ_h: usize,
        idx: usize,
        key: int,
    )
        requires
            pre.wf(),
            0 <= lvl < LEVELS,
            pred_h % 2 == 0,
            succ_h % 2 == 0,
            0 <= q,
            q + 1 < pre.links@[lvl].len(),
            pre.links@[lvl][q] == (pred_h / 2) as usize,
            pre.links@[lvl][q + 1] == (succ_h / 2) as usize,
            Self::s_link(pre.nodes@, (pred_h / 2) as usize, lvl) == succ_h,
            Self::s_key(pre.nodes@, (pred_h / 2) as usize) < key,
            key < Self::s_key(pre.nodes@, (succ_h / 2) as usize),
            (idx as int) < pre.nodes@.len(),
            !pre.registry.retired(idx),
            idx != (pred_h / 2) as usize,
            Self::s_key(pre.nodes@, idx) == key,
            pre.nodes@[idx as int].value is Some,
            Self::s_top(pre.nodes@, idx) >= lvl,
            Self::s_link(pre.nodes@, idx, lvl) == succ_h,
            forall|l2: int| 0 <= l2 < LEVELS ==> !(#[trigger] Self::s_mark(pre.nodes@, idx, l2)),
            !pre.links@[lvl].contains(idx),
            lvl >= 1 ==> pre.links@[lvl - 1].contains(idx),
            lvl == 0 ==> !Self::live_form(pre.nodes@, pre.links@[0], key),
            i128::MIN < key < i128::MAX,
            post.nodes@.len() == pre.nodes@.len(),
            Self::link_update(pre.nodes@, post.nodes@, (pred_h / 2) as usize, lvl),
            Self::s_link(post.nodes@, (pred_h / 2) as usize, lvl) == 2 * idx,
            post.links@ == pre.links@.update(lvl, pre.links@[lvl].insert(q + 1, idx)),
            post.registry == pre.registry,
            post.head == pre.head,
            post.tail == pre.tail,
        ensures
            forall|x: usize|
                0 <= x < post.nodes@.len() ==> #[trigger] Self::s_key(post.nodes@, x)
                    == Self::s_key(pre.nodes@, x),
            forall|i: int|
                0 <= i < post.nodes@.len() && i != (pred_h / 2) as int ==> post.nodes@[i]
                    == pre.nodes@[i],
            forall|l2: int| 0 <= l2 < LEVELS ==> !(#[trigger] Self::s_mark(post.nodes@, idx, l2)),
            lvl == 0 ==> post@ == pre@.insert(key, Self::s_val(pre.nodes@, idx)),
            lvl >= 1 ==> post@ == pre@,
            forall|l: int, ph: usize, sh: usize|
                0 <= l < LEVELS && l != lvl && #[trigger] Self::pair_form(
                    pre.nodes@,
                    pre.links@[l],
                    l,
                    key,
                    ph,
                    sh,
                ) ==> Self::pair_form(post.nodes@, post.links@[l], l, key, ph, sh),
            Self::entries_form(post.nodes@, pre.nodes@),
    {
        let pi = (pred_h / 2) as usize;
        let si = (succ_h / 2) as usize;
        let n1 = pre.nodes@;
        let n2 = post.nodes@;
        let c = pre.links@[lvl];
        let c2 = c.insert(q + 1, idx);
        assert(n1[pi as int].next@.len() == LEVELS) by {
            reveal(SkipList::nodes_form);
        }
        Self::lemma_link_update_frame(n1, n2, pi, lvl);
        c.insert_ensures(q + 1, idx);
        reveal(SkipList::nodes_form);
        reveal(SkipList::chain_form);
        reveal(SkipList::live_form);
        reveal(SkipList::live_val_form);
        reveal(SkipList::map_form);
        reveal(SkipList::pair_form);
        assert(Self::chain_form(n1, c, lvl));
        if lvl == 0 {
            assert forall|x: usize|
                0 <= x < n1.len() implies #[trigger] Self::s_mark(n2, x, 0) == Self::s_mark(
                    n1,
                    x,
                    0,
                ) by {
                if x == pi {
                    assert(Self::s_link(n2, pi, 0) == 2 * idx);
                    assert(Self::s_link(n1, pi, 0) == succ_h);
                } else {
                    assert(n2[x as int] == n1[x as int]);
                }
            }
            assert(1 <= q + 1 <= c.len() - 1);
            assert(!Self::s_mark(n2, idx, 0));
            Self::lemma_live_insert(n1, n2, c, q + 1, idx, key);
            assert(Self::map_form(n2, post.links@) =~= Self::map_form(n1, pre.links@).insert(
                key,
                Self::s_val(n1, idx),
            )) by {
                assert(Self::s_val(n2, idx) == Self::s_val(n1, idx)) by {
                    assert(n2[idx as int] == n1[idx as int]);
                }
            }
        } else {
            assert(post.links@[0] == pre.links@[0]);
            assert forall|x: usize|
                0 <= x < n1.len() implies #[trigger] Self::s_mark(n2, x, 0) == Self::s_mark(
                    n1,
                    x,
                    0,
                ) by {
                if x == pi {
                    assert(n2[pi as int].next@ == n1[pi as int].next@.update(
                        lvl,
                        n2[pi as int].next@[lvl],
                    ));
                    assert(n2[x as int].next@[0] == n1[x as int].next@[0]);
                } else {
                    assert(n2[x as int] == n1[x as int]);
                }
            }
            Self::lemma_live_same(n1, n2, pre.links@[0]);
            assert(Self::map_form(n2, post.links@) =~= Self::map_form(n1, pre.links@));
        }
        assert forall|l: int, ph: usize, sh: usize|
            0 <= l < LEVELS && l != lvl && #[trigger] Self::pair_form(
                n1,
                pre.links@[l],
                l,
                key,
                ph,
                sh,
            ) implies Self::pair_form(n2, post.links@[l], l, key, ph, sh) by {
            let p2 = (ph / 2) as usize;
            let s2 = (sh / 2) as usize;
            assert(post.links@[l] == pre.links@[l]);
            assert(Self::s_link(n2, p2, l) == Self::s_link(n1, p2, l)) by {
                if p2 == pi {
                    assert(n2[pi as int].next@ == n1[pi as int].next@.update(
                        lvl,
                        n2[pi as int].next@[lvl],
                    ));
                    assert(n2[p2 as int].next@[l] == n1[p2 as int].next@[l]);
                } else {
                    assert(n2[p2 as int] == n1[p2 as int]);
                }
            }
            assert(Self::s_mark(n2, s2, l) == Self::s_mark(n1, s2, l)) by {
                if s2 == pi {
                    assert(n2[pi as int].next@ == n1[pi as int].next@.update(
                        lvl,
                        n2[pi as int].next@[lvl],
                    ));
                    assert(n2[s2 as int].next@[l] == n1[s2 as int].next@[l]);
                } else {
                    assert(n2[s2 as int] == n1[s2 as int]);
                }
            }
        }
        assert forall|l2: int| 0 <= l2 < LEVELS implies !(#[trigger] Self::s_mark(
            n2,
            idx,
            l2,
        )) by {
            assert(n2[idx as int] == n1[idx as int]);
            assert(!Self::s_mark(n1, idx, l2));
        }
        assert forall|l2: int| 0 <= l2 < LEVELS implies !(#[trigger] Self::s_mark(
            n2,
            idx,
            l2,
        )) by {
            assert(n2[idx as int] == n1[idx as int]);
            assert(!Self::s_mark(n1, idx, l2));
        }
        assert(Self::entries_form(n2, n1)) by {
            reveal(SkipList::entries_form);
            assert forall|i: int|
                0 <= i < n2.len() implies (#[trigger] n2[i]).key == n1[i].key && n2[i].value
                    == n1[i].value && n2[i].top_level == n1[i].top_level by {
                if i != pi {
                    assert(n2[i] == n1[i]);
                }
            }
        }
    }

    /// Appending a fresh, fully unlinked node to the arena changes nothing
    /// the list denotes: every chain, mark and live key is as before.
    #[verifier::rlimit(100)]
    #[verifier::spinoff_prover]
    proof fn lemma_grow_restore(pre: SkipList<V>, post: SkipList<V>, idx: usize, key: int)
        requires
            pre.wf(),
            idx as int == pre.nodes@.len(),
            post.nodes@.len() == pre.nodes@.len() + 1,
            forall|i: int| 0 <= i < pre.nodes@.len() ==> post.nodes@[i] == pre.nodes@[i],
            post.links@ == pre.links@,
            post.registry == pre.registry,
            post.head == pre.head,
            post.tail == pre.tail,
            Self::s_key(post.nodes@, idx) == key,
            i128::MIN < key < i128::MAX,
            post.nodes@[idx as int].value is Some,
            post.nodes@[idx as int].top_level <= TOP_LEVEL,
            post.nodes@[idx as int].next@.len() == LEVELS,
            forall|l2: int|
                0 <= l2 < LEVELS ==> #[trigger] Self::s_link(post.nodes@, idx, l2) % 2 == 0,
            forall|l2: int|
                0 <= l2 < LEVELS ==> ((#[trigger] Self::s_succ(post.nodes@, idx, l2)) as int)
                    < post.nodes@.len(),
        ensures
            post.wf(),
            post@ == pre@,
            !post.registry.retired(idx),
            forall|l2: int| 0 <= l2 < LEVELS ==> !(#[trigger] post.links@[l2]).contains(idx),
            forall|l2: int|
                0 <= l2 < LEVELS ==> !(#[trigger] Self::s_mark(post.nodes@, idx, l2)),
            forall|x: usize|
                0 <= x < pre.nodes@.len() ==> #[trigger] Self::s_key(post.nodes@, x)
                    == Self::s_key(pre.nodes@, x),
            forall|l: int, ph: usize, sh: usize|
                0 <= l < LEVELS && #[trigger] Self::pair_form(
                    pre.nodes@,
                    pre.links@[l],
                    l,
                    key,
                    ph,
                    sh,
                ) ==> Self::pair_form(post.nodes@, post.links@[l], l, key, ph, sh),
    {
        let n1 = pre.nodes@;
        let n2 = post.nodes@;
        assert forall|l2: int| 0 <= l2 < LEVELS implies !(#[trigger] post.links@[l2]).contains(
            idx,
        ) by {
            reveal(SkipList::chain_form);
            assert(Self::chain_form(n1, pre.links@[l2], l2));
            if post.links@[l2].contains(idx) {
                let p = choose|p: int|
                    0 <= p < pre.links@[l2].len() && pre.links@[l2][p] == idx;
                assert((pre.links@[l2][p] as int) < n1.len());
            }
        }
        assert forall|l: int|
            0 <= l < LEVELS implies #[trigger] Self::chain_form(n2, post.links@[l], l) by {
            reveal(SkipList::chain_form);
            let cl = pre.links@[l];
            assert(Self::chain_form(n1, cl, l));
            assert forall|p: int|
                0 <= p < cl.len() - 1 implies Self::s_succ(n2, #[trigger] cl[p], l) == cl[p
                + 1] by {
                assert(n2[cl[p] as int] == n1[cl[p] as int]);
            }
            assert forall|p: int|
                0 <= p < cl.len() - 1 implies Self::s_key(n2, #[trigger] cl[p]) < Self::s_key(
                    n2,
                    cl[p + 1],
                ) by {
                assert(n2[cl[p] as int] == n1[cl[p] as int]);
                assert(n2[cl[p + 1] as int] == n1[cl[p + 1] as int]);
            }
            assert forall|p: int|
                1 <= p < cl.len() - 1 implies Self::s_top(n2, #[trigger] cl[p]) >= l && n2[
                cl[p] as int
            ].value is Some by {
                assert(n2[cl[p] as int] == n1[cl[p] as int]);
            }
        }
        assert(Self::chains_form(n2, post.links@));
        assert(Self::nodes_form(n2)) by {
            reveal(SkipList::nodes_form);
            assert(n2[0] == n1[0]);
            assert(n2[1] == n1[1]);
            assert forall|i: int|
                0 <= i < n2.len() implies (#[trigger] n2[i]).next@.len() == LEVELS && n2[
                i
            ].top_level <= TOP_LEVEL by {
                if i < n1.len() {
                    assert(n2[i] == n1[i]);
                }
            }
            assert forall|i: usize, l: int|
                0 <= i < n2.len() && 0 <= l < LEVELS implies ((#[trigger] Self::s_succ(n2, i, l))
                as int) < n2.len() by {
                if (i as int) < n1.len() {
                    assert(n2[i as int] == n1[i as int]);
                    assert((Self::s_succ(n1, i, l) as int) < n1.len());
                }
            }
            assert forall|l: int| 0 <= l < LEVELS implies !(#[trigger] Self::s_mark(n2, 0, l)) by {
                assert(n2[0] == n1[0]);
                assert(!Self::s_mark(n1, 0usize, l));
            }
            assert forall|l: int| 0 <= l < LEVELS implies !(#[trigger] Self::s_mark(n2, 1, l)) by {
                assert(n2[1] == n1[1]);
                assert(!Self::s_mark(n1, 1usize, l));
            }
        }
        assert(Self::marks_form(n2)) by {
            reveal(SkipList::marks_form);
            reveal(SkipList::nodes_form);
            assert forall|i: usize, a: int, b: int|
                0 <= i < n2.len() && 0 <= a <= b <= Self::s_top(n2, i) && #[trigger] Self::s_mark(
                    n2,
                    i,
                    a,
                ) implies #[trigger] Self::s_mark(n2, i, b) by {
                if (i as int) < n1.len() {
                    assert(n2[i as int] == n1[i as int]);
                    assert(Self::s_mark(n1, i, a));
                    assert(Self::s_mark(n1, i, b));
                } else {
                    assert(!Self::s_mark(n2, i, a));
                }
            }
        }
        assert(Self::subset_form(n2, post.links@)) by {
            reveal(SkipList::subset_form);
            reveal(SkipList::chain_form);
            assert forall|l: int, x: usize|
                1 <= l < LEVELS && #[trigger] post.links@[l].contains(x) && !Self::s_mark(
                    n2,
                    x,
                    l - 1,
                ) implies post.links@[l - 1].contains(x) by {
                assert(pre.links@[l].contains(x));
                let pb = choose|pb: int|
                    0 <= pb < pre.links@[l].len() && pre.links@[l][pb] == x;
                assert(Self::chain_form(n1, pre.links@[l], l));
                assert((x as int) < n1.len());
                assert(n2[x as int] == n1[x as int]);
                assert(!Self::s_mark(n1, x, l - 1));
                assert(pre.links@[l - 1].contains(x));
            }
        }
        assert(Self::hpr_form(post.registry, n2, post.links@)) by {
            reveal(SkipList::hpr_form);
            assert forall|n: usize|
                #[trigger] post.registry.retired(n) implies (n as int) < n2.len()
                    && !post.links@[0].contains(n) by {
                assert(pre.registry.retired(n));
            }
        }
        assert(post.wf());
        assert(!post.registry.retired(idx)) by {
            reveal(SkipList::hpr_form);
            if post.registry.retired(idx) {
                assert(pre.registry.retired(idx));
                assert((idx as int) < n1.len());
            }
        }
        assert forall|x: usize|
            0 <= x < n1.len() implies #[trigger] Self::s_key(n2, x) == Self::s_key(n1, x) by {
            assert(n2[x as int] == n1[x as int]);
        }
        assert(post@ == pre@) by {
            reveal(SkipList::map_form);
            reveal(SkipList::live_form);
            reveal(SkipList::live_val_form);
            assert(Self::chain_form(n1, pre.links@[0], 0)) by {
                reveal(SkipList::chain_form);
            }
            assert forall|y: usize|
                0 <= y < n1.len() implies #[trigger] Self::s_mark(n2, y, 0) == Self::s_mark(
                    n1,
                    y,
                    0,
                ) && n2[y as int].value == n1[y as int].value by {
                assert(n2[y as int] == n1[y as int]);
            }
            Self::lemma_live_same(n1, n2, pre.links@[0]);
            assert(Self::map_form(n2, post.links@) =~= Self::map_form(n1, pre.links@));
        }
        assert forall|l: int, ph: usize, sh: usize|
            0 <= l < LEVELS && #[trigger] Self::pair_form(
                pre.nodes@,
                pre.links@[l],
                l,
                key,
                ph,
                sh,
            ) implies Self::pair_form(n2, post.links@[l], l, key, ph, sh) by {
            reveal(SkipList::pair_form);
            assert(n2[(ph / 2) as int] == n1[(ph / 2) as int]);
            assert(n2[(sh / 2) as int] == n1[(sh / 2) as int]);
        }
    }

    /// Marking the unique live holder of a key at the bottom level removes
    /// exactly that key from the live map.
    proof fn lemma_live_mark(
        nodes1: Seq<Node<V>>,
        nodes2: Seq<Node<V>>,
        c: Seq<usize>,
        pv: int,
        vi: usize,
    )
        requires
            Self::chain_form(nodes1, c, 0),
            1 <= pv < c.len() - 1,
            c[pv] == vi,
            !Self::s_mark(nodes1, vi, 0),
            Self::s_mark(nodes2, vi, 0),
            nodes2.len() == nodes1.len(),
            forall|y: usize|
                0 <= y < nodes1.len() ==> #[trigger] Self::s_key(nodes2, y) == Self::s_key(
                    nodes1,
                    y,
                ),
            forall|y: usize|
                0 <= y < nodes1.len() && y != vi ==> #[trigger] Self::s_mark(nodes2, y, 0)
                    == Self::s_mark(nodes1, y, 0),
            forall|y: usize|
                0 <= y < nodes1.len() ==> nodes2[y as int].value == nodes1[y as int].value,
        ensures
            forall|k2: int|
                #[trigger] Self::live_form(nodes2, c, k2) == (Self::live_form(nodes1, c, k2) && k2
                    != Self::s_key(nodes1, vi)),
            forall|k2: int|
                k2 != Self::s_key(nodes1, vi) && Self::live_form(nodes1, c, k2)
                    ==> #[trigger] Self::live_val_form(nodes2, c, k2) == Self::live_val_form(
                    nodes1,
                    c,
                    k2,
                ),
    {
        reveal(SkipList::chain_form);
        reveal(SkipList::live_form);
        reveal(SkipList::live_val_form);
        let kv = Self::s_key(nodes1, vi);
        assert forall|p: int| 0 <= p < c.len() && p != pv implies Self::s_key(
            nodes1,
            #[trigger] c[p],
        ) != kv by {
            if p < pv {
                Self::lemma_chain_incr(nodes1, c, 0, p, pv);
            } else {
                Self::lemma_chain_incr(nodes1, c, 0, pv, p);
            }
        }
        assert forall|k2: int|
            #[trigger] Self::live_form(nodes2, c, k2) == (Self::live_form(nodes1, c, k2) && k2
                != kv) by {
            if Self::live_form(nodes2, c, k2) {
                let p = choose|p: int|
                    1 <= p < c.len() - 1 && Self::s_key(nodes2, #[trigger] c[p]) == k2
                        && !Self::s_mark(nodes2, c[p], 0);
                assert(c[p] != vi);
                assert(p != pv);
                assert(Self::s_key(nodes1, c[p]) == k2 && !Self::s_mark(nodes1, c[p], 0));
                assert(k2 != kv);
            }
            if Self::live_form(nodes1, c, k2) && k2 != kv {
                let p = choose|p: int|
                    1 <= p < c.len() - 1 && Self::s_key(nodes1, #[trigger] c[p]) == k2
                        && !Self::s_mark(nodes1, c[p], 0);
                assert(p != pv);
                assert(c[p] != vi) by {
                    if c[p] == vi {
                        Self::lemma_chain_distinct(nodes1, c, 0, if p < pv {
                            p
                        } else {
                            pv
                        }, if p < pv {
                            pv
                        } else {
                            p
                        });
                    }
                }
                assert(Self::s_key(nodes2, c[p]) == k2 && !Self::s_mark(nodes2, c[p], 0));
            }
        }
        assert forall|k2: int|
            k2 != kv && Self::live_form(nodes1, c, k2) implies #[trigger] Self::live_val_form(
                nodes2,
                c,
                k2,
            ) == Self::live_val_form(nodes1, c, k2) by {
            let pa = choose|p: int|
                1 <= p < c.len() - 1 && Self::s_key(nodes1, #[trigger] c[p]) == k2
                    && !Self::s_mark(nodes1, c[p], 0);
            assert(Self::live_form(nodes2, c, k2));
            let pb = choose|p: int|
                1 <= p < c.len() - 1 && Self::s_key(nodes2, #[trigger] c[p]) == k2
                    && !Self::s_mark(nodes2, c[p], 0);
            assert(Self::s_key(nodes1, c[pb]) == k2);
            Self::lemma_live_unique(nodes1, c, k2, pa, pb);
        }
    }

    /// Setting the level-`lvl` deletion mark of a node whose higher levels
    /// are already marked restores every invariant; at the bottom level it
    /// removes the node's key from the map, above it leaves the map alone.
    #[verifier::rlimit(100)]
    #[verifier::spinoff_prover]
    proof fn lemma_mark_restore(
        pre: SkipList<V>,
        post: SkipList<V>,
        vi: usize,
        lvl: int,
        succ_h: usize,
    )
        requires
            pre.wf(),
            0 <= lvl < LEVELS,
            (vi as int) < pre.nodes@.len(),
            vi != 0,
            vi != 1,
            lvl <= Self::s_top(pre.nodes@, vi),
            succ_h % 2 == 0,
            Self::s_link(pre.nodes@, vi, lvl) == succ_h,
            forall|l2: int|
                lvl < l2 <= Self::s_top(pre.nodes@, vi) ==> #[trigger] Self::s_mark(
                    pre.nodes@,
                    vi,
                    l2,
                ),
            lvl == 0 ==> pre.links@[0].contains(vi),
            post.nodes@.len() == pre.nodes@.len(),
            Self::link_update(pre.nodes@, post.nodes@, vi, lvl),
            Self::s_link(post.nodes@, vi, lvl) == succ_h + 1,
            post.links@ == pre.links@,
            post.registry == pre.registry,
            post.head == pre.head,
            post.tail == pre.tail,
        ensures
            post.wf(),
            forall|x: usize|
                0 <= x < post.nodes@.len() ==> #[trigger] Self::s_key(post.nodes@, x)
                    == Self::s_key(pre.nodes@, x),
            forall|i: int|
                0 <= i < post.nodes@.len() && i != vi ==> post.nodes@[i] == pre.nodes@[i],
            Self::entries_form(post.nodes@, pre.nodes@),
            forall|l2: int|
                lvl <= l2 <= Self::s_top(post.nodes@, vi) ==> #[trigger] Self::s_mark(
                    post.nodes@,
                    vi,
                    l2,
                ),
            forall|l2: int|
                0 <= l2 < LEVELS && l2 != lvl ==> #[trigger] Self::s_link(post.nodes@, vi, l2)
                    == Self::s_link(pre.nodes@, vi, l2),
            lvl >= 1 ==> post@ == pre@,
            lvl == 0 ==> post@ == pre@.remove(Self::s_key(pre.nodes@, vi)),
    {
        let n1 = pre.nodes@;
        let n2 = post.nodes@;
        assert(n1[vi as int].next@.len() == LEVELS) by {
            reveal(SkipList::nodes_form);
        }
        Self::lemma_link_update_frame(n1, n2, vi, lvl);
        assert forall|l2: int|
            0 <= l2 < LEVELS && l2 != lvl implies #[trigger] Self::s_link(n2, vi, l2)
            == Self::s_link(n1, vi, l2) by {
            assert(n2[vi as int].next@ == n1[vi as int].next@.update(lvl, n2[vi as int].next@[lvl]));
            assert(n2[vi as int].next@[l2] == n1[vi as int].next@[l2]);
        }
        assert forall|l: int|
            0 <= l < LEVELS implies #[trigger] Self::chain_form(n2, post.links@[l], l) by {
            reveal(SkipList::chain_form);
            let cl = pre.links@[l];
            assert(post.links@[l] == cl);
            assert(Self::chain_form(n1, cl, l));
            assert forall|p: int|
                0 <= p < cl.len() - 1 implies Self::s_succ(n2, #[trigger] cl[p], l) == cl[p
                + 1] by {
                if cl[p] == vi && l == lvl {
                    assert(Self::s_link(n2, vi, lvl) == succ_h + 1);
                    assert(Self::s_succ(n2, vi, lvl) == succ_h / 2);
                    assert(Self::s_succ(n1, vi, lvl) == succ_h / 2);
                } else if cl[p] == vi {
                    assert(Self::s_link(n2, vi, l) == Self::s_link(n1, vi, l));
                } else {
                    assert(n2[cl[p] as int] == n1[cl[p] as int]);
                }
            }
            assert forall|p: int|
                0 <= p < cl.len() - 1 implies Self::s_key(n2, #[trigger] cl[p]) < Self::s_key(
                    n2,
                    cl[p + 1],
                ) by {
                assert(Self::s_key(n1, cl[p]) < Self::s_key(n1, cl[p + 1]));
            }
            assert forall|p: int|
                1 <= p < cl.len() - 1 implies Self::s_top(n2, #[trigger] cl[p]) >= l && n2[
                cl[p] as int
            ].value is Some by {
                assert(Self::s_top(n1, cl[p]) >= l && n1[cl[p] as int].value is Some);
            }
        }
        assert(Self::chains_form(n2, post.links@));
        assert(Self::nodes_form(n2)) by {
            reveal(SkipList::nodes_form);
            assert forall|i: usize, l: int|
                0 <= i < n2.len() && 0 <= l < LEVELS implies ((#[trigger] Self::s_succ(n2, i, l))
                as int) < n2.len() by {
                if i == vi && l == lvl {
                    assert(Self::s_succ(n2, vi, lvl) == succ_h / 2);
                    assert((Self::s_succ(n1, vi, lvl) as int) < n1.len());
                } else {
                    assert(Self::s_link(n2, i, l) == Self::s_link(n1, i, l));
                    assert((Self::s_succ(n1, i, l) as int) < n1.len());
                }
            }
            assert forall|l: int| 0 <= l < LEVELS implies !(#[trigger] Self::s_mark(n2, 0, l)) by {
                assert(!Self::s_mark(n1, 0usize, l));
                assert(Self::s_link(n2, 0usize, l) == Self::s_link(n1, 0usize, l));
            }
            assert forall|l: int| 0 <= l < LEVELS implies !(#[trigger] Self::s_mark(n2, 1, l)) by {
                assert(!Self::s_mark(n1, 1usize, l));
                assert(Self::s_link(n2, 1usize, l) == Self::s_link(n1, 1usize, l));
            }
        }
        assert(Self::marks_form(n2)) by {
            reveal(SkipList::marks_form);
            reveal(SkipList::nodes_form);
            assert forall|i: usize, a: int, b: int|
                0 <= i < n2.len() && 0 <= a <= b <= Self::s_top(n2, i) && #[trigger] Self::s_mark(
                    n2,
                    i,
                    a,
                ) implies #[trigger] Self::s_mark(n2, i, b) by {
                assert(Self::s_top(n2, i) == Self::s_top(n1, i));
                assert(Self::s_top(n1, i) <= TOP_LEVEL as int);
                if i == vi {
                    if b == lvl {
                        assert(Self::s_mark(n2, vi, lvl));
                    } else if a == lvl {
                        assert(lvl < b <= Self::s_top(n1, vi));
                        assert(Self::s_mark(n1, vi, b));
                        assert(Self::s_link(n2, vi, b) == Self::s_link(n1, vi, b));
                    } else {
                        assert(Self::s_link(n2, vi, a) == Self::s_link(n1, vi, a));
                        assert(Self::s_mark(n1, vi, a));
                        assert(Self::s_mark(n1, vi, b));
                        assert(Self::s_link(n2, vi, b) == Self::s_link(n1, vi, b));
                    }
                } else {
                    assert(n2[i as int] == n1[i as int]);
                    assert(Self::s_mark(n1, i, a));
                    assert(Self::s_mark(n1, i, b));
                }
            }
        }
        assert(Self::subset_form(n2, post.links@)) by {
            reveal(SkipList::subset_form);
            assert forall|l: int, x: usize|
                1 <= l < LEVELS && #[trigger] post.links@[l].contains(x) && !Self::s_mark(
                    n2,
                    x,
                    l - 1,
                ) implies post.links@[l - 1].contains(x) by {
                assert(pre.links@[l].contains(x));
                if x == vi && l - 1 == lvl {
                    assert(Self::s_mark(n2, vi, lvl));
                    assert(false);
                } else if x == vi {
                    assert(Self::s_link(n2, vi, l - 1) == Self::s_link(n1, vi, l - 1));
                    assert(!Self::s_mark(n1, x, l - 1));
                    assert(pre.links@[l - 1].contains(x));
                } else {
                    reveal(SkipList::chain_form);
                    let pb = choose|pb: int|
                        0 <= pb < pre.links@[l].len() && pre.links@[l][pb] == x;
                    assert(Self::chain_form(n1, pre.links@[l], l));
                    assert((x as int) < n1.len());
                    assert(n2[x as int] == n1[x as int]);
                    assert(!Self::s_mark(n1, x, l - 1));
                    assert(pre.links@[l - 1].contains(x));
                }
            }
        }
        assert(Self::hpr_form(post.registry, n2, post.links@)) by {
            reveal(SkipList::hpr_form);
            assert forall|n: usize|
                #[trigger] post.registry.retired(n) implies (n as int) < n2.len()
                    && !post.links@[0].contains(n) by {
                assert(pre.registry.retired(n));
            }
        }
        assert(post.wf());
        assert(Self::entries_form(n2, n1)) by {
            reveal(SkipList::entries_form);
            assert forall|i: int|
                0 <= i < n2.len() implies (#[trigger] n2[i]).key == n1[i].key && n2[i].value
                    == n1[i].value && n2[i].top_level == n1[i].top_level by {
                if i != vi {
                    assert(n2[i] == n1[i]);
                }
            }
        }
        assert forall|l2: int|
            lvl <= l2 <= Self::s_top(n2, vi) implies #[trigger] Self::s_mark(n2, vi, l2) by {
            if l2 != lvl {
                assert(Self::s_mark(n1, vi, l2));
                assert(n1[vi as int].next@.len() == LEVELS) by {
                    reveal(SkipList::nodes_form);
                }
                assert(Self::s_top(n1, vi) <= TOP_LEVEL as int) by {
                    reveal(SkipList::nodes_form);
                }
                assert(n2[vi as int].next@ == n1[vi as int].next@.update(
                    lvl,
                    n2[vi as int].next@[lvl],
                ));
                assert(n2[vi as int].next@[l2] == n1[vi as int].next@[l2]);
                assert(Self::s_link(n2, vi, l2) == Self::s_link(n1, vi, l2));
            }
        }
        if lvl >= 1 {
            assert forall|x: usize|
                0 <= x < n1.len() implies #[trigger] Self::s_mark(n2, x, 0) == Self::s_mark(
                    n1,
                    x,
                    0,
                ) by {
                if x == vi {
                    assert(Self::s_link(n2, vi, 0) == Self::s_link(n1, vi, 0));
                } else {
                    assert(n2[x as int] == n1[x as int]);
                }
            }
            assert(Self::chain_form(n1, pre.links@[0], 0));
            Self::lemma_live_same(n1, n2, pre.links@[0]);
            assert(Self::map_form(n2, post.links@) =~= Self::map_form(n1, pre.links@)) by {
                reveal(SkipList::map_form);
                reveal(SkipList::live_form);
                reveal(SkipList::live_val_form);
            }
        } else {
            let c = pre.links@[0];
            let pv = choose|p: int| 0 <= p < c.len() && c[p] == vi;
            assert(Self::chain_form(n1, c, 0));
            assert(pv != 0 && pv != c.len() - 1) by {
                reveal(SkipList::chain_form);
                reveal(SkipList::nodes_form);
            }
            assert forall|y: usize|
                0 <= y < n1.len() && y != vi implies #[trigger] Self::s_mark(n2, y, 0)
                == Self::s_mark(n1, y, 0) by {
                assert(n2[y as int] == n1[y as int]);
            }
            assert(!Self::s_mark(n1, vi, 0));
            assert(Self::s_mark(n2, vi, 0));
            Self::lemma_live_mark(n1, n2, c, pv, vi);
            assert(Self::map_form(n2, post.links@) =~= Self::map_form(n1, pre.links@).remove(
                Self::s_key(n1, vi),
            )) by {
                reveal(SkipList::map_form);
                reveal(SkipList::live_form);
                reveal(SkipList::live_val_form);
            }
        }
    }

    /// The traversal: descends from the top level, walking forward past
    /// smaller keys, unlinking marked nodes in passing (and retiring those
    /// unlinked from the bottom level), and records the predecessor and
    /// successor pair of every level. The key is found exactly when the
    /// list holds it.
    #[verifier::rlimit(100)]
    #[verifier::spinoff_prover]
    pub fn find(&mut self, key: KeyType, _hp_record: usize) -> (r: FindResult)
        requires
            old(self).wf(),
            old(self).hp_headroom(),
            i128::MIN < key < i128::MAX,
        ensures
            final(self).wf(),
            final(self)@ == old(self)@,
            final(self).entries_match(old(self)),
            final(self).arena_len() == old(self).arena_len(),
            final(self).registry_total() <= old(self).registry_total() + 5,
            forall|i: int| old(self).record_active(i) ==> final(self).record_active(i),
            r.preds@.len() == LEVELS,
            r.succs@.len() == LEVELS,
            forall|lvl: int|
                0 <= lvl < LEVELS ==> final(self).found_pair(
                    lvl,
                    key as int,
                    #[trigger] r.preds@[lvl],
                    r.succs@[lvl],
                ),
            r.success == old(self)@.dom().contains(key as int),
            r.success ==> final(self).key_of((r.succs@[0] / 2) as usize) == key as int
                && !final(self).mark_of((r.succs@[0] / 2) as usize, 0) && final(self)@[key as int]
                == final(self).val_of((r.succs@[0] / 2) as usize) && final(self).chain(0).contains(
                (r.succs@[0] / 2) as usize,
            ) && ((r.succs@[0] / 2) as int) < final(self).arena_len(),
            !r.success ==> forall|lvl: int|
                0 <= lvl < LEVELS ==> (key as int) < final(self).key_of(
                    (#[trigger] r.succs@[lvl] / 2) as usize,
                ),
    {
        let hp: usize = self.enter();
        let mut preds: Vec<usize> = Vec::new();
        let mut succs: Vec<usize> = Vec::new();
        let mut i: usize = 0;
        while i < LEVELS
            invariant
                i <= LEVELS,
                preds@.len() == i,
                succs@.len() == i,
            decreases LEVELS - i,
        {
            preds.push(0);
            succs.push(0);
            i = i + 1;
        }
        let mut free_collection: Vec<usize> = Vec::new();
        let mut pred_h: usize = 0;
        self.protect_slot(hp, 0, 0);
        let mut curr_h: usize = 0;
        let mut lvl: usize = TOP_LEVEL;
        proof {
            reveal(SkipList::nodes_form);
            reveal(SkipList::chain_form);
            reveal(SkipList::entries_form);
            reveal(SkipList::fc_form);
            assert(Self::chain_form(self.nodes@, self.links@[TOP_LEVEL as int], TOP_LEVEL as int));
            assert(self.chain(TOP_LEVEL as int)[0] == 0usize);
            assert(self.chain(TOP_LEVEL as int).contains(0usize));
            assert(self.key_of(0usize) == i128::MIN as int);
            assert(!self.mark_of(0usize, TOP_LEVEL as int));
            assert(Self::trav_frame(*old(self), *self));
        }
        loop
            invariant
                Self::trav_frame(*old(self), *self),
                self.record_active(hp as int),
                !old(self).record_active(hp as int),
                i128::MIN < key < i128::MAX,
                lvl < LEVELS,
                preds@.len() == LEVELS,
                succs@.len() == LEVELS,
                pred_h % 2 == 0,
                ((pred_h / 2) as int) < self.arena_len(),
                self.chain(lvl as int).contains((pred_h / 2) as usize),
                self.key_of((pred_h / 2) as usize) < key as int,
                !self.mark_of((pred_h / 2) as usize, lvl as int),
                forall|l: int|
                    lvl < l < LEVELS ==> Self::pair_form(
                        self.nodes@,
                        self.links@[l],
                        l,
                        key as int,
                        #[trigger] preds@[l],
                        succs@[l],
                    ),
                Self::fc_ok(*self, free_collection@),
                forall|a: int, b: int|
                    0 <= a < b < free_collection@.len() ==> free_collection@[a]
                        != free_collection@[b],
                forall|t2: int|
                    0 <= t2 < free_collection@.len() ==> !self.registry.retired(
                        #[trigger] free_collection@[t2],
                    ),
            ensures
                Self::trav_frame(*old(self), *self),
                self.record_active(hp as int),
                !old(self).record_active(hp as int),
                preds@.len() == LEVELS,
                succs@.len() == LEVELS,
                succs@[0] % 2 == 0,
                ((succs@[0] / 2) as int) < self.arena_len(),
                key as int <= self.key_of((succs@[0] / 2) as usize),
                !self.mark_of((succs@[0] / 2) as usize, 0),
                self.chain(0).contains((succs@[0] / 2) as usize),
                forall|l: int|
                    0 <= l < LEVELS ==> Self::pair_form(
                        self.nodes@,
                        self.links@[l],
                        l,
                        key as int,
                        #[trigger] preds@[l],
                        succs@[l],
                    ),
                Self::fc_ok(*self, free_collection@),
                forall|a: int, b: int|
                    0 <= a < b < free_collection@.len() ==> free_collection@[a]
                        != free_collection@[b],
                forall|t2: int|
                    0 <= t2 < free_collection@.len() ==> !self.registry.retired(
                        #[trigger] free_collection@[t2],
                    ),
            decreases lvl,
        {
            let pred_i: usize = pred_h / 2;
            proof {
                reveal(SkipList::nodes_form);
                assert(self.nodes@[pred_i as int].next@.len() == LEVELS);
            }
            let composite0: usize = self.nodes[pred_i].next[lvl];
            curr_h = get_node(composite0);
            proof {
                assert(composite0 == self.link_of(pred_i, lvl as int));
                assert(composite0 % 2 == 0);
                assert(curr_h == composite0) by {
                    assert(composite0 % 2 == 0 ==> 2 * (composite0 / 2) == composite0);
                }
            }
            self.protect_slot(hp, 1, curr_h / 2);
            let ghost mut qpos: int = 0;
            proof {
                reveal(SkipList::nodes_form);
                reveal(SkipList::chain_form);
                let c = self.chain(lvl as int);
                assert(Self::chain_form(self.nodes@, self.links@[lvl as int], lvl as int));
                qpos = choose|q: int| 0 <= q < c.len() && c[q] == (pred_h / 2) as usize;
                assert(qpos != c.len() - 1) by {
                    if qpos == c.len() - 1 {
                        assert(c[qpos] == 1usize);
                        assert(self.key_of(1) == i128::MAX as int);
                    }
                }
                assert(c[qpos + 1] == self.succ_of((pred_h / 2) as usize, lvl as int));
                assert((curr_h / 2) as usize == self.succ_of((pred_h / 2) as usize, lvl as int));
            }
            loop
                invariant
                    Self::trav_frame(*old(self), *self),
                    self.record_active(hp as int),
                    !old(self).record_active(hp as int),
                    i128::MIN < key < i128::MAX,
                    lvl < LEVELS,
                    preds@.len() == LEVELS,
                    succs@.len() == LEVELS,
                    pred_h % 2 == 0,
                    curr_h % 2 == 0,
                    0 <= qpos,
                    qpos + 1 < self.chain(lvl as int).len(),
                    self.chain(lvl as int)[qpos] == (pred_h / 2) as usize,
                    self.chain(lvl as int)[qpos + 1] == (curr_h / 2) as usize,
                    self.link_of((pred_h / 2) as usize, lvl as int) == curr_h,
                    self.key_of((pred_h / 2) as usize) < key as int,
                    forall|l: int|
                        lvl < l < LEVELS ==> Self::pair_form(
                            self.nodes@,
                            self.links@[l],
                            l,
                            key as int,
                            #[trigger] preds@[l],
                            succs@[l],
                        ),
                    Self::fc_ok(*self, free_collection@),
                    forall|a: int, b: int|
                        0 <= a < b < free_collection@.len() ==> free_collection@[a]
                            != free_collection@[b],
                    forall|t2: int|
                        0 <= t2 < free_collection@.len() ==> !self.registry.retired(
                            #[trigger] free_collection@[t2],
                        ),
                ensures
                    Self::trav_frame(*old(self), *self),
                    self.record_active(hp as int),
                    !old(self).record_active(hp as int),
                    preds@.len() == LEVELS,
                    succs@.len() == LEVELS,
                    pred_h % 2 == 0,
                    curr_h % 2 == 0,
                    0 <= qpos,
                    qpos + 1 < self.chain(lvl as int).len(),
                    self.chain(lvl as int)[qpos] == (pred_h / 2) as usize,
                    self.chain(lvl as int)[qpos + 1] == (curr_h / 2) as usize,
                    self.link_of((pred_h / 2) as usize, lvl as int) == curr_h,
                    self.key_of((pred_h / 2) as usize) < key as int,
                    key as int <= self.key_of((curr_h / 2) as usize),
                    !self.mark_of((curr_h / 2) as usize, lvl as int),
                    forall|l: int|
                        lvl < l < LEVELS ==> Self::pair_form(
                            self.nodes@,
                            self.links@[l],
                            l,
                            key as int,
                            #[trigger] preds@[l],
                            succs@[l],
                        ),
                    Self::fc_ok(*self, free_collection@),
                    forall|a: int, b: int|
                        0 <= a < b < free_collection@.len() ==> free_collection@[a]
                            != free_collection@[b],
                    forall|t2: int|
                        0 <= t2 < free_collection@.len() ==> !self.registry.retired(
                            #[trigger] free_collection@[t2],
                        ),
                decreases self.chain(lvl as int).len() - qpos,
            {
                let curr_i: usize = curr_h / 2;
                proof {
                    reveal(SkipList::nodes_form);
                    reveal(SkipList::chain_form);
                    assert(Self::chain_form(self.nodes@, self.links@[lvl as int], lvl as int));
                    assert(self.chain(lvl as int)[qpos + 1] == curr_i);
                    assert((curr_i as int) < self.arena_len());
                    assert(self.nodes@[curr_i as int].next@.len() == LEVELS);
                }
                let composite: usize = self.nodes[curr_i].next[lvl];
                let succ_h: usize = get_node(composite);
                let marked: bool = get_marker(composite);
                self.protect_slot(hp, 2, succ_h / 2);
                if marked {
                    proof {
                        assert(self.link_of(curr_i, lvl as int) == succ_h + 1);
                    }
                    let ghost before = *self;
                    self.unlink_step(
                        lvl,
                        pred_h,
                        curr_h,
                        succ_h,
                        key,
                        Ghost(*old(self)),
                        Ghost(qpos),
                    );
                    if lvl == 0 {
                        free_collection.push(curr_h / 2);
                    }
                    proof {
                        reveal(SkipList::fc_form);
                        assert forall|t: int|
                            0 <= t < free_collection@.len() implies ((
                            #[trigger] free_collection@[t]) as int) < self.arena_len()
                            && !self.chain(0).contains(free_collection@[t]) by {
                            if !(lvl == 0 && t == free_collection@.len() - 1) {
                                assert(!before.chain(0).contains(free_collection@[t]));
                                if self.chain(0).contains(free_collection@[t]) {
                                    assert(before.chain(0).contains(free_collection@[t]));
                                }
                            }
                        }
                        assert(Self::fc_ok(*self, free_collection@));
                        if lvl == 0 {
                            // the node just unlinked was on the bottom chain,
                            // so it was neither collected before nor retired
                            assert(before.chain(0)[qpos + 1] == curr_i);
                            assert(before.chain(0).contains(curr_i));
                            assert(!self.registry.retired(curr_i)) by {
                                reveal(SkipList::hpr_form);
                                assert(self.registry == before.registry);
                                if before.registry.retired(curr_i) {
                                    assert(!before.chain(0).contains(curr_i));
                                }
                            }
                            assert forall|t2: int|
                                0 <= t2 < free_collection@.len() implies !self.registry.retired(
                                #[trigger] free_collection@[t2],
                            ) by {
                                if t2 < free_collection@.len() - 1 {
                                    assert(self.registry == before.registry);
                                }
                            }
                            assert forall|a: int, b: int|
                                0 <= a < b < free_collection@.len() implies free_collection@[a]
                                != free_collection@[b] by {
                                if b == free_collection@.len() - 1 {
                                    assert(free_collection@[b] == curr_i);
                                    assert(!before.chain(0).contains(free_collection@[a]))
                                        by {
                                        reveal(SkipList::fc_form);
                                    }
                                }
                            }
                        } else {
                            assert(self.registry == before.registry);
                        }
                    }
                    curr_h = succ_h;
                } else {
                    let curr_key: i128 = self.nodes[curr_i].key;
                    if curr_key < key {
                        pred_h = curr_h;
                        self.protect_slot(hp, 0, pred_h / 2);
                        curr_h = succ_h;
                        self.protect_slot(hp, 1, curr_h / 2);
                        proof {
                            reveal(SkipList::nodes_form);
                            reveal(SkipList::chain_form);
                            let c = self.chain(lvl as int);
                            assert(c[qpos + 1] != 1usize) by {
                                assert(Self::s_key(self.nodes@, 1) == i128::MAX as int);
                            }
                            assert(qpos + 1 != c.len() - 1);
                            assert(c[qpos + 2] == self.succ_of((pred_h / 2) as usize, lvl as int));
                            assert((curr_h / 2) as usize == self.succ_of(
                                (pred_h / 2) as usize,
                                lvl as int,
                            )) by {
                                assert(composite % 2 == 0 ==> 2 * (composite / 2) == composite);
                            }
                            qpos = qpos + 1;
                        }
                    } else {
                        proof {
                            assert(!self.mark_of(curr_i, lvl as int));
                            assert(key as int <= self.key_of(curr_i));
                        }
                        break;
                    }
                }
            }
            preds[lvl] = pred_h;
            succs[lvl] = curr_h;
            proof {
                reveal(SkipList::pair_form);
                reveal(SkipList::chain_form);
                assert(Self::chain_form(self.nodes@, self.links@[lvl as int], lvl as int));
                assert(Self::pair_form(
                    self.nodes@,
                    self.links@[lvl as int],
                    lvl as int,
                    key as int,
                    preds@[lvl as int],
                    succs@[lvl as int],
                )) by {
                    let c = self.chain(lvl as int);
                    assert(0 <= qpos < c.len() - 1 && c[qpos] == (pred_h / 2) as usize && c[qpos
                        + 1] == (curr_h / 2) as usize);
                }
            }
            if lvl == 0 {
                proof {
                    reveal(SkipList::chain_form);
                    assert(self.chain(0)[qpos + 1] == (curr_h / 2) as usize);
                    assert(self.chain(0).contains((curr_h / 2) as usize));
                }
                break;
            }
            proof {
                reveal(SkipList::nodes_form);
                reveal(SkipList::chain_form);
                reveal(SkipList::marks_form);
                reveal(SkipList::subset_form);
                assert(Self::chain_form(self.nodes@, self.links@[lvl as int], lvl as int));
                let pi = (pred_h / 2) as usize;
                let c = self.chain(lvl as int);
                assert(Self::s_top(self.nodes@, pi) >= lvl as int) by {
                    if pi == 0 || pi == 1 {
                    } else {
                        assert(c[qpos] == pi);
                        assert(qpos != 0 ==> 1 <= qpos < c.len() - 1);
                        if qpos == 0 {
                            assert(c[0] == 0usize);
                        }
                    }
                }
                assert(!Self::s_mark(self.nodes@, pi, lvl as int - 1)) by {
                    if Self::s_mark(self.nodes@, pi, lvl as int - 1) {
                        assert(Self::s_mark(self.nodes@, pi, lvl as int));
                    }
                }
                assert(self.chain(lvl as int - 1).contains(pi)) by {
                    assert(self.links@[lvl as int][qpos] == pi);
                    assert(self.links@[lvl as int].contains(pi));
                }
            }
            lvl = lvl - 1;
        }
        let mut t: usize = 0;
        while t < free_collection.len()
            invariant
                Self::trav_frame(*old(self), *self),
                self.record_active(hp as int),
                !old(self).record_active(hp as int),
                t <= free_collection@.len(),
                preds@.len() == LEVELS,
                succs@.len() == LEVELS,
                succs@[0] % 2 == 0,
                ((succs@[0] / 2) as int) < self.arena_len(),
                key as int <= self.key_of((succs@[0] / 2) as usize),
                !self.mark_of((succs@[0] / 2) as usize, 0),
                self.chain(0).contains((succs@[0] / 2) as usize),
                i128::MIN < key < i128::MAX,
                forall|l: int|
                    0 <= l < LEVELS ==> Self::pair_form(
                        self.nodes@,
                        self.links@[l],
                        l,
                        key as int,
                        #[trigger] preds@[l],
                        succs@[l],
                    ),
                Self::fc_ok(*self, free_collection@),
                forall|a: int, b: int|
                    0 <= a < b < free_collection@.len() ==> free_collection@[a]
                        != free_collection@[b],
                forall|t2: int|
                    t <= t2 < free_collection@.len() ==> !self.registry.retired(
                        #[trigger] free_collection@[t2],
                    ),
            decreases free_collection@.len() - t,
        {
            let node: usize = free_collection[t];
            proof {
                reveal(SkipList::fc_form);
                assert((node as int) < self.arena_len() && !self.chain(0).contains(node));
                assert(!self.registry.retired(node));
            }
            self.retire_unlinked(hp, node);
            proof {
                reveal(SkipList::fc_form);
                assert(Self::fc_ok(*self, free_collection@));
                assert forall|t2: int|
                    t + 1 <= t2 < free_collection@.len() implies !self.registry.retired(
                    #[trigger] free_collection@[t2],
                ) by {
                    assert(free_collection@[t2] != free_collection@[t as int]);
                }
            }
            t = t + 1;
        }
        let succ0: usize = succs[0];
        let succ0_i: usize = succ0 / 2;
        let success: bool = self.nodes[succ0_i].key == key;
        proof {
            reveal(SkipList::nodes_form);
            reveal(SkipList::chain_form);
            reveal(SkipList::pair_form);
            reveal(SkipList::live_form);
            reveal(SkipList::live_val_form);
            reveal(SkipList::map_form);
            assert(Self::chain_form(self.nodes@, self.links@[0], 0));
            if success {
                Self::lemma_live_from_member(
                    self.nodes@,
                    self.links@[0],
                    succ0_i,
                    key as int,
                );
                assert(self@.dom().contains(key as int));
            } else {
                assert(!self@.dom().contains(key as int)) by {
                    if Self::live_form(self.nodes@, self.links@[0], key as int) {
                        let p = choose|p: int|
                            1 <= p < self.chain(0).len() - 1 && Self::s_key(
                                self.nodes@,
                                #[trigger] self.chain(0)[p],
                            ) == key as int && !Self::s_mark(self.nodes@, self.chain(0)[p], 0);
                        let q = choose|q: int|
                            0 <= q < self.chain(0).len() - 1 && self.chain(0)[q] == (preds@[0] / 2)
                                as usize && #[trigger] self.chain(0)[q + 1] == (succs@[0] / 2)
                                as usize;
                        if p <= q {
                            Self::lemma_chain_incr(self.nodes@, self.chain(0), 0, p, q + 1);
                            if p < q {
                                Self::lemma_chain_incr(self.nodes@, self.chain(0), 0, p, q);
                            }
                            assert(self.key_of((preds@[0] / 2) as usize) < key as int);
                            assert(false);
                        } else {
                            if q + 1 < p {
                                Self::lemma_chain_incr(self.nodes@, self.chain(0), 0, q + 1, p);
                            }
                            assert(key as int <= self.key_of((succs@[0] / 2) as usize));
                            assert(false);
                        }
                    }
                }
            }
            assert(success == self@.dom().contains(key as int));
            assert(self@ == old(self)@);
            if success {
                let pw = choose|p: int|
                    0 <= p < self.chain(0).len() && self.chain(0)[p] == succ0_i;
                assert(pw != 0) by {
                    if pw == 0 {
                        assert(self.chain(0)[0] == 0usize);
                        assert(self.key_of(0) == i128::MIN as int);
                    }
                }
                assert(pw != self.chain(0).len() - 1) by {
                    if pw == self.chain(0).len() - 1 {
                        assert(self.key_of(1) == i128::MAX as int);
                    }
                }
                let pv = choose|p: int|
                    1 <= p < self.chain(0).len() - 1 && Self::s_key(
                        self.nodes@,
                        #[trigger] self.chain(0)[p],
                    ) == key as int && !Self::s_mark(self.nodes@, self.chain(0)[p], 0);
                Self::lemma_live_unique(self.nodes@, self.chain(0), key as int, pw, pv);
                assert(self@[key as int] == self.val_of(succ0_i));
            }
        }
        let ghost at_exit = *self;
        self.exit(hp);
        proof {
            reveal(SkipList::pair_form);
            reveal(SkipList::live_form);
            reveal(SkipList::map_form);
            assert(self.arena_len() == old(self).arena_len()) by {
                reveal(SkipList::entries_form);
            }
            assert(self.nodes@ == at_exit.nodes@);
            assert(self.links@ == at_exit.links@);
            if !success {
                assert forall|l: int| 0 <= l < LEVELS implies (key as int) < self.key_of(
                    ((#[trigger] succs@[l]) / 2) as usize,
                ) by {
                    assert(Self::pair_form(
                        self.nodes@,
                        self.links@[l],
                        l,
                        key as int,
                        preds@[l],
                        succs@[l],
                    ));
                    let si = (succs@[l] / 2) as usize;
                    if self.key_of(si) == key as int {
                        let q = choose|q: int|
                            0 <= q < self.links@[l].len() - 1 && self.links@[l][q] == (preds@[l]
                                / 2) as usize && #[trigger] self.links@[l][q + 1] == si;
                        assert(self.links@[l].contains(si));
                        Self::lemma_unmarked_descends(self.nodes@, self.links@, l, si);
                        Self::lemma_live_from_member(
                            self.nodes@,
                            self.links@[0],
                            si,
                            key as int,
                        );
                        assert(self@.dom().contains(key as int));
                        assert(false);
                    }
                }
            }
        }
        FindResult { success, preds, succs }
    }

    /// Two arenas with the same keys, bottom marks and values give the
    /// same live keys and values over a common bottom chain.
    proof fn lemma_live_same(nodes1: Seq<Node<V>>, nodes2: Seq<Node<V>>, c0: Seq<usize>)
        requires
            Self::chain_form(nodes1, c0, 0),
            nodes2.len() >= nodes1.len(),
            forall|x: usize|
                0 <= x < nodes1.len() ==> #[trigger] Self::s_key(nodes2, x) == Self::s_key(
                    nodes1,
                    x,
                ),
            forall|x: usize|
                0 <= x < nodes1.len() ==> #[trigger] Self::s_mark(nodes2, x, 0) == Self::s_mark(
                    nodes1,
                    x,
                    0,
                ),
            forall|x: usize|
                0 <= x < nodes1.len() ==> nodes2[x as int].value == nodes1[x as int].value,
        ensures
            forall|k: int|
                #[trigger] Self::live_form(nodes2, c0, k) == Self::live_form(nodes1, c0, k),
            forall|k: int|
                Self::live_form(nodes1, c0, k) ==> #[trigger] Self::live_val_form(nodes2, c0, k)
                    == Self::live_val_form(nodes1, c0, k),
    {        reveal(SkipList::chain_form);
        reveal(SkipList::live_form);
        reveal(SkipList::live_val_form);

        assert forall|k: int|
            #[trigger] Self::live_form(nodes2, c0, k) == Self::live_form(nodes1, c0, k) by {
            if Self::live_form(nodes1, c0, k) {
                let p = choose|p: int|
                    1 <= p < c0.len() - 1 && Self::s_key(nodes1, #[trigger] c0[p]) == k
                        && !Self::s_mark(nodes1, c0[p], 0);
                assert(Self::s_key(nodes2, c0[p]) == k && !Self::s_mark(nodes2, c0[p], 0));
            }
            if Self::live_form(nodes2, c0, k) {
                let p = choose|p: int|
                    1 <= p < c0.len() - 1 && Self::s_key(nodes2, #[trigger] c0[p]) == k
                        && !Self::s_mark(nodes2, c0[p], 0);
                assert(Self::s_key(nodes1, c0[p]) == k && !Self::s_mark(nodes1, c0[p], 0));
            }
        }
        assert forall|k: int|
            Self::live_form(nodes1, c0, k) implies #[trigger] Self::live_val_form(nodes2, c0, k)
                == Self::live_val_form(nodes1, c0, k) by {
            let p1 = choose|p: int|
                1 <= p < c0.len() - 1 && Self::s_key(nodes1, #[trigger] c0[p]) == k
                    && !Self::s_mark(nodes1, c0[p], 0);
            let p2 = choose|p: int|
                1 <= p < c0.len() - 1 && Self::s_key(nodes2, #[trigger] c0[p]) == k
                    && !Self::s_mark(nodes2, c0[p], 0);
            assert(Self::s_key(nodes1, c0[p2]) == k);
            Self::lemma_live_unique(nodes1, c0, k, p1, p2);
        }
    }

    /// After one physical unlink (the level-`lvl` link of the predecessor
    /// swung past a marked node), every invariant is restored and the
    /// denoted map is unchanged: only a logically deleted node left a
    /// chain.
    #[verifier::rlimit(100)]
    #[verifier::spinoff_prover]
    proof fn lemma_unlink_restore(
        pre: SkipList<V>,
        post: SkipList<V>,
        orig: SkipList<V>,
        lvl: int,
        qpos: int,
        pred_h: usize,
        curr_h: usize,
        succ_h: usize,
        key: int,
    )
        requires
            Self::trav_frame(orig, pre),
            0 <= lvl < LEVELS,
            pred_h % 2 == 0,
            curr_h % 2 == 0,
            succ_h % 2 == 0,
            0 <= qpos,
            qpos + 2 < pre.links@[lvl].len(),
            pre.links@[lvl][qpos] == (pred_h / 2) as usize,
            pre.links@[lvl][qpos + 1] == (curr_h / 2) as usize,
            pre.links@[lvl][qpos + 2] == (succ_h / 2) as usize,
            Self::s_link(pre.nodes@, (pred_h / 2) as usize, lvl) == curr_h,
            Self::s_mark(pre.nodes@, (curr_h / 2) as usize, lvl),
            Self::s_key(pre.nodes@, (pred_h / 2) as usize) < key,
            post.nodes@.len() == pre.nodes@.len(),
            Self::link_update(pre.nodes@, post.nodes@, (pred_h / 2) as usize, lvl),
            Self::s_link(post.nodes@, (pred_h / 2) as usize, lvl) == succ_h,
            post.links@ == pre.links@.update(lvl, pre.links@[lvl].remove(qpos + 1)),
            post.registry == pre.registry,
            post.head == pre.head,
            post.tail == pre.tail,
        ensures
            Self::trav_frame(orig, post),
            post.links@[lvl].len() == pre.links@[lvl].len() - 1,
            qpos + 1 < post.links@[lvl].len(),
            post.links@[lvl][qpos] == (pred_h / 2) as usize,
            post.links@[lvl][qpos + 1] == (succ_h / 2) as usize,
            Self::s_link(post.nodes@, (pred_h / 2) as usize, lvl) == succ_h,
            Self::s_key(post.nodes@, (pred_h / 2) as usize) < key,
            forall|x: usize|
                0 <= x < post.nodes@.len() ==> #[trigger] Self::s_key(post.nodes@, x)
                    == Self::s_key(pre.nodes@, x),
            forall|l: int, ph: usize, sh: usize|
                0 <= l < LEVELS && l != lvl && #[trigger] Self::pair_form(
                    pre.nodes@,
                    pre.links@[l],
                    l,
                    key,
                    ph,
                    sh,
                ) ==> Self::pair_form(post.nodes@, post.links@[l], l, key, ph, sh),
            forall|n: usize|
                #[trigger] post.links@[0].contains(n) ==> pre.links@[0].contains(n),
    {        reveal(SkipList::nodes_form);
        reveal(SkipList::chain_form);
        reveal(SkipList::subset_form);
        reveal(SkipList::marks_form);
        reveal(SkipList::hpr_form);
        reveal(SkipList::pair_form);
        reveal(SkipList::live_form);
        reveal(SkipList::live_val_form);
        reveal(SkipList::map_form);
        reveal(SkipList::entries_form);
        reveal(SkipList::fc_form);

        let pi = (pred_h / 2) as usize;
        let ci = (curr_h / 2) as usize;
        let si = (succ_h / 2) as usize;
        let n1 = pre.nodes@;
        let n2 = post.nodes@;
        let c = pre.links@[lvl];
        let c2 = c.remove(qpos + 1);
        Self::lemma_link_update_frame(n1, n2, pi, lvl);
        assert(c2.len() == c.len() - 1);
        assert(forall|j: int|
            0 <= j < c2.len() ==> c2[j] == (if j < qpos + 1 {
                c[j]
            } else {
                c[j + 1]
            }));
        assert(Self::chain_form(n1, c, lvl));
        // the predecessor appears only at qpos, the victim only at qpos+1
        assert forall|p: int| 0 <= p < c.len() && p != qpos implies c[p] != pi by {
            if p < qpos {
                Self::lemma_chain_distinct(n1, c, lvl, p, qpos);
            } else {
                Self::lemma_chain_distinct(n1, c, lvl, qpos, p);
            }
        }
        assert forall|p: int| 0 <= p < c.len() && p != qpos + 1 implies c[p] != ci by {
            if p < qpos + 1 {
                Self::lemma_chain_distinct(n1, c, lvl, p, qpos + 1);
            } else {
                Self::lemma_chain_distinct(n1, c, lvl, qpos + 1, p);
            }
        }
        assert(Self::chain_form(n2, c2, lvl)) by {
            assert(c2[0] == c[0]);
            assert(c2[c2.len() - 1] == c[c.len() - 1]);
            assert forall|p: int|
                0 <= p < c2.len() - 1 implies Self::s_succ(n2, #[trigger] c2[p], lvl) == c2[p
                + 1] by {
                if p == qpos {
                    assert(c2[p] == pi);
                    assert(Self::s_succ(n2, pi, lvl) == si);
                    assert(c2[qpos + 1] == c[qpos + 2]);
                } else if p < qpos {
                    assert(c2[p] == c[p] && c2[p + 1] == c[p + 1]);
                    assert(c[p] != pi);
                    assert(Self::s_link(n2, c2[p], lvl) == Self::s_link(n1, c[p], lvl));
                } else {
                    assert(c2[p] == c[p + 1] && c2[p + 1] == c[p + 2]);
                    assert(c[p + 1] != pi);
                    assert(Self::s_link(n2, c2[p], lvl) == Self::s_link(n1, c[p + 1], lvl));
                }
            }
            assert forall|p: int|
                0 <= p < c2.len() - 1 implies Self::s_key(n2, #[trigger] c2[p]) < Self::s_key(
                    n2,
                    c2[p + 1],
                ) by {
                if p == qpos {
                    Self::lemma_chain_incr(n1, c, lvl, qpos, qpos + 2);
                } else if p < qpos {
                    assert(Self::s_key(n1, c[p]) < Self::s_key(n1, c[p + 1]));
                } else {
                    assert(Self::s_key(n1, c[p + 1]) < Self::s_key(n1, c[p + 2]));
                }
            }
            assert forall|p: int|
                1 <= p < c2.len() - 1 implies Self::s_top(n2, #[trigger] c2[p]) >= lvl && n2[
                c2[p] as int
            ].value is Some by {
                if p < qpos + 1 {
                    assert(c2[p] == c[p]);
                } else {
                    assert(c2[p] == c[p + 1]);
                }
            }
        }
        assert forall|l: int|
            0 <= l < LEVELS && l != lvl implies #[trigger] Self::chain_form(
            n2,
            post.links@[l],
            l,
        ) by {
            let cl = pre.links@[l];
            assert(post.links@[l] == cl);
            assert(Self::chain_form(n1, cl, l));
            assert forall|p: int|
                0 <= p < cl.len() - 1 implies Self::s_succ(n2, #[trigger] cl[p], l) == cl[p
                + 1] by {
                assert(Self::s_link(n2, cl[p], l) == Self::s_link(n1, cl[p], l));
            }
            assert forall|p: int|
                0 <= p < cl.len() - 1 implies Self::s_key(n2, #[trigger] cl[p]) < Self::s_key(
                    n2,
                    cl[p + 1],
                ) by {
                assert(Self::s_key(n1, cl[p]) < Self::s_key(n1, cl[p + 1]));
            }
            assert forall|p: int|
                1 <= p < cl.len() - 1 implies Self::s_top(n2, #[trigger] cl[p]) >= l && n2[
                cl[p] as int
            ].value is Some by {
                assert(Self::s_top(n1, cl[p]) >= l && n1[cl[p] as int].value is Some);
            }
        }
        assert(Self::chains_form(n2, post.links@));
        assert(n2.len() >= 2);
        assert(Self::s_key(n2, 0usize) == i128::MIN as int);
        assert(Self::s_key(n2, 1usize) == i128::MAX as int);
        assert(Self::s_top(n2, 0usize) == TOP_LEVEL as int);
        assert(Self::s_top(n2, 1usize) == TOP_LEVEL as int);
        assert(n2[0].value == n1[0].value);
        assert(n2[1].value == n1[1].value);
        assert(n2[0].value is None);
        assert(n2[1].value is None);
        assert forall|i: int|
                0 <= i < n2.len() implies (#[trigger] n2[i]).next@.len() == LEVELS && n2[
                i
            ].top_level <= TOP_LEVEL by {
                assert(n1[i].next@.len() == LEVELS && n1[i].top_level <= TOP_LEVEL);
                if i == pi {
                    assert(n2[i].next@ == n1[i].next@.update(lvl, n2[i].next@[lvl]));
                }
            }
        assert forall|i: usize, l: int|
                0 <= i < n2.len() && 0 <= l < LEVELS implies ((#[trigger] Self::s_succ(n2, i, l))
                as int) < n2.len() by {
                if i == pi && l == lvl {
                    assert(Self::s_succ(n2, pi, lvl) == si);
                    assert((si as int) < n1.len());
                } else {
                    assert(Self::s_link(n2, i, l) == Self::s_link(n1, i, l));
                    assert((Self::s_succ(n1, i, l) as int) < n1.len());
                }
            }
        assert forall|l: int| 0 <= l < LEVELS implies !(#[trigger] Self::s_mark(n2, 0, l)) by {
            assert(!Self::s_mark(n1, 0usize, l));
            if pi == 0 && l == lvl {
                assert(Self::s_link(n2, 0usize, l) == succ_h);
            } else {
                assert(Self::s_link(n2, 0usize, l) == Self::s_link(n1, 0usize, l));
            }
        }
        assert forall|l: int| 0 <= l < LEVELS implies !(#[trigger] Self::s_mark(n2, 1, l)) by {
            assert(!Self::s_mark(n1, 1usize, l));
            if pi == 1 && l == lvl {
                assert(Self::s_link(n2, 1usize, l) == succ_h);
            } else {
                assert(Self::s_link(n2, 1usize, l) == Self::s_link(n1, 1usize, l));
            }
        }
        assert(Self::s_key(n2, 0usize) == i128::MIN as int && Self::s_key(n2, 1usize)
            == i128::MAX as int);
        assert(Self::s_top(n2, 0usize) == TOP_LEVEL as int && Self::s_top(n2, 1usize)
            == TOP_LEVEL as int);
        assert(forall|i: int|
            0 <= i < n2.len() ==> (#[trigger] n2[i]).next@.len() == LEVELS && n2[i].top_level
                <= TOP_LEVEL);
        assert(forall|i: usize, l: int|
            0 <= i < n2.len() && 0 <= l < LEVELS ==> ((#[trigger] Self::s_succ(n2, i, l)) as int)
                < n2.len());
        assert(forall|l: int| 0 <= l < LEVELS ==> !(#[trigger] Self::s_mark(n2, 0, l)));
        assert(forall|l: int| 0 <= l < LEVELS ==> !(#[trigger] Self::s_mark(n2, 1, l)));
        assert(Self::nodes_form(n2));
        assert(Self::marks_form(n2)) by {
            assert forall|i: usize, a: int, b: int|
                0 <= i < n2.len() && 0 <= a <= b <= Self::s_top(n2, i) && #[trigger] Self::s_mark(
                    n2,
                    i,
                    a,
                ) implies #[trigger] Self::s_mark(n2, i, b) by {
                assert(Self::s_top(n2, i) == Self::s_top(n1, i));
                assert(Self::s_top(n1, i) <= TOP_LEVEL as int);
                assert(Self::s_mark(n2, i, a) == Self::s_mark(n1, i, a)) by {
                    if i == pi && a == lvl {
                        assert(Self::s_link(n2, pi, lvl) == succ_h);
                        assert(Self::s_link(n1, pi, lvl) == curr_h);
                    }
                }
                assert(Self::s_mark(n1, i, b));
                assert(Self::s_mark(n2, i, b) == Self::s_mark(n1, i, b)) by {
                    if i == pi && b == lvl {
                        assert(Self::s_link(n2, pi, lvl) == succ_h);
                        assert(Self::s_link(n1, pi, lvl) == curr_h);
                    }
                }
            }
        }
        assert forall|n: usize|
            #[trigger] post.links@[0].contains(n) implies pre.links@[0].contains(n) by {
            if lvl == 0 {
                let pp = choose|p: int|
                    0 <= p < post.links@[0].len() && post.links@[0][p] == n;
                if pp < qpos + 1 {
                    assert(c[pp] == n);
                } else {
                    assert(c[pp + 1] == n);
                }
            }
        }
        assert(Self::subset_form(n2, post.links@)) by {
            assert forall|l: int, x: usize|
                1 <= l < LEVELS && #[trigger] post.links@[l].contains(x) && !Self::s_mark(
                    n2,
                    x,
                    l - 1,
                ) implies post.links@[l - 1].contains(x) by {
                if l == lvl {
                    // x in c2, hence in c at a shifted position
                    assert(post.links@[l] == c2);
                    assert(c2.contains(x));
                    let p = choose|p: int| 0 <= p < c2.len() && c2[p] == x;
                    assert(0 <= p < c2.len() && c2[p] == x);
                    let p_old = if p < qpos + 1 {
                        p
                    } else {
                        p + 1
                    };
                    assert(c[p_old] == x);
                    assert(pre.links@[lvl].contains(x));
                    assert((x as int) < n1.len());
                    assert(x != pi || l - 1 != lvl);
                    assert(Self::s_mark(n2, x, l - 1) == Self::s_mark(n1, x, l - 1)) by {
                        if x == pi {
                            assert(n2[pi as int].next@ == n1[pi as int].next@.update(
                                lvl,
                                n2[pi as int].next@[lvl],
                            ));
                            assert(n2[x as int].next@[l - 1] == n1[x as int].next@[l - 1]);
                        } else {
                            assert(n2[x as int] == n1[x as int]);
                        }
                        assert(Self::s_link(n2, x, l - 1) == Self::s_link(n1, x, l - 1));
                    }
                    assert(pre.links@[l - 1].contains(x));
                    assert(post.links@[l - 1] == pre.links@[l - 1]);
                } else if l == lvl + 1 {
                    assert(post.links@[l] == pre.links@[l]);
                    if x == pi {
                        assert(!Self::s_mark(n2, pi, lvl)) by {
                            assert(Self::s_link(n2, pi, lvl) == succ_h);
                        }
                        assert(c2[qpos] == pi);
                        assert(post.links@[lvl].contains(pi));
                    } else {
                        assert(Self::s_mark(n2, x, lvl) == Self::s_mark(n1, x, lvl)) by {
                            assert(pre.links@[l].contains(x));
                            let pb = choose|pb: int|
                                0 <= pb < pre.links@[l].len() && pre.links@[l][pb] == x;
                            assert(Self::chain_form(n1, pre.links@[l], l));
                            assert((x as int) < n1.len());
                            assert(n2[x as int] == n1[x as int]);
                            assert(Self::s_link(n2, x, lvl) == Self::s_link(n1, x, lvl));
                        }
                        assert(pre.links@[lvl].contains(x));
                        let po = choose|po: int|
                            0 <= po < c.len() && c[po] == x;
                        assert(x != ci);
                        assert(po != qpos + 1);
                        let pn = if po < qpos + 1 {
                            po
                        } else {
                            po - 1
                        };
                        assert(c2[pn] == x);
                        assert(post.links@[lvl].contains(x));
                    }
                } else {
                    assert(post.links@[l] == pre.links@[l]);
                    assert(post.links@[l - 1] == pre.links@[l - 1]);
                    assert(Self::s_mark(n2, x, l - 1) == Self::s_mark(n1, x, l - 1)) by {
                        if x == pi && l - 1 == lvl {
                            assert(false);
                        } else if x == pi {
                            assert(n2[pi as int].next@ == n1[pi as int].next@.update(
                                lvl,
                                n2[pi as int].next@[lvl],
                            ));
                            assert(n2[x as int].next@[l - 1] == n1[x as int].next@[l - 1]);
                        } else {
                            assert(pre.links@[l].contains(x));
                            let pb = choose|pb: int|
                                0 <= pb < pre.links@[l].len() && pre.links@[l][pb] == x;
                            assert(Self::chain_form(n1, pre.links@[l], l));
                            assert((x as int) < n1.len());
                            assert(n2[x as int] == n1[x as int]);
                        }
                    }
                    assert(pre.links@[l - 1].contains(x));
                }
            }
        }
        assert(Self::hpr_form(post.registry, n2, post.links@)) by {
            assert forall|n: usize|
                #[trigger] post.registry.retired(n) implies (n as int) < n2.len()
                    && !post.links@[0].contains(n) by {
                assert(pre.registry.retired(n));
                if post.links@[0].contains(n) {
                    assert(pre.links@[0].contains(n));
                }
            }
        }
        // the denoted map is unchanged
        if lvl == 0 {
            assert forall|k: int|
                #[trigger] Self::live_form(n2, post.links@[0], k) == Self::live_form(
                    n1,
                    pre.links@[0],
                    k,
                ) && (Self::live_form(n1, pre.links@[0], k) ==> Self::live_val_form(
                    n2,
                    post.links@[0],
                    k,
                ) == Self::live_val_form(n1, pre.links@[0], k)) by {
                assert(0 < qpos + 1 < c.len() - 1);
                assert forall|x: usize|
                    0 <= x < n1.len() implies #[trigger] Self::s_mark(n2, x, 0) == Self::s_mark(
                        n1,
                        x,
                        0,
                    ) by {
                    if x == pi {
                        assert(Self::s_link(n2, pi, 0) == succ_h);
                        assert(Self::s_link(n1, pi, 0) == curr_h);
                    }
                }
                Self::lemma_live_remove(n1, n2, c, qpos + 1, k);
            }
        } else {
            assert(post.links@[0] == pre.links@[0]);
            assert forall|x: usize|
                0 <= x < n1.len() implies #[trigger] Self::s_mark(n2, x, 0) == Self::s_mark(
                    n1,
                    x,
                    0,
                ) by {
                if x == pi {
                    assert(Self::s_link(n2, x, 0) == Self::s_link(n1, x, 0));
                }
            }
            Self::lemma_live_same(n1, n2, pre.links@[0]);
        }
        assert(Self::map_form(n2, post.links@) =~= Self::map_form(n1, pre.links@));
        assert(post@ == pre@);
        // upper-level pairs survive: their chains and links are untouched
        assert forall|l: int, ph: usize, sh: usize|
            0 <= l < LEVELS && l != lvl && #[trigger] Self::pair_form(
                n1,
                pre.links@[l],
                l,
                key,
                ph,
                sh,
            ) implies Self::pair_form(n2, post.links@[l], l, key, ph, sh) by {
            let p2 = (ph / 2) as usize;
            let s2 = (sh / 2) as usize;
            assert(post.links@[l] == pre.links@[l]);
            assert(Self::s_link(n2, p2, l) == Self::s_link(n1, p2, l)) by {
                if p2 == pi && l == lvl {
                    assert(false);
                }
            }
            assert(Self::s_mark(n2, s2, l) == Self::s_mark(n1, s2, l)) by {
                if s2 == pi && l == lvl {
                    assert(false);
                }
            }
        }
        assert(post.wf());
        assert(Self::trav_frame(orig, post));
    }

    /// Inserts a key/value pair. Returns `false` without change when the
    /// key is present; otherwise links a node of random height in at every
    /// level, bottom first, and returns `true`.
    #[verifier::rlimit(100)]
    #[verifier::spinoff_prover]
    pub fn add(&mut self, key: KeyType, value: V, hp_record: usize) -> (r: bool)
        requires
            old(self).wf(),
            old(self).op_headroom(),
            old(self).arena_headroom(),
            i128::MIN < key < i128::MAX,
        ensures
            final(self).wf(),
            r == !old(self)@.dom().contains(key as int),
            r ==> final(self)@ == old(self)@.insert(key as int, value),
            !r ==> final(self)@ == old(self)@,
            final(self).registry_total() <= old(self).registry_total() + 10,
            final(self).arena_len() <= old(self).arena_len() + 1,
    {
        let hp: usize = self.enter();
        let top_u64: u64 = crate::util::generate_random_lvl(TOP_LEVEL as u64);
        let top_level: usize = top_u64 as usize;
        let result: FindResult = self.find(key, hp_record);
        if result.success {
            self.exit(hp);
            return false;
        }
        let mut new_node: Node<V> = Node::new(key, value, top_level);
        let mut l: usize = 0;
        while l <= top_level
            invariant
                top_level <= TOP_LEVEL,
                l <= top_level + 1,
                result.succs@.len() == LEVELS,
                new_node.key == key,
                new_node.value == Some(value),
                new_node.top_level == top_level,
                new_node.next@.len() == LEVELS,
                forall|l2: int| 0 <= l2 < l ==> new_node.next@[l2] == result.succs@[l2],
                forall|l2: int| l <= l2 < LEVELS ==> new_node.next@[l2] == 0,
            decreases top_level + 1 - l,
        {
            new_node.next[l] = result.succs[l];
            l = l + 1;
        }
        let idx: usize = self.nodes.len();
        let ghost pre_push = *self;
        self.nodes.push(new_node);
        proof {
            assert forall|l2: int|
                0 <= l2 < LEVELS implies (#[trigger] Self::s_link(self.nodes@, idx, l2)) % 2
                    == 0 by {
                if l2 <= top_level {
                    assert(Self::s_link(self.nodes@, idx, l2) == result.succs@[l2]);
                    assert(pre_push.found_pair(l2, key as int, result.preds@[l2], result.succs@[l2]));
                    assert(result.succs@[l2] % 2 == 0) by {
                        reveal(SkipList::pair_form);
                    }
                } else {
                    assert(Self::s_link(self.nodes@, idx, l2) == 0);
                }
            }
            assert forall|l2: int|
                0 <= l2 < LEVELS implies ((#[trigger] Self::s_succ(self.nodes@, idx, l2)) as int)
                    < self.nodes@.len() by {
                if l2 <= top_level {
                    assert(Self::s_link(self.nodes@, idx, l2) == result.succs@[l2]);
                    assert(pre_push.found_pair(l2, key as int, result.preds@[l2], result.succs@[l2]));
                    assert(result.succs@[l2] % 2 == 0 && ((result.succs@[l2] / 2) as int)
                        < pre_push.arena_len()) by {
                        reveal(SkipList::pair_form);
                    }
                } else {
                    assert(Self::s_link(self.nodes@, idx, l2) == 0);
                }
            }
            Self::lemma_grow_restore(pre_push, *self, idx, key as int);
            assert forall|l2: int|
                1 <= l2 < LEVELS implies (key as int) < Self::s_key(
                    self.nodes@,
                    ((#[trigger] result.succs@[l2]) / 2) as usize,
                ) by {
                assert(pre_push.found_pair(l2, key as int, result.preds@[l2], result.succs@[l2]));
                assert(((result.succs@[l2] / 2) as int) < pre_push.arena_len()) by {
                    reveal(SkipList::pair_form);
                }
                assert((key as int) < pre_push.key_of((result.succs@[l2] / 2) as usize));
                assert(Self::s_key(self.nodes@, (result.succs@[l2] / 2) as usize)
                    == Self::s_key(pre_push.nodes@, (result.succs@[l2] / 2) as usize));
            }
        }
        let pred0: usize = result.preds[0];
        let succ0: usize = result.succs[0];
        self.protect_slot(hp, 0, pred0 / 2);
        let ghost mid0 = *self;
        self.protect_slot(hp, 1, succ0 / 2);
        proof {
            reveal(SkipList::pair_form);
            assert(((pred0 / 2) as int) < pre_push.arena_len());
            assert(self.nodes@[(pred0 / 2) as int] == pre_push.nodes@[(pred0 / 2) as int]);
            assert(self.nodes@[(pred0 / 2) as int].next@.len() == LEVELS) by {
                reveal(SkipList::nodes_form);
            }
        }
        let expected: usize = self.nodes[pred0 / 2].next[0];
        proof {
            assert(expected == succ0);
        }
        let new_h: usize = 2 * idx;
        let ghost pre0 = *self;
        proof {
            assert forall|i: int|
                0 <= i < self.registry.records@.len() implies (#[trigger] self.registry.records@[
                i
            ]).r_list == pre_push.registry.records@[i].r_list by {
                assert(self.registry.records@[i].r_list == mid0.registry.records@[i].r_list);
                assert(mid0.registry.records@[i].r_list == pre_push.registry.records@[i].r_list);
            }
            crate::memory_management::lemma_retired_frame(&self.registry, &pre_push.registry);
            assert(!self.registry.retired(idx));
        }
        self.nodes[pred0 / 2].next[0] = new_h;
        proof {
            reveal(SkipList::pair_form);
            let q0 = choose|q: int|
                0 <= q < pre0.links@[0].len() - 1 && pre0.links@[0][q] == (pred0 / 2) as usize
                    && #[trigger] pre0.links@[0][q + 1] == (succ0 / 2) as usize;
            self.links = Ghost(pre0.links@.update(0, pre0.links@[0].insert(q0 + 1, idx)));
            assert(!Self::live_form(pre0.nodes@, pre0.links@[0], key as int)) by {
                reveal(SkipList::map_form);
                reveal(SkipList::live_form);
            }
            Self::lemma_insert_restore_struct(pre0, *self, 0, q0, pred0, succ0, idx, key as int);
            Self::lemma_insert_restore_map(pre0, *self, 0, q0, pred0, succ0, idx, key as int);
            assert(Self::s_val(pre0.nodes@, idx) == value);
            assert(self@ == old(self)@.insert(key as int, value));
            assert forall|l2: int|
                1 <= l2 < LEVELS implies (key as int) < Self::s_key(
                    self.nodes@,
                    ((#[trigger] result.succs@[l2]) / 2) as usize,
                ) by {
                assert(((result.succs@[l2] / 2) as int) < pre0.arena_len()) by {
                    reveal(SkipList::pair_form);
                    assert(Self::pair_form(
                        pre0.nodes@,
                        pre0.links@[l2],
                        l2,
                        key as int,
                        result.preds@[l2],
                        result.succs@[l2],
                    ));
                }
                assert(Self::s_key(self.nodes@, (result.succs@[l2] / 2) as usize)
                    == Self::s_key(pre0.nodes@, (result.succs@[l2] / 2) as usize));
            }
            assert forall|l2: int|
                1 <= l2 <= top_level implies #[trigger] Self::s_link(self.nodes@, idx, l2)
                    == result.succs@[l2] by {
                assert((pred0 / 2) as usize != idx);
                assert(self.nodes@[idx as int] == pre0.nodes@[idx as int]);
            }
        }
        let mut lvl: usize = 1;
        while lvl <= top_level
            invariant
                self.wf(),
                i128::MIN < key < i128::MAX,
                1 <= lvl <= top_level + 1,
                top_level <= TOP_LEVEL,
                result.preds@.len() == LEVELS,
                result.succs@.len() == LEVELS,
                self@ == old(self)@.insert(key as int, value),
                self.record_active(hp as int),
                !old(self).record_active(hp as int),
                self.registry_total() <= old(self).registry_total() + 10,
                self.arena_len() == old(self).arena_len() + 1,
                (idx as int) == old(self).arena_len(),
                new_h == 2 * idx,
                !self.registry.retired(idx),
                Self::s_key(self.nodes@, idx) == key as int,
                self.nodes@[idx as int].value is Some,
                Self::s_val(self.nodes@, idx) == value,
                Self::s_top(self.nodes@, idx) == top_level as int,
                forall|l2: int| 0 <= l2 < LEVELS ==> !(#[trigger] Self::s_mark(self.nodes@, idx, l2)),
                forall|l2: int|
                    lvl <= l2 <= top_level ==> #[trigger] Self::s_link(self.nodes@, idx, l2)
                        == result.succs@[l2],
                self.links@[(lvl - 1) as int].contains(idx),
                forall|l2: int| lvl <= l2 < LEVELS ==> !(#[trigger] self.links@[l2]).contains(idx),
                forall|l2: int|
                    lvl <= l2 < LEVELS ==> Self::pair_form(
                        self.nodes@,
                        self.links@[l2],
                        l2,
                        key as int,
                        #[trigger] result.preds@[l2],
                        result.succs@[l2],
                    ),
                forall|l2: int|
                    lvl <= l2 < LEVELS ==> (key as int) < Self::s_key(
                        self.nodes@,
                        ((#[trigger] result.succs@[l2]) / 2) as usize,
                    ),
            decreases top_level + 1 - lvl,
        {
            let ghost at_top = *self;
            let predl: usize = result.preds[lvl];
            let succl: usize = result.succs[lvl];
            self.protect_slot(hp, 2, predl / 2);
            let ghost midl = *self;
            self.protect_slot(hp, 3, succl / 2);
            proof {
                assert forall|i: int|
                    0 <= i < self.registry.records@.len() implies (
                #[trigger] self.registry.records@[i]).r_list == at_top.registry.records@[
                i
            ].r_list by {
                    assert(self.registry.records@[i].r_list == midl.registry.records@[i].r_list);
                    assert(midl.registry.records@[i].r_list == at_top.registry.records@[
                        i
                    ].r_list);
                }
                crate::memory_management::lemma_retired_frame(&self.registry, &at_top.registry);
                assert(!self.registry.retired(idx));
                reveal(SkipList::pair_form);
                assert(((predl / 2) as int) < self.arena_len());
                assert(self.nodes@[(predl / 2) as int].next@.len() == LEVELS) by {
                    reveal(SkipList::nodes_form);
                }
            }
            let expected2: usize = self.nodes[predl / 2].next[lvl];
            proof {
                assert(expected2 == succl) by {
                    reveal(SkipList::pair_form);
                }
            }
            let ghost prel = *self;
            self.nodes[predl / 2].next[lvl] = new_h;
            proof {
                reveal(SkipList::pair_form);
                let ql = choose|q: int|
                    0 <= q < prel.links@[lvl as int].len() - 1 && prel.links@[lvl as int][q] == (
                    predl / 2) as usize && #[trigger] prel.links@[lvl as int][q + 1] == (succl
                    / 2) as usize;
                self.links = Ghost(
                    prel.links@.update(lvl as int, prel.links@[lvl as int].insert(ql + 1, idx)),
                );
                assert((predl / 2) as usize != idx);
                Self::lemma_insert_restore_struct(
                    prel,
                    *self,
                    lvl as int,
                    ql,
                    predl,
                    succl,
                    idx,
                    key as int,
                );
                Self::lemma_insert_restore_map(
                    prel,
                    *self,
                    lvl as int,
                    ql,
                    predl,
                    succl,
                    idx,
                    key as int,
                );
                assert forall|i: int| prel.record_active(i) implies self.record_active(i) by {
                }
                assert(self@ == prel@);
                assert forall|l2: int|
                    lvl + 1 <= l2 <= top_level implies #[trigger] Self::s_link(
                        self.nodes@,
                        idx,
                        l2,
                    ) == result.succs@[l2] by {
                    assert((predl / 2) as usize != idx);
                    assert(Self::s_link(prel.nodes@, idx, l2) == result.succs@[l2]);
                    assert(self.nodes@[idx as int] == prel.nodes@[idx as int]);
                }
                assert forall|l2: int|
                    lvl + 1 <= l2 < LEVELS implies (key as int) < Self::s_key(
                        self.nodes@,
                        ((#[trigger] result.succs@[l2]) / 2) as usize,
                    ) by {
                    assert(((result.succs@[l2] / 2) as int) < prel.arena_len()) by {
                        assert(Self::pair_form(
                            prel.nodes@,
                            prel.links@[l2],
                            l2,
                            key as int,
                            result.preds@[l2],
                            result.succs@[l2],
                        ));
                    }
                    assert(Self::s_key(self.nodes@, (result.succs@[l2] / 2) as usize)
                        == Self::s_key(prel.nodes@, (result.succs@[l2] / 2) as usize));
                }
            }
            lvl = lvl + 1;
        }
        self.exit(hp);
        true
    }

    /// Removes a key. Returns `false` without change when the key is
    /// absent; otherwise marks the node's links top-down (the bottom-level
    /// mark deletes the key), lets a traversal unlink it, and returns
    /// `true`.
    #[verifier::rlimit(100)]
    #[verifier::spinoff_prover]
    pub fn remove(&mut self, key: KeyType, hp_record: usize) -> (r: bool)
        requires
            old(self).wf(),
            old(self).op_headroom(),
            i128::MIN < key < i128::MAX,
        ensures
            final(self).wf(),
            r == old(self)@.dom().contains(key as int),
            r ==> final(self)@ == old(self)@.remove(key as int),
            !r ==> final(self)@ == old(self)@,
            final(self).registry_total() <= old(self).registry_total() + 15,
            final(self).arena_len() == old(self).arena_len(),
    {
        let hp: usize = self.enter();
        let result: FindResult = self.find(key, hp_record);
        if !result.success {
            self.exit(hp);
            return false;
        }
        let victim_h: usize = result.succs[0];
        let vi: usize = victim_h / 2;
        self.protect_slot(hp, 0, vi);
        proof {
            assert((vi as int) < self.arena_len());
            assert(self.nodes@[vi as int].next@.len() == LEVELS) by {
                reveal(SkipList::nodes_form);
            }
            assert(vi != 0 && vi != 1) by {
                reveal(SkipList::nodes_form);
            }
            assert(Self::s_top(self.nodes@, vi) <= TOP_LEVEL as int) by {
                reveal(SkipList::nodes_form);
            }
        }
        let height: usize = self.nodes[vi].top_level;
        let mut l: usize = height;
        while l >= 1
            invariant
                self.wf(),
                i128::MIN < key < i128::MAX,
                l <= height,
                (vi as int) < self.arena_len(),
                vi != 0,
                vi != 1,
                height == Self::s_top(self.nodes@, vi),
                height <= TOP_LEVEL,
                self@ == old(self)@,
                old(self)@.dom().contains(key as int),
                self.record_active(hp as int),
                !old(self).record_active(hp as int),
                self.registry_total() <= old(self).registry_total() + 10,
                self.arena_len() == old(self).arena_len(),
                Self::s_key(self.nodes@, vi) == key as int,
                !Self::s_mark(self.nodes@, vi, 0),
                self.links@[0].contains(vi),
                forall|l2: int|
                    l < l2 <= height ==> #[trigger] Self::s_mark(self.nodes@, vi, l2),
            decreases l,
        {
            proof {
                assert(self.nodes@[vi as int].next@.len() == LEVELS) by {
                    reveal(SkipList::nodes_form);
                }
            }
            let composite: usize = self.nodes[vi].next[l];
            let succ_h: usize = get_node(composite);
            let marked: bool = get_marker(composite);
            self.protect_slot(hp, 1, succ_h / 2);
            if !marked {
                proof {
                    assert(composite == succ_h);
                }
                let newlink: usize = add_marker(succ_h, true);
                let ghost prem = *self;
                self.nodes[vi].next[l] = newlink;
                proof {
                    Self::lemma_mark_restore(prem, *self, vi, l as int, succ_h);
                    assert forall|i: int| prem.record_active(i) implies self.record_active(i) by {
                    }
                    assert(!Self::s_mark(self.nodes@, vi, 0)) by {
                        assert(Self::s_link(self.nodes@, vi, 0) == Self::s_link(prem.nodes@, vi, 0));
                    }
                    assert(self.links@[0].contains(vi));
                    assert(self@ == prem@);
                }
            }
            l = l - 1;
        }
        proof {
            assert(self.nodes@[vi as int].next@.len() == LEVELS) by {
                reveal(SkipList::nodes_form);
            }
        }
        let composite0: usize = self.nodes[vi].next[0];
        let succ0_h: usize = get_node(composite0);
        let marked0: bool = get_marker(composite0);
        proof {
            assert(!marked0);
            assert(composite0 == succ0_h);
        }
        let newlink0: usize = add_marker(succ0_h, true);
        let ghost prem0 = *self;
        self.nodes[vi].next[0] = newlink0;
        proof {
            Self::lemma_mark_restore(prem0, *self, vi, 0, succ0_h);
            assert forall|i: int| prem0.record_active(i) implies self.record_active(i) by {
            }
            assert(self@ == old(self)@.remove(key as int));
        }
        let _refresh: FindResult = self.find(key, hp_record);
        self.exit(hp);
        true
    }


    /// Unpacks what a traversal's per-level pair guarantees: an even
    /// predecessor handle whose key lies strictly below the key, linked
    /// directly to an even, unmarked successor handle whose key lies at or
    /// above it, the two adjacent in that level's chain.
    pub proof fn lemma_found_pair_facts(&self, lvl: int, key: int, ph: usize, sh: usize)
        requires
            self.found_pair(lvl, key, ph, sh),
        ensures
            ph % 2 == 0,
            sh % 2 == 0,
            ((ph / 2) as int) < self.arena_len(),
            ((sh / 2) as int) < self.arena_len(),
            self.key_of((ph / 2) as usize) < key,
            key <= self.key_of((sh / 2) as usize),
            self.link_of((ph / 2) as usize, lvl) == sh,
            !self.mark_of((sh / 2) as usize, lvl),
            exists|q: int|
                0 <= q < self.chain(lvl).len() - 1 && self.chain(lvl)[q] == (ph / 2) as usize
                    && #[trigger] self.chain(lvl)[q + 1] == (sh / 2) as usize,
    {
        reveal(SkipList::pair_form);
        let c = self.links@[lvl];
        let q = choose|q: int|
            0 <= q < c.len() - 1 && c[q] == (ph / 2) as usize && #[trigger] c[q + 1] == (sh / 2)
                as usize;
        assert(0 <= q < self.chain(lvl).len() - 1 && self.chain(lvl)[q] == (ph / 2) as usize
            && self.chain(lvl)[q + 1] == (sh / 2) as usize);
    }

    /// Insertion idempotence: however many times a key is put, the bottom
    /// chain holds at most one node for it — two bottom-chain positions
    /// carrying the same key are the same position.
    pub proof fn lemma_key_unique(&self, k: int, p1: int, p2: int)
        requires
            self.wf(),
            0 <= p1 < self.chain(0).len(),
            0 <= p2 < self.chain(0).len(),
            self.key_of(self.chain(0)[p1]) == k,
            self.key_of(self.chain(0)[p2]) == k,
        ensures
            p1 == p2,
    {
        assert(Self::chain_form(self.nodes@, self.links@[0], 0));
        if p1 < p2 {
            Self::lemma_chain_incr(self.nodes@, self.chain(0), 0, p1, p2);
        }
        if p2 < p1 {
            Self::lemma_chain_incr(self.nodes@, self.chain(0), 0, p2, p1);
        }
    }

    /// A node handed to the registry for reclamation.
    pub closed spec fn node_retired(&self, n: usize) -> bool {
        self.registry.retired(n)
    }

    /// Safe reclamation, rendered in the arena model: a node is retired
    /// only after it was physically unlinked, so no retired node is ever
    /// part of the bottom chain a traversal walks.
    pub proof fn lemma_retired_unreachable(&self, n: usize)
        requires
            self.wf(),
            self.node_retired(n),
        ensures
            !self.chain(0).contains(n),
    {
        reveal(SkipList::hpr_form);
    }

    /// Deletion is exclusive: once a removal of `k` succeeds the map no
    /// longer holds `k`, so by the contracts of `remove` and `find` every
    /// later removal of `k` returns `false` and every later lookup reports
    /// it absent, until it is inserted again.
    pub proof fn lemma_remove_exclusive(m: Map<int, V>, k: int)
        ensures
            !m.remove(k).dom().contains(k),
    {
    }


    /// Looks a key up: the value the list maps it to, if any.
    pub fn get(&mut self, key: KeyType, hp_record: usize) -> (r: Option<V>)
        requires
            old(self).wf(),
            old(self).hp_headroom(),
            i128::MIN < key < i128::MAX,
        ensures
            final(self).wf(),
            final(self)@ == old(self)@,
            final(self).arena_len() == old(self).arena_len(),
            final(self).registry_total() <= old(self).registry_total() + 5,
            r == (if old(self)@.dom().contains(key as int) {
                Some(old(self)@[key as int])
            } else {
                None
            }),
    {
        let result: FindResult = self.find(key, hp_record);
        if result.success {
            let vi: usize = result.succs[0] / 2;
            proof {
                assert((vi as int) < self.arena_len());
                assert(self.nodes@[vi as int].value is Some) by {
                    reveal(SkipList::chain_form);
                    assert(Self::chain_form(self.nodes@, self.links@[0], 0));
                    let p = choose|p: int|
                        0 <= p < self.links@[0].len() && self.links@[0][p] == vi;
                    assert(p != 0 && p != self.links@[0].len() - 1) by {
                        reveal(SkipList::nodes_form);
                    }
                }
                assert(self@[key as int] == self.val_of(vi));
            }
            match &self.nodes[vi].value {
                Some(v) => Some(*v),
                None => None,
            }
        } else {
            None
        }
    }

}

} // verus!
