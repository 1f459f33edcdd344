//! Red-black tree keyed by strings, with tombstone deletion: deleting a
//! key re-inserts it with no value.
//!
//! Nodes live in an arena; child and parent links are arena indices, so
//! the tree's node list doubles as its adjacency list. Walks are bounded
//! by the node count, which no simple path can exceed.

use vstd::prelude::*;
use vstd::string::{StrSliceExecFns, StringSliceAdditionalSpecFns};
use vstd::utf8::encode_utf8;

verus! {

broadcast use vstd::seq_lib::group_seq_properties;

#[derive(Clone, Copy, Debug, PartialEq, Eq, Structural)]
pub enum Color {
    Red,
    Black,
}

pub struct Node {
    pub key: String,
    pub value: Option<String>,
    pub color: Color,
    pub left: Option<usize>,
    pub right: Option<usize>,
    pub parent: Option<usize>,
}

/// Lexicographic order of two byte strings: negative, zero or positive as
/// the first sorts below, equal to or above the second.
pub open spec fn spec_cmp(a: Seq<u8>, b: Seq<u8>) -> int
    decreases a.len(),
{
    if a.len() == 0 && b.len() == 0 {
        0
    } else if a.len() == 0 {
        -1
    } else if b.len() == 0 {
        1
    } else if a[0] < b[0] {
        -1
    } else if a[0] > b[0] {
        1
    } else {
        spec_cmp(a.drop_first(), b.drop_first())
    }
}

/// How two keys compare.
#[derive(Clone, Copy, Debug, PartialEq, Eq, Structural)]
pub enum KeyOrder {
    Less,
    Equal,
    Greater,
}

pub proof fn lemma_spec_cmp_eq(a: Seq<u8>, b: Seq<u8>)
    ensures
        (spec_cmp(a, b) == 0) == (a == b),
    decreases a.len(),
{
    if a.len() == 0 && b.len() == 0 {
        assert(a =~= b);
    } else if a.len() > 0 && b.len() > 0 && a[0] == b[0] {
        lemma_spec_cmp_eq(a.drop_first(), b.drop_first());
        if spec_cmp(a, b) == 0 {
            assert(a.drop_first() == b.drop_first());
            assert(a =~= b);
        }
        if a == b {
            assert(a.drop_first() =~= b.drop_first());
        }
    } else {
        if a == b {
            assert(a.len() == b.len());
            if a.len() > 0 {
                assert(a[0] == b[0]);
            }
        }
    }
}

/// Compares two keys byte by byte in lexicographic order.
pub fn key_cmp(a: &str, b: &str) -> (r: KeyOrder)
    ensures
        (r == KeyOrder::Equal) == (spec_cmp(a.spec_bytes(), b.spec_bytes()) == 0),
        (r == KeyOrder::Less) == (spec_cmp(a.spec_bytes(), b.spec_bytes()) < 0),
        (r == KeyOrder::Greater) == (spec_cmp(a.spec_bytes(), b.spec_bytes()) > 0),
        (r == KeyOrder::Equal) == (a@ == b@),
{
    let av: Vec<u8> = a.as_bytes_vec();
    let bv: Vec<u8> = b.as_bytes_vec();
    let mut i: usize = 0;
    let mut r: KeyOrder = KeyOrder::Equal;
    loop
        invariant
            i <= av@.len(),
            i <= bv@.len(),
            av@ == a.spec_bytes(),
            bv@ == b.spec_bytes(),
            spec_cmp(a.spec_bytes(), b.spec_bytes()) == spec_cmp(
                av@.skip(i as int),
                bv@.skip(i as int),
            ),
        ensures
            (r == KeyOrder::Equal) == (spec_cmp(a.spec_bytes(), b.spec_bytes()) == 0),
            (r == KeyOrder::Less) == (spec_cmp(a.spec_bytes(), b.spec_bytes()) < 0),
            (r == KeyOrder::Greater) == (spec_cmp(a.spec_bytes(), b.spec_bytes()) > 0),
        decreases av@.len() - i,
    {
        if i >= av.len() && i >= bv.len() {
            proof {
                assert(av@.skip(i as int).len() == 0 && bv@.skip(i as int).len() == 0);
            }
            r = KeyOrder::Equal;
            break ;
        }
        if i >= av.len() {
            proof {
                assert(av@.skip(i as int).len() == 0 && bv@.skip(i as int).len() > 0);
            }
            r = KeyOrder::Less;
            break ;
        }
        if i >= bv.len() {
            proof {
                assert(av@.skip(i as int).len() > 0 && bv@.skip(i as int).len() == 0);
            }
            r = KeyOrder::Greater;
            break ;
        }
        proof {
            assert(av@.skip(i as int)[0] == av@[i as int]);
            assert(bv@.skip(i as int)[0] == bv@[i as int]);
        }
        if av[i] < bv[i] {
            r = KeyOrder::Less;
            break ;
        }
        if av[i] > bv[i] {
            r = KeyOrder::Greater;
            break ;
        }
        proof {
            assert(av@.skip(i as int).drop_first() =~= av@.skip(i + 1));
            assert(bv@.skip(i as int).drop_first() =~= bv@.skip(i + 1));
        }
        i = i + 1;
    }
    proof {
        lemma_spec_cmp_eq(a.spec_bytes(), b.spec_bytes());
        if a.spec_bytes() == b.spec_bytes() {
            vstd::utf8::encode_utf8_decode_utf8(a@);
            vstd::utf8::encode_utf8_decode_utf8(b@);
        }
        if a@ == b@ {
            assert(a.spec_bytes() == b.spec_bytes());
        }
    }
    r
}

impl Node {
    /// A fresh node with the given fields; a `None` value is a tombstone.
    pub fn new(
        key: String,
        value: Option<&str>,
        color: Color,
        left: Option<usize>,
        right: Option<usize>,
        parent: Option<usize>,
    ) -> (n: Node)
        ensures
            n.key == key,
            value is Some ==> (n.value matches Some(v) && v@ == value.unwrap()@),
            value is None ==> n.value is None,
            n.color == color,
            n.left == left,
            n.right == right,
            n.parent == parent,
    {
        match value {
            Some(v) => Node { key, value: Some(v.to_owned()), color, left, right, parent },
            None => Node { key, value: None, color, left, right, parent },
        }
    }

    pub fn get_color(&self) -> (c: Color)
        ensures
            c == self.color,
    {
        self.color
    }

    pub fn update_color(&mut self, new_color: Color)
        ensures
            final(self).color == new_color,
            final(self).key == old(self).key,
            final(self).value == old(self).value,
            final(self).left == old(self).left,
            final(self).right == old(self).right,
            final(self).parent == old(self).parent,
    {
        self.color = new_color;
    }

    pub fn get_left_child(&self) -> (r: Option<usize>)
        ensures
            r == self.left,
    {
        self.left
    }

    pub fn get_right_child(&self) -> (r: Option<usize>)
        ensures
            r == self.right,
    {
        self.right
    }

    pub fn get_parent(&self) -> (r: Option<usize>)
        ensures
            r == self.parent,
    {
        self.parent
    }
}

/// Result of walking the tree toward a key with limited fuel, following
/// smaller keys left and greater keys right.
pub open spec fn spec_walk(nodes: Seq<Node>, cur: Option<usize>, kb: Seq<u8>, fuel: nat) -> Option<
    usize,
>
    decreases fuel,
{
    match cur {
        None => None,
        Some(i) => {
            if fuel == 0 || i >= nodes.len() {
                None
            } else {
                let c = spec_cmp(kb, encode_utf8(nodes[i as int].key@));
                if c == 0 {
                    Some(i)
                } else if c > 0 {
                    spec_walk(nodes, nodes[i as int].right, kb, (fuel - 1) as nat)
                } else {
                    spec_walk(nodes, nodes[i as int].left, kb, (fuel - 1) as nat)
                }
            }
        },
    }
}

/// The bounded walk reads only keys and child links: values, colors and
/// parent links play no part in where a search goes.
pub proof fn lemma_walk_value_frame(
    nodes1: Seq<Node>,
    nodes2: Seq<Node>,
    cur: Option<usize>,
    kb: Seq<u8>,
    fuel: nat,
)
    requires
        nodes2.len() == nodes1.len(),
        forall|j: int|
            0 <= j < nodes1.len() ==> (#[trigger] nodes2[j]).key == nodes1[j].key && nodes2[j].left
                == nodes1[j].left && nodes2[j].right == nodes1[j].right,
    ensures
        spec_walk(nodes2, cur, kb, fuel) == spec_walk(nodes1, cur, kb, fuel),
    decreases fuel,
{
    match cur {
        None => {},
        Some(i) => {
            if fuel == 0 || i >= nodes1.len() {
            } else {
                assert(nodes2[i as int].key == nodes1[i as int].key);
                lemma_walk_value_frame(
                    nodes1,
                    nodes2,
                    nodes1[i as int].right,
                    kb,
                    (fuel - 1) as nat,
                );
                lemma_walk_value_frame(
                    nodes1,
                    nodes2,
                    nodes1[i as int].left,
                    kb,
                    (fuel - 1) as nat,
                );
            }
        },
    }
}

pub struct RBTree {
    nodes: Vec<Node>,
    root: Option<usize>,
}

impl RBTree {
    /// The arena: every node ever inserted, in insertion order.
    pub closed spec fn arena(&self) -> Seq<Node> {
        self.nodes@
    }

    pub closed spec fn spec_root(&self) -> Option<usize> {
        self.root
    }

    /// The root, when there is one, is black: the red-black coloring rule
    /// every insert fix-up re-establishes.
    pub open spec fn root_black(&self) -> bool {
        self.spec_root() matches Some(r) ==> (r as int) < self.arena().len() && self.arena()[
            r as int
        ].color == Color::Black
    }

    /// Link indices stay inside the arena.
    pub closed spec fn wf(&self) -> bool {
        &&& self.nodes@.len() < usize::MAX as int
        &&& (self.root matches Some(r) ==> (r as int) < self.nodes@.len())
        &&& forall|i: int|
            0 <= i < self.nodes@.len() ==> ((#[trigger] self.nodes@[i]).left matches Some(l)
                ==> (l as int) < self.nodes@.len()) && (self.nodes@[i].right matches Some(r)
                ==> (r as int) < self.nodes@.len()) && (self.nodes@[i].parent matches Some(p)
                ==> (p as int) < self.nodes@.len())
    }

    pub fn new() -> (t: RBTree)
        ensures
            t.wf(),
            t.arena().len() == 0,
            t.spec_root() is None,
            t.root_black(),
    {
        RBTree { nodes: Vec::new(), root: None }
    }

    /// The number of nodes ever inserted (tombstones included).
    pub fn len(&self) -> (n: usize)
        ensures
            n == self.arena().len(),
    {
        self.nodes.len()
    }

    /// Whether another insert fits the arena, decided at run time.
    pub fn can_insert(&self) -> (r: bool)
        ensures
            r == (self.arena().len() + 1 < usize::MAX as int),
    {
        self.nodes.len() < usize::MAX - 1
    }

    pub fn is_empty(&self) -> (r: bool)
        ensures
            r == (self.spec_root() is None),
    {
        self.root.is_none()
    }

    /// Walks from the root toward `key`: exactly the bounded walk of
    /// `spec_walk`, with fuel that a simple path can never exhaust.
    fn search_node(&self, key: &str) -> (r: Option<usize>)
        requires
            self.wf(),
        ensures
            r == spec_walk(
                self.arena(),
                self.spec_root(),
                key.spec_bytes(),
                (self.arena().len() + 1) as nat,
            ),
            r matches Some(i) ==> (i as int) < self.arena().len() && self.arena()[
                i as int
            ].key@ == key@,
    {
        let ghost kb = key.spec_bytes();
        let mut iter: Option<usize> = self.root;
        let mut fuel: usize = self.nodes.len() + 1;
        loop
            invariant
                self.wf(),
                fuel <= self.arena().len() + 1,
                (iter matches Some(i) ==> (i as int) < self.arena().len()),
                spec_walk(self.arena(), self.spec_root(), kb, (self.arena().len() + 1) as nat)
                    == spec_walk(self.arena(), iter, kb, fuel as nat),
                kb == key.spec_bytes(),
            ensures
                spec_walk(self.arena(), self.spec_root(), kb, (self.arena().len() + 1) as nat)
                    == spec_walk(self.arena(), iter, kb, fuel as nat),
                match spec_walk(self.arena(), iter, kb, fuel as nat) {
                    Some(i) => (i as int) < self.arena().len() && self.arena()[i as int].key@
                        == key@,
                    None => true,
                },
                iter == spec_walk(self.arena(), iter, kb, fuel as nat),
            decreases fuel,
        {
            match iter {
                None => {
                    break ;
                },
                Some(i) => {
                    if fuel == 0 {
                        iter = None;
                        break ;
                    }
                    match key_cmp(key, self.nodes[i].key.as_str()) {
                        KeyOrder::Equal => {
                            proof {
                                lemma_spec_cmp_eq(kb, encode_utf8(self.nodes@[i as int].key@));
                                vstd::utf8::encode_utf8_decode_utf8(key@);
                                vstd::utf8::encode_utf8_decode_utf8(self.nodes@[i as int].key@);
                                assert(spec_cmp(kb, encode_utf8(self.nodes@[i as int].key@))
                                    == 0);
                                assert(spec_walk(self.arena(), iter, kb, fuel as nat) == Some(i));
                            }
                            break ;
                        },
                        KeyOrder::Greater => {
                            iter = self.nodes[i].right;
                            fuel = fuel - 1;
                        },
                        KeyOrder::Less => {
                            iter = self.nodes[i].left;
                            fuel = fuel - 1;
                        },
                    }
                },
            }
        }
        iter
    }

    /// Looks a key up: yields its key and value exactly when the bounded
    /// walk finds it.
    pub fn search(&self, key: &str) -> (r: Option<(String, Option<String>)>)
        requires
            self.wf(),
        ensures
            match spec_walk(
                self.arena(),
                self.spec_root(),
                key.spec_bytes(),
                (self.arena().len() + 1) as nat,
            ) {
                Some(i) => r matches Some(p) && p.0@ == key@ && p.1 == self.arena()[
                    i as int
                ].value,
                None => r is None,
            },
    {
        let node: Option<usize> = self.search_node(key);
        match node {
            Some(i) => Some((self.nodes[i].key.clone(), self.nodes[i].value.clone())),
            None => None,
        }
    }

    /// Inserts a tombstone: the key's value becomes absent.
    pub fn delete(&mut self, key: &str)
        requires
            old(self).wf(),
            old(self).arena().len() + 1 < usize::MAX as int,
            old(self).root_black(),
        ensures
            final(self).wf(),
            final(self).root_black(),
            Self::upsert_shape(old(self).arena(), final(self).arena(), key@, None),
            match spec_walk(
                old(self).arena(),
                old(self).spec_root(),
                key.spec_bytes(),
                (old(self).arena().len() + 1) as nat,
            ) {
                Some(i) => {
                    &&& final(self).arena().len() == old(self).arena().len()
                    &&& final(self).spec_root() == old(self).spec_root()
                    &&& forall|j: int|
                        0 <= j < old(self).arena().len() && j != i ==> final(self).arena()[j]
                            == old(self).arena()[j]
                    &&& final(self).arena()[i as int].key == old(self).arena()[i as int].key
                    &&& final(self).arena()[i as int].value is None
                    &&& final(self).arena()[i as int].color == old(self).arena()[i as int].color
                    &&& final(self).arena()[i as int].left == old(self).arena()[i as int].left
                    &&& final(self).arena()[i as int].right == old(self).arena()[i as int].right
                    &&& final(self).arena()[i as int].parent == old(self).arena()[
                        i as int
                    ].parent
                    &&& spec_walk(
                        final(self).arena(),
                        final(self).spec_root(),
                        key.spec_bytes(),
                        (final(self).arena().len() + 1) as nat,
                    ) == Some(i)
                },
                None => {
                    &&& final(self).arena().len() == old(self).arena().len() + 1
                    &&& final(self).arena()[old(self).arena().len() as int].key@ == key@
                    &&& (old(self).arena().len() == 0 ==> final(self).spec_root() == Some(0usize)
                        && final(self).arena()[0].left is None && final(self).arena()[0].right
                        is None && final(self).arena()[0].color == Color::Black && spec_walk(
                        final(self).arena(),
                        final(self).spec_root(),
                        key.spec_bytes(),
                        (final(self).arena().len() + 1) as nat,
                    ) == Some(0usize))
                },
            },
    {
        self.insert_generic(key, None);
    }

    /// Inserts a key, replacing the value if the key is already present.
    pub fn insert(&mut self, key: &str, val: &str)
        requires
            old(self).wf(),
            old(self).arena().len() + 1 < usize::MAX as int,
            old(self).root_black(),
        ensures
            final(self).wf(),
            final(self).root_black(),
            Self::upsert_shape(old(self).arena(), final(self).arena(), key@, Some(val@)),
            match spec_walk(
                old(self).arena(),
                old(self).spec_root(),
                key.spec_bytes(),
                (old(self).arena().len() + 1) as nat,
            ) {
                Some(i) => {
                    &&& final(self).arena().len() == old(self).arena().len()
                    &&& final(self).spec_root() == old(self).spec_root()
                    &&& forall|j: int|
                        0 <= j < old(self).arena().len() && j != i ==> final(self).arena()[j]
                            == old(self).arena()[j]
                    &&& final(self).arena()[i as int].key == old(self).arena()[i as int].key
                    &&& (final(self).arena()[i as int].value matches Some(nv) && nv@ == val@)
                    &&& final(self).arena()[i as int].color == old(self).arena()[i as int].color
                    &&& final(self).arena()[i as int].left == old(self).arena()[i as int].left
                    &&& final(self).arena()[i as int].right == old(self).arena()[i as int].right
                    &&& final(self).arena()[i as int].parent == old(self).arena()[
                        i as int
                    ].parent
                    &&& spec_walk(
                        final(self).arena(),
                        final(self).spec_root(),
                        key.spec_bytes(),
                        (final(self).arena().len() + 1) as nat,
                    ) == Some(i)
                },
                None => {
                    &&& final(self).arena().len() == old(self).arena().len() + 1
                    &&& final(self).arena()[old(self).arena().len() as int].key@ == key@
                    &&& (old(self).arena().len() == 0 ==> final(self).spec_root() == Some(0usize)
                        && final(self).arena()[0].left is None && final(self).arena()[0].right
                        is None && final(self).arena()[0].color == Color::Black && spec_walk(
                        final(self).arena(),
                        final(self).spec_root(),
                        key.spec_bytes(),
                        (final(self).arena().len() + 1) as nat,
                    ) == Some(0usize))
                },
            },
    {
        self.insert_generic(key, Some(val));
    }

    /// How an insert changes the arena: either one node with the key got
    /// the new value, everything else untouched up to color and links; or
    /// one fresh node carrying the key and value was appended.
    pub open spec fn upsert_shape(
        before: Seq<Node>,
        after: Seq<Node>,
        key: Seq<char>,
        val: Option<Seq<char>>,
    ) -> bool {
        ||| {
            &&& after.len() == before.len()
            &&& exists|j: int|
                0 <= j < before.len() && (#[trigger] before[j]).key@ == key && after[j].key
                    == before[j].key && (match val {
                    Some(v) => after[j].value matches Some(nv) && nv@ == v,
                    None => after[j].value is None,
                }) && (forall|t: int|
                    0 <= t < before.len() && t != j ==> (#[trigger] after[t]).key == before[t].key
                        && after[t].value == before[t].value)
        }
        ||| {
            &&& after.len() == before.len() + 1
            &&& after[before.len() as int].key@ == key
            &&& (match val {
                Some(v) => after[before.len() as int].value matches Some(nv) && nv@ == v,
                None => after[before.len() as int].value is None,
            })
            &&& forall|t: int|
                0 <= t < before.len() ==> (#[trigger] after[t]).key == before[t].key && after[
                    t
                ].value == before[t].value
        }
    }

    /// Keys and values are untouched; only colors and links may change.
    pub open spec fn entries_same(before: Seq<Node>, after: Seq<Node>) -> bool {
        &&& after.len() == before.len()
        &&& forall|t: int|
            0 <= t < before.len() ==> (#[trigger] after[t]).key == before[t].key && after[t].value
                == before[t].value
    }

    #[verifier::rlimit(100)]
    #[verifier::spinoff_prover]
    fn insert_generic(&mut self, key: &str, val: Option<&str>)
        requires
            old(self).wf(),
            old(self).arena().len() + 1 < usize::MAX as int,
            old(self).root_black(),
        ensures
            final(self).wf(),
            final(self).root_black(),
            Self::upsert_shape(
                old(self).arena(),
                final(self).arena(),
                key@,
                match val {
                    Some(v) => Some(v@),
                    None => None,
                },
            ),
            match spec_walk(
                old(self).arena(),
                old(self).spec_root(),
                key.spec_bytes(),
                (old(self).arena().len() + 1) as nat,
            ) {
                Some(i) => {
                    &&& final(self).arena().len() == old(self).arena().len()
                    &&& final(self).spec_root() == old(self).spec_root()
                    &&& forall|j: int|
                        0 <= j < old(self).arena().len() && j != i ==> final(self).arena()[j]
                            == old(self).arena()[j]
                    &&& final(self).arena()[i as int].key == old(self).arena()[i as int].key
                    &&& (match val {
                        Some(v) => final(self).arena()[i as int].value matches Some(nv) && nv@
                            == v@,
                        None => final(self).arena()[i as int].value is None,
                    })
                    &&& final(self).arena()[i as int].color == old(self).arena()[i as int].color
                    &&& final(self).arena()[i as int].left == old(self).arena()[i as int].left
                    &&& final(self).arena()[i as int].right == old(self).arena()[i as int].right
                    &&& final(self).arena()[i as int].parent == old(self).arena()[
                        i as int
                    ].parent
                    &&& spec_walk(
                        final(self).arena(),
                        final(self).spec_root(),
                        key.spec_bytes(),
                        (final(self).arena().len() + 1) as nat,
                    ) == Some(i)
                },
                None => {
                    &&& final(self).arena().len() == old(self).arena().len() + 1
                    &&& final(self).arena()[old(self).arena().len() as int].key@ == key@
                    &&& (old(self).arena().len() == 0 ==> final(self).spec_root() == Some(0usize)
                        && final(self).arena()[0].left is None && final(self).arena()[0].right
                        is None && final(self).arena()[0].color == Color::Black && spec_walk(
                        final(self).arena(),
                        final(self).spec_root(),
                        key.spec_bytes(),
                        (final(self).arena().len() + 1) as nat,
                    ) == Some(0usize))
                },
            },
    {
        let ghost kb = key.spec_bytes();
        let mut leaf_node: Option<usize> = None;
        let mut iter: Option<usize> = self.root;
        let mut fuel: usize = self.nodes.len() + 1;
        loop
            invariant
                self.wf(),
                *self == *old(self),
                fuel <= self.arena().len() + 1,
                (iter matches Some(i) ==> (i as int) < self.arena().len()),
                (leaf_node matches Some(i) ==> (i as int) < self.arena().len()),
                kb == key.spec_bytes(),
                spec_walk(self.arena(), self.spec_root(), kb, (self.arena().len() + 1) as nat)
                    == spec_walk(self.arena(), iter, kb, fuel as nat),
            ensures
                self.wf(),
                *self == *old(self),
                spec_walk(self.arena(), self.spec_root(), kb, (self.arena().len() + 1) as nat)
                    == spec_walk(self.arena(), iter, kb, fuel as nat),
                iter == spec_walk(self.arena(), iter, kb, fuel as nat),
                (iter matches Some(i) ==> (i as int) < self.arena().len() && self.arena()[
                    i as int
                ].key@ == key@),
                (leaf_node matches Some(i) ==> (i as int) < self.arena().len()),
            decreases fuel,
        {
            match iter {
                None => {
                    break ;
                },
                Some(i) => {
                    if fuel == 0 {
                        iter = None;
                        break ;
                    }
                    leaf_node = Some(i);
                    match key_cmp(key, self.nodes[i].key.as_str()) {
                        KeyOrder::Equal => {
                            proof {
                                lemma_spec_cmp_eq(kb, encode_utf8(self.nodes@[i as int].key@));
                                vstd::utf8::encode_utf8_decode_utf8(key@);
                                vstd::utf8::encode_utf8_decode_utf8(self.nodes@[i as int].key@);
                                assert(spec_cmp(kb, encode_utf8(self.nodes@[i as int].key@))
                                    == 0);
                                assert(spec_walk(self.arena(), iter, kb, fuel as nat) == Some(i));
                            }
                            break ;
                        },
                        KeyOrder::Less => {
                            iter = self.nodes[i].left;
                            fuel = fuel - 1;
                        },
                        KeyOrder::Greater => {
                            iter = self.nodes[i].right;
                            fuel = fuel - 1;
                        },
                    }
                },
            }
        }
        match iter {
            Some(i) => {
                // the key exists: replace its value in place
                match val {
                    Some(v) => {
                        self.nodes[i].value = Some(v.to_owned());
                    },
                    None => {
                        self.nodes[i].value = None;
                    },
                }
                proof {
                    let j = i as int;
                    assert(self.arena()[j].key@ == key@);
                    assert forall|t: int|
                        0 <= t < old(self).arena().len() implies (#[trigger] self.arena()[t]).key
                        == old(self).arena()[t].key && self.arena()[t].left == old(
                        self,
                    ).arena()[t].left && self.arena()[t].right == old(self).arena()[t].right by {
                        if t != j {
                            assert(self.arena()[t] == old(self).arena()[t]);
                        }
                    }
                    lemma_walk_value_frame(
                        old(self).arena(),
                        self.arena(),
                        old(self).spec_root(),
                        kb,
                        (self.arena().len() + 1) as nat,
                    );
                    assert(Self::upsert_shape(
                        old(self).arena(),
                        self.arena(),
                        key@,
                        match val {
                            Some(v) => Some(v@),
                            None => None,
                        },
                    ));
                }
                return ;
            },
            None => {},
        }
        let idx: usize = self.nodes.len();
        let new_node: Node = Node::new(key.to_owned(), val, Color::Red, None, None, leaf_node);
        self.nodes.push(new_node);
        match leaf_node {
            Some(leaf) => {
                match key_cmp(key, self.nodes[leaf].key.as_str()) {
                    KeyOrder::Less => {
                        self.nodes[leaf].left = Some(idx);
                    },
                    _ => {
                        self.nodes[leaf].right = Some(idx);
                    },
                }
            },
            None => {
                self.root = Some(idx);
            },
        }
        let ghost grown = self.nodes@;
        self.insert_fixup(idx);
        proof {
            assert(Self::upsert_shape(
                old(self).arena(),
                self.arena(),
                key@,
                match val {
                    Some(v) => Some(v@),
                    None => None,
                },
            ));
            if old(self).arena().len() == 0 {
                assert(self.spec_root() == Some(0usize));
                assert(self.arena()[0].key@ == key@);
                lemma_spec_cmp_eq(kb, encode_utf8(self.arena()[0].key@));
                assert(spec_cmp(kb, encode_utf8(self.arena()[0].key@)) == 0);
                assert(spec_walk(
                    self.arena(),
                    self.spec_root(),
                    kb,
                    (self.arena().len() + 1) as nat,
                ) == Some(0usize));
            }
        }
    }

    /// Restores the red-black coloring upward from a freshly inserted
    /// node, recoloring and rotating; keys and values are untouched.
    #[verifier::rlimit(100)]
    #[verifier::spinoff_prover]
    fn insert_fixup(&mut self, new_node: usize)
        requires
            old(self).wf(),
            (new_node as int) < old(self).arena().len(),
        ensures
            final(self).wf(),
            Self::entries_same(old(self).arena(), final(self).arena()),
            final(self).spec_root() matches Some(r) ==> final(self).arena()[r as int].color
                == Color::Black,
            (old(self).arena()[new_node as int].parent is None && old(self).spec_root() == Some(
                new_node,
            )) ==> {
                &&& final(self).spec_root() == Some(new_node)
                &&& final(self).arena().len() == old(self).arena().len()
                &&& forall|j: int|
                    0 <= j < old(self).arena().len() && j != new_node ==> final(self).arena()[j]
                        == old(self).arena()[j]
                &&& final(self).arena()[new_node as int].key == old(self).arena()[
                    new_node as int
                ].key
                &&& final(self).arena()[new_node as int].value == old(self).arena()[
                    new_node as int
                ].value
                &&& final(self).arena()[new_node as int].left == old(self).arena()[
                    new_node as int
                ].left
                &&& final(self).arena()[new_node as int].right == old(self).arena()[
                    new_node as int
                ].right
                &&& final(self).arena()[new_node as int].parent == old(self).arena()[
                    new_node as int
                ].parent
                &&& final(self).arena()[new_node as int].color == Color::Black
            },
    {
        let mut curr_node: usize = new_node;
        let mut fuel: usize = self.nodes.len() + 1;
        loop
            invariant
                self.wf(),
                Self::entries_same(old(self).arena(), self.arena()),
                (curr_node as int) < self.arena().len(),
                old(self).arena()[new_node as int].parent is None ==> (*self == *old(self)
                    && curr_node == new_node),
            ensures
                self.wf(),
                Self::entries_same(old(self).arena(), self.arena()),
                old(self).arena()[new_node as int].parent is None ==> *self == *old(self),
            decreases fuel,
        {
            if fuel == 0 {
                break ;
            }
            fuel = fuel - 1;
            let parent_opt: Option<usize> = self.nodes[curr_node].parent;
            let p: usize = match parent_opt {
                Some(p) => p,
                None => {
                    break ;
                },
            };
            if !matches!(self.nodes[p].color, Color::Red) {
                break ;
            }
            let gp: usize = match self.nodes[p].parent {
                Some(gp) => gp,
                None => {
                    break ;
                },
            };
            let gp_left: Option<usize> = self.nodes[gp].left;
            if matches!(gp_left, Some(l) if l == p) {
                let uncle: Option<usize> = self.nodes[gp].right;
                let uncle_red: bool = match uncle {
                    Some(u) => matches!(self.nodes[u].color, Color::Red),
                    None => false,
                };
                if uncle_red {
                    let u: usize = uncle.unwrap();
                    self.nodes[p].color = Color::Black;
                    self.nodes[u].color = Color::Black;
                    self.nodes[gp].color = Color::Red;
                    curr_node = gp;
                } else {
                    let p_right: Option<usize> = self.nodes[p].right;
                    if matches!(p_right, Some(r) if r == curr_node) {
                        curr_node = p;
                        self.left_rotate(curr_node);
                    }
                    let cp: usize = match self.nodes[curr_node].parent {
                        Some(cp) => cp,
                        None => {
                            break ;
                        },
                    };
                    self.nodes[cp].color = Color::Black;
                    let cgp: usize = match self.nodes[cp].parent {
                        Some(cgp) => cgp,
                        None => {
                            break ;
                        },
                    };
                    self.nodes[cgp].color = Color::Red;
                    self.right_rotate(cgp);
                }
            } else {
                let uncle: Option<usize> = self.nodes[gp].left;
                let uncle_red: bool = match uncle {
                    Some(u) => matches!(self.nodes[u].color, Color::Red),
                    None => false,
                };
                if uncle_red {
                    let u: usize = uncle.unwrap();
                    self.nodes[p].color = Color::Black;
                    self.nodes[u].color = Color::Black;
                    self.nodes[gp].color = Color::Red;
                    curr_node = gp;
                } else {
                    let p_left: Option<usize> = self.nodes[p].left;
                    if matches!(p_left, Some(l) if l == curr_node) {
                        curr_node = p;
                        self.right_rotate(curr_node);
                    }
                    let cp: usize = match self.nodes[curr_node].parent {
                        Some(cp) => cp,
                        None => {
                            break ;
                        },
                    };
                    self.nodes[cp].color = Color::Black;
                    let cgp: usize = match self.nodes[cp].parent {
                        Some(cgp) => cgp,
                        None => {
                            break ;
                        },
                    };
                    self.nodes[cgp].color = Color::Red;
                    self.left_rotate(cgp);
                }
            }
        }
        match self.root {
            Some(r) => {
                self.nodes[r].color = Color::Black;
            },
            None => {},
        }
    }

    /// Rotates the node's right child above it; keys and values are
    /// untouched.
    #[verifier::rlimit(100)]
    #[verifier::spinoff_prover]
    fn left_rotate(&mut self, parent_node: usize)
        requires
            old(self).wf(),
            (parent_node as int) < old(self).arena().len(),
        ensures
            final(self).wf(),
            Self::entries_same(old(self).arena(), final(self).arena()),
    {
        let right_child: usize = match self.nodes[parent_node].right {
            Some(r) => r,
            None => {
                return ;
            },
        };
        let rc_left: Option<usize> = self.nodes[right_child].left;
        match rc_left {
            Some(l) => {
                self.nodes[l].parent = Some(parent_node);
                self.nodes[parent_node].right = Some(l);
            },
            None => {
                self.nodes[parent_node].right = None;
            },
        }
        let gp_opt: Option<usize> = self.nodes[parent_node].parent;
        match gp_opt {
            Some(gp) => {
                self.nodes[right_child].parent = Some(gp);
                let gl: Option<usize> = self.nodes[gp].left;
                if matches!(gl, Some(l) if l == parent_node) {
                    self.nodes[gp].left = Some(right_child);
                } else {
                    self.nodes[gp].right = Some(right_child);
                }
            },
            None => {
                self.nodes[right_child].parent = None;
                self.root = Some(right_child);
            },
        }
        self.nodes[right_child].left = Some(parent_node);
        self.nodes[parent_node].parent = Some(right_child);
    }

    /// Rotates the node's left child above it; keys and values are
    /// untouched.
    #[verifier::rlimit(100)]
    #[verifier::spinoff_prover]
    fn right_rotate(&mut self, parent_node: usize)
        requires
            old(self).wf(),
            (parent_node as int) < old(self).arena().len(),
        ensures
            final(self).wf(),
            Self::entries_same(old(self).arena(), final(self).arena()),
    {
        let left_child: usize = match self.nodes[parent_node].left {
            Some(l) => l,
            None => {
                return ;
            },
        };
        let lc_right: Option<usize> = self.nodes[left_child].right;
        match lc_right {
            Some(r) => {
                self.nodes[r].parent = Some(parent_node);
                self.nodes[parent_node].left = Some(r);
            },
            None => {
                self.nodes[parent_node].left = None;
            },
        }
        let gp_opt: Option<usize> = self.nodes[parent_node].parent;
        match gp_opt {
            Some(gp) => {
                self.nodes[left_child].parent = Some(gp);
                let gr: Option<usize> = self.nodes[gp].right;
                if matches!(gr, Some(r) if r == parent_node) {
                    self.nodes[gp].right = Some(left_child);
                } else {
                    self.nodes[gp].left = Some(left_child);
                }
            },
            None => {
                self.nodes[left_child].parent = None;
                self.root = Some(left_child);
            },
        }
        self.nodes[left_child].right = Some(parent_node);
        self.nodes[parent_node].parent = Some(left_child);
    }

    /// An in-order cursor starting at the tree's smallest key; on an
    /// empty tree it has already ended.
    pub fn iter(&self) -> (s: Succesor)
        requires
            self.wf(),
        ensures
            s.wf(self),
            self.spec_root() is None ==> s.spec_node() is None,
            self.spec_root() is Some ==> s.spec_node() is Some,
    {
        Succesor::new(self.root, self)
    }

    /// The key and value of one node, for tests and callers holding a
    /// cursor position.
    pub fn entry(&self, i: usize) -> (r: (String, Option<String>))
        requires
            self.wf(),
            (i as int) < self.arena().len(),
        ensures
            r.0 == self.arena()[i as int].key,
            r.1 == self.arena()[i as int].value,
    {
        (self.nodes[i].key.clone(), self.nodes[i].value.clone())
    }

    /// The root's arena index, if the tree is not empty.
    pub fn root_index(&self) -> (r: Option<usize>)
        requires
            self.wf(),
        ensures
            r == self.spec_root(),
            r matches Some(i) ==> (i as int) < self.arena().len(),
    {
        self.root
    }

    /// The left child of one node.
    pub fn left_of(&self, i: usize) -> (r: Option<usize>)
        requires
            self.wf(),
            (i as int) < self.arena().len(),
        ensures
            r == self.arena()[i as int].left,
            r matches Some(l) ==> (l as int) < self.arena().len(),
    {
        self.nodes[i].left
    }

    /// The right child of one node.
    pub fn right_of(&self, i: usize) -> (r: Option<usize>)
        requires
            self.wf(),
            (i as int) < self.arena().len(),
        ensures
            r == self.arena()[i as int].right,
            r matches Some(l) ==> (l as int) < self.arena().len(),
    {
        self.nodes[i].right
    }

    /// The color of one node.
    pub fn color_of(&self, i: usize) -> (r: Color)
        requires
            self.wf(),
            (i as int) < self.arena().len(),
        ensures
            r == self.arena()[i as int].color,
    {
        self.nodes[i].color
    }

    /// The root's key and value, if the tree is not empty.
    pub fn root_entry(&self) -> (r: Option<(String, Option<String>)>)
        requires
            self.wf(),
        ensures
            match self.spec_root() {
                Some(i) => r matches Some(p) && p.0 == self.arena()[i as int].key && p.1
                    == self.arena()[i as int].value,
                None => r is None,
            },
    {
        match self.root {
            Some(r) => Some((self.nodes[r].key.clone(), self.nodes[r].value.clone())),
            None => None,
        }
    }
}

/// In-order successor cursor over a tree's nodes.
pub struct Succesor {
    node: Option<usize>,
}

impl Succesor {
    /// The node the cursor stands on, if it has not ended.
    pub closed spec fn spec_node(&self) -> Option<usize> {
        self.node
    }

    /// The cursor points into the tree's arena.
    pub closed spec fn wf(&self, tree: &RBTree) -> bool {
        self.node matches Some(i) ==> (i as int) < tree.arena().len()
    }

    fn new(node: Option<usize>, tree: &RBTree) -> (s: Succesor)
        requires
            tree.wf(),
            (node matches Some(i) ==> (i as int) < tree.arena().len()),
        ensures
            s.wf(tree),
            node is None ==> s.spec_node() is None,
            node is Some ==> s.spec_node() is Some,
    {
        match node {
            Some(n) => Succesor { node: Some(Self::find_smallest(n, tree)) },
            None => Succesor { node: None },
        }
    }

    /// The leftmost node under `node`, following left links while fuel
    /// lasts.
    fn find_smallest(node: usize, tree: &RBTree) -> (r: usize)
        requires
            tree.wf(),
            (node as int) < tree.arena().len(),
        ensures
            (r as int) < tree.arena().len(),
    {
        let mut smallest: usize = node;
        let mut fuel: usize = tree.nodes.len() + 1;
        loop
            invariant
                tree.wf(),
                (smallest as int) < tree.arena().len(),
            ensures
                (smallest as int) < tree.arena().len(),
            decreases fuel,
        {
            if fuel == 0 {
                break ;
            }
            fuel = fuel - 1;
            match tree.nodes[smallest].left {
                Some(l) => {
                    smallest = l;
                },
                None => {
                    break ;
                },
            }
        }
        smallest
    }

    /// Yields the current node's key and value and advances to its
    /// in-order successor. An ended cursor yields nothing and stays ended;
    /// a yielded pair is the entry of the node the cursor stood on.
    pub fn next(&mut self, tree: &RBTree) -> (r: Option<(String, Option<String>)>)
        requires
            tree.wf(),
            old(self).wf(tree),
        ensures
            final(self).wf(tree),
            old(self).spec_node() is None ==> r is None && final(self).spec_node() is None,
            r is None ==> old(self).spec_node() is None && final(self).spec_node() is None,
            match r {
                Some(p) => old(self).spec_node() matches Some(i) && p.0 == tree.arena()[
                    i as int
                ].key && p.1 == tree.arena()[i as int].value,
                None => true,
            },
    {
        let i: usize = match self.node {
            Some(i) => i,
            None => {
                return None;
            },
        };
        let ret: (String, Option<String>) = (tree.nodes[i].key.clone(), tree.nodes[i].value.clone());
        match tree.nodes[i].right {
            Some(right_child) => {
                self.node = Some(Self::find_smallest(right_child, tree));
            },
            None => {
                let mut child: usize = i;
                let mut parent_op: Option<usize> = tree.nodes[i].parent;
                let mut fuel: usize = tree.nodes.len() + 1;
                loop
                    invariant
                        tree.wf(),
                        (child as int) < tree.arena().len(),
                        (parent_op matches Some(p) ==> (p as int) < tree.arena().len()),
                    ensures
                        (parent_op matches Some(p) ==> (p as int) < tree.arena().len()),
                    decreases fuel,
                {
                    if fuel == 0 {
                        break ;
                    }
                    fuel = fuel - 1;
                    let parent: usize = match parent_op {
                        Some(p) => p,
                        None => {
                            break ;
                        },
                    };
                    let pr: Option<usize> = tree.nodes[parent].right;
                    if matches!(pr, Some(r) if r == child) {
                        parent_op = tree.nodes[parent].parent;
                        child = parent;
                    } else {
                        break ;
                    }
                }
                self.node = parent_op;
            },
        }
        proof {
            assert(0 <= (i as int) < tree.arena().len() && ret.0 == tree.arena()[i as int].key
                && ret.1 == tree.arena()[i as int].value);
        }
        Some(ret)
    }
}

} // verus!
