//! Skip-list node: key, optional value, top level, and one tagged link per
//! level. Nodes live in the list's arena; a link holds `2 * index + mark`,
//! so the low bit carries the logical-deletion mark for that level.

use vstd::prelude::*;

verus! {

/// Keys are signed 128-bit integers; the minimum and maximum values are
/// reserved for the head and tail sentinels.
pub type KeyType = i128;

/// The highest level a node can have.
pub const TOP_LEVEL: usize = 31;

/// The number of levels, `TOP_LEVEL + 1`.
pub const LEVELS: usize = 32;

pub struct Node<V> {
    pub key: KeyType,
    pub value: Option<V>,
    pub top_level: usize,
    pub next: Vec<usize>,
}

impl<V> Node<V> {
    /// A sentinel node: no value, full height, all links cleared.
    pub fn new_sentinel(key: KeyType) -> (n: Node<V>)
        ensures
            n.key == key,
            n.value is None,
            n.top_level == TOP_LEVEL,
            n.next@.len() == LEVELS,
            forall|l: int| 0 <= l < LEVELS ==> n.next@[l] == 0,
    {
        let mut next: Vec<usize> = Vec::new();
        let mut i: usize = 0;
        while i < LEVELS
            invariant
                i <= LEVELS,
                next@.len() == i,
                forall|l: int| 0 <= l < i ==> next@[l] == 0,
            decreases LEVELS - i,
        {
            next.push(0);
            i = i + 1;
        }
        Node { key, value: None, top_level: TOP_LEVEL, next }
    }

    /// A user node carrying a value, stamped with its height, all links
    /// cleared until the list installs them.
    pub fn new(key: KeyType, value: V, height: usize) -> (n: Node<V>)
        requires
            height <= TOP_LEVEL,
        ensures
            n.key == key,
            n.value == Some(value),
            n.top_level == height,
            n.next@.len() == LEVELS,
            forall|l: int| 0 <= l < LEVELS ==> n.next@[l] == 0,
    {
        let mut next: Vec<usize> = Vec::new();
        let mut i: usize = 0;
        while i < LEVELS
            invariant
                i <= LEVELS,
                next@.len() == i,
                forall|l: int| 0 <= l < i ==> next@[l] == 0,
            decreases LEVELS - i,
        {
            next.push(0);
            i = i + 1;
        }
        Node { key, value: Some(value), top_level: height, next }
    }
}

} // verus!
