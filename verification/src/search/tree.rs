//! An ordered map kept as an unbalanced binary search tree.

use core::cmp::Ordering;
use vstd::prelude::*;
use vstd::std_specs::cmp::OrdSpec;

verus! {

/// The comparison of `K` is a total order that agrees with equality: this is
/// what the tree asks of its keys.
pub open spec fn total_order<K: Ord>() -> bool {
    &&& K::obeys_cmp_spec()
    &&& forall|a: K, b: K| #[trigger] a.cmp_spec(&b) == Ordering::Equal <==> a == b
    &&& forall|a: K, b: K| #[trigger]
        a.cmp_spec(&b) == Ordering::Less <==> b.cmp_spec(&a) == Ordering::Greater
    &&& forall|a: K, b: K, c: K|
        a.cmp_spec(&b) == Ordering::Less && #[trigger] b.cmp_spec(&c) == Ordering::Less
            ==> #[trigger] a.cmp_spec(&c) == Ordering::Less
}

/// Cloning a key of type `K` gives an equal key.
pub open spec fn clones_equal<K: Clone>() -> bool {
    forall|a: K, b: K| #[trigger] cloned(a, b) ==> a == b
}

/// `a` does not come after `b`.
pub open spec fn at_most<K: Ord>(a: K, b: K) -> bool {
    a.cmp_spec(&b) != Ordering::Greater
}

/// `found` is the greatest key of `m` that does not come after `key`.
pub open spec fn is_lower_bound<K: Ord, V>(m: Map<K, V>, key: K, found: K) -> bool {
    &&& m.contains_key(found)
    &&& at_most(found, key)
    &&& forall|other: K| #[trigger] m.contains_key(other) && at_most(other, key) ==> at_most(other, found)
}

/// The entries that are left by the insertions `pairs`, made in this order
/// into an empty map. Each step is what `Tree::insert` does to the view.
pub open spec fn after_insertions<K, V>(pairs: Seq<(K, V)>) -> Map<K, V>
    decreases pairs.len(),
{
    if pairs.len() == 0 {
        Map::empty()
    } else {
        after_insertions(pairs.drop_last()).insert(pairs.last().0, pairs.last().1)
    }
}

/// The distinct keys among `pairs`.
pub open spec fn keys_of<K, V>(pairs: Seq<(K, V)>) -> Set<K> {
    Set::new(|k: K| exists|i: int| 0 <= i < pairs.len() && (#[trigger] pairs[i]).0 == k)
}

/// After any sequence of insertions a key holds the value of its last
/// insertion: `Tree::get`, which reads the view, returns that value.
pub proof fn lemma_last_insertion_wins<K, V>(pairs: Seq<(K, V)>, i: int)
    requires
        0 <= i < pairs.len(),
        forall|j: int| i < j < pairs.len() ==> (#[trigger] pairs[j]).0 != pairs[i].0,
    ensures
        after_insertions(pairs).contains_key(pairs[i].0),
        after_insertions(pairs)[pairs[i].0] == pairs[i].1,
    decreases pairs.len(),
{
    if i < pairs.len() - 1 {
        assert(pairs.last() == pairs[pairs.len() - 1]);
        assert forall|j: int| i < j < pairs.drop_last().len() implies (#[trigger] pairs.drop_last()[j]).0
            != pairs.drop_last()[i].0 by {
            assert(pairs.drop_last()[j] == pairs[j]);
        }
        lemma_last_insertion_wins(pairs.drop_last(), i);
    }
}

/// After any sequence of insertions the map holds the keys that were
/// inserted and no others, so that `Tree::size`, which is the length of the
/// view, is the number of distinct keys inserted.
pub proof fn lemma_size_counts_distinct_keys<K, V>(pairs: Seq<(K, V)>)
    ensures
        after_insertions(pairs).dom() == keys_of(pairs),
        after_insertions(pairs).dom().finite(),
        after_insertions(pairs).len() == keys_of(pairs).len(),
    decreases pairs.len(),
{
    if pairs.len() == 0 {
        assert(after_insertions(pairs).dom() =~= keys_of(pairs));
    } else {
        let front = pairs.drop_last();
        lemma_size_counts_distinct_keys(front);
        assert forall|k: K| keys_of(pairs).contains(k) <==> keys_of(front).insert(
            pairs.last().0,
        ).contains(k) by {
            if keys_of(pairs).contains(k) {
                let i = choose|i: int| 0 <= i < pairs.len() && (#[trigger] pairs[i]).0 == k;
                if i < pairs.len() - 1 {
                    assert(front[i] == pairs[i]);
                }
            }
            if keys_of(front).contains(k) {
                let i = choose|i: int| 0 <= i < front.len() && (#[trigger] front[i]).0 == k;
                assert(pairs[i] == front[i]);
            }
            if k == pairs.last().0 {
                assert(pairs[pairs.len() - 1].0 == k);
            }
        }
        assert(after_insertions(pairs).dom() =~= keys_of(pairs));
    }
}

/// The integer types are totally ordered, so each can be a key.
pub proof fn lemma_integers_totally_ordered()
    ensures
        total_order::<u8>(),
        total_order::<u16>(),
        total_order::<u32>(),
        total_order::<u64>(),
        total_order::<u128>(),
        total_order::<usize>(),
        total_order::<i8>(),
        total_order::<i16>(),
        total_order::<i32>(),
        total_order::<i64>(),
        total_order::<i128>(),
        total_order::<isize>(),
{
}

struct Node<K, V> {
    key: K,
    value: V,
    left: Option<Box<Node<K, V>>>,
    right: Option<Box<Node<K, V>>>,
}

/// A map from keys to values, ordered by the keys.
///
/// Its view is the `Map` of the entries it holds.
pub struct Tree<K: Ord, V> {
    root: Option<Box<Node<K, V>>>,
    size: usize,
}

/// The entries held below a link.
spec fn entries<K, V>(link: Option<Box<Node<K, V>>>) -> Map<K, V>
    decreases link,
{
    match link {
        None => Map::empty(),
        Some(node) => entries(node.left).union_prefer_right(entries(node.right)).insert(
            node.key,
            node.value,
        ),
    }
}

/// Below a link every node separates its subtrees: smaller keys to the left,
/// greater keys to the right.
spec fn ordered<K: Ord, V>(link: Option<Box<Node<K, V>>>) -> bool
    decreases link,
{
    match link {
        None => true,
        Some(node) => {
            &&& ordered(node.left)
            &&& ordered(node.right)
            &&& forall|k: K| #[trigger]
                entries(node.left).contains_key(k) ==> k.cmp_spec(&node.key) == Ordering::Less
            &&& forall|k: K| #[trigger]
                entries(node.right).contains_key(k) ==> k.cmp_spec(&node.key) == Ordering::Greater
        },
    }
}

/// A tree holds finitely many entries.
proof fn lemma_entries_finite<K, V>(link: Option<Box<Node<K, V>>>)
    ensures
        entries(link).dom().finite(),
    decreases link,
{
    match link {
        None => {},
        Some(node) => {
            lemma_entries_finite(node.left);
            lemma_entries_finite(node.right);
            broadcast use vstd::map_lib::lemma_union_dom;
            vstd::set_lib::lemma_set_union_finite_iff(entries(node.left).dom(), entries(node.right).dom());
        },
    }
}

/// Where a key is to be found below a node: at the node itself, or in the
/// one subtree on the key's side of it.
proof fn lemma_search_path<K: Ord, V>(node: Box<Node<K, V>>, key: K)
    requires
        total_order::<K>(),
        ordered(Some(node)),
    ensures
        ({
            let all = entries(Some(node));
            let side = match key.cmp_spec(&node.key) {
                Ordering::Less => entries(node.left),
                Ordering::Greater => entries(node.right),
                Ordering::Equal => Map::empty().insert(node.key, node.value),
            };
            &&& all.contains_key(key) == side.contains_key(key)
            &&& all.contains_key(key) ==> all[key] == side[key]
        }),
{
    let l = entries(node.left);
    let r = entries(node.right);
    assert(l.contains_key(key) ==> key.cmp_spec(&node.key) == Ordering::Less);
    assert(r.contains_key(key) ==> key.cmp_spec(&node.key) == Ordering::Greater);
    assert(key.cmp_spec(&node.key) == Ordering::Equal <==> key == node.key);
}

/// What came before a key that does not come after another came before
/// that one too, and likewise with the two steps exchanged.
proof fn lemma_order_chain<K: Ord>(a: K, b: K, c: K)
    requires
        total_order::<K>(),
    ensures
        a.cmp_spec(&b) == Ordering::Less && at_most(b, c) ==> a.cmp_spec(&c) == Ordering::Less,
        at_most(a, b) && b.cmp_spec(&c) == Ordering::Less ==> a.cmp_spec(&c) == Ordering::Less,
        a.cmp_spec(&b) == Ordering::Less ==> !at_most(b, a),
        at_most(a, a),
{
    assert(b.cmp_spec(&c) == Ordering::Equal <==> b == c);
    assert(a.cmp_spec(&b) == Ordering::Equal <==> a == b);
    assert(a.cmp_spec(&a) == Ordering::Equal <==> a == a);
    assert(a.cmp_spec(&b) == Ordering::Less <==> b.cmp_spec(&a) == Ordering::Greater);
    if a.cmp_spec(&b) == Ordering::Less && b.cmp_spec(&c) == Ordering::Less {
        assert(a.cmp_spec(&c) == Ordering::Less);
    }
}

/// The keys below a node are its own and those of its two subtrees.
proof fn lemma_members<K: Ord, V>(node: Box<Node<K, V>>, other: K)
    ensures
        entries(Some(node)).contains_key(other) <==> (other == node.key || entries(
            node.left,
        ).contains_key(other) || entries(node.right).contains_key(other)),
{
}

/// `copy` has the shape of `link`, and holds in each place a clone of the
/// key and a clone of the value that `link` holds there.
spec fn clone_of<K: Clone, V: Clone>(
    link: Option<Box<Node<K, V>>>,
    copy: Option<Box<Node<K, V>>>,
) -> bool
    decreases link,
{
    match (link, copy) {
        (None, None) => true,
        (Some(a), Some(b)) => {
            &&& cloned(a.key, b.key)
            &&& cloned(a.value, b.value)
            &&& clone_of(a.left, b.left)
            &&& clone_of(a.right, b.right)
        },
        _ => false,
    }
}

/// Where cloning a key gives an equal key, a cloned tree holds the same keys
/// in the same order, each with a clone of its value.
proof fn lemma_clone_keeps_entries<K: Ord + Clone, V: Clone>(
    link: Option<Box<Node<K, V>>>,
    copy: Option<Box<Node<K, V>>>,
)
    requires
        clone_of(link, copy),
        clones_equal::<K>(),
    ensures
        entries(copy).dom() == entries(link).dom(),
        forall|k: K| #[trigger] entries(copy).contains_key(k) ==> cloned(entries(link)[k], entries(copy)[k]),
        ordered(link) ==> ordered(copy),
    decreases link,
{
    match (link, copy) {
        (Some(a), Some(b)) => {
            lemma_clone_keeps_entries(a.left, b.left);
            lemma_clone_keeps_entries(a.right, b.right);
            assert(a.key == b.key);
            assert(entries(copy).dom() =~= entries(link).dom());
        },
        _ => {},
    }
}

fn clone_link<K: Clone, V: Clone>(link: &Option<Box<Node<K, V>>>) -> (copy: Option<Box<Node<K, V>>>)
    ensures
        clone_of(*link, copy),
    decreases *link,
{
    match link {
        None => None,
        Some(node) => {
            let left = clone_link(&node.left);
            let right = clone_link(&node.right);
            Some(Box::new(Node { key: node.key.clone(), value: node.value.clone(), left, right }))
        },
    }
}

impl<K: Ord + Clone, V: Clone> Clone for Tree<K, V> {
    /// A tree of the same shape that holds clones of the keys and values.
    fn clone(&self) -> (copy: Self)
        ensures
            self.well_formed() && clones_equal::<K>() ==> {
                &&& copy.well_formed()
                &&& copy@.dom() == self@.dom()
                &&& forall|k: K| #[trigger] copy@.contains_key(k) ==> cloned(self@[k], copy@[k])
            },
    {
        let root = clone_link(&self.root);
        proof {
            if clones_equal::<K>() {
                lemma_clone_keeps_entries(self.root, root);
            }
        }
        Tree { root, size: self.size }
    }
}

impl<K: Ord, V> View for Tree<K, V> {
    type V = Map<K, V>;

    closed spec fn view(&self) -> Map<K, V> {
        entries(self.root)
    }
}

impl<K: Ord, V> Tree<K, V> {
    /// The keys are totally ordered, the nodes are in search order, and the
    /// counter holds the number of entries.
    pub closed spec fn well_formed(&self) -> bool {
        &&& total_order::<K>()
        &&& ordered(self.root)
        &&& self.size == entries(self.root).len()
    }

    /// An empty map.
    pub fn new() -> (tree: Tree<K, V>)
        requires
            total_order::<K>(),
        ensures
            tree.well_formed(),
            tree@ == Map::<K, V>::empty(),
            tree@.len() == 0,
    {
        Tree { root: None, size: 0 }
    }

    /// The number of entries, which is the number of distinct keys inserted.
    pub fn size(&self) -> (n: usize)
        requires
            self.well_formed(),
        ensures
            n == self@.len(),
            self@.dom().finite(),
    {
        proof {
            lemma_entries_finite(self.root);
        }
        self.size
    }

    /// The value stored under `key`, if there is one.
    pub fn get(&self, key: K) -> (value: Option<&V>)
        requires
            self.well_formed(),
        ensures
            value == (if self@.contains_key(key) {
                Some(&self@[key])
            } else {
                None
            }),
    {
        Self::get_value(&self.root, key)
    }

    /// Stores `value` under `key`. Returns whether the key was there before,
    /// in which case only its value changes.
    pub fn insert(&mut self, key: K, value: V) -> (existed: bool)
        requires
            old(self).well_formed(),
            old(self)@.len() < usize::MAX || old(self)@.contains_key(key),
        ensures
            final(self).well_formed(),
            final(self)@ == old(self)@.insert(key, value),
            existed == old(self)@.contains_key(key),
            final(self)@.dom().finite(),
            final(self)@.len() == old(self)@.len() + (if existed {
                0int
            } else {
                1int
            }),
    {
        proof {
            lemma_entries_finite(self.root);
        }
        let result = Self::insert_node(&mut self.root, key, value);
        if !result {
            self.size += 1;
        }
        result
    }

    /// The entry with the greatest key that does not come after `key`, if
    /// the map holds such a key.
    pub fn lower_bound(&self, key: K) -> (found: Option<(&K, &V)>)
        requires
            self.well_formed(),
        ensures
            match found {
                Some((k, v)) => is_lower_bound(self@, key, *k) && *v == self@[*k],
                None => forall|other: K| self@.contains_key(other) ==> !at_most(other, key),
            },
    {
        Self::find_lower(&self.root, key)
    }

    fn find_lower(node: &Option<Box<Node<K, V>>>, key: K) -> (found: Option<(&K, &V)>)
        requires
            total_order::<K>(),
            ordered(*node),
        ensures
            match found {
                Some((k, v)) => is_lower_bound(entries(*node), key, *k) && *v == entries(*node)[*k],
                None => forall|other: K| entries(*node).contains_key(other) ==> !at_most(other, key),
            },
        decreases *node,
    {
        match node {
            None => None,
            Some(n) => {
                let ghost all = entries(*node);
                match key.cmp(&n.key) {
                    Ordering::Less => {
                        let found = Self::find_lower(&n.left, key);
                        proof {
                            assert forall|other: K|
                                all.contains_key(other) && at_most(
                                    other,
                                    key,
                                ) implies entries(n.left).contains_key(other) by {
                                lemma_members(*n, other);
                                lemma_order_chain(key, n.key, other);
                            }
                            if let Some((k, v)) = found {
                                lemma_search_path(*n, *k);
                            }
                        }
                        found
                    },
                    Ordering::Greater => {
                        let r = Self::find_lower(&n.right, key);
                        if r.is_none() {
                            proof {
                                lemma_search_path(*n, n.key);
                                lemma_order_chain(n.key, key, key);
                                assert forall|other: K|
                                    all.contains_key(other) && at_most(
                                        other,
                                        key,
                                    ) implies at_most(other, n.key) by {
                                    lemma_members(*n, other);
                                    lemma_order_chain(n.key, n.key, other);
                                }
                            }
                            Some((&n.key, &n.value))
                        } else {
                            proof {
                                let k = *r.unwrap().0;
                                lemma_search_path(*n, k);
                                assert forall|other: K|
                                    all.contains_key(other) && at_most(
                                        other,
                                        key,
                                    ) implies at_most(other, k) by {
                                    lemma_members(*n, other);
                                    lemma_order_chain(n.key, k, k);
                                    lemma_order_chain(other, n.key, k);
                                }
                            }
                            r
                        }
                    },
                    Ordering::Equal => {
                        proof {
                            lemma_search_path(*n, n.key);
                            lemma_order_chain(n.key, n.key, n.key);
                        }
                        Some((&n.key, &n.value))
                    },
                }
            },
        }
    }

    fn insert_node(node: &mut Option<Box<Node<K, V>>>, key: K, value: V) -> (existed: bool)
        requires
            total_order::<K>(),
            ordered(*old(node)),
        ensures
            ordered(*final(node)),
            entries(*final(node)) == entries(*old(node)).insert(key, value),
            existed == entries(*old(node)).contains_key(key),
        decreases *old(node),
    {
        match node {
            None => {
                *node = Some(Box::new(Node { key: key, value: value, left: None, right: None }));
                proof {
                    assert(entries::<K, V>(None) =~= Map::empty());
                    assert(entries(*node) =~= Map::empty().insert(key, value));
                }
                false
            },
            Some(n) => {
                let ghost before = *n;
                proof {
                    lemma_search_path(before, key);
                }
                match key.cmp(&n.key) {
                    Ordering::Less => {
                        let existed = Self::insert_node(&mut n.left, key, value);
                        proof {
                            assert(!entries(before.right).contains_key(key));
                            assert(entries(Some(*n)) =~= entries(Some(before)).insert(key, value));
                        }
                        existed
                    },
                    Ordering::Greater => {
                        let existed = Self::insert_node(&mut n.right, key, value);
                        proof {
                            assert(entries(Some(*n)) =~= entries(Some(before)).insert(key, value));
                        }
                        existed
                    },
                    Ordering::Equal => {
                        n.key = key;
                        n.value = value;
                        proof {
                            assert(entries(Some(*n)) =~= entries(Some(before)).insert(key, value));
                        }
                        true
                    },
                }
            },
        }
    }

    fn get_value(node: &Option<Box<Node<K, V>>>, key: K) -> (value: Option<&V>)
        requires
            total_order::<K>(),
            ordered(*node),
        ensures
            value == (if entries(*node).contains_key(key) {
                Some(&entries(*node)[key])
            } else {
                None
            }),
        decreases *node,
    {
        match node {
            None => None,
            Some(n) => {
                proof {
                    lemma_search_path(*n, key);
                }
                match key.cmp(&n.key) {
                    Ordering::Less => Self::get_value(&n.left, key),
                    Ordering::Greater => Self::get_value(&n.right, key),
                    Ordering::Equal => Some(&n.value),
                }
            },
        }
    }
}

} // verus!
