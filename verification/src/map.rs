//! An immutable key/value map based on a weight-balanced search tree.

use std::rc::Rc;
use vstd::prelude::*;

use crate::order::TotalOrder;
use crate::tree;
use crate::tree::{Iter, RevIter, TreeNode};

verus! {

/// An immutable ordered map: every mutating operation returns a new map and
/// leaves the original untouched, sharing unchanged subtrees between the two.
pub struct TreeMap<K, V> {
    pub(crate) root: Option<Rc<TreeNode<K, V>>>,
}

impl<K: TotalOrder, V> TreeMap<K, V> {
    /// The key/value map this collection holds.
    pub closed spec fn view(self) -> Map<K, V> {
        tree::sub_map(self.root)
    }

    /// The elements of the map in ascending key order.
    pub closed spec fn entries(self) -> Seq<(K, V)> {
        tree::sub_entries(self.root)
    }

    /// The underlying tree is well formed: sizes, ordering and weight
    /// balance all hold. Every constructor establishes this and every
    /// operation preserves it.
    pub closed spec fn wf(self) -> bool {
        tree::sub_wf(self.root)
    }

    /// How the two views fit together: the entry sequence is strictly sorted
    /// by key and enumerates the map exactly.
    pub proof fn lemma_view_entries(self)
        requires
            self.wf(),
        ensures
            tree::sorted(self.entries()),
            self.view().dom().finite(),
            self.view().dom().len() == self.entries().len(),
            forall|i: int|
                0 <= i < self.entries().len() ==> self.view().contains_pair(
                    (#[trigger] self.entries()[i]).0,
                    self.entries()[i].1,
                ),
            forall|k: K| #[trigger]
                self.view().dom().contains(k) ==> self.entries().contains((k, self.view()[k])),
    {
        tree::lemma_entries_map(self.root);
        tree::lemma_count_entries(self.root);
    }

    /// Make a new, empty map.
    pub fn new() -> (map: TreeMap<K, V>)
        ensures
            map.wf(),
            map@ == Map::<K, V>::empty(),
            map.entries() == Seq::<(K, V)>::empty(),
    {
        proof {
            tree::lemma_empty_tree::<K, V>();
        }
        TreeMap { root: None }
    }

    /// The number of entries in the map.
    pub fn len(&self) -> (n: usize)
        requires
            self.wf(),
        ensures
            n == self@.dom().len(),
            n == self.entries().len(),
    {
        proof {
            tree::lemma_entries_map(self.root);
            tree::lemma_count_entries(self.root);
        }
        tree::size(&self.root)
    }

    /// Whether the map holds no entry at all.
    pub fn is_empty(&self) -> (r: bool)
        requires
            self.wf(),
        ensures
            r == (self@ == Map::<K, V>::empty()),
    {
        proof {
            if self.root is None {
                tree::lemma_empty_tree::<K, V>();
                assert(self@ =~= Map::<K, V>::empty());
            } else {
                tree::lemma_nonempty_tree(self.root);
                assert(self@.dom().contains(tree::root_pair(self.root).0));
            }
        }
        match &self.root {
            None => true,
            Some(_) => false,
        }
    }

    /// Look up the value stored under a key.
    pub fn get<'a>(&'a self, key: &K) -> (r: Option<&'a V>)
        requires
            self.wf(),
        ensures
            match r {
                Some(v) => self@.dom().contains(*key) && *v == self@[*key],
                None => !self@.dom().contains(*key),
            },
    {
        match tree::find_exact(&self.root, key) {
            None => None,
            Some(p) => Some(&p.1),
        }
    }

    /// Whether the map stores a value under the key.
    pub fn contains_key(&self, key: &K) -> (r: bool)
        requires
            self.wf(),
        ensures
            r == self@.dom().contains(*key),
    {
        match tree::find_exact(&self.root, key) {
            None => false,
            Some(_) => true,
        }
    }

    /// A new version of the map with `value` stored under `key`. A previous
    /// entry under an equal key is replaced, key and value both; the map this
    /// is called on is unchanged.
    pub fn insert(&self, key: K, value: V) -> (map: TreeMap<K, V>)
        requires
            self.wf(),
            self@.dom().len() < usize::MAX,
        ensures
            map.wf(),
            map@ == self@.insert(key, value),
    {
        proof {
            tree::lemma_entries_map(self.root);
            tree::lemma_count_entries(self.root);
        }
        let root = tree::insert(&self.root, Rc::new((key, value)));
        TreeMap { root: Some(Rc::new(root)) }
    }

    /// A new version of the map with `value` stored under `key`, or nothing
    /// when an entry under an equal key already exists.
    pub fn insert_if_absent(&self, key: K, value: V) -> (r: Option<TreeMap<K, V>>)
        requires
            self.wf(),
            self@.dom().len() < usize::MAX,
        ensures
            match r {
                None => self@.dom().contains(key),
                Some(map) => {
                    &&& !self@.dom().contains(key)
                    &&& map.wf()
                    &&& map@ == self@.insert(key, value)
                },
            },
    {
        match tree::find_exact(&self.root, &key) {
            Some(_) => None,
            None => Some(self.insert(key, value)),
        }
    }

    /// A new version of the map whose value under `key` is replaced by what
    /// `f` returns for the present value, or nothing when the key is absent.
    pub fn update<F: Fn(&V) -> V>(&self, key: K, f: F) -> (r: Option<TreeMap<K, V>>)
        requires
            self.wf(),
            self@.dom().len() < usize::MAX,
            forall|v: &V| #[trigger] f.requires((v,)),
        ensures
            match r {
                None => !self@.dom().contains(key),
                Some(map) => {
                    &&& self@.dom().contains(key)
                    &&& map.wf()
                    &&& exists|v2: V|
                        #[trigger] f.ensures((&self@[key],), v2) && map@ == self@.insert(key, v2)
                },
            },
    {
        match tree::find_exact(&self.root, &key) {
            None => None,
            Some(p) => {
                let new_value = f(&p.1);
                Some(self.insert(key, new_value))
            },
        }
    }

    /// A new version of the map where the value under `key` is what `f`
    /// returns for the present value, or `value` when the key was absent.
    pub fn insert_or_update<F: Fn(&V) -> V>(&self, key: K, value: V, f: F) -> (map: TreeMap<K, V>)
        requires
            self.wf(),
            self@.dom().len() < usize::MAX,
            forall|v: &V| #[trigger] f.requires((v,)),
        ensures
            map.wf(),
            !self@.dom().contains(key) ==> map@ == self@.insert(key, value),
            self@.dom().contains(key) ==> exists|v2: V|
                #[trigger] f.ensures((&self@[key],), v2) && map@ == self@.insert(key, v2),
    {
        match tree::find_exact(&self.root, &key) {
            None => self.insert(key, value),
            Some(p) => {
                let new_value = f(&p.1);
                self.insert(key, new_value)
            },
        }
    }

    /// Remove the entry with the least key, returning the new version of the
    /// map and the removed entry, or nothing when the map is empty.
    pub fn delete_min(&self) -> (r: Option<(TreeMap<K, V>, Rc<(K, V)>)>)
        requires
            self.wf(),
        ensures
            match r {
                None => self@ == Map::<K, V>::empty(),
                Some(p) => {
                    &&& self@.dom().contains(p.1.0)
                    &&& p.1.1 == self@[p.1.0]
                    &&& forall|k: K|
                        #[trigger] self@.dom().contains(k) && k != p.1.0 ==> crate::order::lt(
                            p.1.0,
                            k,
                        )
                    &&& p.0.wf()
                    &&& p.0@ == self@.remove(p.1.0)
                    &&& p.0.entries() == self.entries().drop_first()
                    &&& self.entries()[0] == (p.1.0, p.1.1)
                },
            },
    {
        match &self.root {
            None => {
                proof {
                    tree::lemma_empty_tree::<K, V>();
                    assert(self@ =~= Map::<K, V>::empty());
                }
                None
            },
            Some(root) => {
                let (new_root, elem) = tree::delete_min(&**root);
                Some((TreeMap { root: new_root }, elem))
            },
        }
    }

    /// Remove the entry with the greatest key, returning the new version of
    /// the map and the removed entry, or nothing when the map is empty.
    pub fn delete_max(&self) -> (r: Option<(TreeMap<K, V>, Rc<(K, V)>)>)
        requires
            self.wf(),
        ensures
            match r {
                None => self@ == Map::<K, V>::empty(),
                Some(p) => {
                    &&& self@.dom().contains(p.1.0)
                    &&& p.1.1 == self@[p.1.0]
                    &&& forall|k: K|
                        #[trigger] self@.dom().contains(k) && k != p.1.0 ==> crate::order::lt(
                            k,
                            p.1.0,
                        )
                    &&& p.0.wf()
                    &&& p.0@ == self@.remove(p.1.0)
                    &&& p.0.entries() == self.entries().drop_last()
                    &&& self.entries().last() == (p.1.0, p.1.1)
                },
            },
    {
        match &self.root {
            None => {
                proof {
                    tree::lemma_empty_tree::<K, V>();
                    assert(self@ =~= Map::<K, V>::empty());
                }
                None
            },
            Some(root) => {
                let (new_root, elem) = tree::delete_max(&**root);
                Some((TreeMap { root: new_root }, elem))
            },
        }
    }

    /// Remove the entry stored under `key`, returning the new version of the
    /// map and the removed entry, or nothing when the key is absent.
    pub fn remove(&self, key: &K) -> (r: Option<(TreeMap<K, V>, Rc<(K, V)>)>)
        requires
            self.wf(),
        ensures
            match r {
                None => !self@.dom().contains(*key),
                Some(p) => {
                    &&& self@.dom().contains(*key)
                    &&& p.1.0 == *key
                    &&& p.1.1 == self@[*key]
                    &&& p.0.wf()
                    &&& p.0@ == self@.remove(*key)
                },
            },
    {
        match tree::remove(&self.root, key) {
            None => None,
            Some((new_root, elem)) => Some((TreeMap { root: new_root }, elem)),
        }
    }

    /// An iterator over the entries in ascending key order.
    pub fn iter(&self) -> (it: Iter<K, V>)
        requires
            self.wf(),
        ensures
            it.wf(),
            it.remaining() == self.entries(),
    {
        Iter::new(&self.root)
    }

    /// An iterator over the entries in descending key order.
    pub fn rev_iter(&self) -> (it: RevIter<K, V>)
        requires
            self.wf(),
        ensures
            it.wf(),
            it.remaining() == self.entries(),
    {
        RevIter::new(&self.root)
    }

    /// Check the weight invariant at every node, judged by the recorded
    /// subtree sizes.
    pub fn balanced(&self) -> (r: bool)
        requires
            self.wf(),
        ensures
            r,
    {
        proof {
            tree::lemma_wf_balanced(self.root);
        }
        tree::balanced(&self.root)
    }
}

/// For every well-formed map and every key and value, looking the key up
/// right after inserting it finds exactly that value.
pub proof fn lemma_insert_get<K: TotalOrder, V>(m: TreeMap<K, V>, key: K, value: V)
    requires
        m.wf(),
    ensures
        m@.insert(key, value).dom().contains(key),
        m@.insert(key, value)[key] == value,
{
}

/// For every well-formed map and every key and value, removing the key right
/// after inserting it leaves a map without the key and with exactly one entry
/// fewer than the map the insertion produced.
pub proof fn lemma_insert_remove<K: TotalOrder, V>(m: TreeMap<K, V>, key: K, value: V)
    requires
        m.wf(),
    ensures
        !m@.insert(key, value).remove(key).dom().contains(key),
        m@.insert(key, value).remove(key).dom().len() == m@.insert(key, value).dom().len() - 1,
{
    m.lemma_view_entries();
    assert(m@.insert(key, value).dom() =~= m@.dom().insert(key));
    assert(m@.insert(key, value).remove(key).dom() =~= m@.dom().insert(key).remove(key));
}

} // verus!
