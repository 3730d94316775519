//! An immutable ordered set based on a weight-balanced search tree.

use std::rc::Rc;
use vstd::prelude::*;

use crate::order::TotalOrder;
use crate::tree;
use crate::tree::{Iter, RevIter, TreeNode};

verus! {

/// An immutable ordered set: every mutating operation returns a new set and
/// leaves the original untouched, sharing unchanged subtrees between the two.
/// Elements are stored as the keys of a tree whose values carry no data.
pub struct TreeSet<V> {
    pub(crate) root: Option<Rc<TreeNode<V, ()>>>,
}

impl<V: TotalOrder> TreeSet<V> {
    /// The set of values this collection holds.
    pub closed spec fn view(self) -> Set<V> {
        tree::sub_map(self.root).dom()
    }

    /// The elements of the set in ascending order, paired with the unit
    /// values the tree stores alongside them.
    pub closed spec fn entries(self) -> Seq<(V, ())> {
        tree::sub_entries(self.root)
    }

    /// The underlying tree is well formed.
    pub closed spec fn wf(self) -> bool {
        tree::sub_wf(self.root)
    }

    /// How the two views fit together: the element sequence is strictly
    /// sorted and enumerates the set exactly.
    pub proof fn lemma_view_entries(self)
        requires
            self.wf(),
        ensures
            tree::sorted(self.entries()),
            self.view().finite(),
            self.view().len() == self.entries().len(),
            forall|i: int|
                0 <= i < self.entries().len() ==> self.view().contains(
                    (#[trigger] self.entries()[i]).0,
                ),
            forall|v: V| #[trigger] self.view().contains(v) ==> self.entries().contains((v, ())),
    {
        tree::lemma_entries_map(self.root);
        tree::lemma_count_entries(self.root);
    }

    /// Make a new, empty set.
    pub fn new() -> (set: TreeSet<V>)
        ensures
            set.wf(),
            set@ == Set::<V>::empty(),
            set.entries() == Seq::<(V, ())>::empty(),
    {
        proof {
            tree::lemma_empty_tree::<V, ()>();
        }
        TreeSet { root: None }
    }

    /// The number of elements in the set.
    pub fn len(&self) -> (n: usize)
        requires
            self.wf(),
        ensures
            n == self@.len(),
            n == self.entries().len(),
    {
        proof {
            tree::lemma_entries_map(self.root);
            tree::lemma_count_entries(self.root);
        }
        tree::size(&self.root)
    }

    /// Whether the set holds no element at all.
    pub fn is_empty(&self) -> (r: bool)
        requires
            self.wf(),
        ensures
            r == (self@ == Set::<V>::empty()),
    {
        proof {
            if self.root is None {
                tree::lemma_empty_tree::<V, ()>();
                assert(self@ =~= Set::<V>::empty());
            } else {
                tree::lemma_nonempty_tree(self.root);
            }
        }
        match &self.root {
            None => true,
            Some(_) => false,
        }
    }

    /// Look up the stored value that compares equal to the given one.
    pub fn get<'a>(&'a self, value: &V) -> (r: Option<&'a V>)
        requires
            self.wf(),
        ensures
            match r {
                Some(v) => self@.contains(*value) && *v == *value,
                None => !self@.contains(*value),
            },
    {
        match tree::find_exact(&self.root, value) {
            None => None,
            Some(p) => Some(&p.0),
        }
    }

    /// Whether the set holds a value that compares equal to the given one.
    pub fn contains(&self, value: &V) -> (r: bool)
        requires
            self.wf(),
        ensures
            r == self@.contains(*value),
    {
        match tree::find_exact(&self.root, value) {
            None => false,
            Some(_) => true,
        }
    }

    /// A new version of the set with `value` added. A previous element that
    /// compares equal is replaced; the set this is called on is unchanged.
    pub fn insert(&self, value: V) -> (set: TreeSet<V>)
        requires
            self.wf(),
            self@.len() < usize::MAX,
        ensures
            set.wf(),
            set@ == self@.insert(value),
    {
        proof {
            tree::lemma_entries_map(self.root);
            tree::lemma_count_entries(self.root);
        }
        let root = tree::insert(&self.root, Rc::new((value, ())));
        let set = TreeSet { root: Some(Rc::new(root)) };
        proof {
            assert(set@ =~= self@.insert(value));
        }
        set
    }

    /// Remove the least element, returning the new version of the set and
    /// the removed element, or nothing when the set is empty.
    pub fn delete_min(&self) -> (r: Option<(TreeSet<V>, Rc<(V, ())>)>)
        requires
            self.wf(),
        ensures
            match r {
                None => self@ == Set::<V>::empty(),
                Some(p) => {
                    &&& self@.contains(p.1.0)
                    &&& forall|v: V|
                        #[trigger] self@.contains(v) && v != p.1.0 ==> crate::order::lt(p.1.0, v)
                    &&& p.0.wf()
                    &&& p.0@ == self@.remove(p.1.0)
                    &&& p.0.entries() == self.entries().drop_first()
                    &&& self.entries()[0].0 == p.1.0
                },
            },
    {
        match &self.root {
            None => {
                proof {
                    tree::lemma_empty_tree::<V, ()>();
                    assert(self@ =~= Set::<V>::empty());
                }
                None
            },
            Some(root) => {
                let (new_root, elem) = tree::delete_min(&**root);
                proof {
                    assert(tree::sub_map(new_root).dom() =~= self@.remove(
                        tree::sub_entries(self.root)[0].0,
                    ));
                }
                Some((TreeSet { root: new_root }, elem))
            },
        }
    }

    /// Remove the greatest element, returning the new version of the set and
    /// the removed element, or nothing when the set is empty.
    pub fn delete_max(&self) -> (r: Option<(TreeSet<V>, Rc<(V, ())>)>)
        requires
            self.wf(),
        ensures
            match r {
                None => self@ == Set::<V>::empty(),
                Some(p) => {
                    &&& self@.contains(p.1.0)
                    &&& forall|v: V|
                        #[trigger] self@.contains(v) && v != p.1.0 ==> crate::order::lt(v, p.1.0)
                    &&& p.0.wf()
                    &&& p.0@ == self@.remove(p.1.0)
                    &&& p.0.entries() == self.entries().drop_last()
                    &&& self.entries().last().0 == p.1.0
                },
            },
    {
        match &self.root {
            None => {
                proof {
                    tree::lemma_empty_tree::<V, ()>();
                    assert(self@ =~= Set::<V>::empty());
                }
                None
            },
            Some(root) => {
                let (new_root, elem) = tree::delete_max(&**root);
                proof {
                    assert(tree::sub_map(new_root).dom() =~= self@.remove(
                        tree::sub_entries(self.root).last().0,
                    ));
                }
                Some((TreeSet { root: new_root }, elem))
            },
        }
    }

    /// Remove the element that compares equal to `value`, returning the new
    /// version of the set and the removed element, or nothing when absent.
    pub fn remove(&self, value: &V) -> (r: Option<(TreeSet<V>, Rc<(V, ())>)>)
        requires
            self.wf(),
        ensures
            match r {
                None => !self@.contains(*value),
                Some(p) => {
                    &&& self@.contains(*value)
                    &&& p.1.0 == *value
                    &&& p.0.wf()
                    &&& p.0@ == self@.remove(*value)
                },
            },
    {
        match tree::remove(&self.root, value) {
            None => None,
            Some((new_root, elem)) => {
                proof {
                    assert(tree::sub_map(new_root).dom() =~= self@.remove(*value));
                }
                Some((TreeSet { root: new_root }, elem))
            },
        }
    }

    /// An iterator over the elements in ascending order.
    pub fn iter(&self) -> (it: Iter<V, ()>)
        requires
            self.wf(),
        ensures
            it.wf(),
            it.remaining() == self.entries(),
    {
        Iter::new(&self.root)
    }

    /// An iterator over the elements in descending order.
    pub fn rev_iter(&self) -> (it: RevIter<V, ()>)
        requires
            self.wf(),
        ensures
            it.wf(),
            it.remaining() == self.entries(),
    {
        RevIter::new(&self.root)
    }

    /// Check the weight invariant at every node, judged by the recorded
    /// subtree sizes.
    pub fn balanced(&self) -> (r: bool)
        requires
            self.wf(),
        ensures
            r,
    {
        proof {
            tree::lemma_wf_balanced(self.root);
        }
        tree::balanced(&self.root)
    }
}

} // verus!
