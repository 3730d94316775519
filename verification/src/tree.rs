//! The weight-balanced binary search tree engine.
//!
//! Nodes are immutable once constructed and are shared between tree versions
//! through `Rc`; every operation that "changes" a tree builds new nodes along
//! one root-to-leaf path and reuses every other subtree.

use std::rc::Rc;
use vstd::prelude::*;

use crate::order::{lemma_lt_trans, lt, Cmp, TotalOrder};
use crate::Bound;

verus! {

broadcast use vstd::map_lib::group_map_union;

/// A node of a weight-balanced search tree: the element it carries, the
/// cached size of its subtree, and the two optional children.
pub struct TreeNode<K, V> {
    pub size: usize,
    pub elem: Rc<(K, V)>,
    pub left: Option<Rc<TreeNode<K, V>>>,
    pub right: Option<Rc<TreeNode<K, V>>>,
}

impl<K, V> TreeNode<K, V> {
    /// The in-order sequence of elements of this node's subtree.
    pub open spec fn entries(self) -> Seq<(K, V)>
        decreases self,
    {
        sub_entries(self.left) + seq![(self.elem.0, self.elem.1)] + sub_entries(self.right)
    }

    /// The key/value map held by this node's subtree.
    pub open spec fn as_map(self) -> Map<K, V>
        decreases self,
    {
        sub_map(self.left).union_prefer_right(sub_map(self.right)).insert(
            self.elem.0,
            self.elem.1,
        )
    }

    /// The number of elements in this node's subtree.
    pub open spec fn count(self) -> nat {
        self.entries().len()
    }
}

/// The in-order sequence of elements of an optional subtree.
pub open spec fn sub_entries<K, V>(node: Option<Rc<TreeNode<K, V>>>) -> Seq<(K, V)>
    decreases node,
{
    match node {
        None => Seq::empty(),
        Some(n) => n.entries(),
    }
}

/// The key/value map held by an optional subtree.
pub open spec fn sub_map<K, V>(node: Option<Rc<TreeNode<K, V>>>) -> Map<K, V>
    decreases node,
{
    match node {
        None => Map::empty(),
        Some(n) => n.as_map(),
    }
}

/// The number of elements in an optional subtree.
pub open spec fn sub_count<K, V>(node: Option<Rc<TreeNode<K, V>>>) -> nat {
    sub_entries(node).len()
}

/// The weight-balance condition: a subtree of size `b` may be at most three
/// times heavier than its sibling of size `a`, weights counting one extra
/// unit per subtree.
pub open spec fn balanced_sizes(a: nat, b: nat) -> bool {
    3 * (a + 1) >= b + 1
}

impl<K: TotalOrder, V> TreeNode<K, V> {
    /// Well-formedness of this node's subtree: the cached sizes are correct,
    /// every node is weight-balanced, and keys are strictly ordered in-order.
    pub open spec fn wf(self) -> bool
        decreases self,
    {
        &&& self.size == sub_count(self.left) + sub_count(self.right) + 1
        &&& balanced_sizes(sub_count(self.left), sub_count(self.right))
        &&& balanced_sizes(sub_count(self.right), sub_count(self.left))
        &&& (forall|k: K| #[trigger] sub_map(self.left).dom().contains(k) ==> lt(k, self.elem.0))
        &&& (forall|k: K| #[trigger] sub_map(self.right).dom().contains(k) ==> lt(self.elem.0, k))
        &&& sub_wf(self.left)
        &&& sub_wf(self.right)
    }
}

/// Well-formedness of an optional subtree.
pub open spec fn sub_wf<K: TotalOrder, V>(node: Option<Rc<TreeNode<K, V>>>) -> bool
    decreases node,
{
    match node {
        None => true,
        Some(n) => n.wf(),
    }
}

/// Relies on `std::rc::Rc::clone`: the returned handle points at the same
/// allocation as the argument and therefore carries the same value.
#[verifier::external_body]
pub(crate) fn rc_clone<T>(rc: &Rc<T>) -> (res: Rc<T>)
    ensures
        res == *rc,
{
    Rc::clone(rc)
}

/// Clone an optional child pointer, sharing the subtree.
pub(crate) fn opt_clone<K, V>(node: &Option<Rc<TreeNode<K, V>>>) -> (res: Option<
    Rc<TreeNode<K, V>>,
>)
    ensures
        res == *node,
{
    match node {
        None => None,
        Some(n) => Some(rc_clone(n)),
    }
}

/// The number of elements in the given subtree, read from the cached size.
pub fn size<K: TotalOrder, V>(node: &Option<Rc<TreeNode<K, V>>>) -> (s: usize)
    requires
        sub_wf(*node),
    ensures
        s == sub_count(*node),
{
    match node {
        None => 0,
        Some(n) => n.size,
    }
}

impl<K: TotalOrder, V> TreeNode<K, V> {
    /// Allocate a parent node over two subtrees that are already in balance
    /// with each other and whose keys lie strictly on either side of `elem`'s.
    pub(crate) fn new(
        elem: Rc<(K, V)>,
        left: Option<Rc<TreeNode<K, V>>>,
        right: Option<Rc<TreeNode<K, V>>>,
    ) -> (n: TreeNode<K, V>)
        requires
            sub_wf(left),
            sub_wf(right),
            sub_count(left) + sub_count(right) + 1 <= usize::MAX,
            balanced_sizes(sub_count(left), sub_count(right)),
            balanced_sizes(sub_count(right), sub_count(left)),
            forall|k: K| #[trigger] sub_map(left).dom().contains(k) ==> lt(k, elem.0),
            forall|k: K| #[trigger] sub_map(right).dom().contains(k) ==> lt(elem.0, k),
        ensures
            n.wf(),
            n.elem == elem,
            n.left == left,
            n.right == right,
            n.size == sub_count(left) + sub_count(right) + 1,
            n.entries() == sub_entries(left) + seq![(elem.0, elem.1)] + sub_entries(right),
            n.as_map() == sub_map(left).union_prefer_right(sub_map(right)).insert(elem.0, elem.1),
            n.count() == sub_count(left) + sub_count(right) + 1,
    {
        let sz = size(&left) + size(&right) + 1;
        TreeNode { size: sz, elem, left, right }
    }
}

/// Decide the weight-balance condition on two subtree sizes.
pub fn is_balanced(a: usize, b: usize) -> (r: bool)
    ensures
        r == balanced_sizes(a as nat, b as nat),
{
    3 * ((a as u128) + 1) >= (b as u128) + 1
}

/// Choose between a single and a double rotation: a single rotation suffices
/// while the inner grandchild (size `a`) is lighter than twice the outer one
/// (size `b`).
fn is_single(a: usize, b: usize) -> (r: bool)
    ensures
        r == ((a + 1) < 2 * (b + 1)),
{
    (a as u128) + 1 < 2 * ((b as u128) + 1)
}

/// Rebuild a node whose right subtree may have grown by one element or whose
/// left subtree may have shrunk by one, restoring the weight invariant with
/// at most one (single or double) left rotation.
#[verifier::rlimit(60)]
pub(crate) fn balance_left_move<K: TotalOrder, V>(
    elem: Rc<(K, V)>,
    left: &Option<Rc<TreeNode<K, V>>>,
    right: TreeNode<K, V>,
) -> (n: TreeNode<K, V>)
    requires
        sub_wf(*left),
        right.wf(),
        sub_count(*left) + right.count() + 1 <= usize::MAX,
        balanced_sizes(sub_count(*left) + 1, right.count()),
        balanced_sizes(right.count(), sub_count(*left)),
        forall|k: K| #[trigger] sub_map(*left).dom().contains(k) ==> lt(k, elem.0),
        forall|k: K| #[trigger] right.as_map().dom().contains(k) ==> lt(elem.0, k),
    ensures
        n.wf(),
        n.entries() == sub_entries(*left) + seq![(elem.0, elem.1)] + right.entries(),
        n.as_map() == sub_map(*left).union_prefer_right(right.as_map()).insert(elem.0, elem.1),
        n.count() == sub_count(*left) + right.count() + 1,
{
    let ghost r0 = right;
    let ep: &(K, V) = &*elem;
    let ghost e0 = *ep;
    let lsize = size(left);
    if is_balanced(lsize, right.size) {
        let r_opt = Some(Rc::new(right));
        proof {
            assert(sub_wf(r_opt) && sub_map(r_opt) == r0.as_map() && sub_entries(r_opt)
                == r0.entries());
        }
        TreeNode::new(elem, opt_clone(left), r_opt)
    } else {
        let TreeNode { elem: r_elem, size: _, left: rl, right: rr } = right;
        proof {
            assert forall|k: K| #[trigger] sub_map(rl).dom().contains(k) implies lt(e0.0, k) by {
                assert(r0.as_map().dom().contains(k));
            }
            assert forall|k: K| #[trigger] sub_map(rr).dom().contains(k) implies lt(e0.0, k) by {
                assert(r0.as_map().dom().contains(k));
            }
            assert(r0.as_map().dom().contains(r0.elem.0));
        }
        if is_single(size(&rl), size(&rr)) {
            let new_l = TreeNode::new(elem, opt_clone(left), rl);
            proof {
                assert forall|k: K| #[trigger] new_l.as_map().dom().contains(k) implies lt(
                    k,
                    r0.elem.0,
                ) by {
                    if sub_map(*left).dom().contains(k) {
                        lemma_lt_trans(k, e0.0, r0.elem.0);
                    } else if sub_map(r0.left).dom().contains(k) {
                    } else {
                        assert(k == e0.0);
                    }
                }
            }
            let res = TreeNode::new(r_elem, Some(Rc::new(new_l)), rr);
            proof {
                assert(res.entries() =~= sub_entries(*left) + seq![e0] + r0.entries());
                assert(res.as_map() =~= sub_map(*left).union_prefer_right(r0.as_map()).insert(
                    e0.0,
                    e0.1,
                ));
            }
            res
        } else {
            match rl {
                Some(rl_rc) => {
                    let rlr: &TreeNode<K, V> = &*rl_rc;
                    proof {
                        assert(sub_wf(r0.left));
                        assert(rlr.wf());
                        assert(sub_map(r0.left) == rlr.as_map());
                        assert(sub_entries(r0.left) == rlr.entries());
                        assert forall|k: K| #[trigger] sub_map(rlr.left).dom().contains(k) implies
                            lt(e0.0, k) && lt(k, rlr.elem.0) by {
                            assert(rlr.as_map().dom().contains(k));
                            assert(r0.as_map().dom().contains(k));
                        }
                        assert forall|k: K| #[trigger] sub_map(rlr.right).dom().contains(k) implies
                            lt(rlr.elem.0, k) && lt(k, r0.elem.0) by {
                            assert(rlr.as_map().dom().contains(k));
                            assert(r0.as_map().dom().contains(k));
                        }
                        assert(rlr.as_map().dom().contains(rlr.elem.0));
                        assert(r0.as_map().dom().contains(rlr.elem.0));
                        assert(lt(e0.0, rlr.elem.0));
                        assert(lt(rlr.elem.0, r0.elem.0));
                    }
                    let new_l = TreeNode::new(elem, opt_clone(left), opt_clone(&rlr.left));
                    proof {
                        assert forall|k: K| #[trigger] new_l.as_map().dom().contains(k) implies lt(
                            k,
                            rlr.elem.0,
                        ) by {
                            if sub_map(*left).dom().contains(k) {
                                lemma_lt_trans(k, e0.0, rlr.elem.0);
                            } else if sub_map(rlr.left).dom().contains(k) {
                            } else {
                                assert(k == e0.0);
                            }
                        }
                    }
                    let new_r = TreeNode::new(r_elem, opt_clone(&rlr.right), rr);
                    proof {
                        assert forall|k: K| #[trigger] new_r.as_map().dom().contains(k) implies lt(
                            rlr.elem.0,
                            k,
                        ) by {
                            if sub_map(rlr.right).dom().contains(k) {
                            } else if sub_map(rr).dom().contains(k) {
                                assert(r0.as_map().dom().contains(k));
                                lemma_lt_trans(rlr.elem.0, r0.elem.0, k);
                            } else {
                                assert(k == r0.elem.0);
                            }
                        }
                    }
                    let res = TreeNode::new(
                        rc_clone(&rlr.elem),
                        Some(Rc::new(new_l)),
                        Some(Rc::new(new_r)),
                    );
                    proof {
                        assert(!sub_map(rlr.right).dom().contains(e0.0)) by {
                            if sub_map(rlr.right).dom().contains(e0.0) {
                                K::lemma_antisymmetric(e0.0, rlr.elem.0);
                            }
                        }
                        assert(!sub_map(rr).dom().contains(rlr.elem.0)) by {
                            if sub_map(rr).dom().contains(rlr.elem.0) {
                                K::lemma_antisymmetric(rlr.elem.0, r0.elem.0);
                            }
                        }
                        assert(res.entries() =~= sub_entries(*left) + seq![e0] + r0.entries());
                        assert(res.as_map() =~= sub_map(*left).union_prefer_right(
                            r0.as_map(),
                        ).insert(e0.0, e0.1));
                    }
                    res
                },
                None => {
                    proof {
                        assert(false);
                    }
                    unreached()
                },
            }
        }
    }
}

/// Rebuild a node whose left subtree may have grown by one element or whose
/// right subtree may have shrunk by one, restoring the weight invariant with
/// at most one (single or double) right rotation.
#[verifier::rlimit(60)]
pub(crate) fn balance_right_move<K: TotalOrder, V>(
    elem: Rc<(K, V)>,
    left: TreeNode<K, V>,
    right: &Option<Rc<TreeNode<K, V>>>,
) -> (n: TreeNode<K, V>)
    requires
        left.wf(),
        sub_wf(*right),
        left.count() + sub_count(*right) + 1 <= usize::MAX,
        balanced_sizes(sub_count(*right) + 1, left.count()),
        balanced_sizes(left.count(), sub_count(*right)),
        forall|k: K| #[trigger] left.as_map().dom().contains(k) ==> lt(k, elem.0),
        forall|k: K| #[trigger] sub_map(*right).dom().contains(k) ==> lt(elem.0, k),
    ensures
        n.wf(),
        n.entries() == left.entries() + seq![(elem.0, elem.1)] + sub_entries(*right),
        n.as_map() == left.as_map().union_prefer_right(sub_map(*right)).insert(elem.0, elem.1),
        n.count() == left.count() + sub_count(*right) + 1,
{
    let ghost l0 = left;
    let ep: &(K, V) = &*elem;
    let ghost e0 = *ep;
    let rsize = size(right);
    if is_balanced(rsize, left.size) {
        let l_opt = Some(Rc::new(left));
        proof {
            assert(sub_wf(l_opt) && sub_map(l_opt) == l0.as_map() && sub_entries(l_opt)
                == l0.entries());
        }
        TreeNode::new(elem, l_opt, opt_clone(right))
    } else {
        let TreeNode { elem: l_elem, size: _, left: ll, right: lr } = left;
        proof {
            assert forall|k: K| #[trigger] sub_map(ll).dom().contains(k) implies lt(k, e0.0) by {
                assert(l0.as_map().dom().contains(k));
            }
            assert forall|k: K| #[trigger] sub_map(lr).dom().contains(k) implies lt(k, e0.0) by {
                assert(l0.as_map().dom().contains(k));
            }
            assert(l0.as_map().dom().contains(l0.elem.0));
        }
        if is_single(size(&lr), size(&ll)) {
            let new_r = TreeNode::new(elem, lr, opt_clone(right));
            proof {
                assert forall|k: K| #[trigger] new_r.as_map().dom().contains(k) implies lt(
                    l0.elem.0,
                    k,
                ) by {
                    if sub_map(*right).dom().contains(k) {
                        lemma_lt_trans(l0.elem.0, e0.0, k);
                    } else if sub_map(l0.right).dom().contains(k) {
                    } else {
                        assert(k == e0.0);
                    }
                }
                assert(!sub_map(*right).dom().contains(l0.elem.0)) by {
                    if sub_map(*right).dom().contains(l0.elem.0) {
                        K::lemma_antisymmetric(l0.elem.0, e0.0);
                    }
                }
            }
            let res = TreeNode::new(l_elem, ll, Some(Rc::new(new_r)));
            proof {
                assert(res.entries() =~= l0.entries() + seq![e0] + sub_entries(*right));
                assert(res.as_map() =~= l0.as_map().union_prefer_right(sub_map(*right)).insert(
                    e0.0,
                    e0.1,
                ));
            }
            res
        } else {
            match lr {
                Some(lr_rc) => {
                    let lrr: &TreeNode<K, V> = &*lr_rc;
                    proof {
                        assert(sub_wf(l0.right));
                        assert(lrr.wf());
                        assert(sub_map(l0.right) == lrr.as_map());
                        assert(sub_entries(l0.right) == lrr.entries());
                        assert forall|k: K| #[trigger] sub_map(lrr.left).dom().contains(k) implies
                            lt(l0.elem.0, k) && lt(k, lrr.elem.0) by {
                            assert(lrr.as_map().dom().contains(k));
                            assert(l0.as_map().dom().contains(k));
                        }
                        assert forall|k: K| #[trigger] sub_map(lrr.right).dom().contains(k) implies
                            lt(lrr.elem.0, k) && lt(k, e0.0) by {
                            assert(lrr.as_map().dom().contains(k));
                            assert(l0.as_map().dom().contains(k));
                        }
                        assert(lrr.as_map().dom().contains(lrr.elem.0));
                        assert(l0.as_map().dom().contains(lrr.elem.0));
                        assert(lt(l0.elem.0, lrr.elem.0));
                        assert(lt(lrr.elem.0, e0.0));
                    }
                    let new_l = TreeNode::new(l_elem, ll, opt_clone(&lrr.left));
                    proof {
                        assert forall|k: K| #[trigger] new_l.as_map().dom().contains(k) implies lt(
                            k,
                            lrr.elem.0,
                        ) by {
                            if sub_map(ll).dom().contains(k) {
                                lemma_lt_trans(k, l0.elem.0, lrr.elem.0);
                            } else if sub_map(lrr.left).dom().contains(k) {
                            } else {
                                assert(k == l0.elem.0);
                            }
                        }
                    }
                    let new_r = TreeNode::new(elem, opt_clone(&lrr.right), opt_clone(right));
                    proof {
                        assert forall|k: K| #[trigger] new_r.as_map().dom().contains(k) implies lt(
                            lrr.elem.0,
                            k,
                        ) by {
                            if sub_map(lrr.right).dom().contains(k) {
                            } else if sub_map(*right).dom().contains(k) {
                                lemma_lt_trans(lrr.elem.0, e0.0, k);
                            } else {
                                assert(k == e0.0);
                            }
                        }
                    }
                    let res = TreeNode::new(
                        rc_clone(&lrr.elem),
                        Some(Rc::new(new_l)),
                        Some(Rc::new(new_r)),
                    );
                    proof {
                        assert(!sub_map(lrr.right).dom().contains(l0.elem.0)) by {
                            if sub_map(lrr.right).dom().contains(l0.elem.0) {
                                K::lemma_antisymmetric(l0.elem.0, lrr.elem.0);
                            }
                        }
                        assert(!sub_map(*right).dom().contains(l0.elem.0)) by {
                            if sub_map(*right).dom().contains(l0.elem.0) {
                                K::lemma_antisymmetric(l0.elem.0, e0.0);
                            }
                        }
                        assert(!sub_map(*right).dom().contains(lrr.elem.0)) by {
                            if sub_map(*right).dom().contains(lrr.elem.0) {
                                K::lemma_antisymmetric(lrr.elem.0, e0.0);
                            }
                        }
                        assert(res.entries() =~= l0.entries() + seq![e0] + sub_entries(*right));
                        assert(res.as_map() =~= l0.as_map().union_prefer_right(
                            sub_map(*right),
                        ).insert(e0.0, e0.1));
                    }
                    res
                },
                None => {
                    proof {
                        assert(false);
                    }
                    unreached()
                },
            }
        }
    }
}

/// Insert `elem` into the subtree, returning the root of the new version.
/// An element whose key is already present is replaced, key and value both.
pub fn insert<K: TotalOrder, V>(node: &Option<Rc<TreeNode<K, V>>>, elem: Rc<(K, V)>) -> (n:
    TreeNode<K, V>)
    requires
        sub_wf(*node),
        sub_count(*node) < usize::MAX,
    ensures
        n.wf(),
        n.as_map() == sub_map(*node).insert(elem.0, elem.1),
        n.count() == sub_count(*node) + (if sub_map(*node).dom().contains(elem.0) {
            0int
        } else {
            1int
        }),
    decreases node,
{
    let ghost node0 = *node;
    let ep: &(K, V) = &*elem;
    let ghost e0 = *ep;
    match node {
        None => {
            let res = TreeNode { size: 1, elem, left: None, right: None };
            proof {
                assert(res.as_map() =~= sub_map(node0).insert(e0.0, e0.1));
            }
            res
        },
        Some(n) => {
            let nr: &TreeNode<K, V> = &**n;
            let ghost n0 = *nr;
            let npair: &(K, V) = &*nr.elem;
            match ep.0.cmp(&npair.0) {
                Cmp::Lt => {
                    proof {
                        assert(!sub_map(n0.right).dom().contains(e0.0)) by {
                            if sub_map(n0.right).dom().contains(e0.0) {
                                K::lemma_antisymmetric(e0.0, n0.elem.0);
                            }
                        }
                    }
                    let new_left = insert(&nr.left, elem);
                    let res = balance_right_move(rc_clone(&nr.elem), new_left, &nr.right);
                    proof {
                        assert(res.as_map() =~= sub_map(node0).insert(e0.0, e0.1));
                    }
                    res
                },
                Cmp::Gt => {
                    proof {
                        assert(!sub_map(n0.left).dom().contains(e0.0)) by {
                            if sub_map(n0.left).dom().contains(e0.0) {
                                K::lemma_antisymmetric(n0.elem.0, e0.0);
                            }
                        }
                    }
                    let new_right = insert(&nr.right, elem);
                    let res = balance_left_move(rc_clone(&nr.elem), &nr.left, new_right);
                    proof {
                        assert(res.as_map() =~= sub_map(node0).insert(e0.0, e0.1));
                    }
                    res
                },
                Cmp::Eq => {
                    let res = TreeNode {
                        size: nr.size,
                        elem,
                        left: opt_clone(&nr.left),
                        right: opt_clone(&nr.right),
                    };
                    proof {
                        assert(res.as_map() =~= sub_map(node0).insert(e0.0, e0.1));
                        assert(sub_map(node0).dom().contains(e0.0));
                    }
                    res
                },
            }
        },
    }
}

/// Copy a shared node into an owned one, sharing its element and children.
pub(crate) fn clone_node<K, V>(n: &Rc<TreeNode<K, V>>) -> (res: TreeNode<K, V>)
    ensures
        res == **n,
{
    let nr: &TreeNode<K, V> = &**n;
    TreeNode {
        size: nr.size,
        elem: rc_clone(&nr.elem),
        left: opt_clone(&nr.left),
        right: opt_clone(&nr.right),
    }
}

/// Rebuild a node whose left subtree may have shrunk by one element,
/// rebalancing towards the right subtree if needed.
pub(crate) fn balance_left<K: TotalOrder, V>(
    elem: Rc<(K, V)>,
    left: &Option<Rc<TreeNode<K, V>>>,
    right: &Option<Rc<TreeNode<K, V>>>,
) -> (n: TreeNode<K, V>)
    requires
        sub_wf(*left),
        sub_wf(*right),
        sub_count(*left) + sub_count(*right) + 1 <= usize::MAX,
        balanced_sizes(sub_count(*left) + 1, sub_count(*right)),
        balanced_sizes(sub_count(*right), sub_count(*left)),
        forall|k: K| #[trigger] sub_map(*left).dom().contains(k) ==> lt(k, elem.0),
        forall|k: K| #[trigger] sub_map(*right).dom().contains(k) ==> lt(elem.0, k),
    ensures
        n.wf(),
        n.entries() == sub_entries(*left) + seq![(elem.0, elem.1)] + sub_entries(*right),
        n.as_map() == sub_map(*left).union_prefer_right(sub_map(*right)).insert(elem.0, elem.1),
        n.count() == sub_count(*left) + sub_count(*right) + 1,
{
    match right {
        Some(r) => {
            proof {
                assert(sub_map(*right) == (**r).as_map());
                assert(sub_entries(*right) == (**r).entries());
                assert(sub_wf(*right) == (**r).wf());
            }
            balance_left_move(elem, left, clone_node(r))
        },
        None => TreeNode::new(elem, opt_clone(left), None),
    }
}

/// Rebuild a node whose right subtree may have shrunk by one element,
/// rebalancing towards the left subtree if needed.
pub(crate) fn balance_right<K: TotalOrder, V>(
    elem: Rc<(K, V)>,
    left: &Option<Rc<TreeNode<K, V>>>,
    right: &Option<Rc<TreeNode<K, V>>>,
) -> (n: TreeNode<K, V>)
    requires
        sub_wf(*left),
        sub_wf(*right),
        sub_count(*left) + sub_count(*right) + 1 <= usize::MAX,
        balanced_sizes(sub_count(*right) + 1, sub_count(*left)),
        balanced_sizes(sub_count(*left), sub_count(*right)),
        forall|k: K| #[trigger] sub_map(*left).dom().contains(k) ==> lt(k, elem.0),
        forall|k: K| #[trigger] sub_map(*right).dom().contains(k) ==> lt(elem.0, k),
    ensures
        n.wf(),
        n.entries() == sub_entries(*left) + seq![(elem.0, elem.1)] + sub_entries(*right),
        n.as_map() == sub_map(*left).union_prefer_right(sub_map(*right)).insert(elem.0, elem.1),
        n.count() == sub_count(*left) + sub_count(*right) + 1,
{
    match left {
        Some(l) => {
            proof {
                assert(sub_map(*left) == (**l).as_map());
                assert(sub_entries(*left) == (**l).entries());
                assert(sub_wf(*left) == (**l).wf());
            }
            balance_right_move(elem, clone_node(l), right)
        },
        None => TreeNode::new(elem, None, opt_clone(right)),
    }
}

/// Remove the smallest element of the subtree, returning the new version and
/// the element that was removed.
pub fn delete_min<K: TotalOrder, V>(node: &TreeNode<K, V>) -> (res: (
    Option<Rc<TreeNode<K, V>>>,
    Rc<(K, V)>,
))
    requires
        node.wf(),
    ensures
        sub_wf(res.0),
        node.as_map().dom().contains(res.1.0),
        res.1.1 == node.as_map()[res.1.0],
        forall|k: K|
            #[trigger] node.as_map().dom().contains(k) && k != res.1.0 ==> lt(res.1.0, k),
        sub_map(res.0) == node.as_map().remove(res.1.0),
        sub_count(res.0) == node.count() - 1,
        sub_entries(res.0) == node.entries().drop_first(),
        node.entries()[0] == (res.1.0, res.1.1),
    decreases *node,
{
    let ghost n0 = *node;
    match &node.left {
        None => {
            let res = (opt_clone(&node.right), rc_clone(&node.elem));
            proof {
                assert(sub_map(n0.right) =~= n0.as_map().remove(n0.elem.0));
                assert(sub_entries(n0.right) =~= n0.entries().drop_first());
            }
            res
        },
        Some(l) => {
            let (new_left, m) = delete_min(&**l);
            proof {
                assert(sub_map(n0.left).dom().contains(m.0));
                assert(!sub_map(n0.right).dom().contains(m.0)) by {
                    if sub_map(n0.right).dom().contains(m.0) {
                        K::lemma_antisymmetric(m.0, n0.elem.0);
                    }
                }
            }
            let new_node = balance_left(rc_clone(&node.elem), &new_left, &node.right);
            proof {
                assert(new_node.as_map() =~= n0.as_map().remove(m.0));
                assert(new_node.entries() =~= n0.entries().drop_first());
                assert forall|k: K|
                    #[trigger] n0.as_map().dom().contains(k) && k != m.0 implies lt(m.0, k) by {
                    if sub_map(n0.left).dom().contains(k) {
                    } else if k == n0.elem.0 {
                    } else {
                        lemma_lt_trans(m.0, n0.elem.0, k);
                    }
                }
            }
            (Some(Rc::new(new_node)), m)
        },
    }
}

/// Remove the largest element of the subtree, returning the new version and
/// the element that was removed.
pub fn delete_max<K: TotalOrder, V>(node: &TreeNode<K, V>) -> (res: (
    Option<Rc<TreeNode<K, V>>>,
    Rc<(K, V)>,
))
    requires
        node.wf(),
    ensures
        sub_wf(res.0),
        node.as_map().dom().contains(res.1.0),
        res.1.1 == node.as_map()[res.1.0],
        forall|k: K|
            #[trigger] node.as_map().dom().contains(k) && k != res.1.0 ==> lt(k, res.1.0),
        sub_map(res.0) == node.as_map().remove(res.1.0),
        sub_count(res.0) == node.count() - 1,
        sub_entries(res.0) == node.entries().drop_last(),
        node.entries().last() == (res.1.0, res.1.1),
    decreases *node,
{
    let ghost n0 = *node;
    match &node.right {
        None => {
            let res = (opt_clone(&node.left), rc_clone(&node.elem));
            proof {
                assert(sub_map(n0.left) =~= n0.as_map().remove(n0.elem.0));
                assert(sub_entries(n0.left) =~= n0.entries().drop_last());
            }
            res
        },
        Some(r) => {
            let (new_right, m) = delete_max(&**r);
            proof {
                assert(sub_map(n0.right).dom().contains(m.0));
                assert(!sub_map(n0.left).dom().contains(m.0)) by {
                    if sub_map(n0.left).dom().contains(m.0) {
                        K::lemma_antisymmetric(n0.elem.0, m.0);
                    }
                }
            }
            let new_node = balance_right(rc_clone(&node.elem), &node.left, &new_right);
            proof {
                assert(new_node.as_map() =~= n0.as_map().remove(m.0));
                assert(new_node.entries() =~= n0.entries().drop_last());
                assert forall|k: K|
                    #[trigger] n0.as_map().dom().contains(k) && k != m.0 implies lt(k, m.0) by {
                    if sub_map(n0.right).dom().contains(k) {
                    } else if k == n0.elem.0 {
                    } else {
                        lemma_lt_trans(k, n0.elem.0, m.0);
                    }
                }
            }
            (Some(Rc::new(new_node)), m)
        },
    }
}

/// Merge two subtrees all of whose keys are already separated: every key of
/// `left` comes strictly before every key of `right`. The heavier side gives
/// up its boundary element, which becomes the new root.
pub(crate) fn glue<K: TotalOrder, V>(
    left: &Option<Rc<TreeNode<K, V>>>,
    right: &Option<Rc<TreeNode<K, V>>>,
) -> (res: Option<Rc<TreeNode<K, V>>>)
    requires
        sub_wf(*left),
        sub_wf(*right),
        sub_count(*left) + sub_count(*right) <= usize::MAX,
        balanced_sizes(sub_count(*left), sub_count(*right)),
        balanced_sizes(sub_count(*right), sub_count(*left)),
        forall|a: K, b: K|
            #![trigger sub_map(*left).dom().contains(a), sub_map(*right).dom().contains(b)]
            sub_map(*left).dom().contains(a) && sub_map(*right).dom().contains(b) ==> lt(a, b),
    ensures
        sub_wf(res),
        sub_map(res) == sub_map(*left).union_prefer_right(sub_map(*right)),
        sub_entries(res) == sub_entries(*left) + sub_entries(*right),
        sub_count(res) == sub_count(*left) + sub_count(*right),
{
    match left {
        None => {
            let res = opt_clone(right);
            proof {
                assert(sub_map(res) =~= sub_map(*left).union_prefer_right(sub_map(*right)));
                assert(sub_entries(res) =~= sub_entries(*left) + sub_entries(*right));
            }
            res
        },
        Some(l) => match right {
            None => {
                let res = opt_clone(left);
                proof {
                    assert(sub_map(res) =~= sub_map(*left).union_prefer_right(sub_map(*right)));
                    assert(sub_entries(res) =~= sub_entries(*left) + sub_entries(*right));
                }
                res
            },
            Some(r) => {
                proof {
                    assert(sub_map(*left) == (**l).as_map());
                    assert(sub_map(*right) == (**r).as_map());
                    assert(sub_entries(*left) == (**l).entries());
                    assert(sub_entries(*right) == (**r).entries());
                }
                if l.size > r.size {
                    let (new_l, m) = delete_max(&**l);
                    proof {
                        assert(sub_map(*left).dom().contains(m.0));
                        assert forall|k: K| #[trigger] sub_map(new_l).dom().contains(k) implies lt(
                            k,
                            m.0,
                        ) by {
                            assert(sub_map(*left).dom().contains(k));
                        }
                    }
                    let nn = balance_left_move(m, &new_l, clone_node(r));
                    proof {
                        assert(nn.as_map() =~= sub_map(*left).union_prefer_right(sub_map(*right)));
                        assert(nn.entries() =~= sub_entries(*left) + sub_entries(*right));
                    }
                    Some(Rc::new(nn))
                } else {
                    let (new_r, m) = delete_min(&**r);
                    proof {
                        assert(sub_map(*right).dom().contains(m.0));
                        assert forall|k: K| #[trigger] sub_map(new_r).dom().contains(k) implies lt(
                            m.0,
                            k,
                        ) by {
                            assert(sub_map(*right).dom().contains(k));
                        }
                    }
                    let nn = balance_right_move(m, clone_node(l), &new_r);
                    proof {
                        assert(nn.as_map() =~= sub_map(*left).union_prefer_right(sub_map(*right)));
                        assert(nn.entries() =~= sub_entries(*left) + sub_entries(*right));
                    }
                    Some(Rc::new(nn))
                }
            },
        },
    }
}

/// Remove the element whose key compares equal to `key`, returning the new
/// version and the removed element, or nothing when the key is absent.
pub fn remove<K: TotalOrder, V>(node: &Option<Rc<TreeNode<K, V>>>, key: &K) -> (res: Option<
    (Option<Rc<TreeNode<K, V>>>, Rc<(K, V)>),
>)
    requires
        sub_wf(*node),
    ensures
        match res {
            None => !sub_map(*node).dom().contains(*key),
            Some(p) => {
                &&& sub_map(*node).dom().contains(*key)
                &&& p.1.0 == *key
                &&& p.1.1 == sub_map(*node)[*key]
                &&& sub_wf(p.0)
                &&& sub_map(p.0) == sub_map(*node).remove(*key)
                &&& sub_count(p.0) == sub_count(*node) - 1
            },
        },
    decreases node,
{
    match node {
        None => None,
        Some(n) => {
            let nr: &TreeNode<K, V> = &**n;
            let ghost n0 = *nr;
            let npair: &(K, V) = &*nr.elem;
            match key.cmp(&npair.0) {
                Cmp::Lt => {
                    proof {
                        assert(!sub_map(n0.right).dom().contains(*key)) by {
                            if sub_map(n0.right).dom().contains(*key) {
                                K::lemma_antisymmetric(*key, n0.elem.0);
                            }
                        }
                    }
                    match remove(&nr.left, key) {
                        None => None,
                        Some((new_left, rem)) => {
                            let nn = balance_left(rc_clone(&nr.elem), &new_left, &nr.right);
                            proof {
                                assert(nn.as_map() =~= sub_map(*node).remove(*key));
                            }
                            Some((Some(Rc::new(nn)), rem))
                        },
                    }
                },
                Cmp::Gt => {
                    proof {
                        assert(!sub_map(n0.left).dom().contains(*key)) by {
                            if sub_map(n0.left).dom().contains(*key) {
                                K::lemma_antisymmetric(n0.elem.0, *key);
                            }
                        }
                    }
                    match remove(&nr.right, key) {
                        None => None,
                        Some((new_right, rem)) => {
                            let nn = balance_right(rc_clone(&nr.elem), &nr.left, &new_right);
                            proof {
                                assert(nn.as_map() =~= sub_map(*node).remove(*key));
                            }
                            Some((Some(Rc::new(nn)), rem))
                        },
                    }
                },
                Cmp::Eq => {
                    proof {
                        assert forall|a: K, b: K|
                            #![trigger sub_map(n0.left).dom().contains(a), sub_map(n0.right).dom().contains(b)]
                            sub_map(n0.left).dom().contains(a) && sub_map(n0.right).dom().contains(
                                b,
                            ) implies lt(a, b) by {
                            lemma_lt_trans(a, n0.elem.0, b);
                        }
                    }
                    let t = glue(&nr.left, &nr.right);
                    proof {
                        assert(sub_map(t) =~= sub_map(*node).remove(*key));
                    }
                    Some((t, rc_clone(&nr.elem)))
                },
            }
        },
    }
}

/// The subtree size recorded in a node, with an empty subtree counting zero.
pub open spec fn stored_size<K, V>(node: Option<Rc<TreeNode<K, V>>>) -> nat {
    match node {
        None => 0,
        Some(n) => n.size as nat,
    }
}

/// Whether every node of the subtree satisfies the weight invariant, judged
/// by the recorded sizes.
pub open spec fn stored_balance_ok<K, V>(node: Option<Rc<TreeNode<K, V>>>) -> bool
    decreases node,
{
    match node {
        None => true,
        Some(n) => {
            &&& balanced_sizes(stored_size(n.left), stored_size(n.right))
            &&& balanced_sizes(stored_size(n.right), stored_size(n.left))
            &&& stored_balance_ok(n.left)
            &&& stored_balance_ok(n.right)
        },
    }
}

/// The left child of the root of a subtree, if any.
pub open spec fn left_child<K, V>(node: Option<Rc<TreeNode<K, V>>>) -> Option<
    Rc<TreeNode<K, V>>,
> {
    match node {
        None => None,
        Some(n) => n.left,
    }
}

/// The right child of the root of a subtree, if any.
pub open spec fn right_child<K, V>(node: Option<Rc<TreeNode<K, V>>>) -> Option<
    Rc<TreeNode<K, V>>,
> {
    match node {
        None => None,
        Some(n) => n.right,
    }
}

/// A well-formed subtree records true sizes and satisfies the weight
/// invariant at every node.
pub proof fn lemma_wf_balanced<K: TotalOrder, V>(node: Option<Rc<TreeNode<K, V>>>)
    requires
        sub_wf(node),
    ensures
        stored_balance_ok(node),
        stored_size(node) == sub_count(node),
    decreases sub_count(node),
{
    if node is Some {
        let l = left_child(node);
        let r = right_child(node);
        assert(sub_wf(l) && sub_wf(r));
        assert(sub_count(node) == sub_count(l) + sub_count(r) + 1);
        lemma_wf_balanced(l);
        lemma_wf_balanced(r);
        assert(stored_balance_ok(node));
    }
}

/// Check the weight invariant at every node of the subtree, judged by the
/// recorded sizes.
pub fn balanced<K: TotalOrder, V>(node: &Option<Rc<TreeNode<K, V>>>) -> (r: bool)
    ensures
        r == stored_balance_ok(*node),
    decreases node,
{
    match node {
        None => true,
        Some(n) => {
            let nr: &TreeNode<K, V> = &**n;
            let ls = match &nr.left {
                None => 0,
                Some(l) => l.size,
            };
            let rs = match &nr.right {
                None => 0,
                Some(r) => r.size,
            };
            is_balanced(ls, rs) && is_balanced(rs, ls) && balanced(&nr.left) && balanced(&nr.right)
        },
    }
}

/// Strict in-order sortedness: keys grow strictly along the sequence.
pub open spec fn sorted<K: TotalOrder, V>(s: Seq<(K, V)>) -> bool {
    forall|i: int, j: int| 0 <= i < j < s.len() ==> lt(#[trigger] s[i].0, #[trigger] s[j].0)
}

/// The element at the root of a subtree.
pub open spec fn root_pair<K, V>(node: Option<Rc<TreeNode<K, V>>>) -> (K, V)
    recommends
        node is Some,
{
    match node {
        None => arbitrary(),
        Some(n) => (n.elem.0, n.elem.1),
    }
}

/// How the two views of a well-formed subtree fit together: the in-order
/// element sequence is strictly sorted, has exactly one entry per key of the
/// map, and agrees with the map on every entry.
pub proof fn lemma_entries_map<K: TotalOrder, V>(node: Option<Rc<TreeNode<K, V>>>)
    requires
        sub_wf(node),
    ensures
        sorted(sub_entries(node)),
        sub_map(node).dom().finite(),
        sub_map(node).dom().len() == sub_count(node),
        forall|i: int|
            0 <= i < sub_entries(node).len() ==> sub_map(node).contains_pair(
                (#[trigger] sub_entries(node)[i]).0,
                sub_entries(node)[i].1,
            ),
        forall|k: K| #[trigger]
            sub_map(node).dom().contains(k) ==> sub_entries(node).contains((k, sub_map(node)[k])),
    decreases sub_count(node),
{
    if node is Some {
        let l = left_child(node);
        let r = right_child(node);
        let e = root_pair(node);
        let s = sub_entries(node);
        let sl = sub_entries(l);
        let sr = sub_entries(r);
        let m = sub_map(node);
        assert(sub_wf(l) && sub_wf(r));
        assert(s == sl + seq![e] + sr);
        assert(m == sub_map(l).union_prefer_right(sub_map(r)).insert(e.0, e.1));
        assert(forall|k: K| #[trigger] sub_map(l).dom().contains(k) ==> lt(k, e.0));
        assert(forall|k: K| #[trigger] sub_map(r).dom().contains(k) ==> lt(e.0, k));
        lemma_entries_map(l);
        lemma_entries_map(r);
        assert(sub_map(l).dom().disjoint(sub_map(r).dom())) by {
            assert forall|k: K|
                !(sub_map(l).dom().contains(k) && #[trigger] sub_map(r).dom().contains(k)) by {
                if sub_map(l).dom().contains(k) && sub_map(r).dom().contains(k) {
                    K::lemma_antisymmetric(k, e.0);
                }
            }
        }
        assert(m.dom() =~= (sub_map(l).dom() + sub_map(r).dom()).insert(e.0));
        assert(m.dom().len() == sub_count(node)) by {
            vstd::set_lib::lemma_set_disjoint_lens(sub_map(l).dom(), sub_map(r).dom());
            assert(!(sub_map(l).dom() + sub_map(r).dom()).contains(e.0));
        }
        let nl = sl.len() as int;
        assert forall|i: int| 0 <= i < s.len() implies m.contains_pair(
            (#[trigger] s[i]).0,
            s[i].1,
        ) by {
            if i < nl {
                assert(sub_map(l).contains_pair(sl[i].0, sl[i].1));
            } else if i == nl {
                assert(s[i] == e);
            } else {
                assert(s[i] == sr[i - nl - 1]);
                assert(sub_map(r).contains_pair(sr[i - nl - 1].0, sr[i - nl - 1].1));
            }
        }
        assert forall|i: int, j: int| 0 <= i < j < s.len() implies lt(
            (#[trigger] s[i]).0,
            (#[trigger] s[j]).0,
        ) by {
            if i < nl && j < nl {
                assert(lt(sl[i].0, sl[j].0));
            } else if i < nl && j == nl {
                assert(sub_map(l).contains_pair(sl[i].0, sl[i].1));
            } else if i < nl && j > nl {
                assert(sub_map(l).contains_pair(sl[i].0, sl[i].1));
                assert(sub_map(r).contains_pair(sr[j - nl - 1].0, sr[j - nl - 1].1));
                lemma_lt_trans(s[i].0, e.0, s[j].0);
            } else if i == nl {
                assert(sub_map(r).contains_pair(sr[j - nl - 1].0, sr[j - nl - 1].1));
            } else {
                assert(lt(sr[i - nl - 1].0, sr[j - nl - 1].0));
            }
        }
        assert forall|k: K| #[trigger] m.dom().contains(k) implies s.contains((k, m[k])) by {
            if k == e.0 {
                assert(s[nl] == (k, m[k]));
            } else if sub_map(l).dom().contains(k) {
                assert(!sub_map(r).dom().contains(k));
                assert(m[k] == sub_map(l)[k]);
                assert(sl.contains((k, sub_map(l)[k])));
                let i = choose|i: int| 0 <= i < sl.len() && sl[i] == (k, sub_map(l)[k]);
                assert(s[i] == (k, m[k]));
            } else {
                assert(sub_map(r).dom().contains(k));
                assert(m[k] == sub_map(r)[k]);
                assert(sr.contains((k, sub_map(r)[k])));
                let i = choose|i: int| 0 <= i < sr.len() && sr[i] == (k, sub_map(r)[k]);
                assert(s[nl + 1 + i] == (k, m[k]));
            }
        }
    } else {
        assert(sub_map(node).dom() =~= Set::<K>::empty());
    }
}

/// Look up the element whose key compares equal to `key`.
pub fn find_exact<'a, K: TotalOrder, V>(node: &'a Option<Rc<TreeNode<K, V>>>, key: &K) -> (r:
    Option<&'a (K, V)>)
    requires
        sub_wf(*node),
    ensures
        match r {
            Some(p) => sub_map(*node).dom().contains(*key) && *p == (*key, sub_map(*node)[*key]),
            None => !sub_map(*node).dom().contains(*key),
        },
    decreases node,
{
    match node {
        None => None,
        Some(n) => {
            let nr: &TreeNode<K, V> = &**n;
            let pair: &(K, V) = &*nr.elem;
            match key.cmp(&pair.0) {
                Cmp::Lt => {
                    proof {
                        if sub_map(nr.right).dom().contains(*key) {
                            K::lemma_antisymmetric(*key, pair.0);
                        }
                    }
                    find_exact(&nr.left, key)
                },
                Cmp::Eq => Some(pair),
                Cmp::Gt => {
                    proof {
                        if sub_map(nr.left).dom().contains(*key) {
                            K::lemma_antisymmetric(pair.0, *key);
                        }
                    }
                    find_exact(&nr.right, key)
                },
            }
        },
    }
}

/// Sortedness splits over concatenation.
pub proof fn lemma_sorted_split<K: TotalOrder, V>(a: Seq<(K, V)>, b: Seq<(K, V)>)
    requires
        sorted(a + b),
    ensures
        sorted(a),
        sorted(b),
{
    assert forall|i: int, j: int| 0 <= i < j < a.len() implies lt(
        (#[trigger] a[i]).0,
        (#[trigger] a[j]).0,
    ) by {
        assert((a + b)[i] == a[i]);
        assert((a + b)[j] == a[j]);
        assert(lt((a + b)[i].0, (a + b)[j].0));
    }
    assert forall|i: int, j: int| 0 <= i < j < b.len() implies lt(
        (#[trigger] b[i]).0,
        (#[trigger] b[j]).0,
    ) by {
        assert((a + b)[a.len() + i] == b[i]);
        assert((a + b)[a.len() + j] == b[j]);
        assert(lt((a + b)[a.len() + i].0, (a + b)[a.len() + j].0));
    }
}

/// The elements that an ascending iterator with the given ancestor stack has
/// yet to produce, in order of production: the top of the stack comes first,
/// followed by its right subtree, then the rest of the stack below.
pub open spec fn stack_entries<K, V>(stack: Seq<Rc<TreeNode<K, V>>>) -> Seq<(K, V)>
    decreases stack.len(),
{
    if stack.len() == 0 {
        Seq::empty()
    } else {
        let top = stack.last();
        seq![(top.elem.0, top.elem.1)] + sub_entries(top.right) + stack_entries(stack.drop_last())
    }
}

/// The elements that a descending iterator with the given ancestor stack has
/// yet to produce, listed in ascending order; they are consumed from the back.
pub open spec fn stack_entries_back<K, V>(stack: Seq<Rc<TreeNode<K, V>>>) -> Seq<(K, V)>
    decreases stack.len(),
{
    if stack.len() == 0 {
        Seq::empty()
    } else {
        let top = stack.last();
        stack_entries_back(stack.drop_last()) + sub_entries(top.left) + seq![
            (top.elem.0, top.elem.1),
        ]
    }
}

/// An ascending iterator over a tree version: a stack of the ancestors whose
/// left spine has been fully descended.
pub struct Iter<K, V> {
    pub stack: Vec<Rc<TreeNode<K, V>>>,
}

impl<K: TotalOrder, V> Iter<K, V> {
    /// The elements yet to be produced, in order of production.
    pub open spec fn remaining(self) -> Seq<(K, V)> {
        stack_entries(self.stack@)
    }

    /// The iterator's stack holds well-formed subtrees and the elements yet
    /// to come form a strictly ascending sequence that fits in a machine word.
    pub open spec fn wf(self) -> bool {
        &&& forall|i: int| 0 <= i < self.stack@.len() ==> (#[trigger] self.stack@[i]).wf()
        &&& sorted(stack_entries(self.stack@))
        &&& stack_entries(self.stack@).len() <= usize::MAX
    }

    /// Start an ascending iterator positioned at the least element.
    pub fn new(node: &Option<Rc<TreeNode<K, V>>>) -> (it: Iter<K, V>)
        requires
            sub_wf(*node),
        ensures
            it.wf(),
            it.remaining() == sub_entries(*node),
    {
        let mut it = Iter { stack: Vec::new() };
        proof {
            lemma_entries_map(*node);
            assert(stack_entries(it.stack@) =~= Seq::<(K, V)>::empty());
        }
        match node {
            None => {},
            Some(n) => {
                proof {
                    assert((**n).wf());
                    assert((**n).count() <= usize::MAX);
                    assert((**n).entries() + stack_entries(it.stack@) =~= sub_entries(*node));
                }
                it.push_left(rc_clone(n));
            },
        }
        it
    }

    /// Push the full left spine of `node`, scheduling its whole subtree ahead
    /// of everything already on the stack.
    fn push_left(&mut self, node: Rc<TreeNode<K, V>>)
        requires
            old(self).wf(),
            (*node).wf(),
            sorted((*node).entries() + old(self).remaining()),
            (*node).count() + old(self).remaining().len() <= usize::MAX,
        ensures
            final(self).wf(),
            final(self).remaining() == (*node).entries() + old(self).remaining(),
        decreases (*node).count(),
    {
        let nr: &TreeNode<K, V> = &*node;
        let ghost n0 = *nr;
        let ghost target = n0.entries() + old(self).remaining();
        let next = opt_clone(&nr.left);
        self.stack.push(node);
        proof {
            assert(self.stack@.drop_last() =~= old(self).stack@);
            assert(self.stack@.last() == n0);
            assert(stack_entries(self.stack@) == seq![(n0.elem.0, n0.elem.1)] + sub_entries(
                n0.right,
            ) + old(self).remaining());
            assert(sub_entries(n0.left) + stack_entries(self.stack@) =~= target);
            assert forall|i: int| 0 <= i < self.stack@.len() implies (
            #[trigger] self.stack@[i]).wf() by {
                if i < old(self).stack@.len() {
                    assert(old(self).stack@[i].wf());
                }
            }
            assert(sub_entries(n0.left) + stack_entries(self.stack@) == target);
            lemma_sorted_split(sub_entries(n0.left), stack_entries(self.stack@));
        }
        match next {
            None => {
                proof {
                    assert(stack_entries(self.stack@) =~= target);
                }
            },
            Some(l) => {
                proof {
                    assert((*l).wf());
                    assert((*l).entries() + stack_entries(self.stack@) =~= target);
                }
                self.push_left(l);
            },
        }
    }

    /// Produce the least element not yet produced, advancing the iterator.
    pub fn next(&mut self) -> (r: Option<Rc<(K, V)>>)
        requires
            old(self).wf(),
        ensures
            final(self).wf(),
            match r {
                None => old(self).remaining().len() == 0 && final(self).remaining() == old(
                    self,
                ).remaining(),
                Some(p) => {
                    &&& old(self).remaining().len() > 0
                    &&& (p.0, p.1) == old(self).remaining()[0]
                    &&& final(self).remaining() == old(self).remaining().drop_first()
                },
            },
    {
        let ghost rem0 = old(self).remaining();
        match self.stack.pop() {
            None => {
                proof {
                    assert(old(self).stack@ =~= self.stack@);
                }
                None
            },
            Some(top) => {
                let tr: &TreeNode<K, V> = &*top;
                let ghost t0 = *tr;
                let ret = rc_clone(&tr.elem);
                proof {
                    assert(old(self).stack@.drop_last() =~= self.stack@);
                    assert(old(self).stack@.last() == t0);
                    assert(rem0 == seq![(t0.elem.0, t0.elem.1)] + sub_entries(t0.right)
                        + stack_entries(self.stack@));
                    assert(rem0[0] == (t0.elem.0, t0.elem.1));
                    assert(t0.wf());
                    assert forall|i: int| 0 <= i < self.stack@.len() implies (
                    #[trigger] self.stack@[i]).wf() by {
                        assert(old(self).stack@[i].wf());
                    }
                    assert(sub_entries(t0.right) + stack_entries(self.stack@)
                        =~= rem0.drop_first());
                    assert(sorted(rem0.drop_first())) by {
                        assert forall|i: int, j: int|
                            0 <= i < j < rem0.drop_first().len() implies lt(
                            (#[trigger] rem0.drop_first()[i]).0,
                            (#[trigger] rem0.drop_first()[j]).0,
                        ) by {
                            assert(rem0.drop_first()[i] == rem0[i + 1]);
                            assert(rem0.drop_first()[j] == rem0[j + 1]);
                        }
                    }
                }
                match &tr.right {
                    None => {
                        proof {
                            assert(stack_entries(self.stack@) =~= rem0.drop_first());
                        }
                    },
                    Some(r) => {
                        proof {
                            assert((**r).wf());
                            assert((**r).entries() + stack_entries(self.stack@)
                                =~= rem0.drop_first());
                            assert(sub_entries(t0.right) == (**r).entries());
                            lemma_sorted_split(sub_entries(t0.right), stack_entries(self.stack@));
                        }
                        let rr = rc_clone(r);
                        self.push_left(rr);
                    },
                }
                Some(ret)
            },
        }
    }

    /// Glance at the least element not yet produced without advancing.
    pub fn peek(&self) -> (r: Option<&(K, V)>)
        requires
            self.wf(),
        ensures
            match r {
                None => self.remaining().len() == 0,
                Some(p) => self.remaining().len() > 0 && *p == self.remaining()[0],
            },
    {
        let n = self.stack.len();
        if n == 0 {
            proof {
                assert(self.stack@ =~= Seq::<Rc<TreeNode<K, V>>>::empty());
            }
            None
        } else {
            let top: &Rc<TreeNode<K, V>> = &self.stack[n - 1];
            let tr: &TreeNode<K, V> = &**top;
            proof {
                assert(self.stack@.last() == self.stack@[n - 1]);
            }
            Some(&*tr.elem)
        }
    }

    /// The exact number of elements yet to be produced, as a lower and an
    /// upper bound that coincide.
    pub fn size_hint(&self) -> (n: (usize, Option<usize>))
        requires
            self.wf(),
        ensures
            n.0 == self.remaining().len(),
            n.1 == Some(n.0),
    {
        let mut acc: usize = 0;
        let mut k: usize = 0;
        let len = self.stack.len();
        proof {
            assert(self.stack@.take(0int) =~= Seq::<Rc<TreeNode<K, V>>>::empty());
        }
        while k < len
            invariant
                0 <= k <= len,
                len == self.stack@.len(),
                self.wf(),
                acc == stack_entries(self.stack@.take(k as int)).len(),
                acc <= self.remaining().len(),
            decreases len - k,
        {
            let top: &Rc<TreeNode<K, V>> = &self.stack[k];
            let tr: &TreeNode<K, V> = &**top;
            proof {
                assert(self.stack@[k as int].wf());
                lemma_stack_take_len(self.stack@, k as int + 1);
                assert(self.stack@.take(k as int + 1).drop_last() =~= self.stack@.take(k as int));
                assert(self.stack@.take(k as int + 1).last() == self.stack@[k as int]);
            }
            acc = acc + (size(&tr.right) + 1);
            k = k + 1;
        }
        proof {
            assert(self.stack@.take(len as int) =~= self.stack@);
        }
        (acc, Some(acc))
    }
}

/// A descending iterator over a tree version: a stack of the ancestors whose
/// right spine has been fully descended.
pub struct RevIter<K, V> {
    pub stack: Vec<Rc<TreeNode<K, V>>>,
}

impl<K: TotalOrder, V> RevIter<K, V> {
    /// The elements yet to be produced, listed in ascending key order; the
    /// iterator produces them from the back, so the greatest comes first.
    pub open spec fn remaining(self) -> Seq<(K, V)> {
        stack_entries_back(self.stack@)
    }

    /// The iterator's stack holds well-formed subtrees and the elements yet
    /// to come form a strictly ascending sequence that fits in a machine word.
    pub open spec fn wf(self) -> bool {
        &&& forall|i: int| 0 <= i < self.stack@.len() ==> (#[trigger] self.stack@[i]).wf()
        &&& sorted(stack_entries_back(self.stack@))
        &&& stack_entries_back(self.stack@).len() <= usize::MAX
    }

    /// Start a descending iterator positioned at the greatest element.
    pub fn new(node: &Option<Rc<TreeNode<K, V>>>) -> (it: RevIter<K, V>)
        requires
            sub_wf(*node),
        ensures
            it.wf(),
            it.remaining() == sub_entries(*node),
    {
        let mut it = RevIter { stack: Vec::new() };
        proof {
            lemma_entries_map(*node);
            assert(stack_entries_back(it.stack@) =~= Seq::<(K, V)>::empty());
        }
        match node {
            None => {},
            Some(n) => {
                proof {
                    assert((**n).wf());
                    assert((**n).count() <= usize::MAX);
                    assert(stack_entries_back(it.stack@) + (**n).entries() =~= sub_entries(*node));
                }
                it.push_right(rc_clone(n));
            },
        }
        it
    }

    /// Push the full right spine of `node`, scheduling its whole subtree
    /// behind everything already on the stack.
    fn push_right(&mut self, node: Rc<TreeNode<K, V>>)
        requires
            old(self).wf(),
            (*node).wf(),
            sorted(old(self).remaining() + (*node).entries()),
            (*node).count() + old(self).remaining().len() <= usize::MAX,
        ensures
            final(self).wf(),
            final(self).remaining() == old(self).remaining() + (*node).entries(),
        decreases (*node).count(),
    {
        let nr: &TreeNode<K, V> = &*node;
        let ghost n0 = *nr;
        let ghost target = old(self).remaining() + n0.entries();
        let next = opt_clone(&nr.right);
        self.stack.push(node);
        proof {
            assert(self.stack@.drop_last() =~= old(self).stack@);
            assert(self.stack@.last() == n0);
            assert(stack_entries_back(self.stack@) == old(self).remaining() + sub_entries(n0.left)
                + seq![(n0.elem.0, n0.elem.1)]);
            assert(stack_entries_back(self.stack@) + sub_entries(n0.right) =~= target);
            assert forall|i: int| 0 <= i < self.stack@.len() implies (
            #[trigger] self.stack@[i]).wf() by {
                if i < old(self).stack@.len() {
                    assert(old(self).stack@[i].wf());
                }
            }
            assert(stack_entries_back(self.stack@) + sub_entries(n0.right) == target);
            lemma_sorted_split(stack_entries_back(self.stack@), sub_entries(n0.right));
        }
        match next {
            None => {
                proof {
                    assert(stack_entries_back(self.stack@) =~= target);
                }
            },
            Some(r) => {
                proof {
                    assert((*r).wf());
                    assert(stack_entries_back(self.stack@) + (*r).entries() =~= target);
                }
                self.push_right(r);
            },
        }
    }

    /// Produce the greatest element not yet produced, advancing the iterator.
    pub fn next(&mut self) -> (r: Option<Rc<(K, V)>>)
        requires
            old(self).wf(),
        ensures
            final(self).wf(),
            match r {
                None => old(self).remaining().len() == 0 && final(self).remaining() == old(
                    self,
                ).remaining(),
                Some(p) => {
                    &&& old(self).remaining().len() > 0
                    &&& (p.0, p.1) == old(self).remaining().last()
                    &&& final(self).remaining() == old(self).remaining().drop_last()
                },
            },
    {
        let ghost rem0 = old(self).remaining();
        match self.stack.pop() {
            None => {
                proof {
                    assert(old(self).stack@ =~= self.stack@);
                }
                None
            },
            Some(top) => {
                let tr: &TreeNode<K, V> = &*top;
                let ghost t0 = *tr;
                let ret = rc_clone(&tr.elem);
                proof {
                    assert(old(self).stack@.drop_last() =~= self.stack@);
                    assert(old(self).stack@.last() == t0);
                    assert(rem0 == stack_entries_back(self.stack@) + sub_entries(t0.left) + seq![
                        (t0.elem.0, t0.elem.1),
                    ]);
                    assert(rem0.last() == (t0.elem.0, t0.elem.1));
                    assert(t0.wf());
                    assert forall|i: int| 0 <= i < self.stack@.len() implies (
                    #[trigger] self.stack@[i]).wf() by {
                        assert(old(self).stack@[i].wf());
                    }
                    assert(stack_entries_back(self.stack@) + sub_entries(t0.left)
                        =~= rem0.drop_last());
                    assert(sorted(rem0.drop_last())) by {
                        assert forall|i: int, j: int|
                            0 <= i < j < rem0.drop_last().len() implies lt(
                            (#[trigger] rem0.drop_last()[i]).0,
                            (#[trigger] rem0.drop_last()[j]).0,
                        ) by {
                            assert(rem0.drop_last()[i] == rem0[i]);
                            assert(rem0.drop_last()[j] == rem0[j]);
                        }
                    }
                }
                match &tr.left {
                    None => {
                        proof {
                            assert(stack_entries_back(self.stack@) =~= rem0.drop_last());
                        }
                    },
                    Some(l) => {
                        proof {
                            assert((**l).wf());
                            assert(stack_entries_back(self.stack@) + (**l).entries()
                                =~= rem0.drop_last());
                            assert(sub_entries(t0.left) == (**l).entries());
                            lemma_sorted_split(stack_entries_back(self.stack@), sub_entries(
                                t0.left,
                            ));
                        }
                        let ll = rc_clone(l);
                        self.push_right(ll);
                    },
                }
                Some(ret)
            },
        }
    }

    /// The exact number of elements yet to be produced, as a lower and an
    /// upper bound that coincide.
    pub fn size_hint(&self) -> (n: (usize, Option<usize>))
        requires
            self.wf(),
        ensures
            n.0 == self.remaining().len(),
            n.1 == Some(n.0),
    {
        let mut acc: usize = 0;
        let mut k: usize = 0;
        let len = self.stack.len();
        proof {
            assert(self.stack@.take(0int) =~= Seq::<Rc<TreeNode<K, V>>>::empty());
        }
        while k < len
            invariant
                0 <= k <= len,
                len == self.stack@.len(),
                self.wf(),
                acc == stack_entries_back(self.stack@.take(k as int)).len(),
                acc <= self.remaining().len(),
            decreases len - k,
        {
            let top: &Rc<TreeNode<K, V>> = &self.stack[k];
            let tr: &TreeNode<K, V> = &**top;
            proof {
                assert(self.stack@[k as int].wf());
                lemma_stack_take_len_back(self.stack@, k as int + 1);
                assert(self.stack@.take(k as int + 1).drop_last() =~= self.stack@.take(k as int));
                assert(self.stack@.take(k as int + 1).last() == self.stack@[k as int]);
            }
            acc = acc + (size(&tr.left) + 1);
            k = k + 1;
        }
        proof {
            assert(self.stack@.take(len as int) =~= self.stack@);
        }
        (acc, Some(acc))
    }
}

/// The elements scheduled by a stack prefix are among those scheduled by the
/// whole stack, for descending iterators.
proof fn lemma_stack_take_len_back<K, V>(s: Seq<Rc<TreeNode<K, V>>>, k: int)
    requires
        0 <= k <= s.len(),
    ensures
        stack_entries_back(s.take(k)).len() <= stack_entries_back(s).len(),
    decreases s.len() - k,
{
    if k == s.len() {
        assert(s.take(k) =~= s);
    } else {
        lemma_stack_take_len_back(s, k + 1);
        assert(s.take(k + 1).drop_last() =~= s.take(k));
    }
}

/// The elements scheduled by a stack prefix are among those scheduled by the
/// whole stack: prefixes only shorten what is yet to come.
proof fn lemma_stack_take_len<K, V>(s: Seq<Rc<TreeNode<K, V>>>, k: int)
    requires
        0 <= k <= s.len(),
    ensures
        stack_entries(s.take(k)).len() <= stack_entries(s).len(),
    decreases s.len() - k,
{
    if k == s.len() {
        assert(s.take(k) =~= s);
    } else {
        lemma_stack_take_len(s, k + 1);
        assert(s.take(k + 1).drop_last() =~= s.take(k));
    }
}

/// Whether a key satisfies the lower endpoint of a range.
pub open spec fn lower_ok<K: TotalOrder>(k: K, min: Bound<&K>) -> bool {
    match min {
        Bound::Unbounded => true,
        Bound::Included(b) => (*b).le(k),
        Bound::Excluded(b) => lt(*b, k),
    }
}

/// Whether a key satisfies the upper endpoint of a range.
pub open spec fn upper_ok<K: TotalOrder>(k: K, max: Bound<&K>) -> bool {
    match max {
        Bound::Unbounded => true,
        Bound::Included(b) => k.le(*b),
        Bound::Excluded(b) => lt(k, *b),
    }
}

/// The elements whose key satisfies the lower endpoint.
pub open spec fn lower_pred<K: TotalOrder, V>(min: Bound<&K>) -> spec_fn((K, V)) -> bool {
    |p: (K, V)| lower_ok(p.0, min)
}

/// The elements whose key satisfies the upper endpoint.
pub open spec fn upper_pred<K: TotalOrder, V>(max: Bound<&K>) -> spec_fn((K, V)) -> bool {
    |p: (K, V)| upper_ok(p.0, max)
}

/// The elements whose key satisfies both endpoints.
pub open spec fn range_pred<K: TotalOrder, V>(min: Bound<&K>, max: Bound<&K>) -> spec_fn(
    (K, V),
) -> bool {
    |p: (K, V)| lower_ok(p.0, min) && upper_ok(p.0, max)
}

/// Satisfying a lower endpoint is upward closed along the order.
pub proof fn lemma_lower_ok_mono<K: TotalOrder>(a: K, b: K, min: Bound<&K>)
    requires
        lower_ok(a, min),
        a.le(b),
    ensures
        lower_ok(b, min),
{
    match min {
        Bound::Unbounded => {},
        Bound::Included(m) => {
            K::lemma_transitive(*m, a, b);
        },
        Bound::Excluded(m) => {
            K::lemma_transitive(*m, a, b);
            if *m == b {
                K::lemma_antisymmetric(a, b);
            }
        },
    }
}

/// Satisfying an upper endpoint is downward closed along the order.
pub proof fn lemma_upper_ok_mono<K: TotalOrder>(a: K, b: K, max: Bound<&K>)
    requires
        upper_ok(b, max),
        a.le(b),
    ensures
        upper_ok(a, max),
{
    match max {
        Bound::Unbounded => {},
        Bound::Included(m) => {
            K::lemma_transitive(a, b, *m);
        },
        Bound::Excluded(m) => {
            K::lemma_transitive(a, b, *m);
            if a == *m {
                K::lemma_antisymmetric(a, b);
            }
        },
    }
}

/// A filter that keeps every element keeps the sequence.
pub proof fn lemma_filter_all<A>(s: Seq<A>, pred: spec_fn(A) -> bool)
    requires
        forall|i: int| 0 <= i < s.len() ==> pred(#[trigger] s[i]),
    ensures
        s.filter(pred) == s,
    decreases s.len(),
{
    broadcast use vstd::seq_lib::group_seq_lib_default;
    reveal(Seq::filter);
    if s.len() == 0 {
        assert(s.filter(pred) =~= s);
    } else {
        lemma_filter_all(s.drop_last(), pred);
        assert(pred(s.last()));
        assert(s.filter(pred) =~= s);
    }
}

/// A filter that keeps no element gives the empty sequence.
pub proof fn lemma_filter_none<A>(s: Seq<A>, pred: spec_fn(A) -> bool)
    requires
        forall|i: int| 0 <= i < s.len() ==> !pred(#[trigger] s[i]),
    ensures
        s.filter(pred) == Seq::<A>::empty(),
    decreases s.len(),
{
    broadcast use vstd::seq_lib::group_seq_lib_default;
    reveal(Seq::filter);
    if s.len() == 0 {
        assert(s.filter(pred) =~= Seq::<A>::empty());
    } else {
        lemma_filter_none(s.drop_last(), pred);
        assert(!pred(s.last()));
        assert(s.filter(pred) =~= Seq::<A>::empty());
    }
}

/// A filter whose predicate holds exactly on an index window selects exactly
/// that window.
pub proof fn lemma_filter_window<A>(s: Seq<A>, pred: spec_fn(A) -> bool, a: int, b: int)
    requires
        0 <= a <= b <= s.len(),
        forall|i: int| 0 <= i < s.len() ==> (pred(#[trigger] s[i]) <==> a <= i < b),
    ensures
        s.filter(pred) == s.subrange(a, b),
    decreases s.len(),
{
    broadcast use vstd::seq_lib::group_seq_lib_default;
    reveal(Seq::filter);
    if s.len() == 0 {
        assert(s.filter(pred) =~= s.subrange(a, b));
    } else {
        let n = s.len() as int;
        let t = s.drop_last();
        if a <= n - 1 && n - 1 < b {
            assert(pred(s.last()));
            lemma_filter_window(t, pred, a, b - 1);
            assert(s.subrange(a, b) =~= t.subrange(a, b - 1).push(s.last()));
        } else if a == n && b == n {
            assert(!pred(s.last()));
            lemma_filter_window(t, pred, n - 1, n - 1);
            assert(t.subrange(n - 1, n - 1) =~= s.subrange(a, b));
        } else {
            assert(b <= n - 1);
            assert(!pred(s.last()));
            lemma_filter_window(t, pred, a, b);
            assert(t.subrange(a, b) =~= s.subrange(a, b));
        }
    }
}

/// In a sorted sequence, the elements above a lower endpoint form a suffix.
pub proof fn lemma_lower_window<K: TotalOrder, V>(s: Seq<(K, V)>, min: Bound<&K>)
    requires
        sorted(s),
    ensures
        s.len() - s.filter(lower_pred(min)).len() >= 0,
        forall|i: int|
            0 <= i < s.len() ==> (lower_ok((#[trigger] s[i]).0, min) <==> i >= s.len() - s.filter(
                lower_pred(min),
            ).len()),
        s.filter(lower_pred(min)) == s.skip(s.len() - s.filter(lower_pred(min)).len()),
    decreases s.len(),
{
    broadcast use vstd::seq_lib::group_seq_lib_default;
    reveal(Seq::filter);
    let pred = lower_pred::<K, V>(min);
    s.lemma_filter_len(pred);
    if s.len() == 0 {
        assert(s.filter(pred) =~= s.skip(0));
    } else {
        let n = s.len() as int;
        let t = s.drop_last();
        let x = s.last();
        assert(sorted(t)) by {
            assert(t + seq![x] =~= s);
            lemma_sorted_split(t, seq![x]);
        }
        lemma_lower_window(t, min);
        t.lemma_filter_len(pred);
        let ft = t.filter(pred).len() as int;
        if pred(x) {
            assert(s.filter(pred) == t.filter(pred).push(x));
            assert(s.filter(pred).len() == ft + 1);
            assert forall|i: int|
                0 <= i < s.len() implies (lower_ok((#[trigger] s[i]).0, min) <==> i >= n - (ft
                + 1)) by {
                if i < n - 1 {
                    assert(s[i] == t[i]);
                } else {
                    assert(s[i] == x);
                }
            }
            assert(s.filter(pred) =~= s.skip(n - (ft + 1)));
        } else {
            assert(s.filter(pred) == t.filter(pred));
            assert(ft == 0) by {
                if ft > 0 {
                    assert(lower_ok(t[t.len() - 1 + (n - 1 - ft)].0, min) || true);
                    let j = n - 1 - ft;
                    assert(0 <= j < t.len());
                    assert(lower_ok(t[j].0, min));
                    assert(lt(s[j].0, x.0));
                    lemma_lower_ok_mono(s[j].0, x.0, min);
                }
            }
            assert forall|i: int|
                0 <= i < s.len() implies (lower_ok((#[trigger] s[i]).0, min) <==> i >= n - 0) by {
                if i < n - 1 {
                    assert(s[i] == t[i]);
                } else {
                    assert(s[i] == x);
                }
            }
            assert(s.filter(pred) =~= s.skip(n));
        }
    }
}

/// In a sorted sequence, the elements below an upper endpoint form a prefix.
pub proof fn lemma_upper_window<K: TotalOrder, V>(s: Seq<(K, V)>, max: Bound<&K>)
    requires
        sorted(s),
    ensures
        s.filter(upper_pred(max)).len() <= s.len(),
        forall|i: int|
            0 <= i < s.len() ==> (upper_ok((#[trigger] s[i]).0, max) <==> i < s.filter(
                upper_pred(max),
            ).len()),
        s.filter(upper_pred(max)) == s.take(s.filter(upper_pred(max)).len() as int),
    decreases s.len(),
{
    broadcast use vstd::seq_lib::group_seq_lib_default;
    reveal(Seq::filter);
    let pred = upper_pred::<K, V>(max);
    s.lemma_filter_len(pred);
    if s.len() == 0 {
        assert(s.filter(pred) =~= s.take(0));
    } else {
        let n = s.len() as int;
        let t = s.drop_last();
        let x = s.last();
        assert(sorted(t)) by {
            assert(t + seq![x] =~= s);
            lemma_sorted_split(t, seq![x]);
        }
        lemma_upper_window(t, max);
        t.lemma_filter_len(pred);
        let ft = t.filter(pred).len() as int;
        if pred(x) {
            assert(s.filter(pred) == t.filter(pred).push(x));
            assert(ft == n - 1) by {
                if ft < n - 1 {
                    assert(!upper_ok(t[ft].0, max));
                    assert(lt(s[ft].0, x.0));
                    lemma_upper_ok_mono(s[ft].0, x.0, max);
                }
            }
            assert forall|i: int|
                0 <= i < s.len() implies (upper_ok((#[trigger] s[i]).0, max) <==> i < n) by {
                if i < n - 1 {
                    assert(s[i] == t[i]);
                    assert(upper_ok(t[i].0, max)) by {
                        assert(lt(t[i].0, x.0));
                        lemma_upper_ok_mono(t[i].0, x.0, max);
                    }
                }
            }
            assert(s.filter(pred) =~= s.take(n));
        } else {
            assert(s.filter(pred) == t.filter(pred));
            assert forall|i: int|
                0 <= i < s.len() implies (upper_ok((#[trigger] s[i]).0, max) <==> i < ft) by {
                if i < n - 1 {
                    assert(s[i] == t[i]);
                } else {
                    assert(s[i] == x);
                }
            }
            assert(s.filter(pred) =~= s.take(ft)) by {
                assert(t.filter(pred) == t.take(ft));
                assert(t.take(ft) =~= s.take(ft));
            }
        }
    }
}

/// A double-ended iterator over the elements of a tree version that lie
/// between two endpoints. Two independent cursors walk towards each other:
/// `stack` holds the ancestors of the next element from the front, and
/// `rev_stack` those of the next element from the back. The ghost fields
/// record the full in-order sequence and the window the cursors enclose.
pub struct Range<K, V> {
    pub stack: Vec<Rc<TreeNode<K, V>>>,
    pub rev_stack: Vec<Rc<TreeNode<K, V>>>,
    pub full: Ghost<Seq<(K, V)>>,
    pub lo: Ghost<int>,
    pub hi: Ghost<int>,
}

impl<K: TotalOrder, V> Range<K, V> {
    /// The elements still enclosed between the two cursors, in ascending
    /// order; `next` consumes them from the front, `next_back` from the back.
    pub open spec fn remaining(self) -> Seq<(K, V)> {
        if self.lo@ <= self.hi@ {
            self.full@.subrange(self.lo@, self.hi@)
        } else {
            Seq::empty()
        }
    }

    /// The cursors cut the full in-order sequence at the recorded positions.
    pub open spec fn wf(self) -> bool {
        &&& forall|i: int| 0 <= i < self.stack@.len() ==> (#[trigger] self.stack@[i]).wf()
        &&& forall|i: int| 0 <= i < self.rev_stack@.len() ==> (#[trigger] self.rev_stack@[i]).wf()
        &&& sorted(self.full@)
        &&& 0 <= self.lo@ <= self.full@.len()
        &&& 0 <= self.hi@ <= self.full@.len()
        &&& stack_entries(self.stack@) == self.full@.skip(self.lo@)
        &&& stack_entries_back(self.rev_stack@) == self.full@.take(self.hi@)
    }

    /// Push the full left spine of `node`, scheduling its whole subtree ahead
    /// of everything already on the forward stack.
    fn left_edge(&mut self, node: Rc<TreeNode<K, V>>)
        requires
            (*node).wf(),
            forall|i: int|
                0 <= i < old(self).stack@.len() ==> (#[trigger] old(self).stack@[i]).wf(),
        ensures
            forall|i: int| 0 <= i < final(self).stack@.len() ==> (#[trigger] final(self).stack@[i]).wf(),
            stack_entries(final(self).stack@) == (*node).entries() + stack_entries(
                old(self).stack@,
            ),
            final(self).rev_stack == old(self).rev_stack,
            final(self).full == old(self).full,
            final(self).lo == old(self).lo,
            final(self).hi == old(self).hi,
        decreases (*node).count(),
    {
        let nr: &TreeNode<K, V> = &*node;
        let ghost n0 = *nr;
        let ghost target = n0.entries() + stack_entries(old(self).stack@);
        let next = opt_clone(&nr.left);
        self.stack.push(node);
        proof {
            assert(self.stack@.drop_last() =~= old(self).stack@);
            assert(self.stack@.last() == n0);
            assert(sub_entries(n0.left) + stack_entries(self.stack@) =~= target);
            assert forall|i: int| 0 <= i < self.stack@.len() implies (
            #[trigger] self.stack@[i]).wf() by {
                if i < old(self).stack@.len() {
                    assert(old(self).stack@[i].wf());
                }
            }
        }
        match next {
            None => {
                proof {
                    assert(stack_entries(self.stack@) =~= target);
                }
            },
            Some(l) => {
                proof {
                    assert((*l).wf());
                    assert((*l).entries() + stack_entries(self.stack@) =~= target);
                }
                self.left_edge(l);
            },
        }
    }

    /// Push the full right spine of `node`, scheduling its whole subtree
    /// behind everything already on the backward stack.
    fn right_edge(&mut self, node: Rc<TreeNode<K, V>>)
        requires
            (*node).wf(),
            forall|i: int|
                0 <= i < old(self).rev_stack@.len() ==> (#[trigger] old(self).rev_stack@[i]).wf(),
        ensures
            forall|i: int|
                0 <= i < final(self).rev_stack@.len() ==> (#[trigger] final(self).rev_stack@[i]).wf(),
            stack_entries_back(final(self).rev_stack@) == stack_entries_back(old(self).rev_stack@)
                + (*node).entries(),
            final(self).stack == old(self).stack,
            final(self).full == old(self).full,
            final(self).lo == old(self).lo,
            final(self).hi == old(self).hi,
        decreases (*node).count(),
    {
        let nr: &TreeNode<K, V> = &*node;
        let ghost n0 = *nr;
        let ghost target = stack_entries_back(old(self).rev_stack@) + n0.entries();
        let next = opt_clone(&nr.right);
        self.rev_stack.push(node);
        proof {
            assert(self.rev_stack@.drop_last() =~= old(self).rev_stack@);
            assert(self.rev_stack@.last() == n0);
            assert(stack_entries_back(self.rev_stack@) + sub_entries(n0.right) =~= target);
            assert forall|i: int| 0 <= i < self.rev_stack@.len() implies (
            #[trigger] self.rev_stack@[i]).wf() by {
                if i < old(self).rev_stack@.len() {
                    assert(old(self).rev_stack@[i].wf());
                }
            }
        }
        match next {
            None => {
                proof {
                    assert(stack_entries_back(self.rev_stack@) =~= target);
                }
            },
            Some(r) => {
                proof {
                    assert((*r).wf());
                    assert(stack_entries_back(self.rev_stack@) + (*r).entries() =~= target);
                }
                self.right_edge(r);
            },
        }
    }
}

impl<K: TotalOrder, V> Range<K, V> {

}

impl<K: TotalOrder, V> Range<K, V> {

}

/// A suffix of `s` that splits as `head + tail` pins `tail` as the suffix
/// that starts `head.len()` positions later.
proof fn lemma_skip_shift<A>(s: Seq<A>, n: int, head: Seq<A>, tail: Seq<A>)
    requires
        0 <= n <= s.len(),
        s.skip(n) == head + tail,
    ensures
        tail == s.skip(n + head.len()),
{
    assert(s.skip(n).len() == s.len() - n);
    assert(s.skip(n).len() == head.len() + tail.len());
    assert forall|i: int| 0 <= i < tail.len() implies tail[i] == s[n + head.len() + i] by {
        assert(s.skip(n)[head.len() + i] == tail[i]);
        assert(s.skip(n)[head.len() + i] == s[n + head.len() + i]);
    }
    assert(tail =~= s.skip(n + head.len()));
}

/// A prefix of `s` that splits as `init + tail` pins `init` as the prefix
/// that ends `tail.len()` positions earlier.
proof fn lemma_take_shrink<A>(s: Seq<A>, n: int, init: Seq<A>, tail: Seq<A>)
    requires
        0 <= n <= s.len(),
        s.take(n) == init + tail,
    ensures
        init == s.take(n - tail.len()),
{
    assert(s.take(n).len() == n);
    assert(s.take(n).len() == init.len() + tail.len());
    assert forall|i: int| 0 <= i < init.len() implies init[i] == s[i] by {
        assert(s.take(n)[i] == init[i]);
        assert(s.take(n)[i] == s[i]);
    }
    assert(init =~= s.take(n - tail.len()));
}

impl<K: TotalOrder, V> Range<K, V> {
    /// Produce the least element still enclosed, advancing the forward
    /// cursor; nothing once the two cursors have met.
    #[verifier::rlimit(60)]
    pub fn next(&mut self) -> (r: Option<Rc<(K, V)>>)
        requires
            old(self).wf(),
        ensures
            final(self).wf(),
            match r {
                None => old(self).remaining().len() == 0 && final(self).remaining().len() == 0,
                Some(p) => {
                    &&& old(self).remaining().len() > 0
                    &&& (p.0, p.1) == old(self).remaining()[0]
                    &&& final(self).remaining() == old(self).remaining().drop_first()
                },
            },
    {
        let ghost full = self.full@;
        let ghost lo0 = self.lo@;
        let ghost hi0 = self.hi@;
        match self.stack.pop() {
            None => {
                proof {
                    assert(old(self).stack@ =~= self.stack@);
                    assert(full.skip(lo0).len() == 0);
                }
                None
            },
            Some(top) => {
                let tr: &TreeNode<K, V> = &*top;
                let ghost t0 = *tr;
                let tpair: &(K, V) = &*tr.elem;
                let ghost e = *tpair;
                proof {
                    assert(old(self).stack@.drop_last() =~= self.stack@);
                    assert(old(self).stack@.last() == t0);
                    assert(full.skip(lo0) == seq![e] + sub_entries(t0.right) + stack_entries(
                        self.stack@,
                    ));
                    assert(lo0 < full.len());
                    assert(full[lo0] == e) by {
                        assert(full.skip(lo0)[0] == e);
                    }
                    assert(t0.wf());
                    assert forall|i: int| 0 <= i < self.stack@.len() implies (
                    #[trigger] self.stack@[i]).wf() by {
                        assert(old(self).stack@[i].wf());
                    }
                }
                let rn = self.rev_stack.len();
                if rn == 0 {
                    proof {
                        assert(full.take(hi0) =~= Seq::<(K, V)>::empty());
                        assert(hi0 == 0);
                    }
                    self.lo = Ghost(lo0 + 1 + sub_count(t0.right) as int);
                    proof {
                        assert(full.skip(lo0) == (seq![e] + sub_entries(t0.right))
                            + stack_entries(self.stack@)) by {
                            assert(full.skip(lo0) =~= (seq![e] + sub_entries(t0.right))
                                + stack_entries(self.stack@));
                        }
                        lemma_skip_shift(
                            full,
                            lo0,
                            seq![e] + sub_entries(t0.right),
                            stack_entries(self.stack@),
                        );
                    }
                    None
                } else {
                    let rtop: &Rc<TreeNode<K, V>> = &self.rev_stack[rn - 1];
                    let rtr: &TreeNode<K, V> = &**rtop;
                    let rpair: &(K, V) = &*rtr.elem;
                    let ghost rt0 = *rtr;
                    proof {
                        assert(self.rev_stack@.last() == rt0);
                        assert(stack_entries_back(self.rev_stack@) == stack_entries_back(
                            self.rev_stack@.drop_last(),
                        ) + sub_entries(rt0.left) + seq![(rt0.elem.0, rt0.elem.1)]);
                        assert(full.take(hi0).len() > 0);
                        assert(hi0 >= 1);
                        assert(full.take(hi0).last() == (rt0.elem.0, rt0.elem.1));
                        assert(full[hi0 - 1] == (rt0.elem.0, rt0.elem.1));
                    }
                    let crossed = match rpair.0.cmp(&tpair.0) {
                        Cmp::Lt => true,
                        Cmp::Eq => false,
                        Cmp::Gt => false,
                    };
                    if crossed {
                        proof {
                            lemma_sorted_index_order(full, hi0 - 1, lo0);
                            assert(hi0 <= lo0);
                        }
                        self.lo = Ghost(lo0 + 1 + sub_count(t0.right) as int);
                        proof {
                            assert(full.skip(lo0) == (seq![e] + sub_entries(t0.right))
                                + stack_entries(self.stack@)) by {
                                assert(full.skip(lo0) =~= (seq![e] + sub_entries(t0.right))
                                    + stack_entries(self.stack@));
                            }
                            lemma_skip_shift(
                                full,
                                lo0,
                                seq![e] + sub_entries(t0.right),
                                stack_entries(self.stack@),
                            );
                        }
                        None
                    } else {
                        proof {
                            assert(hi0 - 1 >= lo0) by {
                                if hi0 - 1 < lo0 {
                                    assert(lt(full[hi0 - 1].0, full[lo0].0));
                                    if full[hi0 - 1].0 == full[lo0].0 {
                                    } else {
                                        K::lemma_antisymmetric(full[hi0 - 1].0, full[lo0].0);
                                    }
                                }
                            }
                            assert(hi0 > lo0);
                            assert(old(self).remaining().len() > 0);
                            assert(old(self).remaining()[0] == e);
                        }
                        let ret = rc_clone(&tr.elem);
                        proof {
                            assert(full.skip(lo0) == seq![e] + (sub_entries(t0.right)
                                + stack_entries(self.stack@))) by {
                                assert(full.skip(lo0) =~= seq![e] + (sub_entries(t0.right)
                                    + stack_entries(self.stack@)));
                            }
                            lemma_skip_shift(
                                full,
                                lo0,
                                seq![e],
                                sub_entries(t0.right) + stack_entries(self.stack@),
                            );
                        }
                        match &tr.right {
                            None => {
                                proof {
                                    assert(stack_entries(self.stack@) == full.skip(lo0 + 1)) by {
                                        assert(stack_entries(self.stack@) =~= sub_entries(t0.right)
                                            + stack_entries(self.stack@));
                                    }
                                }
                            },
                            Some(rc) => {
                                proof {
                                    assert((**rc).wf());
                                    assert((**rc).entries() == sub_entries(t0.right));
                                }
                                let child = rc_clone(rc);
                                self.left_edge(child);
                                proof {
                                    assert(stack_entries(self.stack@) == full.skip(lo0 + 1));
                                }
                            },
                        }
                        self.lo = Ghost(lo0 + 1);
                        proof {
                            assert(old(self).remaining() == full.subrange(lo0, hi0));
                            assert(self.remaining() == full.subrange(lo0 + 1, hi0));
                            assert(full.subrange(lo0, hi0).len() == hi0 - lo0);
                            assert(full.subrange(lo0 + 1, hi0) =~= full.subrange(
                                lo0,
                                hi0,
                            ).drop_first());
                        }
                        Some(ret)
                    }
                }
            },
        }
    }

    /// Produce the greatest element still enclosed, advancing the backward
    /// cursor; nothing once the two cursors have met.
    #[verifier::rlimit(60)]
    pub fn next_back(&mut self) -> (r: Option<Rc<(K, V)>>)
        requires
            old(self).wf(),
        ensures
            final(self).wf(),
            match r {
                None => old(self).remaining().len() == 0 && final(self).remaining().len() == 0,
                Some(p) => {
                    &&& old(self).remaining().len() > 0
                    &&& (p.0, p.1) == old(self).remaining().last()
                    &&& final(self).remaining() == old(self).remaining().drop_last()
                },
            },
    {
        let ghost full = self.full@;
        let ghost lo0 = self.lo@;
        let ghost hi0 = self.hi@;
        match self.rev_stack.pop() {
            None => {
                proof {
                    assert(old(self).rev_stack@ =~= self.rev_stack@);
                    assert(full.take(hi0).len() == 0);
                    assert(hi0 == 0);
                }
                None
            },
            Some(top) => {
                let tr: &TreeNode<K, V> = &*top;
                let ghost t0 = *tr;
                let tpair: &(K, V) = &*tr.elem;
                let ghost e = *tpair;
                proof {
                    assert(old(self).rev_stack@.drop_last() =~= self.rev_stack@);
                    assert(old(self).rev_stack@.last() == t0);
                    assert(full.take(hi0) == stack_entries_back(self.rev_stack@) + sub_entries(
                        t0.left,
                    ) + seq![e]);
                    assert(hi0 >= 1);
                    assert(full[hi0 - 1] == e) by {
                        assert(full.take(hi0).last() == e);
                    }
                    assert(t0.wf());
                    assert forall|i: int| 0 <= i < self.rev_stack@.len() implies (
                    #[trigger] self.rev_stack@[i]).wf() by {
                        assert(old(self).rev_stack@[i].wf());
                    }
                }
                let flen = self.stack.len();
                if flen == 0 {
                    proof {
                        assert(full.skip(lo0) =~= Seq::<(K, V)>::empty());
                        assert(lo0 == full.len());
                    }
                    self.hi = Ghost(hi0 - 1 - sub_count(t0.left) as int);
                    proof {
                        assert(full.take(hi0) == stack_entries_back(self.rev_stack@) + (
                        sub_entries(t0.left) + seq![e])) by {
                            assert(full.take(hi0) =~= stack_entries_back(self.rev_stack@) + (
                            sub_entries(t0.left) + seq![e]));
                        }
                        lemma_take_shrink(
                            full,
                            hi0,
                            stack_entries_back(self.rev_stack@),
                            sub_entries(t0.left) + seq![e],
                        );
                    }
                    None
                } else {
                    let ftop: &Rc<TreeNode<K, V>> = &self.stack[flen - 1];
                    let ftr: &TreeNode<K, V> = &**ftop;
                    let fpair: &(K, V) = &*ftr.elem;
                    let ghost ft0 = *ftr;
                    proof {
                        assert(self.stack@.last() == ft0);
                        assert(stack_entries(self.stack@) == seq![(ft0.elem.0, ft0.elem.1)]
                            + sub_entries(ft0.right) + stack_entries(self.stack@.drop_last()));
                        assert(full.skip(lo0).len() > 0);
                        assert(lo0 < full.len());
                        assert(full.skip(lo0)[0] == (ft0.elem.0, ft0.elem.1));
                        assert(full[lo0] == (ft0.elem.0, ft0.elem.1));
                    }
                    let crossed = match tpair.0.cmp(&fpair.0) {
                        Cmp::Lt => true,
                        Cmp::Eq => false,
                        Cmp::Gt => false,
                    };
                    if crossed {
                        proof {
                            lemma_sorted_index_order(full, hi0 - 1, lo0);
                            assert(hi0 <= lo0);
                        }
                        self.hi = Ghost(hi0 - 1 - sub_count(t0.left) as int);
                        proof {
                            assert(full.take(hi0) == stack_entries_back(self.rev_stack@) + (
                            sub_entries(t0.left) + seq![e])) by {
                                assert(full.take(hi0) =~= stack_entries_back(self.rev_stack@) + (
                                sub_entries(t0.left) + seq![e]));
                            }
                            lemma_take_shrink(
                                full,
                                hi0,
                                stack_entries_back(self.rev_stack@),
                                sub_entries(t0.left) + seq![e],
                            );
                        }
                        None
                    } else {
                        proof {
                            assert(hi0 - 1 >= lo0) by {
                                if hi0 - 1 < lo0 {
                                    assert(lt(full[hi0 - 1].0, full[lo0].0));
                                    if full[hi0 - 1].0 == full[lo0].0 {
                                    } else {
                                        K::lemma_antisymmetric(full[hi0 - 1].0, full[lo0].0);
                                    }
                                }
                            }
                            assert(hi0 > lo0);
                            assert(old(self).remaining().len() > 0);
                            assert(old(self).remaining().last() == e);
                        }
                        let ret = rc_clone(&tr.elem);
                        proof {
                            assert(full.take(hi0) == (stack_entries_back(self.rev_stack@)
                                + sub_entries(t0.left)) + seq![e]) by {
                                assert(full.take(hi0) =~= (stack_entries_back(self.rev_stack@)
                                    + sub_entries(t0.left)) + seq![e]);
                            }
                            lemma_take_shrink(
                                full,
                                hi0,
                                stack_entries_back(self.rev_stack@) + sub_entries(t0.left),
                                seq![e],
                            );
                        }
                        match &tr.left {
                            None => {
                                proof {
                                    assert(stack_entries_back(self.rev_stack@) == full.take(
                                        hi0 - 1,
                                    )) by {
                                        assert(stack_entries_back(self.rev_stack@)
                                            =~= stack_entries_back(self.rev_stack@) + sub_entries(
                                            t0.left,
                                        ));
                                    }
                                }
                            },
                            Some(lc) => {
                                proof {
                                    assert((**lc).wf());
                                    assert((**lc).entries() == sub_entries(t0.left));
                                }
                                let child = rc_clone(lc);
                                self.right_edge(child);
                                proof {
                                    assert(stack_entries_back(self.rev_stack@) == full.take(
                                        hi0 - 1,
                                    ));
                                }
                            },
                        }
                        self.hi = Ghost(hi0 - 1);
                        proof {
                            assert(old(self).remaining() == full.subrange(lo0, hi0));
                            assert(self.remaining() == full.subrange(lo0, hi0 - 1));
                            assert(full.subrange(lo0, hi0).len() == hi0 - lo0);
                            assert(full.subrange(lo0, hi0 - 1) =~= full.subrange(
                                lo0,
                                hi0,
                            ).drop_last());
                        }
                        Some(ret)
                    }
                }
            },
        }
    }
}



/// Seed a forward cursor at the first element whose key is at least `key`,
/// descending from `node`. Schedules exactly the elements above the endpoint
/// — a suffix of the subtree's in-order sequence, starting at the returned
/// position.
#[verifier::rlimit(30)]
fn left_edge_ge<K: TotalOrder, V>(
    stack: &mut Vec<Rc<TreeNode<K, V>>>,
    node: Rc<TreeNode<K, V>>,
    key: &K,
) -> (h: Ghost<int>)
    requires
        (*node).wf(),
        forall|i: int| 0 <= i < old(stack)@.len() ==> (#[trigger] old(stack)@[i]).wf(),
    ensures
        forall|i: int| 0 <= i < final(stack)@.len() ==> (#[trigger] final(stack)@[i]).wf(),
        0 <= h@ <= (*node).entries().len(),
        stack_entries(final(stack)@) == (*node).entries().skip(h@) + stack_entries(old(stack)@),
        forall|i: int|
            0 <= i < (*node).entries().len() ==> (lower_ok(
                (#[trigger] (*node).entries()[i]).0,
                Bound::Included(key),
            ) <==> i >= h@),
    decreases (*node).count(),
{
    let nr: &TreeNode<K, V> = &*node;
    let ghost n0 = *nr;
    let npair: &(K, V) = &*nr.elem;
    let ghost e = *npair;
    let ghost el = sub_entries(n0.left);
    let ghost er = sub_entries(n0.right);
    let ghost nl = el.len() as int;
    proof {
        lemma_entries_map(n0.left);
        lemma_entries_map(n0.right);
        assert(n0.entries() == el + (seq![e] + er)) by {
            assert(n0.entries() =~= el + (seq![e] + er));
        }
    }
    match key.cmp(&npair.0) {
        Cmp::Gt => {
            proof {
                assert forall|i: int| 0 <= i <= nl implies !lower_ok(
                    (#[trigger] n0.entries()[i]).0,
                    Bound::Included(key),
                ) by {
                    if i == nl {
                        assert(n0.entries()[i] == e);
                        if (*key).le(e.0) {
                            K::lemma_antisymmetric(*key, e.0);
                        }
                    } else {
                        assert(n0.entries()[i] == el[i]);
                        assert(sub_map(n0.left).contains_pair(el[i].0, el[i].1));
                        assert(lt(el[i].0, e.0));
                        if (*key).le(el[i].0) {
                            K::lemma_transitive(*key, el[i].0, e.0);
                            K::lemma_antisymmetric(*key, e.0);
                        }
                    }
                }
            }
            match &nr.right {
                None => {
                    proof {
                        assert(n0.entries().skip(nl + 1) =~= Seq::<(K, V)>::empty());
                        assert(n0.entries().skip(nl + 1) + stack_entries(stack@)
                            =~= stack_entries(stack@));
                        assert(n0.entries().len() == nl + 1);
                    }
                    Ghost(nl + 1)
                },
                Some(r) => {
                    proof {
                        assert((**r).wf());
                        assert(er == (**r).entries());
                        assert((**r).count() < n0.count());
                    }
                    let h = left_edge_ge(stack, rc_clone(r), key);
                    proof {
                        assert(n0.entries().skip(nl + 1 + h@) =~= er.skip(h@));
                        assert forall|i: int| 0 <= i < n0.entries().len() implies (lower_ok(
                            (#[trigger] n0.entries()[i]).0,
                            Bound::Included(key),
                        ) <==> i >= nl + 1 + h@) by {
                            if i > nl {
                                assert(n0.entries()[i] == er[i - nl - 1]);
                            }
                        }
                    }
                    Ghost(nl + 1 + h@)
                },
            }
        },
        Cmp::Eq => {
            proof {
                assert(lower_ok(e.0, Bound::Included(key))) by {
                    K::lemma_reflexive(*key);
                }
                assert forall|i: int| nl < i < n0.entries().len() implies lower_ok(
                    (#[trigger] n0.entries()[i]).0,
                    Bound::Included(key),
                ) by {
                    assert(n0.entries()[i] == er[i - nl - 1]);
                    assert(sub_map(n0.right).contains_pair(er[i - nl - 1].0, er[i - nl - 1].1));
                    assert(lt(e.0, er[i - nl - 1].0));
                }
                assert forall|i: int| 0 <= i < nl implies !lower_ok(
                    (#[trigger] n0.entries()[i]).0,
                    Bound::Included(key),
                ) by {
                    assert(n0.entries()[i] == el[i]);
                    assert(sub_map(n0.left).contains_pair(el[i].0, el[i].1));
                    assert(lt(el[i].0, e.0));
                    if (*key).le(el[i].0) {
                        K::lemma_antisymmetric(el[i].0, e.0);
                    }
                }
            }
            stack.push(node);
            proof {
                assert(stack@.drop_last() =~= old(stack)@);
                assert(stack@.last() == n0);
                assert(n0.entries().skip(nl) =~= seq![e] + er);
                assert(stack_entries(stack@) =~= n0.entries().skip(nl) + stack_entries(
                    old(stack)@,
                ));
                assert forall|i: int| 0 <= i < stack@.len() implies (#[trigger] stack@[i]).wf() by {
                    if i < old(stack)@.len() {
                        assert(old(stack)@[i].wf());
                    }
                }
            }
            Ghost(nl)
        },
        Cmp::Lt => {
            proof {
                assert(lower_ok(e.0, Bound::Included(key)));
                assert forall|i: int| nl <= i < n0.entries().len() implies lower_ok(
                    (#[trigger] n0.entries()[i]).0,
                    Bound::Included(key),
                ) by {
                    if i == nl {
                        assert(n0.entries()[i] == e);
                    } else {
                        assert(n0.entries()[i] == er[i - nl - 1]);
                        assert(sub_map(n0.right).contains_pair(er[i - nl - 1].0, er[i - nl - 1].1));
                        assert(lt(e.0, er[i - nl - 1].0));
                        K::lemma_transitive(*key, e.0, er[i - nl - 1].0);
                    }
                }
            }
            let next = opt_clone(&nr.left);
            stack.push(node);
            proof {
                assert(stack@.drop_last() =~= old(stack)@);
                assert(stack@.last() == n0);
                assert(stack_entries(stack@) == seq![e] + er + stack_entries(old(stack)@));
                assert forall|i: int| 0 <= i < stack@.len() implies (#[trigger] stack@[i]).wf() by {
                    if i < old(stack)@.len() {
                        assert(old(stack)@[i].wf());
                    }
                }
            }
            match next {
                None => {
                    proof {
                        assert(n0.entries().skip(0) =~= seq![e] + er);
                        assert(stack_entries(stack@) =~= n0.entries().skip(0) + stack_entries(
                            old(stack)@,
                        ));
                    }
                    Ghost(0)
                },
                Some(l) => {
                    proof {
                        assert((*l).wf());
                        assert(el == (*l).entries());
                        assert((*l).count() < n0.count());
                    }
                    let ghost mid = stack@;
                    let h = left_edge_ge(stack, l, key);
                    proof {
                        assert(stack_entries(stack@) == el.skip(h@) + stack_entries(mid));
                        assert(n0.entries().skip(h@) =~= el.skip(h@) + (seq![e] + er));
                        assert(stack_entries(stack@) =~= n0.entries().skip(h@) + stack_entries(
                            old(stack)@,
                        ));
                        assert forall|i: int| 0 <= i < n0.entries().len() implies (lower_ok(
                            (#[trigger] n0.entries()[i]).0,
                            Bound::Included(key),
                        ) <==> i >= h@) by {
                            if i < nl {
                                assert(n0.entries()[i] == el[i]);
                            }
                        }
                    }
                    h
                },
            }
        },
    }
}

/// Seed a forward cursor at the first element whose key is strictly greater
/// than `key`, descending from `node`. Schedules exactly the elements above
/// the endpoint — a suffix of the subtree's in-order sequence, starting at
/// the returned position.
#[verifier::rlimit(30)]
fn left_edge_gt<K: TotalOrder, V>(
    stack: &mut Vec<Rc<TreeNode<K, V>>>,
    node: Rc<TreeNode<K, V>>,
    key: &K,
) -> (h: Ghost<int>)
    requires
        (*node).wf(),
        forall|i: int| 0 <= i < old(stack)@.len() ==> (#[trigger] old(stack)@[i]).wf(),
    ensures
        forall|i: int| 0 <= i < final(stack)@.len() ==> (#[trigger] final(stack)@[i]).wf(),
        0 <= h@ <= (*node).entries().len(),
        stack_entries(final(stack)@) == (*node).entries().skip(h@) + stack_entries(old(stack)@),
        forall|i: int|
            0 <= i < (*node).entries().len() ==> (lower_ok(
                (#[trigger] (*node).entries()[i]).0,
                Bound::Excluded(key),
            ) <==> i >= h@),
    decreases (*node).count(),
{
    let nr: &TreeNode<K, V> = &*node;
    let ghost n0 = *nr;
    let npair: &(K, V) = &*nr.elem;
    let ghost e = *npair;
    let ghost el = sub_entries(n0.left);
    let ghost er = sub_entries(n0.right);
    let ghost nl = el.len() as int;
    proof {
        lemma_entries_map(n0.left);
        lemma_entries_map(n0.right);
        assert(n0.entries() == el + (seq![e] + er)) by {
            assert(n0.entries() =~= el + (seq![e] + er));
        }
    }
    let descend_left = match key.cmp(&npair.0) {
        Cmp::Lt => true,
        Cmp::Eq => false,
        Cmp::Gt => false,
    };
    if descend_left {
        proof {
            assert(lower_ok(e.0, Bound::Excluded(key)));
            assert forall|i: int| nl <= i < n0.entries().len() implies lower_ok(
                (#[trigger] n0.entries()[i]).0,
                Bound::Excluded(key),
            ) by {
                if i == nl {
                    assert(n0.entries()[i] == e);
                } else {
                    assert(n0.entries()[i] == er[i - nl - 1]);
                    assert(sub_map(n0.right).contains_pair(er[i - nl - 1].0, er[i - nl - 1].1));
                    assert(lt(e.0, er[i - nl - 1].0));
                    lemma_lt_trans(*key, e.0, er[i - nl - 1].0);
                }
            }
        }
        let next = opt_clone(&nr.left);
        stack.push(node);
        proof {
            assert(stack@.drop_last() =~= old(stack)@);
            assert(stack@.last() == n0);
            assert(stack_entries(stack@) == seq![e] + er + stack_entries(old(stack)@));
            assert forall|i: int| 0 <= i < stack@.len() implies (#[trigger] stack@[i]).wf() by {
                if i < old(stack)@.len() {
                    assert(old(stack)@[i].wf());
                }
            }
        }
        match next {
            None => {
                proof {
                    assert(n0.entries().skip(0) =~= seq![e] + er);
                    assert(stack_entries(stack@) =~= n0.entries().skip(0) + stack_entries(
                        old(stack)@,
                    ));
                }
                Ghost(0)
            },
            Some(l) => {
                proof {
                    assert((*l).wf());
                    assert(el == (*l).entries());
                    assert((*l).count() < n0.count());
                }
                let ghost mid = stack@;
                let h = left_edge_gt(stack, l, key);
                proof {
                    assert(stack_entries(stack@) == el.skip(h@) + stack_entries(mid));
                    assert(n0.entries().skip(h@) =~= el.skip(h@) + (seq![e] + er));
                    assert(stack_entries(stack@) =~= n0.entries().skip(h@) + stack_entries(
                        old(stack)@,
                    ));
                    assert forall|i: int| 0 <= i < n0.entries().len() implies (lower_ok(
                        (#[trigger] n0.entries()[i]).0,
                        Bound::Excluded(key),
                    ) <==> i >= h@) by {
                        if i < nl {
                            assert(n0.entries()[i] == el[i]);
                        }
                    }
                }
                h
            },
        }
    } else {
        proof {
            assert forall|i: int| 0 <= i <= nl implies !lower_ok(
                (#[trigger] n0.entries()[i]).0,
                Bound::Excluded(key),
            ) by {
                if i == nl {
                    assert(n0.entries()[i] == e);
                    if lt(*key, e.0) {
                        K::lemma_antisymmetric(*key, e.0);
                    }
                } else {
                    assert(n0.entries()[i] == el[i]);
                    assert(sub_map(n0.left).contains_pair(el[i].0, el[i].1));
                    assert(lt(el[i].0, e.0));
                    if lt(*key, el[i].0) {
                        if *key == e.0 {
                            K::lemma_antisymmetric(el[i].0, e.0);
                        } else {
                            lemma_lt_trans(*key, el[i].0, e.0);
                            K::lemma_antisymmetric(*key, e.0);
                        }
                    }
                }
            }
        }
        match &nr.right {
            None => {
                proof {
                    assert(n0.entries().skip(nl + 1) =~= Seq::<(K, V)>::empty());
                    assert(n0.entries().skip(nl + 1) + stack_entries(stack@) =~= stack_entries(
                        stack@,
                    ));
                    assert(n0.entries().len() == nl + 1);
                }
                Ghost(nl + 1)
            },
            Some(r) => {
                proof {
                    assert((**r).wf());
                    assert(er == (**r).entries());
                    assert((**r).count() < n0.count());
                }
                let h = left_edge_gt(stack, rc_clone(r), key);
                proof {
                    assert(n0.entries().skip(nl + 1 + h@) =~= er.skip(h@));
                    assert forall|i: int| 0 <= i < n0.entries().len() implies (lower_ok(
                        (#[trigger] n0.entries()[i]).0,
                        Bound::Excluded(key),
                    ) <==> i >= nl + 1 + h@) by {
                        if i > nl {
                            assert(n0.entries()[i] == er[i - nl - 1]);
                        }
                    }
                }
                Ghost(nl + 1 + h@)
            },
        }
    }
}

/// Seed a backward cursor at the last element whose key is at most `key`,
/// descending from `node`. Schedules exactly the elements below the endpoint
/// — a prefix of the subtree's in-order sequence, whose length is returned.
#[verifier::rlimit(60)]
fn right_edge_le<K: TotalOrder, V>(
    stack: &mut Vec<Rc<TreeNode<K, V>>>,
    node: Rc<TreeNode<K, V>>,
    key: &K,
) -> (h: Ghost<int>)
    requires
        (*node).wf(),
        forall|i: int| 0 <= i < old(stack)@.len() ==> (#[trigger] old(stack)@[i]).wf(),
    ensures
        forall|i: int| 0 <= i < final(stack)@.len() ==> (#[trigger] final(stack)@[i]).wf(),
        0 <= h@ <= (*node).entries().len(),
        stack_entries_back(final(stack)@) == stack_entries_back(old(stack)@)
            + (*node).entries().take(h@),
        forall|i: int|
            0 <= i < (*node).entries().len() ==> (upper_ok(
                (#[trigger] (*node).entries()[i]).0,
                Bound::Included(key),
            ) <==> i < h@),
    decreases (*node).count(),
{
    let nr: &TreeNode<K, V> = &*node;
    let ghost n0 = *nr;
    let npair: &(K, V) = &*nr.elem;
    let ghost e = *npair;
    let ghost el = sub_entries(n0.left);
    let ghost er = sub_entries(n0.right);
    let ghost nl = el.len() as int;
    proof {
        lemma_entries_map(n0.left);
        lemma_entries_map(n0.right);
        assert(n0.entries() == el + (seq![e] + er)) by {
            assert(n0.entries() =~= el + (seq![e] + er));
        }
    }
    match key.cmp(&npair.0) {
        Cmp::Lt => {
            proof {
                assert forall|i: int| nl <= i < n0.entries().len() implies !upper_ok(
                    (#[trigger] n0.entries()[i]).0,
                    Bound::Included(key),
                ) by {
                    if i == nl {
                        assert(n0.entries()[i] == e);
                        if e.0.le(*key) {
                            K::lemma_antisymmetric(e.0, *key);
                        }
                    } else {
                        assert(n0.entries()[i] == er[i - nl - 1]);
                        assert(sub_map(n0.right).contains_pair(er[i - nl - 1].0, er[i - nl - 1].1));
                        assert(lt(e.0, er[i - nl - 1].0));
                        if er[i - nl - 1].0.le(*key) {
                            K::lemma_transitive(e.0, er[i - nl - 1].0, *key);
                            K::lemma_antisymmetric(e.0, *key);
                        }
                    }
                }
            }
            match &nr.left {
                None => {
                    proof {
                        assert(n0.entries().take(0) =~= Seq::<(K, V)>::empty());
                        assert(stack_entries_back(stack@) + n0.entries().take(0)
                            =~= stack_entries_back(stack@));
                    }
                    Ghost(0)
                },
                Some(l) => {
                    proof {
                        assert((**l).wf());
                        assert(el == (**l).entries());
                        assert((**l).count() < n0.count());
                    }
                    let h = right_edge_le(stack, rc_clone(l), key);
                    proof {
                        assert(n0.entries().take(h@) =~= el.take(h@));
                        assert forall|i: int| 0 <= i < n0.entries().len() implies (upper_ok(
                            (#[trigger] n0.entries()[i]).0,
                            Bound::Included(key),
                        ) <==> i < h@) by {
                            if i < nl {
                                assert(n0.entries()[i] == el[i]);
                            }
                        }
                    }
                    h
                },
            }
        },
        Cmp::Eq => {
            proof {
                assert(upper_ok(e.0, Bound::Included(key))) by {
                    K::lemma_reflexive(*key);
                }
                assert forall|i: int| 0 <= i < nl implies upper_ok(
                    (#[trigger] n0.entries()[i]).0,
                    Bound::Included(key),
                ) by {
                    assert(n0.entries()[i] == el[i]);
                    assert(sub_map(n0.left).contains_pair(el[i].0, el[i].1));
                    assert(lt(el[i].0, e.0));
                }
                assert forall|i: int| nl < i < n0.entries().len() implies !upper_ok(
                    (#[trigger] n0.entries()[i]).0,
                    Bound::Included(key),
                ) by {
                    assert(n0.entries()[i] == er[i - nl - 1]);
                    assert(sub_map(n0.right).contains_pair(er[i - nl - 1].0, er[i - nl - 1].1));
                    assert(lt(e.0, er[i - nl - 1].0));
                    if er[i - nl - 1].0.le(*key) {
                        K::lemma_antisymmetric(e.0, er[i - nl - 1].0);
                    }
                }
            }
            stack.push(node);
            proof {
                assert(stack@.drop_last() =~= old(stack)@);
                assert(stack@.last() == n0);
                assert(n0.entries().take(nl + 1) =~= el + seq![e]);
                assert(stack_entries_back(stack@) =~= stack_entries_back(old(stack)@)
                    + n0.entries().take(nl + 1));
                assert forall|i: int| 0 <= i < stack@.len() implies (#[trigger] stack@[i]).wf() by {
                    if i < old(stack)@.len() {
                        assert(old(stack)@[i].wf());
                    }
                }
            }
            Ghost(nl + 1)
        },
        Cmp::Gt => {
            proof {
                assert(upper_ok(e.0, Bound::Included(key)));
                assert forall|i: int| 0 <= i <= nl implies upper_ok(
                    (#[trigger] n0.entries()[i]).0,
                    Bound::Included(key),
                ) by {
                    if i < nl {
                        assert(n0.entries()[i] == el[i]);
                        assert(sub_map(n0.left).contains_pair(el[i].0, el[i].1));
                        assert(lt(el[i].0, e.0));
                        K::lemma_transitive(el[i].0, e.0, *key);
                    } else {
                        assert(n0.entries()[i] == e);
                    }
                }
            }
            let next = opt_clone(&nr.right);
            stack.push(node);
            proof {
                assert(stack@.drop_last() =~= old(stack)@);
                assert(stack@.last() == n0);
                assert(stack_entries_back(stack@) == stack_entries_back(old(stack)@) + el + seq![
                    e,
                ]);
                assert forall|i: int| 0 <= i < stack@.len() implies (#[trigger] stack@[i]).wf() by {
                    if i < old(stack)@.len() {
                        assert(old(stack)@[i].wf());
                    }
                }
            }
            match next {
                None => {
                    proof {
                        assert(n0.entries().take(nl + 1) =~= el + seq![e]);
                        assert(stack_entries_back(stack@) =~= stack_entries_back(old(stack)@)
                            + n0.entries().take(nl + 1));
                        assert(n0.entries().len() == nl + 1);
                    }
                    Ghost(nl + 1)
                },
                Some(r) => {
                    proof {
                        assert((*r).wf());
                        assert(er == (*r).entries());
                        assert((*r).count() < n0.count());
                    }
                    let ghost mid = stack@;
                    let h = right_edge_le(stack, r, key);
                    proof {
                        assert(stack_entries_back(stack@) == stack_entries_back(mid) + er.take(
                            h@,
                        ));
                        assert(n0.entries().take(nl + 1 + h@) =~= (el + seq![e]) + er.take(h@));
                        assert(stack_entries_back(stack@) =~= stack_entries_back(old(stack)@)
                            + n0.entries().take(nl + 1 + h@));
                        assert forall|i: int| 0 <= i < n0.entries().len() implies (upper_ok(
                            (#[trigger] n0.entries()[i]).0,
                            Bound::Included(key),
                        ) <==> i < nl + 1 + h@) by {
                            if i > nl {
                                assert(n0.entries()[i] == er[i - nl - 1]);
                            }
                        }
                    }
                    Ghost(nl + 1 + h@)
                },
            }
        },
    }
}

/// Seed a backward cursor at the last element whose key is strictly less
/// than `key`, descending from `node`. Schedules exactly the elements below
/// the endpoint — a prefix of the subtree's in-order sequence, whose length
/// is returned.
#[verifier::rlimit(60)]
fn right_edge_lt<K: TotalOrder, V>(
    stack: &mut Vec<Rc<TreeNode<K, V>>>,
    node: Rc<TreeNode<K, V>>,
    key: &K,
) -> (h: Ghost<int>)
    requires
        (*node).wf(),
        forall|i: int| 0 <= i < old(stack)@.len() ==> (#[trigger] old(stack)@[i]).wf(),
    ensures
        forall|i: int| 0 <= i < final(stack)@.len() ==> (#[trigger] final(stack)@[i]).wf(),
        0 <= h@ <= (*node).entries().len(),
        stack_entries_back(final(stack)@) == stack_entries_back(old(stack)@)
            + (*node).entries().take(h@),
        forall|i: int|
            0 <= i < (*node).entries().len() ==> (upper_ok(
                (#[trigger] (*node).entries()[i]).0,
                Bound::Excluded(key),
            ) <==> i < h@),
    decreases (*node).count(),
{
    let nr: &TreeNode<K, V> = &*node;
    let ghost n0 = *nr;
    let npair: &(K, V) = &*nr.elem;
    let ghost e = *npair;
    let ghost el = sub_entries(n0.left);
    let ghost er = sub_entries(n0.right);
    let ghost nl = el.len() as int;
    proof {
        lemma_entries_map(n0.left);
        lemma_entries_map(n0.right);
        assert(n0.entries() == el + (seq![e] + er)) by {
            assert(n0.entries() =~= el + (seq![e] + er));
        }
    }
    let descend_right = match key.cmp(&npair.0) {
        Cmp::Gt => true,
        Cmp::Eq => false,
        Cmp::Lt => false,
    };
    if descend_right {
        proof {
            assert(upper_ok(e.0, Bound::Excluded(key)));
            assert forall|i: int| 0 <= i <= nl implies upper_ok(
                (#[trigger] n0.entries()[i]).0,
                Bound::Excluded(key),
            ) by {
                if i < nl {
                    assert(n0.entries()[i] == el[i]);
                    assert(sub_map(n0.left).contains_pair(el[i].0, el[i].1));
                    assert(lt(el[i].0, e.0));
                    lemma_lt_trans(el[i].0, e.0, *key);
                } else {
                    assert(n0.entries()[i] == e);
                }
            }
        }
        let next = opt_clone(&nr.right);
        stack.push(node);
        proof {
            assert(stack@.drop_last() =~= old(stack)@);
            assert(stack@.last() == n0);
            assert(stack_entries_back(stack@) == stack_entries_back(old(stack)@) + el + seq![e]);
            assert forall|i: int| 0 <= i < stack@.len() implies (#[trigger] stack@[i]).wf() by {
                if i < old(stack)@.len() {
                    assert(old(stack)@[i].wf());
                }
            }
        }
        match next {
            None => {
                proof {
                    assert(n0.entries().take(nl + 1) =~= el + seq![e]);
                    assert(stack_entries_back(stack@) =~= stack_entries_back(old(stack)@)
                        + n0.entries().take(nl + 1));
                    assert(n0.entries().len() == nl + 1);
                }
                Ghost(nl + 1)
            },
            Some(r) => {
                proof {
                    assert((*r).wf());
                    assert(er == (*r).entries());
                    assert((*r).count() < n0.count());
                }
                let ghost mid = stack@;
                let h = right_edge_lt(stack, r, key);
                proof {
                    assert(stack_entries_back(stack@) == stack_entries_back(mid) + er.take(h@));
                    assert(n0.entries().take(nl + 1 + h@) =~= (el + seq![e]) + er.take(h@));
                    assert(stack_entries_back(stack@) =~= stack_entries_back(old(stack)@)
                        + n0.entries().take(nl + 1 + h@));
                    assert forall|i: int| 0 <= i < n0.entries().len() implies (upper_ok(
                        (#[trigger] n0.entries()[i]).0,
                        Bound::Excluded(key),
                    ) <==> i < nl + 1 + h@) by {
                        if i > nl {
                            assert(n0.entries()[i] == er[i - nl - 1]);
                        }
                    }
                }
                Ghost(nl + 1 + h@)
            },
        }
    } else {
        proof {
            assert forall|i: int| nl <= i < n0.entries().len() implies !upper_ok(
                (#[trigger] n0.entries()[i]).0,
                Bound::Excluded(key),
            ) by {
                if i == nl {
                    assert(n0.entries()[i] == e);
                    if lt(e.0, *key) {
                        K::lemma_antisymmetric(e.0, *key);
                    }
                } else {
                    assert(n0.entries()[i] == er[i - nl - 1]);
                    assert(sub_map(n0.right).contains_pair(er[i - nl - 1].0, er[i - nl - 1].1));
                    assert(lt(e.0, er[i - nl - 1].0));
                    if lt(er[i - nl - 1].0, *key) {
                        if *key == e.0 {
                            K::lemma_antisymmetric(e.0, er[i - nl - 1].0);
                        } else {
                            lemma_lt_trans(*key, e.0, er[i - nl - 1].0);
                            K::lemma_antisymmetric(er[i - nl - 1].0, *key);
                        }
                    }
                }
            }
        }
        match &nr.left {
            None => {
                proof {
                    assert(n0.entries().take(0) =~= Seq::<(K, V)>::empty());
                    assert(stack_entries_back(stack@) + n0.entries().take(0) =~= stack_entries_back(
                        stack@,
                    ));
                }
                Ghost(0)
            },
            Some(l) => {
                proof {
                    assert((**l).wf());
                    assert(el == (**l).entries());
                    assert((**l).count() < n0.count());
                }
                let h = right_edge_lt(stack, rc_clone(l), key);
                proof {
                    assert(n0.entries().take(h@) =~= el.take(h@));
                    assert forall|i: int| 0 <= i < n0.entries().len() implies (upper_ok(
                        (#[trigger] n0.entries()[i]).0,
                        Bound::Excluded(key),
                    ) <==> i < h@) by {
                        if i < nl {
                            assert(n0.entries()[i] == el[i]);
                        }
                    }
                }
                h
            },
        }
    }
}

/// A strictly sorted sequence is determined by the collection of its
/// elements: two sorted sequences that contain the same pairs are equal. In
/// particular, a well-formed tree's entry sequence is the unique sorted
/// enumeration of its map view.
pub proof fn lemma_sorted_unique<K: TotalOrder, V>(s1: Seq<(K, V)>, s2: Seq<(K, V)>)
    requires
        sorted(s1),
        sorted(s2),
        forall|p: (K, V)| s1.contains(p) <==> s2.contains(p),
    ensures
        s1 == s2,
    decreases s1.len(),
{
    if s1.len() == 0 {
        if s2.len() > 0 {
            assert(s2.contains(s2[0]));
            assert(s1.contains(s2[0]));
        }
        assert(s1 =~= s2);
    } else {
        assert(s1.contains(s1[0]));
        assert(s2.contains(s1[0]));
        let j = choose|j: int| 0 <= j < s2.len() && s2[j] == s1[0];
        if s2.len() == 0 {
            assert(false);
        }
        assert(s2.contains(s2[0]));
        assert(s1.contains(s2[0]));
        let i = choose|i: int| 0 <= i < s1.len() && s1[i] == s2[0];
        assert(s1[0] == s2[0]) by {
            if s1[0] != s2[0] {
                assert(j > 0);
                assert(i > 0);
                assert(lt(s2[0].0, s2[j].0));
                assert(lt(s1[0].0, s1[i].0));
                K::lemma_antisymmetric(s1[0].0, s2[0].0);
                assert(s1[0].0 == s2[0].0);
            }
        }
        let t1 = s1.drop_first();
        let t2 = s2.drop_first();
        assert(sorted(t1)) by {
            assert forall|a: int, b: int| 0 <= a < b < t1.len() implies lt(
                (#[trigger] t1[a]).0,
                (#[trigger] t1[b]).0,
            ) by {
                assert(t1[a] == s1[a + 1] && t1[b] == s1[b + 1]);
            }
        }
        assert(sorted(t2)) by {
            assert forall|a: int, b: int| 0 <= a < b < t2.len() implies lt(
                (#[trigger] t2[a]).0,
                (#[trigger] t2[b]).0,
            ) by {
                assert(t2[a] == s2[a + 1] && t2[b] == s2[b + 1]);
            }
        }
        assert forall|p: (K, V)| t1.contains(p) <==> t2.contains(p) by {
            if t1.contains(p) {
                let a = choose|a: int| 0 <= a < t1.len() && t1[a] == p;
                assert(s1[a + 1] == p);
                assert(s1.contains(p));
                assert(s2.contains(p));
                let m = choose|m: int| 0 <= m < s2.len() && s2[m] == p;
                assert(m > 0) by {
                    assert(lt(s1[0].0, s1[a + 1].0));
                }
                assert(t2[m - 1] == p);
                assert(t2.contains(p));
            }
            if t2.contains(p) {
                let a = choose|a: int| 0 <= a < t2.len() && t2[a] == p;
                assert(s2[a + 1] == p);
                assert(s2.contains(p));
                assert(s1.contains(p));
                let m = choose|m: int| 0 <= m < s1.len() && s1[m] == p;
                assert(m > 0) by {
                    assert(lt(s2[0].0, s2[a + 1].0));
                }
                assert(t1[m - 1] == p);
                assert(t1.contains(p));
            }
        }
        lemma_sorted_unique(t1, t2);
        assert(s1.len() == s2.len());
        assert forall|a: int| 0 <= a < s1.len() implies s1[a] == s2[a] by {
            if a > 0 {
                assert(t1[a - 1] == s1[a]);
                assert(t2[a - 1] == s2[a]);
            }
        }
        assert(s1 =~= s2);
    }
}

/// In a sorted sequence, an element with a smaller key sits at a smaller index.
pub proof fn lemma_sorted_index_order<K: TotalOrder, V>(s: Seq<(K, V)>, i: int, j: int)
    requires
        sorted(s),
        0 <= i < s.len(),
        0 <= j < s.len(),
        lt(s[i].0, s[j].0),
    ensures
        i < j,
{
    if i == j {
    } else if j < i {
        K::lemma_antisymmetric(s[i].0, s[j].0);
    }
}

/// The empty subtree holds the empty map and the empty sequence.
pub proof fn lemma_empty_tree<K: TotalOrder, V>()
    ensures
        sub_wf::<K, V>(None),
        sub_map::<K, V>(None) == Map::<K, V>::empty(),
        sub_entries::<K, V>(None) == Seq::<(K, V)>::empty(),
{
}

/// A nonempty subtree holds its own root element.
pub proof fn lemma_nonempty_tree<K: TotalOrder, V>(node: Option<Rc<TreeNode<K, V>>>)
    requires
        sub_wf(node),
        node is Some,
    ensures
        sub_map(node).dom().contains(root_pair(node).0),
        sub_count(node) > 0,
{
}

/// The recorded element count of a subtree is the length of its sequence.
pub proof fn lemma_count_entries<K: TotalOrder, V>(node: Option<Rc<TreeNode<K, V>>>)
    ensures
        sub_count(node) == sub_entries(node).len(),
{
}

} // verus!
