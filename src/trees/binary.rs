//! An unbalanced binary search tree of distinct elements.
use crate::order::{lemma_total_order, lt, strictly_sorted, total_order};
use core::cmp::Ordering;
use vstd::prelude::*;
use vstd::std_specs::cmp::OrdSpec;

verus! {

/// A slot that holds at most one node and owns it.
pub type Edge<T> = Option<Box<Node<T>>>;

/// One element of the tree with the subtrees that order before and after it.
#[derive(PartialEq)]
pub struct Node<T: Ord> {
    pub data: T,
    pub left: Edge<T>,
    pub right: Edge<T>,
}

/// A binary search tree: the root slot of its nodes.
#[derive(PartialEq)]
pub struct Tree<T: Ord> {
    pub root: Edge<T>,
}

/// The elements under `e`, in order: left subtree, node, right subtree.
pub open spec fn inorder<T: Ord>(e: Edge<T>) -> Seq<T>
    decreases e,
{
    match e {
        None => Seq::empty(),
        Some(node) => inorder(node.left) + seq![node.data] + inorder(node.right),
    }
}

/// The search-tree order under `e`: at every node, the left subtree holds
/// only elements before the node's and the right one only elements after it.
pub open spec fn well_ordered<T: Ord>(e: Edge<T>) -> bool
    decreases e,
{
    match e {
        None => true,
        Some(node) => {
            &&& well_ordered(node.left)
            &&& well_ordered(node.right)
            &&& forall|x: T| #[trigger] inorder(node.left).contains(x) ==> lt(x, node.data)
            &&& forall|x: T| #[trigger] inorder(node.right).contains(x) ==> lt(node.data, x)
        },
    }
}

impl<T: Ord> View for Tree<T> {
    type V = Seq<T>;

    /// The tree's elements in ascending order.
    open spec fn view(&self) -> Seq<T> {
        inorder(self.root)
    }
}

impl<T: Ord> Tree<T> {
    /// The tree obeys the search-tree order.
    pub open spec fn well_formed(&self) -> bool {
        well_ordered(self.root)
    }
}

/// `new` is `old` with `value` added at its place; `old` itself where it
/// already held `value`.
pub open spec fn insert_result<T>(old: Seq<T>, new: Seq<T>, value: T) -> bool {
    if old.contains(value) {
        new == old
    } else {
        exists|i: int| 0 <= i <= old.len() && new == old.insert(i, value)
    }
}

/// `new` is `old` without its occurrence of `value`; `old` itself where it
/// did not hold `value`.
pub open spec fn delete_result<T>(old: Seq<T>, new: Seq<T>, value: T) -> bool {
    if old.contains(value) {
        exists|i: int| 0 <= i < old.len() && old[i] == value && new == old.remove(i)
    } else {
        new == old
    }
}

/// A well-ordered subtree lists its elements in strictly ascending order.
pub proof fn lemma_inorder_strictly_sorted<T: Ord>(e: Edge<T>)
    requires
        total_order::<T>(),
        well_ordered(e),
    ensures
        strictly_sorted(inorder(e)),
    decreases e,
{
    lemma_total_order::<T>();
    if let Some(node) = e {
        lemma_inorder_strictly_sorted(node.left);
        lemma_inorder_strictly_sorted(node.right);
        let l = inorder(node.left);
        let r = inorder(node.right);
        let s = inorder(e);
        assert forall|i: int, j: int| 0 <= i < j < s.len() implies lt(#[trigger] s[i], #[trigger] s[j]) by {
            if i < l.len() {
                assert(l.contains(s[i]));
            }
            if j > l.len() {
                assert(s[j] == r[j - l.len() - 1]);
                assert(r.contains(s[j]));
            }
            if i > l.len() {
                assert(s[i] == r[i - l.len() - 1]);
            }
            if j < l.len() {
                assert(s[j] == l[j]);
            }
        }
    }
}

/// What a node's in-order sequence holds: the left part, the node's own
/// element and the right part.
pub proof fn lemma_contains_concat<T>(a: Seq<T>, x: T, b: Seq<T>, y: T)
    ensures
        (a + seq![x] + b).contains(y) <==> a.contains(y) || y == x || b.contains(y),
{
    let s = a + seq![x] + b;
    if s.contains(y) {
        let k = choose|k: int| 0 <= k < s.len() && s[k] == y;
        if k < a.len() {
            assert(a[k] == y);
        } else if k > a.len() {
            assert(b[k - a.len() - 1] == y);
        }
    }
    if a.contains(y) {
        let k = choose|k: int| 0 <= k < a.len() && a[k] == y;
        assert(s[k] == y);
    }
    if b.contains(y) {
        let k = choose|k: int| 0 <= k < b.len() && b[k] == y;
        assert(s[k + a.len() + 1] == y);
    }
    if y == x {
        assert(s[a.len() as int] == y);
    }
}

/// Inserting `v` adds exactly `v` to what a sequence holds.
pub proof fn lemma_contains_insert<T>(s: Seq<T>, i: int, v: T, y: T)
    requires
        0 <= i <= s.len(),
    ensures
        s.insert(i, v).contains(y) <==> s.contains(y) || y == v,
{
    let t = s.insert(i, v);
    if t.contains(y) {
        let k = choose|k: int| 0 <= k < t.len() && t[k] == y;
        if k < i {
            assert(s[k] == y);
        } else if k > i {
            assert(s[k - 1] == y);
        }
    }
    if s.contains(y) {
        let k = choose|k: int| 0 <= k < s.len() && s[k] == y;
        if k < i {
            assert(t[k] == y);
        } else {
            assert(t[k + 1] == y);
        }
    }
    if y == v {
        assert(t[i] == y);
    }
}

/// Removing a position keeps nothing that the sequence did not hold.
pub proof fn lemma_contains_remove<T>(s: Seq<T>, i: int, y: T)
    requires
        0 <= i < s.len(),
    ensures
        s.remove(i).contains(y) ==> s.contains(y),
{
    let t = s.remove(i);
    if t.contains(y) {
        let k = choose|k: int| 0 <= k < t.len() && t[k] == y;
        if k < i {
            assert(s[k] == y);
        } else {
            assert(s[k + 1] == y);
        }
    }
}

/// How `target` compares with the element in `current`; `Equal` for an
/// empty slot.
pub fn compute_ordering<T: Ord>(current: &Edge<T>, target: &T) -> (r: Ordering)
    requires
        total_order::<T>(),
    ensures
        match current {
            Some(node) => r == target.cmp_spec(&node.data),
            None => r == Ordering::Equal,
        },
{
    proof {
        lemma_total_order::<T>();
    }
    match current {
        Some(node) => target.cmp(&node.data),
        None => Ordering::Equal,
    }
}

impl<T: Ord> Tree<T> {
    /// The empty tree.
    pub fn new() -> (r: Self)
        ensures
            r.well_formed(),
            r@ == Seq::<T>::empty(),
    {
        Tree { root: None }
    }

    /// The slot that holds the element equal to `data`, or an empty slot
    /// where the tree has none.
    #[verifier::loop_isolation(false)]
    pub fn find(&self, data: &T) -> (r: &Edge<T>)
        requires
            total_order::<T>(),
            self.well_formed(),
        ensures
            r.is_some() <==> self@.contains(*data),
            r.is_some() ==> r.unwrap().data == *data,
    {
        proof {
            lemma_total_order::<T>();
        }
        let mut current = &self.root;
        loop
            invariant
                well_ordered(*current),
                self@.contains(*data) <==> inorder(*current).contains(*data),
            decreases inorder(*current).len(),
        {
            match current {
                None => return current,
                Some(node) => {
                    proof {
                        assert(inorder(*current) =~= inorder(node.left) + seq![node.data] + inorder(node.right));
                    }
                    match compute_ordering(current, data) {
                        Ordering::Less => {
                            proof {
                                if inorder(node.right).contains(*data) {
                                    assert(lt(node.data, *data));
                                }
                                if inorder(*current).contains(*data) {
                                    let k = choose|k: int| 0 <= k < inorder(*current).len() && inorder(*current)[k] == *data;
                                    if k >= inorder(node.left).len() + 1 {
                                        assert(inorder(node.right)[k - inorder(node.left).len() - 1] == *data);
                                        assert(inorder(node.right).contains(*data));
                                    } else if k < inorder(node.left).len() {
                                        assert(inorder(node.left)[k] == *data);
                                    }
                                }
                                if inorder(node.left).contains(*data) {
                                    let k = choose|k: int| 0 <= k < inorder(node.left).len() && inorder(node.left)[k] == *data;
                                    assert(inorder(*current)[k] == *data);
                                }
                            }
                            current = &node.left;
                        },
                        Ordering::Greater => {
                            proof {
                                if inorder(*current).contains(*data) {
                                    let k = choose|k: int| 0 <= k < inorder(*current).len() && inorder(*current)[k] == *data;
                                    if k < inorder(node.left).len() {
                                        assert(inorder(node.left).contains(inorder(*current)[k]));
                                    } else if k > inorder(node.left).len() {
                                        assert(inorder(node.right)[k - inorder(node.left).len() - 1] == *data);
                                    }
                                }
                                if inorder(node.right).contains(*data) {
                                    let k = choose|k: int| 0 <= k < inorder(node.right).len() && inorder(node.right)[k] == *data;
                                    assert(inorder(*current)[k + inorder(node.left).len() + 1] == *data);
                                }
                            }
                            current = &node.right;
                        },
                        Ordering::Equal => {
                            proof {
                                assert(inorder(*current)[inorder(node.left).len() as int] == *data);
                            }
                            return current;
                        },
                    }
                },
            }
        }
    }
}

/// The slot under `e` where a search for `v` stops: the one that holds an
/// element equal to `v`, or the empty slot where `v` belongs.
#[verifier::opaque]
pub open spec fn search<T: Ord>(e: Edge<T>, v: T) -> Edge<T>
    decreases e,
{
    match e {
        None => None,
        Some(node) => if lt(v, node.data) {
            search(node.left, v)
        } else if lt(node.data, v) {
            search(node.right, v)
        } else {
            e
        },
    }
}

/// `e` with the slot that `search(e, v)` reaches replaced by `sub`.
#[verifier::opaque]
pub open spec fn replace<T: Ord>(e: Edge<T>, v: T, sub: Edge<T>) -> Edge<T>
    decreases e,
{
    match e {
        None => sub,
        Some(node) => if lt(v, node.data) {
            Some(Box::new(Node { data: node.data, left: replace(node.left, v, sub), right: node.right }))
        } else if lt(node.data, v) {
            Some(Box::new(Node { data: node.data, left: node.left, right: replace(node.right, v, sub) }))
        } else {
            sub
        },
    }
}

/// The slot under `edge` where a search for `data` stops, handed out for
/// writing.
fn find_mut_at<'b, T: Ord>(edge: &'b mut Edge<T>, data: &T) -> (r: &'b mut Edge<T>)
    requires
        total_order::<T>(),
    ensures
        *r == search(*old(edge), *data),
        *final(edge) == replace(*old(edge), *data, *final(r)),
    decreases *old(edge),
{
    proof {
        lemma_total_order::<T>();
        reveal(search);
        reveal(replace);
    }
    match compute_ordering(edge, data) {
        Ordering::Less => match edge {
            Some(node) => find_mut_at(&mut node.left, data),
            None => edge,
        },
        Ordering::Greater => match edge {
            Some(node) => find_mut_at(&mut node.right, data),
            None => edge,
        },
        Ordering::Equal => edge,
    }
}

/// The greatest element under `e`: the one in its rightmost node.
pub open spec fn max_of<T: Ord>(e: Edge<T>) -> T
    decreases e,
{
    match e {
        None => arbitrary(),
        Some(node) => match node.right {
            None => node.data,
            Some(_) => max_of(node.right),
        },
    }
}

/// `e` with its rightmost node detached and that node's left subtree in
/// its slot.
pub open spec fn without_max<T: Ord>(e: Edge<T>) -> Edge<T>
    decreases e,
{
    match e {
        None => None,
        Some(node) => match node.right {
            None => node.left,
            Some(_) => Some(Box::new(Node { data: node.data, left: node.left, right: without_max(node.right) })),
        },
    }
}

/// What takes the place of the node in `e` once its element is removed:
/// nothing for a leaf, the one child whole, or, for two children, the
/// greatest element of the left subtree carrying the left subtree without
/// it and the right subtree.
pub open spec fn removed<T: Ord>(e: Edge<T>) -> Edge<T> {
    match e {
        None => None,
        Some(node) => match (node.left, node.right) {
            (None, None) => None,
            (Some(left), None) => Some(left),
            (None, Some(right)) => Some(right),
            (Some(_), Some(_)) => Some(Box::new(Node {
                data: max_of(node.left),
                left: without_max(node.left),
                right: node.right,
            })),
        },
    }
}

/// Detaches the node that holds the greatest element under `edge`; its left
/// subtree takes its place.
fn detach_max<T: Ord>(edge: &mut Edge<T>) -> (r: Box<Node<T>>)
    requires
        total_order::<T>(),
        old(edge).is_some(),
        well_ordered(*old(edge)),
    ensures
        well_ordered(*final(edge)),
        r.left.is_none(),
        r.right.is_none(),
        inorder(*old(edge)) == inorder(*final(edge)).push(r.data),
        *final(edge) == without_max(*old(edge)),
        r.data == max_of(*old(edge)),
    decreases *old(edge),
{
    proof {
        lemma_total_order::<T>();
    }
    let mut node = edge.take().unwrap();
    let ghost l = inorder(node.left);
    let ghost r = inorder(node.right);
    if node.right.is_some() {
        let max = detach_max(&mut node.right);
        proof {
            let r2 = inorder(node.right);
            assert forall|x: T| #[trigger] r2.contains(x) implies lt(node.data, x) by {
                assert(r2.push(max.data) =~= r2.insert(r2.len() as int, max.data));
                lemma_contains_insert(r2, r2.len() as int, max.data, x);
            }
            assert(l + seq![node.data] + r =~= (l + seq![node.data] + r2).push(max.data));
        }
        *edge = Some(node);
        max
    } else {
        *edge = node.left.take();
        proof {
            assert(inorder::<T>(None) == Seq::<T>::empty());
            assert(l + seq![node.data] + r =~= l.push(node.data));
        }
        node
    }
}

/// The elements that a search for `v` under `e` leaves behind on its left.
#[verifier::opaque]
pub open spec fn before<T: Ord>(e: Edge<T>, v: T) -> Seq<T>
    decreases e,
{
    match e {
        None => Seq::empty(),
        Some(node) => if lt(v, node.data) {
            before(node.left, v)
        } else if lt(node.data, v) {
            inorder(node.left) + seq![node.data] + before(node.right, v)
        } else {
            Seq::empty()
        },
    }
}

/// The elements that a search for `v` under `e` leaves behind on its right.
#[verifier::opaque]
pub open spec fn after<T: Ord>(e: Edge<T>, v: T) -> Seq<T>
    decreases e,
{
    match e {
        None => Seq::empty(),
        Some(node) => if lt(v, node.data) {
            after(node.left, v) + seq![node.data] + inorder(node.right)
        } else if lt(node.data, v) {
            after(node.right, v)
        } else {
            Seq::empty()
        },
    }
}

/// Putting `sub` in the slot where a search for `v` stops keeps the search
/// order, as long as `sub` holds only elements of that slot or `v`; its
/// elements then take the slot's place in the in-order sequence.
#[verifier::rlimit(100)]
#[verifier::spinoff_prover]
proof fn lemma_replace<T: Ord>(e: Edge<T>, v: T, sub: Edge<T>)
    requires
        total_order::<T>(),
        well_ordered(e),
        well_ordered(sub),
        forall|x: T| #[trigger] inorder(sub).contains(x) ==> inorder(search(e, v)).contains(x) || x == v,
    ensures
        well_ordered(replace(e, v, sub)),
        inorder(replace(e, v, sub)) == before(e, v) + inorder(sub) + after(e, v),
        inorder(e) == before(e, v) + inorder(search(e, v)) + after(e, v),
        forall|x: T| #[trigger] inorder(replace(e, v, sub)).contains(x) ==> inorder(e).contains(x) || x == v,
    decreases e,
{
    lemma_total_order::<T>();
    reveal(search);
    reveal(replace);
    reveal(before);
    reveal(after);
    match e {
        None => {
            assert(inorder::<T>(None) == Seq::<T>::empty());
            assert(inorder(sub) =~= Seq::<T>::empty() + inorder(sub) + Seq::<T>::empty());
            assert(inorder(e) =~= Seq::<T>::empty() + inorder(e) + Seq::<T>::empty());
        },
        Some(node) => {
            let l = inorder(node.left);
            let r = inorder(node.right);
            let d = node.data;
            if lt(v, d) {
                lemma_replace(node.left, v, sub);
                let l2 = inorder(replace(node.left, v, sub));
                assert forall|x: T| #[trigger] l2.contains(x) implies lt(x, d) by {}
                assert forall|x: T| #[trigger] inorder(replace(e, v, sub)).contains(x) implies inorder(e).contains(x) || x == v by {
                    lemma_contains_concat(l2, d, r, x);
                    lemma_contains_concat(l, d, r, x);
                }
                assert(l2 + seq![d] + r =~= before(node.left, v) + inorder(sub) + (after(node.left, v) + seq![d] + r));
                assert(l + seq![d] + r =~= before(node.left, v) + inorder(search(node.left, v)) + (after(node.left, v) + seq![d] + r));
            } else if lt(d, v) {
                lemma_replace(node.right, v, sub);
                let r2 = inorder(replace(node.right, v, sub));
                assert forall|x: T| #[trigger] r2.contains(x) implies lt(d, x) by {}
                assert forall|x: T| #[trigger] inorder(replace(e, v, sub)).contains(x) implies inorder(e).contains(x) || x == v by {
                    lemma_contains_concat(l, d, r2, x);
                    lemma_contains_concat(l, d, r, x);
                }
                assert(l + seq![d] + r2 =~= (l + seq![d] + before(node.right, v)) + inorder(sub) + after(node.right, v));
                assert(l + seq![d] + r =~= (l + seq![d] + before(node.right, v)) + inorder(search(node.right, v)) + after(node.right, v));
            } else {
                assert(inorder(sub) =~= Seq::<T>::empty() + inorder(sub) + Seq::<T>::empty());
                assert(inorder(e) =~= Seq::<T>::empty() + inorder(e) + Seq::<T>::empty());
            }
        },
    }
}

/// A search stops at a holding slot exactly when the subtree holds the
/// value, and that slot's element is the value.
proof fn lemma_search_found<T: Ord>(e: Edge<T>, v: T)
    requires
        total_order::<T>(),
        well_ordered(e),
    ensures
        search(e, v).is_some() <==> inorder(e).contains(v),
        search(e, v).is_some() ==> search(e, v).unwrap().data == v,
        well_ordered(search(e, v)),
    decreases e,
{
    lemma_total_order::<T>();
    reveal(search);
    if let Some(node) = e {
        lemma_contains_concat(inorder(node.left), node.data, inorder(node.right), v);
        if lt(v, node.data) {
            lemma_search_found(node.left, v);
        } else if lt(node.data, v) {
            lemma_search_found(node.right, v);
        }
    }
}

/// Putting back what a search found leaves the subtree as it was.
proof fn lemma_replace_found<T: Ord>(e: Edge<T>, v: T)
    ensures
        replace(e, v, search(e, v)) == e,
    decreases e,
{
    reveal(search);
    reveal(replace);
    if let Some(node) = e {
        lemma_replace_found(node.left, v);
        lemma_replace_found(node.right, v);
    }
}

/// The subtree that takes the place of `node` once its element is removed:
/// nothing, its one child, or its two children under the greatest element
/// of the left one.
fn remove_root<T: Ord>(node: Box<Node<T>>) -> (r: Edge<T>)
    requires
        total_order::<T>(),
        well_ordered(Some(node)),
    ensures
        well_ordered(r),
        inorder(r) == inorder(Some(node)).remove(inorder(node.left).len() as int),
        forall|x: T| #[trigger] inorder(r).contains(x) ==> inorder(Some(node)).contains(x),
        r == removed(Some(node)),
{
    proof {
        lemma_total_order::<T>();
    }
    let ghost l = inorder(node.left);
    let ghost r = inorder(node.right);
    let ghost d = node.data;
    let mut node = node;
    proof {
        assert(inorder::<T>(None) == Seq::<T>::empty());
        assert((l + seq![d] + r).remove(l.len() as int) =~= l + r);
        assert forall|x: T| #[trigger] (l + r).contains(x) implies (l + seq![d] + r).contains(x) by {
            lemma_contains_concat(l, d, r, x);
            if (l + r).contains(x) {
                let k = choose|k: int| 0 <= k < (l + r).len() && (l + r)[k] == x;
                if k < l.len() {
                    assert(l[k] == x);
                } else {
                    assert(r[k - l.len()] == x);
                }
            }
        }
    }
    match (node.left.take(), node.right.take()) {
        (Some(left), None) => {
            proof {
                assert(l + r =~= l);
            }
            Some(left)
        },
        (None, Some(right)) => {
            proof {
                assert(l + r =~= r);
            }
            Some(right)
        },
        (None, None) => {
            proof {
                assert(l + r =~= Seq::<T>::empty());
            }
            None
        },
        (Some(left), Some(right)) => {
            let mut left_edge = Some(left);
            proof {
                lemma_inorder_strictly_sorted(left_edge);
            }
            let mut replacement = detach_max(&mut left_edge);
            let ghost m = replacement.data;
            let ghost l2 = inorder(left_edge);
            proof {
                assert(l[l.len() - 1] == m);
                assert(l.contains(m));
                assert forall|x: T| #[trigger] l2.contains(x) implies lt(x, m) by {
                    let k = choose|k: int| 0 <= k < l2.len() && l2[k] == x;
                    assert(l[k] == x);
                }
                assert forall|x: T| #[trigger] r.contains(x) implies lt(m, x) by {
                    assert(lt(m, d));
                }
                assert(l2 + seq![m] + r =~= l + r);
            }
            replacement.left = left_edge;
            replacement.right = Some(right);
            Some(replacement)
        },
    }
}

impl<T: Ord> Tree<T> {
    /// The slot where a search for `data` stops, handed out for writing:
    /// the one that holds an equal element, or the empty slot where `data`
    /// belongs.
    pub fn find_mut(&mut self, data: &T) -> (r: &mut Edge<T>)
        requires
            total_order::<T>(),
        ensures
            *r == search(old(self).root, *data),
            final(self).root == replace(old(self).root, *data, *final(r)),
    {
        find_mut_at(&mut self.root, data)
    }

    /// Adds `data` at its ordered place; a tree that holds an equal element
    /// already is left as it is.
    pub fn insert(&mut self, data: T)
        requires
            total_order::<T>(),
            old(self).well_formed(),
        ensures
            final(self).well_formed(),
            insert_result(old(self)@, final(self)@, data),
            old(self)@.contains(data) ==> final(self).root == old(self).root,
            !old(self)@.contains(data) ==> final(self).root == replace(
                old(self).root,
                data,
                Some(Box::new(Node { data: data, left: None, right: None })),
            ),
    {
        let ghost e = self.root;
        proof {
            lemma_search_found(e, data);
            lemma_replace_found(e, data);
        }
        match self.root {
            Some(_) => {
                let location = self.find_mut(&data);
                match location {
                    Some(_) => {
                        return;
                    },
                    None => {
                        let leaf = Some(Box::new(Node { data: data, left: None, right: None }));
                        proof {
                            assert(inorder::<T>(None) == Seq::<T>::empty());
                            assert(inorder(leaf) =~= seq![data]);
                            assert(well_ordered::<T>(None));
                            assert(well_ordered(leaf));
                            assert forall|x: T| #[trigger] inorder(leaf).contains(x) implies x == data by {
                                assert(inorder(leaf)[0] == data);
                            }
                            lemma_replace(e, data, leaf);
                            assert(before(e, data) + inorder(leaf) + after(e, data)
                                =~= inorder(e).insert(before(e, data).len() as int, data));
                        }
                        *location = leaf;
                    },
                }
            },
            None => {
                self.root = Some(Box::new(Node { data: data, left: None, right: None }));
                proof {
                    reveal(replace);
                    assert(inorder::<T>(None) == Seq::<T>::empty());
                    assert(self@ =~= Seq::<T>::empty().insert(0, data));
                }
            },
        }
    }

    /// Removes the element equal to `data`; a tree without one is left as it is.
    pub fn delete(&mut self, data: &T)
        requires
            total_order::<T>(),
            old(self).well_formed(),
        ensures
            final(self).well_formed(),
            delete_result(old(self)@, final(self)@, *data),
            !old(self)@.contains(*data) ==> final(self).root == old(self).root,
            final(self).root == replace(old(self).root, *data, removed(search(old(self).root, *data))),
    {
        let ghost e = self.root;
        proof {
            lemma_search_found(e, *data);
            lemma_replace_found(e, *data);
        }
        let edge = self.find_mut(data);
        match edge.take() {
            None => {},
            Some(node) => {
                let ghost found = Some(node);
                proof {
                    lemma_replace(e, *data, found);
                }
                let rest = remove_root(node);
                proof {
                    lemma_replace(e, *data, rest);
                    let i = (before(e, *data).len() + inorder(node.left).len()) as int;
                    assert(inorder(found)[inorder(node.left).len() as int] == node.data);
                    assert(before(e, *data) + inorder(rest) + after(e, *data)
                        =~= inorder(e).remove(i));
                    assert(inorder(e)[i] == *data);
                }
                *edge = rest;
            },
        }
    }
}

/// The direction of a traversal.
pub enum TraversalOrder {
    Increasing,
    Decreasing,
}

/// The elements under `e`, in descending order.
pub open spec fn rev_inorder<T: Ord>(e: Edge<T>) -> Seq<T>
    decreases e,
{
    match e {
        None => Seq::empty(),
        Some(node) => rev_inorder(node.right) + seq![node.data] + rev_inorder(node.left),
    }
}

/// The elements under `e` in the given order.
pub open spec fn ordered<T: Ord>(e: Edge<T>, order: TraversalOrder) -> Seq<T> {
    match order {
        TraversalOrder::Increasing => inorder(e),
        TraversalOrder::Decreasing => rev_inorder(e),
    }
}

/// The descending sequence of a subtree is its ascending one reversed.
pub proof fn lemma_rev_inorder<T: Ord>(e: Edge<T>)
    ensures
        rev_inorder(e) == inorder(e).reverse(),
    decreases e,
{
    if let Some(node) = e {
        lemma_rev_inorder(node.left);
        lemma_rev_inorder(node.right);
        let l = inorder(node.left);
        let r = inorder(node.right);
        assert(r.reverse() + seq![node.data] + l.reverse() =~= (l + seq![node.data] + r).reverse());
    } else {
        assert(inorder(e).reverse() =~= Seq::<T>::empty());
    }
}

/// The nodes from `e` down its near side (left children for increasing
/// order, right ones for decreasing), `e`'s own node first.
pub open spec fn spine<T: Ord>(e: &Edge<T>, order: TraversalOrder) -> Seq<&Node<T>>
    decreases e,
{
    match e {
        None => Seq::empty(),
        Some(node) => {
            let near = match order {
                TraversalOrder::Increasing => &node.left,
                TraversalOrder::Decreasing => &node.right,
            };
            seq![&**node] + spine(near, order)
        },
    }
}

/// What a path stack has still to yield, top first: each node, then its
/// subtree on the far side of the traversal.
pub open spec fn pending<T: Ord>(path: Seq<&Node<T>>, order: TraversalOrder) -> Seq<T>
    decreases path.len(),
{
    if path.len() == 0 {
        Seq::empty()
    } else {
        let node = path.last();
        let far = match order {
            TraversalOrder::Increasing => inorder(node.right),
            TraversalOrder::Decreasing => rev_inorder(node.left),
        };
        seq![node.data] + far + pending(path.drop_last(), order)
    }
}

/// A lazy traversal of a tree from both ends. Each end keeps a stack of the
/// nodes it has still to yield; the two ends stop where they meet.
pub struct TreeIterator<'a, T: Ord> {
    tree: &'a Tree<T>,
    front: Option<Vec<&'a Node<T>>>,
    back: Option<Vec<&'a Node<T>>>,
    last_front: Option<&'a T>,
    last_back: Option<&'a T>,
    front_taken: Ghost<nat>,
    back_taken: Ghost<nat>,
}

impl<'a, T: Ord> View for TreeIterator<'a, T> {
    type V = Seq<T>;

    /// The elements not yet yielded from either end, ascending.
    closed spec fn view(&self) -> Seq<T> {
        self.tree@.subrange(self.front_taken@ as int, self.tree@.len() - self.back_taken@)
    }
}

impl<'a, T: Ord> TreeIterator<'a, T> {
    /// The tree this iterator walks, as its ascending sequence.
    pub closed spec fn source(&self) -> Seq<T> {
        self.tree@
    }

    /// The stacks hold what the two ends have still to yield.
    pub closed spec fn valid(&self) -> bool {
        let s = self.tree@;
        let f = self.front_taken@;
        let b = self.back_taken@;
        &&& self.tree.well_formed()
        &&& f + b <= s.len()
        &&& match self.front {
            None => f == 0,
            Some(path) => pending(path@, TraversalOrder::Increasing) == s.subrange(f as int, s.len() as int),
        }
        &&& match self.back {
            None => b == 0,
            Some(path) => pending(path@, TraversalOrder::Decreasing) == s.subrange(0, s.len() - b).reverse(),
        }
        &&& f > 0 <==> self.last_front.is_some()
        &&& f > 0 ==> *self.last_front.unwrap() == s[f - 1]
        &&& b > 0 <==> self.last_back.is_some()
        &&& b > 0 ==> *self.last_back.unwrap() == s[s.len() - b]
    }

    /// Pushes `root` and its chain of children toward the near end of the
    /// traversal (left for increasing order, right for decreasing).
    fn populate_path(path: &mut Vec<&'a Node<T>>, root: &'a Edge<T>, order: &TraversalOrder)
        ensures
            final(path)@ == old(path)@ + spine(root, *order),
            pending(final(path)@, *order) == ordered(*root, *order) + pending(old(path)@, *order),
    {
        let mut current = root;
        loop
            invariant
                ordered(*current, *order) + pending(path@, *order)
                    == ordered(*root, *order) + pending(old(path)@, *order),
                path@ + spine(current, *order) == old(path)@ + spine(root, *order),
            ensures
                final(path)@ == old(path)@ + spine(root, *order),
                pending(path@, *order) == ordered(*root, *order) + pending(old(path)@, *order),
            decreases inorder(*current).len(),
        {
            match current {
                Some(node) => {
                    let ghost before = path@;
                    path.push(&**node);
                    proof {
                        assert(path@.drop_last() == before);
                        let near = match *order {
                            TraversalOrder::Increasing => &node.left,
                            TraversalOrder::Decreasing => &node.right,
                        };
                        assert(path@ + spine(near, *order) =~= before + spine(current, *order));
                    }
                    match order {
                        TraversalOrder::Increasing => {
                            proof {
                                assert(inorder(node.left) + pending(path@, *order) =~= inorder(*current)
                                    + pending(before, *order));
                            }
                            current = &node.left;
                        },
                        TraversalOrder::Decreasing => {
                            proof {
                                assert(rev_inorder(node.right) + pending(path@, *order) =~= rev_inorder(*current)
                                    + pending(before, *order));
                            }
                            current = &node.right;
                        },
                    }
                },
                None => {
                    proof {
                        assert(path@ + spine(current, *order) =~= path@);
                        assert(ordered(*current, *order) =~= Seq::<T>::empty());
                        assert(ordered(*current, *order) + pending(path@, *order) =~= pending(path@, *order));
                    }
                    break;
                },
            }
        }
    }
}

impl<'a, T: Ord> TreeIterator<'a, T> {
    /// Builds the stack of the end that `order` names, from the root down.
    fn initialize_path(&mut self, order: &TraversalOrder)
        requires
            old(self).valid(),
            *order == TraversalOrder::Increasing ==> old(self).front.is_none(),
            *order == TraversalOrder::Decreasing ==> old(self).back.is_none(),
        ensures
            final(self).valid(),
            final(self).tree == old(self).tree,
            final(self).front_taken == old(self).front_taken,
            final(self).back_taken == old(self).back_taken,
            *order == TraversalOrder::Increasing ==> final(self).front.is_some()
                && final(self).front.unwrap()@ == spine(&final(self).tree.root, *order)
                && final(self).back == old(self).back,
            *order == TraversalOrder::Decreasing ==> final(self).back.is_some()
                && final(self).back.unwrap()@ == spine(&final(self).tree.root, *order)
                && final(self).front == old(self).front,
    {
        let mut path: Vec<&'a Node<T>> = Vec::new();
        let tree: &'a Tree<T> = self.tree;
        Self::populate_path(&mut path, &tree.root, order);
        proof {
            let s = self.tree@;
            assert(pending(Seq::<&Node<T>>::empty(), *order) =~= Seq::<T>::empty());
            assert(Seq::<&Node<T>>::empty() + spine(&tree.root, *order) =~= spine(&tree.root, *order));
            assert(ordered(tree.root, *order) + Seq::<T>::empty() =~= ordered(tree.root, *order));
            assert(s.subrange(0, s.len() as int) =~= s);
            lemma_rev_inorder(tree.root);
        }
        match order {
            TraversalOrder::Increasing => {
                self.front = Some(path);
            },
            TraversalOrder::Decreasing => {
                self.back = Some(path);
            },
        }
    }

    /// Yields the least element that neither end has yielded yet.
    #[verifier::rlimit(80)]
    #[verifier::spinoff_prover]
    fn advance_front(&mut self) -> (r: Option<&'a Node<T>>)
        requires
            total_order::<T>(),
            old(self).valid(),
        ensures
            final(self).valid(),
            final(self).source() == old(self).source(),
            old(self)@.len() == 0 ==> r.is_none() && final(self)@ == old(self)@,
            old(self)@.len() > 0 ==> {
                &&& r.is_some()
                &&& r.unwrap().data == old(self)@[0]
                &&& final(self)@ == old(self)@.drop_first()
            },
    {
        proof {
            lemma_total_order::<T>();
            lemma_inorder_strictly_sorted(self.tree.root);
        }
        let ghost s = self.tree@;
        let ghost f = self.front_taken@ as int;
        let ghost b = self.back_taken@ as int;
        if self.front.is_none() {
            self.initialize_path(&TraversalOrder::Increasing);
        }
        let mut path = self.front.take().unwrap();
        let n = path.len();
        if n == 0 {
            self.front = Some(path);
            proof {
                assert(s.subrange(f, s.len() as int).len() == 0);
            }
            return None;
        }
        let node = path[n - 1];
        let ghost rest = path@.drop_last();
        proof {
            assert(s.subrange(f, s.len() as int)[0] == node.data);
        }
        let crossed = match self.last_back {
            Some(bound) => !(node.data < *bound),
            None => false,
        };
        if crossed {
            self.front = Some(path);
            return None;
        }
        path.pop();
        proof {
            assert(path@ == rest);
        }
        Self::populate_path(&mut path, &node.right, &TraversalOrder::Increasing);
        proof {
            let far = inorder(node.right);
            assert(s.subrange(f + 1, s.len() as int) =~= (seq![node.data] + far + pending(rest, *&TraversalOrder::Increasing)).drop_first());
            assert((seq![node.data] + far + pending(rest, *&TraversalOrder::Increasing)).drop_first() =~= far + pending(rest, *&TraversalOrder::Increasing));
        }
        self.front = Some(path);
        self.last_front = Some(&node.data);
        self.front_taken = Ghost((f + 1) as nat);
        proof {
            assert(self@ =~= old(self)@.drop_first());
        }
        Some(node)
    }

    /// Yields the greatest element that neither end has yielded yet.
    #[verifier::rlimit(80)]
    #[verifier::spinoff_prover]
    fn advance_back(&mut self) -> (r: Option<&'a Node<T>>)
        requires
            total_order::<T>(),
            old(self).valid(),
        ensures
            final(self).valid(),
            final(self).source() == old(self).source(),
            old(self)@.len() == 0 ==> r.is_none() && final(self)@ == old(self)@,
            old(self)@.len() > 0 ==> {
                &&& r.is_some()
                &&& r.unwrap().data == old(self)@.last()
                &&& final(self)@ == old(self)@.drop_last()
            },
    {
        proof {
            lemma_total_order::<T>();
            lemma_inorder_strictly_sorted(self.tree.root);
        }
        let ghost s = self.tree@;
        let ghost f = self.front_taken@ as int;
        let ghost b = self.back_taken@ as int;
        if self.back.is_none() {
            self.initialize_path(&TraversalOrder::Decreasing);
        }
        let mut path = self.back.take().unwrap();
        let n = path.len();
        if n == 0 {
            self.back = Some(path);
            proof {
                assert(s.subrange(0, s.len() - b).reverse().len() == 0);
            }
            return None;
        }
        let node = path[n - 1];
        let ghost rest = path@.drop_last();
        proof {
            assert(s.subrange(0, s.len() - b).reverse()[0] == node.data);
            assert(s[s.len() - b - 1] == node.data);
        }
        let crossed = match self.last_front {
            Some(bound) => !(*bound < node.data),
            None => false,
        };
        if crossed {
            self.back = Some(path);
            return None;
        }
        path.pop();
        proof {
            assert(path@ == rest);
        }
        Self::populate_path(&mut path, &node.left, &TraversalOrder::Decreasing);
        proof {
            let far = rev_inorder(node.left);
            assert(s.subrange(0, s.len() - b - 1).reverse() =~= (seq![node.data] + far + pending(rest, *&TraversalOrder::Decreasing)).drop_first());
            assert((seq![node.data] + far + pending(rest, *&TraversalOrder::Decreasing)).drop_first() =~= far + pending(rest, *&TraversalOrder::Decreasing));
        }
        self.back = Some(path);
        self.last_back = Some(&node.data);
        self.back_taken = Ghost((b + 1) as nat);
        proof {
            assert(self@ =~= old(self)@.drop_last());
        }
        Some(node)
    }

    /// Yields the next element from the end that `order` names, building
    /// that end's stack on its first call; yields nothing once the two ends
    /// have met.
    fn iter_next(&mut self, order: &TraversalOrder) -> (r: Option<&'a Node<T>>)
        requires
            total_order::<T>(),
            old(self).valid(),
        ensures
            final(self).valid(),
            final(self).source() == old(self).source(),
            old(self)@.len() == 0 ==> r.is_none() && final(self)@ == old(self)@,
            old(self)@.len() > 0 && *order == TraversalOrder::Increasing ==> {
                &&& r.is_some()
                &&& r.unwrap().data == old(self)@[0]
                &&& final(self)@ == old(self)@.drop_first()
            },
            old(self)@.len() > 0 && *order == TraversalOrder::Decreasing ==> {
                &&& r.is_some()
                &&& r.unwrap().data == old(self)@.last()
                &&& final(self)@ == old(self)@.drop_last()
            },
    {
        match order {
            TraversalOrder::Increasing => self.advance_front(),
            TraversalOrder::Decreasing => self.advance_back(),
        }
    }

    /// Yields the least element not yet yielded from either end.
    pub fn next(&mut self) -> (r: Option<&'a Node<T>>)
        requires
            total_order::<T>(),
            old(self).valid(),
        ensures
            final(self).valid(),
            final(self).source() == old(self).source(),
            old(self)@.len() == 0 ==> r.is_none() && final(self)@ == old(self)@,
            old(self)@.len() > 0 ==> {
                &&& r.is_some()
                &&& r.unwrap().data == old(self)@[0]
                &&& final(self)@ == old(self)@.drop_first()
            },
    {
        self.iter_next(&TraversalOrder::Increasing)
    }

    /// Yields the greatest element not yet yielded from either end.
    pub fn next_back(&mut self) -> (r: Option<&'a Node<T>>)
        requires
            total_order::<T>(),
            old(self).valid(),
        ensures
            final(self).valid(),
            final(self).source() == old(self).source(),
            old(self)@.len() == 0 ==> r.is_none() && final(self)@ == old(self)@,
            old(self)@.len() > 0 ==> {
                &&& r.is_some()
                &&& r.unwrap().data == old(self)@.last()
                &&& final(self)@ == old(self)@.drop_last()
            },
    {
        self.iter_next(&TraversalOrder::Decreasing)
    }
}

impl<T: Ord> Tree<T> {
    /// A traversal of the tree that has yielded nothing yet.
    pub fn iter(&self) -> (r: TreeIterator<'_, T>)
        requires
            self.well_formed(),
        ensures
            r.valid(),
            r.source() == self@,
            r@ == self@,
    {
        let r = TreeIterator {
            tree: self,
            front: None,
            back: None,
            last_front: None,
            last_back: None,
            front_taken: Ghost(0),
            back_taken: Ghost(0),
        };
        proof {
            assert(r@ =~= self@);
        }
        r
    }
}

/// After an insert the tree holds exactly what it held before and the
/// inserted value: a value is found after it was inserted.
pub proof fn lemma_insert_membership<T>(old: Seq<T>, new: Seq<T>, value: T, x: T)
    requires
        insert_result(old, new, value),
    ensures
        new.contains(x) <==> old.contains(x) || x == value,
{
    if !old.contains(value) {
        let i = choose|i: int| 0 <= i <= old.len() && new == old.insert(i, value);
        lemma_contains_insert(old, i, value, x);
    }
}

/// Inserting a value that the tree holds leaves its in-order sequence as it was.
pub proof fn lemma_insert_existing<T>(old: Seq<T>, new: Seq<T>, value: T)
    requires
        insert_result(old, new, value),
        old.contains(value),
    ensures
        new == old,
{
}

/// After a delete the tree holds exactly what it held before but the
/// deleted value: a value that was deleted is not found.
pub proof fn lemma_delete_membership<T: Ord>(old: Seq<T>, new: Seq<T>, value: T, x: T)
    requires
        total_order::<T>(),
        strictly_sorted(old),
        delete_result(old, new, value),
    ensures
        new.contains(x) <==> old.contains(x) && x != value,
{
    lemma_total_order::<T>();
    if old.contains(value) {
        let i = choose|i: int| 0 <= i < old.len() && old[i] == value && new == old.remove(i);
        lemma_contains_remove(old, i, x);
        if new.contains(x) {
            let k = choose|k: int| 0 <= k < new.len() && new[k] == x;
            if k < i {
                assert(old[k] == x);
            } else {
                assert(old[k + 1] == x);
            }
        }
        if old.contains(x) && x != value {
            let k = choose|k: int| 0 <= k < old.len() && old[k] == x;
            if k < i {
                assert(new[k] == x);
            } else {
                assert(k != i);
                assert(new[k - 1] == x);
            }
        }
    }
}

/// A well-formed tree lists its elements in strictly ascending order, and
/// its descending traversal is exactly the reverse of that list.
pub proof fn lemma_traversal_orders<T: Ord>(tree: Tree<T>)
    requires
        total_order::<T>(),
        tree.well_formed(),
    ensures
        strictly_sorted(tree@),
        ordered(tree.root, TraversalOrder::Decreasing) == tree@.reverse(),
{
    lemma_inorder_strictly_sorted(tree.root);
    lemma_rev_inorder(tree.root);
}

/// Every node on the spine of `e` holds an element of `e`.
pub proof fn lemma_spine_members<T: Ord>(e: &Edge<T>, order: TraversalOrder)
    ensures
        forall|i: int| 0 <= i < spine(e, order).len() ==> inorder(*e).contains(#[trigger] spine(e, order)[i].data),
    decreases e,
{
    if let Some(node) = e {
        let near = match order {
            TraversalOrder::Increasing => &node.left,
            TraversalOrder::Decreasing => &node.right,
        };
        lemma_spine_members(near, order);
        let sp = spine(e, order);
        assert forall|i: int| 0 <= i < sp.len() implies inorder(*e).contains(#[trigger] sp[i].data) by {
            lemma_contains_concat(inorder(node.left), node.data, inorder(node.right), sp[i].data);
            if i > 0 {
                assert(sp[i] == spine(near, order)[i - 1]);
            }
        }
    }
}

/// Down the spine of a well-ordered subtree the elements strictly decrease
/// for increasing order and strictly increase for decreasing order, so the
/// top of a stack built from it holds the subtree's least (greatest) element
/// next.
pub proof fn lemma_spine_ordered<T: Ord>(e: &Edge<T>, order: TraversalOrder)
    requires
        total_order::<T>(),
        well_ordered(*e),
    ensures
        forall|i: int, j: int|
            0 <= i < j < spine(e, order).len() ==> match order {
                TraversalOrder::Increasing => lt(#[trigger] spine(e, order)[j].data, #[trigger] spine(e, order)[i].data),
                TraversalOrder::Decreasing => lt(spine(e, order)[i].data, spine(e, order)[j].data),
            },
    decreases e,
{
    lemma_total_order::<T>();
    if let Some(node) = e {
        let near = match order {
            TraversalOrder::Increasing => &node.left,
            TraversalOrder::Decreasing => &node.right,
        };
        lemma_spine_ordered(near, order);
        lemma_spine_members(near, order);
        let sp = spine(e, order);
        let rest = spine(near, order);
        assert forall|i: int, j: int| 0 <= i < j < sp.len() implies match order {
            TraversalOrder::Increasing => lt(#[trigger] sp[j].data, #[trigger] sp[i].data),
            TraversalOrder::Decreasing => lt(sp[i].data, sp[j].data),
        } by {
            assert(sp[j] == rest[j - 1]);
            assert(inorder(*near).contains(rest[j - 1].data));
            if i > 0 {
                assert(sp[i] == rest[i - 1]);
            }
        }
    }
}

/// Filtering by a test that every element passes keeps the whole sequence.
proof fn lemma_filter_keeps_all<T>(s: Seq<T>, p: spec_fn(T) -> bool)
    requires
        forall|i: int| 0 <= i < s.len() ==> p(#[trigger] s[i]),
    ensures
        s.filter(p) == s,
    decreases s.len(),
{
    if s.len() > 0 {
        let init = s.drop_last();
        lemma_filter_keeps_all(init, p);
        assert(init.push(s.last()) =~= s);
        init.lemma_filter_push(s.last(), p);
    } else {
        assert(s.filter(p) =~= s);
    }
}

/// Deleting a value from a tree removes exactly the elements equal to it
/// and keeps the rest in their order.
pub proof fn lemma_delete_is_filter<T: Ord>(old: Seq<T>, new: Seq<T>, value: T)
    requires
        total_order::<T>(),
        strictly_sorted(old),
        delete_result(old, new, value),
    ensures
        new == old.filter(|x: T| x != value),
{
    lemma_total_order::<T>();
    let p = |x: T| x != value;
    if old.contains(value) {
        let i = choose|i: int| 0 <= i < old.len() && old[i] == value && new == old.remove(i);
        let a = old.subrange(0, i);
        let b = old.subrange(i + 1, old.len() as int);
        let mid = seq![value];
        assert(old =~= a + mid + b);
        assert forall|k: int| 0 <= k < a.len() implies p(#[trigger] a[k]) by {
            assert(lt(old[k], old[i]));
        }
        assert forall|k: int| 0 <= k < b.len() implies p(#[trigger] b[k]) by {
            assert(lt(old[i], old[i + 1 + k]));
        }
        lemma_filter_keeps_all(a, p);
        lemma_filter_keeps_all(b, p);
        Seq::<T>::filter_distributes_over_add(a + mid, b, p);
        Seq::<T>::filter_distributes_over_add(a, mid, p);
        assert(Seq::<T>::empty().push(value) =~= mid);
        Seq::<T>::empty().lemma_filter_push(value, p);
        assert(Seq::<T>::empty().filter(p) =~= Seq::<T>::empty());
        assert(mid.filter(p) =~= Seq::<T>::empty());
        assert(new =~= a + b);
        assert(old.filter(p) =~= a + b);
    } else {
        assert forall|k: int| 0 <= k < old.len() implies p(#[trigger] old[k]) by {
            if old[k] == value {
                assert(old.contains(value));
            }
        }
        lemma_filter_keeps_all(old, p);
    }
}

/// The set of values that a sequence of operations leaves in a tree that
/// starts empty: `(true, v)` inserts `v`, `(false, v)` deletes it.
pub open spec fn set_model<T>(ops: Seq<(bool, T)>) -> Set<T>
    decreases ops.len(),
{
    if ops.len() == 0 {
        Set::empty()
    } else {
        let prev = set_model(ops.drop_last());
        let (is_insert, v) = ops.last();
        if is_insert {
            prev.insert(v)
        } else {
            prev.remove(v)
        }
    }
}

/// The trace `views` of in-order sequences follows `ops` from the empty tree.
pub open spec fn follows<T: Ord>(views: Seq<Seq<T>>, ops: Seq<(bool, T)>) -> bool {
    &&& views.len() == ops.len() + 1
    &&& views[0] == Seq::<T>::empty()
    &&& forall|k: int| 0 <= k < views.len() ==> strictly_sorted(#[trigger] views[k])
    &&& forall|k: int|
        0 <= k < ops.len() ==> if (#[trigger] ops[k]).0 {
            insert_result(views[k], views[k + 1], ops[k].1)
        } else {
            delete_result(views[k], views[k + 1], ops[k].1)
        }
}

proof fn lemma_follows_upto<T: Ord>(views: Seq<Seq<T>>, ops: Seq<(bool, T)>, k: int, v: T)
    requires
        total_order::<T>(),
        follows(views, ops),
        0 <= k <= ops.len(),
    ensures
        views[k].contains(v) <==> set_model(ops.subrange(0, k)).contains(v),
    decreases k,
{
    if k == 0 {
        assert(ops.subrange(0, 0).len() == 0);
    } else {
        lemma_follows_upto(views, ops, k - 1, v);
        let pre = ops.subrange(0, k);
        assert(pre.drop_last() =~= ops.subrange(0, k - 1));
        assert(pre.last() == ops[k - 1]);
        if ops[k - 1].0 {
            lemma_insert_membership(views[k - 1], views[k], ops[k - 1].1, v);
        } else {
            lemma_delete_membership(views[k - 1], views[k], ops[k - 1].1, v);
        }
    }
}

/// After any sequence of inserts and deletes from the empty tree, the tree
/// holds a value exactly when the last operation on that value inserted
/// it; with the contract of `find`, a value is found exactly then, and a
/// value that was never inserted is never found.
pub proof fn lemma_membership_follows_operations<T: Ord>(views: Seq<Seq<T>>, ops: Seq<(bool, T)>, v: T)
    requires
        total_order::<T>(),
        follows(views, ops),
    ensures
        views.last().contains(v) <==> set_model(ops).contains(v),
{
    lemma_follows_upto(views, ops, ops.len() as int, v);
    assert(ops.subrange(0, ops.len() as int) =~= ops);
}

} // verus!
