use crate::order::TotalOrder;
use crate::order::seq_insert;
use crate::order::sorted;
use vstd::prelude::*;

verus! {

broadcast use vstd::seq_lib::group_seq_properties;

/// One stored value with its owned children. The parent is not recorded:
/// ownership runs strictly downward, and every walk that needs to revisit a
/// parent is written as a descent that rebuilds the links on the way out.
struct Node<V: TotalOrder> {
    value: V,
    left: Option<Box<Node<V>>>,
    right: Option<Box<Node<V>>>,
}

/// An unbalanced binary search tree holding a multiset of values: duplicate
/// values are kept, equal values descending to the right. The abstract view
/// is the in-order listing of the stored values.
pub struct Bst<V: TotalOrder> {
    root: Option<Box<Node<V>>>,
}

/// The in-order listing of an optional subtree.
spec fn seq_of<V: TotalOrder>(node: Option<Box<Node<V>>>) -> Seq<V>
    decreases node,
{
    match node {
        None => Seq::empty(),
        Some(n) => n.in_order(),
    }
}

/// Well-formedness of an optional subtree.
spec fn wf_of<V: TotalOrder>(node: Option<Box<Node<V>>>) -> bool
    decreases node,
{
    match node {
        None => true,
        Some(n) => n.well_formed(),
    }
}

impl<V: TotalOrder> Node<V> {
    /// The in-order listing of this subtree: left part, own value, right part.
    spec fn in_order(self) -> Seq<V>
        decreases self,
    {
        seq_of(self.left) + seq![self.value] + seq_of(self.right)
    }

    /// The ordering invariant: everything on the left is strictly below this
    /// node's value, everything on the right is at or above it, recursively.
    spec fn well_formed(self) -> bool
        decreases self,
    {
        &&& (forall|x: V| #[trigger] seq_of(self.left).contains(x) ==> x.le(self.value)
            && x != self.value)
        &&& (forall|x: V| #[trigger] seq_of(self.right).contains(x) ==> self.value.le(x))
        &&& wf_of(self.left)
        &&& wf_of(self.right)
    }
}

impl<V: TotalOrder> Node<V> {
    /// Attach `value` as a new leaf in the optional subtree rooted here, at
    /// the one place the ordering rule allows.
    fn insert_into(node: &mut Option<Box<Node<V>>>, value: V)
        requires
            wf_of(*old(node)),
        ensures
            wf_of(*final(node)),
            seq_of(*final(node)) == seq_insert(seq_of(*old(node)), value),
        decreases *old(node),
    {
        match node.take() {
            None => {
                *node = Some(Box::new(Node { value, left: None, right: None }));
                proof {
                    assert(seq_of(*node) =~= seq![value]);
                    assert(seq_insert(Seq::<V>::empty(), value) == seq![value]);
                }
            },
            Some(mut boxed) => {
                (&mut *boxed).insert(value);
                *node = Some(boxed);
            },
        }
    }

    /// Descend one level towards the leaf slot where `value` belongs.
    fn insert(&mut self, value: V)
        requires
            old(self).well_formed(),
        ensures
            final(self).well_formed(),
            final(self).in_order() == seq_insert(old(self).in_order(), value),
        decreases *old(self),
    {
        let ghost a = seq_of(old(self).left);
        let ghost b = seq_of(old(self).right);
        let ghost m = old(self).value;
        if self.value.leq(&value) {
            Self::insert_into(&mut self.right, value);
            proof {
                assert forall|x: V| #[trigger] a.contains(x) implies x.le(value) by {
                    V::transitive(x, m, value);
                }
                crate::order::lemma_seq_insert_concat(a, seq![m] + b, value);
                assert(a + (seq![m] + b) =~= a + seq![m] + b);
                assert((seq![m] + b)[0] == m);
                assert((seq![m] + b).drop_first() =~= b);
                assert(seq_insert(seq![m] + b, value) == seq![m] + seq_insert(b, value));
                crate::order::lemma_seq_insert_membership(b, value);
                assert(final(self).in_order() =~= a + (seq![m] + seq_insert(b, value)));
            }
        } else {
            proof {
                V::total(m, value);
                V::reflexive(value);
                assert(value.le(m) && value != m);
            }
            Self::insert_into(&mut self.left, value);
            proof {
                crate::order::lemma_seq_insert_membership(a, value);
                crate::order::lemma_seq_insert_concat(a, seq![m] + b, value);
                assert(a + (seq![m] + b) =~= a + seq![m] + b);
                assert((seq![m] + b)[0] == m);
                if forall|x: V| #[trigger] a.contains(x) ==> x.le(value) {
                    assert(seq_insert(seq![m] + b, value) == seq![value] + (seq![m] + b));
                    crate::order::lemma_seq_insert_all_le(a, value);
                    assert(a.push(value) + seq![m] + b =~= a + (seq![value] + (seq![m] + b)));
                } else {
                    assert(exists|x: V| #[trigger] a.contains(x) && !x.le(value));
                    assert(seq_insert(a + (seq![m] + b), value) == seq_insert(a, value) + (seq![m]
                        + b));
                    assert(seq_insert(a, value) + (seq![m] + b) =~= seq_insert(a, value) + seq![m]
                        + b);
                }
            }
        }
    }

    /// Whether some value stored in the optional subtree equals `value`,
    /// decided by one descent along the ordering rule.
    fn contains_in(node: &Option<Box<Node<V>>>, value: &V) -> (r: bool)
        requires
            wf_of(*node),
        ensures
            r == seq_of(*node).contains(*value),
        decreases node,
    {
        match node {
            None => {
                proof {
                    assert(!Seq::<V>::empty().contains(*value));
                }
                false
            },
            Some(n) => {
                let ghost a = seq_of(n.left);
                let ghost b = seq_of(n.right);
                let ghost m = n.value;
                let le1 = value.leq(&n.value);
                let ge1 = n.value.leq(value);
                proof {
                    assert(n.in_order() == a + seq![m] + b);
                    assert((a + seq![m] + b).contains(*value) <==> (a + seq![m]).contains(*value)
                        || b.contains(*value));
                    assert((a + seq![m]).contains(*value) <==> a.contains(*value)
                        || seq![m].contains(*value));
                    assert(seq![m][0] == m);
                    if seq![m].contains(*value) {
                        let i = choose|i: int| 0 <= i < 1 && seq![m][i] == *value;
                        assert(*value == m);
                    }
                }
                if le1 && ge1 {
                    proof {
                        V::antisymmetric(*value, m);
                        assert(seq![m].contains(*value));
                    }
                    true
                } else if le1 {
                    proof {
                        V::reflexive(*value);
                        assert(*value != m);
                        if b.contains(*value) {
                            assert(seq_of(n.right).contains(*value));
                            assert(false);
                        }
                    }
                    Self::contains_in(&n.left, value)
                } else {
                    proof {
                        V::total(*value, m);
                        V::reflexive(*value);
                        assert(*value != m);
                        if a.contains(*value) {
                            assert(seq_of(n.left).contains(*value));
                            assert(false);
                        }
                    }
                    Self::contains_in(&n.right, value)
                }
            },
        }
    }

    /// Detach and return the least value of a non-empty optional subtree:
    /// the leftmost node leaves, and its own right child is glued into the
    /// slot it held.
    fn take_min(node: &mut Option<Box<Node<V>>>) -> (least: V)
        requires
            old(node).is_some(),
            wf_of(*old(node)),
        ensures
            wf_of(*final(node)),
            seq_of(*old(node)) == seq![least] + seq_of(*final(node)),
            forall|x: V| #[trigger] seq_of(*final(node)).contains(x) ==> least.le(x),
        decreases *old(node),
    {
        let mut boxed = node.take().unwrap();
        let ghost a = seq_of(boxed.left);
        let ghost b = seq_of(boxed.right);
        let ghost m = boxed.value;
        if boxed.left.is_none() {
            *node = boxed.right;
            proof {
                assert(seq![m] + b =~= a + seq![m] + b);
                assert forall|x: V| #[trigger] b.contains(x) implies m.le(x) by {
                    assert(seq_of(old(node).unwrap().right).contains(x));
                }
            }
            boxed.value
        } else {
            let least = Self::take_min(&mut boxed.left);
            *node = Some(boxed);
            proof {
                let a2 = seq_of(final(node).unwrap().left);
                assert(a == seq![least] + a2);
                assert(seq_of(*final(node)) == a2 + seq![m] + b);
                assert(seq![least] + (a2 + seq![m] + b) =~= (seq![least] + a2) + seq![m] + b);
                assert((seq![least] + a2)[0] == least);
                assert(a.contains(least));
                assert(least.le(m) && least != m);
                assert forall|x: V| #[trigger] a2.contains(x) implies a.contains(x) by {
                    assert((seq![least] + a2).contains(x));
                }
                assert forall|x: V| #[trigger] seq_of(*final(node)).contains(x) implies least.le(
                    x,
                ) by {
                    assert((a2 + seq![m] + b).contains(x) <==> (a2 + seq![m]).contains(x)
                        || b.contains(x));
                    assert((a2 + seq![m]).contains(x) <==> a2.contains(x) || seq![m].contains(x));
                    if a2.contains(x) {
                    } else if b.contains(x) {
                        V::transitive(least, m, x);
                    } else {
                        let i = choose|i: int| 0 <= i < 1 && seq![m][i] == x;
                        assert(x == m);
                    }
                }
            }
            least
        }
    }

    /// Remove one node whose value equals `value`, if any exists: the first
    /// equal node met on the descent leaves the tree. Its slot is re-linked
    /// to a lone child directly; a node with two children is replaced by its
    /// in-order successor, the least value of its right subtree. An absent
    /// value leaves the subtree untouched.
    fn delete_from(node: &mut Option<Box<Node<V>>>, value: &V)
        requires
            wf_of(*old(node)),
        ensures
            wf_of(*final(node)),
            seq_of(*old(node)).contains(*value) ==> exists|i: int|
                0 <= i < seq_of(*old(node)).len() && seq_of(*old(node))[i] == *value && seq_of(
                    *final(node),
                ) == #[trigger] seq_of(*old(node)).remove(i),
            !seq_of(*old(node)).contains(*value) ==> seq_of(*final(node)) == seq_of(*old(node)),
        decreases *old(node),
    {
        if let Some(mut boxed) = node.take() {
            let ghost a = seq_of(boxed.left);
            let ghost b = seq_of(boxed.right);
            let ghost m = boxed.value;
            let ghost whole = a + seq![m] + b;
            proof {
                assert(boxed.well_formed());
                assert(seq_of(*old(node)) == whole);
                assert(whole.contains(*value) <==> (a + seq![m]).contains(*value) || b.contains(
                    *value,
                ));
                assert((a + seq![m]).contains(*value) <==> a.contains(*value) || seq![m].contains(
                    *value,
                ));
                assert(seq![m][0] == m);
                if seq![m].contains(*value) {
                    let i = choose|i: int| 0 <= i < 1 && seq![m][i] == *value;
                    assert(*value == m);
                }
                assert(whole[a.len() as int] == m);
            }
            let le1 = value.leq(&boxed.value);
            let ge1 = boxed.value.leq(value);
            if le1 && ge1 {
                proof {
                    V::antisymmetric(*value, m);
                }
                if boxed.left.is_none() {
                    *node = boxed.right;
                    proof {
                        assert(whole[0] == m);
                        assert(whole.contains(*value));
                        assert(whole.remove(0) =~= b);
                        assert(seq_of(*final(node)) == whole.remove(0));
                    }
                } else if boxed.right.is_none() {
                    *node = boxed.left;
                    proof {
                        assert(whole.contains(*value));
                        assert(whole.remove(a.len() as int) =~= a);
                        assert(seq_of(*final(node)) == whole.remove(a.len() as int));
                    }
                } else {
                    let least = Self::take_min(&mut boxed.right);
                    let ghost b2 = seq_of(boxed.right);
                    boxed.value = least;
                    *node = Some(boxed);
                    proof {
                        assert(b == seq![least] + b2);
                        assert((seq![least] + b2)[0] == least);
                        assert(b.contains(least));
                        assert(m.le(least));
                        assert(seq_of(*final(node)) == a + seq![least] + b2);
                        assert(whole.contains(*value));
                        assert(whole.remove(a.len() as int) =~= a + seq![least] + b2);
                        assert(seq_of(*final(node)) == whole.remove(a.len() as int));
                        assert forall|x: V| #[trigger] a.contains(x) implies x.le(least) && x
                            != least by {
                            V::transitive(x, m, least);
                            if x == least {
                                V::antisymmetric(m, least);
                                assert(false);
                            }
                        }
                    }
                }
            } else if le1 {
                proof {
                    V::reflexive(*value);
                    assert(*value != m);
                    if b.contains(*value) {
                        assert(false);
                    }
                }
                Self::delete_from(&mut boxed.left, value);
                let ghost a2 = seq_of(boxed.left);
                *node = Some(boxed);
                proof {
                    assert(seq_of(*final(node)) == a2 + seq![m] + b);
                    if a.contains(*value) {
                        assert(whole.contains(*value));
                        let i = choose|i: int|
                            0 <= i < a.len() && a[i] == *value && a2 == a.remove(i);
                        crate::order::lemma_remove_keeps_membership(a, i);
                        assert(whole[i] == a[i]);
                        assert(whole.remove(i) =~= a.remove(i) + seq![m] + b);
                        assert(seq_of(*final(node)) == whole.remove(i));
                    } else {
                        assert(!whole.contains(*value));
                        assert(a2 == a);
                    }
                }
            } else {
                proof {
                    V::total(*value, m);
                    V::reflexive(*value);
                    assert(m.le(*value) && *value != m);
                    if a.contains(*value) {
                        assert(false);
                    }
                }
                Self::delete_from(&mut boxed.right, value);
                let ghost b2 = seq_of(boxed.right);
                *node = Some(boxed);
                proof {
                    assert(seq_of(*final(node)) == a + seq![m] + b2);
                    if b.contains(*value) {
                        assert(whole.contains(*value));
                        let i = choose|i: int|
                            0 <= i < b.len() && b[i] == *value && b2 == b.remove(i);
                        crate::order::lemma_remove_keeps_membership(b, i);
                        let j = i + a.len() + 1;
                        assert(whole[j] == b[i]);
                        assert(whole.remove(j) =~= a + seq![m] + b.remove(i));
                        assert(seq_of(*final(node)) == whole.remove(j));
                    } else {
                        assert(!whole.contains(*value));
                        assert(b2 == b);
                    }
                }
            }
        } else {
            proof {
                assert(!Seq::<V>::empty().contains(*value));
            }
        }
    }
}

impl<V: TotalOrder> View for Bst<V> {
    type V = Seq<V>;

    open spec fn view(&self) -> Seq<V> {
        self.as_seq()
    }
}

impl<V: TotalOrder> Bst<V> {
    /// The in-order listing of the stored values, the tree's abstract view.
    pub closed spec fn as_seq(self) -> Seq<V> {
        seq_of(self.root)
    }

    /// The tree's invariant; established by `empty` and kept by every
    /// operation.
    pub closed spec fn well_formed(self) -> bool {
        wf_of(self.root)
    }

    /// A tree with no values.
    pub fn empty() -> (t: Self)
        ensures
            t.well_formed(),
            t@ == Seq::<V>::empty(),
    {
        Bst { root: None }
    }

    /// Add one value as a new leaf; duplicates are kept, so the tree grows by
    /// exactly this value at its sorted place in the in-order listing.
    pub fn insert(&mut self, value: V)
        requires
            old(self).well_formed(),
        ensures
            final(self).well_formed(),
            final(self)@ == seq_insert(old(self)@, value),
    {
        Node::insert_into(&mut self.root, value);
    }

    /// Report whether some stored value equals `value`. Absence is an
    /// ordinary `false`, never an error.
    pub fn contains(&self, value: V) -> (r: bool)
        requires
            self.well_formed(),
        ensures
            r == self@.contains(value),
    {
        Node::contains_in(&self.root, &value)
    }

    /// Delete one stored value equal to `value`, if any: exactly one
    /// occurrence leaves the in-order listing, every other value keeping its
    /// place and order. A tree without such a value is left unchanged;
    /// absence is a no-op, not an error.
    pub fn remove(&mut self, value: V)
        requires
            old(self).well_formed(),
        ensures
            final(self).well_formed(),
            old(self)@.contains(value) ==> exists|i: int|
                0 <= i < old(self)@.len() && old(self)@[i] == value && final(self)@
                    == #[trigger] old(self)@.remove(i),
            !old(self)@.contains(value) ==> final(self)@ == old(self)@,
    {
        Node::delete_from(&mut self.root, &value);
    }
}

impl<V: TotalOrder + Copy> Bst<V> {
    /// The stored values in ascending order, one copy per occurrence.
    pub fn in_order(&self) -> (r: Vec<V>)
        ensures
            r@ == self@,
    {
        let mut out: Vec<V> = Vec::new();
        Node::push_in_order(&self.root, &mut out);
        proof {
            assert(Seq::<V>::empty() + self@ =~= self@);
        }
        out
    }
}

impl<V: TotalOrder + Copy> Node<V> {
    /// Append the in-order listing of the optional subtree to `out`.
    fn push_in_order(node: &Option<Box<Node<V>>>, out: &mut Vec<V>)
        ensures
            final(out)@ == old(out)@ + seq_of(*node),
        decreases node,
    {
        match node {
            None => {
                proof {
                    assert(old(out)@ + Seq::<V>::empty() =~= old(out)@);
                }
            },
            Some(n) => {
                Self::push_in_order(&n.left, out);
                out.push(n.value);
                Self::push_in_order(&n.right, out);
                proof {
                    assert(out@ =~= old(out)@ + (seq_of(n.left) + seq![n.value] + seq_of(
                        n.right,
                    )));
                }
            },
        }
    }
}

/// After an insertion, the inserted value is among the stored values: a
/// membership query for it reports true.
pub proof fn lemma_insert_then_contains<V: TotalOrder>(s: Seq<V>, v: V)
    ensures
        seq_insert(s, v).contains(v),
{
    crate::order::lemma_seq_insert_membership(s, v);
}

/// Insertion changes no other membership: a value different from the one
/// inserted is stored afterwards exactly when it was stored before. Starting
/// from the empty tree, a value equal to none of the inserted values is thus
/// never reported present.
pub proof fn lemma_insert_keeps_others<V: TotalOrder>(s: Seq<V>, v: V, w: V)
    requires
        w != v,
    ensures
        seq_insert(s, v).contains(w) <==> s.contains(w),
{
    crate::order::lemma_seq_insert_membership(s, v);
}

/// Removing the only occurrence of a value: afterwards that value is absent,
/// while every other value is present exactly as before.
pub proof fn lemma_remove_last_occurrence<V: TotalOrder>(s: Seq<V>, i: int, v: V)
    requires
        0 <= i < s.len(),
        s[i] == v,
        forall|j: int| 0 <= j < s.len() && s[j] == v ==> j == i,
    ensures
        !s.remove(i).contains(v),
        forall|w: V| w != v ==> (s.remove(i).contains(w) <==> s.contains(w)),
{
    s.remove_ensures(i);
    if s.remove(i).contains(v) {
        let k = choose|k: int| 0 <= k < s.remove(i).len() && s.remove(i)[k] == v;
        if k < i {
            assert(s[k] == v);
        } else {
            assert(s[k + 1] == v);
        }
        assert(false);
    }
    assert forall|w: V| w != v implies (s.remove(i).contains(w) <==> s.contains(w)) by {
        if s.remove(i).contains(w) {
            let k = choose|k: int| 0 <= k < s.remove(i).len() && s.remove(i)[k] == w;
            if k < i {
                assert(s[k] == w);
            } else {
                assert(s[k + 1] == w);
            }
        }
        if s.contains(w) {
            let k = choose|k: int| 0 <= k < s.len() && s[k] == w;
            if k < i {
                assert(s.remove(i)[k] == w);
            } else {
                assert(s.remove(i)[k - 1] == w);
            }
        }
    }
}

/// Deletion promotes the in-order successor: after a removal at some
/// position that is not the last, the value standing at that position is the
/// one that immediately followed the deleted value.
pub proof fn lemma_remove_promotes_successor<V: TotalOrder>(s: Seq<V>, i: int)
    requires
        0 <= i < s.len() - 1,
    ensures
        s.remove(i)[i] == s[i + 1],
{
    s.remove_ensures(i);
}

/// The ordering invariant holds globally, not just at each node: the
/// in-order listing of a well-formed tree is sorted.
pub proof fn lemma_in_order_sorted<V: TotalOrder>(t: Bst<V>)
    requires
        t.well_formed(),
    ensures
        sorted(t@),
{
    lemma_subtree_sorted(t.root);
}

proof fn lemma_subtree_sorted<V: TotalOrder>(node: Option<Box<Node<V>>>)
    requires
        wf_of(node),
    ensures
        sorted(seq_of(node)),
    decreases node,
{
    match node {
        None => {},
        Some(n) => {
            lemma_subtree_sorted(n.left);
            lemma_subtree_sorted(n.right);
            let a = seq_of(n.left);
            let b = seq_of(n.right);
            let m = n.value;
            let s = a + seq![m] + b;
            assert forall|i: int, j: int| 0 <= i < j < s.len() implies s[i].le(s[j]) by {
                let la = a.len() as int;
                if i < la {
                    assert(s[i] == a[i]);
                    assert(a.contains(a[i]));
                }
                if j < la {
                    assert(s[j] == a[j]);
                    assert(a.contains(a[j]));
                }
                if i > la {
                    assert(s[i] == b[i - la - 1]);
                    assert(b.contains(b[i - la - 1]));
                }
                if j > la {
                    assert(s[j] == b[j - la - 1]);
                    assert(b.contains(b[j - la - 1]));
                }
                if i < la && j < la {
                    assert(a[i].le(a[j]));
                } else if i < la && j == la {
                    assert(a[i].le(m));
                } else if i < la && j > la {
                    assert(a[i].le(m));
                    assert(m.le(b[j - la - 1]));
                    V::transitive(s[i], m, s[j]);
                } else if i == la {
                    assert(m.le(b[j - la - 1]));
                } else {
                    assert(b[i - la - 1].le(b[j - la - 1]));
                }
            }
        },
    }
}

} // verus!
