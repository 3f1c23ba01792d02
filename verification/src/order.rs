use vstd::prelude::*;

verus! {

broadcast use vstd::seq_lib::group_seq_properties;

/// A total order on a value type, together with an executable comparison.
///
/// The tree uses one fixed rule everywhere: a value `v` belongs to the left
/// of a node holding `m` exactly when `v.le(m) && v != m`, and to the right
/// when `m.le(v)`. Equal values therefore always descend to the right, which
/// is what lets the tree store duplicates.
pub trait TotalOrder: Sized {
    /// The ordering relation: `a.le(b)` means `a` sorts no later than `b`.
    spec fn le(self, other: Self) -> bool;

    /// Every value compares no later than itself.
    proof fn reflexive(a: Self)
        ensures
            a.le(a),
    ;

    /// The order composes along chains.
    proof fn transitive(a: Self, b: Self, c: Self)
        requires
            a.le(b),
            b.le(c),
        ensures
            a.le(c),
    ;

    /// Two values each no later than the other are the same value.
    proof fn antisymmetric(a: Self, b: Self)
        requires
            a.le(b),
            b.le(a),
        ensures
            a == b,
    ;

    /// Any two values are comparable.
    proof fn total(a: Self, b: Self)
        ensures
            a.le(b) || b.le(a),
    ;

    /// Executable test of the ordering relation.
    fn leq(&self, other: &Self) -> (r: bool)
        ensures
            r == self.le(*other),
    ;
}

impl TotalOrder for u64 {
    open spec fn le(self, other: Self) -> bool {
        self <= other
    }

    proof fn reflexive(a: Self) {
    }

    proof fn transitive(a: Self, b: Self, c: Self) {
    }

    proof fn antisymmetric(a: Self, b: Self) {
    }

    proof fn total(a: Self, b: Self) {
    }

    fn leq(&self, other: &Self) -> (r: bool) {
        *self <= *other
    }
}

/// A sequence is sorted when it is non-decreasing under the order.
pub open spec fn sorted<V: TotalOrder>(s: Seq<V>) -> bool {
    forall|i: int, j: int| 0 <= i < j < s.len() ==> #[trigger] s[i].le(#[trigger] s[j])
}

/// Where one insertion lands in a sorted listing: the new value stays behind
/// every element that compares no later than it, and stands before the first
/// element strictly above it.
pub open spec fn seq_insert<V: TotalOrder>(s: Seq<V>, v: V) -> Seq<V>
    decreases s.len(),
{
    if s.len() == 0 {
        seq![v]
    } else if s[0].le(v) {
        seq![s[0]] + seq_insert(s.drop_first(), v)
    } else {
        seq![v] + s
    }
}

/// Dropping one position of a listing never adds a member.
pub(crate) proof fn lemma_remove_keeps_membership<A>(s: Seq<A>, i: int)
    requires
        0 <= i < s.len(),
    ensures
        forall|x: A| #[trigger] s.remove(i).contains(x) ==> s.contains(x),
{
    s.remove_ensures(i);
    assert forall|x: A| #[trigger] s.remove(i).contains(x) implies s.contains(x) by {
        let k = choose|k: int| 0 <= k < s.remove(i).len() && s.remove(i)[k] == x;
        if k < i {
            assert(s[k] == x);
        } else {
            assert(s[k + 1] == x);
        }
    }
}

/// Inserting a value into a listing adds exactly that value: membership in
/// the result is membership in the original or equality with the newcomer.
pub proof fn lemma_seq_insert_membership<V: TotalOrder>(s: Seq<V>, v: V)
    ensures
        forall|x: V| #[trigger] seq_insert(s, v).contains(x) <==> s.contains(x) || x == v,
    decreases s.len(),
{
    if s.len() == 0 {
        assert forall|x: V| #[trigger] seq_insert(s, v).contains(x) <==> s.contains(x) || x
            == v by {
            assert(seq![v][0] == v);
            if seq![v].contains(x) {
                let i = choose|i: int| 0 <= i < 1 && seq![v][i] == x;
                assert(x == v);
            }
        }
    } else if s[0].le(v) {
        lemma_seq_insert_membership(s.drop_first(), v);
        assert forall|x: V| #[trigger] seq_insert(s, v).contains(x) <==> s.contains(x) || x
            == v by {
            let hd = seq![s[0]];
            assert(seq_insert(s, v) == hd + seq_insert(s.drop_first(), v));
            assert((hd + seq_insert(s.drop_first(), v)).contains(x) <==> hd.contains(x)
                || seq_insert(s.drop_first(), v).contains(x));
            assert(s =~= hd + s.drop_first());
            assert((hd + s.drop_first()).contains(x) <==> hd.contains(x)
                || s.drop_first().contains(x));
            assert(hd[0] == s[0]);
            if hd.contains(x) {
                let i = choose|i: int| 0 <= i < 1 && hd[i] == x;
                assert(x == s[0]);
            }
        }
    } else {
        assert forall|x: V| #[trigger] seq_insert(s, v).contains(x) <==> s.contains(x) || x
            == v by {
            assert(seq_insert(s, v) == seq![v] + s);
            assert((seq![v] + s).contains(x) <==> seq![v].contains(x) || s.contains(x));
            assert(seq![v][0] == v);
            if seq![v].contains(x) {
                let i = choose|i: int| 0 <= i < 1 && seq![v][i] == x;
                assert(x == v);
            }
        }
    }
}

/// A value no earlier than every element of a listing is inserted at its end.
pub proof fn lemma_seq_insert_all_le<V: TotalOrder>(s: Seq<V>, v: V)
    requires
        forall|x: V| #[trigger] s.contains(x) ==> x.le(v),
    ensures
        seq_insert(s, v) == s.push(v),
    decreases s.len(),
{
    if s.len() == 0 {
        assert(seq_insert(s, v) =~= s.push(v));
    } else {
        assert(s.contains(s[0]));
        assert(forall|x: V| #[trigger] s.drop_first().contains(x) ==> s.contains(x));
        lemma_seq_insert_all_le(s.drop_first(), v);
        assert(seq![s[0]] + s.drop_first().push(v) =~= s.push(v));
    }
}

/// How insertion distributes over a split listing: when the whole front part
/// compares no later than the value, insertion happens in the tail; when some
/// front element is strictly above the value, insertion happens in the front.
pub proof fn lemma_seq_insert_concat<V: TotalOrder>(a: Seq<V>, t: Seq<V>, v: V)
    ensures
        (forall|x: V| #[trigger] a.contains(x) ==> x.le(v)) ==> seq_insert(a + t, v) == a
            + seq_insert(t, v),
        (exists|x: V| #[trigger] a.contains(x) && !x.le(v)) ==> seq_insert(a + t, v)
            == seq_insert(a, v) + t,
    decreases a.len(),
{
    if a.len() == 0 {
        assert(a + t =~= t);
        assert(a + seq_insert(t, v) =~= seq_insert(t, v));
    } else {
        let at = a + t;
        assert(at[0] == a[0]);
        assert(at.len() > 0);
        if a[0].le(v) {
            assert(at.drop_first() =~= a.drop_first() + t);
            lemma_seq_insert_concat(a.drop_first(), t, v);
            assert(forall|x: V| #[trigger] a.drop_first().contains(x) ==> a.contains(x));
            if forall|x: V| #[trigger] a.contains(x) ==> x.le(v) {
                assert(seq_insert(at, v) == seq![a[0]] + (a.drop_first() + seq_insert(t, v)));
                assert(seq![a[0]] + (a.drop_first() + seq_insert(t, v)) =~= a + seq_insert(t, v));
            }
            if exists|x: V| #[trigger] a.contains(x) && !x.le(v) {
                let w = choose|x: V| #[trigger] a.contains(x) && !x.le(v);
                let i = choose|i: int| 0 <= i < a.len() && a[i] == w;
                assert(a[i] == w);
                assert(i != 0);
                assert(a.drop_first()[i - 1] == w);
                assert(a.drop_first().contains(w));
                assert(seq_insert(a.drop_first() + t, v) == seq_insert(a.drop_first(), v) + t);
                assert(seq_insert(a, v) == seq![a[0]] + seq_insert(a.drop_first(), v));
                assert(seq![a[0]] + (seq_insert(a.drop_first(), v) + t) =~= (seq![a[0]]
                    + seq_insert(a.drop_first(), v)) + t);
            }
        } else {
            assert(a.contains(a[0]));
            assert(seq_insert(a, v) == seq![v] + a);
            assert((seq![v] + a) + t =~= seq![v] + (a + t));
        }
    }
}

} // verus!
