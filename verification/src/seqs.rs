use vstd::prelude::*;

use crate::object::{AreaKey, RelationKey, WayKey};
use vstd::multiset::Multiset;

verus! {

broadcast use vstd::seq_lib::group_to_multiset_ensures;

/// Position of the first occurrence of the way key `x` in `v`.
pub fn position_of_way(v: &Vec<WayKey>, x: &WayKey) -> (r: usize)
    requires
        v@.contains(*x),
    ensures
        r < v@.len(),
        v@[r as int] == *x,
        forall|j: int| 0 <= j < r ==> v@[j] != *x,
{
    let mut i: usize = 0;
    while i < v.len()
        invariant
            i <= v@.len(),
            v@.contains(*x),
            forall|j: int| 0 <= j < i ==> v@[j] != *x,
        decreases v@.len() - i,
    {
        if v[i] == *x {
            return i;
        }
        i = i + 1;
    }
    proof {
        let j = choose|j: int| 0 <= j < v@.len() && v@[j] == *x;
        assert(v@[j] != *x);
    }
    0
}

/// Position of the first occurrence of the area key `x` in `v`.
pub fn position_of_area(v: &Vec<AreaKey>, x: &AreaKey) -> (r: usize)
    requires
        v@.contains(*x),
    ensures
        r < v@.len(),
        v@[r as int] == *x,
        forall|j: int| 0 <= j < r ==> v@[j] != *x,
{
    let mut i: usize = 0;
    while i < v.len()
        invariant
            i <= v@.len(),
            v@.contains(*x),
            forall|j: int| 0 <= j < i ==> v@[j] != *x,
        decreases v@.len() - i,
    {
        if v[i] == *x {
            return i;
        }
        i = i + 1;
    }
    proof {
        let j = choose|j: int| 0 <= j < v@.len() && v@[j] == *x;
        assert(v@[j] != *x);
    }
    0
}

/// Position of the first occurrence of the relation key `x` in `v`.
pub fn position_of_relation(v: &Vec<RelationKey>, x: &RelationKey) -> (r: usize)
    requires
        v@.contains(*x),
    ensures
        r < v@.len(),
        v@[r as int] == *x,
        forall|j: int| 0 <= j < r ==> v@[j] != *x,
{
    let mut i: usize = 0;
    while i < v.len()
        invariant
            i <= v@.len(),
            v@.contains(*x),
            forall|j: int| 0 <= j < i ==> v@[j] != *x,
        decreases v@.len() - i,
    {
        if v[i] == *x {
            return i;
        }
        i = i + 1;
    }
    proof {
        let j = choose|j: int| 0 <= j < v@.len() && v@[j] == *x;
        assert(v@[j] != *x);
    }
    0
}

/// Inserting into a sequence adds one occurrence of the inserted element.
pub proof fn lemma_insert_multiset<T>(s: Seq<T>, i: int, a: T)
    requires
        0 <= i <= s.len(),
    ensures
        s.insert(i, a).to_multiset() == s.to_multiset().insert(a),
{
    let pre = s.take(i);
    let post = s.skip(i);
    assert(s.insert(i, a) =~= pre + (seq![a] + post));
    assert(s =~= pre + post);
    vstd::seq_lib::lemma_multiset_commutative(pre, seq![a] + post);
    vstd::seq_lib::lemma_multiset_commutative(seq![a], post);
    vstd::seq_lib::lemma_multiset_commutative(pre, post);
    assert(seq![a] =~= Seq::<T>::empty().push(a));
    assert(seq![a].to_multiset() =~= Multiset::<T>::empty().insert(a));
    assert(s.insert(i, a).to_multiset() =~= s.to_multiset().insert(a));
}

/// `swap_remove` at `i` takes one occurrence of the element at `i` away.
pub proof fn lemma_swap_remove_multiset<T>(s: Seq<T>, i: int)
    requires
        0 <= i < s.len(),
    ensures
        s.update(i, s.last()).drop_last().to_multiset() == s.to_multiset().remove(s[i]),
{
    let t = s.update(i, s.last()).drop_last();
    if i == s.len() - 1 {
        assert(t =~= s.remove(i));
    } else {
        let pre = s.take(i);
        let mid = s.subrange(i + 1, s.len() - 1);
        let last = seq![s.last()];
        assert(t =~= pre + (last + mid));
        assert(s.remove(i) =~= pre + (mid + last));
        vstd::seq_lib::lemma_multiset_commutative(pre, last + mid);
        vstd::seq_lib::lemma_multiset_commutative(pre, mid + last);
        vstd::seq_lib::lemma_seq_union_to_multiset_commutative(last, mid);
    }
}

} // verus!
