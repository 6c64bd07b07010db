//! Stable sorting of values by a 64-bit key.

use std::ops::Range;
use vstd::prelude::*;
use vstd::seq_lib::to_multiset_insert;

verus! {

/// A value that is ordered by a number it holds.
pub trait Keyed {
    /// The number by which the value is ordered.
    spec fn key(&self) -> u64;

    /// Reads the key.
    fn key_value(&self) -> (k: u64)
        ensures
            k == self.key(),
    ;
}

/// A range is ordered by its start.
impl Keyed for Range<u64> {
    open spec fn key(&self) -> u64 {
        self.start
    }

    fn key_value(&self) -> (k: u64) {
        self.start
    }
}

/// Whether the keys of `s` never fall from one element to the next.
pub open spec fn ordered<T: Keyed>(s: Seq<T>) -> bool {
    forall|i: int, j: int| 0 <= i <= j < s.len() ==> s[i].key() <= s[j].key()
}

/// The index at which `x` enters `s`: before the first element whose key is
/// not below the key of `x`.
pub open spec fn slot<T: Keyed>(x: T, s: Seq<T>) -> int
    decreases s.len(),
{
    if s.len() == 0 || x.key() <= s[0].key() {
        0
    } else {
        1 + slot(x, s.drop_first())
    }
}

/// `s` with `x` put in at its slot.
pub open spec fn placed<T: Keyed>(x: T, s: Seq<T>) -> Seq<T> {
    s.insert(slot(x, s), x)
}

/// `s` in the order of its keys, elements with equal keys in the order in
/// which they stand in `s`.
pub open spec fn sorted<T: Keyed>(s: Seq<T>) -> Seq<T>
    decreases s.len(),
{
    if s.len() == 0 {
        Seq::empty()
    } else {
        placed(s[0], sorted(s.drop_first()))
    }
}

/// The slot lies in the sequence or at its end; before it stand only
/// smaller keys, and at it none that is smaller.
pub proof fn lemma_slot<T: Keyed>(x: T, s: Seq<T>)
    ensures
        0 <= slot(x, s) <= s.len(),
        forall|i: int| 0 <= i < slot(x, s) ==> s[i].key() < x.key(),
        slot(x, s) < s.len() ==> x.key() <= s[slot(x, s)].key(),
    decreases s.len(),
{
    if s.len() == 0 || x.key() <= s[0].key() {
    } else {
        lemma_slot(x, s.drop_first());
        assert forall|i: int| 0 <= i < slot(x, s) implies s[i].key() < x.key() by {
            if i > 0 {
                assert(s[i] == s.drop_first()[i - 1]);
            }
        }
        if slot(x, s) < s.len() {
            assert(s[slot(x, s)] == s.drop_first()[slot(x, s) - 1]);
        }
    }
}

/// Any index that has only smaller keys before it and no smaller key at it
/// is the slot.
pub proof fn lemma_slot_is<T: Keyed>(x: T, s: Seq<T>, at: int)
    requires
        0 <= at <= s.len(),
        forall|i: int| 0 <= i < at ==> s[i].key() < x.key(),
        at < s.len() ==> x.key() <= s[at].key(),
    ensures
        slot(x, s) == at,
    decreases s.len(),
{
    if s.len() == 0 || x.key() <= s[0].key() {
        if at > 0 {
            assert(s[0].key() < x.key());
        }
    } else {
        assert(at > 0);
        let rest = s.drop_first();
        assert forall|i: int| 0 <= i < at - 1 implies rest[i].key() < x.key() by {
            assert(rest[i] == s[i + 1]);
        }
        lemma_slot_is(x, rest, at - 1);
    }
}

/// Sorting keeps the length, puts the keys in order and keeps every element
/// as often as it occurs.
pub proof fn lemma_sorted<T: Keyed>(s: Seq<T>)
    ensures
        sorted(s).len() == s.len(),
        ordered(sorted(s)),
        sorted(s).to_multiset() == s.to_multiset(),
    decreases s.len(),
{
    broadcast use vstd::seq_lib::group_to_multiset_ensures;

    if s.len() == 0 {
        assert(sorted(s) =~= s);
    } else {
        let rest = sorted(s.drop_first());
        let x = s[0];
        lemma_sorted(s.drop_first());
        lemma_slot(x, rest);
        let at = slot(x, rest);
        let out = rest.insert(at, x);
        assert forall|i: int, j: int| 0 <= i <= j < out.len() implies out[i].key()
            <= out[j].key() by {
            if i < at && j > at {
                assert(out[i] == rest[i] && out[j] == rest[j - 1]);
            } else if i < at && j < at {
                assert(out[i] == rest[i] && out[j] == rest[j]);
            } else if i > at {
                assert(out[i] == rest[i - 1] && out[j] == rest[j - 1]);
            } else if i == at && j > at {
                assert(out[j] == rest[j - 1]);
                assert(rest[at].key() <= rest[j - 1].key());
            }
        }
        to_multiset_insert(rest, at, x);
        assert(s =~= s.drop_first().insert(0, x));
        to_multiset_insert(s.drop_first(), 0, x);
    }
}

/// Sorting neither adds nor drops an element.
pub proof fn lemma_sorted_same_elements<T: Keyed>(s: Seq<T>)
    ensures
        forall|i: int| 0 <= i < s.len() ==> sorted(s).contains(#[trigger] s[i]),
        forall|i: int| 0 <= i < sorted(s).len() ==> s.contains(#[trigger] sorted(s)[i]),
{
    broadcast use vstd::seq_lib::group_to_multiset_ensures;

    lemma_sorted(s);
    assert forall|i: int| 0 <= i < s.len() implies sorted(s).contains(#[trigger] s[i]) by {
        assert(s.contains(s[i]));
        assert(s.to_multiset().count(s[i]) > 0);
    }
    assert forall|i: int| 0 <= i < sorted(s).len() implies s.contains(
        #[trigger] sorted(s)[i],
    ) by {
        assert(sorted(s).contains(sorted(s)[i]));
        assert(sorted(s).to_multiset().count(sorted(s)[i]) > 0);
    }
}

/// A sequence that is in order already is left as it is.
pub proof fn lemma_sorted_of_ordered<T: Keyed>(s: Seq<T>)
    requires
        ordered(s),
    ensures
        sorted(s) == s,
    decreases s.len(),
{
    if s.len() > 0 {
        let rest = s.drop_first();
        assert forall|i: int, j: int| 0 <= i <= j < rest.len() implies rest[i].key()
            <= rest[j].key() by {
            assert(rest[i] == s[i + 1] && rest[j] == s[j + 1]);
        }
        lemma_sorted_of_ordered(rest);
        assert(rest.len() > 0 ==> rest[0] == s[1]);
        assert(slot(s[0], rest) == 0);
        assert(rest.insert(0, s[0]) =~= s);
    } else {
        assert(sorted(s) =~= s);
    }
}

/// Sorts `v` by key. Elements with equal keys keep their order.
pub fn sort_by_key<T: Keyed>(v: Vec<T>) -> (out: Vec<T>)
    ensures
        out@ == sorted(v@),
{
    let mut v = v;
    let ghost all = v@;
    let mut out: Vec<T> = Vec::new();
    assert(all.skip(all.len() as int) =~= Seq::<T>::empty());
    while v.len() > 0
        invariant
            v@ == all.take(v@.len() as int),
            v@.len() <= all.len(),
            out@ == sorted(all.skip(v@.len() as int)),
        decreases v@.len(),
    {
        let ghost n = v@.len() as int;
        let x = v.pop().unwrap();
        let ghost rest = out@;
        let mut at: usize = 0;
        while at < out.len() && out[at].key_value() < x.key_value()
            invariant
                at <= out@.len(),
                out@ == rest,
                forall|i: int| 0 <= i < at ==> out@[i].key() < x.key(),
            decreases out@.len() - at,
        {
            at += 1;
        }
        proof {
            lemma_slot_is(x, rest, at as int);
            assert(x == all[n - 1]);
            assert(all.skip(n - 1)[0] == x);
            assert(all.skip(n - 1).drop_first() =~= all.skip(n));
            assert(v@ =~= all.take(n - 1));
        }
        out.insert(at, x);
    }
    assert(all.skip(0) =~= all);
    out
}

} // verus!
