//! Ordering objects by the least corner of their boxes.

use crate::aabb::{Key, AABB};
use vstd::prelude::*;

verus! {

/// What the acceleration structure knows of one object of a scene: the
/// position it has in the caller's collection, and its bounding box.
#[derive(Clone, Copy, Debug, PartialEq, Eq, Structural)]
pub struct Object {
    pub id: usize,
    pub bbox: AABB,
}

impl Object {
    /// The key by which objects are ordered along `axis`: the least corner
    /// of the box.
    pub open spec fn key(self, axis: int) -> int {
        self.bbox.minimum.along(axis)
    }

    /// The object at position `id`, with the box `bbox`.
    pub fn new(id: usize, bbox: AABB) -> (o: Object)
        ensures
            o == (Object { id, bbox }),
    {
        Object { id, bbox }
    }

    /// Reads the ordering key along `axis`.
    pub fn sort_key(&self, axis: usize) -> (k: Key)
        requires
            axis < 3,
        ensures
            k == self.key(axis as int),
    {
        self.bbox.minimum.index(axis)
    }
}

/// Keys never decrease from one position of `s` to a later one.
pub open spec fn sorted_on(s: Seq<Object>, axis: int) -> bool {
    forall|i: int, j: int| 0 <= i <= j < s.len() ==> s[i].key(axis) <= s[j].key(axis)
}

/// The test that picks the objects whose key along `axis` is `k`.
pub open spec fn with_key(axis: int, k: int) -> spec_fn(Object) -> bool {
    |o: Object| o.key(axis) == k
}

/// Objects with equal keys stand in `out` in the order they have in `inp`,
/// and `out` holds no others: for every key, the objects that have it form
/// the same sequence in both.
pub open spec fn keeps_order_of_equals(out: Seq<Object>, inp: Seq<Object>, axis: int) -> bool {
    forall|k: int| #[trigger] out.filter(with_key(axis, k)) == inp.filter(with_key(axis, k))
}

/// Where no object of `s` has the key `k`, picking by `k` leaves nothing.
proof fn lemma_filter_absent_key(s: Seq<Object>, axis: int, k: int)
    requires
        forall|i: int| 0 <= i < s.len() ==> s[i].key(axis) != k,
    ensures
        s.filter(with_key(axis, k)) == Seq::<Object>::empty(),
    decreases s.len(),
{
    if s.len() == 0 {
        s.lemma_filter_len(with_key(axis, k));
        assert(s.filter(with_key(axis, k)) =~= Seq::<Object>::empty());
    } else {
        lemma_filter_absent_key(s.drop_last(), axis, k);
        assert(s =~= s.drop_last().push(s.last()));
        s.drop_last().lemma_filter_push(s.last(), with_key(axis, k));
    }
}

/// Picking by a key keeps of every object as many as there were, if it has
/// that key, and none of it otherwise.
proof fn lemma_filter_count(s: Seq<Object>, axis: int, k: int, x: Object)
    ensures
        s.filter(with_key(axis, k)).to_multiset().count(x) == if x.key(axis) == k {
            s.to_multiset().count(x)
        } else {
            0
        },
    decreases s.len(),
{
    broadcast use {vstd::seq_lib::group_to_multiset_ensures, vstd::multiset::group_multiset_axioms};

    if s.len() == 0 {
        lemma_filter_absent_key(s, axis, k);
        assert(s =~= Seq::<Object>::empty());
        assert(s.to_multiset().count(x) == 0);
    } else {
        let rest = s.drop_last();
        let e = s.last();
        lemma_filter_count(rest, axis, k, x);
        assert(s =~= rest.push(e));
        rest.lemma_filter_push(e, with_key(axis, k));
        vstd::seq_lib::to_multiset_build(rest, e);
        if e.key(axis) == k {
            vstd::seq_lib::to_multiset_build(rest.filter(with_key(axis, k)), e);
        }
    }
}

/// Two sequences that hold, for every key, the same objects in the same
/// order hold the same objects altogether.
pub proof fn lemma_same_order_same_objects(out: Seq<Object>, inp: Seq<Object>, axis: int)
    requires
        keeps_order_of_equals(out, inp, axis),
    ensures
        out.to_multiset() == inp.to_multiset(),
        out.len() == inp.len(),
{
    broadcast use {vstd::seq_lib::group_to_multiset_ensures, vstd::multiset::group_multiset_axioms};

    assert forall|x: Object| out.to_multiset().count(x) == inp.to_multiset().count(x) by {
        let k = x.key(axis);
        lemma_filter_count(out, axis, k, x);
        lemma_filter_count(inp, axis, k, x);
        assert(out.filter(with_key(axis, k)) == inp.filter(with_key(axis, k)));
    }
    assert(out.to_multiset() =~= inp.to_multiset());
    assert(out.to_multiset().len() == out.len());
    assert(inp.to_multiset().len() == inp.len());
}

/// Two sorted sequences that hold, for every key, the same objects in the
/// same order are one and the same sequence.
proof fn lemma_sorted_and_same_order_is_equal(a: Seq<Object>, b: Seq<Object>, axis: int)
    requires
        sorted_on(a, axis),
        sorted_on(b, axis),
        keeps_order_of_equals(a, b, axis),
    ensures
        a == b,
    decreases a.len(),
{
    lemma_same_order_same_objects(a, b, axis);
    if a.len() == 0 {
        assert(a =~= b);
    } else {
        let x = a.last();
        let y = b.last();
        let ra = a.drop_last();
        let rb = b.drop_last();
        assert(a =~= ra.push(x));
        assert(b =~= rb.push(y));
        let kx = x.key(axis);
        let ky = y.key(axis);
        ra.lemma_filter_push(x, with_key(axis, kx));
        rb.lemma_filter_push(y, with_key(axis, ky));
        assert(a.filter(with_key(axis, kx)) == b.filter(with_key(axis, kx)));
        assert(a.filter(with_key(axis, ky)) == b.filter(with_key(axis, ky)));
        if kx > ky {
            assert forall|i: int| 0 <= i < b.len() implies b[i].key(axis) != kx by {
                assert(b[i].key(axis) <= b[b.len() - 1].key(axis));
            }
            lemma_filter_absent_key(b, axis, kx);
            assert(a.filter(with_key(axis, kx)).len() > 0);
        }
        if ky > kx {
            assert forall|i: int| 0 <= i < a.len() implies a[i].key(axis) != ky by {
                assert(a[i].key(axis) <= a[a.len() - 1].key(axis));
            }
            lemma_filter_absent_key(a, axis, ky);
            assert(b.filter(with_key(axis, ky)).len() > 0);
        }
        assert(kx == ky);
        let fa = ra.filter(with_key(axis, kx));
        let fb = rb.filter(with_key(axis, kx));
        assert(fa.push(x) == fb.push(y));
        assert(fa.push(x).last() == x);
        assert(fb.push(y).last() == y);
        assert(x == y);
        assert(fa =~= fa.push(x).drop_last());
        assert(fb =~= fb.push(y).drop_last());
        assert forall|k: int| #[trigger]
            ra.filter(with_key(axis, k)) == rb.filter(with_key(axis, k)) by {
            ra.lemma_filter_push(x, with_key(axis, k));
            rb.lemma_filter_push(y, with_key(axis, k));
            assert(a.filter(with_key(axis, k)) == b.filter(with_key(axis, k)));
        }
        assert forall|i: int, j: int| 0 <= i <= j < ra.len() implies ra[i].key(axis) <= ra[j].key(
            axis,
        ) by {
            assert(ra[i] == a[i] && ra[j] == a[j]);
        }
        assert forall|i: int, j: int| 0 <= i <= j < rb.len() implies rb[i].key(axis) <= rb[j].key(
            axis,
        ) by {
            assert(rb[i] == b[i] && rb[j] == b[j]);
        }
        lemma_sorted_and_same_order_is_equal(ra, rb, axis);
    }
}

/// Sorting has one result: any two sequences that are sorted along `axis`
/// and keep the objects of `inp` with equal keys in their order are equal.
pub proof fn lemma_sort_is_unique(a: Seq<Object>, b: Seq<Object>, inp: Seq<Object>, axis: int)
    requires
        sorted_on(a, axis),
        sorted_on(b, axis),
        keeps_order_of_equals(a, inp, axis),
        keeps_order_of_equals(b, inp, axis),
    ensures
        a == b,
{
    assert forall|k: int| #[trigger]
        a.filter(with_key(axis, k)) == b.filter(with_key(axis, k)) by {
        assert(a.filter(with_key(axis, k)) == inp.filter(with_key(axis, k)));
        assert(b.filter(with_key(axis, k)) == inp.filter(with_key(axis, k)));
    }
    lemma_sorted_and_same_order_is_equal(a, b, axis);
}

/// Merges two sorted runs; where keys are equal, what came from `a` goes first.
fn merge_runs(a: &Vec<Object>, b: &Vec<Object>, axis: usize) -> (out: Vec<Object>)
    requires
        axis < 3,
        sorted_on(a@, axis as int),
        sorted_on(b@, axis as int),
    ensures
        sorted_on(out@, axis as int),
        out@.to_multiset() == a@.to_multiset().add(b@.to_multiset()),
        out@.len() == a@.len() + b@.len(),
        forall|k: int| #[trigger]
            out@.filter(with_key(axis as int, k)) == a@.filter(with_key(axis as int, k)) + b@.filter(
                with_key(axis as int, k),
            ),
{
    broadcast use {vstd::seq_lib::group_to_multiset_ensures, vstd::multiset::group_multiset_axioms};

    let mut out: Vec<Object> = Vec::new();
    let mut i: usize = 0;
    let mut j: usize = 0;
    assert(a@.take(0) =~= Seq::<Object>::empty());
    assert(b@.take(0) =~= Seq::<Object>::empty());
    assert(out@.to_multiset() =~= a@.take(0).to_multiset().add(b@.take(0).to_multiset()));
    assert forall|k: int| #[trigger]
        out@.filter(with_key(axis as int, k)) == a@.take(0).filter(with_key(axis as int, k))
            + b@.take(0).filter(with_key(axis as int, k)) by {
        lemma_filter_absent_key(Seq::<Object>::empty(), axis as int, k);
        assert(out@ =~= Seq::<Object>::empty());
    }
    while i < a.len() || j < b.len()
        invariant
            axis < 3,
            i <= a.len(),
            j <= b.len(),
            sorted_on(a@, axis as int),
            sorted_on(b@, axis as int),
            sorted_on(out@, axis as int),
            out@.len() == i + j,
            out@.to_multiset() == a@.take(i as int).to_multiset().add(
                b@.take(j as int).to_multiset(),
            ),
            forall|k: int|
                0 <= k < out@.len() && i < a@.len() ==> out@[k].key(axis as int) <= a@[
                    i as int
                ].key(axis as int),
            forall|k: int|
                0 <= k < out@.len() && j < b@.len() ==> out@[k].key(axis as int) <= b@[
                    j as int
                ].key(axis as int),
            forall|k: int| #[trigger]
                out@.filter(with_key(axis as int, k)) == a@.take(i as int).filter(
                    with_key(axis as int, k),
                ) + b@.take(j as int).filter(with_key(axis as int, k)),
            forall|m: int|
                0 <= m < j && i < a@.len() ==> b@[m].key(axis as int) < a@[i as int].key(
                    axis as int,
                ),
        decreases a.len() - i + (b.len() - j),
    {
        let from_a: bool = if i == a.len() {
            false
        } else if j == b.len() {
            true
        } else {
            !(b[j].sort_key(axis) < a[i].sort_key(axis))
        };
        let ghost before = out@;
        let ghost ma = a@.take(i as int).to_multiset();
        let ghost mb = b@.take(j as int).to_multiset();
        if from_a {
            let x = a[i];
            out.push(x);
            proof {
                assert(a@.take(i + 1) =~= a@.take(i as int).push(x));
                vstd::seq_lib::to_multiset_build(before, x);
                vstd::seq_lib::to_multiset_build(a@.take(i as int), x);
                assert(ma.add(mb).insert(x) =~= ma.insert(x).add(mb));
                assert forall|k: int| #[trigger]
                    out@.filter(with_key(axis as int, k)) == a@.take(i + 1).filter(
                        with_key(axis as int, k),
                    ) + b@.take(j as int).filter(with_key(axis as int, k)) by {
                    let pick = with_key(axis as int, k);
                    before.lemma_filter_push(x, pick);
                    a@.take(i as int).lemma_filter_push(x, pick);
                    assert(before.filter(pick) == a@.take(i as int).filter(pick) + b@.take(
                        j as int,
                    ).filter(pick));
                    if pick(x) {
                        lemma_filter_absent_key(b@.take(j as int), axis as int, k);
                        assert(a@.take(i as int).filter(pick).push(x) + Seq::<Object>::empty()
                            =~= (a@.take(i as int).filter(pick) + Seq::<Object>::empty()).push(
                            x,
                        ));
                    }
                }
            }
            i = i + 1;
        } else {
            let y = b[j];
            out.push(y);
            proof {
                assert(b@.take(j + 1) =~= b@.take(j as int).push(y));
                vstd::seq_lib::to_multiset_build(before, y);
                vstd::seq_lib::to_multiset_build(b@.take(j as int), y);
                assert(ma.add(mb).insert(y) =~= ma.add(mb.insert(y)));
                assert forall|k: int| #[trigger]
                    out@.filter(with_key(axis as int, k)) == a@.take(i as int).filter(
                        with_key(axis as int, k),
                    ) + b@.take(j + 1).filter(with_key(axis as int, k)) by {
                    let pick = with_key(axis as int, k);
                    before.lemma_filter_push(y, pick);
                    b@.take(j as int).lemma_filter_push(y, pick);
                    assert(before.filter(pick) == a@.take(i as int).filter(pick) + b@.take(
                        j as int,
                    ).filter(pick));
                    if pick(y) {
                        assert(a@.take(i as int).filter(pick) + b@.take(j as int).filter(
                            pick,
                        ).push(y) =~= (a@.take(i as int).filter(pick) + b@.take(
                            j as int,
                        ).filter(pick)).push(y));
                    }
                }
            }
            j = j + 1;
        }
    }
    assert(a@.take(i as int) =~= a@);
    assert(b@.take(j as int) =~= b@);
    out
}

/// Sorts `objects` by their key along `axis`, least first.
pub fn sort_on_axis(objects: Vec<Object>, axis: usize) -> (out: Vec<Object>)
    requires
        axis < 3,
    ensures
        sorted_on(out@, axis as int),
        out@.to_multiset() == objects@.to_multiset(),
        out@.len() == objects@.len(),
        keeps_order_of_equals(out@, objects@, axis as int),
    decreases objects@.len(),
{
    broadcast use {vstd::seq_lib::group_to_multiset_ensures, vstd::multiset::group_multiset_axioms};

    let n = objects.len();
    if n <= 1 {
        return objects;
    }
    let mut left = objects;
    let ghost whole = left@;
    let right = left.split_off(n / 2);
    proof {
        assert(whole =~= left@ + right@);
        vstd::seq_lib::lemma_multiset_commutative(left@, right@);
    }
    let left_sorted = sort_on_axis(left, axis);
    let right_sorted = sort_on_axis(right, axis);
    let out = merge_runs(&left_sorted, &right_sorted, axis);
    proof {
        assert forall|k: int| #[trigger]
            out@.filter(with_key(axis as int, k)) == whole.filter(with_key(axis as int, k)) by {
            let pick = with_key(axis as int, k);
            Seq::filter_distributes_over_add(left@, right@, pick);
            assert(left_sorted@.filter(pick) == left@.filter(pick));
            assert(right_sorted@.filter(pick) == right@.filter(pick));
        }
    }
    out
}

} // verus!
