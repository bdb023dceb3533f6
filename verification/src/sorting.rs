//! Stable sorting of registry entries by a key, the order in which each
//! registry keeps its entries.

use vstd::prelude::*;

verus! {

broadcast use vstd::seq_lib::group_to_multiset_ensures;

/// Values that a registry orders by a key, compared by a total preorder.
pub trait SortKey: Sized {
    /// `a`'s key comes before `b`'s, or they are equal.
    spec fn key_le(a: Self, b: Self) -> bool;

    /// The order on keys is total and transitive.
    proof fn lemma_key_le(a: Self, b: Self, c: Self)
        ensures
            Self::key_le(a, b) || Self::key_le(b, a),
            Self::key_le(a, b) && Self::key_le(b, c) ==> Self::key_le(a, c),
    ;

    /// Compares the keys of `self` and `other`.
    fn key_le_exec(&self, other: &Self) -> (r: bool)
        ensures
            r == Self::key_le(*self, *other),
    ;
}

/// `s` is in key order.
pub open spec fn key_sorted<T: SortKey>(s: Seq<T>) -> bool {
    forall|i: int, j: int| 0 <= i < j < s.len() ==> T::key_le(#[trigger] s[i], #[trigger] s[j])
}

/// `x` inserted into `s` after every element whose key is not greater than
/// its own, counting from the end.
pub open spec fn insert_by_key<T: SortKey>(s: Seq<T>, x: T) -> Seq<T>
    decreases s.len(),
{
    if s.len() == 0 {
        seq![x]
    } else if T::key_le(s.last(), x) {
        s.push(x)
    } else {
        insert_by_key(s.drop_last(), x).push(s.last())
    }
}

/// `s` stably sorted by key: elements with equal keys keep their order.
pub open spec fn sort_by_key_spec<T: SortKey>(s: Seq<T>) -> Seq<T>
    decreases s.len(),
{
    if s.len() == 0 {
        s
    } else {
        insert_by_key(sort_by_key_spec(s.drop_last()), s.last())
    }
}

proof fn lemma_insert_by_key<T: SortKey>(s: Seq<T>, x: T)
    requires
        key_sorted(s),
    ensures
        key_sorted(insert_by_key(s, x)),
        insert_by_key(s, x).to_multiset() =~= s.to_multiset().insert(x),
        insert_by_key(s, x).len() == s.len() + 1,
    decreases s.len(),
{
    if s.len() == 0 {
        assert(seq![x] =~= Seq::<T>::empty().push(x));
    } else if T::key_le(s.last(), x) {
        assert forall|i: int, j: int| 0 <= i < j < s.len() + 1 implies T::key_le(
            #[trigger] s.push(x)[i],
            #[trigger] s.push(x)[j],
        ) by {
            if j == s.len() {
                if i < s.len() - 1 {
                    assert(T::key_le(s[i], s[s.len() - 1]));
                    T::lemma_key_le(s[i], s.last(), x);
                }
            } else {
                assert(T::key_le(s[i], s[j]));
            }
        }
    } else {
        let d = s.drop_last();
        assert(key_sorted(d)) by {
            assert forall|i: int, j: int| 0 <= i < j < d.len() implies T::key_le(
                #[trigger] d[i],
                #[trigger] d[j],
            ) by {
                assert(T::key_le(s[i], s[j]));
            }
        }
        lemma_insert_by_key(d, x);
        let r = insert_by_key(d, x);
        T::lemma_key_le(s.last(), x, x);
        assert forall|k: int| 0 <= k < r.len() implies T::key_le(#[trigger] r[k], s.last()) by {
            assert(r.to_multiset().count(r[k]) > 0);
            if r[k] != x {
                assert(d.to_multiset().count(r[k]) > 0);
                assert(d.contains(r[k]));
                let m = choose|m: int| 0 <= m < d.len() && d[m] == r[k];
                assert(T::key_le(s[m], s[s.len() - 1]));
            }
        }
        assert forall|i: int, j: int| 0 <= i < j < r.len() + 1 implies T::key_le(
            #[trigger] r.push(s.last())[i],
            #[trigger] r.push(s.last())[j],
        ) by {
            if j == r.len() {
                assert(T::key_le(r[i], s.last()));
            } else {
                assert(T::key_le(r[i], r[j]));
            }
        }
        assert(s =~= d.push(s.last()));
    }
}

/// Law: the stable sort yields its input in key order, with the same elements.
pub proof fn lemma_sort_by_key<T: SortKey>(s: Seq<T>)
    ensures
        key_sorted(sort_by_key_spec(s)),
        sort_by_key_spec(s).to_multiset() =~= s.to_multiset(),
        sort_by_key_spec(s).len() == s.len(),
    decreases s.len(),
{
    if s.len() > 0 {
        lemma_sort_by_key(s.drop_last());
        lemma_insert_by_key(sort_by_key_spec(s.drop_last()), s.last());
        assert(s =~= s.drop_last().push(s.last()));
    }
}

/// No two different values of `s` share a key.
pub open spec fn keys_identify<T: SortKey>(s: Seq<T>) -> bool {
    forall|v: T, w: T|
        #![trigger s.contains(v), s.contains(w)]
        s.contains(v) && s.contains(w) && T::key_le(v, w) && T::key_le(w, v) ==> v == w
}

/// Two sequences in key order that hold the same values, no two of which
/// share a key, are equal.
proof fn lemma_sorted_unique<T: SortKey>(x: Seq<T>, y: Seq<T>)
    requires
        key_sorted(x),
        key_sorted(y),
        x.to_multiset() =~= y.to_multiset(),
        keys_identify(x),
    ensures
        x == y,
    decreases x.len(),
{
    assert(x.to_multiset().len() == y.to_multiset().len());
    assert(x.len() == y.len());
    if x.len() == 0 {
        assert(x =~= y);
    } else {
        assert(x.to_multiset().count(y[0]) > 0);
        assert(y.to_multiset().count(x[0]) > 0);
        assert(x.contains(y[0]));
        assert(y.contains(x[0]));
        T::lemma_key_le(x[0], x[0], x[0]);
        T::lemma_key_le(y[0], y[0], y[0]);
        let j = choose|j: int| 0 <= j < x.len() && x[j] == y[0];
        let k = choose|k: int| 0 <= k < y.len() && y[k] == x[0];
        if j > 0 {
            assert(T::key_le(x[0], x[j]));
        }
        if k > 0 {
            assert(T::key_le(y[0], y[k]));
        }
        assert(x.contains(x[0]));
        assert(x[0] == y[0]);
        let xs = x.drop_first();
        let ys = y.drop_first();
        assert(xs =~= x.remove(0));
        assert(ys =~= y.remove(0));
        assert(xs.to_multiset() =~= ys.to_multiset());
        assert(key_sorted(xs)) by {
            assert forall|a: int, b: int| 0 <= a < b < xs.len() implies T::key_le(
                #[trigger] xs[a],
                #[trigger] xs[b],
            ) by {
                assert(T::key_le(x[a + 1], x[b + 1]));
            }
        }
        assert(key_sorted(ys)) by {
            assert forall|a: int, b: int| 0 <= a < b < ys.len() implies T::key_le(
                #[trigger] ys[a],
                #[trigger] ys[b],
            ) by {
                assert(T::key_le(y[a + 1], y[b + 1]));
            }
        }
        assert(keys_identify(xs)) by {
            assert forall|v: T, w: T|
                xs.contains(v) && xs.contains(w) && T::key_le(v, w) && T::key_le(
                    w,
                    v,
                ) implies v == w by {
                let a = choose|a: int| 0 <= a < xs.len() && xs[a] == v;
                let b = choose|b: int| 0 <= b < xs.len() && xs[b] == w;
                assert(x[a + 1] == v && x.contains(v));
                assert(x[b + 1] == w && x.contains(w));
            }
        }
        lemma_sorted_unique(xs, ys);
        assert(x =~= y) by {
            assert forall|i: int| 0 <= i < x.len() implies x[i] == y[i] by {
                if i > 0 {
                    assert(x[i] == xs[i - 1] && y[i] == ys[i - 1]);
                }
            }
        }
    }
}

/// Law: where no two different entries share a key, the sorted order does
/// not depend on the order of the input: inputs holding the same entries
/// sort to the same sequence.
pub proof fn lemma_sort_order_independent<T: SortKey>(a: Seq<T>, b: Seq<T>)
    requires
        a.to_multiset() =~= b.to_multiset(),
        keys_identify(a),
    ensures
        sort_by_key_spec(a) == sort_by_key_spec(b),
{
    lemma_sort_by_key(a);
    lemma_sort_by_key(b);
    let sa = sort_by_key_spec(a);
    assert(keys_identify(sa)) by {
        assert forall|v: T, w: T|
            sa.contains(v) && sa.contains(w) && T::key_le(v, w) && T::key_le(w, v) implies v
            == w by {
            assert(sa.to_multiset().count(v) > 0);
            assert(sa.to_multiset().count(w) > 0);
            assert(a.contains(v) && a.contains(w));
        }
    }
    lemma_sorted_unique(sa, sort_by_key_spec(b));
}

/// The test that a value has the same key as `x`.
pub open spec fn same_key_as<T: SortKey>(x: T) -> spec_fn(T) -> bool {
    |y: T| T::key_le(y, x) && T::key_le(x, y)
}

proof fn lemma_insert_keeps_key_order<T: SortKey>(t: Seq<T>, e: T, x: T)
    ensures
        insert_by_key(t, e).filter(same_key_as(x)) == if same_key_as(x)(e) {
            t.filter(same_key_as(x)).push(e)
        } else {
            t.filter(same_key_as(x))
        },
    decreases t.len(),
{
    let p = same_key_as(x);
    reveal_with_fuel(Seq::filter, 1);
    if t.len() == 0 {
        assert(seq![e].drop_last() =~= t);
    } else if T::key_le(t.last(), e) {
        assert(t.push(e).drop_last() =~= t);
    } else {
        let d = t.drop_last();
        lemma_insert_keeps_key_order(d, e, x);
        let r = insert_by_key(d, e);
        assert(r.push(t.last()).drop_last() =~= r);
        assert(t =~= d.push(t.last()));
        if p(e) && p(t.last()) {
            T::lemma_key_le(t.last(), x, e);
        }
    }
}

/// Law: the sort is stable: for every key, the entries with that key come
/// out in the order they went in.
pub proof fn lemma_sort_by_key_stable<T: SortKey>(s: Seq<T>, x: T)
    ensures
        sort_by_key_spec(s).filter(same_key_as(x)) == s.filter(same_key_as(x)),
    decreases s.len(),
{
    reveal_with_fuel(Seq::filter, 1);
    if s.len() > 0 {
        lemma_sort_by_key_stable(s.drop_last(), x);
        lemma_insert_keeps_key_order(sort_by_key_spec(s.drop_last()), s.last(), x);
    }
}

/// No two entries of `s` at different positions share a key.
pub open spec fn keys_distinct<T: SortKey>(s: Seq<T>) -> bool {
    forall|i: int, j: int|
        0 <= i < j < s.len() ==> !(T::key_le(#[trigger] s[i], #[trigger] s[j]) && T::key_le(
            s[j],
            s[i],
        ))
}

/// `s` is in strictly increasing key order.
pub open spec fn key_strictly_sorted<T: SortKey>(s: Seq<T>) -> bool {
    forall|i: int, j: int|
        0 <= i < j < s.len() ==> T::key_le(#[trigger] s[i], #[trigger] s[j]) && !T::key_le(
            s[j],
            s[i],
        )
}

proof fn lemma_insert_strict<T: SortKey>(t: Seq<T>, x: T)
    requires
        key_strictly_sorted(t),
        forall|k: int| 0 <= k < t.len() ==> !(T::key_le(#[trigger] t[k], x) && T::key_le(x, t[k])),
    ensures
        key_strictly_sorted(insert_by_key(t, x)),
    decreases t.len(),
{
    assert(key_sorted(t));
    lemma_insert_by_key(t, x);
    if t.len() == 0 {
    } else if T::key_le(t.last(), x) {
        let r = t.push(x);
        assert forall|i: int, j: int| 0 <= i < j < r.len() implies T::key_le(
            #[trigger] r[i],
            #[trigger] r[j],
        ) && !T::key_le(r[j], r[i]) by {
            if j == t.len() {
                if i < t.len() - 1 {
                    T::lemma_key_le(t[i], t.last(), x);
                }
                assert(T::key_le(t[i], x));
            }
        }
    } else {
        let d = t.drop_last();
        lemma_insert_strict(d, x);
        let r = insert_by_key(d, x);
        lemma_insert_by_key(d, x);
        T::lemma_key_le(t.last(), x, x);
        assert forall|k: int| 0 <= k < r.len() implies T::key_le(#[trigger] r[k], t.last())
            && !T::key_le(t.last(), r[k]) by {
            assert(r.to_multiset().count(r[k]) > 0);
            if r[k] != x {
                assert(d.to_multiset().count(r[k]) > 0);
                assert(d.contains(r[k]));
                let m = choose|m: int| 0 <= m < d.len() && d[m] == r[k];
                assert(T::key_le(t[m], t[t.len() - 1]) && !T::key_le(t[t.len() - 1], t[m]));
            }
        }
        let q = r.push(t.last());
        assert forall|i: int, j: int| 0 <= i < j < q.len() implies T::key_le(
            #[trigger] q[i],
            #[trigger] q[j],
        ) && !T::key_le(q[j], q[i]) by {
            if j == r.len() {
                assert(T::key_le(r[i], t.last()));
            }
        }
    }
}

/// Law: where no two entries share a key, the sorted entries come out in
/// strictly increasing key order.
pub proof fn lemma_sort_by_key_strict<T: SortKey>(s: Seq<T>)
    requires
        keys_distinct(s),
    ensures
        key_strictly_sorted(sort_by_key_spec(s)),
    decreases s.len(),
{
    if s.len() > 0 {
        let d = s.drop_last();
        assert(keys_distinct(d)) by {
            assert forall|i: int, j: int| 0 <= i < j < d.len() implies !(T::key_le(
                #[trigger] d[i],
                #[trigger] d[j],
            ) && T::key_le(d[j], d[i])) by {
                assert(d[i] == s[i] && d[j] == s[j]);
            }
        }
        lemma_sort_by_key_strict(d);
        lemma_sort_by_key(d);
        let t = sort_by_key_spec(d);
        assert forall|k: int| 0 <= k < t.len() implies !(T::key_le(#[trigger] t[k], s.last())
            && T::key_le(s.last(), t[k])) by {
            assert(t.to_multiset().count(t[k]) > 0);
            assert(d.contains(t[k]));
            let m = choose|m: int| 0 <= m < d.len() && d[m] == t[k];
            assert(s[m] == t[k]);
            assert(!(T::key_le(s[m], s[s.len() - 1]) && T::key_le(s[s.len() - 1], s[m])));
        }
        lemma_insert_strict(t, s.last());
    }
}

/// Mapping two sequences that hold the same elements gives two sequences
/// that hold the same elements.
pub proof fn lemma_map_same_elements<A, B>(a: Seq<A>, b: Seq<A>, f: spec_fn(A) -> B)
    requires
        a.to_multiset() =~= b.to_multiset(),
    ensures
        a.map_values(f).to_multiset() =~= b.map_values(f).to_multiset(),
    decreases a.len(),
{
    assert(a.to_multiset().len() == b.to_multiset().len());
    if a.len() == 0 {
        assert(a.map_values(f) =~= b.map_values(f));
    } else {
        let x = a.last();
        let a2 = a.drop_last();
        assert(a =~= a2.push(x));
        assert(a.to_multiset() =~= a2.to_multiset().insert(x));
        assert(b.to_multiset().count(x) > 0);
        assert(b.contains(x));
        let j = choose|j: int| 0 <= j < b.len() && b[j] == x;
        let b2 = b.remove(j);
        assert(b2.to_multiset() =~= b.to_multiset().remove(x));
        assert(a2.to_multiset() =~= b2.to_multiset());
        lemma_map_same_elements(a2, b2, f);
        let fa = a.map_values(f);
        let fb = b.map_values(f);
        assert(fa =~= a2.map_values(f).push(f(x)));
        assert(fa.to_multiset() =~= a2.map_values(f).to_multiset().insert(f(x)));
        assert(fb.remove(j) =~= b2.map_values(f));
        assert(fb[j] == f(x));
        assert(b2.map_values(f).to_multiset() =~= fb.to_multiset().remove(f(x)));
        assert(fb.to_multiset().count(f(x)) > 0) by {
            assert(fb.contains(f(x)));
        }
        assert(fb.to_multiset() =~= fb.to_multiset().remove(f(x)).insert(f(x)));
    }
}

/// Sorts `v` stably by key.
pub fn sort_by_key<T: SortKey>(v: Vec<T>) -> (r: Vec<T>)
    ensures
        r@ == sort_by_key_spec(v@),
{
    let mut out: Vec<T> = Vec::new();
    for x in it: v
        invariant
            out@ == sort_by_key_spec(it.seq().take(it.index() as int)),
    {
        let ghost done = it.seq().take(it.index() as int);
        let mut j = out.len();
        assert(out@.take(j as int) =~= out@);
        assert(insert_by_key(out@, x) =~= insert_by_key(out@, x) + out@.skip(j as int));
        while j > 0 && !out[j - 1].key_le_exec(&x)
            invariant
                j <= out@.len(),
                insert_by_key(out@, x) == insert_by_key(out@.take(j as int), x) + out@.skip(
                    j as int,
                ),
            decreases j,
        {
            let ghost t = out@.take(j as int);
            assert(t.drop_last() =~= out@.take(j - 1));
            assert(t.last() == out@[j - 1]);
            assert(insert_by_key(t, x) == insert_by_key(out@.take(j - 1), x).push(out@[j - 1]));
            assert(out@.skip(j - 1) =~= seq![out@[j - 1]] + out@.skip(j as int));
            assert(insert_by_key(out@.take(j - 1), x).push(out@[j - 1]) + out@.skip(j as int)
                =~= insert_by_key(out@.take(j - 1), x) + out@.skip(j - 1));
            j = j - 1;
        }
        let ghost before = out@;
        proof {
            let t = before.take(j as int);
            if j == 0 {
                assert(t =~= Seq::<T>::empty());
                assert(insert_by_key(t, x) == seq![x]);
            } else {
                assert(t.last() == before[j - 1]);
                assert(insert_by_key(t, x) == t.push(x));
            }
            assert(insert_by_key(t, x) + before.skip(j as int) =~= before.insert(j as int, x));
        }
        out.insert(j, x);
        proof {
            assert(done.push(x) =~= it.seq().take(it.index() + 1));
            assert(done.push(x).drop_last() =~= done);
        }
    }
    proof {
        assert(v@.take(v@.len() as int) =~= v@);
    }
    out
}

} // verus!
