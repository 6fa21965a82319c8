//! Orderings and sorts with exact specifications: strictly increasing unique
//! text lists, and a stable sort by a total preorder.
use vstd::prelude::*;
use crate::text::{
    chars_eq, chars_lt, chars_to_strings, lemma_seq_lt_transitive, lemma_seq_lt_trichotomy, seq_lt,
    strings_to_chars,
};

verus! {

broadcast use vstd::seq_lib::group_seq_properties, vstd::seq_lib::group_filter_ensures, crate::views::lemma_char_vec_deep_view;

/// Every element sorts strictly before the next ones.
pub open spec fn strictly_sorted(s: Seq<Seq<char>>) -> bool {
    forall|i: int, j: int| 0 <= i < j < s.len() ==> seq_lt(#[trigger] s[i], #[trigger] s[j])
}

/// Inserts `x` at position `i`.
fn insert_line(v: &mut Vec<Vec<char>>, i: usize, x: Vec<char>)
    requires
        i <= old(v).len(),
    ensures
        final(v).deep_view() == old(v).deep_view().insert(i as int, x@),
{
    let ghost old_dv = v.deep_view();
    let ghost xv = x@;
    v.insert(i, x);
    assert(v.deep_view() =~= old_dv.insert(i as int, xv)) by {
        assert forall|k: int| 0 <= k < v.len() implies v.deep_view()[k] == old_dv.insert(
            i as int,
            xv,
        )[k] by {
            if k < i {
            } else if k == i {
            } else {
            }
        }
    }
}

/// The distinct texts of `v` in increasing order (`sort` then `dedup`).
pub fn sort_dedup_chars(v: &Vec<Vec<char>>) -> (r: Vec<Vec<char>>)
    ensures
        strictly_sorted(r.deep_view()),
        r.deep_view().to_set() == v.deep_view().to_set(),
{
    let mut out: Vec<Vec<char>> = Vec::new();
    let mut i: usize = 0;
    while i < v.len()
        invariant
            i <= v.len(),
            strictly_sorted(out.deep_view()),
            out.deep_view().to_set() == v.deep_view().take(i as int).to_set(),
        decreases v.len() - i,
    {
        let x = &v[i];
        let ghost xv = x@;
        let ghost od = out.deep_view();
        let mut j: usize = 0;
        while j < out.len()
            invariant
                j <= out.len(),
                od == out.deep_view(),
                xv == x@,
                forall|k: int| 0 <= k < j ==> seq_lt(#[trigger] od[k], xv),
            ensures
                j < out.len() ==> !seq_lt(od[j as int], xv),
                j <= out.len(),
                forall|k: int| 0 <= k < j ==> seq_lt(#[trigger] od[k], xv),
            decreases out.len() - j,
        {
            assert(od[j as int] == out@[j as int].deep_view());
            if !chars_lt(&out[j], x) {
                break;
            }
            j += 1;
        }
        proof {
            if j < out.len() {
                assert(od[j as int] == out@[j as int].deep_view());
            }
        }
        assert(v.deep_view().take(i + 1) =~= v.deep_view().take(i as int).push(xv));
        if j < out.len() && chars_eq(&out[j], x) {
            assert(od.to_set().insert(xv) =~= od.to_set());
        } else {
            proof {
                if j < od.len() {
                    lemma_seq_lt_trichotomy(od[j as int], xv);
                    assert(seq_lt(xv, od[j as int]));
                    assert forall|k: int| j < k < od.len() implies seq_lt(xv, #[trigger] od[k]) by {
                        lemma_seq_lt_transitive(xv, od[j as int], od[k]);
                    }
                }
                assert forall|a: int, b: int|
                    0 <= a < b < od.len() + 1 implies seq_lt(
                    #[trigger] od.insert(j as int, xv)[a],
                    #[trigger] od.insert(j as int, xv)[b],
                ) by {
                    let s2 = od.insert(j as int, xv);
                    if a < j && b == j {
                    } else if a == j && b > j {
                        assert(seq_lt(xv, od[b - 1]));
                    } else if a < j && b > j {
                        assert(seq_lt(xv, od[b - 1]));
                        lemma_seq_lt_transitive(od[a], xv, od[b - 1]);
                        assert(seq_lt(od[a], od[b - 1]));
                    } else if b < j {
                    } else {
                        assert(a > j);
                        assert(seq_lt(od[a - 1], od[b - 1]));
                    }
                }
                assert(od.insert(j as int, xv).to_set() =~= od.to_set().insert(xv)) by {
                    let s2 = od.insert(j as int, xv);
                    assert forall|y: Seq<char>| s2.to_set().contains(y) <==> od.to_set().insert(
                        xv,
                    ).contains(y) by {
                        if s2.contains(y) {
                            let k = choose|k: int| 0 <= k < s2.len() && s2[k] == y;
                            if k < j {
                                assert(od[k] == y);
                            } else if k > j {
                                assert(od[k - 1] == y);
                            }
                        }
                        if od.contains(y) {
                            let k = choose|k: int| 0 <= k < od.len() && od[k] == y;
                            if k < j {
                                assert(s2[k] == y);
                            } else {
                                assert(s2[k + 1] == y);
                            }
                        }
                        if y == xv {
                            assert(s2[j as int] == y);
                        }
                    }
                }
            }
            insert_line(&mut out, j, x.clone());
        }
        i += 1;
    }
    assert(v.deep_view().take(v.len() as int) =~= v.deep_view());
    out
}

/// The distinct strings of `v` in increasing order.
pub fn sort_dedup_strings(v: &Vec<String>) -> (r: Vec<String>)
    ensures
        strictly_sorted(r.deep_view()),
        r.deep_view().to_set() == v.deep_view().to_set(),
{
    let c = strings_to_chars(v);
    let s = sort_dedup_chars(&c);
    chars_to_strings(&s)
}

} // verus!

verus! {

/// A total preorder used to sort values stably.
pub trait SortKey: Sized {
    /// `self` may come before `other`.
    spec fn key_le(&self, other: &Self) -> bool;

    fn key_le_exec(&self, other: &Self) -> (r: bool)
        ensures
            r == self.key_le(other),
    ;

    proof fn lemma_key_total(a: &Self, b: &Self)
        ensures
            a.key_le(b) || b.key_le(a),
    ;

    proof fn lemma_key_trans(a: &Self, b: &Self, c: &Self)
        requires
            a.key_le(b),
            b.key_le(c),
        ensures
            a.key_le(c),
    ;
}

/// `a` and `b` have equal keys.
pub open spec fn same_key<T: SortKey>(a: T, b: T) -> bool {
    a.key_le(&b) && b.key_le(&a)
}

/// The values of `s` whose key equals that of `x`, in order.
pub open spec fn key_class<T: SortKey>(s: Seq<T>, x: T) -> Seq<T> {
    s.filter(|y: T| same_key(x, y))
}

pub open spec fn sorted_by_key<T: SortKey>(s: Seq<T>) -> bool {
    forall|i: int, j: int| #![trigger s[i], s[j]] 0 <= i < j < s.len() ==> s[i].key_le(&s[j])
}

/// `r` is `s` stably sorted: ordered by key, and for each key the values that
/// carry it in the order in which `s` holds them.
pub open spec fn stable_sort_of<T: SortKey>(r: Seq<T>, s: Seq<T>) -> bool {
    &&& sorted_by_key(r)
    &&& forall|x: T| #[trigger] key_class(r, x) == key_class(s, x)
}

proof fn lemma_filter_one<T>(e: T, p: spec_fn(T) -> bool)
    ensures
        seq![e].filter(p) == (if p(e) {
            seq![e]
        } else {
            Seq::<T>::empty()
        }),
{
    reveal_with_fuel(Seq::filter, 2);
    assert(seq![e].drop_last() =~= Seq::<T>::empty());
}

/// `v` stably sorted by key.
pub fn stable_sort<T: SortKey>(v: Vec<T>) -> (r: Vec<T>)
    ensures
        stable_sort_of(r@, v@),
{
    let ghost orig = v@;
    let mut rest = v;
    let mut out: Vec<T> = Vec::new();
    let ghost mut i: int = 0;
    while rest.len() > 0
        invariant
            0 <= i <= orig.len(),
            rest@ == orig.skip(i),
            stable_sort_of(out@, orig.take(i)),
        decreases rest.len(),
    {
        let e = rest.remove(0);
        assert(e == orig[i]);
        let mut p: usize = 0;
        while p < out.len()
            invariant
                p <= out.len(),
                forall|k: int| 0 <= k < p ==> (#[trigger] out@[k]).key_le(&e),
            ensures
                p <= out.len(),
                p < out.len() ==> !out@[p as int].key_le(&e),
                forall|k: int| 0 <= k < p ==> (#[trigger] out@[k]).key_le(&e),
            decreases out.len() - p,
        {
            if !out[p].key_le_exec(&e) {
                break;
            }
            p += 1;
        }
        let ghost o = out@;
        proof {
            if p < o.len() {
                T::lemma_key_total(&o[p as int], &e);
                assert forall|k: int| p <= k < o.len() implies e.key_le(&o[k]) && !o[k].key_le(
                    &e,
                ) by {
                    if k > p {
                        T::lemma_key_trans(&e, &o[p as int], &o[k]);
                        if o[k].key_le(&e) {
                            T::lemma_key_trans(&o[p as int], &o[k], &e);
                        }
                    }
                }
            }
        }
        out.insert(p, e);
        proof {
            let n = o.insert(p as int, e);
            assert(out@ == n);
            assert forall|a: int, b: int| #![trigger n[a], n[b]] 0 <= a < b < n.len() implies n[a].key_le(
                &n[b],
            ) by {
                if a < p && b == p {
                } else if a == p {
                } else if a < p && b > p {
                    T::lemma_key_trans(&o[a], &e, &o[b - 1]);
                } else if b < p {
                } else {
                    assert(o[a - 1].key_le(&o[b - 1]));
                }
            }
            let pre = orig.take(i);
            let post = orig.take(i + 1);
            assert(post =~= pre.push(e));
            assert(n =~= o.take(p as int) + seq![e] + o.skip(p as int));
            assert(o =~= o.take(p as int) + o.skip(p as int));
            assert forall|x: T| #[trigger] key_class(n, x) == key_class(post, x) by {
                assert(key_class(o, x) == key_class(pre, x));
                let f = |y: T| same_key(x, y);
                let lo = o.take(p as int);
                let hi = o.skip(p as int);
                Seq::filter_distributes_over_add(lo + seq![e], hi, f);
                Seq::filter_distributes_over_add(lo, seq![e], f);
                Seq::filter_distributes_over_add(lo, hi, f);
                Seq::filter_distributes_over_add(pre, seq![e], f);
                lemma_filter_one(e, f);
                assert(post =~= pre + seq![e]);
                if same_key(x, e) {
                    assert(hi.filter(f) =~= Seq::<T>::empty()) by {
                        if hi.filter(f).len() > 0 {
                            let y = hi.filter(f)[0];
                            assert(hi.filter(f).contains(y));
                            hi.lemma_filter_contains_rev(f, y);
                            assert(f(y));
                            let k = choose|k: int| 0 <= k < hi.len() && hi[k] == y;
                            assert(o[p + k] == y);
                            assert(same_key(x, y));
                            T::lemma_key_trans(&y, &x, &e);
                        }
                    }
                }
            }
            i = i + 1;
        }
        assert(rest@ =~= orig.skip(i));
    }
    assert(orig.take(i) =~= orig);
    out
}

/// A stable sort keeps exactly the values it was given.
pub proof fn lemma_stable_sort_contains<T: SortKey>(r: Seq<T>, s: Seq<T>, y: T)
    requires
        stable_sort_of(r, s),
    ensures
        r.contains(y) <==> s.contains(y),
{
    T::lemma_key_total(&y, &y);
    let f = |z: T| same_key(y, z);
    assert(key_class(r, y) == key_class(s, y));
    if r.contains(y) {
        let i = choose|i: int| 0 <= i < r.len() && r[i] == y;
        r.lemma_filter_contains(f, i);
        assert(key_class(s, y).contains(y));
        s.lemma_filter_contains_rev(f, y);
    }
    if s.contains(y) {
        let i = choose|i: int| 0 <= i < s.len() && s[i] == y;
        s.lemma_filter_contains(f, i);
        assert(key_class(r, y).contains(y));
        r.lemma_filter_contains_rev(f, y);
    }
}

/// Filtering by a conjunction is filtering by one part, then the other.
pub proof fn lemma_filter_and<A>(s: Seq<A>, p: spec_fn(A) -> bool, q: spec_fn(A) -> bool, r: spec_fn(A) -> bool)
    requires
        forall|x: A| #[trigger] r(x) == (p(x) && q(x)),
    ensures
        s.filter(r) == s.filter(p).filter(q),
    decreases s.len(),
{
    if s.len() == 0 {
        assert(s.filter(r) =~= Seq::<A>::empty());
        assert(s.filter(p) =~= Seq::<A>::empty());
        assert(s.filter(p).filter(q) =~= Seq::<A>::empty());
    } else {
        let t = s.drop_last();
        let e = s.last();
        lemma_filter_and(t, p, q, r);
        assert(s =~= t.push(e));
        t.lemma_filter_push(e, r);
        t.lemma_filter_push(e, p);
        if p(e) {
            t.filter(p).lemma_filter_push(e, q);
        }
    }
}

proof fn lemma_key_refl<T: SortKey>(x: T)
    ensures
        same_key(x, x),
{
    T::lemma_key_total(&x, &x);
}

/// The key class of `s.push(e)`.
proof fn lemma_key_class_push<T: SortKey>(s: Seq<T>, e: T, x: T)
    ensures
        key_class(s.push(e), x) == if same_key(x, e) {
            key_class(s, x).push(e)
        } else {
            key_class(s, x)
        },
{
    let f = |y: T| same_key(x, y);
    s.lemma_filter_push(e, f);
}

proof fn lemma_classes_contain<T: SortKey>(r: Seq<T>, t: Seq<T>, y: T)
    requires
        forall|x: T| #[trigger] key_class(r, x) == key_class(t, x),
        r.contains(y),
    ensures
        t.contains(y),
{
    lemma_key_refl(y);
    let f = |z: T| same_key(y, z);
    let i = choose|i: int| 0 <= i < r.len() && r[i] == y;
    r.lemma_filter_contains(f, i);
    assert(key_class(r, y).contains(y));
    assert(key_class(t, y) == key_class(r, y));
    t.lemma_filter_contains_rev(f, y);
}

/// Two sequences ordered by key with the same values under each key are
/// equal.
pub proof fn lemma_sorted_classes_unique<T: SortKey>(r1: Seq<T>, r2: Seq<T>)
    requires
        sorted_by_key(r1),
        sorted_by_key(r2),
        forall|x: T| #[trigger] key_class(r1, x) == key_class(r2, x),
    ensures
        r1 == r2,
    decreases r1.len(),
{
    if r1.len() == 0 {
        if r2.len() > 0 {
            let y = r2[0];
            lemma_key_refl(y);
            let f = |z: T| same_key(y, z);
            r2.lemma_filter_contains(f, 0);
            assert(key_class(r2, y).contains(y));
            assert(key_class(r1, y) =~= Seq::<T>::empty()) by {
                reveal_with_fuel(Seq::filter, 1);
            }
        }
        assert(r1 =~= r2);
    } else if r2.len() == 0 {
        let y = r1[0];
        lemma_key_refl(y);
        let f = |z: T| same_key(y, z);
        r1.lemma_filter_contains(f, 0);
        assert(key_class(r1, y).contains(y));
        assert(key_class(r2, y) =~= Seq::<T>::empty()) by {
            reveal_with_fuel(Seq::filter, 1);
        }
    } else {
        let m1 = r1.last();
        let m2 = r2.last();
        let a = r1.drop_last();
        let b = r2.drop_last();
        assert(r1 =~= a.push(m1));
        assert(r2 =~= b.push(m2));
        lemma_key_refl(m1);
        lemma_key_refl(m2);
        // The last values carry the greatest key, so the same key.
        assert(r2.contains(m2));
        assert(r1.contains(m1));
        lemma_classes_contain(r2, r1, m2);
        lemma_classes_contain(r1, r2, m1);
        let i1 = choose|i: int| 0 <= i < r1.len() && r1[i] == m2;
        let i2 = choose|i: int| 0 <= i < r2.len() && r2[i] == m1;
        if i1 < r1.len() - 1 {
            assert(r1[i1].key_le(&r1[r1.len() - 1]));
        }
        if i2 < r2.len() - 1 {
            assert(r2[i2].key_le(&r2[r2.len() - 1]));
        }
        assert(same_key(m1, m2));
        lemma_key_class_push(a, m1, m1);
        lemma_key_class_push(b, m2, m1);
        assert(key_class(r1, m1).last() == m1);
        assert(key_class(r2, m1).last() == m2);
        assert(m1 == m2);
        assert forall|x: T| #[trigger] key_class(a, x) == key_class(b, x) by {
            lemma_key_class_push(a, m1, x);
            lemma_key_class_push(b, m2, x);
            assert(key_class(r1, x) == key_class(r2, x));
            if same_key(x, m1) {
                assert(key_class(a, x) =~= key_class(r1, x).drop_last());
                assert(key_class(b, x) =~= key_class(r2, x).drop_last());
            }
        }
        assert(sorted_by_key(a));
        assert(sorted_by_key(b));
        lemma_sorted_classes_unique(a, b);
    }
}

/// Stable sorting gives one result: any two stable sorts of the same values
/// are equal.
pub proof fn lemma_stable_sort_unique<T: SortKey>(r1: Seq<T>, r2: Seq<T>, s: Seq<T>)
    requires
        stable_sort_of(r1, s),
        stable_sort_of(r2, s),
    ensures
        r1 == r2,
{
    assert forall|x: T| #[trigger] key_class(r1, x) == key_class(r2, x) by {
        assert(key_class(r1, x) == key_class(s, x));
        assert(key_class(r2, x) == key_class(s, x));
    }
    lemma_sorted_classes_unique(r1, r2);
}

} // verus!
