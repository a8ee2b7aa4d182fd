//! Facts about sequences.

use vstd::prelude::*;

verus! {

/// Where the elements that satisfy `p` come first, filtering takes a prefix.
pub proof fn lemma_filter_prefix<T>(s: Seq<T>, p: spec_fn(T) -> bool, n: int)
    requires
        0 <= n <= s.len(),
        forall|i: int| 0 <= i < n ==> p(#[trigger] s[i]),
        forall|i: int| n <= i < s.len() ==> !p(#[trigger] s[i]),
    ensures
        s.filter(p) == s.take(n),
    decreases s.len(),
{
    reveal(Seq::filter);
    if s.len() == 0 {
        assert(s.take(n) =~= s);
    } else {
        let init = s.drop_last();
        if n == s.len() {
            lemma_filter_prefix(init, p, n - 1);
            assert(s.take(n) =~= init.take(n - 1).push(s.last()));
        } else {
            lemma_filter_prefix(init, p, n);
            assert(s.take(n) =~= init.take(n));
        }
    }
}

/// Where the elements that satisfy `p` come last, filtering takes a suffix.
pub proof fn lemma_filter_suffix<T>(s: Seq<T>, p: spec_fn(T) -> bool, n: int)
    requires
        0 <= n <= s.len(),
        forall|i: int| 0 <= i < n ==> !p(#[trigger] s[i]),
        forall|i: int| n <= i < s.len() ==> p(#[trigger] s[i]),
    ensures
        s.filter(p) == s.skip(n),
    decreases s.len(),
{
    reveal(Seq::filter);
    if s.len() == 0 {
        assert(s.skip(n) =~= s);
    } else {
        let init = s.drop_last();
        if n == s.len() {
            lemma_filter_suffix(init, p, n - 1);
            assert(s.skip(n) =~= init.skip(n - 1));
        } else {
            lemma_filter_suffix(init, p, n);
            assert(s.skip(n) =~= init.skip(n).push(s.last()));
        }
    }
}

/// Filtering twice is filtering by both conditions.
pub proof fn lemma_filter_filter<T>(
    s: Seq<T>,
    p: spec_fn(T) -> bool,
    q: spec_fn(T) -> bool,
    both: spec_fn(T) -> bool,
)
    requires
        forall|x: T| #[trigger] both(x) == (p(x) && q(x)),
    ensures
        s.filter(p).filter(q) == s.filter(both),
    decreases s.len(),
{
    reveal(Seq::filter);
    if s.len() > 0 {
        lemma_filter_filter(s.drop_last(), p, q, both);
        let init = s.drop_last().filter(p);
        assert(both(s.last()) == (p(s.last()) && q(s.last())));
        if p(s.last()) {
            assert(init.push(s.last()).drop_last() =~= init);
        }
    }
}

/// Filtering distributes over concatenation.
pub proof fn lemma_filter_add<T>(a: Seq<T>, b: Seq<T>, p: spec_fn(T) -> bool)
    ensures
        (a + b).filter(p) == a.filter(p) + b.filter(p),
    decreases b.len(),
{
    reveal(Seq::filter);
    if b.len() == 0 {
        assert(a + b =~= a);
        assert(a.filter(p) + b.filter(p) =~= a.filter(p));
    } else {
        lemma_filter_add(a, b.drop_last(), p);
        assert((a + b).drop_last() =~= a + b.drop_last());
        assert((a + b).last() == b.last());
        assert((a + b).filter(p) =~= a.filter(p) + b.filter(p));
    }
}

/// What a filtered sequence holds.
pub proof fn lemma_filter_members<T>(s: Seq<T>, p: spec_fn(T) -> bool)
    ensures
        forall|i: int| 0 <= i < s.filter(p).len() ==> p(#[trigger] s.filter(p)[i]),
        forall|i: int| 0 <= i < s.filter(p).len() ==> s.contains(#[trigger] s.filter(p)[i]),
        forall|i: int| 0 <= i < s.len() && p(#[trigger] s[i]) ==> s.filter(p).contains(s[i]),
    decreases s.len(),
{
    reveal(Seq::filter);
    let f = s.filter(p);
    if s.len() > 0 {
        let init = s.drop_last();
        lemma_filter_members(init, p);
        let g = init.filter(p);
        assert forall|i: int| 0 <= i < f.len() implies s.contains(#[trigger] f[i]) by {
            if i < g.len() {
                assert(init.contains(g[i]));
                let j = init.index_of(g[i]);
                assert(s[j] == f[i]);
            } else {
                assert(s[s.len() - 1] == f[i]);
            }
        }
        assert forall|i: int| 0 <= i < s.len() && p(#[trigger] s[i]) implies f.contains(s[i]) by {
            if i < init.len() {
                assert(init[i] == s[i]);
                assert(g.contains(init[i]));
                let j = g.index_of(init[i]);
                assert(f[j] == s[i]);
            } else {
                assert(f[f.len() - 1] == s[i]);
            }
        }
    }
}

/// The elements stand in strictly ascending order.
pub open spec fn strictly_sorted<K>(s: Seq<K>, lt: spec_fn(K, K) -> bool) -> bool {
    forall|i: int, j: int| 0 <= i < j < s.len() ==> lt(#[trigger] s[i], #[trigger] s[j])
}

/// The sequence holds exactly the members of the set.
pub open spec fn lists<K>(s: Seq<K>, dom: Set<K>) -> bool {
    forall|k: K| dom.contains(k) == #[trigger] s.contains(k)
}

/// The members of a finite set in strictly ascending order.
pub open spec fn sorted_list<K>(dom: Set<K>, lt: spec_fn(K, K) -> bool) -> Seq<K> {
    choose|s: Seq<K>| strictly_sorted(s, lt) && lists(s, dom)
}

/// No element comes before itself, and no two come before each other.
pub open spec fn asymmetric<K>(lt: spec_fn(K, K) -> bool) -> bool {
    forall|a: K, b: K| #[trigger] lt(a, b) ==> !lt(b, a)
}

/// Only one strictly ascending sequence holds given members.
pub proof fn lemma_sorted_unique<K>(a: Seq<K>, b: Seq<K>, lt: spec_fn(K, K) -> bool)
    requires
        strictly_sorted(a, lt),
        strictly_sorted(b, lt),
        asymmetric(lt),
        forall|k: K| #[trigger] a.contains(k) == b.contains(k),
    ensures
        a == b,
    decreases a.len(),
{
    if a.len() == 0 {
        if b.len() > 0 {
            assert(b.contains(b[0]));
            assert(a.contains(b[0]));
        }
        assert(a =~= b);
    } else {
        let x = a.last();
        assert(a[a.len() - 1] == x);
        assert(a.contains(x));
        let j = b.index_of(x);
        let y = b.last();
        assert(b[b.len() - 1] == y);
        assert(b.contains(y));
        assert(a.contains(y));
        let i = a.index_of(y);
        if j < b.len() - 1 {
            assert(lt(b[j], b[b.len() - 1]));
            if i < a.len() - 1 {
                assert(lt(a[i], a[a.len() - 1]));
            }
            assert(false);
        }
        let a0 = a.drop_last();
        let b0 = b.drop_last();
        assert forall|k: K| #[trigger] a0.contains(k) == b0.contains(k) by {
            if a0.contains(k) {
                let m = a0.index_of(k);
                assert(a[m] == k);
                assert(a.contains(k));
                let n = b.index_of(k);
                if n == b.len() - 1 {
                    assert(lt(a[m], a[a.len() - 1]));
                }
                assert(b0[n] == k);
            }
            if b0.contains(k) {
                let n = b0.index_of(k);
                assert(b[n] == k);
                assert(b.contains(k));
                assert(a.contains(k));
                let m = a.index_of(k);
                if m == a.len() - 1 {
                    assert(lt(b[n], b[b.len() - 1]));
                }
                assert(a0[m] == k);
            }
        }
        lemma_sorted_unique(a0, b0, lt);
        assert(a =~= a0.push(x));
        assert(b =~= b0.push(y));
    }
}

/// A strictly ascending sequence of the members of a set is the sorted list.
pub proof fn lemma_is_sorted_list<K>(s: Seq<K>, dom: Set<K>, lt: spec_fn(K, K) -> bool)
    requires
        strictly_sorted(s, lt),
        lists(s, dom),
        asymmetric(lt),
    ensures
        sorted_list(dom, lt) == s,
{
    let t = sorted_list(dom, lt);
    assert(strictly_sorted(t, lt) && lists(t, dom));
    assert forall|k: K| #[trigger] t.contains(k) == s.contains(k) by {
        assert(dom.contains(k) == t.contains(k));
        assert(dom.contains(k) == s.contains(k));
    }
    lemma_sorted_unique(t, s, lt);
}

/// An order in which any two different elements stand one before the other.
pub open spec fn total_order<K>(lt: spec_fn(K, K) -> bool) -> bool {
    &&& asymmetric(lt)
    &&& forall|a: K, b: K, c: K| #[trigger] lt(a, b) && #[trigger] lt(b, c) ==> lt(a, c)
    &&& forall|a: K, b: K| a != b ==> #[trigger] lt(a, b) || lt(b, a)
}

/// A strictly ascending sequence with one more element in its place.
proof fn lemma_insert_sorted<K>(s: Seq<K>, x: K, lt: spec_fn(K, K) -> bool) -> (t: Seq<K>)
    requires
        strictly_sorted(s, lt),
        total_order(lt),
        !s.contains(x),
    ensures
        strictly_sorted(t, lt),
        forall|k: K| #[trigger] t.contains(k) == (s.contains(k) || k == x),
    decreases s.len(),
{
    if s.len() == 0 {
        let t = seq![x];
        assert(t[0] == x);
        t
    } else {
        let last = s.last();
        let init = s.drop_last();
        assert(s[s.len() - 1] == last);
        assert(s.contains(last));
        if lt(last, x) {
            let t = s.push(x);
            assert forall|i: int, j: int| 0 <= i < j < t.len() implies lt(
                #[trigger] t[i],
                #[trigger] t[j],
            ) by {
                if j == t.len() - 1 && i < s.len() - 1 {
                    assert(lt(s[i], s[s.len() - 1]));
                } else if j < t.len() - 1 {
                    assert(lt(s[i], s[j]));
                }
            }
            assert forall|k: K| #[trigger] t.contains(k) == (s.contains(k) || k == x) by {
                if s.contains(k) {
                    assert(t[s.index_of(k)] == k);
                }
                assert(t[t.len() - 1] == x);
            }
            t
        } else {
            assert(lt(x, last));
            assert(!init.contains(x)) by {
                if init.contains(x) {
                    assert(s[init.index_of(x)] == x);
                }
            }
            let u = lemma_insert_sorted(init, x, lt);
            let t = u.push(last);
            assert forall|i: int, j: int| 0 <= i < j < t.len() implies lt(
                #[trigger] t[i],
                #[trigger] t[j],
            ) by {
                if j == t.len() - 1 {
                    assert(u.contains(u[i]));
                    if u[i] != x {
                        let m = init.index_of(u[i]);
                        assert(lt(s[m], s[s.len() - 1]));
                    }
                } else {
                    assert(lt(u[i], u[j]));
                }
            }
            assert forall|k: K| #[trigger] t.contains(k) == (s.contains(k) || k == x) by {
                if s.contains(k) && k != last {
                    let m = s.index_of(k);
                    assert(init[m] == k);
                    assert(u.contains(k));
                    assert(t[u.index_of(k)] == k);
                }
                assert(t[t.len() - 1] == last);
                if k == x {
                    assert(u.contains(x));
                    assert(t[u.index_of(x)] == x);
                }
                if t.contains(k) {
                    let m = t.index_of(k);
                    if m < u.len() {
                        assert(u.contains(k));
                        if k != x {
                            assert(s[init.index_of(k)] == k);
                        }
                    }
                }
            }
            t
        }
    }
}

/// The members of a finite set can be listed in strictly ascending order.
pub proof fn lemma_sorted_list<K>(dom: Set<K>, lt: spec_fn(K, K) -> bool)
    requires
        dom.finite(),
        total_order(lt),
    ensures
        strictly_sorted(sorted_list(dom, lt), lt),
        lists(sorted_list(dom, lt), dom),
    decreases dom.len(),
{
    if dom.len() == 0 {
        let s = Seq::<K>::empty();
        assert(dom =~= Set::empty());
        assert(strictly_sorted(s, lt) && lists(s, dom));
    } else {
        let x = dom.choose();
        let rest = dom.remove(x);
        lemma_sorted_list(rest, lt);
        let s = sorted_list(rest, lt);
        assert(!s.contains(x)) by {
            assert(rest.contains(x) == s.contains(x));
        }
        let t = lemma_insert_sorted(s, x, lt);
        assert forall|k: K| dom.contains(k) == #[trigger] t.contains(k) by {
            assert(rest.contains(k) == s.contains(k));
        }
        assert(strictly_sorted(t, lt) && lists(t, dom));
    }
}

} // verus!
