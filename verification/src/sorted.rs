//! Strictly increasing lists of seat indices and student ids.
use vstd::prelude::*;

verus! {

/// Every element is smaller than the next: sorted, with nothing twice.
pub open spec fn strictly_increasing(s: Seq<usize>) -> bool {
    forall|i: int, j: int| 0 <= i < j < s.len() ==> s[i] < s[j]
}

/// Every element is smaller than the next: sorted, with nothing twice.
pub open spec fn strictly_increasing_u16(s: Seq<u16>) -> bool {
    forall|i: int, j: int| 0 <= i < j < s.len() ==> s[i] < s[j]
}

/// Inserting `x` adds exactly `x` to what a sequence contains.
pub proof fn lemma_insert_contains<T>(s: Seq<T>, p: int, x: T)
    requires
        0 <= p <= s.len(),
    ensures
        forall|y: T| s.insert(p, x).contains(y) <==> (s.contains(y) || y == x),
{
    s.insert_ensures(p, x);
    let t = s.insert(p, x);
    assert forall|y: T| t.contains(y) <==> (s.contains(y) || y == x) by {
        if t.contains(y) {
            let k = choose|k: int| 0 <= k < t.len() && t[k] == y;
            if k < p {
                assert(s[k] == y);
            } else if k > p {
                assert(s[k - 1] == y);
            }
        }
        if s.contains(y) {
            let k = choose|k: int| 0 <= k < s.len() && s[k] == y;
            if k < p {
                assert(t[k] == y);
            } else {
                assert(t[k + 1] == y);
            }
        }
        if y == x {
            assert(t[p] == x);
        }
    }
}

/// Adds `x` to a strictly increasing list, keeping it strictly increasing.
pub fn insert_sorted(v: &mut Vec<usize>, x: usize)
    requires
        strictly_increasing(old(v)@),
    ensures
        strictly_increasing(final(v)@),
        forall|y: usize| final(v)@.contains(y) <==> (old(v)@.contains(y) || y == x),
{
    let n = v.len();
    let mut p: usize = 0;
    while p < n && v[p] < x
        invariant
            n == v@.len(),
            p <= n,
            forall|k: int| 0 <= k < p ==> #[trigger] v@[k] < x,
        decreases n - p,
    {
        p += 1;
    }
    if p < n && v[p] == x {
        assert(v@[p as int] == x);
        return;
    }
    let ghost old_v = v@;
    v.insert(p, x);
    assert(v@ == old_v.insert(p as int, x));
    proof {
        old_v.insert_ensures(p as int, x);
    }
    assert forall|i: int, j: int| 0 <= i < j < v@.len() implies v@[i] < v@[j] by {
        if j < p {
        } else if j == p {
        } else if i < p {
            assert(old_v[j - 1] >= x || j - 1 >= p);
            if p < n {
                assert(old_v[p as int] > x);
                assert(old_v[p as int] <= old_v[j - 1]);
            }
        } else if i == p {
            assert(old_v[p as int] > x);
            assert(old_v[p as int] <= old_v[j - 1]);
        } else {
        }
    }
    proof {
        lemma_insert_contains(old_v, p as int, x);
    }
    assert(v@.len() == old_v.len() + 1);
}

/// Adds `x` to a strictly increasing list, keeping it strictly increasing.
pub fn insert_sorted_u16(v: &mut Vec<u16>, x: u16)
    requires
        strictly_increasing_u16(old(v)@),
    ensures
        strictly_increasing_u16(final(v)@),
        forall|y: u16| final(v)@.contains(y) <==> (old(v)@.contains(y) || y == x),
{
    let n = v.len();
    let mut p: usize = 0;
    while p < n && v[p] < x
        invariant
            n == v@.len(),
            p <= n,
            forall|k: int| 0 <= k < p ==> #[trigger] v@[k] < x,
        decreases n - p,
    {
        p += 1;
    }
    if p < n && v[p] == x {
        assert(v@[p as int] == x);
        return;
    }
    let ghost old_v = v@;
    v.insert(p, x);
    assert(v@ == old_v.insert(p as int, x));
    proof {
        old_v.insert_ensures(p as int, x);
    }
    assert forall|i: int, j: int| 0 <= i < j < v@.len() implies v@[i] < v@[j] by {
        if j < p {
        } else if j == p {
        } else if i < p {
            if p < n {
                assert(old_v[p as int] > x);
                assert(old_v[p as int] <= old_v[j - 1]);
            }
        } else if i == p {
            assert(old_v[p as int] > x);
            assert(old_v[p as int] <= old_v[j - 1]);
        } else {
        }
    }
    proof {
        lemma_insert_contains(old_v, p as int, x);
    }
    assert(v@.len() == old_v.len() + 1);
}

/// The values of `values`, sorted, each once.
pub fn sorted_unique(values: &Vec<usize>) -> (res: Vec<usize>)
    ensures
        strictly_increasing(res@),
        forall|y: usize| res@.contains(y) <==> values@.contains(y),
{
    let mut res: Vec<usize> = Vec::new();
    let n = values.len();
    let mut i: usize = 0;
    while i < n
        invariant
            n == values@.len(),
            i <= n,
            strictly_increasing(res@),
            forall|y: usize| res@.contains(y) <==> values@.take(i as int).contains(y),
        decreases n - i,
    {
        proof {
            let t0 = values@.take(i as int);
            let t1 = values@.take(i + 1);
            assert forall|y: usize| t1.contains(y) <==> (t0.contains(y) || y == values@[i as int]) by {
                if t1.contains(y) {
                    let k = choose|k: int| 0 <= k < t1.len() && t1[k] == y;
                    if k < i {
                        assert(t0[k] == y);
                    }
                }
                if t0.contains(y) {
                    let k = choose|k: int| 0 <= k < t0.len() && t0[k] == y;
                    assert(t1[k] == y);
                }
                if y == values@[i as int] {
                    assert(t1[i as int] == y);
                }
            }
        }
        insert_sorted(&mut res, values[i]);
        i += 1;
    }
    assert(values@.take(n as int) =~= values@);
    res
}

/// The values of `values`, sorted, each once.
pub fn sorted_unique_u16(values: &Vec<u16>) -> (res: Vec<u16>)
    ensures
        strictly_increasing_u16(res@),
        forall|y: u16| res@.contains(y) <==> values@.contains(y),
{
    let mut res: Vec<u16> = Vec::new();
    let n = values.len();
    let mut i: usize = 0;
    while i < n
        invariant
            n == values@.len(),
            i <= n,
            strictly_increasing_u16(res@),
            forall|y: u16| res@.contains(y) <==> values@.take(i as int).contains(y),
        decreases n - i,
    {
        proof {
            let t0 = values@.take(i as int);
            let t1 = values@.take(i + 1);
            assert forall|y: u16| t1.contains(y) <==> (t0.contains(y) || y == values@[i as int]) by {
                if t1.contains(y) {
                    let k = choose|k: int| 0 <= k < t1.len() && t1[k] == y;
                    if k < i {
                        assert(t0[k] == y);
                    }
                }
                if t0.contains(y) {
                    let k = choose|k: int| 0 <= k < t0.len() && t0[k] == y;
                    assert(t1[k] == y);
                }
                if y == values@[i as int] {
                    assert(t1[i as int] == y);
                }
            }
        }
        insert_sorted_u16(&mut res, values[i]);
        i += 1;
    }
    assert(values@.take(n as int) =~= values@);
    res
}

/// Two strictly increasing lists with the same elements are equal.
pub proof fn lemma_strictly_increasing_unique(a: Seq<usize>, b: Seq<usize>)
    requires
        strictly_increasing(a),
        strictly_increasing(b),
        forall|y: usize| a.contains(y) <==> b.contains(y),
    ensures
        a == b,
    decreases a.len() + b.len(),
{
    if a.len() == 0 {
        if b.len() > 0 {
            assert(b.contains(b[0]));
        }
        assert(a =~= b);
    } else if b.len() == 0 {
        assert(a.contains(a[0]));
    } else {
        // the first elements are both the minimum
        assert(a.contains(a[0]));
        assert(b.contains(b[0]));
        let ka = choose|k: int| 0 <= k < a.len() && a[k] == b[0];
        let kb = choose|k: int| 0 <= k < b.len() && b[k] == a[0];
        if ka > 0 {
            assert(a[0] < a[ka]);
        }
        if kb > 0 {
            assert(b[0] < b[kb]);
        }
        assert(a[0] == b[0]);
        let a1 = a.drop_first();
        let b1 = b.drop_first();
        assert forall|y: usize| a1.contains(y) <==> b1.contains(y) by {
            if a1.contains(y) {
                let k = choose|k: int| 0 <= k < a1.len() && a1[k] == y;
                assert(a[k + 1] == y);
                assert(a.contains(y));
                let m = choose|m: int| 0 <= m < b.len() && b[m] == y;
                if m == 0 {
                    assert(a[0] < a[k + 1]);
                }
                assert(b1[m - 1] == y);
            }
            if b1.contains(y) {
                let k = choose|k: int| 0 <= k < b1.len() && b1[k] == y;
                assert(b[k + 1] == y);
                assert(b.contains(y));
                let m = choose|m: int| 0 <= m < a.len() && a[m] == y;
                if m == 0 {
                    assert(b[0] < b[k + 1]);
                }
                assert(a1[m - 1] == y);
            }
        }
        lemma_strictly_increasing_unique(a1, b1);
        assert(a =~= seq![a[0]] + a1);
        assert(b =~= seq![b[0]] + b1);
    }
}

/// Two strictly increasing id lists with the same elements are equal.
pub proof fn lemma_strictly_increasing_unique_u16(a: Seq<u16>, b: Seq<u16>)
    requires
        strictly_increasing_u16(a),
        strictly_increasing_u16(b),
        forall|y: u16| a.contains(y) <==> b.contains(y),
    ensures
        a == b,
    decreases a.len() + b.len(),
{
    if a.len() == 0 {
        if b.len() > 0 {
            assert(b.contains(b[0]));
        }
        assert(a =~= b);
    } else if b.len() == 0 {
        assert(a.contains(a[0]));
    } else {
        // the first elements are both the minimum
        assert(a.contains(a[0]));
        assert(b.contains(b[0]));
        let ka = choose|k: int| 0 <= k < a.len() && a[k] == b[0];
        let kb = choose|k: int| 0 <= k < b.len() && b[k] == a[0];
        if ka > 0 {
            assert(a[0] < a[ka]);
        }
        if kb > 0 {
            assert(b[0] < b[kb]);
        }
        assert(a[0] == b[0]);
        let a1 = a.drop_first();
        let b1 = b.drop_first();
        assert forall|y: u16| a1.contains(y) <==> b1.contains(y) by {
            if a1.contains(y) {
                let k = choose|k: int| 0 <= k < a1.len() && a1[k] == y;
                assert(a[k + 1] == y);
                assert(a.contains(y));
                let m = choose|m: int| 0 <= m < b.len() && b[m] == y;
                if m == 0 {
                    assert(a[0] < a[k + 1]);
                }
                assert(b1[m - 1] == y);
            }
            if b1.contains(y) {
                let k = choose|k: int| 0 <= k < b1.len() && b1[k] == y;
                assert(b[k + 1] == y);
                assert(b.contains(y));
                let m = choose|m: int| 0 <= m < a.len() && a[m] == y;
                if m == 0 {
                    assert(b[0] < b[k + 1]);
                }
                assert(a1[m - 1] == y);
            }
        }
        lemma_strictly_increasing_unique_u16(a1, b1);
        assert(a =~= seq![a[0]] + a1);
        assert(b =~= seq![b[0]] + b1);
    }
}

} // verus!
