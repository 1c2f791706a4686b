use vstd::prelude::*;

verus! {

/// Each element of `s` comes before every later one under `lt`.
pub open spec fn sorted_by(s: Seq<usize>, lt: spec_fn(usize, usize) -> bool) -> bool {
    forall|a: int, b: int| 0 <= a < b < s.len() ==> #[trigger] lt(s[a], s[b])
}

/// `lt` never relates an element to itself and never both ways round.
pub open spec fn strict(lt: spec_fn(usize, usize) -> bool) -> bool {
    forall|a: usize, b: usize| #[trigger] lt(a, b) ==> !lt(b, a)
}

/// The natural order of indices.
pub open spec fn index_lt() -> spec_fn(usize, usize) -> bool {
    |a: usize, b: usize| a < b
}

/// The indices of `s` in increasing order, each once.
pub open spec fn ascending(s: Set<usize>) -> Seq<usize> {
    choose|q: Seq<usize>| sorted_by(q, index_lt()) && #[trigger] q.to_set() == s
}

/// Under a strict order, a sorted sequence is fixed by the set of its elements.
pub proof fn lemma_sorted_unique(s1: Seq<usize>, s2: Seq<usize>, lt: spec_fn(usize, usize) -> bool)
    requires
        strict(lt),
        sorted_by(s1, lt),
        sorted_by(s2, lt),
        s1.to_set() == s2.to_set(),
    ensures
        s1 == s2,
    decreases s1.len(),
{
    if s1.len() == 0 {
        if s2.len() > 0 {
            assert(s2.to_set().contains(s2[0]));
        }
        assert(s1 =~= s2);
    } else {
        assert(s1.to_set().contains(s1[0]));
        assert(s2.len() > 0);
        assert(s2.to_set().contains(s2[0]));
        let j = choose|j: int| 0 <= j < s2.len() && s2[j] == s1[0];
        let i = choose|i: int| 0 <= i < s1.len() && s1[i] == s2[0];
        if s1[0] != s2[0] {
            assert(j > 0 && i > 0);
            assert(lt(s2[0], s2[j]));
            assert(lt(s1[0], s1[i]));
        }
        let t1 = s1.drop_first();
        let t2 = s2.drop_first();
        assert forall|x: usize| t1.to_set().contains(x) <==> t2.to_set().contains(x) by {
            if t1.to_set().contains(x) {
                let a = choose|a: int| 0 <= a < t1.len() && t1[a] == x;
                assert(s1[a + 1] == x);
                assert(lt(s1[0], s1[a + 1]));
                assert(s2.to_set().contains(x));
                let b = choose|b: int| 0 <= b < s2.len() && s2[b] == x;
                if b == 0 {
                    assert(lt(x, x));
                }
                assert(t2[b - 1] == x);
            }
            if t2.to_set().contains(x) {
                let a = choose|a: int| 0 <= a < t2.len() && t2[a] == x;
                assert(s2[a + 1] == x);
                assert(lt(s2[0], s2[a + 1]));
                assert(s1.to_set().contains(x));
                let b = choose|b: int| 0 <= b < s1.len() && s1[b] == x;
                if b == 0 {
                    assert(lt(x, x));
                }
                assert(t1[b - 1] == x);
            }
        }
        assert(t1.to_set() =~= t2.to_set());
        assert(sorted_by(t1, lt)) by {
            assert forall|a: int, b: int| 0 <= a < b < t1.len() implies #[trigger] lt(t1[a], t1[b]) by {
                assert(lt(s1[a + 1], s1[b + 1]));
            }
        }
        assert(sorted_by(t2, lt)) by {
            assert forall|a: int, b: int| 0 <= a < b < t2.len() implies #[trigger] lt(t2[a], t2[b]) by {
                assert(lt(s2[a + 1], s2[b + 1]));
            }
        }
        lemma_sorted_unique(t1, t2, lt);
        assert(s1 =~= s2) by {
            assert forall|k: int| 0 <= k < s1.len() implies s1[k] == s2[k] by {
                if k > 0 {
                    assert(t1[k - 1] == t2[k - 1]);
                }
            }
        }
    }
}

/// An increasing sequence with the elements of `s` is `ascending(s)`.
pub proof fn lemma_is_ascending(q: Seq<usize>, s: Set<usize>)
    requires
        sorted_by(q, index_lt()),
        q.to_set() == s,
    ensures
        ascending(s) == q,
{
    let a = ascending(s);
    assert(sorted_by(a, index_lt()) && a.to_set() == s);
    assert(strict(index_lt()));
    lemma_sorted_unique(a, q, index_lt());
}

/// The distinct elements of `v`, in increasing order.
pub fn sorted_distinct(v: &Vec<usize>) -> (r: Vec<usize>)
    ensures
        sorted_by(r@, index_lt()),
        r@.to_set() == v@.to_set(),
        r@ == ascending(v@.to_set()),
{
    let mut r: Vec<usize> = Vec::new();
    let mut j: usize = 0;
    while j < v.len()
        invariant
            j <= v.len(),
            sorted_by(r@, index_lt()),
            r@.to_set() == v@.take(j as int).to_set(),
        decreases v.len() - j,
    {
        let x = v[j];
        let mut p: usize = 0;
        while p < r.len() && r[p] < x
            invariant
                p <= r.len(),
                forall|m: int| 0 <= m < p ==> r@[m] < x,
            decreases r.len() - p,
        {
            p += 1;
        }
        let ghost pre = r@;
        proof {
            assert(v@.take(j + 1) =~= v@.take(j as int).push(x));
            v@.take(j as int).lemma_push_to_set_commute(x);
        }
        if p < r.len() && r[p] == x {
            proof {
                assert(pre.to_set().contains(x));
                assert(pre.to_set().insert(x) =~= pre.to_set());
            }
        } else {
            r.insert(p, x);
            proof {
                assert(r@ =~= pre.take(p as int).push(x) + pre.skip(p as int));
                assert forall|a: int, b: int| 0 <= a < b < r@.len() implies #[trigger] index_lt()(r@[a], r@[b]) by {
                    if b < p {
                        assert(index_lt()(pre[a], pre[b]));
                    } else if b == p {
                    } else if a < p {
                        assert(index_lt()(pre[a], pre[b - 1]));
                    } else if a == p {
                        assert(pre[p as int] > x);
                        if b - 1 > p {
                            assert(index_lt()(pre[p as int], pre[b - 1]));
                        }
                    } else {
                        assert(index_lt()(pre[a - 1], pre[b - 1]));
                    }
                }
                assert forall|y: usize| r@.to_set().contains(y) <==> pre.to_set().insert(x).contains(y) by {
                    if r@.contains(y) {
                        let m = choose|m: int| 0 <= m < r@.len() && r@[m] == y;
                        if m < p {
                            assert(pre[m] == y);
                        } else if m > p {
                            assert(pre[m - 1] == y);
                        }
                    }
                    if pre.contains(y) {
                        let m = choose|m: int| 0 <= m < pre.len() && pre[m] == y;
                        if m < p {
                            assert(r@[m] == y);
                        } else {
                            assert(r@[m + 1] == y);
                        }
                    }
                    if y == x {
                        assert(r@[p as int] == y);
                    }
                }
                assert(r@.to_set() =~= pre.to_set().insert(x));
            }
        }
        j += 1;
    }
    proof {
        assert(v@.take(v@.len() as int) =~= v@);
        lemma_is_ascending(r@, v@.to_set());
    }
    r
}

} // verus!
