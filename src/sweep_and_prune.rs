use vstd::prelude::*;
use crate::narrow_phase::{all_wf, resolve_rows};
use crate::collisions::lemma_resolve_against_wf;
use crate::order::{sorted_by, lemma_sorted_unique};
use crate::verlet::VerletObject;

verus! {

/// Left end of a particle's x-interval.
pub open spec fn span_lo(o: VerletObject) -> int {
    o.current_position.x - o.radius
}

/// Right end of a particle's x-interval.
pub open spec fn span_hi(o: VerletObject) -> int {
    o.current_position.x + o.radius
}

/// Sweep order: by center x, ties by index.
pub open spec fn x_before(bodies: Seq<VerletObject>) -> spec_fn(usize, usize) -> bool {
    |a: usize, b: usize|
        bodies[a as int].current_position.x < bodies[b as int].current_position.x || (
        bodies[a as int].current_position.x == bodies[b as int].current_position.x && a < b)
}

/// The indices `0 .. n` as a set.
pub open spec fn index_set(n: int) -> Set<usize> {
    Set::new(|k: usize| k < n)
}

/// All particle indices, sorted by center x, ties by index.
pub open spec fn sweep_order(bodies: Seq<VerletObject>) -> Seq<usize> {
    choose|q: Seq<usize>| sorted_by(q, x_before(bodies)) && #[trigger] q.to_set() == index_set(bodies.len() as int)
}

/// Scan state after the first `j` indices of `order`: the clusters already
/// closed, the open cluster, and the open cluster's x-extent `[lo, hi]`.
/// A particle whose interval overlaps the extent joins the open cluster and
/// widens it; otherwise the open cluster is closed and a new one starts.
pub open spec fn sweep(bodies: Seq<VerletObject>, order: Seq<usize>, j: int) -> (Seq<Seq<usize>>, Seq<usize>, int, int)
    decreases j,
{
    if j <= 0 {
        (Seq::empty(), Seq::empty(), 0, 0)
    } else {
        let (closed, open, lo, hi) = sweep(bodies, order, j - 1);
        let k = order[j - 1];
        let a = span_lo(bodies[k as int]);
        let b = span_hi(bodies[k as int]);
        if open.len() > 0 && a <= hi && b >= lo {
            (closed, open.push(k), if a < lo { a } else { lo }, if b > hi { b } else { hi })
        } else if open.len() == 0 {
            (closed, seq![k], a, b)
        } else {
            (closed.push(open), seq![k], a, b)
        }
    }
}

/// The clusters of overlapping x-intervals, the last one included.
pub open spec fn clusters(bodies: Seq<VerletObject>) -> Seq<Seq<usize>> {
    let (closed, open, _lo, _hi) = sweep(bodies, sweep_order(bodies), bodies.len() as int);
    if open.len() > 0 {
        closed.push(open)
    } else {
        closed
    }
}

/// Every ordered pair within each cluster resolved, cluster by cluster.
pub open spec fn resolve_clusters(bodies: Seq<VerletObject>, cs: Seq<Seq<usize>>) -> Seq<VerletObject>
    decreases cs.len(),
{
    if cs.len() == 0 {
        bodies
    } else {
        let c = cs.last();
        resolve_rows(resolve_clusters(bodies, cs.drop_last()), c, c)
    }
}

/// One sweep-and-prune collision pass.
pub open spec fn sweep_pass(bodies: Seq<VerletObject>) -> Seq<VerletObject> {
    resolve_clusters(bodies, clusters(bodies))
}

/// Resolving rows of pairs keeps every particle well formed and the length.
pub proof fn lemma_resolve_rows_wf(bodies: Seq<VerletObject>, is: Seq<usize>, ks: Seq<usize>)
    requires
        all_wf(bodies),
    ensures
        all_wf(resolve_rows(bodies, is, ks)),
        resolve_rows(bodies, is, ks).len() == bodies.len(),
    decreases is.len(),
{
    if is.len() > 0 {
        lemma_resolve_rows_wf(bodies, is.drop_last(), ks);
        lemma_resolve_against_wf(resolve_rows(bodies, is.drop_last(), ks), is.last() as int, ks);
    }
}

/// Narrow phase over one cluster: every ordered pair of its indices, row by row.
fn solve_collisions_for_set(set: &Vec<usize>, bodies: &mut Vec<VerletObject>)
    requires
        all_wf(old(bodies)@),
    ensures
        final(bodies)@ == resolve_rows(old(bodies)@, set@, set@),
        final(bodies)@.len() == old(bodies)@.len(),
        all_wf(final(bodies)@),
{
    let ghost start = bodies@;
    let mut m: usize = 0;
    while m < set.len()
        invariant
            m <= set.len(),
            bodies@ == resolve_rows(start, set@.take(m as int), set@),
            all_wf(bodies@),
        decreases set.len() - m,
    {
        proof {
            assert(set@.take(m + 1).drop_last() =~= set@.take(m as int));
        }
        crate::collisions::solve_against_row(set[m], set, bodies);
        m += 1;
    }
    proof {
        assert(set@.take(set@.len() as int) =~= set@);
        lemma_resolve_rows_wf(start, set@, set@);
    }
}

/// Indices of all particles sorted by center x, ties by index (insertion sort).
fn sorted_by_x(bodies: &Vec<VerletObject>) -> (r: Vec<usize>)
    ensures
        r@ == sweep_order(bodies@),
        sorted_by(r@, x_before(bodies@)),
        r@.to_set() == index_set(bodies@.len() as int),
        r@.len() == bodies@.len(),
{
    let ghost lt = x_before(bodies@);
    let mut r: Vec<usize> = Vec::new();
    let mut idx: usize = 0;
    while idx < bodies.len()
        invariant
            idx <= bodies.len(),
            lt == x_before(bodies@),
            sorted_by(r@, lt),
            r@.to_set() == index_set(idx as int),
            r@.len() == idx,
        decreases bodies.len() - idx,
    {
        let x = bodies[idx].current_position.x;
        proof {
            assert forall|m: int| 0 <= m < r@.len() implies r@[m] < idx by {
                assert(r@.to_set().contains(r@[m]));
            }
        }
        let mut p: usize = 0;
        while p < r.len() && bodies[r[p]].current_position.x <= x
            invariant
                p <= r.len(),
                lt == x_before(bodies@),
                r@.to_set() == index_set(idx as int),
                idx < bodies.len(),
                x == bodies@[idx as int].current_position.x,
                forall|m: int| 0 <= m < p ==> #[trigger] lt(r@[m], idx),
                forall|m: int| 0 <= m < r@.len() ==> r@[m] < idx,
            decreases r.len() - p,
        {
            assert(r@.to_set().contains(r@[p as int]));
            p += 1;
        }
        let ghost pre = r@;
        proof {
            if p < pre.len() {
                assert(lt(idx, pre[p as int]));
            }
        }
        r.insert(p, idx);
        proof {
            assert(r@ =~= pre.take(p as int).push(idx) + pre.skip(p as int));
            assert forall|a: int, b: int| 0 <= a < b < r@.len() implies #[trigger] lt(r@[a], r@[b]) by {
                if b < p {
                    assert(lt(pre[a], pre[b]));
                } else if b == p {
                    assert(lt(pre[a], idx));
                } else if a < p {
                    assert(lt(pre[a], idx));
                    assert(lt(idx, pre[p as int]));
                    if b - 1 > p {
                        assert(lt(pre[p as int], pre[b - 1]));
                    }
                } else if a == p {
                    assert(lt(idx, pre[p as int]));
                    if b - 1 > p {
                        assert(lt(pre[p as int], pre[b - 1]));
                    }
                } else {
                    assert(lt(pre[a - 1], pre[b - 1]));
                }
            }
            assert forall|y: usize| r@.to_set().contains(y) <==> index_set(idx + 1).contains(y) by {
                if r@.contains(y) {
                    let m = choose|m: int| 0 <= m < r@.len() && r@[m] == y;
                    if m < p {
                        assert(pre[m] == y);
                        assert(pre.to_set().contains(y));
                    } else if m > p {
                        assert(pre[m - 1] == y);
                        assert(pre.to_set().contains(y));
                    }
                }
                if y < idx {
                    assert(pre.to_set().contains(y));
                    let m = choose|m: int| 0 <= m < pre.len() && pre[m] == y;
                    if m < p {
                        assert(r@[m] == y);
                    } else {
                        assert(r@[m + 1] == y);
                    }
                }
                if y == idx {
                    assert(r@[p as int] == y);
                }
            }
            assert(r@.to_set() =~= index_set(idx + 1));
        }
        idx += 1;
    }
    proof {
        let q = sweep_order(bodies@);
        assert(sorted_by(q, lt) && q.to_set() == index_set(bodies@.len() as int));
        lemma_sorted_unique(q, r@, lt);
    }
    r
}

/// Broad phase by sweep and prune: particles are taken in order of center x;
/// consecutive particles whose x-intervals `[x - r, x + r]` overlap the running
/// cluster's extent form one cluster, and every ordered pair within each
/// cluster, the last one included, goes to the narrow phase.
pub fn solve(bodies: &mut Vec<VerletObject>)
    requires
        all_wf(old(bodies)@),
    ensures
        final(bodies)@ == sweep_pass(old(bodies)@),
        final(bodies)@.len() == old(bodies)@.len(),
        all_wf(final(bodies)@),
{
    let ghost start = bodies@;
    let order = sorted_by_x(bodies);
    let count = bodies.len();
    let mut lows: Vec<i64> = Vec::new();
    let mut highs: Vec<i64> = Vec::new();
    let mut k: usize = 0;
    while k < count
        invariant
            bodies@ == start,
            count == start.len(),
            all_wf(start),
            k <= count,
            lows@.len() == k,
            highs@.len() == k,
            forall|m: int| 0 <= m < k ==> lows@[m] == span_lo(#[trigger] start[m]) && highs@[m] == span_hi(start[m]),
        decreases count - k,
    {
        let o = bodies[k];
        lows.push(o.current_position.x - o.radius);
        highs.push(o.current_position.x + o.radius);
        k += 1;
    }
    let mut open: Vec<usize> = Vec::new();
    let mut lo: i64 = 0;
    let mut hi: i64 = 0;
    let ghost mut closed: Seq<Seq<usize>> = Seq::empty();
    let mut j: usize = 0;
    while j < count
        invariant
            count == start.len(),
            order@ == sweep_order(start),
            order@.to_set() == index_set(count as int),
            order@.len() == count,
            j <= count,
            lows@.len() == count,
            highs@.len() == count,
            forall|m: int| 0 <= m < count ==> lows@[m] == span_lo(#[trigger] start[m]) && highs@[m] == span_hi(start[m]),
            all_wf(start),
            sweep(start, order@, j as int) == (closed, open@, lo as int, hi as int),
            bodies@ == resolve_clusters(start, closed),
            bodies@.len() == count,
            all_wf(bodies@),
        decreases count - j,
    {
        proof {
            assert(order@.to_set().contains(order@[j as int]));
        }
        let k = order[j];
        let a = lows[k];
        let b = highs[k];
        if open.len() > 0 && a <= hi && b >= lo {
            open.push(k);
            if a < lo {
                lo = a;
            }
            if b > hi {
                hi = b;
            }
        } else {
            if open.len() > 0 {
                solve_collisions_for_set(&open, bodies);
                proof {
                    assert(closed.push(open@).drop_last() =~= closed);
                    closed = closed.push(open@);
                }
            }
            open = Vec::new();
            open.push(k);
            proof {
                assert(open@ =~= seq![k]);
            }
            lo = a;
            hi = b;
        }
        j += 1;
    }
    if open.len() > 0 {
        solve_collisions_for_set(&open, bodies);
        proof {
            assert(closed.push(open@).drop_last() =~= closed);
        }
    }
}

} // verus!
