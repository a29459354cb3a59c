//! In what order holes are merged, and from which node.
use vstd::prelude::*;
use crate::exact::Exact;
use crate::exact_areas::{lemma_bounded, LIMIT};
use crate::fresh_index::{lemma_order, moderate_node, moderate_table};
use crate::hole_model::{comes_after, in_order, leftmost, put_in, slope};
use crate::laws::lemma_in_order_sorted;
use crate::model::{after, Pt};
use crate::rings::is_ring;
use crate::scalar::Scalar;
use crate::scaling_holes::lemma_slope;

verus! {

// ---------------------------------------------------------------------------------------------
// The leftmost node
// ---------------------------------------------------------------------------------------------
/// No node of a ring with integer coordinates is further left than the leftmost; none further left
/// or equally far is lower; and of nodes at the same place the leftmost comes first.
pub proof fn lemma_leftmost_first(pts: Seq<Pt<Exact>>, r: Seq<int>, k: int)
    requires
        moderate_table(pts),
        is_ring(r, pts.len() as int),
        1 <= k <= r.len(),
    ensures
        0 <= leftmost(pts, r, k) < k,
        forall|j: int|
            #![trigger r[j]]
            0 <= j < k ==> {
                let l = leftmost(pts, r, k);
                let (p, q) = (pts[r[l]], pts[r[j]]);
                ||| p.x.num < q.x.num
                ||| p.x.num == q.x.num && p.y.num < q.y.num
                ||| p.x.num == q.x.num && p.y.num == q.y.num && l <= j
            },
    decreases k,
{
    if k > 1 {
        lemma_leftmost_first(pts, r, k - 1);
        let best = leftmost(pts, r, k - 1);
        let l = leftmost(pts, r, k);
        assert(0 <= r[best] < pts.len() && 0 <= r[k - 1] < pts.len());
        let (p, q) = (pts[r[k - 1]], pts[r[best]]);
        assert(moderate_node(p) && moderate_node(q));
        lemma_order(p.x, q.x);
        lemma_order(q.x, p.x);
        lemma_order(p.y, q.y);
        lemma_order(q.y, p.y);
        assert forall|j: int| #![trigger r[j]] 0 <= j < k implies {
            let (p, q) = (pts[r[l]], pts[r[j]]);
            ||| p.x.num < q.x.num
            ||| p.x.num == q.x.num && p.y.num < q.y.num
            ||| p.x.num == q.x.num && p.y.num == q.y.num && l <= j
        } by {}
    }
}

// ---------------------------------------------------------------------------------------------
// The order of holes
// ---------------------------------------------------------------------------------------------
/// The holes are of nodes of the table.
pub open spec fn nodes_in(q: Seq<Seq<int>>, n: int) -> bool {
    forall|j: int|
        #![trigger q[j]]
        0 <= j < q.len() ==> q[j].len() > 0 && forall|i: int|
            0 <= i < q[j].len() ==> 0 <= #[trigger] q[j][i] < n
}

/// Where the hole starts, as a number: by its column, and in that by its row.
spec fn rank(pts: Seq<Pt<Exact>>, hole: Seq<int>) -> int {
    pts[hole[0]].x.num * 0x1_0000_0000 + pts[hole[0]].y.num
}

/// Which of two holes is further on, told by their numbers.
proof fn lemma_rank(pts: Seq<Pt<Exact>>, a: Seq<int>, b: Seq<int>)
    requires
        moderate_node(pts[a[0]]),
        moderate_node(pts[b[0]]),
    ensures
        comes_after(pts, a, b) ==> rank(pts, b) <= rank(pts, a),
        !comes_after(pts, a, b) ==> rank(pts, a) <= rank(pts, b),
        rank(pts, a) <= rank(pts, b) <==> pts[a[0]].x.num < pts[b[0]].x.num || (pts[a[0]].x.num
            == pts[b[0]].x.num && pts[a[0]].y.num <= pts[b[0]].y.num),
{
    let (p, q) = (pts[a[0]], pts[b[0]]);
    lemma_order(p.x, q.x);
    lemma_order(q.x, p.x);
    lemma_order(p.y, q.y);
    lemma_order(q.y, p.y);
}

/// The numbers of the holes ascend.
spec fn ascending(pts: Seq<Pt<Exact>>, q: Seq<Seq<int>>) -> bool {
    forall|i: int, j: int|
        0 <= i < j < q.len() ==> rank(pts, #[trigger] q[i]) <= rank(pts, #[trigger] q[j])
}

/// Putting a hole in its place adds it, and drops none.
proof fn lemma_put_in_all<C: Scalar>(pts: Seq<Pt<C>>, q: Seq<Seq<int>>, hole: Seq<int>)
    ensures
        put_in(pts, q, hole).to_multiset() == q.to_multiset().insert(hole),
        put_in(pts, q, hole).len() == q.len() + 1,
    decreases q.len(),
{
    broadcast use vstd::seq_lib::group_to_multiset_ensures;

    if q.len() > 0 && comes_after(pts, q.last(), hole) {
        let d = q.drop_last();
        lemma_put_in_all(pts, d, hole);
        assert(d.push(q.last()) =~= q);
        assert(q.to_multiset() =~= d.to_multiset().insert(q.last()));
        assert(put_in(pts, q, hole).to_multiset() =~= put_in(pts, d, hole).to_multiset().insert(
            q.last(),
        ));
        assert(q.to_multiset().insert(hole) =~= put_in(pts, q, hole).to_multiset());
    }
}

/// Putting holes in order keeps all of them, each as often as it occurs, and adds none.
pub proof fn lemma_all_in_order<C: Scalar>(pts: Seq<Pt<C>>, q: Seq<Seq<int>>)
    ensures
        in_order(pts, q).to_multiset() == q.to_multiset(),
        in_order(pts, q).len() == q.len(),
    decreases q.len(),
{
    broadcast use vstd::seq_lib::group_to_multiset_ensures;

    if q.len() > 0 {
        let d = q.drop_last();
        lemma_all_in_order(pts, d);
        lemma_put_in_all(pts, in_order(pts, d), q.last());
        assert(d.push(q.last()) =~= q);
        assert(q.to_multiset() =~= d.to_multiset().insert(q.last()));
    }
}

/// Putting a hole in its place keeps the numbers ascending.
proof fn lemma_put_in_ascending(pts: Seq<Pt<Exact>>, q: Seq<Seq<int>>, hole: Seq<int>)
    requires
        moderate_table(pts),
        nodes_in(q.push(hole), pts.len() as int),
        ascending(pts, q),
    ensures
        nodes_in(put_in(pts, q, hole), pts.len() as int),
        ascending(pts, put_in(pts, q, hole)),
        forall|b: int| q.len() > 0 && rank(pts, hole) <= b && rank(pts, q.last()) <= b ==> below(
            pts,
            put_in(pts, q, hole),
            b,
        ),
    decreases q.len(),
{
    let n = pts.len() as int;
    let all = q.push(hole);
    let t = put_in(pts, q, hole);
    assert(all[q.len() as int] == hole);
    assert(hole.len() > 0 && 0 <= hole[0] < n);
    assert(moderate_node(pts[hole[0]]));
    assert forall|j: int| #![trigger q[j]] 0 <= j < q.len() implies q[j].len() > 0 && 0 <= q[j][0]
        < n && moderate_node(pts[q[j][0]]) by {
        assert(all[j] == q[j]);
        assert(0 <= all[j][0] < n);
    }
    if q.len() > 0 {
        let l = q.last();
        assert(q[q.len() - 1] == l);
        lemma_rank(pts, l, hole);
        if comes_after(pts, l, hole) {
            let d = q.drop_last();
            assert forall|j: int| #![trigger d.push(hole)[j]] 0 <= j < d.push(hole).len() implies
                d.push(hole)[j].len() > 0 && forall|i: int|
                0 <= i < d.push(hole)[j].len() ==> 0 <= #[trigger] d.push(hole)[j][i] < n by {
                if j < d.len() {
                    assert(d.push(hole)[j] == all[j]);
                }
            }
            assert(ascending(pts, d)) by {
                assert forall|i: int, j: int| 0 <= i < j < d.len() implies rank(
                    pts,
                    #[trigger] d[i],
                ) <= rank(pts, #[trigger] d[j]) by {
                    assert(d[i] == q[i] && d[j] == q[j]);
                }
            }
            lemma_put_in_ascending(pts, d, hole);
            let u = put_in(pts, d, hole);
            assert(t == u.push(l));
            assert(below(pts, u, rank(pts, l))) by {
                if d.len() > 0 {
                    assert(d.last() == q[q.len() - 2]);
                    assert(rank(pts, q[q.len() - 2]) <= rank(pts, q[q.len() - 1]));
                }
            }
            assert forall|i: int, j: int| 0 <= i < j < t.len() implies rank(pts, #[trigger] t[i])
                <= rank(pts, #[trigger] t[j]) by {
                assert(t[i] == u[i]);
                if j < u.len() {
                    assert(t[j] == u[j]);
                }
            }
            assert forall|j: int| #![trigger t[j]] 0 <= j < t.len() implies t[j].len() > 0
                && forall|i: int| 0 <= i < t[j].len() ==> 0 <= #[trigger] t[j][i] < n by {
                if j < u.len() {
                    assert(t[j] == u[j]);
                } else {
                    assert(t[j] == all[q.len() - 1]);
                }
            }
        } else {
            assert(t == all);
            assert forall|i: int, j: int| 0 <= i < j < t.len() implies rank(pts, #[trigger] t[i])
                <= rank(pts, #[trigger] t[j]) by {
                assert(t[i] == q[i]);
                if j < q.len() {
                    assert(t[j] == q[j]);
                } else if i < q.len() - 1 {
                    assert(rank(pts, q[i]) <= rank(pts, q[q.len() - 1]));
                }
            }
        }
        assert forall|b: int| rank(pts, hole) <= b && rank(pts, l) <= b implies below(
            pts,
            t,
            b,
        ) by {
            assert(t.len() > 0);
            if comes_after(pts, l, hole) {
                assert(t.last() == l);
            } else {
                assert(t.last() == hole);
            }
            assert forall|i: int| 0 <= i < t.len() implies rank(pts, #[trigger] t[i]) <= b by {
                assert(t[t.len() - 1] == t.last());
                if i < t.len() - 1 {
                    assert(rank(pts, t[i]) <= rank(pts, t[t.len() - 1]));
                }
            }
        }
    }
}

/// No number of a hole is above `b`.
spec fn below(pts: Seq<Pt<Exact>>, q: Seq<Seq<int>>, b: int) -> bool {
    forall|i: int| 0 <= i < q.len() ==> rank(pts, #[trigger] q[i]) <= b
}

/// Holes in order have ascending numbers.
proof fn lemma_in_order_ascending(pts: Seq<Pt<Exact>>, q: Seq<Seq<int>>)
    requires
        moderate_table(pts),
        nodes_in(q, pts.len() as int),
    ensures
        nodes_in(in_order(pts, q), pts.len() as int),
        ascending(pts, in_order(pts, q)),
    decreases q.len(),
{
    if q.len() > 0 {
        let n = pts.len() as int;
        let d = q.drop_last();
        assert forall|j: int| #![trigger d[j]] 0 <= j < d.len() implies d[j].len() > 0
            && forall|i: int| 0 <= i < d[j].len() ==> 0 <= #[trigger] d[j][i] < n by {
            assert(d[j] == q[j]);
        }
        lemma_in_order_ascending(pts, d);
        let e = in_order(pts, d);
        assert(q[q.len() - 1] == q.last());
        assert forall|j: int| #![trigger e.push(q.last())[j]]
            0 <= j < e.push(q.last()).len() implies e.push(q.last())[j].len() > 0 && forall|i: int|
            0 <= i < e.push(q.last())[j].len() ==> 0 <= #[trigger] e.push(q.last())[j][i] < n by {
            if j < e.len() {
                assert(e.push(q.last())[j] == e[j]);
            }
        }
        lemma_put_in_ascending(pts, e, q.last());
    }
}

/// Holes with integer coordinates are merged from left to right, and those that start on the same
/// vertical from below.
pub proof fn lemma_left_to_right(pts: Seq<Pt<Exact>>, q: Seq<Seq<int>>, i: int, j: int)
    requires
        moderate_table(pts),
        nodes_in(q, pts.len() as int),
        0 <= i < j < in_order(pts, q).len(),
    ensures
        ({
            let s = in_order(pts, q);
            let (a, b) = (pts[s[i][0]], pts[s[j][0]]);
            a.x.num < b.x.num || (a.x.num == b.x.num && a.y.num <= b.y.num)
        }),
{
    let s = in_order(pts, q);
    lemma_in_order_ascending(pts, q);
    assert(s[i].len() > 0 && s[j].len() > 0);
    assert(0 <= s[i][0] < pts.len() && 0 <= s[j][0] < pts.len());
    assert(moderate_node(pts[s[i][0]]) && moderate_node(pts[s[j][0]]));
    assert(rank(pts, s[i]) <= rank(pts, s[j]));
    lemma_rank(pts, s[i], s[j]);
}

/// The run of the first edge of a hole.
spec fn run(pts: Seq<Pt<Exact>>, a: Seq<int>) -> int {
    pts[a[after(0, a.len() as int)]].x.num - pts[a[0]].x.num
}

/// The rise of the first edge of a hole.
spec fn rise(pts: Seq<Pt<Exact>>, a: Seq<int>) -> int {
    pts[a[after(0, a.len() as int)]].y.num - pts[a[0]].y.num
}

/// Where two holes start at the same place, the one with the steeper edge comes after the other.
proof fn lemma_steeper(pts: Seq<Pt<Exact>>, a: Seq<int>, b: Seq<int>)
    requires
        moderate_node(pts[a[0]]),
        moderate_node(pts[b[0]]),
        moderate_node(pts[a[after(0, a.len() as int)]]),
        moderate_node(pts[b[after(0, b.len() as int)]]),
        run(pts, a) > 0,
        run(pts, b) > 0,
    ensures
        comes_after(pts, a, b) <==> {
            let (p, q) = (pts[a[0]], pts[b[0]]);
            ||| q.x.num < p.x.num
            ||| q.x.num == p.x.num && q.y.num < p.y.num
            ||| q.x.num == p.x.num && q.y.num == p.y.num && rise(pts, b) * run(pts, a) < rise(
                pts,
                a,
            ) * run(pts, b)
        },
{
    let (p, q) = (pts[a[0]], pts[b[0]]);
    lemma_order(p.x, q.x);
    lemma_order(q.x, p.x);
    lemma_order(p.y, q.y);
    lemma_order(q.y, p.y);
    lemma_slope(pts, a[0], a[after(0, a.len() as int)]);
    lemma_slope(pts, b[0], b[after(0, b.len() as int)]);
    let (u, v) = (slope(pts, a), slope(pts, b));
    assert(u.num == rise(pts, a) && u.den == run(pts, a));
    assert(v.num == rise(pts, b) && v.den == run(pts, b));
    let m = 2 * LIMIT;
    lemma_bounded(u.num as int, v.den as int, m, m);
    lemma_bounded(v.num as int, u.den as int, m, m);
    assert(m * m <= 0x8000_0000_0000_0000) by (nonlinear_arith)
        requires
            m == 0x8000_0000,
    ;
}

/// Slopes are ordered.
proof fn lemma_slopes(a: int, b: int, c: int, d: int, e: int, f: int)
    requires
        b > 0,
        d > 0,
        f > 0,
        a * d <= c * b,
        c * f <= e * d,
    ensures
        a * f <= e * b,
{
    assert((a * d) * f <= (c * b) * f) by (nonlinear_arith)
        requires
            a * d <= c * b,
            f > 0,
    ;
    assert((c * f) * b <= (e * d) * b) by (nonlinear_arith)
        requires
            c * f <= e * d,
            b > 0,
    ;
    assert((a * d) * f == d * (a * f) && (c * b) * f == (c * f) * b && (e * d) * b == d * (e * b))
        by (nonlinear_arith);
    assert(a * f <= e * b) by (nonlinear_arith)
        requires
            d * (a * f) <= d * (e * b),
            d > 0,
    ;
}

/// Of holes with integer coordinates that start at the same place, with edges that lead to the
/// right, those with less steep edges are merged first.
pub proof fn lemma_by_slope(pts: Seq<Pt<Exact>>, q: Seq<Seq<int>>, i: int, j: int)
    requires
        moderate_table(pts),
        nodes_in(q, pts.len() as int),
        forall|k: int|
            #![trigger q[k]]
            0 <= k < q.len() ==> pts[q[k][0]].x.num < pts[q[k][after(
                0,
                q[k].len() as int,
            )]].x.num,
        0 <= i < j < in_order(pts, q).len(),
    ensures
        ({
            let s = in_order(pts, q);
            let (a, b) = (pts[s[i][0]], pts[s[j][0]]);
            let c = pts[s[i][after(0, s[i].len() as int)]];
            let d = pts[s[j][after(0, s[j].len() as int)]];
            a.x.num == b.x.num && a.y.num == b.y.num ==> (c.y.num - a.y.num) * (d.x.num - b.x.num)
                <= (d.y.num - b.y.num) * (c.x.num - a.x.num)
        }),
{
    let s = in_order(pts, q);
    let n = pts.len() as int;
    assert forall|a: Seq<int>| #[trigger] q.contains(a) implies moderate_node(pts[a[0]])
        && moderate_node(pts[a[after(0, a.len() as int)]]) && run(pts, a) > 0 by {
        let k = choose|k: int| 0 <= k < q.len() && q[k] == a;
        assert(q[k].len() > 0);
        let f = after(0, q[k].len() as int);
        assert(0 <= q[k][0] < n && 0 <= q[k][f] < n);
    }
    assert forall|a: Seq<int>, b: Seq<int>|
        q.contains(a) && q.contains(b) && #[trigger] comes_after(pts, a, b) implies !comes_after(
        pts,
        b,
        a,
    ) by {
        lemma_steeper(pts, a, b);
        lemma_steeper(pts, b, a);
    }
    assert forall|a: Seq<int>, b: Seq<int>, c: Seq<int>|
        q.contains(a) && q.contains(b) && q.contains(c) && !#[trigger] comes_after(pts, a, b)
            && !#[trigger] comes_after(pts, b, c) implies !comes_after(pts, a, c) by {
        lemma_steeper(pts, a, b);
        lemma_steeper(pts, b, c);
        lemma_steeper(pts, a, c);
        let (u, v, w) = (pts[a[0]], pts[b[0]], pts[c[0]]);
        if u.x.num == v.x.num && v.x.num == w.x.num && u.y.num == v.y.num && v.y.num == w.y.num {
            lemma_slopes(
                rise(pts, a),
                run(pts, a),
                rise(pts, b),
                run(pts, b),
                rise(pts, c),
                run(pts, c),
            );
        }
    }
    lemma_in_order_sorted(pts, q);
    lemma_all_in_order(pts, q);
    lemma_from_all(q, s, i);
    lemma_from_all(q, s, j);
    assert(!comes_after(pts, s[i], s[j]));
    lemma_steeper(pts, s[i], s[j]);
}

/// What is in one list is in another that holds the same.
pub(crate) proof fn lemma_from_all(q: Seq<Seq<int>>, s: Seq<Seq<int>>, i: int)
    requires
        s.to_multiset() == q.to_multiset(),
        0 <= i < s.len(),
    ensures
        q.contains(s[i]),
{
    broadcast use vstd::seq_lib::group_to_multiset_ensures;

    assert(s.contains(s[i]));
    assert(s.to_multiset().count(s[i]) > 0);
    assert(q.to_multiset().count(s[i]) > 0);
}

} // verus!
