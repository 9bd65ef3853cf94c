//! Group connectivity: partitions the occupied cells of one color into
//! maximal groups of 4-adjacent stones (no diagonals, no wraparound),
//! ordered for reproducible output: cells within a group ascending, groups
//! by their smallest member.

use vstd::prelude::*;
use vstd::pervasive::VecAdditionalExecFns;
use vstd::arithmetic::div_mod::{
    lemma_fundamental_div_mod,
    lemma_fundamental_div_mod_converse,
    lemma_mod_bound,
};
use crate::model::{GoColor, Cell};
use crate::board::Board;

verus! {

/// The cell at index `i` exists and holds a stone of `color`.
pub open spec fn occupied_by(cells: Seq<Cell>, color: GoColor, i: int) -> bool {
    0 <= i < cells.len() && cells[i] == Cell::Occupied(color)
}

/// Two cell indices are 4-adjacent on a grid of width `w`: side by side in
/// the same row, or exactly one row apart in the same column.
pub open spec fn adj(w: int, a: int, b: int) -> bool {
    ||| (a / w == b / w && (a + 1 == b || b + 1 == a))
    ||| a + w == b
    ||| b + w == a
}

/// `p` is a path of stones of `color` from cell `a` to cell `b`: every
/// step 4-adjacent, every cell occupied by `color`.
pub open spec fn is_path(
    cells: Seq<Cell>,
    w: int,
    color: GoColor,
    p: Seq<int>,
    a: int,
    b: int,
) -> bool {
    &&& p.len() > 0
    &&& p[0] == a
    &&& p.last() == b
    &&& (forall|k: int| 0 <= k < p.len() ==> occupied_by(cells, color, #[trigger] p[k]))
    &&& (forall|k: int| 0 <= k < p.len() - 1 ==> adj(w, #[trigger] p[k], p[k + 1]))
}

/// Two cells are connected when some path of same-color stones joins them.
pub open spec fn connected(cells: Seq<Cell>, w: int, color: GoColor, a: int, b: int) -> bool {
    exists|p: Seq<int>| is_path(cells, w, color, p, a, b)
}

/// Every occupied cell is connected to itself.
pub proof fn lemma_connected_refl(cells: Seq<Cell>, w: int, color: GoColor, a: int)
    requires
        occupied_by(cells, color, a),
    ensures
        connected(cells, w, color, a, a),
{
    let p: Seq<int> = seq![a];
    assert(is_path(cells, w, color, p, a, a));
}

/// A connection extends by one adjacent stone.
pub proof fn lemma_connected_step(cells: Seq<Cell>, w: int, color: GoColor, a: int, b: int, c: int)
    requires
        connected(cells, w, color, a, b),
        adj(w, b, c),
        occupied_by(cells, color, c),
    ensures
        connected(cells, w, color, a, c),
{
    let p = choose|p: Seq<int>| is_path(cells, w, color, p, a, b);
    let q = p.push(c);
    assert forall|k: int| 0 <= k < q.len() implies occupied_by(cells, color, #[trigger] q[k]) by {
        if k < p.len() {
            assert(q[k] == p[k]);
        }
    }
    assert forall|k: int| 0 <= k < q.len() - 1 implies adj(w, #[trigger] q[k], q[k + 1]) by {
        if k < p.len() - 1 {
            assert(q[k] == p[k] && q[k + 1] == p[k + 1]);
        } else {
            assert(q[k] == p.last() && q[k + 1] == c);
        }
    }
    assert(is_path(cells, w, color, q, a, c));
}

/// Connectivity is symmetric: the reversed path joins `b` to `a`.
pub proof fn lemma_connected_sym(cells: Seq<Cell>, w: int, color: GoColor, a: int, b: int)
    requires
        connected(cells, w, color, a, b),
    ensures
        connected(cells, w, color, b, a),
{
    let p = choose|p: Seq<int>| is_path(cells, w, color, p, a, b);
    let n = p.len();
    let q = Seq::<int>::new(n, |k: int| p[n - 1 - k]);
    assert forall|k: int| 0 <= k < q.len() - 1 implies adj(w, #[trigger] q[k], q[k + 1]) by {
        assert(q[k] == p[n - 1 - k] && q[k + 1] == p[n - 2 - k]);
        assert(adj(w, p[n - 2 - k], p[n - 1 - k]));
    }
    assert(q[0] == b && q.last() == a);
    assert(is_path(cells, w, color, q, b, a));
}

/// Connectivity is transitive: the two paths concatenate.
pub proof fn lemma_connected_trans(
    cells: Seq<Cell>,
    w: int,
    color: GoColor,
    a: int,
    b: int,
    c: int,
)
    requires
        connected(cells, w, color, a, b),
        connected(cells, w, color, b, c),
    ensures
        connected(cells, w, color, a, c),
{
    let p1 = choose|p: Seq<int>| is_path(cells, w, color, p, a, b);
    let p2 = choose|p: Seq<int>| is_path(cells, w, color, p, b, c);
    let n1 = p1.len();
    let n2 = p2.len();
    if n2 == 1 {
        assert(b == c);
        assert(is_path(cells, w, color, p1, a, c));
    } else {
        let q = p1 + p2.drop_first();
        assert(q.len() == n1 + n2 - 1);
        assert(q[0] == p1[0]);
        assert(q.last() == p2.drop_first().last());
        assert(p2.drop_first().last() == p2.last());
        assert forall|k: int| 0 <= k < q.len() implies occupied_by(cells, color, #[trigger] q[k]) by {
            if k < n1 {
                assert(q[k] == p1[k]);
            } else {
                assert(q[k] == p2.drop_first()[k - n1]);
                assert(p2.drop_first()[k - n1] == p2[k - n1 + 1]);
            }
        }
        assert forall|k: int| 0 <= k < q.len() - 1 implies adj(w, #[trigger] q[k], q[k + 1]) by {
            if k < n1 - 1 {
                assert(q[k] == p1[k] && q[k + 1] == p1[k + 1]);
                assert(adj(w, p1[k], p1[k + 1]));
            } else if k == n1 - 1 {
                assert(q[k] == p1[n1 - 1]);
                assert(q[k + 1] == p2.drop_first()[0]);
                assert(p2.drop_first()[0] == p2[1]);
                assert(adj(w, p2[0], p2[1]));
            } else {
                assert(q[k] == p2.drop_first()[k - n1]);
                assert(q[k + 1] == p2.drop_first()[k + 1 - n1]);
                assert(p2.drop_first()[k - n1] == p2[k - n1 + 1]);
                assert(p2.drop_first()[k + 1 - n1] == p2[k + 2 - n1]);
                assert(adj(w, p2[k - n1 + 1], p2[k - n1 + 2]));
            }
        }
        assert(is_path(cells, w, color, q, a, c));
    }
}

/// A set of marks is closed when every occupied neighbor of a marked cell
/// is marked too.
pub open spec fn marked(m: Seq<bool>, i: int) -> bool {
    0 <= i < m.len() && m[i]
}

/// Every occupied cell 4-adjacent to a marked cell is itself marked.
pub open spec fn closed_marks(cells: Seq<Cell>, w: int, color: GoColor, m: Seq<bool>) -> bool {
    forall|v: int, u: int|
        #[trigger] marked(m, v) && occupied_by(cells, color, u) && #[trigger] adj(w, v, u)
            ==> marked(m, u)
}

/// Walking a path of stones out of a closed marked set is impossible: the
/// path's far end is marked too.
pub proof fn lemma_closed_path(
    cells: Seq<Cell>,
    w: int,
    color: GoColor,
    m: Seq<bool>,
    p: Seq<int>,
    a: int,
    b: int,
)
    requires
        closed_marks(cells, w, color, m),
        marked(m, a),
        is_path(cells, w, color, p, a, b),
    ensures
        marked(m, b),
    decreases p.len(),
{
    if p.len() == 1 {
        assert(b == a);
    } else {
        assert(adj(w, p[0], p[1]));
        assert(occupied_by(cells, color, p[1]));
        assert(marked(m, p[1]));
        let p2 = p.drop_first();
        assert forall|k: int| 0 <= k < p2.len() implies occupied_by(cells, color, #[trigger] p2[k]) by {
            assert(p2[k] == p[k + 1]);
        }
        assert forall|k: int| 0 <= k < p2.len() - 1 implies adj(w, #[trigger] p2[k], p2[k + 1]) by {
            assert(p2[k] == p[k + 1] && p2[k + 1] == p[k + 2]);
            assert(adj(w, p[k + 1], p[k + 2]));
        }
        assert(is_path(cells, w, color, p2, p[1], b));
        lemma_closed_path(cells, w, color, m, p2, p[1], b);
    }
}

/// A cell connected to a marked cell of a closed set is marked.
pub proof fn lemma_closed_connected(
    cells: Seq<Cell>,
    w: int,
    color: GoColor,
    m: Seq<bool>,
    a: int,
    b: int,
)
    requires
        closed_marks(cells, w, color, m),
        marked(m, a),
        connected(cells, w, color, a, b),
    ensures
        marked(m, b),
{
    let p = choose|p: Seq<int>| is_path(cells, w, color, p, a, b);
    lemma_closed_path(cells, w, color, m, p, a, b);
}

/// The in-grid 4-neighbors of cell `v`, exactly: every returned index is
/// in the grid and adjacent to `v`, and every in-grid index adjacent to
/// `v` is returned.
pub fn neighbors_of(v: usize, w: usize, h: usize) -> (r: Vec<usize>)
    requires
        w >= 1,
        h >= 1,
        (v as int) < w as int * h as int,
        w as int * h as int <= usize::MAX as int,
    ensures
        forall|k: int|
            0 <= k < r@.len() ==> ((#[trigger] r@[k]) as int) < w as int * h as int && adj(
                w as int,
                v as int,
                r@[k] as int,
            ),
        forall|u: int|
            0 <= u < w as int * h as int && #[trigger] adj(w as int, v as int, u) ==> exists|k: int|
                0 <= k < r@.len() && ((#[trigger] r@[k]) as int) == u,
{
    let x = v % w;
    let y = v / w;
    let wi = Ghost(w as int);
    let hi = Ghost(h as int);
    let vi = Ghost(v as int);
    let xi = Ghost(x as int);
    let yi = Ghost(y as int);
    proof {
        lemma_fundamental_div_mod(vi@, wi@);
        lemma_mod_bound(vi@, wi@);
        assert(vi@ == yi@ * wi@ + xi@) by (nonlinear_arith)
            requires
                vi@ == wi@ * (vi@ / wi@) + vi@ % wi@,
                yi@ == vi@ / wi@,
                xi@ == vi@ % wi@,
        ;
        assert(yi@ < hi@) by (nonlinear_arith)
            requires
                vi@ == yi@ * wi@ + xi@,
                0 <= xi@,
                0 <= yi@,
                vi@ < wi@ * hi@,
                wi@ >= 1,
        ;
    }
    let mut r: Vec<usize> = Vec::new();
    if x > 0 {
        r.push(v - 1);
        proof {
            lemma_fundamental_div_mod_converse(vi@ - 1, wi@, yi@, xi@ - 1);
            assert(adj(wi@, vi@, vi@ - 1));
        }
    }
    if x + 1 < w {
        proof {
            assert(vi@ + 1 < wi@ * hi@) by (nonlinear_arith)
                requires
                    vi@ == yi@ * wi@ + xi@,
                    xi@ + 1 < wi@,
                    yi@ < hi@,
                    0 <= yi@,
                    wi@ >= 1,
            ;
        }
        r.push(v + 1);
        proof {
            lemma_fundamental_div_mod_converse(vi@ + 1, wi@, yi@, xi@ + 1);
            assert(adj(wi@, vi@, vi@ + 1));
        }
    }
    if y > 0 {
        proof {
            assert(wi@ <= yi@ * wi@) by (nonlinear_arith)
                requires
                    1 <= yi@,
                    1 <= wi@,
            ;
            assert(v >= w);
        }
        r.push(v - w);
        proof {
            assert(adj(wi@, vi@, vi@ - wi@));
        }
    }
    if y + 1 < h {
        proof {
            assert(vi@ + wi@ < wi@ * hi@) by (nonlinear_arith)
                requires
                    vi@ == yi@ * wi@ + xi@,
                    0 <= xi@ < wi@,
                    yi@ + 1 < hi@,
                    0 <= yi@,
                    wi@ >= 1,
            ;
        }
        r.push(v + w);
        proof {
            assert(adj(wi@, vi@, vi@ + wi@));
        }
    }
    proof {
        assert forall|u: int| 0 <= u < wi@ * hi@ && adj(wi@, vi@, u) implies exists|k: int|
            0 <= k < r@.len() && ((#[trigger] r@[k]) as int) == u by {
            if u == vi@ + wi@ {
                assert(yi@ + 1 < hi@) by (nonlinear_arith)
                    requires
                        u == vi@ + wi@,
                        vi@ == yi@ * wi@ + xi@,
                        0 <= xi@ < wi@,
                        u < wi@ * hi@,
                        wi@ >= 1,
                        0 <= yi@,
                ;
                let k = (if xi@ > 0 { 1int } else { 0int }) + (if xi@ + 1 < wi@ { 1int } else { 0int })
                    + (if yi@ > 0 { 1int } else { 0int });
                assert(r@[k] as int == u);
            } else if u + wi@ == vi@ {
                assert(yi@ > 0) by (nonlinear_arith)
                    requires
                        u + wi@ == vi@,
                        vi@ == yi@ * wi@ + xi@,
                        0 <= xi@ < wi@,
                        0 <= u,
                        wi@ >= 1,
                        0 <= yi@,
                ;
                let k = (if xi@ > 0 { 1int } else { 0int }) + (if xi@ + 1 < wi@ { 1int } else { 0int });
                assert(r@[k] as int == u);
            } else {
                // neither vertical disjunct holds, so u sits in the same row
                assert(u / wi@ == vi@ / wi@ && (vi@ + 1 == u || u + 1 == vi@));
                lemma_fundamental_div_mod(u, wi@);
                lemma_mod_bound(u, wi@);
                let yu = u / wi@;
                let xu = u % wi@;
                assert(u == yu * wi@ + xu) by (nonlinear_arith)
                    requires
                        u == wi@ * (u / wi@) + u % wi@,
                        yu == u / wi@,
                        xu == u % wi@,
                ;
                assert(yu == yi@);
                if u + 1 == vi@ {
                    assert(xu == xi@ - 1) by (nonlinear_arith)
                        requires
                            u == yu * wi@ + xu,
                            vi@ == yi@ * wi@ + xi@,
                            u == vi@ - 1,
                            yu == yi@,
                    ;
                    assert(xi@ > 0);
                    assert(r@[0] as int == u);
                } else {
                    assert(xu == xi@ + 1) by (nonlinear_arith)
                        requires
                            u == yu * wi@ + xu,
                            vi@ == yi@ * wi@ + xi@,
                            u == vi@ + 1,
                            yu == yi@,
                    ;
                    assert(xi@ + 1 < wi@);
                    let k = if xi@ > 0 { 1int } else { 0int };
                    assert(r@[k] as int == u);
                }
            }
        }
    }
    r
}


/// How many marks are set.
pub open spec fn count_true(m: Seq<bool>) -> nat
    decreases m.len(),
{
    if m.len() == 0 {
        0
    } else {
        count_true(m.drop_last()) + (if m.last() {
            1nat
        } else {
            0nat
        })
    }
}

/// Setting a clear mark raises the count by one.
pub proof fn lemma_count_true_update(m: Seq<bool>, i: int)
    requires
        0 <= i < m.len(),
        !m[i],
    ensures
        count_true(m.update(i, true)) == count_true(m) + 1,
    decreases m.len(),
{
    if i == m.len() - 1 {
        assert(m.update(i, true).drop_last() =~= m.drop_last());
        assert(m.update(i, true).last());
    } else {
        assert(m.update(i, true).drop_last() =~= m.drop_last().update(i, true));
        assert(m.update(i, true).last() == m.last());
        lemma_count_true_update(m.drop_last(), i);
    }
}

/// No more marks than cells.
pub proof fn lemma_count_true_bound(m: Seq<bool>)
    ensures
        count_true(m) <= m.len(),
    decreases m.len(),
{
    if m.len() > 0 {
        lemma_count_true_bound(m.drop_last());
    }
}

/// The cell index `v` is on the stack.
pub open spec fn in_stack(st: Seq<usize>, v: int) -> bool {
    exists|k: int| 0 <= k < st.len() && ((#[trigger] st[k]) as int) == v
}

/// The cell index `c` is a member of the group.
pub open spec fn in_group(g: Seq<usize>, c: int) -> bool {
    exists|k: int| 0 <= k < g.len() && ((#[trigger] g[k]) as int) == c
}

/// The cell index `c` is a member of some listed group.
pub open spec fn in_some_group(gs: Seq<Vec<usize>>, c: int) -> bool {
    exists|i: int| 0 <= i < gs.len() && in_group((#[trigger] gs[i])@, c)
}

/// The full contract of group analysis: the listed groups partition the
/// occupied cells of `color` into maximal 4-connected components, cells
/// within a group strictly ascending and groups ordered by their smallest
/// (first) member.
pub open spec fn groups_correct(
    cells: Seq<Cell>,
    w: int,
    color: GoColor,
    gs: Seq<Vec<usize>>,
) -> bool {
    &&& (forall|i: int| 0 <= i < gs.len() ==> (#[trigger] gs[i])@.len() > 0)
    &&& (forall|i: int, k: int, l: int|
        #![trigger gs[i]@[k], gs[i]@[l]]
        0 <= i < gs.len() && 0 <= k < l < gs[i]@.len() ==> gs[i]@[k] < gs[i]@[l])
    &&& (forall|i: int, j: int| #![trigger gs[i], gs[j]] 0 <= i < j < gs.len() ==> gs[i]@[0] < gs[j]@[0])
    &&& (forall|i: int, k: int|
        #![trigger gs[i]@[k]]
        0 <= i < gs.len() && 0 <= k < gs[i]@.len() ==> occupied_by(cells, color, gs[i]@[k] as int))
    &&& (forall|c: int| #[trigger] occupied_by(cells, color, c) ==> in_some_group(gs, c))
    &&& (forall|i: int, j: int, k: int, l: int|
        #![trigger gs[i]@[k], gs[j]@[l]]
        0 <= i < gs.len() && 0 <= j < gs.len() && i != j && 0 <= k < gs[i]@.len() && 0 <= l
            < gs[j]@.len() ==> gs[i]@[k] != gs[j]@[l])
    &&& (forall|i: int, k: int, l: int|
        #![trigger gs[i]@[k], gs[i]@[l]]
        0 <= i < gs.len() && 0 <= k < gs[i]@.len() && 0 <= l < gs[i]@.len() ==> connected(
            cells,
            w,
            color,
            gs[i]@[k] as int,
            gs[i]@[l] as int,
        ))
    &&& (forall|i: int, j: int, k: int, l: int|
        #![trigger gs[i]@[k], gs[j]@[l]]
        0 <= i < gs.len() && 0 <= j < gs.len() && i != j && 0 <= k < gs[i]@.len() && 0 <= l
            < gs[j]@.len() ==> !connected(cells, w, color, gs[i]@[k] as int, gs[j]@[l] as int))
}

/// A vector of `n` clear marks.
fn make_marks(n: usize) -> (r: Vec<bool>)
    ensures
        r@.len() == n,
        forall|i: int| 0 <= i < n ==> !(#[trigger] r@[i]),
{
    let mut r: Vec<bool> = Vec::new();
    while r.len() < n
        invariant
            r@.len() <= n,
            forall|i: int| 0 <= i < r@.len() ==> !(#[trigger] r@[i]),
        decreases n - r@.len(),
    {
        r.push(false);
    }
    r
}

/// Partitions the occupied cells of `color` into maximal groups of
/// 4-adjacent stones, by flood fill from the smallest unvisited stone.
/// Every stone of the color lands in exactly one group; two stones share a
/// group exactly when a path of 4-adjacent same-color stones joins them.
/// Cells within a group come out ascending, groups ordered by their
/// smallest member; a color with no stones yields no groups.
#[verifier::loop_isolation(false)]
#[verifier::rlimit(100)]
pub fn groups_for(board: &Board, color: GoColor) -> (r: Vec<Vec<usize>>)
    requires
        board.wf(),
    ensures
        groups_correct(board@.cells, board@.width as int, color, r@),
{
    let w = board.width;
    let h = board.height;
    let n = board.cells.len();
    let ghost cells = board.cells@;
    let ghost wi = w as int;
    let mut visited: Vec<bool> = make_marks(n);
    let mut groups: Vec<Vec<usize>> = Vec::new();
    let mut s: usize = 0;
    while s < n
        invariant
            s <= n,
            visited@.len() == n,
            forall|i: int| 0 <= i < n && #[trigger] visited@[i] ==> occupied_by(cells, color, i),
            forall|i: int|
                0 <= i < s && #[trigger] occupied_by(cells, color, i) ==> visited@[i],
            forall|v2: int, u2: int|
                0 <= v2 < n && #[trigger] visited@[v2] && occupied_by(cells, color, u2)
                    && #[trigger] adj(wi, v2, u2) ==> visited@[u2],
            forall|c2: int|
                0 <= c2 < n && #[trigger] visited@[c2] ==> in_some_group(groups@, c2),
            forall|c2: int|
                #[trigger] in_some_group(groups@, c2) ==> 0 <= c2 < n && visited@[c2],
            forall|i: int| 0 <= i < groups@.len() ==> (#[trigger] groups@[i])@.len() > 0,
            forall|i: int, k: int, l: int|
                #![trigger groups@[i]@[k], groups@[i]@[l]]
                0 <= i < groups@.len() && 0 <= k < l < groups@[i]@.len() ==> groups@[i]@[k]
                    < groups@[i]@[l],
            forall|i: int, j: int|
                #![trigger groups@[i], groups@[j]]
                0 <= i < j < groups@.len() ==> groups@[i]@[0] < groups@[j]@[0],
            forall|i: int|
                0 <= i < groups@.len() ==> ((#[trigger] groups@[i])@[0] as int) < s as int,
            forall|i: int, k: int|
                #![trigger groups@[i]@[k]]
                0 <= i < groups@.len() && 0 <= k < groups@[i]@.len() ==> occupied_by(
                    cells,
                    color,
                    groups@[i]@[k] as int,
                ),
            forall|i: int, k: int, l: int|
                #![trigger groups@[i]@[k], groups@[i]@[l]]
                0 <= i < groups@.len() && 0 <= k < groups@[i]@.len() && 0 <= l
                    < groups@[i]@.len() ==> connected(
                    cells,
                    wi,
                    color,
                    groups@[i]@[k] as int,
                    groups@[i]@[l] as int,
                ),
            forall|i: int, j: int, k: int, l: int|
                #![trigger groups@[i]@[k], groups@[j]@[l]]
                0 <= i < groups@.len() && 0 <= j < groups@.len() && i != j && 0 <= k
                    < groups@[i]@.len() && 0 <= l < groups@[j]@.len() ==> groups@[i]@[k]
                    != groups@[j]@[l],
            forall|i: int, j: int, k: int, l: int|
                #![trigger groups@[i]@[k], groups@[j]@[l]]
                0 <= i < groups@.len() && 0 <= j < groups@.len() && i != j && 0 <= k
                    < groups@[i]@.len() && 0 <= l < groups@[j]@.len() ==> !connected(
                    cells,
                    wi,
                    color,
                    groups@[i]@[k] as int,
                    groups@[j]@[l] as int,
                ),
        decreases n - s,
    {
        let occupied_here = board.cells[s] == Cell::Occupied(color);
        let already = visited[s];
        if occupied_here && !already {
            let ghost vis0 = visited@;
            let mut round: Vec<bool> = make_marks(n);
            let mut stack: Vec<usize> = Vec::new();
            round.set(s, true);
            visited.set(s, true);
            stack.push(s);
            proof {
                lemma_connected_refl(cells, wi, color, s as int);
                lemma_count_true_bound(round@);
                assert(stack@[0] == s);
                assert(in_stack(stack@, s as int));
            }
            while stack.len() > 0
                invariant
                    round@.len() == n,
                    visited@.len() == n,
                    count_true(round@) <= n,
                    round@[s as int],
                    forall|i: int|
                        0 <= i < n && #[trigger] round@[i] ==> occupied_by(cells, color, i)
                            && connected(cells, wi, color, s as int, i),
                    forall|i: int|
                        #![trigger visited@[i]]
                        #![trigger round@[i]]
                        0 <= i < n ==> visited@[i] == (vis0[i] || round@[i]),
                    forall|i: int| 0 <= i < n && #[trigger] round@[i] ==> !vis0[i],
                    forall|k: int|
                        0 <= k < stack@.len() ==> ((#[trigger] stack@[k]) as int) < n
                            && round@[stack@[k] as int],
                    forall|v2: int, u2: int|
                        0 <= v2 < n && #[trigger] round@[v2] && !in_stack(stack@, v2)
                            && occupied_by(cells, color, u2) && #[trigger] adj(wi, v2, u2)
                            ==> round@[u2],
                decreases 5 * (n - count_true(round@)) + stack@.len(),
            {
                let ghost stack0 = stack@;
                let v = stack.pop().unwrap();
                let ghost m0 = 5 * (n - count_true(round@)) + stack@.len() + 1;
                proof {
                    assert(stack@ =~= stack0.drop_last());
                    assert forall|v2: int| in_stack(stack0, v2) && v2 != v as int implies in_stack(
                        stack@,
                        v2,
                    ) by {
                        let k = choose|k: int|
                            0 <= k < stack0.len() && ((stack0[k]) as int) == v2;
                        assert((stack0[stack0.len() - 1] as int) == v as int);
                        assert(k < stack0.len() - 1);
                        assert((stack@[k] as int) == v2);
                    }
                }
                let neigh = neighbors_of(v, w, h);
                let mut t: usize = 0;
                while t < neigh.len()
                    invariant
                        t <= neigh@.len(),
                        round@.len() == n,
                        visited@.len() == n,
                        count_true(round@) <= n,
                        round@[s as int],
                        (v as int) < n,
                        round@[v as int],
                        5 * (n - count_true(round@)) + stack@.len() <= m0 - 1,
                        forall|i: int|
                            0 <= i < n && #[trigger] round@[i] ==> occupied_by(cells, color, i)
                                && connected(cells, wi, color, s as int, i),
                        forall|i: int|
                            #![trigger visited@[i]]
                            #![trigger round@[i]]
                            0 <= i < n ==> visited@[i] == (vis0[i] || round@[i]),
                        forall|i: int| 0 <= i < n && #[trigger] round@[i] ==> !vis0[i],
                        forall|k: int|
                            0 <= k < stack@.len() ==> ((#[trigger] stack@[k]) as int) < n
                                && round@[stack@[k] as int],
                        forall|j: int|
                            0 <= j < t && occupied_by(cells, color, (#[trigger] neigh@[j]) as int)
                                ==> round@[neigh@[j] as int],
                        forall|v2: int, u2: int|
                            0 <= v2 < n && #[trigger] round@[v2] && v2 != v as int && !in_stack(
                                stack@,
                                v2,
                            ) && occupied_by(cells, color, u2) && #[trigger] adj(wi, v2, u2)
                                ==> round@[u2],
                    decreases neigh@.len() - t,
                {
                    let u = neigh[t];
                    proof {
                        assert(n as int == wi * (h as int));
                        assert((u as int) < n);
                    }
                    let u_occupied = board.cells[u] == Cell::Occupied(color);
                    let u_round = round[u];
                    if u_occupied && !u_round {
                        proof {
                            // u cannot belong to an earlier component: the visited
                            // set is closed, and v would then be inside it
                            if vis0[u as int] {
                                assert(visited@[u as int]);
                                assert(adj(wi, u as int, v as int));
                                assert(vis0[v as int] || round@[v as int]);
                                assert(!vis0[v as int]);
                                assert(vis0[u as int] && occupied_by(cells, color, v as int)
                                    && adj(wi, u as int, v as int) ==> vis0[v as int]);
                                assert(false);
                            }
                            lemma_count_true_update(round@, u as int);
                            lemma_connected_step(cells, wi, color, s as int, v as int, u as int);
                        }
                        let ghost round1 = round@;
                        let ghost vis1 = visited@;
                        let ghost stack1 = stack@;
                        round.set(u, true);
                        visited.set(u, true);
                        stack.push(u);
                        proof {
                            lemma_count_true_bound(round@);
                            assert(round@[u as int] && visited@[u as int]);
                            assert(forall|i: int|
                                0 <= i < n && i != u as int ==> #[trigger] round@[i] == round1[i]
                                    && visited@[i] == vis1[i]);
                            assert(stack@[stack@.len() - 1] == u);
                            assert(in_stack(stack@, u as int));
                            assert forall|v2: int| in_stack(stack1, v2) implies in_stack(
                                stack@,
                                v2,
                            ) by {
                                let k = choose|k: int|
                                    0 <= k < stack1.len() && ((stack1[k]) as int) == v2;
                                assert((stack@[k] as int) == v2);
                            }
                            assert forall|v2: int, u2: int|
                                0 <= v2 < n && #[trigger] round@[v2] && v2 != v as int
                                    && !in_stack(stack@, v2) && occupied_by(cells, color, u2)
                                    && #[trigger] adj(wi, v2, u2) implies round@[u2] by {
                                if v2 == u as int {
                                    assert(in_stack(stack@, v2));
                                    assert(false);
                                } else {
                                    assert(round1[v2]);
                                    assert(!in_stack(stack1, v2));
                                    if u2 != u as int {
                                        assert(round1[u2]);
                                    }
                                }
                            }
                        }
                    }
                    t = t + 1;
                }
                proof {
                    // every occupied neighbor of v is now flooded, so v needs no
                    // exemption from the closure property
                    assert forall|u2: int|
                        occupied_by(cells, color, u2) && adj(wi, v as int, u2) implies round@[u2]
                    by {
                        assert(0 <= u2 < n);
                        assert(n as int == wi * (h as int));
                        let k = choose|k: int|
                            0 <= k < neigh@.len() && ((neigh@[k]) as int) == u2;
                        assert(occupied_by(cells, color, neigh@[k] as int));
                        assert(round@[neigh@[k] as int]);
                    }
                }
            }
            // the flood is complete: collect its cells in ascending order
            let mut g: Vec<usize> = Vec::new();
            let mut c: usize = 0;
            while c < n
                invariant
                    c <= n,
                    forall|k: int| 0 <= k < g@.len() ==> ((#[trigger] g@[k]) as int) < c as int,
                    forall|k: int, l: int|
                        #![trigger g@[k], g@[l]]
                        0 <= k < l < g@.len() ==> g@[k] < g@[l],
                    forall|k: int|
                        0 <= k < g@.len() ==> ((#[trigger] g@[k]) as int) < n && round@[g@[
                            k
                        ] as int],
                    forall|i: int| 0 <= i < c && #[trigger] round@[i] ==> in_group(g@, i),
                decreases n - c,
            {
                if round[c] {
                    let ghost gprev = g@;
                    g.push(c);
                    proof {
                        assert(g@[g@.len() - 1] == c);
                        assert(forall|k: int| 0 <= k < gprev.len() ==> g@[k] == gprev[k]);
                        assert forall|i: int| 0 <= i < c as int + 1 && #[trigger] round@[i]
                            implies in_group(g@, i) by {
                            if i < c as int {
                                let k = choose|k: int|
                                    0 <= k < gprev.len() && ((gprev[k]) as int) == i;
                                assert((g@[k] as int) == i);
                            } else {
                                assert((g@[g@.len() - 1] as int) == i);
                            }
                        }
                    }
                }
                c = c + 1;
            }
            proof {
                // the group is exactly the flooded set, its first cell is the seed
                assert(in_group(g@, s as int));
                let ks = choose|k: int| 0 <= k < g@.len() && ((g@[k]) as int) == s as int;
                assert forall|k: int| 0 <= k < g@.len() implies s <= (#[trigger] g@[k]) by {
                    assert(round@[g@[k] as int]);
                    assert(occupied_by(cells, color, g@[k] as int));
                    if (g@[k] as int) < s as int {
                        assert(vis0[g@[k] as int]);
                        assert(false);
                    }
                }
                if ks > 0 {
                    assert(g@[0] < g@[ks]);
                }
                assert((g@[0] as int) == s as int);
                // the flooded set is closed, in the packaged form the path
                // lemmas expect
                assert forall|v2: int, u2: int|
                    #[trigger] marked(round@, v2) && occupied_by(cells, color, u2)
                        && #[trigger] adj(wi, v2, u2) implies marked(round@, u2) by {
                    assert(round@[v2]);
                    assert(!in_stack(stack@, v2));
                    assert(round@[u2]);
                }
                assert(closed_marks(cells, wi, color, round@));
            }
            let ghost old_groups = groups@;
            groups.push(g);
            proof {
                assert(forall|i: int|
                    0 <= i < old_groups.len() ==> #[trigger] groups@[i] == old_groups[i]);
                assert(groups@[groups@.len() - 1] == g);
                let gi = groups@.len() - 1;
                // members of the new group versus the old ones
                assert forall|i: int, j: int, k: int, l: int|
                    #![trigger groups@[i]@[k], groups@[j]@[l]]
                    0 <= i < groups@.len() && 0 <= j < groups@.len() && i != j && 0 <= k
                        < groups@[i]@.len() && 0 <= l < groups@[j]@.len() implies groups@[i]@[k]
                    != groups@[j]@[l] && !connected(
                    cells,
                    wi,
                    color,
                    groups@[i]@[k] as int,
                    groups@[j]@[l] as int,
                ) by {
                    if i < gi && j < gi {
                        assert(old_groups[i]@[k] == groups@[i]@[k]);
                        assert(old_groups[j]@[l] == groups@[j]@[l]);
                    } else {
                        // one member is in the new group; call it x, the old
                        // group's member y
                        let x: int = if i == gi {
                            groups@[i]@[k] as int
                        } else {
                            groups@[j]@[l] as int
                        };
                        let y: int = if i == gi {
                            groups@[j]@[l] as int
                        } else {
                            groups@[i]@[k] as int
                        };
                        assert(in_group(g@, x));
                        assert(round@[x]);
                        assert(in_some_group(old_groups, y));
                        assert(vis0[y]);
                        assert(!round@[y]);
                        assert(marked(round@, x));
                        assert(!marked(round@, y));
                        assert(x != y);
                        if connected(cells, wi, color, x, y) {
                            lemma_closed_connected(cells, wi, color, round@, x, y);
                            assert(false);
                        }
                        if connected(cells, wi, color, y, x) {
                            lemma_connected_sym(cells, wi, color, y, x);
                            lemma_closed_connected(cells, wi, color, round@, x, y);
                            assert(false);
                        }
                    }
                }
                // members of the new group are pairwise connected through the seed
                assert forall|k: int, l: int|
                    #![trigger g@[k], g@[l]]
                    0 <= k < g@.len() && 0 <= l < g@.len() implies connected(
                    cells,
                    wi,
                    color,
                    g@[k] as int,
                    g@[l] as int,
                ) by {
                    assert(round@[g@[k] as int]);
                    assert(round@[g@[l] as int]);
                    lemma_connected_sym(cells, wi, color, s as int, g@[k] as int);
                    lemma_connected_trans(cells, wi, color, g@[k] as int, s as int, g@[l] as int);
                }
                // every newly visited cell now sits in the new group
                assert forall|c2: int| 0 <= c2 < n && #[trigger] visited@[c2]
                    implies in_some_group(groups@, c2) by {
                    if vis0[c2] {
                        assert(in_some_group(old_groups, c2));
                        let i = choose|i: int|
                            0 <= i < old_groups.len() && in_group((old_groups[i])@, c2);
                        assert(in_group((groups@[i])@, c2));
                    } else {
                        assert(round@[c2]);
                        assert(in_group((groups@[gi])@, c2));
                    }
                }
                assert forall|c2: int| #[trigger] in_some_group(groups@, c2) implies 0 <= c2 < n
                    && visited@[c2] by {
                    let i = choose|i: int| 0 <= i < groups@.len() && in_group((groups@[i])@, c2);
                    if i < gi {
                        assert(in_group((old_groups[i])@, c2));
                        assert(in_some_group(old_groups, c2));
                        assert(vis0[c2]);
                    } else {
                        assert(in_group(g@, c2));
                        let k = choose|k: int| 0 <= k < g@.len() && ((g@[k]) as int) == c2;
                        assert(round@[c2]);
                    }
                }
                // the union of two closed mark sets is closed
                assert forall|v2: int, u2: int|
                    0 <= v2 < n && #[trigger] visited@[v2] && occupied_by(cells, color, u2)
                        && #[trigger] adj(wi, v2, u2) implies visited@[u2] by {
                    if vis0[v2] {
                        assert(vis0[u2]);
                    } else {
                        assert(round@[v2]);
                        assert(round@[u2]);
                    }
                }
            }
        }
        s = s + 1;
    }
    proof {
        assert forall|c2: int| #[trigger] occupied_by(cells, color, c2) implies in_some_group(
            groups@,
            c2,
        ) by {
            assert(visited@[c2]);
        }
    }
    groups
}

/// The groups of White stones on the board, as `groups_for` lists them.
pub fn compute_white_groups(board: &Board) -> (r: Vec<Vec<usize>>)
    requires
        board.wf(),
    ensures
        groups_correct(board@.cells, board@.width as int, GoColor::White, r@),
{
    groups_for(board, GoColor::White)
}

/// The groups of Black stones on the board, as `groups_for` lists them.
pub fn compute_black_groups(board: &Board) -> (r: Vec<Vec<usize>>)
    requires
        board.wf(),
    ensures
        groups_correct(board@.cells, board@.width as int, GoColor::Black, r@),
{
    groups_for(board, GoColor::Black)
}

} // verus!
