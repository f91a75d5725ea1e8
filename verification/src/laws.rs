use vstd::prelude::*;
use crate::maze::Maze;
use crate::maze::all_present;

verus! {

// ---- open-edge counting ----

proof fn lemma_open_count_zero(m: Maze, k: int)
    requires
        forall|i: int| 0 <= i < k ==> #[trigger] m.cell_open_count(i) == 0,
    ensures
        m.open_count_to(k) == 0,
    decreases k,
{
    if k > 0 {
        lemma_open_count_zero(m, k - 1);
    }
}

proof fn lemma_open_count_diff(m1: Maze, m2: Maze, k: int, i0: int)
    requires
        0 <= i0,
        forall|i: int|
            0 <= i < k && i != i0 ==> #[trigger] m1.cell_open_count(i) == m2.cell_open_count(i),
    ensures
        i0 < k ==> m2.open_count_to(k) == m1.open_count_to(k) + m2.cell_open_count(i0)
            - m1.cell_open_count(i0),
        i0 >= k ==> m2.open_count_to(k) == m1.open_count_to(k),
    decreases k,
{
    if k > 0 {
        lemma_open_count_diff(m1, m2, k - 1, i0);
    }
}

// ---- region counting ----

proof fn lemma_merge_region_count(pre: Maze, post: Maze, a: int, b: int)
    requires
        pre.in_bounds(a),
        pre.in_bounds(b),
        pre.blocks@[a].region != pre.blocks@[b].region,
        pre.blocks@.len() == post.blocks@.len(),
        pre.regions_merged(post, a, b),
    ensures
        post.region_count() == pre.region_count() - 1,
{
    broadcast use vstd::set::group_set_axioms, vstd::seq_lib::seq_to_set_is_finite;

    let ra = pre.blocks@[a].region;
    let rb = pre.blocks@[b].region;
    let s1 = pre.region_seq().to_set();
    let s2 = post.region_seq().to_set();
    assert(pre.region_seq()[a] == ra);
    assert(pre.region_seq()[b] == rb);
    assert(s1.contains(rb));
    assert(s2 =~= s1.remove(rb)) by {
        assert forall|r: usize| s2.contains(r) implies s1.remove(rb).contains(r) by {
            let k = choose|k: int|
                0 <= k < post.region_seq().len() && post.region_seq()[k] == r;
            if pre.blocks@[k].region == rb {
                assert(pre.region_seq()[a] == r);
            } else {
                assert(pre.region_seq()[k] == r);
            }
        }
        assert forall|r: usize| s1.remove(rb).contains(r) implies s2.contains(r) by {
            let k = choose|k: int|
                0 <= k < pre.region_seq().len() && pre.region_seq()[k] == r;
            assert(post.region_seq()[k] == r);
        }
    }
}

// ---- the state after construction ----

pub proof fn lemma_initial_counts(m: Maze)
    requires
        m.wf(),
        forall|k: int|
            0 <= k < m.blocks@.len() ==> {
                &&& (#[trigger] m.blocks@[k]).walls == all_present()
                &&& m.blocks@[k].region == k
            },
    ensures
        m.open_edge_count() == 0,
        m.region_count() == m.blocks@.len(),
        m.counts_ok(),
{
    broadcast use vstd::set::group_set_axioms, vstd::seq_lib::seq_to_set_is_finite;

    assert forall|i: int| 0 <= i < m.blocks@.len() implies #[trigger] m.cell_open_count(i)
        == 0 by {}
    lemma_open_count_zero(m, m.blocks@.len() as int);
    assert(m.region_seq().no_duplicates());
    m.region_seq().unique_seq_to_set();
}

pub proof fn lemma_initial_consistent(m: Maze)
    requires
        m.wf(),
        forall|k: int|
            0 <= k < m.blocks@.len() ==> {
                &&& (#[trigger] m.blocks@[k]).walls == all_present()
                &&& m.blocks@[k].region == k
            },
    ensures
        m.regions_consistent(),
{
    assert forall|u: int, v: int|
        #![trigger m.same_region(u, v)]
        #![trigger m.reachable(u, v)]
        m.in_bounds(u) && m.in_bounds(v) implies (m.same_region(u, v) <==> m.reachable(u, v)) by {
        if m.reachable(u, v) {
            let p = choose|p: Seq<int>| m.valid_path(p, u, v);
            if p.len() >= 2 {
                assert(m.edge_open(p[0], p[1]));
                assert(false);
            }
            assert(u == v);
        }
        if m.same_region(u, v) {
            assert(u == v);
            lemma_reachable_refl(m, u);
        }
    }
}

// ---- reachability toolkit ----

proof fn lemma_reachable_refl(m: Maze, a: int)
    requires
        m.in_bounds(a),
    ensures
        m.reachable(a, a),
{
    let p = seq![a];
    assert(m.valid_path(p, a, a));
}

proof fn lemma_reachable_trans(m: Maze, a: int, b: int, c: int)
    requires
        m.reachable(a, b),
        m.reachable(b, c),
    ensures
        m.reachable(a, c),
{
    let p1 = choose|p: Seq<int>| m.valid_path(p, a, b);
    let p2 = choose|p: Seq<int>| m.valid_path(p, b, c);
    let p = p1 + p2.subrange(1, p2.len() as int);
    assert(p.len() == p1.len() + p2.len() - 1);
    assert(p[p.len() - 1] == c) by {
        if p2.len() == 1 {
            assert(p[p.len() - 1] == p1[p1.len() - 1]);
        } else {
            assert(p[p.len() - 1] == p2[p2.len() - 1]);
        }
    }
    assert forall|k: int| 0 <= k < p.len() - 1 implies m.edge_open(#[trigger] p[k], p[k + 1]) by {
        if k < p1.len() - 1 {
            assert(p[k] == p1[k]);
            assert(p[k + 1] == p1[k + 1]);
        } else if k == p1.len() - 1 {
            assert(p[k] == p1[k]);
            assert(p[k + 1] == p2[1]);
            assert(m.edge_open(p2[0], p2[1]));
        } else {
            assert(p[k] == p2[k - p1.len() + 1]);
            assert(p[k + 1] == p2[k - p1.len() + 2]);
            assert(m.edge_open(p2[k - p1.len() + 1], p2[k - p1.len() + 2]));
        }
    }
    assert(m.valid_path(p, a, c));
}

/// Opening walls never severs a path.
proof fn lemma_edge_open_mono(m1: Maze, m2: Maze, u: int, v: int)
    requires
        m1.same_shape(m2),
        m1.walls_monotone(m2),
        m1.edge_open(u, v),
    ensures
        m2.edge_open(u, v),
{
    assert(m2.blocks@[u].x == m1.blocks@[u].x);
    assert(m2.blocks@[v].x == m1.blocks@[v].x);
}

proof fn lemma_reachable_mono(m1: Maze, m2: Maze, a: int, b: int)
    requires
        m1.same_shape(m2),
        m1.walls_monotone(m2),
        m1.reachable(a, b),
    ensures
        m2.reachable(a, b),
{
    let p = choose|p: Seq<int>| m1.valid_path(p, a, b);
    assert forall|k: int| 0 <= k < p.len() - 1 implies m2.edge_open(#[trigger] p[k], p[k + 1]) by {
        lemma_edge_open_mono(m1, m2, p[k], p[k + 1]);
    }
    assert(m2.valid_path(p, a, b));
}

// ---- laws ----

/// A cell never appears as its own candidate neighbor: a candidate must
/// lie in another region, and a cell shares its own region tag.
pub proof fn lemma_no_self_candidate(m: Maze, i: int)
    ensures
        !m.is_candidate(i, i),
{
}

/// Grid-adjacent cells are distinct, so an edge is never opened between a
/// cell and itself.
pub proof fn lemma_adjacent_distinct(m: Maze, a: int, b: int)
    requires
        m.wf(),
        m.adj(a, b),
    ensures
        a != b,
{
    m.lemma_adj_cases(a, b);
}

/// While the invariant holds, the region tags name exactly the connected
/// components of the open walls.
pub proof fn lemma_regions_name_components(m: Maze, a: int, b: int)
    requires
        m.inv(),
        m.in_bounds(a),
        m.in_bounds(b),
    ensures
        m.same_region(a, b) <==> m.reachable(a, b),
{
}

/// One generation step opens exactly one edge and retires exactly one
/// region tag.
pub proof fn lemma_step_counts(pre: Maze, post: Maze, a: int, b: int)
    requires
        pre.wf(),
        pre.is_candidate(a, b),
        pre.step_rel(post, a, b),
    ensures
        post.open_edge_count() == pre.open_edge_count() + 1,
        post.region_count() == pre.region_count() - 1,
{
    pre.lemma_adj_cases(a, b);
    let i0: int = if pre.h_adj(a, b) {
        a
    } else if pre.h_adj(b, a) {
        b
    } else if pre.v_adj(a, b) {
        a
    } else {
        b
    };
    assert(pre.block_wf(a));
    assert(pre.block_wf(b));
    assert forall|i: int|
        0 <= i < pre.blocks@.len() && i != i0 implies #[trigger] pre.cell_open_count(i)
        == post.cell_open_count(i) by {}
    assert(post.cell_open_count(i0) == pre.cell_open_count(i0) + 1);
    lemma_open_count_diff(pre, post, pre.blocks@.len() as int, i0);
    lemma_merge_region_count(pre, post, a, b);
}

/// Once the maze is complete, the open edges form a spanning tree: every
/// cell shares one region tag and exactly `n - 1` edges are open.
pub proof fn lemma_complete_spanning(m: Maze)
    requires
        m.inv(),
        m.complete(),
    ensures
        m.region_count() == 1,
        m.open_edge_count() == m.blocks@.len() - 1,
        forall|a: int, b: int|
            m.in_bounds(a) && m.in_bounds(b) ==> #[trigger] m.same_region(a, b),
{
    broadcast use vstd::set::group_set_axioms, vstd::seq_lib::seq_to_set_is_finite;

    assert(m.blocks@.len() >= 1) by {
        assert(m.cols as int * m.rows as int >= 1) by (nonlinear_arith)
            requires
                1 <= m.cols,
                1 <= m.rows,
        ;
    }
    assert forall|a: int, b: int|
        m.in_bounds(a) && m.in_bounds(b) implies #[trigger] m.same_region(a, b) by {
        lemma_region_of_zero(m, a);
        lemma_region_of_zero(m, b);
    }
    let r0 = m.blocks@[0].region;
    assert(m.region_seq().to_set() =~= set![r0]) by {
        assert forall|r: usize| m.region_seq().to_set().contains(r) implies set![r0].contains(
            r,
        ) by {
            let k = choose|k: int|
                0 <= k < m.region_seq().len() && m.region_seq()[k] == r;
            assert(m.same_region(k, 0));
        }
        assert(m.region_seq()[0] == r0);
        assert(m.region_seq().to_set().contains(r0));
    }
    assert(set![r0].len() == 1) by {
        assert(set![r0] =~= Set::empty().insert(r0));
    }
}

/// In a complete maze two adjacent cells always share a region: either the
/// wall between them is open, or they would form a candidate pair.
proof fn lemma_complete_adjacent_same(m: Maze, a: int, b: int)
    requires
        m.wf(),
        m.regions_consistent(),
        m.complete(),
        m.adj(a, b),
    ensures
        m.same_region(a, b),
{
    if m.wall_between(a, b) {
        if !m.same_region(a, b) {
            assert(m.is_candidate(a, b));
            assert(m.has_candidate(a));
            assert(false);
        }
    } else {
        let p = seq![a, b];
        assert(m.valid_path(p, a, b));
        assert(m.reachable(a, b));
    }
}

// ---- preservation of the region/reachability correspondence ----

proof fn lemma_step_monotone(pre: Maze, post: Maze, a: int, b: int)
    requires
        pre.pair_opened(post, a, b),
        pre.walls_same_except(post, a, b),
        pre.blocks@.len() == post.blocks@.len(),
    ensures
        pre.walls_monotone(post),
{
    assert forall|k: int| 0 <= k < pre.blocks@.len() implies {
        let w0 = pre.blocks@[k].walls;
        let w1 = (#[trigger] post.blocks@[k]).walls;
        &&& (w1.up ==> w0.up)
        &&& (w1.right ==> w0.right)
        &&& (w1.down ==> w0.down)
        &&& (w1.left ==> w0.left)
    } by {
        if k != a && k != b {
            assert(post.blocks@[k].walls == pre.blocks@[k].walls);
        }
    }
}

/// After a step the opened edge is open in both orders.
proof fn lemma_step_opens_edge(pre: Maze, post: Maze, a: int, b: int)
    requires
        pre.wf(),
        pre.adj(a, b),
        pre.same_shape(post),
        pre.pair_opened(post, a, b),
    ensures
        post.edge_open(a, b),
        post.edge_open(b, a),
{
    assert(post.blocks@[a].x == pre.blocks@[a].x);
    assert(post.blocks@[b].x == pre.blocks@[b].x);
    pre.lemma_adj_cases(a, b);
}

/// An edge open after a step was either open before it, or is the one
/// edge the step opened.
proof fn lemma_step_edge_cases(pre: Maze, post: Maze, a: int, b: int, u: int, v: int)
    requires
        pre.wf(),
        pre.adj(a, b),
        pre.same_shape(post),
        pre.pair_opened(post, a, b),
        pre.walls_same_except(post, a, b),
        post.edge_open(u, v),
    ensures
        pre.edge_open(u, v) || (u == a && v == b) || (u == b && v == a),
{
    assert(post.blocks@[u].x == pre.blocks@[u].x);
    assert(post.blocks@[v].x == pre.blocks@[v].x);
    assert(pre.adj(u, v));
    pre.lemma_adj_cases(a, b);
    pre.lemma_adj_cases(u, v);
    if !pre.edge_open(u, v) {
        if pre.h_adj(u, v) {
            assert(post.h_adj(u, v));
            assert(pre.blocks@[u].walls.right && !post.blocks@[u].walls.right);
            assert(u == a || u == b);
            if u == a {
                assert(pre.h_adj(a, b));
                assert(v == b);
            } else {
                assert(pre.h_adj(b, a));
                assert(v == a);
            }
        } else if pre.h_adj(v, u) {
            assert(post.h_adj(v, u));
            assert(pre.blocks@[v].walls.right && !post.blocks@[v].walls.right);
            assert(v == a || v == b);
            if v == a {
                assert(pre.h_adj(a, b));
                assert(u == b);
            } else {
                assert(pre.h_adj(b, a));
                assert(u == a);
            }
        } else if pre.v_adj(u, v) {
            assert(post.v_adj(u, v));
            assert(pre.blocks@[u].walls.down && !post.blocks@[u].walls.down);
            assert(u == a || u == b);
            if u == a {
                assert(pre.v_adj(a, b));
                assert(v == b);
            } else {
                assert(pre.v_adj(b, a));
                assert(v == a);
            }
        } else {
            assert(post.v_adj(v, u));
            assert(pre.blocks@[v].walls.down && !post.blocks@[v].walls.down);
            assert(v == a || v == b);
            if v == a {
                assert(pre.v_adj(a, b));
                assert(u == b);
            } else {
                assert(pre.v_adj(b, a));
                assert(u == a);
            }
        }
    }
}

/// Along any path of the stepped maze the region tag is constant.
proof fn lemma_path_same_region(pre: Maze, post: Maze, a: int, b: int, p: Seq<int>, u: int, v: int)
    requires
        pre.wf(),
        pre.regions_consistent(),
        pre.is_candidate(a, b),
        pre.step_rel(post, a, b),
        post.valid_path(p, u, v),
    ensures
        post.same_region(u, v),
    decreases p.len(),
{
    if p.len() == 1 {
        assert(u == v);
    } else {
        let w = p[1];
        assert(post.edge_open(u, w));
        lemma_step_edge_cases(pre, post, a, b, u, w);
        if pre.edge_open(u, w) {
            let q = seq![u, w];
            assert(pre.valid_path(q, u, w));
            assert(pre.reachable(u, w));
            assert(pre.same_region(u, w));
            assert(post.same_region(u, w));
        } else {
            assert(post.same_region(u, w));
        }
        let p2 = p.subrange(1, p.len() as int);
        assert(post.valid_path(p2, w, v)) by {
            assert forall|k: int|
                0 <= k < p2.len() - 1 implies post.edge_open(#[trigger] p2[k], p2[k + 1]) by {
                assert(p2[k] == p[k + 1]);
                assert(p2[k + 1] == p[k + 2]);
            }
        }
        lemma_path_same_region(pre, post, a, b, p2, w, v);
    }
}

/// One generation step keeps the region tags naming exactly the connected
/// components of the open walls.
pub proof fn lemma_step_consistent(pre: Maze, post: Maze, a: int, b: int)
    requires
        pre.wf(),
        pre.regions_consistent(),
        pre.is_candidate(a, b),
        pre.step_rel(post, a, b),
    ensures
        post.regions_consistent(),
{
    lemma_step_monotone(pre, post, a, b);
    lemma_step_opens_edge(pre, post, a, b);
    let ra = pre.blocks@[a].region;
    let rb = pre.blocks@[b].region;
    assert forall|u: int, v: int|
        #![trigger post.same_region(u, v)]
        #![trigger post.reachable(u, v)]
        post.in_bounds(u) && post.in_bounds(v) implies (post.same_region(u, v)
        <==> post.reachable(u, v)) by {
        if post.reachable(u, v) {
            let p = choose|p: Seq<int>| post.valid_path(p, u, v);
            lemma_path_same_region(pre, post, a, b, p, u, v);
        }
        if post.same_region(u, v) {
            let ru = pre.blocks@[u].region;
            let rv = pre.blocks@[v].region;
            assert(post.blocks@[u].region == (if ru == rb { ra } else { ru }));
            assert(post.blocks@[v].region == (if rv == rb { ra } else { rv }));
            if ru == rv {
                assert(pre.same_region(u, v));
                assert(pre.reachable(u, v));
                lemma_reachable_mono(pre, post, u, v);
            } else if ru == rb {
                assert(rv == ra);
                assert(pre.same_region(u, b));
                assert(pre.reachable(u, b));
                lemma_reachable_mono(pre, post, u, b);
                let q = seq![b, a];
                assert(post.valid_path(q, b, a));
                assert(post.reachable(b, a));
                assert(pre.same_region(a, v));
                assert(pre.reachable(a, v));
                lemma_reachable_mono(pre, post, a, v);
                lemma_reachable_trans(post, u, b, a);
                lemma_reachable_trans(post, u, a, v);
            } else {
                assert(ru == ra && rv == rb);
                assert(pre.same_region(u, a));
                assert(pre.reachable(u, a));
                lemma_reachable_mono(pre, post, u, a);
                let q = seq![a, b];
                assert(post.valid_path(q, a, b));
                assert(post.reachable(a, b));
                assert(pre.same_region(b, v));
                assert(pre.reachable(b, v));
                lemma_reachable_mono(pre, post, b, v);
                lemma_reachable_trans(post, u, a, b);
                lemma_reachable_trans(post, u, b, v);
            }
        }
    }
}

/// Walking first left and then up, every cell of a complete maze connects
/// to cell 0.
proof fn lemma_region_of_zero(m: Maze, i: int)
    requires
        m.wf(),
        m.regions_consistent(),
        m.complete(),
        m.in_bounds(i),
    ensures
        m.same_region(i, 0),
    decreases i,
{
    assert(m.block_wf(i));
    if m.blocks@[i].x > 0 {
        m.lemma_left_neighbor(i);
        lemma_complete_adjacent_same(m, i, i - 1);
        lemma_region_of_zero(m, i - 1);
    } else if m.blocks@[i].y > 0 {
        m.lemma_up_neighbor(i);
        lemma_complete_adjacent_same(m, i, i - m.cols);
        lemma_region_of_zero(m, i - m.cols);
    } else {
        assert(m.blocks@[i].y as int * m.cols as int == 0) by (nonlinear_arith)
            requires
                m.blocks@[i].y as int == 0,
        ;
        assert(i == 0);
    }
}

} // verus!
