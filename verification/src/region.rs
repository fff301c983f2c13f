//! Connected regions of same-colored cells: the reachability relation and a
//! verified flood fill computing the full region of a cell.

use vstd::prelude::*;
use vstd::seq_lib::*;
use crate::grid::{Board, Color, GridView};

verus! {

/// A path of flattened indices: every cell colored c, consecutive cells grid
/// neighbors.
pub open spec fn path_ok(g: GridView, c: Color, path: Seq<int>) -> bool {
    &&& path.len() > 0
    &&& forall|k: int|
        0 <= k < path.len() ==> g.valid_idx(#[trigger] path[k]) && g.at(path[k]) == c
    &&& forall|k: int| 0 < k < path.len() ==> g.is_neighbor(path[k - 1], #[trigger] path[k])
}

/// The cell at index j can be reached from the cell at index i through cells
/// all colored c (in particular both ends are colored c themselves).
pub open spec fn reaches(g: GridView, c: Color, i: int, j: int) -> bool {
    exists|path: Seq<int>| path_ok(g, c, path) && path.first() == i && path.last() == j
}

pub proof fn lemma_reaches_refl(g: GridView, c: Color, i: int)
    requires
        g.valid_idx(i),
        g.at(i) == c,
    ensures
        reaches(g, c, i, i),
{
    let path = seq![i];
    assert(path_ok(g, c, path) && path.first() == i && path.last() == i);
}

pub proof fn lemma_reaches_step(g: GridView, c: Color, i: int, j: int, k: int)
    requires
        reaches(g, c, i, j),
        g.is_neighbor(j, k),
        g.at(k) == c,
    ensures
        reaches(g, c, i, k),
{
    let path = choose|path: Seq<int>|
        path_ok(g, c, path) && path.first() == i && path.last() == j;
    let p2 = path.push(k);
    assert(p2.last() == k);
    assert(p2.first() == i);
    assert forall|m: int| 0 <= m < p2.len() implies g.valid_idx(#[trigger] p2[m]) && g.at(p2[m])
        == c by {
        if m < path.len() {
            assert(p2[m] == path[m]);
        } else {
            assert(p2[m] == k);
        }
    };
    assert forall|m: int| 0 < m < p2.len() implies g.is_neighbor(p2[m - 1], #[trigger] p2[m]) by {
        if m < path.len() {
            assert(p2[m - 1] == path[m - 1] && p2[m] == path[m]);
        } else {
            assert(p2[m - 1] == path.last() && p2[m] == k);
        }
    };
    assert(path_ok(g, c, p2));
}

pub proof fn lemma_reaches_sym(g: GridView, c: Color, i: int, j: int)
    requires
        reaches(g, c, i, j),
    ensures
        reaches(g, c, j, i),
{
    let path = choose|path: Seq<int>|
        path_ok(g, c, path) && path.first() == i && path.last() == j;
    let rev = path.reverse();
    assert(rev.len() == path.len());
    assert(rev.first() == path.last());
    assert(rev.last() == path.first());
    assert forall|m: int| 0 <= m < rev.len() implies g.valid_idx(#[trigger] rev[m]) && g.at(rev[m])
        == c by {
        assert(rev[m] == path[path.len() - 1 - m]);
    };
    assert forall|m: int| 0 < m < rev.len() implies g.is_neighbor(rev[m - 1], #[trigger] rev[m]) by {
        assert(rev[m - 1] == path[path.len() - m]);
        assert(rev[m] == path[path.len() - 1 - m]);
        assert(g.is_neighbor(path[path.len() - 1 - m], path[path.len() - m]));
    };
    assert(path_ok(g, c, rev));
}

pub proof fn lemma_reaches_trans(g: GridView, c: Color, i: int, j: int, k: int)
    requires
        reaches(g, c, i, j),
        reaches(g, c, j, k),
    ensures
        reaches(g, c, i, k),
{
    let p1 = choose|path: Seq<int>|
        path_ok(g, c, path) && path.first() == i && path.last() == j;
    let p2 = choose|path: Seq<int>|
        path_ok(g, c, path) && path.first() == j && path.last() == k;
    let joined = p1 + p2.subrange(1, p2.len() as int);
    assert(joined.len() == p1.len() + p2.len() - 1);
    assert(joined.first() == i);
    if p2.len() == 1 {
        assert(joined =~= p1);
        assert(joined.last() == k);
    } else {
        assert(joined.last() == p2[p2.len() - 1]);
    }
    assert forall|m: int| 0 <= m < joined.len() implies g.valid_idx(#[trigger] joined[m]) && g.at(
        joined[m],
    ) == c by {
        if m < p1.len() {
            assert(joined[m] == p1[m]);
        } else {
            assert(joined[m] == p2[m - p1.len() + 1]);
        }
    };
    assert forall|m: int| 0 < m < joined.len() implies g.is_neighbor(
        joined[m - 1],
        #[trigger] joined[m],
    ) by {
        if m < p1.len() {
            assert(joined[m - 1] == p1[m - 1] && joined[m] == p1[m]);
        } else if m == p1.len() {
            assert(joined[m - 1] == p1.last());
            assert(p1.last() == p2[0]);
            assert(joined[m] == p2[1]);
            assert(g.is_neighbor(p2[0], p2[1]));
        } else {
            assert(joined[m - 1] == p2[m - p1.len()]);
            assert(joined[m] == p2[m - p1.len() + 1]);
            assert(g.is_neighbor(p2[m - p1.len()], p2[m - p1.len() + 1]));
        }
    };
    assert(path_ok(g, c, joined));
}

/// A set of marked cells that contains a path's start and is closed under
/// same-colored neighbor steps contains the path's end.
pub proof fn lemma_path_in_closed(g: GridView, c: Color, m: Seq<bool>, path: Seq<int>)
    requires
        m.len() == g.len(),
        path_ok(g, c, path),
        m[path.first()],
        forall|a: int, bb: int|
            0 <= a < g.len() && m[a] && #[trigger] g.is_neighbor(a, bb) && g.at(bb) == c
                ==> m[bb],
    ensures
        m[path.last()],
    decreases path.len(),
{
    if path.len() > 1 {
        let pre = path.drop_last();
        assert forall|k: int| 0 <= k < pre.len() implies g.valid_idx(#[trigger] pre[k]) && g.at(
            pre[k],
        ) == c by {
            assert(pre[k] == path[k]);
        };
        assert forall|k: int| 0 < k < pre.len() implies g.is_neighbor(
            pre[k - 1],
            #[trigger] pre[k],
        ) by {
            assert(pre[k - 1] == path[k - 1] && pre[k] == path[k]);
        };
        assert(path_ok(g, c, pre));
        assert(pre.first() == path.first());
        lemma_path_in_closed(g, c, m, pre);
        assert(g.is_neighbor(path[path.len() - 2], path[path.len() - 1]));
        assert(pre.last() == path[path.len() - 2]);
    }
}

/// Number of unmarked entries; the flood fill's termination measure.
pub open spec fn count_false(s: Seq<bool>) -> nat
    decreases s.len(),
{
    if s.len() == 0 {
        0
    } else {
        (if s.last() {
            0nat
        } else {
            1nat
        }) + count_false(s.drop_last())
    }
}

pub proof fn lemma_count_false_set_true(s: Seq<bool>, j: int)
    requires
        0 <= j < s.len(),
        !s[j],
    ensures
        count_false(s.update(j, true)) + 1 == count_false(s),
    decreases s.len(),
{
    let t = s.update(j, true);
    if j == s.len() - 1 {
        assert(t.drop_last() =~= s.drop_last());
        assert(t.last());
        assert(!s.last());
    } else {
        assert(t.last() == s.last());
        assert(t.drop_last() =~= s.drop_last().update(j, true));
        lemma_count_false_set_true(s.drop_last(), j);
    }
}

/// Flood fill: marks exactly the cells reachable from start through cells of
/// start's own color.
pub fn flood(b: &Board, start: usize) -> (mask: Vec<bool>)
    requires
        b.wf(),
        (start as int) < b@.len(),
    ensures
        mask@.len() == b@.len(),
        forall|j: int|
            0 <= j < b@.len() ==> (mask@[j] <==> reaches(
                b@,
                b@.at(start as int),
                start as int,
                j,
            )),
{
    let ghost g = b@;
    let n = b.points.len();
    let c = b.points[start];
    let mut mask: Vec<bool> = Vec::new();
    let mut k: usize = 0;
    while k < n
        invariant
            k <= n,
            mask@.len() == k,
            forall|i: int| 0 <= i < k ==> !mask@[i],
        decreases n - k,
    {
        mask.push(false);
        k = k + 1;
    }
    let mut stack: Vec<usize> = Vec::new();
    mask[start] = true;
    stack.push(start);
    proof {
        lemma_reaches_refl(g, c, start as int);
        assert(stack@[0] == start);
    }
    while stack.len() > 0
        invariant
            b.wf(),
            g == b@,
            n == g.len(),
            (start as int) < g.len(),
            c == g.at(start as int),
            mask@.len() == n,
            mask@[start as int],
            forall|k2: int|
                0 <= k2 < stack@.len() ==> ((#[trigger] stack@[k2]) as int) < g.len()
                    && mask@[stack@[k2] as int],
            forall|j: int| 0 <= j < g.len() && #[trigger] mask@[j] ==> reaches(g, c, start as int, j),
            forall|a: int|
                0 <= a < g.len() && mask@[a] && !stack@.contains(a as usize) ==> (forall|bb: int|
                    #[trigger] g.is_neighbor(a, bb) && g.at(bb) == c ==> mask@[bb]),
        decreases 2 * count_false(mask@) + stack@.len(),
    {
        let ghost stack0 = stack@;
        let cur = stack.pop().unwrap();
        proof {
            assert forall|u: usize| stack0.contains(u) implies (stack@.contains(u) || u == cur) by {
                let k2 = choose|k2: int| 0 <= k2 < stack0.len() && stack0[k2] == u;
                if k2 < stack@.len() {
                    assert(stack@[k2] == u);
                }
            };
        }
        let ghost base = 2 * count_false(mask@) + stack@.len();
        let nbrs = b.neighbors(cur);
        proof {
            assert forall|k2: int| 0 <= k2 < nbrs@.len() implies g.is_neighbor(
                cur as int,
                (#[trigger] nbrs@[k2]) as int,
            ) by {
                assert(nbrs@.contains(nbrs@[k2]));
            };
        }
        let mut t: usize = 0;
        while t < nbrs.len()
            invariant
                b.wf(),
                g == b@,
                n == g.len(),
                (start as int) < g.len(),
                c == g.at(start as int),
                (cur as int) < g.len(),
                mask@.len() == n,
                mask@[start as int],
                mask@[cur as int],
                t <= nbrs@.len(),
                forall|u: usize| #[trigger] nbrs@.contains(u) ==> g.is_neighbor(cur as int, u as int),
                forall|j: int| #[trigger] g.is_neighbor(cur as int, j) ==> nbrs@.contains(j as usize),
                forall|k2: int|
                    0 <= k2 < nbrs@.len() ==> g.is_neighbor(cur as int, (#[trigger] nbrs@[k2]) as int),
                forall|k2: int|
                    0 <= k2 < stack@.len() ==> ((#[trigger] stack@[k2]) as int) < g.len()
                        && mask@[stack@[k2] as int],
                forall|j: int|
                    0 <= j < g.len() && #[trigger] mask@[j] ==> reaches(g, c, start as int, j),
                forall|a: int|
                    0 <= a < g.len() && mask@[a] && a != cur as int && !stack@.contains(a as usize)
                        ==> (forall|bb: int|
                        #[trigger] g.is_neighbor(a, bb) && g.at(bb) == c ==> mask@[bb]),
                forall|k2: int|
                    0 <= k2 < t && g.at((#[trigger] nbrs@[k2]) as int) == c
                        ==> mask@[nbrs@[k2] as int],
                2 * count_false(mask@) + stack@.len() <= base,
            decreases nbrs@.len() - t,
        {
            let j = nbrs[t];
            proof {
                assert(nbrs@.contains(nbrs@[t as int]));
            }
            let cj = b.points[j];
            if cj == c && !mask[j] {
                let ghost m0 = mask@;
                let ghost st0 = stack@;
                mask[j] = true;
                stack.push(j);
                proof {
                    lemma_reaches_step(g, c, start as int, cur as int, j as int);
                    lemma_count_false_set_true(m0, j as int);
                    assert forall|u: usize| st0.contains(u) implies stack@.contains(u) by {
                        let k2 = choose|k2: int| 0 <= k2 < st0.len() && st0[k2] == u;
                        assert(stack@[k2] == u);
                    };
                    assert(stack@[st0.len() as int] == j);
                }
            }
            t = t + 1;
        }
        proof {
            assert forall|bb: int| g.is_neighbor(cur as int, bb) && g.at(bb) == c
                implies mask@[bb] by {
                assert(nbrs@.contains(bb as usize));
                let k2 = choose|k2: int| 0 <= k2 < nbrs@.len() && nbrs@[k2] == bb as usize;
                assert(g.at(nbrs@[k2] as int) == c);
            };
        }
    }
    proof {
        assert forall|j: int| 0 <= j < g.len() && reaches(g, c, start as int, j)
            implies mask@[j] by {
            let path = choose|path: Seq<int>|
                path_ok(g, c, path) && path.first() == start as int && path.last() == j;
            lemma_path_in_closed(g, c, mask@, path);
        };
    }
    mask
}

} // verus!
