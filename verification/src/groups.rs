//! Connected stone groups and their derivation from a board.

use vstd::prelude::*;
use crate::grid::{lemma_coords, lemma_idx, push_elem, Board, Color, GridView, Point};
use crate::region::{
    flood, lemma_reaches_refl, lemma_reaches_step, lemma_reaches_sym, lemma_reaches_trans,
    path_ok, reaches,
};

verus! {

/// A maximal connected set of same-colored stones, the team owning them, and
/// the disputable alive flag used during scoring.
#[derive(Clone, Debug, PartialEq)]
pub struct Group {
    pub points: Vec<Point>,
    pub team: Color,
    pub alive: bool,
}

/// Mathematical model of a group.
#[verifier::ext_equal]
pub ghost struct GroupView {
    pub points: Seq<Point>,
    pub team: Color,
    pub alive: bool,
}

impl View for Group {
    type V = GroupView;

    open spec fn view(&self) -> GroupView {
        GroupView { points: self.points@, team: self.team, alive: self.alive }
    }
}

/// The views of a sequence of groups.
pub open spec fn views_of(groups: Seq<Group>) -> Seq<GroupView> {
    groups.map_values(|gr: Group| gr@)
}

/// Every stone the group lists sits on the board and carries the group's own
/// nonempty team color.
pub open spec fn group_on_board(g: GridView, gv: GroupView) -> bool {
    &&& !gv.team.spec_is_empty()
    &&& forall|t: int|
        0 <= t < gv.points.len() ==> g.valid_point(#[trigger] gv.points[t]) && g.at_point(
            gv.points[t],
        ) == gv.team
}

/// The group is closed under same-colored neighbor steps: it is not a strict
/// part of a larger connected set of its color.
pub open spec fn group_closed(g: GridView, gv: GroupView) -> bool {
    forall|p: Point, j: int|
        gv.points.contains(p) && #[trigger] g.is_neighbor(g.idx_of(p), j) && g.at(j) == gv.team
            ==> gv.points.contains(#[trigger] g.point_of(j))
}

/// The groups are exactly the maximal connected same-colored stone sets of
/// the board: each group lies on the board with one color, every stone is in
/// exactly one group, and each group is connected and maximal.
pub open spec fn is_group_partition(g: GridView, gvs: Seq<GroupView>) -> bool {
    &&& forall|k: int| 0 <= k < gvs.len() ==> group_on_board(g, #[trigger] gvs[k])
    &&& forall|p: Point|
        g.valid_point(p) && !g.at_point(p).spec_is_empty() ==> exists|k: int|
            0 <= k < gvs.len() && #[trigger] gvs[k].points.contains(p)
    &&& forall|k1: int, k2: int, p: Point|
        0 <= k1 < gvs.len() && 0 <= k2 < gvs.len() && #[trigger] gvs[k1].points.contains(p)
            && #[trigger] gvs[k2].points.contains(p) ==> k1 == k2
    &&& forall|k: int, p: Point, q: Point|
        0 <= k < gvs.len() && #[trigger] gvs[k].points.contains(p)
            && #[trigger] gvs[k].points.contains(q) ==> reaches(
            g,
            gvs[k].team,
            g.idx_of(p),
            g.idx_of(q),
        )
    &&& forall|k: int| 0 <= k < gvs.len() ==> group_closed(g, #[trigger] gvs[k])
}

/// A closed group that holds a path's start holds the path's end.
proof fn lemma_group_follows_path(g: GridView, gv: GroupView, path: Seq<int>)
    requires
        g.wf(),
        group_closed(g, gv),
        path_ok(g, gv.team, path),
        gv.points.contains(g.point_of(path.first())),
    ensures
        gv.points.contains(g.point_of(path.last())),
    decreases path.len(),
{
    if path.len() > 1 {
        let pre = path.drop_last();
        assert forall|k: int| 0 <= k < pre.len() implies g.valid_idx(#[trigger] pre[k]) && g.at(
            pre[k],
        ) == gv.team by {
            assert(pre[k] == path[k]);
        };
        assert forall|k: int| 0 < k < pre.len() implies g.is_neighbor(
            pre[k - 1],
            #[trigger] pre[k],
        ) by {
            assert(pre[k - 1] == path[k - 1] && pre[k] == path[k]);
        };
        assert(path_ok(g, gv.team, pre));
        lemma_group_follows_path(g, gv, pre);
        let a = path[path.len() - 2];
        let b = path[path.len() - 1];
        assert(pre.last() == a);
        lemma_coords(g, a);
        assert(g.is_neighbor(g.idx_of(g.point_of(a)), b));
        assert(gv.points.contains(g.point_of(b)));
    }
}

/// Whether the vector lists the point.
pub fn contains_point(v: &Vec<Point>, p: Point) -> (r: bool)
    ensures
        r == v@.contains(p),
{
    let mut t: usize = 0;
    while t < v.len()
        invariant
            t <= v@.len(),
            forall|k: int| 0 <= k < t ==> v@[k] != p,
        decreases v@.len() - t,
    {
        let q = v[t];
        if q.0 == p.0 && q.1 == p.1 {
            assert(v@[t as int] == p);
            return true;
        }
        t = t + 1;
    }
    false
}

/// Whether some group of the list holds the point.
fn point_in_some_group(groups: &Vec<Group>, p: Point) -> (r: bool)
    ensures
        r == exists|k: int| 0 <= k < groups@.len() && (#[trigger] groups@[k])@.points.contains(p),
{
    let mut k: usize = 0;
    while k < groups.len()
        invariant
            k <= groups@.len(),
            forall|k2: int| 0 <= k2 < k ==> !(#[trigger] groups@[k2])@.points.contains(p),
        decreases groups@.len() - k,
    {
        if contains_point(&groups[k].points, p) {
            assert(groups@[k as int]@.points.contains(p));
            return true;
        }
        k = k + 1;
    }
    false
}

/// The points of the cells a flood-fill mask marks.
fn collect_region(board: &Board, mask: &Vec<bool>) -> (pts: Vec<Point>)
    requires
        board.wf(),
        mask@.len() == board@.len(),
    ensures
        forall|p: Point|
            #[trigger] pts@.contains(p) ==> (board@.valid_point(p) && 0 <= board@.idx_of(p)
                < board@.len() && mask@[board@.idx_of(p)]),
        forall|p: Point|
            board@.valid_point(p) && #[trigger] mask@[board@.idx_of(p)] ==> pts@.contains(p),
{
    let ghost g = board@;
    let n = board.points.len();
    let w = board.width;
    let mut pts: Vec<Point> = Vec::new();
    let mut j: usize = 0;
    while j < n
        invariant
            board.wf(),
            g == board@,
            n == g.len(),
            w == g.width,
            j <= n,
            mask@.len() == n,
            forall|p: Point|
                #[trigger] pts@.contains(p) ==> (g.valid_point(p) && 0 <= g.idx_of(p) < j
                    && mask@[g.idx_of(p)]),
            forall|p: Point|
                g.valid_point(p) && g.idx_of(p) < j && #[trigger] mask@[g.idx_of(p)]
                    ==> pts@.contains(p),
        decreases n - j,
    {
        proof {
            lemma_coords(g, j as int);
        }
        if mask[j] {
            let q: Point = (j % w, j / w);
            proof {
                assert(q == g.point_of(j as int));
            }
            let ghost pts0 = pts@;
            push_elem(&mut pts, q);
            proof {
                assert forall|p: Point| #[trigger] pts@.contains(p) implies (g.valid_point(p) && 0
                    <= g.idx_of(p) < j + 1 && mask@[g.idx_of(p)]) by {
                    if p == q {
                        assert(g.idx_of(p) == j as int);
                    } else {
                        assert(pts0.contains(p));
                    }
                };
                assert forall|p: Point|
                    g.valid_point(p) && g.idx_of(p) < j + 1 && #[trigger] mask@[g.idx_of(p)]
                    implies pts@.contains(p) by {
                    lemma_idx(g, p.0 as int, p.1 as int);
                    if g.idx_of(p) == j as int {
                        assert(g.point_of(g.idx_of(p)) == p);
                        assert(p == q);
                    } else {
                        assert(pts0.contains(p));
                    }
                };
            }
        } else {
            proof {
                assert forall|p: Point|
                    g.valid_point(p) && g.idx_of(p) < j + 1 && #[trigger] mask@[g.idx_of(p)]
                    implies pts@.contains(p) by {
                    lemma_idx(g, p.0 as int, p.1 as int);
                    if g.idx_of(p) == j as int {
                        assert(g.point_of(g.idx_of(p)) == p);
                        assert(false);
                    }
                };
            }
        }
        j = j + 1;
    }
    proof {
        assert forall|p: Point| g.valid_point(p) implies 0 <= g.idx_of(p) < n by {
            lemma_idx(g, p.0 as int, p.1 as int);
        };
    }
    pts
}

/// Derives the connected stone groups of a board, all initially alive.
pub fn find_groups(board: &Board) -> (r: Vec<Group>)
    requires
        board.wf(),
    ensures
        is_group_partition(board@, views_of(r@)),
        forall|k: int| 0 <= k < r@.len() ==> (#[trigger] r@[k])@.alive,
        forall|k: int| 0 <= k < r@.len() ==> (#[trigger] r@[k])@.points.len() > 0,
{
    let ghost g = board@;
    let n = board.points.len();
    let mut groups: Vec<Group> = Vec::new();
    let mut i: usize = 0;
    while i < n
        invariant
            board.wf(),
            g == board@,
            n == g.len(),
            i <= n,
            forall|k: int| 0 <= k < groups@.len() ==> (#[trigger] groups@[k])@.alive,
            forall|k: int| 0 <= k < groups@.len() ==> (#[trigger] groups@[k])@.points.len() > 0,
            forall|k: int|
                0 <= k < groups@.len() ==> group_on_board(g, (#[trigger] groups@[k])@),
            forall|k: int| 0 <= k < groups@.len() ==> group_closed(g, (#[trigger] groups@[k])@),
            forall|j: int|
                0 <= j < i && !g.at(j).spec_is_empty() ==> exists|k: int|
                    0 <= k < groups@.len() && (#[trigger] groups@[k])@.points.contains(
                        g.point_of(j),
                    ),
            forall|k1: int, k2: int, p: Point|
                0 <= k1 < groups@.len() && 0 <= k2 < groups@.len()
                    && #[trigger] groups@[k1]@.points.contains(p)
                    && #[trigger] groups@[k2]@.points.contains(p) ==> k1 == k2,
            forall|k: int, p: Point, q: Point|
                0 <= k < groups@.len() && #[trigger] groups@[k]@.points.contains(p)
                    && #[trigger] groups@[k]@.points.contains(q) ==> reaches(
                    g,
                    groups@[k]@.team,
                    g.idx_of(p),
                    g.idx_of(q),
                ),
        decreases n - i,
    {
        proof {
            lemma_coords(g, i as int);
        }
        let ci = board.points[i];
        let w = board.width;
        let p: Point = (i % w, i / w);
        proof {
            assert(p == g.point_of(i as int));
        }
        if !ci.is_empty() && !point_in_some_group(&groups, p) {
            let mask = flood(board, i);
            let pts = collect_region(board, &mask);
            let ghost groups0 = groups@;
            push_elem(&mut groups, Group { points: pts, team: ci, alive: true });
            proof {
                let gi = groups0.len() as int;
                let gv = groups@[gi]@;
                assert(gv.points == pts@);
                assert(gv.team == ci);
                assert forall|k: int| 0 <= k < groups@.len() && k != gi implies groups@[k]
                    == groups0[k] by {}
                // membership in the new group is exactly reachability from i
                assert forall|q: Point| gv.points.contains(q) implies (g.valid_point(q) && reaches(
                    g,
                    ci,
                    i as int,
                    g.idx_of(q),
                )) by {
                    lemma_idx(g, q.0 as int, q.1 as int);
                }
                assert forall|q: Point| g.valid_point(q) && reaches(g, ci, i as int, g.idx_of(q))
                    implies gv.points.contains(q) by {
                    lemma_idx(g, q.0 as int, q.1 as int);
                    let jq = g.idx_of(q);
                    assert(0 <= jq < g.len());
                    assert(ci == g.at(i as int));
                    assert(mask@[jq]);
                    assert(pts@.contains(q));
                };
                // the new group lies on the board
                assert forall|t: int| 0 <= t < gv.points.len() implies g.valid_point(
                    #[trigger] gv.points[t],
                ) && g.at_point(gv.points[t]) == ci by {
                    assert(gv.points.contains(gv.points[t]));
                    let q = gv.points[t];
                    let path = choose|path: Seq<int>|
                        path_ok(g, ci, path) && path.first() == i as int && path.last() == g.idx_of(
                            q,
                        );
                    assert(g.at(path.last()) == ci);
                };
                assert(group_on_board(g, gv));
                // the new group is closed
                assert forall|q: Point, j: int|
                    gv.points.contains(q) && #[trigger] g.is_neighbor(g.idx_of(q), j) && g.at(j)
                        == ci implies gv.points.contains(#[trigger] g.point_of(j)) by {
                    lemma_reaches_step(g, ci, i as int, g.idx_of(q), j);
                    lemma_coords(g, j);
                    assert(reaches(g, ci, i as int, g.idx_of(g.point_of(j))));
                };
                assert(group_closed(g, gv));
                // the new group is disjoint from the older ones
                assert forall|k: int, q: Point|
                    0 <= k < gi && #[trigger] groups@[k]@.points.contains(q)
                    implies !gv.points.contains(q) by {
                    if gv.points.contains(q) {
                        let kv = groups0[k]@;
                        assert(g.at_point(q) == kv.team);
                        let jq = g.idx_of(q);
                        lemma_idx(g, q.0 as int, q.1 as int);
                        assert(g.at(jq) == ci);
                        lemma_reaches_sym(g, ci, i as int, jq);
                        let path = choose|path: Seq<int>|
                            path_ok(g, ci, path) && path.first() == jq && path.last() == i as int;
                        assert(g.point_of(jq) == q);
                        lemma_group_follows_path(g, kv, path);
                        assert(kv.points.contains(g.point_of(i as int)));
                        assert(groups0[k]@.points.contains(p));
                    }
                };
                // the new group is connected
                assert forall|q1: Point, q2: Point|
                    gv.points.contains(q1) && gv.points.contains(q2) implies reaches(
                    g,
                    ci,
                    g.idx_of(q1),
                    g.idx_of(q2),
                ) by {
                    lemma_reaches_sym(g, ci, i as int, g.idx_of(q1));
                    lemma_reaches_trans(g, ci, g.idx_of(q1), i as int, g.idx_of(q2));
                };
                // the stone at i itself is now covered
                lemma_reaches_refl(g, ci, i as int);
                assert(gv.points.contains(p));
                // coverage of earlier indices is kept
                assert forall|j: int| 0 <= j < i + 1 && !g.at(j).spec_is_empty() implies exists|k: int|
                    0 <= k < groups@.len() && (#[trigger] groups@[k])@.points.contains(
                        g.point_of(j),
                    ) by {
                    if j == i as int {
                        assert(groups@[gi]@.points.contains(g.point_of(j)));
                    } else {
                        let k = choose|k: int|
                            0 <= k < groups0.len() && (#[trigger] groups0[k])@.points.contains(
                                g.point_of(j),
                            );
                        assert(groups@[k]@.points.contains(g.point_of(j)));
                    }
                };
            }
        } else {
            proof {
                if !ci.is_empty() {
                    assert forall|j: int| 0 <= j < i + 1 && !g.at(j).spec_is_empty() implies exists|
                        k: int,
                    |
                        0 <= k < groups@.len() && (#[trigger] groups@[k])@.points.contains(
                            g.point_of(j),
                        ) by {};
                }
            }
        }
        i = i + 1;
    }
    proof {
        let gvs = views_of(groups@);
        assert(gvs.len() == groups@.len());
        assert forall|k: int| 0 <= k < gvs.len() implies gvs[k] == groups@[k]@ by {}
        assert forall|p: Point| g.valid_point(p) && !g.at_point(p).spec_is_empty() implies exists|
            k: int,
        | 0 <= k < gvs.len() && (#[trigger] gvs[k].points).contains(p) by {
            lemma_idx(g, p.0 as int, p.1 as int);
            let j = g.idx_of(p);
            assert(g.point_of(j) == p);
            let k = choose|k: int|
                0 <= k < groups@.len() && (#[trigger] groups@[k])@.points.contains(g.point_of(j));
            assert(gvs[k].points.contains(p));
        };
        assert(is_group_partition(g, gvs));
    }
    groups
}

} // verus!
