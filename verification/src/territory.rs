//! The territory scorer: stamps living groups onto a fresh board, then
//! attributes every connected empty region bordered by exactly one team to
//! that team; regions bordering no team or several teams stay neutral.

use vstd::prelude::*;
use crate::grid::{lemma_coords, Board, Color, GridView, Point};
use crate::groups::{contains_point, is_group_partition, views_of, Group, GroupView};
use crate::region::{
    flood, lemma_reaches_sym, lemma_reaches_trans, path_ok, reaches,
};

verus! {

/// The color the stamping pass leaves at point p: the team of the last alive
/// group listing p, empty otherwise.
pub open spec fn stamped_at(groups: Seq<GroupView>, p: Point) -> Color
    decreases groups.len(),
{
    if groups.len() == 0 {
        Color(0)
    } else if groups.last().alive && groups.last().points.contains(p) {
        groups.last().team
    } else {
        stamped_at(groups.drop_last(), p)
    }
}

/// The board after stamping every alive group's stones, dead groups vacated.
pub open spec fn stamped_grid(g: GridView, groups: Seq<GroupView>) -> GridView {
    GridView { colors: Seq::new(g.len() as nat, |i: int| stamped_at(groups, g.point_of(i))), ..g }
}

/// Team c shows on the border of the connected empty region holding cell i
/// of the stamped grid s.
pub open spec fn region_borders(s: GridView, i: int, c: Color) -> bool {
    !c.spec_is_empty() && exists|q: int, r: int|
        reaches(s, Color(0), i, q) && #[trigger] s.is_neighbor(q, r) && s.at(r) == c
}

/// Team c is the only color on the region's border.
pub open spec fn sole_border(s: GridView, i: int, c: Color) -> bool {
    region_borders(s, i, c) && forall|d: Color| region_borders(s, i, d) ==> d == c
}

/// The resolved owner of cell i of a stamped grid: its own stone's color, or
/// the single team bordering its empty region, or neutral.
pub open spec fn territory_at(s: GridView, i: int) -> Color {
    if !s.at(i).spec_is_empty() {
        s.at(i)
    } else if exists|c: Color| sole_border(s, i, c) {
        choose|c: Color| sole_border(s, i, c)
    } else {
        Color(0)
    }
}

/// A stamped grid with every cell resolved to its territory owner.
pub open spec fn territory_grid(s: GridView) -> GridView {
    GridView { colors: Seq::new(s.len() as nat, |i: int| territory_at(s, i)), ..s }
}

/// What the scorer returns for a board and its groups.
pub open spec fn scored_grid(g: GridView, groups: Seq<GroupView>) -> GridView {
    territory_grid(stamped_grid(g, groups))
}

/// Every stone the groups list is on the board.
pub open spec fn groups_fit(g: GridView, gvs: Seq<GroupView>) -> bool {
    forall|k: int, t: int|
        0 <= k < gvs.len() && 0 <= t < gvs[k].points.len() ==> g.valid_point(
            #[trigger] gvs[k].points[t],
        )
}

/// Both endpoints of a reachability fact are valid cells of color c.
proof fn lemma_reaches_valid(g: GridView, c: Color, i: int, j: int)
    requires
        reaches(g, c, i, j),
    ensures
        g.valid_idx(i),
        g.valid_idx(j),
        g.at(i) == c,
        g.at(j) == c,
{
    let path = choose|path: Seq<int>|
        path_ok(g, c, path) && path.first() == i && path.last() == j;
    assert(g.valid_idx(path[0]) && g.at(path[0]) == c);
    assert(g.valid_idx(path[path.len() - 1]) && g.at(path[path.len() - 1]) == c);
}

/// Cells of one connected empty region see the same border colors.
proof fn lemma_borders_transfer(s: GridView, i: int, j: int)
    requires
        reaches(s, Color(0), i, j),
    ensures
        forall|d: Color| region_borders(s, j, d) == region_borders(s, i, d),
{
    lemma_reaches_sym(s, Color(0), i, j);
    assert forall|d: Color| region_borders(s, j, d) implies region_borders(s, i, d) by {
        let (q, r) = choose|q: int, r: int|
            reaches(s, Color(0), j, q) && #[trigger] s.is_neighbor(q, r) && s.at(r) == d;
        lemma_reaches_trans(s, Color(0), i, j, q);
    };
    assert forall|d: Color| region_borders(s, i, d) implies region_borders(s, j, d) by {
        let (q, r) = choose|q: int, r: int|
            reaches(s, Color(0), i, q) && #[trigger] s.is_neighbor(q, r) && s.at(r) == d;
        lemma_reaches_trans(s, Color(0), j, i, q);
    };
}

/// Single-color-border rule, positive side: when exactly one team color
/// shows on the border of the connected empty region holding cell i, every
/// cell of that region resolves to that team.
pub proof fn lemma_single_color_region(s: GridView, i: int, j: int, c: Color)
    requires
        sole_border(s, i, c),
        reaches(s, Color(0), i, j),
    ensures
        territory_at(s, j) == c,
{
    lemma_reaches_valid(s, Color(0), i, j);
    lemma_borders_transfer(s, i, j);
    assert(sole_border(s, j, c));
    let d = choose|d: Color| sole_border(s, j, d);
    assert(region_borders(s, j, d));
    assert(d == c);
}

/// Single-color-border rule, negative side: when no team color or two or
/// more distinct team colors show on the region's border, every cell of the
/// region stays neutral.
pub proof fn lemma_contested_region(s: GridView, i: int, j: int)
    requires
        reaches(s, Color(0), i, j),
        (forall|c: Color| !region_borders(s, i, c)) || (exists|c: Color, d: Color|
            c != d && region_borders(s, i, c) && region_borders(s, i, d)),
    ensures
        territory_at(s, j) == Color(0),
{
    lemma_reaches_valid(s, Color(0), i, j);
    lemma_borders_transfer(s, i, j);
    if exists|c: Color| sole_border(s, j, c) {
        let c = choose|c: Color| sole_border(s, j, c);
        assert(region_borders(s, i, c));
        if exists|a: Color, b: Color| a != b && region_borders(s, i, a) && region_borders(s, i, b) {
            let (a, b) = choose|a: Color, b: Color|
                a != b && region_borders(s, i, a) && region_borders(s, i, b);
            assert(region_borders(s, j, a) && region_borders(s, j, b));
            assert(a == c && b == c);
        }
        assert(false);
    }
}

/// The scorer is deterministic: its result is a function of the board and
/// the groups alone, so two runs on the same pair agree exactly.
pub proof fn lemma_scorer_deterministic(
    g: GridView,
    gvs: Seq<GroupView>,
    r1: GridView,
    r2: GridView,
)
    requires
        r1 == scored_grid(g, gvs),
        r2 == scored_grid(g, gvs),
    ensures
        r1 == r2,
{
}

/// A nonempty stamped color is some group's team.
pub proof fn lemma_stamped_is_team(groups: Seq<GroupView>, p: Point)
    ensures
        !stamped_at(groups, p).spec_is_empty() ==> exists|k: int|
            0 <= k < groups.len() && (#[trigger] groups[k]).team == stamped_at(groups, p),
    decreases groups.len(),
{
    if groups.len() > 0 {
        if groups.last().alive && groups.last().points.contains(p) {
            assert(groups[groups.len() - 1].team == stamped_at(groups, p));
        } else {
            lemma_stamped_is_team(groups.drop_last(), p);
            if !stamped_at(groups, p).spec_is_empty() {
                let k = choose|k: int|
                    0 <= k < groups.drop_last().len() && (#[trigger] groups.drop_last()[k]).team
                        == stamped_at(groups.drop_last(), p);
                assert(groups[k].team == stamped_at(groups, p));
            }
        }
    }
}

/// A nonempty resolved color already shows somewhere on the stamped grid.
pub proof fn lemma_territory_is_stamped(s: GridView, i: int)
    requires
        s.valid_idx(i),
    ensures
        !territory_at(s, i).spec_is_empty() ==> exists|j: int|
            s.valid_idx(j) && #[trigger] s.at(j) == territory_at(s, i),
{
    if !territory_at(s, i).spec_is_empty() {
        if !s.at(i).spec_is_empty() {
            assert(s.valid_idx(i) && s.at(i) == territory_at(s, i));
        } else {
            let c = choose|c: Color| sole_border(s, i, c);
            assert(territory_at(s, i) == c);
            let (q, r) = choose|q: int, r: int|
                reaches(s, Color(0), i, q) && #[trigger] s.is_neighbor(q, r) && s.at(r) == c;
            assert(s.valid_idx(r) && s.at(r) == territory_at(s, i));
        }
    }
}

/// Exactly one alive group lists p: the stamped color is that group's team.
proof fn lemma_stamped_unique(gvs: Seq<GroupView>, p: Point, k: int)
    requires
        0 <= k < gvs.len(),
        gvs[k].alive,
        gvs[k].points.contains(p),
        forall|k2: int| 0 <= k2 < gvs.len() && #[trigger] gvs[k2].points.contains(p) ==> k2 == k,
    ensures
        stamped_at(gvs, p) == gvs[k].team,
    decreases gvs.len(),
{
    if k == gvs.len() - 1 {
        assert(gvs.last().alive && gvs.last().points.contains(p));
    } else {
        assert(!gvs.last().points.contains(p));
        let pre = gvs.drop_last();
        assert forall|k2: int| 0 <= k2 < pre.len() && #[trigger] pre[k2].points.contains(p)
            implies k2 == k by {
            assert(gvs[k2].points.contains(p));
        };
        lemma_stamped_unique(pre, p, k);
    }
}

/// No group lists p: the stamped color is empty.
proof fn lemma_stamped_none(gvs: Seq<GroupView>, p: Point)
    requires
        forall|k: int| 0 <= k < gvs.len() ==> !(#[trigger] gvs[k].points).contains(p),
    ensures
        stamped_at(gvs, p) == Color(0),
    decreases gvs.len(),
{
    if gvs.len() > 0 {
        assert(!gvs[gvs.len() - 1].points.contains(p));
        let pre = gvs.drop_last();
        assert forall|k: int| 0 <= k < pre.len() implies !(#[trigger] pre[k].points).contains(
            p,
        ) by {
            assert(pre[k] == gvs[k]);
        };
        lemma_stamped_none(pre, p);
    }
}

/// Stamping the groups of a full partition, all alive, reproduces the board.
pub proof fn lemma_partition_stamps_board(g: GridView, gvs: Seq<GroupView>)
    requires
        g.wf(),
        is_group_partition(g, gvs),
        forall|k: int| 0 <= k < gvs.len() ==> (#[trigger] gvs[k]).alive,
    ensures
        stamped_grid(g, gvs) == g,
{
    assert forall|i: int| 0 <= i < g.len() implies stamped_at(gvs, g.point_of(i)) == g.at(i) by {
        lemma_coords(g, i);
        let p = g.point_of(i);
        assert(g.at_point(p) == g.at(i));
        if !g.at(i).spec_is_empty() {
            let k = choose|k: int| 0 <= k < gvs.len() && #[trigger] gvs[k].points.contains(p);
            let t = choose|t: int| 0 <= t < gvs[k].points.len() && gvs[k].points[t] == p;
            assert(g.at_point(p) == gvs[k].team);
            lemma_stamped_unique(gvs, p, k);
        } else {
            assert forall|k: int| 0 <= k < gvs.len() implies !(#[trigger] gvs[k].points).contains(
                p,
            ) by {
                if gvs[k].points.contains(p) {
                    let t = choose|t: int| 0 <= t < gvs[k].points.len() && gvs[k].points[t] == p;
                    assert(g.at_point(p) == gvs[k].team);
                }
            };
            lemma_stamped_none(gvs, p);
        }
    };
    assert forall|i: int| 0 <= i < g.colors.len() implies stamped_grid(g, gvs).colors[i]
        == g.colors[i] by {
        assert(stamped_grid(g, gvs).colors[i] == stamped_at(gvs, g.point_of(i)));
        assert(stamped_at(gvs, g.point_of(i)) == g.at(i));
    };
    assert(stamped_grid(g, gvs).colors =~= g.colors);
    assert(stamped_grid(g, gvs) =~= g);
}

/// Summary of the distinct team colors seen on a region's border.
enum SeenTeams {
    Zero,
    One(Color),
    Many,
}

/// Team c shows next to a masked cell among the first n cells.
spec fn mask_border_upto(s: GridView, mask: Seq<bool>, n: int, c: Color) -> bool {
    !c.spec_is_empty() && exists|a: int, b: int|
        0 <= a < n && mask[a] && #[trigger] s.is_neighbor(a, b) && s.at(b) == c
}

/// Team c shows next to a masked cell among the first a cells, or next to
/// cell a itself through one of its first t listed neighbors.
spec fn mask_border_inner(
    s: GridView,
    mask: Seq<bool>,
    a: int,
    nbrs: Seq<usize>,
    t: int,
    c: Color,
) -> bool {
    ||| mask_border_upto(s, mask, a, c)
    ||| (!c.spec_is_empty() && 0 <= a < mask.len() && mask[a] && exists|k: int|
        0 <= k < t && s.at((#[trigger] nbrs[k]) as int) == c)
}

/// The accumulator faithfully summarizes the border colors seen so far.
spec fn seen_ok(acc: SeenTeams, s: GridView, mask: Seq<bool>, n: int) -> bool {
    match acc {
        SeenTeams::Zero => forall|c: Color| !mask_border_upto(s, mask, n, c),
        SeenTeams::One(c) => mask_border_upto(s, mask, n, c) && forall|d: Color|
            mask_border_upto(s, mask, n, d) ==> d == c,
        SeenTeams::Many => exists|c: Color, d: Color|
            c != d && mask_border_upto(s, mask, n, c) && mask_border_upto(s, mask, n, d),
    }
}

/// Folds one more bordering color into the summary.
fn merge_seen(acc: SeenTeams, c: Color) -> (r: SeenTeams)
    requires
        !c.spec_is_empty(),
    ensures
        r == match acc {
            SeenTeams::Zero => SeenTeams::One(c),
            SeenTeams::One(x) => if x == c {
                SeenTeams::One(x)
            } else {
                SeenTeams::Many
            },
            SeenTeams::Many => SeenTeams::Many,
        },
{
    match acc {
        SeenTeams::Zero => SeenTeams::One(c),
        SeenTeams::One(x) => if x == c {
            SeenTeams::One(x)
        } else {
            SeenTeams::Many
        },
        SeenTeams::Many => SeenTeams::Many,
    }
}

/// Scans the masked region and summarizes the distinct nonempty colors that
/// border it.
fn border_summary(b: &Board, mask: &Vec<bool>) -> (r: SeenTeams)
    requires
        b.wf(),
        mask@.len() == b@.len(),
    ensures
        seen_ok(r, b@, mask@, b@.len() as int),
{
    let ghost s = b@;
    let n = b.points.len();
    let mut acc = SeenTeams::Zero;
    let mut a: usize = 0;
    while a < n
        invariant
            b.wf(),
            s == b@,
            n == s.len(),
            mask@.len() == n,
            a <= n,
            seen_ok(acc, s, mask@, a as int),
        decreases n - a,
    {
        if mask[a] {
            let nbrs = b.neighbors(a);
            proof {
                assert forall|k: int| 0 <= k < nbrs@.len() implies s.is_neighbor(
                    a as int,
                    (#[trigger] nbrs@[k]) as int,
                ) by {
                    assert(nbrs@.contains(nbrs@[k]));
                };
            }
            let mut t: usize = 0;
            proof {
                lemma_upto_to_inner(acc, s, mask@, a as int, nbrs@);
            }
            while t < nbrs.len()
                invariant
                    b.wf(),
                    s == b@,
                    n == s.len(),
                    mask@.len() == n,
                    (a as int) < s.len(),
                    mask@[a as int],
                    t <= nbrs@.len(),
                    forall|k: int|
                        0 <= k < nbrs@.len() ==> s.is_neighbor(a as int, (#[trigger] nbrs@[k]) as int),
                    forall|j: int|
                        #[trigger] s.is_neighbor(a as int, j) ==> nbrs@.contains(j as usize),
                    seen_inner_ok(acc, s, mask@, a as int, nbrs@, t as int),
                decreases nbrs@.len() - t,
            {
                let j = nbrs[t];
                let cj = b.points[j];
                let ghost acc0 = acc;
                if !cj.is_empty() {
                    acc = merge_seen(acc, cj);
                }
                proof {
                    lemma_inner_step(acc0, acc, s, mask@, a as int, nbrs@, t as int, cj);
                }
                t = t + 1;
            }
            proof {
                lemma_inner_to_upto(acc, s, mask@, a as int, nbrs@);
            }
        } else {
            proof {
                assert forall|c: Color| mask_border_upto(s, mask@, a as int + 1, c)
                    implies mask_border_upto(s, mask@, a as int, c) by {
                    let (q, r2) = choose|q: int, r2: int|
                        0 <= q < a as int + 1 && mask@[q] && #[trigger] s.is_neighbor(q, r2)
                            && s.at(r2) == c;
                    assert(q != a as int);
                };
                assert forall|c: Color| mask_border_upto(s, mask@, a as int, c)
                    implies mask_border_upto(s, mask@, a as int + 1, c) by {};
                lemma_seen_same(acc, s, mask@, a as int, a as int + 1);
            }
        }
        a = a + 1;
    }
    acc
}

/// The inner-loop invariant: the summary covers the border colors seen
/// before cell a plus those among a's first t neighbors.
spec fn seen_inner_ok(acc: SeenTeams, s: GridView, mask: Seq<bool>, a: int, nbrs: Seq<usize>, t: int) -> bool {
    match acc {
        SeenTeams::Zero => forall|c: Color| !mask_border_inner(s, mask, a, nbrs, t, c),
        SeenTeams::One(c) => mask_border_inner(s, mask, a, nbrs, t, c) && forall|d: Color|
            mask_border_inner(s, mask, a, nbrs, t, d) ==> d == c,
        SeenTeams::Many => exists|c: Color, d: Color|
            c != d && mask_border_inner(s, mask, a, nbrs, t, c) && mask_border_inner(
                s,
                mask,
                a,
                nbrs,
                t,
                d,
            ),
    }
}

/// One neighbor step preserves the inner summary.
proof fn lemma_inner_step(
    acc0: SeenTeams,
    acc: SeenTeams,
    s: GridView,
    mask: Seq<bool>,
    a: int,
    nbrs: Seq<usize>,
    t: int,
    cj: Color,
)
    requires
        0 <= t < nbrs.len(),
        0 <= a < mask.len(),
        mask[a],
        s.at(nbrs[t] as int) == cj,
        seen_inner_ok(acc0, s, mask, a, nbrs, t),
        acc == if cj.spec_is_empty() {
            acc0
        } else {
            match acc0 {
                SeenTeams::Zero => SeenTeams::One(cj),
                SeenTeams::One(x) => if x == cj {
                    SeenTeams::One(x)
                } else {
                    SeenTeams::Many
                },
                SeenTeams::Many => SeenTeams::Many,
            }
        },
    ensures
        seen_inner_ok(acc, s, mask, a, nbrs, t + 1),
{
    assert forall|c: Color| mask_border_inner(s, mask, a, nbrs, t + 1, c) implies (
    mask_border_inner(s, mask, a, nbrs, t, c) || (c == cj && !c.spec_is_empty())) by {
        if !mask_border_upto(s, mask, a, c) && c != cj {
            let k = choose|k: int| 0 <= k < t + 1 && s.at((#[trigger] nbrs[k]) as int) == c;
            assert(k < t);
        }
    };
    assert forall|c: Color| mask_border_inner(s, mask, a, nbrs, t, c) implies mask_border_inner(
        s,
        mask,
        a,
        nbrs,
        t + 1,
        c,
    ) by {
        if !mask_border_upto(s, mask, a, c) {
            let k = choose|k: int| 0 <= k < t && s.at((#[trigger] nbrs[k]) as int) == c;
            assert(0 <= k < t + 1 && s.at(nbrs[k] as int) == c);
        }
    };
    if !cj.spec_is_empty() {
        assert(s.at(nbrs[t] as int) == cj);
        assert(mask_border_inner(s, mask, a, nbrs, t + 1, cj));
    }
    match acc {
        SeenTeams::Zero => {
            assert(cj.spec_is_empty() && acc0 == SeenTeams::Zero);
            assert forall|c: Color| !(#[trigger] mask_border_inner(s, mask, a, nbrs, t + 1, c)) by {
                if mask_border_inner(s, mask, a, nbrs, t + 1, c) {
                    assert(mask_border_inner(s, mask, a, nbrs, t, c) || (c == cj
                        && !c.spec_is_empty()));
                }
            };
        },
        SeenTeams::One(x) => {
            assert(mask_border_inner(s, mask, a, nbrs, t + 1, x));
            assert forall|d: Color| #[trigger] mask_border_inner(s, mask, a, nbrs, t + 1, d)
                implies d == x by {
                if mask_border_inner(s, mask, a, nbrs, t, d) {
                    assert(acc0 == SeenTeams::One(x) || acc0 == SeenTeams::Zero);
                    assert(d == x);
                } else {
                    assert(d == cj && !d.spec_is_empty());
                }
            };
        },
        SeenTeams::Many => {
            if acc0 == SeenTeams::Many {
                let (c, d) = choose|c: Color, d: Color|
                    c != d && mask_border_inner(s, mask, a, nbrs, t, c) && mask_border_inner(
                        s,
                        mask,
                        a,
                        nbrs,
                        t,
                        d,
                    );
                assert(mask_border_inner(s, mask, a, nbrs, t + 1, c) && mask_border_inner(
                    s,
                    mask,
                    a,
                    nbrs,
                    t + 1,
                    d,
                ));
            } else {
                let x = acc0->One_0;
                assert(mask_border_inner(s, mask, a, nbrs, t, x));
                assert(mask_border_inner(s, mask, a, nbrs, t + 1, x));
                assert(x != cj && !cj.spec_is_empty());
                assert(mask_border_inner(s, mask, a, nbrs, t + 1, cj));
            }
        },
    }
}

/// Entering a masked cell: the border colors seen so far are those of the
/// prefix, none of the cell's neighbors being folded in yet.
proof fn lemma_upto_to_inner(acc: SeenTeams, s: GridView, mask: Seq<bool>, a: int, nbrs: Seq<usize>)
    requires
        seen_ok(acc, s, mask, a),
    ensures
        seen_inner_ok(acc, s, mask, a, nbrs, 0),
{
    assert forall|c: Color| mask_border_inner(s, mask, a, nbrs, 0, c) implies mask_border_upto(
        s,
        mask,
        a,
        c,
    ) by {};
    match acc {
        SeenTeams::Zero => {
            assert forall|c: Color| !(#[trigger] mask_border_inner(s, mask, a, nbrs, 0, c)) by {
                if mask_border_inner(s, mask, a, nbrs, 0, c) {
                    assert(mask_border_upto(s, mask, a, c));
                }
            };
        },
        SeenTeams::One(c) => {
            assert(mask_border_inner(s, mask, a, nbrs, 0, c));
            assert forall|d: Color| mask_border_inner(s, mask, a, nbrs, 0, d) implies d == c by {
                assert(mask_border_upto(s, mask, a, d));
            };
        },
        SeenTeams::Many => {
            let (c, d) = choose|c: Color, d: Color|
                c != d && mask_border_upto(s, mask, a, c) && mask_border_upto(s, mask, a, d);
            assert(mask_border_inner(s, mask, a, nbrs, 0, c) && mask_border_inner(
                s,
                mask,
                a,
                nbrs,
                0,
                d,
            ));
        },
    }
}

/// After all of a's neighbors are folded in, the inner summary says exactly
/// what the prefix summary through a + 1 must say.
proof fn lemma_inner_to_upto(acc: SeenTeams, s: GridView, mask: Seq<bool>, a: int, nbrs: Seq<usize>)
    requires
        s.len() <= usize::MAX,
        0 <= a < mask.len(),
        mask[a],
        seen_inner_ok(acc, s, mask, a, nbrs, nbrs.len() as int),
        forall|k: int| 0 <= k < nbrs.len() ==> s.is_neighbor(a, (#[trigger] nbrs[k]) as int),
        forall|j: int| #[trigger] s.is_neighbor(a, j) ==> nbrs.contains(j as usize),
    ensures
        seen_ok(acc, s, mask, a + 1),
{
    let tn = nbrs.len() as int;
    assert forall|c: Color| mask_border_upto(s, mask, a + 1, c) implies mask_border_inner(
        s,
        mask,
        a,
        nbrs,
        tn,
        c,
    ) by {
        let (q, r2) = choose|q: int, r2: int|
            0 <= q < a + 1 && mask[q] && #[trigger] s.is_neighbor(q, r2) && s.at(r2) == c;
        if q == a {
            assert(0 <= r2 < s.len());
            assert(nbrs.contains(r2 as usize));
            let k = choose|k: int| 0 <= k < nbrs.len() && nbrs[k] == r2 as usize;
            assert(s.at((nbrs[k]) as int) == c);
        } else {
            assert(mask_border_upto(s, mask, a, c));
        }
    };
    assert forall|c: Color| mask_border_inner(s, mask, a, nbrs, tn, c) implies mask_border_upto(
        s,
        mask,
        a + 1,
        c,
    ) by {
        if mask_border_upto(s, mask, a, c) {
            let (q, r2) = choose|q: int, r2: int|
                0 <= q < a && mask[q] && #[trigger] s.is_neighbor(q, r2) && s.at(r2) == c;
            assert(0 <= q < a + 1 && mask[q] && s.is_neighbor(q, r2) && s.at(r2) == c);
        } else {
            let k = choose|k: int| 0 <= k < tn && s.at((#[trigger] nbrs[k]) as int) == c;
            assert(s.is_neighbor(a, nbrs[k] as int));
            assert(0 <= a < a + 1 && mask[a] && s.is_neighbor(a, nbrs[k] as int) && s.at(
                nbrs[k] as int,
            ) == c);
        }
    };
    match acc {
        SeenTeams::Zero => {
            assert forall|c: Color| !(#[trigger] mask_border_upto(s, mask, a + 1, c)) by {
                if mask_border_upto(s, mask, a + 1, c) {
                    assert(mask_border_inner(s, mask, a, nbrs, tn, c));
                }
            };
        },
        SeenTeams::One(c) => {
            assert(mask_border_upto(s, mask, a + 1, c));
            assert forall|d: Color| #[trigger] mask_border_upto(s, mask, a + 1, d) implies d
                == c by {
                assert(mask_border_inner(s, mask, a, nbrs, tn, d));
            };
        },
        SeenTeams::Many => {
            let (c, d) = choose|c: Color, d: Color|
                c != d && mask_border_inner(s, mask, a, nbrs, tn, c) && mask_border_inner(
                    s,
                    mask,
                    a,
                    nbrs,
                    tn,
                    d,
                );
            assert(mask_border_upto(s, mask, a + 1, c) && mask_border_upto(s, mask, a + 1, d));
        },
    }
}

/// The summary is insensitive to a prefix bound under which nothing changed.
proof fn lemma_seen_same(acc: SeenTeams, s: GridView, mask: Seq<bool>, n1: int, n2: int)
    requires
        seen_ok(acc, s, mask, n1),
        forall|c: Color| mask_border_upto(s, mask, n1, c) == mask_border_upto(s, mask, n2, c),
    ensures
        seen_ok(acc, s, mask, n2),
{
}

/// Stamps every alive group's stones onto a fresh board of the same shape.
fn stamp_board(board: &Board, groups: &Vec<Group>) -> (r: Board)
    requires
        board.wf(),
        groups_fit(board@, views_of(groups@)),
    ensures
        r.wf(),
        r@ == stamped_grid(board@, views_of(groups@)),
{
    let ghost g = board@;
    let ghost gvs = views_of(groups@);
    let n = board.points.len();
    let w = board.width;
    let mut cols: Vec<Color> = Vec::new();
    let mut i: usize = 0;
    while i < n
        invariant
            board.wf(),
            g == board@,
            gvs == views_of(groups@),
            n == g.len(),
            w == g.width,
            i <= n,
            cols@.len() == i,
            forall|m: int| 0 <= m < i ==> cols@[m] == stamped_at(gvs, g.point_of(m)),
        decreases n - i,
    {
        proof {
            lemma_coords(g, i as int);
        }
        let p: Point = (i % w, i / w);
        proof {
            assert(p == g.point_of(i as int));
        }
        let mut cc = Color(0);
        let mut k: usize = 0;
        proof {
            assert(gvs.take(0) =~= Seq::<GroupView>::empty());
        }
        while k < groups.len()
            invariant
                gvs == views_of(groups@),
                k <= groups@.len(),
                gvs.len() == groups@.len(),
                cc == stamped_at(gvs.take(k as int), p),
            decreases groups@.len() - k,
        {
            let gr = &groups[k];
            let hit = if gr.alive {
                contains_point(&gr.points, p)
            } else {
                false
            };
            proof {
                let tk = gvs.take(k as int + 1);
                assert(tk.drop_last() =~= gvs.take(k as int));
                assert(tk.last() == gvs[k as int]);
                assert(gvs[k as int] == groups@[k as int]@);
            }
            if hit {
                cc = gr.team;
            }
            k = k + 1;
        }
        proof {
            assert(gvs.take(gvs.len() as int) =~= gvs);
        }
        cols.push(cc);
        i = i + 1;
    }
    let r = Board {
        width: board.width,
        height: board.height,
        toroidal: board.toroidal,
        points: cols,
    };
    proof {
        assert(r@ =~= stamped_grid(g, gvs));
    }
    r
}

/// Scores a board: stamps the alive groups, then resolves every empty region
/// to the single team bordering it, or to neutral.  Pure: neither input is
/// changed, and the result is a function of the two alone.
pub fn score_board(board: &Board, groups: &Vec<Group>) -> (r: Board)
    requires
        board.wf(),
        groups_fit(board@, views_of(groups@)),
    ensures
        r.wf(),
        r@ == scored_grid(board@, views_of(groups@)),
{
    let s = stamp_board(board, groups);
    let ghost sv = s@;
    let n = s.points.len();
    let mut cols: Vec<Color> = Vec::new();
    let mut i: usize = 0;
    while i < n
        invariant
            s.wf(),
            sv == s@,
            n == sv.len(),
            i <= n,
            cols@.len() == i,
            forall|m: int| 0 <= m < i ==> cols@[m] == territory_at(sv, m),
        decreases n - i,
    {
        let ci = s.points[i];
        if !ci.is_empty() {
            cols.push(ci);
            proof {
                assert(territory_at(sv, i as int) == ci);
            }
        } else {
            let mask = flood(&s, i);
            let seen = border_summary(&s, &mask);
            proof {
                assert(sv.at(i as int) == Color(0));
                assert forall|c: Color| mask_border_upto(sv, mask@, n as int, c)
                    == region_borders(sv, i as int, c) by {
                    if mask_border_upto(sv, mask@, n as int, c) {
                        let (q, r2) = choose|q: int, r2: int|
                            0 <= q < n as int && mask@[q] && #[trigger] sv.is_neighbor(q, r2)
                                && sv.at(r2) == c;
                        assert(reaches(sv, Color(0), i as int, q));
                        assert(region_borders(sv, i as int, c));
                    }
                    if region_borders(sv, i as int, c) {
                        let (q, r2) = choose|q: int, r2: int|
                            reaches(sv, Color(0), i as int, q) && #[trigger] sv.is_neighbor(q, r2)
                                && sv.at(r2) == c;
                        lemma_reaches_valid(sv, Color(0), i as int, q);
                        assert(mask@[q]);
                        assert(mask_border_upto(sv, mask@, n as int, c));
                    }
                };
            }
            match seen {
                SeenTeams::One(c) => {
                    cols.push(c);
                    proof {
                        assert(region_borders(sv, i as int, c));
                        assert forall|d: Color| region_borders(sv, i as int, d) implies d == c by {
                            assert(mask_border_upto(sv, mask@, n as int, d));
                        };
                        assert(sole_border(sv, i as int, c));
                        let d = choose|d: Color| sole_border(sv, i as int, d);
                        assert(region_borders(sv, i as int, d));
                        assert(territory_at(sv, i as int) == c);
                    }
                },
                SeenTeams::Zero => {
                    cols.push(Color(0));
                    proof {
                        if exists|c: Color| sole_border(sv, i as int, c) {
                            let c = choose|c: Color| sole_border(sv, i as int, c);
                            assert(region_borders(sv, i as int, c));
                            assert(mask_border_upto(sv, mask@, n as int, c));
                            assert(false);
                        }
                        assert(territory_at(sv, i as int) == Color(0));
                    }
                },
                SeenTeams::Many => {
                    cols.push(Color(0));
                    proof {
                        let (c, d) = choose|c: Color, d: Color|
                            c != d && mask_border_upto(sv, mask@, n as int, c) && mask_border_upto(
                                sv,
                                mask@,
                                n as int,
                                d,
                            );
                        if exists|e: Color| sole_border(sv, i as int, e) {
                            let e = choose|e: Color| sole_border(sv, i as int, e);
                            assert(region_borders(sv, i as int, c));
                            assert(region_borders(sv, i as int, d));
                            assert(c == e && d == e);
                            assert(false);
                        }
                        assert(territory_at(sv, i as int) == Color(0));
                    }
                },
            }
        }
        i = i + 1;
    }
    let r = Board {
        width: s.width,
        height: s.height,
        toroidal: s.toroidal,
        points: cols,
    };
    proof {
        assert(r@ =~= territory_grid(sv));
    }
    r
}

} // verus!
