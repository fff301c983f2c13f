//! The scoring phase state machine: life/death disputes, per-seat
//! acceptance, and the consensus that ends the game.

use vstd::prelude::*;
use crate::grid::{Board, Color, GridView, Point};
use crate::groups::{find_groups, views_of, Group, GroupView, is_group_partition};
use crate::territory::{
    groups_fit, lemma_partition_stamps_board, lemma_stamped_is_team, lemma_territory_is_stamped,
    score_board, scored_grid, stamped_at, stamped_grid, territory_at, territory_grid,
};

verus! {

/// A controllable slot in the game, optionally bound to a player, with a
/// resignation flag that is permanent once set.
#[derive(Clone, Copy, Debug)]
pub struct Seat {
    pub player: Option<u64>,
    pub resigned: bool,
}

/// The cross-phase context owned by the overall game: the final board, the
/// seat list, and the baseline score vector scoring starts from.
#[derive(Clone, Debug)]
pub struct SharedState {
    pub board: Board,
    pub seats: Vec<Seat>,
    pub points: Vec<i32>,
}

/// One player action delivered to the scoring phase.
#[derive(Clone, Copy, Debug, PartialEq, Eq, Structural)]
pub enum ActionKind {
    Place(usize, usize),
    Pass,
    Cancel,
    Resign,
}

/// The transition directive handed back to the phase dispatcher.
#[derive(Debug, PartialEq)]
pub enum ActionChange {
    NoChange,
    SwapState(ScoringState),
    PopState,
}

/// The error kind an action can signal.
#[derive(Clone, Copy, Debug, PartialEq, Eq, Structural)]
pub enum ActionError {
    PointOutOfRange,
}

pub type MakeActionResult = Result<ActionChange, ActionError>;

/// The scoring phase state: the disputable group snapshot, the resolved
/// territory board, the running scores, and one acceptance flag per seat.
#[derive(Debug, PartialEq)]
pub struct ScoringState {
    pub groups: Vec<Group>,
    /// The territory-resolved board, marking who owns each point.
    pub points: Board,
    pub scores: Vec<i32>,
    pub players_accepted: Vec<bool>,
}

/// Mathematical model of a scoring state.
#[verifier::ext_equal]
pub ghost struct ScoringView {
    pub groups: Seq<GroupView>,
    pub points: GridView,
    pub scores: Seq<i32>,
    pub accepted: Seq<bool>,
}

impl View for ScoringState {
    type V = ScoringView;

    open spec fn view(&self) -> ScoringView {
        ScoringView {
            groups: views_of(self.groups@),
            points: self.points@,
            scores: self.scores@,
            accepted: self.players_accepted@,
        }
    }
}

/// The seat is currently controlled by the player.
pub open spec fn seat_held(seat: Seat, pid: u64) -> bool {
    seat.player == Some(pid)
}

/// Every seat has accepted the result.
pub open spec fn all_accepted(acc: Seq<bool>) -> bool {
    forall|i: int| 0 <= i < acc.len() ==> acc[i]
}

/// The index of the first group listing p, or -1 when none does.
pub open spec fn find_group_idx(groups: Seq<GroupView>, p: Point) -> int
    decreases groups.len(),
{
    if groups.len() == 0 {
        -1
    } else if groups.first().points.contains(p) {
        0
    } else {
        let r = find_group_idx(groups.drop_first(), p);
        if r == -1 {
            -1
        } else {
            r + 1
        }
    }
}

/// The same group with its alive flag toggled.
pub open spec fn flip_group(gv: GroupView) -> GroupView {
    GroupView { alive: !gv.alive, ..gv }
}

/// The group list after a Place on p: the group holding p toggled, every
/// other group kept.
pub open spec fn place_groups(groups: Seq<GroupView>, p: Point) -> Seq<GroupView> {
    let i = find_group_idx(groups, p);
    if i == -1 {
        groups
    } else {
        groups.update(i, flip_group(groups[i]))
    }
}

/// The number of cells resolved to team index t (color value t + 1).
pub open spec fn count_team(colors: Seq<Color>, t: int) -> nat
    decreases colors.len(),
{
    if colors.len() == 0 {
        0
    } else {
        count_team(colors.drop_last(), t) + (if !colors.last().spec_is_empty()
            && colors.last().0 - 1 == t {
            1nat
        } else {
            0nat
        })
    }
}

/// Each team's score is its baseline plus two points per cell resolved to it.
pub open spec fn scores_ok(scores: Seq<i32>, baseline: Seq<i32>, colors: Seq<Color>) -> bool {
    &&& scores.len() == baseline.len()
    &&& forall|t: int|
        0 <= t < scores.len() ==> (#[trigger] scores[t]) == baseline[t] + 2 * count_team(colors, t)
}

/// Every team the groups name has a score slot: color values 1..=n.
pub open spec fn teams_fit(gvs: Seq<GroupView>, n: int) -> bool {
    forall|k: int| 0 <= k < gvs.len() ==> 1 <= (#[trigger] gvs[k]).team.0 <= n
}

/// Every stone color on the board has a score slot.
pub open spec fn board_colors_fit(g: GridView, n: int) -> bool {
    forall|i: int|
        0 <= i < g.len() && !(#[trigger] g.at(i)).spec_is_empty() ==> g.at(i).0 <= n
}

/// Adding two points per board cell to any baseline entry stays in range.
pub open spec fn scores_headroom(baseline: Seq<i32>, cells: nat) -> bool {
    forall|t: int|
        0 <= t < baseline.len() ==> (#[trigger] baseline[t]) + 2 * cells <= i32::MAX
}

pub proof fn lemma_count_team_bound(colors: Seq<Color>, t: int)
    ensures
        count_team(colors, t) <= colors.len(),
    decreases colors.len(),
{
    if colors.len() > 0 {
        lemma_count_team_bound(colors.drop_last(), t);
    }
}

/// What the first group index satisfies.
pub proof fn lemma_find_group_idx(gvs: Seq<GroupView>, p: Point)
    ensures
        find_group_idx(gvs, p) == -1 ==> forall|k: int|
            0 <= k < gvs.len() ==> !(#[trigger] gvs[k].points).contains(p),
        find_group_idx(gvs, p) != -1 ==> {
            let r = find_group_idx(gvs, p);
            &&& 0 <= r < gvs.len()
            &&& gvs[r].points.contains(p)
            &&& forall|k: int| 0 <= k < r ==> !(#[trigger] gvs[k].points).contains(p)
        },
    decreases gvs.len(),
{
    if gvs.len() > 0 && !gvs.first().points.contains(p) {
        let tail = gvs.drop_first();
        lemma_find_group_idx(tail, p);
        let rt = find_group_idx(tail, p);
        if rt == -1 {
            assert forall|k: int| 0 <= k < gvs.len() implies !(#[trigger] gvs[k].points).contains(
                p,
            ) by {
                if k > 0 {
                    assert(tail[k - 1] == gvs[k]);
                }
            };
        } else {
            assert(gvs[rt + 1] == tail[rt]);
            assert forall|k: int| 0 <= k < rt + 1 implies !(#[trigger] gvs[k].points).contains(
                p,
            ) by {
                if k > 0 {
                    assert(tail[k - 1] == gvs[k]);
                }
            };
        }
    }
}

/// Two group lists with the same stones agree on the first group at p.
proof fn lemma_find_same_points(a: Seq<GroupView>, b: Seq<GroupView>, p: Point)
    requires
        a.len() == b.len(),
        forall|k: int| 0 <= k < a.len() ==> (#[trigger] a[k]).points == b[k].points,
    ensures
        find_group_idx(a, p) == find_group_idx(b, p),
    decreases a.len(),
{
    if a.len() > 0 {
        assert(a[0].points == b[0].points);
        let ta = a.drop_first();
        let tb = b.drop_first();
        assert forall|k: int| 0 <= k < ta.len() implies (#[trigger] ta[k]).points
            == tb[k].points by {
            assert(ta[k] == a[k + 1] && tb[k] == b[k + 1]);
        };
        lemma_find_same_points(ta, tb, p);
    }
}

/// Copies a vector of copyable values.
fn copy_vec<T: Copy>(v: &Vec<T>) -> (r: Vec<T>)
    ensures
        r@ == v@,
{
    let mut r: Vec<T> = Vec::new();
    let mut i: usize = 0;
    while i < v.len()
        invariant
            i <= v@.len(),
            r@.len() == i,
            forall|k: int| 0 <= k < i ==> r@[k] == v@[k],
        decreases v@.len() - i,
    {
        r.push(v[i]);
        i = i + 1;
    }
    proof {
        assert(r@ =~= v@);
    }
    r
}

/// Whether every flag in the vector is set.
fn all_true(v: &Vec<bool>) -> (r: bool)
    ensures
        r == all_accepted(v@),
{
    let mut i: usize = 0;
    while i < v.len()
        invariant
            i <= v@.len(),
            forall|k: int| 0 <= k < i ==> v@[k],
        decreases v@.len() - i,
    {
        if !v[i] {
            return false;
        }
        i = i + 1;
    }
    true
}

/// One acceptance flag per seat, seeded from its resignation status.
fn seed_accepted(seats: &Vec<Seat>) -> (r: Vec<bool>)
    ensures
        r@.len() == seats@.len(),
        forall|i: int| 0 <= i < r@.len() ==> r@[i] == seats@[i].resigned,
{
    let mut r: Vec<bool> = Vec::new();
    let mut i: usize = 0;
    while i < seats.len()
        invariant
            i <= seats@.len(),
            r@.len() == i,
            forall|k: int| 0 <= k < i ==> r@[k] == seats@[k].resigned,
        decreases seats@.len() - i,
    {
        r.push(seats[i].resigned);
        i = i + 1;
    }
    r
}

/// Applies the territory result to a baseline: two points per resolved cell.
fn apply_territory(baseline: &Vec<i32>, resolved: &Board) -> (r: Vec<i32>)
    requires
        forall|i: int|
            0 <= i < resolved@.colors.len() && !(#[trigger] resolved@.colors[i]).spec_is_empty()
                ==> resolved@.colors[i].0 <= baseline@.len(),
        scores_headroom(baseline@, resolved@.colors.len() as nat),
    ensures
        scores_ok(r@, baseline@, resolved@.colors),
{
    let ghost cs = resolved@.colors;
    let mut r = copy_vec(baseline);
    let n = resolved.points.len();
    let mut i: usize = 0;
    proof {
        assert(cs.take(0) =~= Seq::<Color>::empty());
        assert forall|t: int| 0 <= t < r@.len() implies (#[trigger] r@[t]) == baseline@[t] + 2
            * count_team(cs.take(0), t) by {};
    }
    while i < n
        invariant
            cs == resolved@.colors,
            n == cs.len(),
            i <= n,
            r@.len() == baseline@.len(),
            forall|j: int|
                0 <= j < cs.len() && !(#[trigger] cs[j]).spec_is_empty() ==> cs[j].0
                    <= baseline@.len(),
            scores_headroom(baseline@, cs.len() as nat),
            forall|t: int|
                0 <= t < r@.len() ==> (#[trigger] r@[t]) == baseline@[t] + 2 * count_team(
                    cs.take(i as int),
                    t,
                ),
        decreases n - i,
    {
        let c = resolved.points[i];
        proof {
            let pre = cs.take(i as int);
            let post = cs.take(i as int + 1);
            assert(post.drop_last() =~= pre);
            assert(post.last() == cs[i as int]);
            assert forall|t: int| 0 <= t < baseline@.len() implies count_team(post, t)
                == count_team(pre, t) + (if !cs[i as int].spec_is_empty() && cs[i as int].0 - 1
                == t {
                1nat
            } else {
                0nat
            }) by {
                assert(count_team(post, t) == count_team(post.drop_last(), t) + (
                if !post.last().spec_is_empty() && post.last().0 - 1 == t {
                    1nat
                } else {
                    0nat
                }));
            };
            assert forall|t: int| 0 <= t < baseline@.len() implies count_team(post, t)
                <= post.len() by {
                lemma_count_team_bound(post, t);
            };
        }
        if !c.is_empty() {
            let t = (c.0 - 1) as usize;
            proof {
                assert(c == cs[i as int]);
                assert((t as int) < baseline@.len());
                assert(r@[t as int] == baseline@[t as int] + 2 * count_team(
                    cs.take(i as int),
                    t as int,
                ));
                assert(count_team(cs.take(i as int + 1), t as int) <= i + 1);
                assert(baseline@[t as int] + 2 * (cs.len() as int) <= i32::MAX);
            }
            let cur = r[t];
            r[t] = cur + 2;
        }
        i = i + 1;
    }
    proof {
        assert(cs.take(n as int) =~= cs);
    }
    r
}

/// The outcome of a Place action, relating the new state to the old.
pub open spec fn place_post(
    pre: ScoringView,
    presh: SharedState,
    post: ScoringView,
    postsh: SharedState,
    p: Point,
    r: MakeActionResult,
) -> bool {
    &&& postsh == presh
    &&& match r {
        Result::Err(e) => {
            &&& e == ActionError::PointOutOfRange
            &&& !presh.board@.valid_point(p)
            &&& post == pre
        },
        Result::Ok(ch) => {
            &&& presh.board@.valid_point(p)
            &&& ch == ActionChange::NoChange
            &&& if find_group_idx(pre.groups, p) == -1 {
                post == pre
            } else {
                &&& post.groups == place_groups(pre.groups, p)
                &&& post.points == scored_grid(presh.board@, post.groups)
                &&& scores_ok(post.scores, presh.points@, post.points.colors)
                &&& post.accepted.len() == presh.seats@.len()
                &&& forall|i: int|
                    0 <= i < post.accepted.len() ==> post.accepted[i] == presh.seats@[i].resigned
            }
        },
    }
}

/// The outcome of a Pass action.
pub open spec fn pass_post(
    pre: ScoringView,
    presh: SharedState,
    post: ScoringView,
    postsh: SharedState,
    pid: u64,
    r: MakeActionResult,
) -> bool {
    &&& postsh == presh
    &&& post.groups == pre.groups
    &&& post.points == pre.points
    &&& post.scores == pre.scores
    &&& post.accepted.len() == pre.accepted.len()
    &&& pre.accepted.len() == presh.seats@.len()
    &&& forall|i: int|
        0 <= i < post.accepted.len() ==> post.accepted[i] == (pre.accepted[i] || seat_held(
            presh.seats@[i],
            pid,
        ))
    &&& match r {
        Result::Ok(ActionChange::SwapState(snap)) => snap@ == post && all_accepted(post.accepted),
        Result::Ok(ActionChange::NoChange) => !all_accepted(post.accepted),
        _ => false,
    }
}

/// The outcome of a Resign action: the acting player's seats resign
/// permanently and accept, then consensus is checked as for Pass.
pub open spec fn resign_post(
    pre: ScoringView,
    presh: SharedState,
    post: ScoringView,
    postsh: SharedState,
    pid: u64,
    r: MakeActionResult,
) -> bool {
    &&& postsh.board == presh.board
    &&& postsh.points == presh.points
    &&& postsh.seats@.len() == presh.seats@.len()
    &&& forall|i: int|
        0 <= i < postsh.seats@.len() ==> postsh.seats@[i] == (if seat_held(
            presh.seats@[i],
            pid,
        ) {
            Seat { player: presh.seats@[i].player, resigned: true }
        } else {
            presh.seats@[i]
        })
    &&& post.groups == pre.groups
    &&& post.points == pre.points
    &&& post.scores == pre.scores
    &&& post.accepted.len() == pre.accepted.len()
    &&& pre.accepted.len() == presh.seats@.len()
    &&& forall|i: int|
        0 <= i < post.accepted.len() ==> post.accepted[i] == (pre.accepted[i] || seat_held(
            presh.seats@[i],
            pid,
        ))
    &&& match r {
        Result::Ok(ActionChange::SwapState(snap)) => snap@ == post && all_accepted(post.accepted),
        Result::Ok(ActionChange::NoChange) => !all_accepted(post.accepted),
        _ => false,
    }
}

impl Clone for ScoringState {
    /// A field-for-field snapshot: the clone models the same scoring state.
    fn clone(&self) -> (s: Self)
        ensures
            s@ == self@,
    {
        let mut groups: Vec<Group> = Vec::new();
        let mut k: usize = 0;
        while k < self.groups.len()
            invariant
                k <= self.groups@.len(),
                groups@.len() == k,
                forall|k2: int| 0 <= k2 < k ==> (#[trigger] groups@[k2])@ == self.groups@[k2]@,
            decreases self.groups@.len() - k,
        {
            let gr = &self.groups[k];
            let pts = copy_vec(&gr.points);
            groups.push(Group { points: pts, team: gr.team, alive: gr.alive });
            k = k + 1;
        }
        let points = Board {
            width: self.points.width,
            height: self.points.height,
            toroidal: self.points.toroidal,
            points: copy_vec(&self.points.points),
        };
        let scores = copy_vec(&self.scores);
        let players_accepted = copy_vec(&self.players_accepted);
        let s = ScoringState { groups, points, scores, players_accepted };
        proof {
            assert(views_of(s.groups@) =~= views_of(self.groups@));
            assert(s.points@ =~= self.points@);
            assert(s@ =~= self@);
        }
        s
    }
}

impl ScoringState {
    /// The phase state agrees with the shared context: parallel seat vector,
    /// a well-formed board carrying the groups' stones, a score slot for
    /// every team, and headroom for a full re-score.
    pub open spec fn consistent_with(&self, shared: SharedState) -> bool {
        &&& self.players_accepted@.len() == shared.seats@.len()
        &&& shared.board.wf()
        &&& groups_fit(shared.board@, self@.groups)
        &&& teams_fit(self@.groups, shared.points@.len() as int)
        &&& scores_headroom(shared.points@, shared.board@.len())
    }

    /// Builds the scoring phase state when live play ends: derives the
    /// groups from the final board, resolves territory, applies it to the
    /// baseline scores, and seeds each seat's acceptance from its
    /// resignation flag (a resigned seat is pre-accepted).
    pub fn new(board: &Board, seats: &[Seat], scores: &[i32]) -> (s: ScoringState)
        requires
            board.wf(),
            board_colors_fit(board@, scores@.len() as int),
            scores_headroom(scores@, board@.len()),
        ensures
            is_group_partition(board@, s@.groups),
            forall|k: int| 0 <= k < s@.groups.len() ==> (#[trigger] s@.groups[k]).alive,
            teams_fit(s@.groups, scores@.len() as int),
            s@.points == territory_grid(board@),
            scores_ok(s@.scores, scores@, s@.points.colors),
            s@.accepted.len() == seats@.len(),
            forall|i: int| 0 <= i < s@.accepted.len() ==> s@.accepted[i] == seats@[i].resigned,
    {
        let ghost g = board@;
        let groups = find_groups(board);
        let ghost gvs = views_of(groups@);
        proof {
            assert forall|k: int, t: int|
                0 <= k < gvs.len() && 0 <= t < gvs[k].points.len() implies g.valid_point(
                #[trigger] gvs[k].points[t],
            ) by {
                assert(gvs[k] == groups@[k]@);
            };
            assert forall|k: int| 0 <= k < gvs.len() implies 1 <= (#[trigger] gvs[k]).team.0
                <= scores@.len() by {
                let t = 0int;
                assert(gvs[k].points.len() > 0);
                assert(g.valid_point(gvs[k].points[t]) && g.at_point(gvs[k].points[t])
                    == gvs[k].team);
                crate::grid::lemma_idx(g, gvs[k].points[t].0 as int, gvs[k].points[t].1 as int);
            };
        }
        let points = score_board(board, &groups);
        proof {
            lemma_partition_stamps_board(g, gvs);
            assert(points@ == territory_grid(g));
            assert forall|i: int|
                0 <= i < points@.colors.len() && !(#[trigger] points@.colors[i]).spec_is_empty()
                implies points@.colors[i].0 <= scores@.len() by {
                assert(points@.colors[i] == territory_at(g, i));
                lemma_territory_is_stamped(g, i);
            };
        }
        let mut seats_vec: Vec<Seat> = Vec::new();
        let mut i: usize = 0;
        while i < seats.len()
            invariant
                i <= seats@.len(),
                seats_vec@.len() == i,
                forall|k: int| 0 <= k < i ==> seats_vec@[k] == seats@[k],
            decreases seats@.len() - i,
        {
            seats_vec.push(seats[i]);
            i = i + 1;
        }
        let mut base: Vec<i32> = Vec::new();
        let mut j: usize = 0;
        while j < scores.len()
            invariant
                j <= scores@.len(),
                base@.len() == j,
                forall|k: int| 0 <= k < j ==> base@[k] == scores@[k],
            decreases scores@.len() - j,
        {
            base.push(scores[j]);
            j = j + 1;
        }
        proof {
            assert(base@ =~= scores@);
            assert(seats_vec@ =~= seats@);
        }
        let new_scores = apply_territory(&base, &points);
        let accepted = seed_accepted(&seats_vec);
        ScoringState { groups, points, scores: new_scores, players_accepted: accepted }
    }

    /// Handles a Place during scoring: finds the group at the point and
    /// toggles its alive flag, rescoring the whole board and resetting every
    /// seat's acceptance to its resignation status; a valid empty point is a
    /// benign no-op, an out-of-range point an error.
    pub fn make_action_place(&mut self, shared: &mut SharedState, point: Point) -> (r:
        MakeActionResult)
        requires
            old(self).consistent_with(*old(shared)),
        ensures
            place_post(old(self)@, *old(shared), final(self)@, *final(shared), point, r),
            final(self).consistent_with(*final(shared)),
    {
        let ghost g = shared.board@;
        let ghost pre = self@;
        if point.0 >= shared.board.width || point.1 >= shared.board.height {
            return Result::Err(ActionError::PointOutOfRange);
        }
        proof {
            lemma_find_group_idx(pre.groups, point);
        }
        let mut gi: usize = 0;
        let mut found = false;
        while !found && gi < self.groups.len()
            invariant
                gi <= self.groups@.len(),
                pre == self@,
                forall|k: int| 0 <= k < gi ==> !(#[trigger] pre.groups[k].points).contains(point),
                found ==> (gi as int) < pre.groups.len() && pre.groups[gi as int].points.contains(
                    point,
                ),
            decreases self.groups@.len() - gi + (if found {
                0int
            } else {
                1int
            }),
        {
            if crate::groups::contains_point(&self.groups[gi].points, point) {
                proof {
                    assert(pre.groups[gi as int] == self.groups@[gi as int]@);
                }
                found = true;
            } else {
                gi = gi + 1;
            }
        }
        if !found {
            proof {
                assert forall|k: int| 0 <= k < pre.groups.len() implies !(
                #[trigger] pre.groups[k].points).contains(point) by {};
                assert(find_group_idx(pre.groups, point) == -1);
            }
            return Result::Ok(ActionChange::NoChange);
        }
        proof {
            let r0 = find_group_idx(pre.groups, point);
            assert(r0 != -1);
            if r0 < gi as int {
                assert(!pre.groups[r0].points.contains(point));
            }
            if r0 > gi as int {
                assert(!pre.groups[gi as int].points.contains(point));
            }
            assert(r0 == gi as int);
        }
        let team = self.groups[gi].team;
        let alive = self.groups[gi].alive;
        let pts = copy_vec(&self.groups[gi].points);
        self.groups[gi] = Group { points: pts, team, alive: !alive };
        proof {
            assert(self@.groups =~= place_groups(pre.groups, point));
            assert forall|k: int, t: int|
                0 <= k < self@.groups.len() && 0 <= t < self@.groups[k].points.len()
                implies g.valid_point(#[trigger] self@.groups[k].points[t]) by {
                if k == gi as int {
                    assert(self@.groups[k].points == pre.groups[k].points);
                }
            };
            assert forall|k: int| 0 <= k < self@.groups.len() implies 1 <= (
            #[trigger] self@.groups[k]).team.0 <= shared.points@.len() by {
                if k == gi as int {
                    assert(self@.groups[k].team == pre.groups[k].team);
                }
            };
        }
        let resolved = score_board(&shared.board, &self.groups);
        self.points = resolved;
        proof {
            let sv = stamped_grid(g, self@.groups);
            assert forall|i: int|
                0 <= i < self.points@.colors.len() && !(
                #[trigger] self.points@.colors[i]).spec_is_empty()
                implies self.points@.colors[i].0 <= shared.points@.len() by {
                assert(self.points@.colors[i] == territory_at(sv, i));
                lemma_territory_is_stamped(sv, i);
                if !territory_at(sv, i).spec_is_empty() {
                    let j = choose|j: int|
                        sv.valid_idx(j) && #[trigger] sv.at(j) == territory_at(sv, i);
                    assert(sv.at(j) == stamped_at(self@.groups, g.point_of(j)));
                    lemma_stamped_is_team(self@.groups, g.point_of(j));
                }
            };
        }
        let sc = apply_territory(&shared.points, &self.points);
        self.scores = sc;
        let acc = seed_accepted(&shared.seats);
        self.players_accepted = acc;
        Result::Ok(ActionChange::NoChange)
    }

    /// Handles a Pass: marks acceptance for every seat the acting player
    /// holds, and ends the phase when every seat has accepted.
    pub fn make_action_pass(&mut self, shared: &mut SharedState, player_id: u64) -> (r:
        MakeActionResult)
        requires
            old(self).players_accepted@.len() == old(shared).seats@.len(),
        ensures
            pass_post(old(self)@, *old(shared), final(self)@, *final(shared), player_id, r),
    {
        let ghost pre = self@;
        let n = shared.seats.len();
        let mut acc: Vec<bool> = Vec::new();
        let mut i: usize = 0;
        while i < n
            invariant
                n == shared.seats@.len(),
                *shared == *old(shared),
                *self == *old(self),
                pre == self@,
                pre.accepted.len() == n,
                i <= n,
                acc@.len() == i,
                forall|k: int|
                    0 <= k < i ==> acc@[k] == (pre.accepted[k] || seat_held(
                        shared.seats@[k],
                        player_id,
                    )),
            decreases n - i,
        {
            let held = match shared.seats[i].player {
                Some(q) => q == player_id,
                None => false,
            };
            let prev = self.players_accepted[i];
            acc.push(prev || held);
            i = i + 1;
        }
        self.players_accepted = acc;
        if all_true(&self.players_accepted) {
            let snap = self.clone();
            Result::Ok(ActionChange::SwapState(snap))
        } else {
            Result::Ok(ActionChange::NoChange)
        }
    }

    /// Handles a Resign: permanently resigns every seat the acting player
    /// holds, marks them accepted, and ends the phase on full consensus.
    fn make_action_resign(&mut self, shared: &mut SharedState, player_id: u64) -> (r:
        MakeActionResult)
        requires
            old(self).players_accepted@.len() == old(shared).seats@.len(),
        ensures
            resign_post(old(self)@, *old(shared), final(self)@, *final(shared), player_id, r),
    {
        let ghost pre = self@;
        let ghost presh = *old(shared);
        let n = shared.seats.len();
        let mut acc: Vec<bool> = Vec::new();
        let mut new_seats: Vec<Seat> = Vec::new();
        let mut i: usize = 0;
        while i < n
            invariant
                n == presh.seats@.len(),
                *shared == presh,
                *self == *old(self),
                pre == self@,
                pre.accepted.len() == n,
                i <= n,
                acc@.len() == i,
                new_seats@.len() == i,
                forall|k: int|
                    0 <= k < i ==> acc@[k] == (pre.accepted[k] || seat_held(
                        presh.seats@[k],
                        player_id,
                    )),
                forall|k: int|
                    0 <= k < i ==> new_seats@[k] == (if seat_held(presh.seats@[k], player_id) {
                        Seat { player: presh.seats@[k].player, resigned: true }
                    } else {
                        presh.seats@[k]
                    }),
            decreases n - i,
        {
            let seat = shared.seats[i];
            let held = match seat.player {
                Some(q) => q == player_id,
                None => false,
            };
            if held {
                new_seats.push(Seat { player: seat.player, resigned: true });
            } else {
                new_seats.push(seat);
            }
            let prev = self.players_accepted[i];
            acc.push(prev || held);
            i = i + 1;
        }
        shared.seats = new_seats;
        self.players_accepted = acc;
        if all_true(&self.players_accepted) {
            let snap = self.clone();
            Result::Ok(ActionChange::SwapState(snap))
        } else {
            Result::Ok(ActionChange::NoChange)
        }
    }

    /// The single action entry point: dispatches a player action and hands
    /// back the transition directive for the phase dispatcher.
    pub fn make_action(
        &mut self,
        shared: &mut SharedState,
        player_id: u64,
        action: ActionKind,
    ) -> (r: MakeActionResult)
        requires
            old(self).consistent_with(*old(shared)),
        ensures
            match action {
                ActionKind::Place(x, y) => place_post(
                    old(self)@,
                    *old(shared),
                    final(self)@,
                    *final(shared),
                    (x, y),
                    r,
                ),
                ActionKind::Pass => pass_post(
                    old(self)@,
                    *old(shared),
                    final(self)@,
                    *final(shared),
                    player_id,
                    r,
                ),
                ActionKind::Cancel => r == Result::<ActionChange, ActionError>::Ok(
                    ActionChange::PopState,
                ) && final(self)@ == old(self)@ && *final(shared) == *old(shared),
                ActionKind::Resign => resign_post(
                    old(self)@,
                    *old(shared),
                    final(self)@,
                    *final(shared),
                    player_id,
                    r,
                ),
            },
    {
        match action {
            ActionKind::Place(x, y) => self.make_action_place(shared, (x, y)),
            ActionKind::Pass => self.make_action_pass(shared, player_id),
            ActionKind::Cancel => Result::Ok(ActionChange::PopState),
            ActionKind::Resign => self.make_action_resign(shared, player_id),
        }
    }
}

/// Toggling the group at p twice restores the group list exactly.
pub proof fn lemma_place_involution(groups: Seq<GroupView>, p: Point)
    requires
        find_group_idx(groups, p) != -1,
    ensures
        place_groups(place_groups(groups, p), p) == groups,
{
    lemma_find_group_idx(groups, p);
    let i = find_group_idx(groups, p);
    let g1 = place_groups(groups, p);
    assert forall|k: int| 0 <= k < g1.len() implies (#[trigger] g1[k]).points
        == groups[k].points by {};
    lemma_find_same_points(g1, groups, p);
    assert(find_group_idx(g1, p) == i);
    let g2 = place_groups(g1, p);
    assert forall|k: int| 0 <= k < g2.len() implies g2[k] == groups[k] by {
        if k == i {
            assert(g2[k] =~= groups[k]);
        }
    };
    assert(g2 =~= groups);
}

/// Two Place actions on the same stone restore the territory board and the
/// score vector exactly: the toggle is an involution on a state that is in
/// sync with the shared context.
pub proof fn lemma_place_restores(
    s0: ScoringView,
    sh: SharedState,
    s1: ScoringView,
    s2: ScoringView,
    p: Point,
    r1: MakeActionResult,
    r2: MakeActionResult,
)
    requires
        place_post(s0, sh, s1, sh, p, r1),
        place_post(s1, sh, s2, sh, p, r2),
        sh.board@.valid_point(p),
        find_group_idx(s0.groups, p) != -1,
        s0.points == scored_grid(sh.board@, s0.groups),
        scores_ok(s0.scores, sh.points@, s0.points.colors),
    ensures
        s2.points == s0.points,
        s2.scores == s0.scores,
{
    lemma_find_group_idx(s0.groups, p);
    let i = find_group_idx(s0.groups, p);
    assert(s1.groups == place_groups(s0.groups, p));
    assert forall|k: int| 0 <= k < s1.groups.len() implies (#[trigger] s1.groups[k]).points
        == s0.groups[k].points by {};
    lemma_find_same_points(s1.groups, s0.groups, p);
    assert(find_group_idx(s1.groups, p) == i);
    lemma_place_involution(s0.groups, p);
    assert(s2.groups == s0.groups);
    assert(s2.points == scored_grid(sh.board@, s0.groups));
    assert(s2.scores.len() == s0.scores.len());
    assert forall|t: int| 0 <= t < s2.scores.len() implies (#[trigger] s2.scores[t])
        == s0.scores[t] by {
        assert(s2.scores[t] == sh.points@[t] + 2 * count_team(s2.points.colors, t));
        assert(s0.scores[t] == sh.points@[t] + 2 * count_team(s0.points.colors, t));
    };
    assert(s2.scores =~= s0.scores);
}

/// Acceptance given by Pass is kept by that Pass: no seat accepted before
/// the action is unaccepted after it.
pub proof fn lemma_pass_monotone(
    pre: ScoringView,
    presh: SharedState,
    post: ScoringView,
    postsh: SharedState,
    pid: u64,
    r: MakeActionResult,
)
    requires
        pass_post(pre, presh, post, postsh, pid, r),
    ensures
        forall|i: int| 0 <= i < post.accepted.len() && pre.accepted[i] ==> post.accepted[i],
{
}

/// Acceptance is likewise monotone under Resign.
pub proof fn lemma_resign_monotone(
    pre: ScoringView,
    presh: SharedState,
    post: ScoringView,
    postsh: SharedState,
    pid: u64,
    r: MakeActionResult,
)
    requires
        resign_post(pre, presh, post, postsh, pid, r),
    ensures
        forall|i: int| 0 <= i < post.accepted.len() && pre.accepted[i] ==> post.accepted[i],
{
}

/// No scoring action ever clears a seat's resigned flag.
pub proof fn lemma_resigned_permanent(
    pre: ScoringView,
    presh: SharedState,
    post: ScoringView,
    postsh: SharedState,
    pid: u64,
    action: ActionKind,
    r: MakeActionResult,
)
    requires
        match action {
            ActionKind::Place(x, y) => place_post(pre, presh, post, postsh, (x, y), r),
            ActionKind::Pass => pass_post(pre, presh, post, postsh, pid, r),
            ActionKind::Cancel => postsh == presh,
            ActionKind::Resign => resign_post(pre, presh, post, postsh, pid, r),
        },
    ensures
        postsh.seats@.len() == presh.seats@.len(),
        forall|i: int|
            0 <= i < presh.seats@.len() && presh.seats@[i].resigned
                ==> postsh.seats@[i].resigned,
{
}

/// Pass and Resign hand back the terminal transition exactly when, after
/// the update, every seat has accepted; otherwise they report no change.
pub proof fn lemma_termination_trigger(
    pre: ScoringView,
    presh: SharedState,
    post: ScoringView,
    postsh: SharedState,
    pid: u64,
    r: MakeActionResult,
    resigning: bool,
)
    requires
        if resigning {
            resign_post(pre, presh, post, postsh, pid, r)
        } else {
            pass_post(pre, presh, post, postsh, pid, r)
        },
    ensures
        (r matches Result::Ok(ActionChange::SwapState(_))) <==> all_accepted(post.accepted),
{
}


} // verus!

