use vstd::prelude::*;

use super::Seat;

verus! {

/// What a finished game gives one team: its score, in half points as the
/// scoring phase counts them, and whether one of its seats resigned.
#[derive(Copy, Clone, Debug, PartialEq, Eq, Structural)]
pub struct TeamResult {
    pub half_points: i32,
    pub resigned: bool,
}

/// One of `seats` belongs to team number `team` (counted from one) and
/// resigned.
pub open spec fn team_resigned(seats: Seq<Seat>, team: int) -> bool {
    exists|j: int| 0 <= j < seats.len() && (#[trigger] seats[j]).team.0 == team && seats[j].resigned
}

/// The result of each team of a finished game with `scores`.
pub fn team_results(scores: &Vec<i32>, seats: &Vec<Seat>) -> (r: Vec<TeamResult>)
    requires
        forall|j: int| 0 <= j < seats@.len() ==> 1 <= (#[trigger] seats@[j]).team.0 <= scores@.len(),
    ensures
        r@.len() == scores@.len(),
        forall|t: int|
            0 <= t < scores@.len() ==> (#[trigger] r@[t]) == (TeamResult {
                half_points: scores@[t],
                resigned: team_resigned(seats@, t + 1),
            }),
{
    let mut r: Vec<TeamResult> = Vec::new();
    let mut t: usize = 0;
    while t < scores.len()
        invariant
            t <= scores@.len(),
            r@.len() == t,
            forall|k: int| 0 <= k < t ==> (#[trigger] r@[k]) == (TeamResult { half_points: scores@[k], resigned: false }),
        decreases scores@.len() - t,
    {
        r.push(TeamResult { half_points: scores[t], resigned: false });
        t = t + 1;
    }
    let mut j: usize = 0;
    while j < seats.len()
        invariant
            j <= seats@.len(),
            r@.len() == scores@.len(),
            forall|k: int| 0 <= k < seats@.len() ==> 1 <= (#[trigger] seats@[k]).team.0 <= scores@.len(),
            forall|k: int|
                0 <= k < scores@.len() ==> (#[trigger] r@[k]) == (TeamResult {
                    half_points: scores@[k],
                    resigned: team_resigned(seats@.subrange(0, j as int), k + 1),
                }),
        decreases seats@.len() - j,
    {
        let seat = seats[j];
        let k = (seat.team.0 - 1) as usize;
        if seat.resigned {
            r.set(k, TeamResult { half_points: scores[k], resigned: true });
        }
        proof {
            let before = seats@.subrange(0, j as int);
            let after = seats@.subrange(0, j + 1);
            assert forall|t: int| 0 <= t < scores@.len() implies (#[trigger] r@[t]).resigned == team_resigned(after, t + 1) by {
                if team_resigned(before, t + 1) {
                    let w = choose|w: int| 0 <= w < before.len() && (#[trigger] before[w]).team.0 == t + 1 && before[w].resigned;
                    assert(after[w] == before[w]);
                }
                if team_resigned(after, t + 1) && !team_resigned(before, t + 1) {
                    let w = choose|w: int| 0 <= w < after.len() && (#[trigger] after[w]).team.0 == t + 1 && after[w].resigned;
                    if w < j {
                        assert(before[w] == after[w]);
                    }
                }
                if seat.resigned && t == k {
                    assert(after[j as int] == seat);
                }
            }
        }
        j = j + 1;
    }
    proof {
        assert(seats@.subrange(0, seats@.len() as int) =~= seats@);
    }
    r
}

/// The winner of a finished game: the number (counted from one) of the
/// first team that did not resign and has the highest score, if that score
/// is above zero; zero when no such team exists.
pub open spec fn is_winner(teams: Seq<TeamResult>, w: int) -> bool {
    if w == 0 {
        forall|t: int| 0 <= t < teams.len() && !(#[trigger] teams[t]).resigned ==> teams[t].half_points <= 0
    } else {
        &&& 1 <= w <= teams.len()
        &&& !teams[w - 1].resigned
        &&& teams[w - 1].half_points > 0
        &&& forall|t: int| 0 <= t < teams.len() && !(#[trigger] teams[t]).resigned ==> teams[t].half_points <= teams[w - 1].half_points
        &&& forall|t: int| 0 <= t < w - 1 && !(#[trigger] teams[t]).resigned ==> teams[t].half_points < teams[w - 1].half_points
    }
}

/// The winner of a finished game: see `is_winner`.
pub fn winner(teams: &Vec<TeamResult>) -> (w: usize)
    ensures
        is_winner(teams@, w as int),
{
    let mut w: usize = 0;
    let mut best: i32 = 0;
    let mut t: usize = 0;
    while t < teams.len()
        invariant
            t <= teams@.len(),
            w <= t,
            w == 0 ==> best == 0,
            w > 0 ==> !teams@[w - 1].resigned && best == teams@[w - 1].half_points && best > 0,
            forall|k: int| 0 <= k < t && !(#[trigger] teams@[k]).resigned ==> teams@[k].half_points <= best,
            forall|k: int| 0 <= k < w - 1 && !(#[trigger] teams@[k]).resigned ==> teams@[k].half_points < best,
        decreases teams@.len() - t,
    {
        let team = teams[t];
        if !team.resigned && team.half_points > best {
            w = t + 1;
            best = team.half_points;
        }
        t = t + 1;
    }
    w
}

} // verus!
