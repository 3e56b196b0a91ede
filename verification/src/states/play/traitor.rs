use vstd::prelude::*;

use crate::game::{Color, TraitorGo};

verus! {

/// The generator of traitor go: a PCG with 64 bits of state and 32-bit
/// output.
#[verifier::external_type_specification]
#[verifier::external_body]
pub struct ExLcg64Xsh32(rand_pcg::Lcg64Xsh32);

/// A generator seeded with `seed` (`SeedableRng::seed_from_u64` of
/// `rand_pcg::Lcg64Xsh32`). Nothing is stated of its state.
#[verifier::external_body]
fn seeded_rng(seed: u64) -> rand_pcg::Lcg64Xsh32 {
    <rand_pcg::Lcg64Xsh32 as rand::SeedableRng>::seed_from_u64(seed)
}

/// The next 32 random bits of `rng` (`RngCore::next_u32`). Nothing is
/// stated of the value, which depends on the generator's state.
#[verifier::external_body]
fn next_random(rng: &mut rand_pcg::Lcg64Xsh32) -> u32 {
    rand::RngCore::next_u32(rng)
}

/// One of `items` picked at random (`IteratorRandom::choose` over them): by
/// its documentation, nothing exactly when there are no items. Which item
/// is picked is not stated. The items are handed over as an iterator whose
/// length is not known in advance, as a filtered range of colours is, so
/// that `choose` draws from the generator once per item.
#[verifier::external_body]
fn choose_random(items: &Vec<u8>, rng: &mut rand_pcg::Lcg64Xsh32) -> (r: Option<u8>)
    ensures
        r is None <==> items@.len() == 0,
        r matches Some(x) ==> items@.contains(x),
{
    let mut it = items.iter().copied();
    rand::seq::IteratorRandom::choose(std::iter::from_fn(move || it.next()), rng)
}

/// The random draw `draw` makes the next stone of a team with `t` left a
/// traitor: the draw modulo its stones left is below its traitors left.
pub open spec fn traitor_draw(t: TeamState, draw: u32) -> bool {
    draw % t.stone_count < t.traitor_count
}

/// What is left to one team: traitor stones and stones to play.
#[derive(Copy, Clone, Debug)]
pub struct TeamState {
    pub traitor_count: u32,
    pub stone_count: u32,
}

/// Traitor go: each team has a number of traitors among its stones, played
/// in another team's colour at random.
pub struct TraitorState {
    /// Remaining traitors for each team
    pub team_states: Vec<TeamState>,
    pub rng_state: rand_pcg::Lcg64Xsh32,
}

impl TraitorState {
    /// `team_count` teams, each with `stone_count` stones of which
    /// `rule.traitor_count` are traitors, drawn from a generator seeded with
    /// `seed`.
    pub fn new(team_count: usize, stone_count: u32, seed: u64, rule: &TraitorGo) -> (s: TraitorState)
        ensures
            s.team_states@ == Seq::new(team_count as nat, |i: int| TeamState { traitor_count: rule.traitor_count, stone_count }),
    {
        let mut team_states: Vec<TeamState> = Vec::new();
        let mut i: usize = 0;
        while i < team_count
            invariant
                i <= team_count,
                team_states@ == Seq::new(i as nat, |k: int| TeamState { traitor_count: rule.traitor_count, stone_count }),
            decreases team_count - i,
        {
            team_states.push(TeamState { traitor_count: rule.traitor_count, stone_count });
            i = i + 1;
            proof {
                assert(team_states@ =~= Seq::new(i as nat, |k: int| TeamState { traitor_count: rule.traitor_count, stone_count }));
            }
        }
        TraitorState { team_states, rng_state: seeded_rng(seed) }
    }

    /// The team `team` plays a stone, with `draw` as the random draw: one
    /// stone fewer is left to it, and the stone is a traitor when `draw`
    /// modulo the stones it had left is below its traitors left, which then
    /// lose one. Returns whether the stone is a traitor.
    pub fn take_stone(&mut self, team: Color, draw: u32) -> (traitor: bool)
        requires
            1 <= team.0 <= old(self).team_states@.len(),
            old(self).team_states@[team.0 - 1].stone_count > 0,
        ensures
            ({
                let t = old(self).team_states@[team.0 - 1];
                &&& traitor == (draw % t.stone_count < t.traitor_count)
                &&& final(self).team_states@ == old(self).team_states@.update(
                    team.0 - 1,
                    TeamState {
                        stone_count: (t.stone_count - 1) as u32,
                        traitor_count: if traitor { (t.traitor_count - 1) as u32 } else { t.traitor_count },
                    },
                )
            }),
    {
        let k = (team.0 - 1) as usize;
        let mut t = self.team_states[k];
        let stone_count = t.stone_count;
        t.stone_count = t.stone_count - 1;
        let traitor = draw % stone_count < t.traitor_count;
        if traitor {
            t.traitor_count = t.traitor_count - 1;
        }
        self.team_states.set(k, t);
        traitor
    }

    /// The colour of the next stone of team `team_color`: its own, or, for a
    /// traitor (see `take_stone`), another team's picked at random.
    pub fn next_color(&mut self, team_color: Color) -> (c: Color)
        requires
            1 <= team_color.0 <= old(self).team_states@.len(),
            old(self).team_states@.len() <= 255,
            old(self).team_states@.len() >= 2,
            old(self).team_states@[team_color.0 - 1].stone_count > 0,
        ensures
            ({
                let t = old(self).team_states@[team_color.0 - 1];
                &&& final(self).team_states@.len() == old(self).team_states@.len()
                &&& final(self).team_states@[team_color.0 - 1].stone_count == t.stone_count - 1
                &&& forall|i: int| 0 <= i < old(self).team_states@.len() && i != team_color.0 - 1 ==> final(self).team_states@[i] == old(self).team_states@[i]
                &&& c == team_color ==> final(self).team_states@[team_color.0 - 1].traitor_count == t.traitor_count
                &&& c != team_color ==> t.traitor_count > 0 && final(self).team_states@[team_color.0 - 1].traitor_count == t.traitor_count - 1
                    && 1 <= c.0 <= old(self).team_states@.len()
                &&& exists|draw: u32| (c != team_color) == #[trigger] traitor_draw(t, draw)
            }),
    {
        let draw = next_random(&mut self.rng_state);
        let ghost t = self.team_states@[team_color.0 - 1];
        if !self.take_stone(team_color, draw) {
            assert(!traitor_draw(t, draw));
            return team_color;
        }
        assert(traitor_draw(t, draw));
        let n = self.team_states.len() as u16;
        let mut others: Vec<u8> = Vec::new();
        let mut x: u16 = 1;
        while x <= n
            invariant
                1 <= x <= n + 1,
                2 <= n <= 255,
                1 <= team_color.0,
                forall|j: int| 0 <= j < others@.len() ==> 1 <= #[trigger] others@[j] <= n && others@[j] != team_color.0,
                x >= 3 ==> others@.len() > 0,
                (x == 2 && team_color.0 != 1) ==> others@.len() > 0,
            decreases n + 1 - x,
        {
            if x as u8 != team_color.0 {
                others.push(x as u8);
            }
            x = x + 1;
        }
        match choose_random(&others, &mut self.rng_state) {
            Some(color) => Color(color),
            None => team_color,
        }
    }
}

} // verus!
