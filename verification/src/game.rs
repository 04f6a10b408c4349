//! Match configuration: how many contenders and planets a match has.
use vstd::prelude::*;

verus! {

/// Settings of one match.
#[derive(Debug, Copy, Clone)]
pub struct Game {
    players_count: usize,
    planets_count: usize,
    difficulty: usize,
    demo: bool,
}

impl Game {
    /// Number of artificial contenders: every contender but the human one.
    pub closed spec fn ais_count(&self) -> nat {
        (self.players_count - 1) as nat
    }

    /// Number of planets on the map.
    pub closed spec fn planets_count(&self) -> nat {
        self.planets_count as nat
    }

    /// How hard the artificial contenders search; higher is harder.
    pub closed spec fn difficulty(&self) -> nat {
        self.difficulty as nat
    }

    /// Whether the match runs by itself, with no human contender.
    pub closed spec fn demo_mode(&self) -> bool {
        self.demo
    }

    /// A match always has at least the human contender's seat.
    pub closed spec fn wf(&self) -> bool {
        self.players_count >= 1
    }

    /// The self-running showcase match: fifteen planets, ten seats, hardest level.
    pub fn demo() -> (game: Self)
        ensures
            game.wf(),
            game.demo_mode(),
            game.planets_count() == 15,
            game.ais_count() == 9,
            game.difficulty() == 2,
    {
        Game { planets_count: 15, demo: true, players_count: 10, difficulty: 2 }
    }

    /// A regular match with `ais_count` artificial contenders beside the human one.
    pub fn new(ais_count: usize, planets_count: usize, difficulty: usize) -> (game: Self)
        requires
            ais_count < usize::MAX,
        ensures
            game.wf(),
            !game.demo_mode(),
            game.ais_count() == ais_count,
            game.planets_count() == planets_count,
            game.difficulty() == difficulty,
    {
        Game { planets_count, demo: false, players_count: ais_count + 1, difficulty }
    }

    pub fn is_demo(&self) -> (demo: bool)
        ensures
            demo == self.demo_mode(),
    {
        self.demo
    }

    pub fn get_ais_count(&self) -> (count: usize)
        requires
            self.wf(),
        ensures
            count == self.ais_count(),
    {
        self.players_count - 1
    }

    pub fn get_planets_count(&self) -> (count: usize)
        ensures
            count == self.planets_count(),
    {
        self.planets_count
    }

    pub fn get_difficulty(&self) -> (level: usize)
        ensures
            level == self.difficulty(),
    {
        self.difficulty
    }
}

/// The places among the first `n` contenders of those that are no longer playing.
pub open spec fn out_upto(playing: Seq<bool>, n: nat) -> Seq<usize>
    decreases n,
{
    if n == 0 {
        Seq::empty()
    } else if playing[n - 1] {
        out_upto(playing, (n - 1) as nat)
    } else {
        out_upto(playing, (n - 1) as nat).push((n - 1) as usize)
    }
}

/// The places among the first `n` contenders of those that are still playing.
pub open spec fn in_upto(playing: Seq<bool>, n: nat) -> Seq<usize>
    decreases n,
{
    if n == 0 {
        Seq::empty()
    } else if playing[n - 1] {
        in_upto(playing, (n - 1) as nat).push((n - 1) as usize)
    } else {
        in_upto(playing, (n - 1) as nat)
    }
}

/// The contender that has won, if exactly one is still playing.
pub open spec fn winner_among(playing: Seq<bool>) -> Option<usize> {
    let still_in = in_upto(playing, playing.len());
    if still_in.len() == 1 {
        Some(still_in[0])
    } else {
        None
    }
}

/// Whether the match is over: the place of the winner, if exactly one
/// contender is still playing, and the places of those that are out, in
/// order. `playing` says of each contender whether it is still playing.
pub fn check_game_over(playing: &Vec<bool>) -> (verdict: (Option<usize>, Vec<usize>))
    ensures
        verdict.0 == winner_among(playing@),
        verdict.1@ == out_upto(playing@, playing.len() as nat),
{
    let mut first_in: Option<usize> = None;
    let mut still_in: usize = 0;
    let mut out: Vec<usize> = Vec::new();
    let mut i: usize = 0;
    while i < playing.len()
        invariant
            i <= playing.len(),
            out@ == out_upto(playing@, i as nat),
            still_in == in_upto(playing@, i as nat).len(),
            still_in <= i,
            still_in >= 1 ==> first_in == Some(in_upto(playing@, i as nat)[0]),
        decreases playing.len() - i,
    {
        if playing[i] {
            if still_in == 0 {
                first_in = Some(i);
            }
            still_in += 1;
        } else {
            out.push(i);
        }
        i += 1;
    }
    let winner = if still_in == 1 {
        first_in
    } else {
        None
    };
    (winner, out)
}

} // verus!
