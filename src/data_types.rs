//! The records of the store: seasons, tournaments, teams and matches.

use vstd::prelude::*;

verus! {

pub type MatchId = usize;

pub type TournamentId = usize;

pub type SeasonId = usize;

pub type TeamId = usize;

pub type Year = u32;

/// A season: one directory of the corpus.
#[derive(Debug, Clone, Copy, PartialEq, Eq)]
pub struct Season {
    pub id: SeasonId,
    pub start_year: Year,
    pub end_year: Option<Year>,
}

#[derive(Debug, Clone, Copy, PartialEq, Eq)]
pub struct Tournament<'a> {
    pub id: TournamentId,
    pub name: &'a str,
}

#[derive(Debug, Clone, Copy, PartialEq, Eq)]
pub struct Team<'a> {
    pub id: TeamId,
    pub name: &'a str,
}

/// A calendar date.
#[derive(Debug, Clone, Copy, PartialEq, Eq)]
pub struct Date {
    pub year: i32,
    pub month: u32,
    pub day: u32,
}

/// A time of day.
#[derive(Debug, Clone, Copy, PartialEq, Eq)]
pub struct Time {
    pub hour: u32,
    pub minute: u32,
    pub second: u32,
}

/// One match. `id`, `season_id` and `tournament_id` are stamped by the
/// store when the match is ingested; whatever they held before is ignored.
#[derive(Debug, Clone)]
pub struct Match {
    pub id: MatchId,
    pub season_id: SeasonId,
    pub tournament_id: TournamentId,
    pub round: Option<String>,
    pub date: Date,
    pub time: Option<Time>,
    pub team1: String,
    pub team2: String,
    pub score: Score,
    pub stage: Option<String>,
}

/// One decoded document: a name, whose last word names the round, and its matches.
#[derive(Debug, Clone)]
pub struct MatchList {
    pub name: String,
    pub matches: Vec<Match>,
}

/// A score as documents write it: each half a pair of goals, or absent.
#[derive(Debug, Clone, Copy, PartialEq, Eq)]
pub struct ScoreRaw {
    pub ht: Option<[u8; 2]>,
    pub ft: Option<[u8; 2]>,
}

/// Goals of the home side and of the away side.
#[derive(Debug, Clone, Copy, PartialEq, Eq)]
pub struct ScoreGoals(pub u8, pub u8);

#[derive(Debug, Clone, Copy, PartialEq, Eq)]
pub struct Score {
    pub half_time: Option<ScoreGoals>,
    pub full_time: Option<ScoreGoals>,
}

pub open spec fn goals_of(raw: Option<[u8; 2]>) -> Option<ScoreGoals> {
    match raw {
        Some(a) => Some(ScoreGoals(a@[0], a@[1])),
        None => None,
    }
}

fn goals_from(raw: Option<[u8; 2]>) -> (r: Option<ScoreGoals>)
    ensures
        r == goals_of(raw),
{
    match raw {
        Some(a) => Some(ScoreGoals(a[0], a[1])),
        None => None,
    }
}

impl From<ScoreRaw> for Score {
    fn from(value: ScoreRaw) -> (r: Score) {
        Score { half_time: goals_from(value.ht), full_time: goals_from(value.ft) }
    }
}

impl vstd::std_specs::convert::FromSpecImpl<ScoreRaw> for Score {
    open spec fn obeys_from_spec() -> bool {
        true
    }

    open spec fn from_spec(v: ScoreRaw) -> Score {
        Score { half_time: goals_of(v.ht), full_time: goals_of(v.ft) }
    }
}

} // verus!
