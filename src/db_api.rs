//! Queries on a sealed store.
//!
//! Every list query answers either `NotFound` or the matches that the
//! index it consults holds in a box of keys, in key order, with their
//! number. A missing entity (or a year that no match list of the corpus
//! covers) is `NotFound`; a missing innermost key gives an empty list.
//! A team exists when it played on either side; its home/away filter only
//! chooses which index the matches are read from.

use crate::data_types::{Match, MatchId, Season, SeasonId, Team, TeamId, Tournament, TournamentId, Year};
use crate::imdb::{ReadyState, IMDB};
use crate::index::Key;
use crate::index::{lemma_gather_empty, lemma_gather_none};
use crate::model::{
    ids_of, lemma_away_key_present, lemma_home_key_absent, lemma_tournament_postings,
    lemma_tournament_year_empty, postings, record_ids, tournament_ids, tournament_listed, IndexKind, ListRec,
    MatchEntry,
};
use crate::model::first_ids;
use crate::query_types::HomeAwayOption;
use vstd::prelude::*;

verus! {

/// The answer to a query about something that the store does not hold.
#[derive(Debug, Clone, Copy, PartialEq, Eq, Structural)]
pub enum QueryError {
    NotFound,
}

/// The answer of a query whose lookups succeed exactly when `found`.
pub open spec fn answer(found: bool, ids: Seq<usize>) -> Result<Seq<usize>, QueryError> {
    if found {
        Ok(ids)
    } else {
        Err(QueryError::NotFound)
    }
}

/// The identifiers among `ids` of the matches of tournament `t`, in order.
pub open spec fn ids_of_tournament(ms: Seq<Match>, ids: Seq<usize>, t: usize) -> Seq<usize>
    decreases ids.len(),
{
    if ids.len() == 0 {
        seq![]
    } else {
        ids_of_tournament(ms, ids.drop_last(), t) + if ms[ids.last() - 1].tournament_id == t {
            seq![ids.last()]
        } else {
            Seq::<usize>::empty()
        }
    }
}

proof fn lemma_ids_of_tournament_concat(ms: Seq<Match>, a: Seq<usize>, b: Seq<usize>, t: usize)
    ensures
        ids_of_tournament(ms, a + b, t) == ids_of_tournament(ms, a, t) + ids_of_tournament(ms, b, t),
    decreases b.len(),
{
    if b.len() == 0 {
        assert(a + b =~= a);
        assert(ids_of_tournament(ms, a, t) + Seq::<usize>::empty() =~= ids_of_tournament(ms, a, t));
    } else {
        assert((a + b).drop_last() =~= a + b.drop_last());
        lemma_ids_of_tournament_concat(ms, a, b.drop_last(), t);
        let last = if ms[b.last() - 1].tournament_id == t {
            seq![b.last()]
        } else {
            Seq::<usize>::empty()
        };
        assert(ids_of_tournament(ms, a, t) + ids_of_tournament(ms, b.drop_last(), t) + last
            =~= ids_of_tournament(ms, a, t) + (ids_of_tournament(ms, b.drop_last(), t) + last));
    }
}

/// A list's identifiers are all kept when its matches belong to `t`, and
/// all dropped when they do not.
proof fn lemma_ids_of_tournament_list(ms: Seq<Match>, es: Seq<MatchEntry>, h: usize, t: usize)
    requires
        forall|j: int| 0 <= j < es.len() ==> ms[(#[trigger] es[j]).id - 1].tournament_id == h,
    ensures
        ids_of_tournament(ms, ids_of(es), t) == if h == t {
            ids_of(es)
        } else {
            Seq::<usize>::empty()
        },
    decreases es.len(),
{
    if es.len() > 0 {
        let init = es.drop_last();
        assert forall|j: int| 0 <= j < init.len() implies ms[(#[trigger] init[j]).id - 1].tournament_id == h by {
            assert(init[j] == es[j]);
        }
        lemma_ids_of_tournament_list(ms, init, h, t);
        assert(ids_of(es).drop_last() =~= ids_of(init));
        assert(ids_of(es).last() == es[es.len() - 1].id);
        assert(ids_of(init).push(es.last().id) =~= ids_of(es));
        assert(ids_of(init) + seq![es.last().id] =~= ids_of(es));
        assert(Seq::<usize>::empty() + Seq::<usize>::empty() =~= Seq::<usize>::empty());
    } else {
        assert(ids_of(es) =~= Seq::<usize>::empty());
    }
}

proof fn lemma_tournament_ids_filter(ms: Seq<Match>, lists: Seq<ListRec>, t: usize)
    requires
        forall|i: int, j: int|
            0 <= i < lists.len() && 0 <= j < lists[i].ms.len() ==> ms[(#[trigger] lists[i].ms[j]).id
                - 1].tournament_id == lists[i].head.tournament,
    ensures
        tournament_ids(lists, t) == ids_of_tournament(ms, record_ids(lists), t),
    decreases lists.len(),
{
    if lists.len() > 0 {
        let init = lists.drop_last();
        let l = lists.last();
        assert forall|i: int, j: int|
            0 <= i < init.len() && 0 <= j < init[i].ms.len() implies ms[(#[trigger] init[i].ms[j]).id
                - 1].tournament_id == init[i].head.tournament by {
            assert(init[i] == lists[i]);
        }
        lemma_tournament_ids_filter(ms, init, t);
        assert forall|j: int| 0 <= j < l.ms.len() implies ms[(#[trigger] l.ms[j]).id - 1].tournament_id
            == l.head.tournament by {
            assert(lists[lists.len() - 1].ms[j] == l.ms[j]);
        }
        lemma_ids_of_tournament_list(ms, l.ms, l.head.tournament, t);
        lemma_ids_of_tournament_concat(ms, record_ids(init), ids_of(l.ms), t);
    }
}

impl IMDB<ReadyState> {
    /// The identifiers of the stored matches of tournament `t`, in order.
    pub open spec fn tournament_match_ids(&self, t: TournamentId) -> Seq<usize> {
        ids_of_tournament(self.match_seq(), first_ids(self.match_seq().len()), t)
    }

    /// A listed tournament's matches, as its index holds them, are exactly
    /// the stored matches of that tournament, in identifier order.
    pub proof fn lemma_tournament_index_is_its_matches(&self, t: TournamentId)
        requires
            self.inv(),
            self.tournament_known(t),
        ensures
            self.ids_in(IndexKind::Tournament, (t, 0, 0), (t, 0, 0)) == self.tournament_match_ids(t),
    {
        self.lemma_inv();
        let lists = self.lists();
        let idx = self.index(IndexKind::Tournament);
        assert(tournament_listed(lists, t as int));
        lemma_tournament_postings(lists, t);
        assert(idx.get((t, 0, 0)) == Some(tournament_ids(lists, t)));
        idx.lemma_single_box_held((t, 0, 0));
        assert forall|i: int, j: int|
            0 <= i < lists.len() && 0 <= j < lists[i].ms.len() implies self.match_seq()[(
            #[trigger] lists[i].ms[j]).id - 1].tournament_id == lists[i].head.tournament by {
            assert(self.entry_describes(lists[i].head, lists[i].ms[j]));
        }
        lemma_tournament_ids_filter(self.match_seq(), lists, t);
    }

    /// Whether `r` answers what `a` describes.
    pub open spec fn shows(
        &self,
        r: Result<(usize, Vec<&Match>), QueryError>,
        a: Result<Seq<usize>, QueryError>,
    ) -> bool {
        match a {
            Err(e) => r == Err::<(usize, Vec<&Match>), QueryError>(e),
            Ok(ids) => r matches Ok((total, ms)) && total == ms@.len() && self.lists_matches(ms@, ids),
        }
    }

    /// The identifiers that the index `kind` holds in the box, in key order.
    pub open spec fn ids_in(&self, kind: IndexKind, lo: Key, hi: Key) -> Seq<usize> {
        self.index(kind).selected(lo, hi)
    }

    /// Whether some match list of the corpus covers the year `y`.
    pub open spec fn year_exists(&self, y: Year) -> bool {
        self.index(IndexKind::Year).any_in_box((y as usize, 0, 0), (y as usize, 0, 0))
    }

    /// Whether `start..=end` is a valid year range: increasing, with at
    /// least one end covered by the corpus.
    pub open spec fn range_ok(&self, start: Year, end: Year) -> bool {
        start < end && (self.year_exists(start) || self.year_exists(end))
    }

    /// Whether the index `kind` has a key whose outer part is `a`.
    pub open spec fn has_outer(&self, kind: IndexKind, a: usize) -> bool {
        self.index(kind).any_in_box((a, 0, 0), (a, usize::MAX, usize::MAX))
    }

    /// Whether the index `kind` has a key whose outer parts are `a` and `b`.
    pub open spec fn has_outer2(&self, kind: IndexKind, a: usize, b: usize) -> bool {
        self.index(kind).any_in_box((a, b, 0), (a, b, usize::MAX))
    }

    /// Whether the team is one of the team table.
    pub open spec fn team_known(&self, team: TeamId) -> bool {
        1 <= team <= self.team_names().len()
    }

    /// Whether the tournament is one of the tournament table.
    pub open spec fn tournament_known(&self, t: TournamentId) -> bool {
        1 <= t <= self.tournament_names().len()
    }

    /// Whether the team played a match of the tournament, on either side.
    pub open spec fn team_in_tournament(&self, team: TeamId, t: TournamentId) -> bool {
        self.has_outer2(IndexKind::TeamSeason(HomeAwayOption::Both), team, t)
    }

    fn check_team(&self, team: TeamId) -> (r: bool)
        requires
            self.inv(),
        ensures
            r == self.team_known(team),
    {
        team >= 1 && team <= self.team_table().len()
    }

    fn check_tournament(&self, t: TournamentId) -> (r: bool)
        ensures
            r == self.tournament_known(t),
    {
        t >= 1 && t <= self.tournament_table().len()
    }

    fn check_team_in_tournament(&self, team: TeamId, t: TournamentId) -> (r: bool)
        requires
            self.inv(),
        ensures
            r == self.team_in_tournament(team, t),
    {
        self.any(IndexKind::TeamSeason(HomeAwayOption::Both), (team, t, 0), (team, t, usize::MAX))
    }

    fn any(&self, kind: IndexKind, lo: Key, hi: Key) -> (r: bool)
        requires
            self.inv(),
        ensures
            r == self.index(kind).any_in_box(lo, hi),
    {
        proof {
            self.lemma_inv();
        }
        let idx = self.index_ref(kind);
        idx.any_in(lo, hi)
    }

    fn check_year_exists_in_range(&self, year: Year) -> (r: bool)
        requires
            self.inv(),
        ensures
            r == self.year_exists(year),
    {
        self.any(IndexKind::Year, (year as usize, 0, 0), (year as usize, 0, 0))
    }

    fn check_btreemap_range(&self, start: Year, end: Year) -> (r: bool)
        requires
            self.inv(),
        ensures
            r == self.range_ok(start, end),
    {
        if start >= end {
            return false;
        }
        self.check_year_exists_in_range(start) || self.check_year_exists_in_range(end)
    }

    /// `NotFound` unless `found`; else the matches that `kind` holds in the box.
    fn answer_for(&self, kind: IndexKind, found: bool, lo: Key, hi: Key) -> (r: Result<
        (usize, Vec<&Match>),
        QueryError,
    >)
        requires
            self.inv(),
        ensures
            self.shows(r, answer(found, self.ids_in(kind, lo, hi))),
    {
        if !found {
            return Err(QueryError::NotFound);
        }
        proof {
            self.lemma_inv();
        }
        let idx = self.index_ref(kind);
        assert(self.index(kind).ids_within(self.match_seq().len()));
        assert(idx.ids_within(self.match_seq().len()));
        let ids = idx.select(lo, hi);
        let ms = self.matches_by_slice(&ids);
        Ok((ms.len(), ms))
    }

    /// Every season, by identifier.
    pub fn seasons(&self) -> (r: Vec<&Season>)
        ensures
            r@.len() == self.season_seq().len(),
            forall|i: int| 0 <= i < r@.len() ==> *(#[trigger] r@[i]) == self.season_seq()[i],
    {
        let mut r: Vec<&Season> = Vec::new();
        let mut i: usize = 0;
        while i < self.season_count()
            invariant
                i <= self.season_seq().len(),
                                r@.len() == i,
                forall|j: int| 0 <= j < i ==> *(#[trigger] r@[j]) == self.season_seq()[j],
            decreases self.season_seq().len() - i,
        {
            r.push(self.season_at(i));
            i = i + 1;
        }
        r
    }

    /// Every tournament, by identifier.
    pub fn tournaments(&self) -> (r: Vec<Tournament<'_>>)
        ensures
            r@.len() == self.tournament_names().len(),
            forall|i: int|
                0 <= i < r@.len() ==> (#[trigger] r@[i]).id == i + 1 && r@[i].name@
                    == self.tournament_names()[i],
    {
        let n = self.tournament_table().len();
        let mut r: Vec<Tournament<'_>> = Vec::new();
        let mut i: usize = 0;
        while i < n
            invariant
                i <= n,
                n == self.tournament_names().len(),
                r@.len() == i,
                forall|j: int|
                    0 <= j < i ==> (#[trigger] r@[j]).id == j + 1 && r@[j].name@
                        == self.tournament_names()[j],
            decreases n - i,
        {
            r.push(Tournament { id: i + 1, name: self.tournament_table().name_at(i + 1) });
            i = i + 1;
        }
        r
    }

    /// Every team, by identifier.
    pub fn teams(&self) -> (r: Vec<Team<'_>>)
        ensures
            r@.len() == self.team_names().len(),
            forall|i: int|
                0 <= i < r@.len() ==> (#[trigger] r@[i]).id == i + 1 && r@[i].name@
                    == self.team_names()[i],
    {
        let n = self.team_table().len();
        let mut r: Vec<Team<'_>> = Vec::new();
        let mut i: usize = 0;
        while i < n
            invariant
                i <= n,
                n == self.team_names().len(),
                r@.len() == i,
                forall|j: int|
                    0 <= j < i ==> (#[trigger] r@[j]).id == j + 1 && r@[j].name@ == self.team_names()[j],
            decreases n - i,
        {
            r.push(Team { id: i + 1, name: self.team_table().name_at(i + 1) });
            i = i + 1;
        }
        r
    }

    /// Every match, season after season.
    pub fn all_matches(&self) -> (r: Result<(usize, Vec<&Match>), QueryError>)
        requires
            self.inv(),
        ensures
            self.shows(r, Ok(self.ids_in(IndexKind::Season, (0, 0, 0), (usize::MAX, usize::MAX, usize::MAX)))),
    {
        self.answer_for(IndexKind::Season, true, (0, 0, 0), (usize::MAX, usize::MAX, usize::MAX))
    }

    /// The matches of a season.
    pub fn season_matches_by_id(&self, season_id: &SeasonId) -> (r: Result<(usize, Vec<&Match>), QueryError>)
        requires
            self.inv(),
        ensures
            self.shows(
                r,
                answer(
                    self.has_outer(IndexKind::Season, *season_id),
                    self.ids_in(IndexKind::Season, (*season_id, 0, 0), (*season_id, 0, 0)),
                ),
            ),
    {
        let s = *season_id;
        let found = self.any(IndexKind::Season, (s, 0, 0), (s, usize::MAX, usize::MAX));
        self.answer_for(IndexKind::Season, found, (s, 0, 0), (s, 0, 0))
    }

    /// The match with identifier `match_id`.
    pub fn match_by_id(&self, match_id: &MatchId) -> (r: Result<&Match, QueryError>)
        ensures
            match r {
                Ok(m) => 1 <= *match_id <= self.match_seq().len() && *m == self.match_seq()[*match_id - 1],
                Err(e) => e == QueryError::NotFound && !(1 <= *match_id <= self.match_seq().len()),
            },
    {
        if *match_id >= 1 && *match_id <= self.match_total() {
            Ok(self.match_at(*match_id))
        } else {
            Err(QueryError::NotFound)
        }
    }

    /// The name of a tournament.
    pub fn tournament_by_id(&self, tour_id: &TournamentId) -> (r: Result<&str, QueryError>)
        ensures
            match r {
                Ok(name) => 1 <= *tour_id <= self.tournament_names().len() && name@
                    == self.tournament_names()[*tour_id - 1],
                Err(e) => e == QueryError::NotFound && !(1 <= *tour_id <= self.tournament_names().len()),
            },
    {
        if *tour_id >= 1 && *tour_id <= self.tournament_table().len() {
            Ok(self.tournament_table().name_at(*tour_id))
        } else {
            Err(QueryError::NotFound)
        }
    }

    /// The matches of a tournament.
    pub fn tournament_matches_by_id(&self, tour_id: &TournamentId) -> (r: Result<(usize, Vec<&Match>), QueryError>)
        requires
            self.inv(),
        ensures
            self.shows(
                r,
                answer(
                    self.tournament_known(*tour_id),
                    self.ids_in(IndexKind::Tournament, (*tour_id, 0, 0), (*tour_id, 0, 0)),
                ),
            ),
            self.tournament_known(*tour_id) ==> self.shows(r, Ok(self.tournament_match_ids(*tour_id))),
    {
        proof {
            if self.tournament_known(*tour_id) {
                self.lemma_tournament_index_is_its_matches(*tour_id);
            }
        }
        let t = *tour_id;
        let found = self.check_tournament(t);
        self.answer_for(IndexKind::Tournament, found, (t, 0, 0), (t, 0, 0))
    }

    /// The matches played in a year.
    pub fn yearly_matches_by_year(&self, year: &Year) -> (r: Result<(usize, Vec<&Match>), QueryError>)
        requires
            self.inv(),
        ensures
            self.shows(
                r,
                answer(
                    self.year_exists(*year),
                    self.ids_in(IndexKind::Year, (*year as usize, 0, 0), (*year as usize, 0, 0)),
                ),
            ),
    {
        let y = *year as usize;
        let found = self.check_year_exists_in_range(*year);
        self.answer_for(IndexKind::Year, found, (y, 0, 0), (y, 0, 0))
    }

    /// The matches played from `year_start` to `year_end`, year by year.
    pub fn yearly_matches_year_range(&self, year_start: &Year, year_end: &Year) -> (r: Result<
        (usize, Vec<&Match>),
        QueryError,
    >)
        requires
            self.inv(),
        ensures
            self.shows(
                r,
                answer(
                    self.range_ok(*year_start, *year_end),
                    self.ids_in(
                        IndexKind::Year,
                        (*year_start as usize, 0, 0),
                        (*year_end as usize, 0, 0),
                    ),
                ),
            ),
    {
        let found = self.check_btreemap_range(*year_start, *year_end);
        self.answer_for(IndexKind::Year, found, (*year_start as usize, 0, 0), (*year_end as usize, 0, 0))
    }

    /// The matches of a tournament in a season.
    pub fn tournament_matches_by_season_id(&self, tour_id: &TournamentId, season_id: &SeasonId) -> (r:
        Result<(usize, Vec<&Match>), QueryError>)
        requires
            self.inv(),
        ensures
            self.shows(
                r,
                answer(
                    self.tournament_known(*tour_id),
                    self.ids_in(
                        IndexKind::TournamentSeason,
                        (*tour_id, *season_id, 0),
                        (*tour_id, *season_id, 0),
                    ),
                ),
            ),
    {
        let t = *tour_id;
        let s = *season_id;
        let found = self.check_tournament(t);
        self.answer_for(IndexKind::TournamentSeason, found, (t, s, 0), (t, s, 0))
    }

    /// The matches of a tournament in a year.
    pub fn tournament_matches_by_year(&self, tour_id: &TournamentId, year: &Year) -> (r: Result<
        (usize, Vec<&Match>),
        QueryError,
    >)
        requires
            self.inv(),
        ensures
            self.shows(
                r,
                answer(
                    self.year_exists(*year) && self.tournament_known(*tour_id),
                    self.ids_in(
                        IndexKind::TournamentYear,
                        (*tour_id, *year as usize, 0),
                        (*tour_id, *year as usize, 0),
                    ),
                ),
            ),
    {
        let t = *tour_id;
        let y = *year as usize;
        let found = self.check_year_exists_in_range(*year) && self.check_tournament(t);
        self.answer_for(IndexKind::TournamentYear, found, (t, y, 0), (t, y, 0))
    }

    /// The matches of a tournament from `year_start` to `year_end`.
    pub fn tournament_yearly_matches_year_range(
        &self,
        tour_id: &TournamentId,
        year_start: &Year,
        year_end: &Year,
    ) -> (r: Result<(usize, Vec<&Match>), QueryError>)
        requires
            self.inv(),
        ensures
            self.shows(
                r,
                answer(
                    self.range_ok(*year_start, *year_end) && self.tournament_known(*tour_id),
                    self.ids_in(
                        IndexKind::TournamentYear,
                        (*tour_id, *year_start as usize, 0),
                        (*tour_id, *year_end as usize, 0),
                    ),
                ),
            ),
    {
        let t = *tour_id;
        let found = self.check_btreemap_range(*year_start, *year_end) && self.check_tournament(t);
        self.answer_for(
            IndexKind::TournamentYear,
            found,
            (t, *year_start as usize, 0),
            (t, *year_end as usize, 0),
        )
    }

    /// The matches of a team, tournament after tournament, season after season.
    pub fn team_matches_by_id(&self, team_id: &TeamId, home_away: &HomeAwayOption) -> (r: Result<
        (usize, Vec<&Match>),
        QueryError,
    >)
        requires
            self.inv(),
        ensures
            self.shows(
                r,
                answer(
                    self.team_known(*team_id),
                    self.ids_in(
                        IndexKind::TeamSeason(*home_away),
                        (*team_id, 0, 0),
                        (*team_id, usize::MAX, usize::MAX),
                    ),
                ),
            ),
    {
        let kind = IndexKind::TeamSeason(*home_away);
        let a = *team_id;
        let found = self.check_team(a);
        self.answer_for(kind, found, (a, 0, 0), (a, usize::MAX, usize::MAX))
    }

    /// The matches of a team in a season.
    pub fn team_matches_by_season_id(
        &self,
        team_id: &TeamId,
        season_id: &SeasonId,
        home_away: &HomeAwayOption,
    ) -> (r: Result<(usize, Vec<&Match>), QueryError>)
        requires
            self.inv(),
        ensures
            self.shows(
                r,
                answer(
                    self.team_known(*team_id),
                    self.ids_in(
                        IndexKind::TeamSeason(*home_away),
                        (*team_id, 0, *season_id),
                        (*team_id, usize::MAX, *season_id),
                    ),
                ),
            ),
    {
        let kind = IndexKind::TeamSeason(*home_away);
        let a = *team_id;
        let s = *season_id;
        let found = self.check_team(a);
        self.answer_for(kind, found, (a, 0, s), (a, usize::MAX, s))
    }

    /// The matches of a team in a year.
    pub fn team_matches_by_year(&self, team_id: &TeamId, year: &Year, home_away: &HomeAwayOption) -> (r:
        Result<(usize, Vec<&Match>), QueryError>)
        requires
            self.inv(),
        ensures
            self.shows(
                r,
                answer(
                    self.year_exists(*year) && self.team_known(*team_id),
                    self.ids_in(
                        IndexKind::TeamYear(*home_away),
                        (*team_id, 0, *year as usize),
                        (*team_id, usize::MAX, *year as usize),
                    ),
                ),
            ),
    {
        let kind = IndexKind::TeamYear(*home_away);
        let a = *team_id;
        let y = *year as usize;
        let found = self.check_year_exists_in_range(*year) && self.check_team(a);
        self.answer_for(kind, found, (a, 0, y), (a, usize::MAX, y))
    }

    /// The matches of a team from `year_start` to `year_end`.
    pub fn team_matches_year_range(
        &self,
        team_id: &TeamId,
        year_start: &Year,
        year_end: &Year,
        home_away: &HomeAwayOption,
    ) -> (r: Result<(usize, Vec<&Match>), QueryError>)
        requires
            self.inv(),
        ensures
            self.shows(
                r,
                answer(
                    self.range_ok(*year_start, *year_end) && self.team_known(*team_id),
                    self.ids_in(
                        IndexKind::TeamYear(*home_away),
                        (*team_id, 0, *year_start as usize),
                        (*team_id, usize::MAX, *year_end as usize),
                    ),
                ),
            ),
    {
        let kind = IndexKind::TeamYear(*home_away);
        let a = *team_id;
        let found = self.check_btreemap_range(*year_start, *year_end) && self.check_team(a);
        self.answer_for(kind, found, (a, 0, *year_start as usize), (a, usize::MAX, *year_end as usize))
    }

    /// The matches of a team in a tournament, season after season.
    pub fn team_matches_by_tournament_id(
        &self,
        team_id: &TeamId,
        tour_id: &TournamentId,
        home_away: &HomeAwayOption,
    ) -> (r: Result<(usize, Vec<&Match>), QueryError>)
        requires
            self.inv(),
        ensures
            self.shows(
                r,
                answer(
                    self.team_known(*team_id),
                    self.ids_in(
                        IndexKind::TeamSeason(*home_away),
                        (*team_id, *tour_id, 0),
                        (*team_id, *tour_id, usize::MAX),
                    ),
                ),
            ),
    {
        let kind = IndexKind::TeamSeason(*home_away);
        let a = *team_id;
        let t = *tour_id;
        let found = self.check_team(a);
        self.answer_for(kind, found, (a, t, 0), (a, t, usize::MAX))
    }

    /// The matches of a team in a tournament and a season.
    pub fn team_tournament_matches_by_season_id(
        &self,
        team_id: &TeamId,
        tour_id: &TournamentId,
        season_id: &SeasonId,
        home_away: &HomeAwayOption,
    ) -> (r: Result<(usize, Vec<&Match>), QueryError>)
        requires
            self.inv(),
        ensures
            self.shows(
                r,
                answer(
                    self.team_known(*team_id) && self.team_in_tournament(*team_id, *tour_id),
                    self.ids_in(
                        IndexKind::TeamSeason(*home_away),
                        (*team_id, *tour_id, *season_id),
                        (*team_id, *tour_id, *season_id),
                    ),
                ),
            ),
    {
        let kind = IndexKind::TeamSeason(*home_away);
        let a = *team_id;
        let t = *tour_id;
        let s = *season_id;
        let found = self.check_team(a) && self.check_team_in_tournament(a, t);
        self.answer_for(kind, found, (a, t, s), (a, t, s))
    }

    /// The matches of a team in a tournament and a year.
    pub fn team_tournament_matches_by_year(
        &self,
        team_id: &TeamId,
        tour_id: &TournamentId,
        year: &Year,
        home_away: &HomeAwayOption,
    ) -> (r: Result<(usize, Vec<&Match>), QueryError>)
        requires
            self.inv(),
        ensures
            self.shows(
                r,
                answer(
                    self.year_exists(*year) && self.team_known(*team_id)
                        && self.team_in_tournament(*team_id, *tour_id),
                    self.ids_in(
                        IndexKind::TeamYear(*home_away),
                        (*team_id, *tour_id, *year as usize),
                        (*team_id, *tour_id, *year as usize),
                    ),
                ),
            ),
    {
        let kind = IndexKind::TeamYear(*home_away);
        let a = *team_id;
        let t = *tour_id;
        let y = *year as usize;
        let found = self.check_year_exists_in_range(*year) && self.check_team(a) && self.check_team_in_tournament(a, t);
        self.answer_for(kind, found, (a, t, y), (a, t, y))
    }

    /// The matches of a team in a tournament from `year_start` to `year_end`.
    pub fn team_tournament_matches_by_year_range(
        &self,
        team_id: &TeamId,
        tour_id: &TournamentId,
        year_start: &Year,
        year_end: &Year,
        home_away: &HomeAwayOption,
    ) -> (r: Result<(usize, Vec<&Match>), QueryError>)
        requires
            self.inv(),
        ensures
            self.shows(
                r,
                answer(
                    self.range_ok(*year_start, *year_end) && self.team_known(*team_id) && self.team_in_tournament(*team_id, *tour_id),
                    self.ids_in(
                        IndexKind::TeamYear(*home_away),
                        (*team_id, *tour_id, *year_start as usize),
                        (*team_id, *tour_id, *year_end as usize),
                    ),
                ),
            ),
    {
        let kind = IndexKind::TeamYear(*home_away);
        let a = *team_id;
        let t = *tour_id;
        let found = self.check_btreemap_range(*year_start, *year_end) && self.check_team(a) && self.check_team_in_tournament(a, t);
        self.answer_for(kind, found, (a, t, *year_start as usize), (a, t, *year_end as usize))
    }

    /// A team that played in tournament `t` and season `s`, but only away,
    /// asks for its home matches of `t` in `s` and gets an empty list, not
    /// `NotFound`.
    pub proof fn lemma_home_filter_of_away_season_is_empty(
        &self,
        team: TeamId,
        t: TournamentId,
        s: SeasonId,
    )
        requires
            self.inv(),
            exists|i: int, j: int|
                0 <= i < self.lists().len() && self.lists()[i].head.tournament == t
                    && self.lists()[i].head.season == s && 0 <= j < self.lists()[i].ms.len() && (
                #[trigger] self.lists()[i].ms[j]).away == team,
            forall|i: int, j: int|
                0 <= i < self.lists().len() && self.lists()[i].head.tournament == t
                    && self.lists()[i].head.season == s && 0 <= j < self.lists()[i].ms.len()
                    ==> (#[trigger] self.lists()[i].ms[j]).home != team,
        ensures
            answer(
                self.team_known(team) && self.team_in_tournament(team, t),
                self.ids_in(IndexKind::TeamSeason(HomeAwayOption::Home), (team, t, s), (team, t, s)),
            ) == Ok::<Seq<usize>, QueryError>(Seq::empty()),
    {
        self.lemma_inv();
        let both = IndexKind::TeamSeason(HomeAwayOption::Both);
        let home = IndexKind::TeamSeason(HomeAwayOption::Home);
        let lists = self.lists();
        let (i, j) = choose|i: int, j: int|
            0 <= i < lists.len() && lists[i].head.tournament == t && lists[i].head.season == s && 0 <= j
                < lists[i].ms.len() && (#[trigger] lists[i].ms[j]).away == team;
        let k = (team, t, s);
        lemma_away_key_present(lists, i, j);
        assert(self.index(both).get(k) is Some);
        assert(self.entry_describes(lists[i].head, lists[i].ms[j]));
        self.index(both).lemma_held_in_box(k, (team, t, 0), (team, t, usize::MAX));
        lemma_home_key_absent(lists, team, t, s);
        lemma_gather_none(postings(home, lists), k);
        assert(self.index(home).get(k) is None);
        self.index(home).lemma_single_box_empty(k);
    }

    /// A tournament with no match in a year that the corpus covers asks for
    /// its matches of that year and gets an empty list, not `NotFound`.
    pub proof fn lemma_tournament_without_matches_in_year_is_empty(&self, t: TournamentId, y: Year)
        requires
            self.inv(),
            self.year_exists(y),
            exists|i: int| 0 <= i < self.lists().len() && (#[trigger] self.lists()[i]).head.tournament == t,
            forall|i: int, j: int|
                0 <= i < self.lists().len() && self.lists()[i].head.tournament == t && 0 <= j
                    < self.lists()[i].ms.len() ==> (#[trigger] self.lists()[i].ms[j]).year as int != y as int,
        ensures
            answer(
                self.year_exists(y) && self.tournament_known(t),
                self.ids_in(IndexKind::TournamentYear, (t, y as usize, 0), (t, y as usize, 0)),
            ) == Ok::<Seq<usize>, QueryError>(Seq::empty()),
    {
        self.lemma_inv();
        let kind = IndexKind::TournamentYear;
        let lists = self.lists();
        let idx = self.index(kind);
        let i = choose|i: int| 0 <= i < lists.len() && (#[trigger] lists[i]).head.tournament == t;
        assert(self.header_describes(lists[i].head));
        let k = (t, y as usize, 0usize);
        lemma_tournament_year_empty(lists, t, y as usize);
        lemma_gather_empty(postings(kind, lists), k);
        idx.lemma_single_box_empty(k);
    }

    /// A year that no match list of the corpus covers is `NotFound`, for the
    /// whole corpus and for every tournament.
    pub proof fn lemma_unknown_year_is_not_found(&self, t: TournamentId, y: Year)
        requires
            !self.year_exists(y),
        ensures
            answer(
                self.year_exists(y),
                self.ids_in(IndexKind::Year, (y as usize, 0, 0), (y as usize, 0, 0)),
            ) == Err::<Seq<usize>, QueryError>(QueryError::NotFound),
            answer(
                self.year_exists(y) && self.tournament_known(t),
                self.ids_in(IndexKind::TournamentYear, (t, y as usize, 0), (t, y as usize, 0)),
            ) == Err::<Seq<usize>, QueryError>(QueryError::NotFound),
    {
    }
}

} // verus!
