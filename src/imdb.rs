//! The store: built once from a corpus, checked, then sealed for queries.
//!
//! `IMDB<InitState>` only ingests; `IMDB<ReadyState>` only answers
//! queries, and the one way to obtain it is a build whose integrity
//! check passed.

use crate::data_types::{Match, MatchList, Season, SeasonId};
use crate::index::{posting_total, seq_within, Key, KeyedIndex};
use crate::interner::{distinct, interned_names, lemma_interned_at, Interner};
use crate::model::{
    all_in_season, entries_within, plays_in, team_listed, tournament_listed, in_season, indexed, lemma_indexed_push, lemma_postings_total, list_in_season, lemma_list_postings_within, match_count, multiplicity,
    postings, postings_of_list, first_ids, record_ids, ids_of, IndexKind, ListHeader, ListRec, MatchEntry,
};
use crate::query_types::HomeAwayOption;
use crate::season::{parse_season_name, season_years};
use core::marker::PhantomData;
use vstd::prelude::*;

verus! {

/// Why a build or a directory was refused.
#[derive(Debug, Clone, Copy, PartialEq, Eq, Structural)]
pub enum IMDBError {
    /// No match was read from the whole corpus.
    NoDataAvailable,
    /// The indices disagree on how many matches they hold.
    DataIntegrity,
    /// A directory name is not a season (`2015-16` or `2015`).
    FolderNameMalformed,
    /// No match list was decoded from a directory.
    FolderEmpty,
}

impl IMDBError {
    /// A sentence that explains the error.
    pub fn message(&self) -> (r: &'static str)
        ensures
            r@ == match self {
                IMDBError::NoDataAvailable => "Could not parse any useful data from json files."@,
                IMDBError::DataIntegrity => "One or more data structures are malformed. Lengths didn't match."@,
                IMDBError::FolderNameMalformed => "Folder name should be in the format: 2015-16 or 2015."@,
                IMDBError::FolderEmpty => "No match list could be parsed from the folder."@,
            },
    {
        match self {
            IMDBError::NoDataAvailable => "Could not parse any useful data from json files.",
            IMDBError::DataIntegrity => "One or more data structures are malformed. Lengths didn't match.",
            IMDBError::FolderNameMalformed => "Folder name should be in the format: 2015-16 or 2015.",
            IMDBError::FolderEmpty => "No match list could be parsed from the folder.",
        }
    }
}

/// The lifecycle stage of a store.
pub trait IMDBState {}

/// A store being built.
pub struct InitState;

/// A store that passed its integrity check.
pub struct ReadyState;

impl IMDBState for InitState {}

impl IMDBState for ReadyState {}

/// The part of a tournament's name before its last space: a match list's
/// name ends with a word that names its round.
pub open spec fn tournament_name(name: Seq<char>) -> Seq<char> {
    let i = last_space(name);
    if i < 0 {
        Seq::empty()
    } else {
        name.subrange(0, i)
    }
}

/// Index of the last space of `s`, or -1.
pub open spec fn last_space(s: Seq<char>) -> int
    decreases s.len(),
{
    if s.len() == 0 {
        -1
    } else if s.last() == ' ' {
        s.len() - 1
    } else {
        last_space(s.drop_last())
    }
}

proof fn lemma_last_space_at(s: Seq<char>, i: int)
    requires
        -1 <= i < s.len(),
        i >= 0 ==> s[i] == ' ',
        forall|j: int| i < j < s.len() ==> s[j] != ' ',
    ensures
        last_space(s) == i,
    decreases s.len(),
{
    if s.len() > 0 && s.last() != ' ' {
        lemma_last_space_at(s.drop_last(), i);
    }
}

/// The tournament that a match list belongs to: its name without the last word.
pub fn get_tournament_name(matchlist_name: &str) -> (r: String)
    ensures
        r@ == tournament_name(matchlist_name@),
{
    let n = matchlist_name.unicode_len();
    let mut i: usize = n;
    let mut found = false;
    while !found && i > 0
        invariant
            i <= n,
            n == matchlist_name@.len(),
            forall|j: int| i <= j < n ==> matchlist_name@[j] != ' ',
            found ==> i > 0 && matchlist_name@[i - 1] == ' ',
        decreases i + (if found { 0int } else { 1int }),
    {
        if matchlist_name.get_char(i - 1) == ' ' {
            found = true;
        } else {
            i = i - 1;
        }
    }
    if found {
        proof {
            lemma_last_space_at(matchlist_name@, i - 1);
        }
        matchlist_name.substring_char(0, i - 1).to_owned()
    } else {
        proof {
            lemma_last_space_at(matchlist_name@, -1);
        }
        String::new()
    }
}

/// Number of matches of a run of match lists.
pub open spec fn lists_match_count(ls: Seq<MatchList>) -> nat
    decreases ls.len(),
{
    if ls.len() == 0 {
        0
    } else {
        lists_match_count(ls.drop_last()) + ls.last().matches@.len()
    }
}

/// Number of matches that a directory contributes: none where its name is not a season.
pub open spec fn folder_match_count(name: Seq<char>, ls: Seq<MatchList>) -> nat {
    if season_years(name) is Some {
        lists_match_count(ls)
    } else {
        0
    }
}

/// Number of matches that a corpus contributes.
pub open spec fn corpus_match_count(c: Seq<(String, Vec<MatchList>)>) -> nat
    decreases c.len(),
{
    if c.len() == 0 {
        0
    } else {
        corpus_match_count(c.drop_last()) + folder_match_count(c.last().0@, c.last().1@)
    }
}

/// Directories, lists and matches of a corpus, valid or not: a bound on its size.
pub open spec fn corpus_weight(c: Seq<(String, Vec<MatchList>)>) -> nat
    decreases c.len(),
{
    if c.len() == 0 {
        0
    } else {
        corpus_weight(c.drop_last()) + 1 + c.last().1@.len() + lists_match_count(c.last().1@)
    }
}

/// A match without what the store stamps on it.
pub open spec fn unstamped(m: Match) -> Match {
    Match { id: 0, season_id: 0, tournament_id: 0, ..m }
}

pub open spec fn unstamp_all(ms: Seq<Match>) -> Seq<Match> {
    ms.map_values(|m: Match| unstamped(m))
}

/// The matches of a run of match lists, list after list.
pub open spec fn lists_flat(ls: Seq<MatchList>) -> Seq<Match>
    decreases ls.len(),
{
    if ls.len() == 0 {
        seq![]
    } else {
        lists_flat(ls.drop_last()) + ls.last().matches@
    }
}

/// The matches that a directory contributes: none where its name is not a season.
pub open spec fn folder_flat(name: Seq<char>, ls: Seq<MatchList>) -> Seq<Match> {
    if season_years(name) is Some {
        lists_flat(ls)
    } else {
        seq![]
    }
}

/// The matches that a corpus contributes, directory after directory.
pub open spec fn corpus_flat(c: Seq<(String, Vec<MatchList>)>) -> Seq<Match>
    decreases c.len(),
{
    if c.len() == 0 {
        seq![]
    } else {
        corpus_flat(c.drop_last()) + folder_flat(c.last().0@, c.last().1@)
    }
}

/// The seasons of a corpus: one per directory whose name is a season,
/// numbered from one in corpus order.
pub open spec fn corpus_seasons(c: Seq<(String, Vec<MatchList>)>) -> Seq<Season>
    decreases c.len(),
{
    if c.len() == 0 {
        seq![]
    } else {
        let prev = corpus_seasons(c.drop_last());
        match season_years(c.last().0@) {
            Some((y0, y1)) => prev.push(
                Season { id: (prev.len() + 1) as usize, start_year: y0 as u32, end_year: end_year_u32(y1) },
            ),
            None => prev,
        }
    }
}

/// What a match of a list is stamped with: its season, and the name of the
/// tournament that the list's name gives.
pub type Stamp = (usize, Seq<char>);

pub open spec fn list_stamps(l: MatchList, season: usize) -> Seq<Stamp> {
    Seq::new(l.matches@.len(), |j: int| (season, tournament_name(l.name@)))
}

/// The stamps of a directory's matches, list after list.
pub open spec fn lists_stamps(ls: Seq<MatchList>, season: usize) -> Seq<Stamp>
    decreases ls.len(),
{
    if ls.len() == 0 {
        seq![]
    } else {
        lists_stamps(ls.drop_last(), season) + list_stamps(ls.last(), season)
    }
}

/// The stamps of a directory's matches: none where its name is not a season.
pub open spec fn folder_stamps(name: Seq<char>, ls: Seq<MatchList>, season: usize) -> Seq<Stamp> {
    if season_years(name) is Some {
        lists_stamps(ls, season)
    } else {
        Seq::<Stamp>::empty()
    }
}

/// The stamps of a corpus's matches, in the order of `corpus_flat`.
pub open spec fn corpus_stamps(c: Seq<(String, Vec<MatchList>)>) -> Seq<Stamp>
    decreases c.len(),
{
    if c.len() == 0 {
        seq![]
    } else {
        corpus_stamps(c.drop_last()) + folder_stamps(
            c.last().0@,
            c.last().1@,
            (corpus_seasons(c.drop_last()).len() + 1) as usize,
        )
    }
}

/// Whether a corpus is small enough for every counter of the store.
pub fn fits_in_memory(corpus: &Vec<(String, Vec<MatchList>)>) -> (r: bool)
    ensures
        r == (corpus_weight(corpus@) <= usize::MAX / 4),
{
    let limit: usize = usize::MAX / 4;
    let mut w: usize = 0;
    let mut i: usize = 0;
    while i < corpus.len()
        invariant
            i <= corpus@.len(),
            w == corpus_weight(corpus@.subrange(0, i as int)),
            w <= limit,
            limit == usize::MAX / 4,
        decreases corpus@.len() - i,
    {
        proof {
            assert(corpus@.subrange(0, i + 1).drop_last() =~= corpus@.subrange(0, i as int));
            lemma_corpus_weight_prefix(corpus@, i + 1);
        }
        let files = &corpus[i].1;
        if files.len() >= limit - w {
            proof {
                lemma_corpus_weight_prefix(corpus@, i + 1);
            }
            return false;
        }
        w = w + 1 + files.len();
        let mut j: usize = 0;
        while j < files.len()
            invariant
                j <= files@.len(),
                files@ == corpus@[i as int].1@,
                w == corpus_weight(corpus@.subrange(0, i as int)) + 1 + files@.len() + lists_match_count(
                    files@.subrange(0, j as int),
                ),
                w <= limit,
                limit == usize::MAX / 4,
                i < corpus@.len(),
            decreases files@.len() - j,
        {
            proof {
                lemma_lists_match_count_prefix(files@, j + 1);
            }
            let m = files[j].matches.len();
            if m > limit - w {
                proof {
                    lemma_lists_match_count_prefix(files@, j + 1);
                    lemma_lists_match_count_prefix(files@, files@.len() as int);
                    assert(files@.subrange(0, files@.len() as int) =~= files@);
                    lemma_corpus_weight_prefix(corpus@, i + 1);
                    assert(corpus@.subrange(0, i + 1).drop_last() =~= corpus@.subrange(0, i as int));
                    assert(corpus@.subrange(0, i + 1).last() == corpus@[i as int]);
                }
                return false;
            }
            w = w + m;
            j = j + 1;
        }
        proof {
            assert(files@.subrange(0, files@.len() as int) =~= files@);
            assert(corpus@.subrange(0, i + 1).last() == corpus@[i as int]);
        }
        i = i + 1;
    }
    assert(corpus@.subrange(0, corpus@.len() as int) =~= corpus@);
    true
}

/// Whether a date's year is exactly one of a season's years.
pub open spec fn date_in_season(y0: nat, y1: Option<nat>, year: i32) -> bool {
    let at_start = year as int == y0 as int;
    let at_end = match y1 {
        Some(e) => year as int == e as int,
        None => false,
    };
    at_start != at_end
}

/// Whether every match of the lists falls in the season `y0`, `y1`.
pub open spec fn lists_in_season(ls: Seq<MatchList>, y0: nat, y1: Option<nat>) -> bool {
    forall|i: int, j: int|
        0 <= i < ls.len() && 0 <= j < ls[i].matches@.len() ==> date_in_season(
            y0,
            y1,
            (#[trigger] ls[i].matches@[j]).date.year,
        )
}

/// Whether every match of a directory falls in the season that its name gives.
pub open spec fn folder_in_season(name: Seq<char>, ls: Seq<MatchList>) -> bool {
    match season_years(name) {
        Some((y0, y1)) => lists_in_season(ls, y0, y1),
        None => true,
    }
}

pub open spec fn corpus_in_season(c: Seq<(String, Vec<MatchList>)>) -> bool {
    forall|i: int| 0 <= i < c.len() ==> folder_in_season((#[trigger] c[i]).0@, c[i].1@)
}

/// An index that holds what `lists` gave it, with identifiers in `1..=n`.
pub open spec fn index_ok(idx: KeyedIndex, kind: IndexKind, lists: Seq<ListRec>, n: nat) -> bool {
    &&& idx.wf()
    &&& forall|k| #[trigger] idx.get(k) == indexed(kind, lists, k)
    &&& idx.total() == posting_total(postings(kind, lists))
    &&& idx.ids_within(n)
}

/// The match with identifier `id`, stamped with its season and tournament.
pub open spec fn stamped(m: Match, id: usize, season: usize, tournament: usize) -> Match {
    Match { id: id, season_id: season, tournament_id: tournament, ..m }
}

#[verifier::reject_recursive_types(S)]
pub struct IMDB<S: IMDBState> {
    seasons: Vec<Season>,
    tournaments: Interner,
    teams: Interner,
    matches: Vec<Match>,
    season_match_map: KeyedIndex,
    yearly_match_map: KeyedIndex,
    tournament_match_map: KeyedIndex,
    tournament_season_match_map: KeyedIndex,
    tournament_yearly_match_map: KeyedIndex,
    team_tournament_season_match_map: KeyedIndex,
    team_tournament_yearly_match_map: KeyedIndex,
    team_home_tournament_season_match_map: KeyedIndex,
    team_away_tournament_season_match_map: KeyedIndex,
    team_home_tournament_yearly_match_map: KeyedIndex,
    team_away_tournament_yearly_match_map: KeyedIndex,
    lists: Ghost<Seq<ListRec>>,
    _phantom: PhantomData<S>,
}

impl<S: IMDBState> IMDB<S> {
    /// The match lists ingested so far, as the indices see them.
    pub closed spec fn lists(&self) -> Seq<ListRec> {
        self.lists@
    }

    /// The seasons; the one with identifier `i` is at position `i - 1`.
    pub closed spec fn season_seq(&self) -> Seq<Season> {
        self.seasons@
    }

    /// The matches; the one with identifier `i` is at position `i - 1`.
    pub closed spec fn match_seq(&self) -> Seq<Match> {
        self.matches@
    }

    pub closed spec fn tournament_names(&self) -> Seq<Seq<char>> {
        self.tournaments.name_seq()
    }

    pub closed spec fn team_names(&self) -> Seq<Seq<char>> {
        self.teams.name_seq()
    }

    /// The index of the given kind.
    pub closed spec fn index(&self, kind: IndexKind) -> KeyedIndex {
        match kind {
            IndexKind::Season => self.season_match_map,
            IndexKind::Year => self.yearly_match_map,
            IndexKind::Tournament => self.tournament_match_map,
            IndexKind::TournamentSeason => self.tournament_season_match_map,
            IndexKind::TournamentYear => self.tournament_yearly_match_map,
            IndexKind::TeamSeason(HomeAwayOption::Both) => self.team_tournament_season_match_map,
            IndexKind::TeamSeason(HomeAwayOption::Home) => self.team_home_tournament_season_match_map,
            IndexKind::TeamSeason(HomeAwayOption::Away) => self.team_away_tournament_season_match_map,
            IndexKind::TeamYear(HomeAwayOption::Both) => self.team_tournament_yearly_match_map,
            IndexKind::TeamYear(HomeAwayOption::Home) => self.team_home_tournament_yearly_match_map,
            IndexKind::TeamYear(HomeAwayOption::Away) => self.team_away_tournament_yearly_match_map,
        }
    }

    /// Lists plus matches ingested: what bounds every counter of the store.
    pub open spec fn weight(&self) -> nat {
        self.season_seq().len() + self.lists().len() + match_count(self.lists())
    }

    /// Whether the stored matches carry the given stamps: the season
    /// identifier, and the identifier of the tournament of that name.
    pub open spec fn stamps_agree(&self, st: Seq<Stamp>) -> bool {
        &&& st.len() == self.match_seq().len()
        &&& forall|i: int|
            0 <= i < st.len() ==> {
                let m = #[trigger] self.match_seq()[i];
                &&& m.season_id == st[i].0
                &&& 1 <= m.tournament_id <= self.tournament_names().len()
                &&& self.tournament_names()[m.tournament_id - 1] == st[i].1
            }
    }

    /// Whether a record of the indices describes the stored match it names:
    /// its year, season, tournament, and home and away teams.
    pub open spec fn entry_describes(&self, h: ListHeader, e: MatchEntry) -> bool {
        let ms = self.match_seq();
        let teams = self.team_names();
        &&& 1 <= e.id <= ms.len()
        &&& ms[e.id - 1].date.year == e.year
        &&& ms[e.id - 1].season_id == h.season
        &&& ms[e.id - 1].tournament_id == h.tournament
        &&& 1 <= e.home <= teams.len()
        &&& teams[e.home - 1] == ms[e.id - 1].team1@
        &&& 1 <= e.away <= teams.len()
        &&& teams[e.away - 1] == ms[e.id - 1].team2@
    }

    /// Whether a list header names a stored season, with its years, and a
    /// stored tournament.
    pub open spec fn header_describes(&self, h: ListHeader) -> bool {
        &&& 1 <= h.season <= self.season_seq().len()
        &&& self.season_seq()[h.season - 1].start_year as usize == h.start_year
        &&& match self.season_seq()[h.season - 1].end_year {
            Some(e) => h.end_year == Some(e as usize),
            None => h.end_year is None,
        }
        &&& 1 <= h.tournament <= self.tournament_names().len()
    }

    /// Whether the records that the indices were built from describe the
    /// stored seasons, tournaments, teams and matches, each stored match
    /// once, in identifier order, and every tournament and team of the
    /// tables owns a list or a match.
    pub open spec fn records_describe_store(&self) -> bool {
        &&& record_ids(self.lists()) == first_ids(self.match_seq().len())
        &&& forall|t: int|
            1 <= t <= self.tournament_names().len() ==> #[trigger] tournament_listed(self.lists(), t)
        &&& forall|a: int| 1 <= a <= self.team_names().len() ==> #[trigger] team_listed(self.lists(), a)
        &&& forall|i: int| 0 <= i < self.lists().len() ==> self.header_describes(#[trigger] self.lists()[i].head)
        &&& forall|i: int, j: int|
            0 <= i < self.lists().len() && 0 <= j < self.lists()[i].ms.len() ==> self.entry_describes(
                self.lists()[i].head,
                #[trigger] self.lists()[i].ms[j],
            )
    }

    pub closed spec fn inv(&self) -> bool {
        let n = self.matches@.len();
        &&& forall|i: int| 0 <= i < self.seasons@.len() ==> (#[trigger] self.seasons@[i]).id == i + 1
        &&& forall|i: int| 0 <= i < n ==> (#[trigger] self.matches@[i]).id == i + 1
        &&& n == match_count(self.lists@)
        &&& self.tournaments.wf()
        &&& self.teams.wf()
        &&& self.tournaments.name_seq().len() <= self.lists@.len()
        &&& self.teams.name_seq().len() <= 2 * n
        &&& forall|kind: IndexKind| #[trigger] index_ok(self.index(kind), kind, self.lists@, n as nat)
        &&& self.records_describe_store()
    }

    /// Whether every index holds as many identifiers as its multiplicity
    /// times the number of matches.
    pub open spec fn totals_agree(&self) -> bool {
        forall|kind: IndexKind|
            #[trigger] self.index(kind).total() == multiplicity(kind) * self.match_seq().len()
    }


    pub(crate) fn season_count(&self) -> (r: usize)
        ensures
            r == self.season_seq().len(),
    {
        self.seasons.len()
    }

    pub(crate) fn season_at(&self, i: usize) -> (r: &Season)
        requires
            i < self.season_seq().len(),
        ensures
            *r == self.season_seq()[i as int],
    {
        &self.seasons[i]
    }

    pub(crate) fn match_total(&self) -> (r: usize)
        ensures
            r == self.match_seq().len(),
    {
        self.matches.len()
    }

    pub(crate) fn match_at(&self, id: usize) -> (r: &Match)
        requires
            1 <= id <= self.match_seq().len(),
        ensures
            *r == self.match_seq()[id - 1],
    {
        &self.matches[id - 1]
    }

    pub(crate) fn tournament_table(&self) -> (r: &Interner)
        ensures
            r.name_seq() == self.tournament_names(),
    {
        &self.tournaments
    }

    pub(crate) fn team_table(&self) -> (r: &Interner)
        ensures
            r.name_seq() == self.team_names(),
    {
        &self.teams
    }

    /// Whether `ms` are the matches with identifiers `ids`, in that order.
    pub open spec fn lists_matches(&self, ms: Seq<&Match>, ids: Seq<usize>) -> bool {
        &&& ms.len() == ids.len()
        &&& forall|i: int| 0 <= i < ms.len() ==> *(#[trigger] ms[i]) == self.match_seq()[ids[i] - 1]
    }

    pub(crate) fn index_ref(&self, kind: IndexKind) -> (r: &KeyedIndex)
        ensures
            *r == self.index(kind),
    {
        match kind {
            IndexKind::Season => &self.season_match_map,
            IndexKind::Year => &self.yearly_match_map,
            IndexKind::Tournament => &self.tournament_match_map,
            IndexKind::TournamentSeason => &self.tournament_season_match_map,
            IndexKind::TournamentYear => &self.tournament_yearly_match_map,
            IndexKind::TeamSeason(HomeAwayOption::Both) => &self.team_tournament_season_match_map,
            IndexKind::TeamSeason(HomeAwayOption::Home) => &self.team_home_tournament_season_match_map,
            IndexKind::TeamSeason(HomeAwayOption::Away) => &self.team_away_tournament_season_match_map,
            IndexKind::TeamYear(HomeAwayOption::Both) => &self.team_tournament_yearly_match_map,
            IndexKind::TeamYear(HomeAwayOption::Home) => &self.team_home_tournament_yearly_match_map,
            IndexKind::TeamYear(HomeAwayOption::Away) => &self.team_away_tournament_yearly_match_map,
        }
    }

    /// The matches with identifiers `ids`, in that order.
    pub(crate) fn matches_by_slice(&self, ids: &Vec<usize>) -> (r: Vec<&Match>)
        requires
            self.inv(),
            seq_within(ids@, self.match_seq().len()),
        ensures
            self.lists_matches(r@, ids@),
    {
        let mut r: Vec<&Match> = Vec::new();
        let mut i: usize = 0;
        while i < ids.len()
            invariant
                i <= ids@.len(),
                seq_within(ids@, self.match_seq().len()),
                                r@.len() == i,
                forall|j: int| 0 <= j < i ==> *(#[trigger] r@[j]) == self.match_seq()[ids@[j] - 1],
            decreases ids@.len() - i,
        {
            let id = ids[i];
            r.push(&self.matches[id - 1]);
            i = i + 1;
        }
        r
    }

    pub proof fn lemma_inv(&self)
        requires
            self.inv(),
        ensures
            forall|i: int|
                0 <= i < self.match_seq().len() ==> (#[trigger] self.match_seq()[i]).id == i + 1,
            forall|i: int|
                0 <= i < self.season_seq().len() ==> (#[trigger] self.season_seq()[i]).id == i + 1,
            self.match_seq().len() == match_count(self.lists()),
            forall|kind: IndexKind| #[trigger] self.index(kind).wf(),
            forall|kind: IndexKind, k|
                #[trigger] self.index(kind).get(k) == indexed(kind, self.lists(), k),
            forall|kind: IndexKind| #[trigger] self.index(kind).ids_within(self.match_seq().len()),
            forall|kind: IndexKind|
                #[trigger] self.index(kind).total() == posting_total(postings(kind, self.lists())),
            self.records_describe_store(),
            distinct(self.tournament_names()),
            distinct(self.team_names()),
    {
        assert forall|kind: IndexKind, k| #[trigger] self.index(kind).get(k) == indexed(kind, self.lists(), k) by {
            assert(index_ok(self.index(kind), kind, self.lists@, self.matches@.len() as nat));
        }
        assert forall|kind: IndexKind| #[trigger] self.index(kind).wf() by {
            assert(index_ok(self.index(kind), kind, self.lists@, self.matches@.len() as nat));
        }
        assert forall|kind: IndexKind| #[trigger] self.index(kind).ids_within(self.match_seq().len()) by {
            assert(index_ok(self.index(kind), kind, self.lists@, self.matches@.len() as nat));
        }
        assert forall|kind: IndexKind|
            #[trigger] self.index(kind).total() == posting_total(postings(kind, self.lists())) by {
            assert(index_ok(self.index(kind), kind, self.lists@, self.matches@.len() as nat));
        }
    }
}

/// Records one list's postings in one index.
fn extend_index(
    idx: &mut KeyedIndex,
    kind: IndexKind,
    h: ListHeader,
    ms: &Vec<MatchEntry>,
    Ghost(lists): Ghost<Seq<ListRec>>,
    Ghost(n_old): Ghost<nat>,
    Ghost(n): Ghost<nat>,
)
    requires
        index_ok(*old(idx), kind, lists, n_old),
        n_old <= n,
        entries_within(ms@, n),
    ensures
        index_ok(*final(idx), kind, lists.push(ListRec { head: h, ms: ms@ }), n),
{
    let ghost l = ListRec { head: h, ms: ms@ };
    proof {
        old(idx).lemma_within_grow(n_old, n);
        lemma_list_postings_within(kind, l, n);
    }
    let ps = postings_of_list(kind, h, ms);
    idx.append_all(&ps);
    proof {
        assert forall|k| #[trigger] idx.get(k) == indexed(kind, lists.push(l), k) by {
            lemma_indexed_push(kind, lists, l, k);
        }
        lemma_indexed_push(kind, lists, l, (0, 0, 0));
    }
}

/// The team table after interning a match's home team, then its away team.
pub open spec fn match_team_names(names: Seq<Seq<char>>, m: Match) -> Seq<Seq<char>> {
    interned_names(interned_names(names, m.team1@), m.team2@)
}

/// The team table after interning the teams of the matches, in order.
pub open spec fn matches_team_names(names: Seq<Seq<char>>, ms: Seq<Match>) -> Seq<Seq<char>>
    decreases ms.len(),
{
    if ms.len() == 0 {
        names
    } else {
        match_team_names(matches_team_names(names, ms.drop_last()), ms.last())
    }
}

/// The team table after interning the teams of the lists' matches, in order.
pub open spec fn lists_team_names(names: Seq<Seq<char>>, ls: Seq<MatchList>) -> Seq<Seq<char>>
    decreases ls.len(),
{
    if ls.len() == 0 {
        names
    } else {
        matches_team_names(lists_team_names(names, ls.drop_last()), ls.last().matches@)
    }
}

/// The tournament table after interning the tournament of each list, in order.
pub open spec fn lists_tournament_names(names: Seq<Seq<char>>, ls: Seq<MatchList>) -> Seq<Seq<char>>
    decreases ls.len(),
{
    if ls.len() == 0 {
        names
    } else {
        interned_names(lists_tournament_names(names, ls.drop_last()), tournament_name(ls.last().name@))
    }
}

/// The team table after a directory: unchanged where its name is not a season.
pub open spec fn folder_team_names(names: Seq<Seq<char>>, name: Seq<char>, ls: Seq<MatchList>) -> Seq<
    Seq<char>,
> {
    if season_years(name) is Some {
        lists_team_names(names, ls)
    } else {
        names
    }
}

/// The tournament table after a directory: unchanged where its name is not a season.
pub open spec fn folder_tournament_names(
    names: Seq<Seq<char>>,
    name: Seq<char>,
    ls: Seq<MatchList>,
) -> Seq<Seq<char>> {
    if season_years(name) is Some {
        lists_tournament_names(names, ls)
    } else {
        names
    }
}

/// The teams of a corpus: its match teams, home before away, in order of
/// first appearance, directories whose name is not a season left out.
pub open spec fn corpus_team_names(c: Seq<(String, Vec<MatchList>)>) -> Seq<Seq<char>>
    decreases c.len(),
{
    if c.len() == 0 {
        seq![]
    } else {
        folder_team_names(corpus_team_names(c.drop_last()), c.last().0@, c.last().1@)
    }
}

/// The tournaments of a corpus: the tournament names that its lists' names
/// give, in order of first appearance, directories whose name is not a
/// season left out.
pub open spec fn corpus_tournament_names(c: Seq<(String, Vec<MatchList>)>) -> Seq<Seq<char>>
    decreases c.len(),
{
    if c.len() == 0 {
        seq![]
    } else {
        folder_tournament_names(corpus_tournament_names(c.drop_last()), c.last().0@, c.last().1@)
    }
}

/// Stamps incoming matches with the next identifiers, their season and
/// their tournament, interns their teams, and stores them.
fn stamp_matches(
    teams: &mut Interner,
    store: &mut Vec<Match>,
    incoming: Vec<Match>,
    season: usize,
    tournament: usize,
) -> (entries: Vec<MatchEntry>)
    requires
        old(teams).wf(),
        old(teams).name_seq().len() + 2 * incoming@.len() < usize::MAX,
        old(store)@.len() + incoming@.len() < usize::MAX,
        forall|i: int| 0 <= i < old(store)@.len() ==> (#[trigger] old(store)@[i]).id == i + 1,
    ensures
        final(teams).wf(),
        final(teams).name_seq().len() <= old(teams).name_seq().len() + 2 * incoming@.len(),
        final(store)@.len() == old(store)@.len() + incoming@.len(),
        forall|i: int| 0 <= i < old(store)@.len() ==> #[trigger] final(store)@[i] == old(store)@[i],
        forall|t: int|
            0 <= t < incoming@.len() ==> #[trigger] final(store)@[old(store)@.len() + t] == stamped(
                incoming@[t],
                (old(store)@.len() + t + 1) as usize,
                season,
                tournament,
            ),
        forall|i: int| 0 <= i < final(store)@.len() ==> (#[trigger] final(store)@[i]).id == i + 1,
        entries@.len() == incoming@.len(),
        forall|t: int|
            0 <= t < incoming@.len() ==> (#[trigger] entries@[t]).id == old(store)@.len() + t + 1
                && entries@[t].year == incoming@[t].date.year,
        old(teams).name_seq().len() <= final(teams).name_seq().len(),
        forall|i: int|
            0 <= i < old(teams).name_seq().len() ==> #[trigger] final(teams).name_seq()[i] == old(
                teams,
            ).name_seq()[i],
        forall|t: int|
            0 <= t < incoming@.len() ==> 1 <= (#[trigger] entries@[t]).home <= final(teams).name_seq().len()
                && final(teams).name_seq()[entries@[t].home - 1] == incoming@[t].team1@ && 1
                <= entries@[t].away <= final(teams).name_seq().len() && final(teams).name_seq()[entries@[t].away
                - 1] == incoming@[t].team2@,
        final(teams).name_seq() == matches_team_names(old(teams).name_seq(), incoming@),
        forall|a: int|
            old(teams).name_seq().len() < a <= final(teams).name_seq().len() ==> #[trigger] plays_in(
                entries@,
                a,
            ),
{
    let ghost orig = incoming@;
    let ghost base = old(store)@;
    let mut rest = incoming;
    let mut entries: Vec<MatchEntry> = Vec::new();
    let total = rest.len();
    let mut t: usize = 0;
    assert(orig.subrange(0, 0) =~= Seq::<Match>::empty());
    while t < total
        invariant
            total == orig.len(),
            t <= total,
            rest@ == orig.subrange(t as int, total as int),
            teams.wf(),
            teams.name_seq().len() <= old(teams).name_seq().len() + 2 * t,
            old(teams).name_seq().len() + 2 * orig.len() < usize::MAX,
            base.len() + orig.len() < usize::MAX,
            store@.len() == base.len() + t,
            forall|i: int| 0 <= i < base.len() ==> #[trigger] store@[i] == base[i],
            forall|u: int|
                0 <= u < t ==> #[trigger] store@[base.len() + u] == stamped(
                    orig[u],
                    (base.len() + u + 1) as usize,
                    season,
                    tournament,
                ),
            forall|i: int| 0 <= i < store@.len() ==> (#[trigger] store@[i]).id == i + 1,
            entries@.len() == t,
            forall|u: int|
                0 <= u < t ==> (#[trigger] entries@[u]).id == base.len() + u + 1 && entries@[u].year
                    == orig[u].date.year,
            old(teams).name_seq().len() <= teams.name_seq().len(),
            forall|i: int|
                0 <= i < old(teams).name_seq().len() ==> #[trigger] teams.name_seq()[i] == old(
                    teams,
                ).name_seq()[i],
            forall|u: int|
                0 <= u < t ==> 1 <= (#[trigger] entries@[u]).home <= teams.name_seq().len()
                    && teams.name_seq()[entries@[u].home - 1] == orig[u].team1@ && 1 <= entries@[u].away
                    <= teams.name_seq().len() && teams.name_seq()[entries@[u].away - 1] == orig[u].team2@,
            teams.name_seq() == matches_team_names(old(teams).name_seq(), orig.subrange(0, t as int)),
            forall|a: int|
                old(teams).name_seq().len() < a <= teams.name_seq().len() ==> #[trigger] plays_in(
                    entries@,
                    a,
                ),
        decreases total - t,
    {
        let mut m = rest.remove(0);
        assert(m == orig[t as int]);
        let ghost entries0 = entries@;
        let ghost names0 = teams.name_seq();
        let home = teams.intern(m.team1.clone());
        let ghost names1 = teams.name_seq();
        let away = teams.intern(m.team2.clone());
        proof {
            lemma_interned_at(names0, m.team1@);
            lemma_interned_at(names1, m.team2@);
        }
        let id = store.len() + 1;
        m.id = id;
        m.season_id = season;
        m.tournament_id = tournament;
        entries.push(MatchEntry { id, year: m.date.year, home, away });
        store.push(m);
        proof {
            assert(rest@ =~= orig.subrange(t + 1, total as int));
            assert(store@[base.len() + t as int] == stamped(orig[t as int], id, season, tournament));
            assert(orig.subrange(0, t + 1).drop_last() =~= orig.subrange(0, t as int));
            assert(orig.subrange(0, t + 1).last() == orig[t as int]);
            let e = entries@[t as int];
            assert(e.home == home && e.away == away);
            assert forall|a: int| old(teams).name_seq().len() < a <= teams.name_seq().len() implies #[trigger] plays_in(
                entries@,
                a,
            ) by {
                if a <= names0.len() {
                    assert(plays_in(entries0, a));
                    let u = choose|u: int|
                        0 <= u < entries0.len() && ((#[trigger] entries0[u]).home == a || entries0[u].away == a);
                    assert(entries@[u] == entries0[u]);
                } else if a <= names1.len() {
                    assert(!names0.contains(orig[t as int].team1@));
                    assert(entries@[t as int].home == a);
                } else {
                    assert(!names1.contains(orig[t as int].team2@));
                    assert(entries@[t as int].away == a);
                }
            }
        }
        t = t + 1;
    }
    assert(orig.subrange(0, total as int) =~= orig);
    entries
}

pub open spec fn end_year_u32(y1: Option<nat>) -> Option<u32> {
    match y1 {
        Some(e) => Some(e as u32),
        None => None,
    }
}

proof fn lemma_all_in_season_push(lists: Seq<ListRec>, l: ListRec)
    ensures
        all_in_season(lists.push(l)) == (all_in_season(lists) && list_in_season(l)),
{
    let p = lists.push(l);
    if all_in_season(lists) && list_in_season(l) {
        assert forall|i: int| 0 <= i < p.len() implies list_in_season(#[trigger] p[i]) by {
            if i < lists.len() {
                assert(p[i] == lists[i]);
            }
        }
    }
    if all_in_season(p) {
        assert(list_in_season(p[lists.len() as int]));
        assert forall|i: int| 0 <= i < lists.len() implies list_in_season(#[trigger] lists[i]) by {
            assert(list_in_season(p[i]));
        }
    }
}

proof fn lemma_corpus_weight_prefix(c: Seq<(String, Vec<MatchList>)>, k: int)
    requires
        0 <= k <= c.len(),
    ensures
        corpus_weight(c.subrange(0, k)) <= corpus_weight(c),
    decreases c.len(),
{
    if k < c.len() {
        assert(c.drop_last().subrange(0, k) =~= c.subrange(0, k));
        lemma_corpus_weight_prefix(c.drop_last(), k);
    } else {
        assert(c.subrange(0, k) =~= c);
    }
}

proof fn lemma_lists_match_count_prefix(ls: Seq<MatchList>, k: int)
    requires
        0 <= k <= ls.len(),
    ensures
        lists_match_count(ls.subrange(0, k)) <= lists_match_count(ls),
        k > 0 ==> lists_match_count(ls.subrange(0, k)) == lists_match_count(ls.subrange(0, k - 1))
            + ls[k - 1].matches@.len(),
    decreases ls.len(),
{
    if k > 0 {
        assert(ls.subrange(0, k).drop_last() =~= ls.subrange(0, k - 1));
    }
    if k < ls.len() {
        assert(ls.drop_last().subrange(0, k) =~= ls.subrange(0, k));
        lemma_lists_match_count_prefix(ls.drop_last(), k);
    } else {
        assert(ls.subrange(0, k) =~= ls);
    }
}

impl IMDB<InitState> {
    /// An empty store, ready to ingest.
    pub fn new() -> (r: Self)
        ensures
            r.inv(),
            r.lists() == Seq::<ListRec>::empty(),
            r.season_seq() == Seq::<Season>::empty(),
            r.match_seq() == Seq::<Match>::empty(),
            r.tournament_names() == Seq::<Seq<char>>::empty(),
            r.team_names() == Seq::<Seq<char>>::empty(),
    {
        assert(first_ids(0) =~= Seq::<usize>::empty());
        let r = IMDB {
            seasons: Vec::new(),
            tournaments: Interner::new(),
            teams: Interner::new(),
            matches: Vec::new(),
            season_match_map: KeyedIndex::new(),
            yearly_match_map: KeyedIndex::new(),
            tournament_match_map: KeyedIndex::new(),
            tournament_season_match_map: KeyedIndex::new(),
            tournament_yearly_match_map: KeyedIndex::new(),
            team_tournament_season_match_map: KeyedIndex::new(),
            team_tournament_yearly_match_map: KeyedIndex::new(),
            team_home_tournament_season_match_map: KeyedIndex::new(),
            team_away_tournament_season_match_map: KeyedIndex::new(),
            team_home_tournament_yearly_match_map: KeyedIndex::new(),
            team_away_tournament_yearly_match_map: KeyedIndex::new(),
            lists: Ghost(Seq::empty()),
            _phantom: PhantomData,
        };
        assert forall|kind: IndexKind| #[trigger] index_ok(r.index(kind), kind, r.lists@, 0) by {
            assert(postings(kind, r.lists@) =~= Seq::empty());
            assert forall|k| #[trigger] r.index(kind).get(k) == indexed(kind, r.lists@, k) by {}
        }
        r
    }

    /// Ingests one match list of the season `season`: derives and interns
    /// its tournament, stamps and stores its matches, and records its
    /// postings in every index.
    fn per_matchlist_build(&mut self, list: MatchList, season: usize, start_year: u32, end_year: Option<u32>)
        requires
            old(self).inv(),
            old(self).weight() + 1 + list.matches@.len() <= usize::MAX / 4,
            1 <= season <= old(self).season_seq().len(),
            old(self).season_seq()[season - 1].start_year == start_year,
            old(self).season_seq()[season - 1].end_year == end_year,
        ensures
            final(self).inv(),
            final(self).season_seq() == old(self).season_seq(),
            final(self).lists().len() == old(self).lists().len() + 1,
            final(self).lists().drop_last() == old(self).lists(),
            final(self).lists().last().head.season == season,
            final(self).lists().last().head.start_year == start_year as usize,
            final(self).lists().last().head.end_year == match end_year {
                Some(e) => Some(e as usize),
                None => None::<usize>,
            },
            final(self).lists().last().ms.len() == list.matches@.len(),
            forall|j: int|
                0 <= j < list.matches@.len() ==> (#[trigger] final(self).lists().last().ms[j]).year
                    == list.matches@[j].date.year,
            final(self).weight() == old(self).weight() + 1 + list.matches@.len(),
            unstamp_all(final(self).match_seq()) == unstamp_all(old(self).match_seq()) + unstamp_all(
                list.matches@,
            ),
            forall|st: Seq<Stamp>|
                old(self).stamps_agree(st) ==> #[trigger] final(self).stamps_agree(
                    st + list_stamps(list, season),
                ),
            final(self).tournament_names() == interned_names(
                old(self).tournament_names(),
                tournament_name(list.name@),
            ),
            final(self).team_names() == matches_team_names(old(self).team_names(), list.matches@),
    {
        let ghost lists = self.lists@;
        let ghost the_list = list;
        let ghost n_old = self.matches@.len() as nat;
        let ghost incoming = list.matches@;
        let name = get_tournament_name(list.name.as_str());
        let ghost tnames0 = self.tournaments.name_seq();
        let tour = self.tournaments.intern(name);
        proof {
            lemma_interned_at(tnames0, name@);
        }
        let entries = stamp_matches(&mut self.teams, &mut self.matches, list.matches, season, tour);
        let ghost n = self.matches@.len() as nat;
        let h = ListHeader {
            season,
            start_year: start_year as usize,
            end_year: match end_year {
                Some(e) => Some(e as usize),
                None => None,
            },
            tournament: tour,
        };
        assert(entries_within(entries@, n));
        assert(index_ok(old(self).index(IndexKind::Season), IndexKind::Season, lists, n_old));
        assert(index_ok(old(self).index(IndexKind::Year), IndexKind::Year, lists, n_old));
        assert(index_ok(old(self).index(IndexKind::Tournament), IndexKind::Tournament, lists, n_old));
        assert(index_ok(old(self).index(IndexKind::TournamentSeason), IndexKind::TournamentSeason, lists, n_old));
        assert(index_ok(old(self).index(IndexKind::TournamentYear), IndexKind::TournamentYear, lists, n_old));
        assert(index_ok(old(self).index(IndexKind::TeamSeason(HomeAwayOption::Both)), IndexKind::TeamSeason(HomeAwayOption::Both), lists, n_old));
        assert(index_ok(old(self).index(IndexKind::TeamSeason(HomeAwayOption::Home)), IndexKind::TeamSeason(HomeAwayOption::Home), lists, n_old));
        assert(index_ok(old(self).index(IndexKind::TeamSeason(HomeAwayOption::Away)), IndexKind::TeamSeason(HomeAwayOption::Away), lists, n_old));
        assert(index_ok(old(self).index(IndexKind::TeamYear(HomeAwayOption::Both)), IndexKind::TeamYear(HomeAwayOption::Both), lists, n_old));
        assert(index_ok(old(self).index(IndexKind::TeamYear(HomeAwayOption::Home)), IndexKind::TeamYear(HomeAwayOption::Home), lists, n_old));
        assert(index_ok(old(self).index(IndexKind::TeamYear(HomeAwayOption::Away)), IndexKind::TeamYear(HomeAwayOption::Away), lists, n_old));
        extend_index(&mut self.season_match_map, IndexKind::Season, h, &entries, Ghost(lists), Ghost(n_old), Ghost(n));
        extend_index(&mut self.yearly_match_map, IndexKind::Year, h, &entries, Ghost(lists), Ghost(n_old), Ghost(n));
        extend_index(&mut self.tournament_match_map, IndexKind::Tournament, h, &entries, Ghost(lists), Ghost(n_old), Ghost(n));
        extend_index(
            &mut self.tournament_season_match_map,
            IndexKind::TournamentSeason,
            h,
            &entries,
            Ghost(lists),
            Ghost(n_old),
            Ghost(n),
        );
        extend_index(
            &mut self.tournament_yearly_match_map,
            IndexKind::TournamentYear,
            h,
            &entries,
            Ghost(lists),
            Ghost(n_old),
            Ghost(n),
        );
        extend_index(
            &mut self.team_tournament_season_match_map,
            IndexKind::TeamSeason(HomeAwayOption::Both),
            h,
            &entries,
            Ghost(lists),
            Ghost(n_old),
            Ghost(n),
        );
        extend_index(
            &mut self.team_home_tournament_season_match_map,
            IndexKind::TeamSeason(HomeAwayOption::Home),
            h,
            &entries,
            Ghost(lists),
            Ghost(n_old),
            Ghost(n),
        );
        extend_index(
            &mut self.team_away_tournament_season_match_map,
            IndexKind::TeamSeason(HomeAwayOption::Away),
            h,
            &entries,
            Ghost(lists),
            Ghost(n_old),
            Ghost(n),
        );
        extend_index(
            &mut self.team_tournament_yearly_match_map,
            IndexKind::TeamYear(HomeAwayOption::Both),
            h,
            &entries,
            Ghost(lists),
            Ghost(n_old),
            Ghost(n),
        );
        extend_index(
            &mut self.team_home_tournament_yearly_match_map,
            IndexKind::TeamYear(HomeAwayOption::Home),
            h,
            &entries,
            Ghost(lists),
            Ghost(n_old),
            Ghost(n),
        );
        extend_index(
            &mut self.team_away_tournament_yearly_match_map,
            IndexKind::TeamYear(HomeAwayOption::Away),
            h,
            &entries,
            Ghost(lists),
            Ghost(n_old),
            Ghost(n),
        );
        let ghost rec = ListRec { head: h, ms: entries@ };
        self.lists = Ghost(lists.push(rec));
        proof {
            let before = old(self).matches@;
            assert forall|i: int| 0 <= i < self.matches@.len() implies #[trigger] unstamp_all(self.matches@)[i]
                == (unstamp_all(before) + unstamp_all(incoming))[i] by {
                if i >= before.len() {
                    assert(self.matches@[before.len() + (i - before.len())] == stamped(
                        incoming[i - before.len()],
                        (before.len() + (i - before.len()) + 1) as usize,
                        season,
                        tour,
                    ));
                }
            }
            assert(unstamp_all(self.matches@) =~= unstamp_all(before) + unstamp_all(incoming));
            let old_db = *old(self);
            assert forall|st: Seq<Stamp>| old_db.stamps_agree(st) implies #[trigger] self.stamps_agree(
                st + list_stamps(the_list, season),
            ) by {
                let all = st + list_stamps(the_list, season);
                assert forall|i: int| 0 <= i < all.len() implies {
                    let m = #[trigger] self.match_seq()[i];
                    &&& m.season_id == all[i].0
                    &&& 1 <= m.tournament_id <= self.tournament_names().len()
                    &&& self.tournament_names()[m.tournament_id - 1] == all[i].1
                } by {
                    if i < st.len() {
                        assert(self.match_seq()[i] == old_db.match_seq()[i]);
                        assert(all[i] == st[i]);
                        let m = old_db.match_seq()[i];
                        assert(old_db.tournament_names()[m.tournament_id - 1] == st[i].1);
                    } else {
                        assert(all[i] == (season, tournament_name(the_list.name@)));
                        assert(self.matches@[before.len() + (i - before.len())] == stamped(
                            incoming[i - before.len()],
                            (before.len() + (i - before.len()) + 1) as usize,
                            season,
                            tour,
                        ));
                    }
                }
            }
            assert(lists.push(rec).drop_last() =~= lists);
            assert forall|t: int|
                1 <= t <= self.tournament_names().len() implies #[trigger] tournament_listed(self.lists(), t) by {
                if t <= tnames0.len() {
                    assert(tournament_listed(lists, t));
                    let i = choose|i: int| 0 <= i < lists.len() && (#[trigger] lists[i]).head.tournament == t;
                    assert(self.lists()[i] == lists[i]);
                } else {
                    assert(!tnames0.contains(name@));
                    assert(self.lists()[lists.len() as int].head.tournament == t);
                }
            }
            assert forall|a: int| 1 <= a <= self.team_names().len() implies #[trigger] team_listed(self.lists(), a) by {
                if a <= old_db.team_names().len() {
                    assert(team_listed(lists, a));
                    let i = choose|i: int| 0 <= i < lists.len() && #[trigger] plays_in(lists[i].ms, a);
                    assert(self.lists()[i] == lists[i]);
                } else {
                    assert(plays_in(entries@, a));
                    assert(self.lists()[lists.len() as int].ms == entries@);
                }
            }
            assert(record_ids(self.lists()) =~= first_ids(self.match_seq().len())) by {
                assert(record_ids(self.lists()) == record_ids(lists) + ids_of(entries@));
                assert(record_ids(lists) == first_ids(before.len()));
            }
            assert forall|i: int| 0 <= i < self.lists().len() implies self.header_describes(
                #[trigger] self.lists()[i].head,
            ) by {
                if i < lists.len() {
                    assert(self.lists()[i] == lists[i]);
                    assert(old_db.header_describes(lists[i].head));
                }
            }
            assert forall|i: int, j: int|
                0 <= i < self.lists().len() && 0 <= j < self.lists()[i].ms.len() implies self.entry_describes(
                self.lists()[i].head,
                #[trigger] self.lists()[i].ms[j],
            ) by {
                if i < lists.len() {
                    assert(self.lists()[i] == lists[i]);
                    let e = lists[i].ms[j];
                    assert(old_db.entry_describes(lists[i].head, e));
                    assert(self.match_seq()[e.id - 1] == before[e.id - 1]);
                    assert(self.team_names()[e.home - 1] == old_db.team_names()[e.home - 1]);
                    assert(self.team_names()[e.away - 1] == old_db.team_names()[e.away - 1]);
                } else {
                    let e = entries@[j];
                    assert(self.lists()[i].ms[j] == e);
                    assert(self.matches@[before.len() + j] == stamped(
                        incoming[j],
                        (before.len() + j + 1) as usize,
                        season,
                        tour,
                    ));
                }
            }
            assert(lists.push(rec).drop_last() =~= lists);
            assert forall|kind: IndexKind| #[trigger] index_ok(self.index(kind), kind, self.lists@, n) by {
                match kind {
                    IndexKind::TeamSeason(side) => match side {
                        HomeAwayOption::Both => {},
                        HomeAwayOption::Home => {},
                        HomeAwayOption::Away => {},
                    },
                    IndexKind::TeamYear(side) => match side {
                        HomeAwayOption::Both => {},
                        HomeAwayOption::Home => {},
                        HomeAwayOption::Away => {},
                    },
                    _ => {},
                }
            }
        }
    }

    /// Ingests one directory: reads its name as a season, records the
    /// season, and ingests its decoded match lists in order.
    pub fn per_folder_season(&mut self, folder: &str, files: Vec<MatchList>) -> (r: Result<SeasonId, IMDBError>)
        requires
            old(self).inv(),
            old(self).weight() + 1 + files@.len() + lists_match_count(files@) <= usize::MAX / 4,
        ensures
            final(self).inv(),
            match season_years(folder@) {
                None => r == Err::<SeasonId, IMDBError>(IMDBError::FolderNameMalformed)
                    && final(self).season_seq() == old(self).season_seq()
                    && final(self).lists() == old(self).lists(),
                Some((y0, y1)) => final(self).season_seq() == old(self).season_seq().push(
                    Season {
                        id: (old(self).season_seq().len() + 1) as usize,
                        start_year: y0 as u32,
                        end_year: end_year_u32(y1),
                    },
                ) && r == if files@.len() == 0 {
                    Err::<SeasonId, IMDBError>(IMDBError::FolderEmpty)
                } else {
                    Ok::<SeasonId, IMDBError>((old(self).season_seq().len() + 1) as usize)
                },
            },
            match_count(final(self).lists()) == match_count(old(self).lists()) + folder_match_count(
                folder@,
                files@,
            ),
            all_in_season(final(self).lists()) == (all_in_season(old(self).lists())
                && folder_in_season(folder@, files@)),
            final(self).weight() <= old(self).weight() + 1 + files@.len() + lists_match_count(files@),
            unstamp_all(final(self).match_seq()) == unstamp_all(old(self).match_seq()) + unstamp_all(
                folder_flat(folder@, files@),
            ),
            forall|st: Seq<Stamp>|
                old(self).stamps_agree(st) ==> #[trigger] final(self).stamps_agree(
                    st + folder_stamps(folder@, files@, (old(self).season_seq().len() + 1) as usize),
                ),
            final(self).tournament_names() == folder_tournament_names(
                old(self).tournament_names(),
                folder@,
                files@,
            ),
            final(self).team_names() == folder_team_names(old(self).team_names(), folder@, files@),
    {
        let parsed = parse_season_name(folder);
        let (start_year, end_year) = match parsed {
            Some(p) => p,
            None => {
                assert(unstamp_all(self.match_seq()) =~= unstamp_all(old(self).match_seq()) + unstamp_all(
                    folder_flat(folder@, files@),
                ));
                assert forall|st: Seq<Stamp>| old(self).stamps_agree(st) implies #[trigger] self.stamps_agree(
                    st + Seq::<Stamp>::empty(),
                ) by {
                    assert(st + Seq::<Stamp>::empty() =~= st);
                }
                return Err(IMDBError::FolderNameMalformed);
            },
        };
        let ghost years = season_years(folder@)->0;
        let ghost y0 = years.0;
        let ghost y1 = years.1;
        let ghost lists0 = self.lists@;
        let id = self.seasons.len() + 1;
        self.seasons.push(Season { id, start_year, end_year });
        proof {
            let old_db = *old(self);
            assert forall|i: int| 0 <= i < self.lists().len() implies self.header_describes(
                #[trigger] self.lists()[i].head,
            ) by {
                assert(old_db.header_describes(self.lists()[i].head));
                assert(self.season_seq()[self.lists()[i].head.season - 1] == old_db.season_seq()[self.lists()[i].head.season - 1]);
            }
            assert forall|i: int, j: int|
                0 <= i < self.lists().len() && 0 <= j < self.lists()[i].ms.len() implies self.entry_describes(
                self.lists()[i].head,
                #[trigger] self.lists()[i].ms[j],
            ) by {
                assert(old_db.entry_describes(self.lists()[i].head, self.lists()[i].ms[j]));
            }
            assert forall|kind: IndexKind|
                #[trigger] index_ok(self.index(kind), kind, self.lists@, self.matches@.len() as nat) by {
                assert(index_ok(old(self).index(kind), kind, old(self).lists@, old(self).matches@.len() as nat));
            }
            assert forall|i: int| 0 <= i < self.seasons@.len() implies (#[trigger] self.seasons@[i]).id == i
                + 1 by {
                if i < self.seasons@.len() - 1 {
                    assert(self.seasons@[i] == old(self).seasons@[i]);
                }
            }
        }
        let ghost orig = files@;
        proof {
            assert(orig.subrange(0, 0) =~= Seq::<MatchList>::empty());
            assert(unstamp_all(self.match_seq()) =~= unstamp_all(old(self).match_seq()) + unstamp_all(
                lists_flat(orig.subrange(0, 0)),
            ));
            assert forall|st: Seq<Stamp>| old(self).stamps_agree(st) implies #[trigger] self.stamps_agree(
                st + lists_stamps(orig.subrange(0, 0), id),
            ) by {
                assert(st + lists_stamps(orig.subrange(0, 0), id) =~= st);
                assert(self.match_seq() == old(self).match_seq());
                assert(self.tournament_names() == old(self).tournament_names());
            }
        }
        let mut rest = files;
        let total = rest.len();
        let mut k: usize = 0;
        while k < total
            invariant
                self.inv(),
                total == orig.len(),
                k <= total,
                rest@ == orig.subrange(k as int, total as int),
                self.season_seq() == old(self).season_seq().push(
                    Season { id, start_year, end_year },
                ),
                id == old(self).season_seq().len() + 1,
                start_year == y0,
                match y1 {
                    Some(e) => end_year matches Some(v) && v == e,
                    None => end_year is None,
                },
                self.lists().len() == lists0.len() + k,
                self.lists().subrange(0, lists0.len() as int) == lists0,
                lists0 == old(self).lists(),
                match_count(self.lists()) == match_count(lists0) + lists_match_count(
                    orig.subrange(0, k as int),
                ),
                all_in_season(self.lists()) == (all_in_season(lists0) && lists_in_season(
                    orig.subrange(0, k as int),
                    y0,
                    y1,
                )),
                self.weight() == old(self).weight() + 1 + k + lists_match_count(orig.subrange(0, k as int)),
                old(self).weight() + 1 + orig.len() + lists_match_count(orig) <= usize::MAX / 4,
                unstamp_all(self.match_seq()) == unstamp_all(old(self).match_seq()) + unstamp_all(
                    lists_flat(orig.subrange(0, k as int)),
                ),
                forall|st: Seq<Stamp>|
                    old(self).stamps_agree(st) ==> #[trigger] self.stamps_agree(
                        st + lists_stamps(orig.subrange(0, k as int), id),
                    ),
                self.tournament_names() == lists_tournament_names(
                    old(self).tournament_names(),
                    orig.subrange(0, k as int),
                ),
                self.team_names() == lists_team_names(old(self).team_names(), orig.subrange(0, k as int)),
            decreases total - k,
        {
            let list = rest.remove(0);
            let ghost before = *self;
            let ghost the_list = list;
            proof {
                assert(list == orig[k as int]);
                assert(orig.subrange(0, k + 1).drop_last() =~= orig.subrange(0, k as int));
                lemma_lists_match_count_prefix(orig, k + 1);
            }
            self.per_matchlist_build(list, id, start_year, end_year);
            proof {
                let pre0 = orig.subrange(0, k as int);
                let post0 = orig.subrange(0, k + 1);
                assert(post0.drop_last() =~= pre0);
                assert(post0.last() == list);
                assert(unstamp_all(lists_flat(post0)) =~= unstamp_all(lists_flat(pre0)) + unstamp_all(
                    list.matches@,
                ));
                assert(unstamp_all(self.match_seq()) =~= unstamp_all(old(self).match_seq()) + unstamp_all(
                    lists_flat(post0),
                ));
                assert forall|st: Seq<Stamp>| old(self).stamps_agree(st) implies #[trigger] self.stamps_agree(
                    st + lists_stamps(post0, id),
                ) by {
                    assert(before.stamps_agree(st + lists_stamps(pre0, id)));
                    assert(self.stamps_agree(st + lists_stamps(pre0, id) + list_stamps(the_list, id)));
                    assert(lists_stamps(post0, id) == lists_stamps(pre0, id) + list_stamps(the_list, id));
                    assert(st + lists_stamps(pre0, id) + list_stamps(the_list, id) =~= st + lists_stamps(post0, id));
                }
                let rec = self.lists().last();
                assert(rest@ =~= orig.subrange(k + 1, total as int));
                assert(self.lists().subrange(0, lists0.len() as int) =~= lists0) by {
                    assert(self.lists().drop_last() == before.lists());
                    assert forall|i: int| 0 <= i < lists0.len() implies self.lists()[i] == lists0[i] by {
                        assert(self.lists()[i] == before.lists()[i]);
                        assert(before.lists().subrange(0, lists0.len() as int)[i] == lists0[i]);
                    }
                }
                assert(self.lists() =~= before.lists().push(rec));
                assert(match_count(self.lists()) == match_count(before.lists()) + rec.ms.len());
                lemma_all_in_season_push(before.lists(), rec);
                let pre = orig.subrange(0, k as int);
                let post = orig.subrange(0, k + 1);
                assert(list_in_season(rec) == (forall|j: int|
                    0 <= j < list.matches@.len() ==> date_in_season(
                        y0,
                        y1,
                        (#[trigger] list.matches@[j]).date.year,
                    ))) by {
                    if list_in_season(rec) {
                        assert forall|j: int| 0 <= j < list.matches@.len() implies date_in_season(
                            y0,
                            y1,
                            (#[trigger] list.matches@[j]).date.year,
                        ) by {
                            assert(in_season(rec.head, rec.ms[j]));
                        }
                    } else {
                        let j = choose|j: int| 0 <= j < rec.ms.len() && !in_season(rec.head, #[trigger] rec.ms[j]);
                        assert(!date_in_season(y0, y1, list.matches@[j].date.year));
                    }
                }
                assert(lists_in_season(post, y0, y1) == (lists_in_season(pre, y0, y1) && list_in_season(rec))) by {
                    if lists_in_season(post, y0, y1) {
                        assert forall|i: int, j: int|
                            0 <= i < pre.len() && 0 <= j < pre[i].matches@.len() implies date_in_season(
                            y0,
                            y1,
                            (#[trigger] pre[i].matches@[j]).date.year,
                        ) by {
                            assert(pre[i] == post[i]);
                        }
                        assert forall|j: int| 0 <= j < list.matches@.len() implies date_in_season(
                            y0,
                            y1,
                            (#[trigger] list.matches@[j]).date.year,
                        ) by {
                            assert(post[k as int] == list);
                            assert(date_in_season(y0, y1, post[k as int].matches@[j].date.year));
                        }
                    }
                    if lists_in_season(pre, y0, y1) && list_in_season(rec) {
                        assert forall|i: int, j: int|
                            0 <= i < post.len() && 0 <= j < post[i].matches@.len() implies date_in_season(
                            y0,
                            y1,
                            (#[trigger] post[i].matches@[j]).date.year,
                        ) by {
                            if i < k {
                                assert(pre[i] == post[i]);
                            } else {
                                assert(post[i] == list);
                            }
                        }
                    }
                }
            }
            k = k + 1;
        }
        proof {
            assert(orig.subrange(0, total as int) =~= orig);
        }
        if total == 0 {
            assert(lists_flat(orig) =~= Seq::<Match>::empty());
            assert(lists_stamps(orig, id) =~= Seq::<Stamp>::empty());
            return Err(IMDBError::FolderEmpty);
        }
        Ok(id)
    }

    /// Recounts every index and checks it against the number of matches:
    /// each index of teams on both sides holds every match twice, every
    /// other index once.
    fn check_data_integrity(&self) -> (r: Result<(), IMDBError>)
        requires
            self.inv(),
            self.weight() <= usize::MAX / 4,
        ensures
            r is Ok <==> self.totals_agree(),
            r is Err ==> r == Err::<(), IMDBError>(IMDBError::DataIntegrity),
    {
        proof {
            self.lemma_inv();
            assert(self.index(IndexKind::Year).wf());
            assert(self.index(IndexKind::Season).wf());
            assert(self.index(IndexKind::Tournament).wf());
            assert(self.index(IndexKind::TournamentSeason).wf());
            assert(self.index(IndexKind::TournamentYear).wf());
            assert(self.index(IndexKind::TeamSeason(HomeAwayOption::Both)).wf());
            assert(self.index(IndexKind::TeamYear(HomeAwayOption::Both)).wf());
            assert(self.index(IndexKind::TeamSeason(HomeAwayOption::Home)).wf());
            assert(self.index(IndexKind::TeamSeason(HomeAwayOption::Away)).wf());
            assert(self.index(IndexKind::TeamYear(HomeAwayOption::Home)).wf());
            assert(self.index(IndexKind::TeamYear(HomeAwayOption::Away)).wf());
        }
        let n = self.matches.len();
        let two_n = n * 2;
        let ok = self.yearly_match_map.total_is(n) && self.season_match_map.total_is(n)
            && self.tournament_match_map.total_is(n) && self.tournament_season_match_map.total_is(n)
            && self.tournament_yearly_match_map.total_is(n)
            && self.team_tournament_season_match_map.total_is(two_n)
            && self.team_tournament_yearly_match_map.total_is(two_n)
            && self.team_home_tournament_season_match_map.total_is(n)
            && self.team_away_tournament_season_match_map.total_is(n)
            && self.team_home_tournament_yearly_match_map.total_is(n)
            && self.team_away_tournament_yearly_match_map.total_is(n);
        proof {
            self.lemma_inv();
            if ok {
                assert forall|kind: IndexKind|
                    #[trigger] self.index(kind).total() == multiplicity(kind) * self.match_seq().len() by {
                    match kind {
                        IndexKind::TeamSeason(side) => match side {
                            HomeAwayOption::Both => {},
                            HomeAwayOption::Home => {},
                            HomeAwayOption::Away => {},
                        },
                        IndexKind::TeamYear(side) => match side {
                            HomeAwayOption::Both => {},
                            HomeAwayOption::Home => {},
                            HomeAwayOption::Away => {},
                        },
                        _ => {},
                    }
                }
            } else {
                assert(!self.totals_agree()) by {
                    if self.totals_agree() {
                        assert(self.index(IndexKind::Year).total() == multiplicity(IndexKind::Year) * n);
                        assert(self.index(IndexKind::Season).total() == multiplicity(IndexKind::Season) * n);
                        assert(self.index(IndexKind::Tournament).total() == multiplicity(IndexKind::Tournament) * n);
                        assert(self.index(IndexKind::TournamentSeason).total() == multiplicity(IndexKind::TournamentSeason) * n);
                        assert(self.index(IndexKind::TournamentYear).total() == multiplicity(IndexKind::TournamentYear) * n);
                        assert(self.index(IndexKind::TeamSeason(HomeAwayOption::Both)).total() == multiplicity(IndexKind::TeamSeason(HomeAwayOption::Both)) * n);
                        assert(self.index(IndexKind::TeamYear(HomeAwayOption::Both)).total() == multiplicity(IndexKind::TeamYear(HomeAwayOption::Both)) * n);
                        assert(self.index(IndexKind::TeamSeason(HomeAwayOption::Home)).total() == multiplicity(IndexKind::TeamSeason(HomeAwayOption::Home)) * n);
                        assert(self.index(IndexKind::TeamSeason(HomeAwayOption::Away)).total() == multiplicity(IndexKind::TeamSeason(HomeAwayOption::Away)) * n);
                        assert(self.index(IndexKind::TeamYear(HomeAwayOption::Home)).total() == multiplicity(IndexKind::TeamYear(HomeAwayOption::Home)) * n);
                        assert(self.index(IndexKind::TeamYear(HomeAwayOption::Away)).total() == multiplicity(IndexKind::TeamYear(HomeAwayOption::Away)) * n);
                    }
                }
            }
        }
        if ok {
            Ok(())
        } else {
            Err(IMDBError::DataIntegrity)
        }
    }

    /// Seals a checked store for queries.
    fn ready(me: IMDB<InitState>) -> (r: IMDB<ReadyState>)
        ensures
            r.lists() == me.lists(),
            r.season_seq() == me.season_seq(),
            r.match_seq() == me.match_seq(),
            r.tournament_names() == me.tournament_names(),
            r.team_names() == me.team_names(),
            forall|kind: IndexKind| #[trigger] r.index(kind) == me.index(kind),
            me.inv() ==> r.inv(),
    {
        let ghost old_me = me;
        let r = IMDB {
            seasons: me.seasons,
            tournaments: me.tournaments,
            teams: me.teams,
            matches: me.matches,
            season_match_map: me.season_match_map,
            yearly_match_map: me.yearly_match_map,
            tournament_match_map: me.tournament_match_map,
            tournament_season_match_map: me.tournament_season_match_map,
            tournament_yearly_match_map: me.tournament_yearly_match_map,
            team_tournament_season_match_map: me.team_tournament_season_match_map,
            team_tournament_yearly_match_map: me.team_tournament_yearly_match_map,
            team_home_tournament_season_match_map: me.team_home_tournament_season_match_map,
            team_away_tournament_season_match_map: me.team_away_tournament_season_match_map,
            team_home_tournament_yearly_match_map: me.team_home_tournament_yearly_match_map,
            team_away_tournament_yearly_match_map: me.team_away_tournament_yearly_match_map,
            lists: me.lists,
            _phantom: PhantomData,
        };
        proof {
            assert forall|kind: IndexKind| #[trigger] r.index(kind) == old_me.index(kind) by {
                match kind {
                    IndexKind::TeamSeason(side) => match side {
                        HomeAwayOption::Both => {},
                        HomeAwayOption::Home => {},
                        HomeAwayOption::Away => {},
                    },
                    IndexKind::TeamYear(side) => match side {
                        HomeAwayOption::Both => {},
                        HomeAwayOption::Home => {},
                        HomeAwayOption::Away => {},
                    },
                    _ => {},
                }
            }
            if old_me.inv() {
                assert forall|kind: IndexKind|
                    #[trigger] index_ok(r.index(kind), kind, r.lists@, r.matches@.len() as nat) by {
                    assert(index_ok(old_me.index(kind), kind, old_me.lists@, old_me.matches@.len() as nat));
                }
            }
        }
        r
    }

    /// Builds the store from a corpus, directory after directory, and seals
    /// it once every index agrees with the number of matches.
    ///
    /// Directories whose name is not a season contribute nothing; matches
    /// receive the identifiers `1, 2, ...` in the order of the corpus.
    pub fn build(corpus: Vec<(String, Vec<MatchList>)>) -> (r: Result<IMDB<ReadyState>, IMDBError>)
        requires
            corpus_weight(corpus@) <= usize::MAX / 4,
        ensures
            (r matches Err(IMDBError::NoDataAvailable)) <==> corpus_match_count(corpus@) == 0,
            corpus_match_count(corpus@) > 0 && corpus_in_season(corpus@) ==> r is Ok,
            r matches Err(e) ==> e == IMDBError::NoDataAvailable || e == IMDBError::DataIntegrity,
            (r matches Err(IMDBError::DataIntegrity)) ==> !corpus_in_season(corpus@),
            r matches Ok(db) ==> {
                &&& db.inv()
                &&& db.totals_agree()
                &&& db.match_seq().len() == corpus_match_count(corpus@)
                &&& unstamp_all(db.match_seq()) == unstamp_all(corpus_flat(corpus@))
                &&& db.season_seq() == corpus_seasons(corpus@)
                &&& db.records_describe_store()
                &&& db.stamps_agree(corpus_stamps(corpus@))
                &&& db.tournament_names() == corpus_tournament_names(corpus@)
                &&& db.team_names() == corpus_team_names(corpus@)
                &&& distinct(db.tournament_names())
                &&& distinct(db.team_names())
                &&& forall|i: int|
                    0 <= i < db.match_seq().len() ==> (#[trigger] db.match_seq()[i]).id == i + 1
            },
    {
        let mut me = IMDB::new();
        let ghost orig = corpus@;
        let mut rest = corpus;
        let total = rest.len();
        let mut k: usize = 0;
        proof {
            assert(orig.subrange(0, 0) =~= Seq::<(String, Vec<MatchList>)>::empty());
            assert(unstamp_all(me.match_seq()) =~= unstamp_all(corpus_flat(orig.subrange(0, 0))));
            assert(me.stamps_agree(corpus_stamps(orig.subrange(0, 0))));
        }
        while k < total
            invariant
                me.inv(),
                total == orig.len(),
                k <= total,
                rest@ == orig.subrange(k as int, total as int),
                match_count(me.lists()) == corpus_match_count(orig.subrange(0, k as int)),
                all_in_season(me.lists()) == corpus_in_season(orig.subrange(0, k as int)),
                me.weight() <= corpus_weight(orig.subrange(0, k as int)),
                corpus_weight(orig) <= usize::MAX / 4,
                unstamp_all(me.match_seq()) == unstamp_all(corpus_flat(orig.subrange(0, k as int))),
                me.season_seq() == corpus_seasons(orig.subrange(0, k as int)),
                me.stamps_agree(corpus_stamps(orig.subrange(0, k as int))),
                me.tournament_names() == corpus_tournament_names(orig.subrange(0, k as int)),
                me.team_names() == corpus_team_names(orig.subrange(0, k as int)),
            decreases total - k,
        {
            let (folder, files) = rest.remove(0);
            proof {
                let pre = orig.subrange(0, k as int);
                let post = orig.subrange(0, k + 1);
                assert(post.drop_last() =~= pre);
                assert(post.last() == (folder, files));
                lemma_corpus_weight_prefix(orig, k + 1);
                assert(corpus_in_season(post) == (corpus_in_season(pre) && folder_in_season(folder@, files@))) by {
                    if corpus_in_season(post) {
                        assert forall|i: int| 0 <= i < pre.len() implies folder_in_season(
                            (#[trigger] pre[i]).0@,
                            pre[i].1@,
                        ) by {
                            assert(pre[i] == post[i]);
                        }
                        assert(folder_in_season(post[k as int].0@, post[k as int].1@));
                    }
                    if corpus_in_season(pre) && folder_in_season(folder@, files@) {
                        assert forall|i: int| 0 <= i < post.len() implies folder_in_season(
                            (#[trigger] post[i]).0@,
                            post[i].1@,
                        ) by {
                            if i < k {
                                assert(pre[i] == post[i]);
                            }
                        }
                    }
                }
            }
            let ghost before = me;
            let _ = me.per_folder_season(folder.as_str(), files);
            proof {
                let pre = orig.subrange(0, k as int);
                let post = orig.subrange(0, k + 1);
                assert(before.stamps_agree(corpus_stamps(pre)));
                assert(corpus_stamps(post) == corpus_stamps(pre) + folder_stamps(
                    folder@,
                    files@,
                    (before.season_seq().len() + 1) as usize,
                ));
                assert(unstamp_all(corpus_flat(post)) =~= unstamp_all(corpus_flat(pre)) + unstamp_all(
                    folder_flat(folder@, files@),
                ));
                assert(rest@ =~= orig.subrange(k + 1, total as int));
            }
            k = k + 1;
        }
        proof {
            assert(orig.subrange(0, total as int) =~= orig);
            me.lemma_inv();
        }
        if me.matches.len() == 0 {
            return Err(IMDBError::NoDataAvailable);
        }
        proof {
            if corpus_in_season(orig) {
                assert forall|kind: IndexKind|
                    #[trigger] me.index(kind).total() == multiplicity(kind) * me.match_seq().len() by {
                    lemma_postings_total(kind, me.lists());
                }
            }
        }
        match me.check_data_integrity() {
            Ok(()) => {
                let db = Self::ready(me);
                proof {
                    db.lemma_inv();
                }
                Ok(db)
            },
            Err(e) => Err(e),
        }
    }
}

} // verus!
