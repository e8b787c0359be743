//! What each index of the store records.
//!
//! Every match list that the store ingests hands each index a sequence of
//! postings (a key and the identifiers recorded under it). An index holds,
//! under each key, the concatenation of the postings that all ingested
//! lists gave it under that key, in the order the lists were ingested.

use crate::index::{combine, gather, posting_total, postings_view, Key, Posting};
use crate::query_types::HomeAwayOption;
use vstd::prelude::*;

verus! {

/// What the indices need of one match: its identifier, the year of its
/// date, and the identifiers of its home and away teams.
#[derive(Debug, Clone, Copy, PartialEq, Eq)]
pub struct MatchEntry {
    pub id: usize,
    pub year: i32,
    pub home: usize,
    pub away: usize,
}

/// What the indices need of one match list besides its matches.
#[derive(Debug, Clone, Copy, PartialEq, Eq)]
pub struct ListHeader {
    pub season: usize,
    pub start_year: usize,
    pub end_year: Option<usize>,
    pub tournament: usize,
}

/// One ingested match list, as the indices see it.
pub struct ListRec {
    pub head: ListHeader,
    pub ms: Seq<MatchEntry>,
}

/// The eleven indices.
#[derive(Debug, Clone, Copy, PartialEq, Eq, Structural)]
pub enum IndexKind {
    /// season -> matches
    Season,
    /// year -> matches
    Year,
    /// tournament -> matches
    Tournament,
    /// (tournament, season) -> matches
    TournamentSeason,
    /// (tournament, year) -> matches
    TournamentYear,
    /// (team, tournament, season) -> matches, for the chosen side
    TeamSeason(HomeAwayOption),
    /// (team, tournament, year) -> matches, for the chosen side
    TeamYear(HomeAwayOption),
}

pub open spec fn ids_of(ms: Seq<MatchEntry>) -> Seq<usize> {
    ms.map_values(|m: MatchEntry| m.id)
}

/// The identifiers of the matches played in year `y`, in order.
pub open spec fn ids_in_year(ms: Seq<MatchEntry>, y: usize) -> Seq<usize>
    decreases ms.len(),
{
    if ms.len() == 0 {
        seq![]
    } else if ms.last().year as int == y as int {
        ids_in_year(ms.drop_last(), y).push(ms.last().id)
    } else {
        ids_in_year(ms.drop_last(), y)
    }
}

/// The key of a year-keyed index for year `y`.
pub open spec fn year_key(kind: IndexKind, h: ListHeader, y: usize) -> Key {
    if kind == IndexKind::TournamentYear {
        (h.tournament, y, 0)
    } else {
        (y, 0, 0)
    }
}

/// A list's postings to a year-keyed index: the matches of the start
/// year under it, then, for a two-year season, those of the end year.
pub open spec fn year_postings(kind: IndexKind, h: ListHeader, ms: Seq<MatchEntry>) -> Seq<Posting> {
    seq![(year_key(kind, h, h.start_year), ids_in_year(ms, h.start_year))] + match h.end_year {
        Some(e) => seq![(year_key(kind, h, e), ids_in_year(ms, e))],
        None => Seq::<Posting>::empty(),
    }
}

/// The teams of a match that a side filter counts: home then away for both.
pub open spec fn side_teams(side: HomeAwayOption, m: MatchEntry) -> Seq<usize> {
    match side {
        HomeAwayOption::Both => seq![m.home, m.away],
        HomeAwayOption::Home => seq![m.home],
        HomeAwayOption::Away => seq![m.away],
    }
}

/// A team's postings for one match to a team-keyed index.
pub open spec fn team_match_postings(kind: IndexKind, h: ListHeader, m: MatchEntry, t: usize) -> Seq<
    Posting,
> {
    match kind {
        IndexKind::TeamYear(_) => (if m.year as int == h.start_year as int {
            seq![((t, h.tournament, h.start_year), seq![m.id])]
        } else {
            Seq::<Posting>::empty()
        }) + match h.end_year {
            Some(e) => if m.year as int == e as int {
                seq![((t, h.tournament, e), seq![m.id])]
            } else {
                Seq::<Posting>::empty()
            },
            None => Seq::<Posting>::empty(),
        },
        _ => seq![((t, h.tournament, h.season), seq![m.id])],
    }
}

pub open spec fn kind_side(kind: IndexKind) -> HomeAwayOption {
    match kind {
        IndexKind::TeamSeason(s) => s,
        IndexKind::TeamYear(s) => s,
        _ => HomeAwayOption::Both,
    }
}

/// The postings of one match to a team-keyed index, team after team.
pub open spec fn match_postings(kind: IndexKind, h: ListHeader, m: MatchEntry) -> Seq<Posting> {
    let ts = side_teams(kind_side(kind), m);
    if ts.len() == 2 {
        team_match_postings(kind, h, m, ts[0]) + team_match_postings(kind, h, m, ts[1])
    } else {
        team_match_postings(kind, h, m, ts[0])
    }
}

/// The postings of a run of matches to a team-keyed index, match after match.
pub open spec fn matches_postings(kind: IndexKind, h: ListHeader, ms: Seq<MatchEntry>) -> Seq<Posting>
    decreases ms.len(),
{
    if ms.len() == 0 {
        seq![]
    } else {
        matches_postings(kind, h, ms.drop_last()) + match_postings(kind, h, ms.last())
    }
}

/// The postings of one match list to an index.
pub open spec fn list_postings(kind: IndexKind, l: ListRec) -> Seq<Posting> {
    match kind {
        IndexKind::Season => seq![((l.head.season, 0, 0), ids_of(l.ms))],
        IndexKind::Tournament => seq![((l.head.tournament, 0, 0), ids_of(l.ms))],
        IndexKind::TournamentSeason => seq![((l.head.tournament, l.head.season, 0), ids_of(l.ms))],
        IndexKind::Year => year_postings(kind, l.head, l.ms),
        IndexKind::TournamentYear => year_postings(kind, l.head, l.ms),
        _ => matches_postings(kind, l.head, l.ms),
    }
}

/// The postings of all ingested lists to an index, list after list.
pub open spec fn postings(kind: IndexKind, lists: Seq<ListRec>) -> Seq<Posting>
    decreases lists.len(),
{
    if lists.len() == 0 {
        seq![]
    } else {
        postings(kind, lists.drop_last()) + list_postings(kind, lists.last())
    }
}

/// What an index holds under `k` once `lists` have been ingested.
pub open spec fn indexed(kind: IndexKind, lists: Seq<ListRec>, k: Key) -> Option<Seq<usize>> {
    gather(postings(kind, lists), k)
}

/// Number of matches of the ingested lists.
pub open spec fn match_count(lists: Seq<ListRec>) -> nat
    decreases lists.len(),
{
    if lists.len() == 0 {
        0
    } else {
        match_count(lists.drop_last()) + lists.last().ms.len()
    }
}

/// Whether a team plays, on either side, one of the matches.
pub open spec fn plays_in(ms: Seq<MatchEntry>, a: int) -> bool {
    exists|u: int| 0 <= u < ms.len() && ((#[trigger] ms[u]).home == a || ms[u].away == a)
}

/// Whether some list belongs to the tournament `t`.
pub open spec fn tournament_listed(lists: Seq<ListRec>, t: int) -> bool {
    exists|i: int| 0 <= i < lists.len() && (#[trigger] lists[i]).head.tournament == t
}

/// Whether the team `a` plays some match of some list.
pub open spec fn team_listed(lists: Seq<ListRec>, a: int) -> bool {
    exists|i: int| 0 <= i < lists.len() && #[trigger] plays_in(lists[i].ms, a)
}

/// The identifiers of all records, list after list.
pub open spec fn record_ids(lists: Seq<ListRec>) -> Seq<usize>
    decreases lists.len(),
{
    if lists.len() == 0 {
        seq![]
    } else {
        record_ids(lists.drop_last()) + ids_of(lists.last().ms)
    }
}

/// The identifiers `1..=n`, in order.
pub open spec fn first_ids(n: nat) -> Seq<usize> {
    Seq::new(n, |i: int| (i + 1) as usize)
}

/// Whether a match's year is exactly one of its season's years.
pub open spec fn in_season(h: ListHeader, m: MatchEntry) -> bool {
    let at_start = m.year as int == h.start_year as int;
    let at_end = match h.end_year {
        Some(e) => m.year as int == e as int,
        None => false,
    };
    at_start != at_end
}

pub open spec fn list_in_season(l: ListRec) -> bool {
    forall|j: int| 0 <= j < l.ms.len() ==> in_season(l.head, #[trigger] l.ms[j])
}

pub open spec fn all_in_season(lists: Seq<ListRec>) -> bool {
    forall|i: int| 0 <= i < lists.len() ==> list_in_season(#[trigger] lists[i])
}

/// How many times an index records each match: twice for the indices of
/// teams on both sides, once for every other.
pub open spec fn multiplicity(kind: IndexKind) -> nat {
    match kind {
        IndexKind::TeamSeason(HomeAwayOption::Both) => 2,
        IndexKind::TeamYear(HomeAwayOption::Both) => 2,
        _ => 1,
    }
}

proof fn lemma_single_total(p: Posting)
    ensures
        posting_total(seq![p]) == p.1.len(),
{
    assert(seq![p].drop_last() =~= Seq::<Posting>::empty());
    assert(posting_total(Seq::<Posting>::empty()) == 0);
    assert(seq![p].last() == p);
}

proof fn lemma_year_counts(ms: Seq<MatchEntry>, h: ListHeader)
    requires
        forall|j: int| 0 <= j < ms.len() ==> in_season(h, #[trigger] ms[j]),
    ensures
        ids_in_year(ms, h.start_year).len() + match h.end_year {
            Some(e) => ids_in_year(ms, e).len(),
            None => 0,
        } == ms.len(),
    decreases ms.len(),
{
    if ms.len() > 0 {
        assert(in_season(h, ms[ms.len() - 1]));
        lemma_year_counts(ms.drop_last(), h);
    }
}

proof fn lemma_team_match_total(kind: IndexKind, h: ListHeader, m: MatchEntry, t: usize)
    requires
        in_season(h, m),
    ensures
        posting_total(team_match_postings(kind, h, m, t)) == 1,
{
    let ps = team_match_postings(kind, h, m, t);
    match kind {
        IndexKind::TeamYear(_) => {
            let a = if m.year as int == h.start_year as int {
                seq![((t, h.tournament, h.start_year), seq![m.id])]
            } else {
                Seq::<Posting>::empty()
            };
            let b = match h.end_year {
                Some(e) => if m.year as int == e as int {
                    seq![((t, h.tournament, e), seq![m.id])]
                } else {
                    Seq::<Posting>::empty()
                },
                None => Seq::<Posting>::empty(),
            };
            crate::index::lemma_posting_total_concat(a, b);
            if a.len() > 0 {
                lemma_single_total(a[0]);
                assert(a =~= seq![a[0]]);
            }
            if b.len() > 0 {
                lemma_single_total(b[0]);
                assert(b =~= seq![b[0]]);
            }
        },
        _ => {
            lemma_single_total(ps[0]);
            assert(ps =~= seq![ps[0]]);
        },
    }
}

proof fn lemma_matches_total(kind: IndexKind, h: ListHeader, ms: Seq<MatchEntry>)
    requires
        forall|j: int| 0 <= j < ms.len() ==> in_season(h, #[trigger] ms[j]),
    ensures
        posting_total(matches_postings(kind, h, ms)) == multiplicity_of_side(kind_side(kind))
            * ms.len(),
    decreases ms.len(),
{
    if ms.len() > 0 {
        let m = ms.last();
        assert(in_season(h, ms[ms.len() - 1]));
        lemma_matches_total(kind, h, ms.drop_last());
        crate::index::lemma_posting_total_concat(
            matches_postings(kind, h, ms.drop_last()),
            match_postings(kind, h, m),
        );
        let ts = side_teams(kind_side(kind), m);
        lemma_team_match_total(kind, h, m, ts[0]);
        if ts.len() == 2 {
            lemma_team_match_total(kind, h, m, ts[1]);
            crate::index::lemma_posting_total_concat(
                team_match_postings(kind, h, m, ts[0]),
                team_match_postings(kind, h, m, ts[1]),
            );
        }
        assert(multiplicity_of_side(kind_side(kind)) * ms.len() == multiplicity_of_side(
            kind_side(kind),
        ) * ms.drop_last().len() + multiplicity_of_side(kind_side(kind))) by (nonlinear_arith)
            requires
                ms.drop_last().len() + 1 == ms.len(),
        ;
    }
}

pub open spec fn multiplicity_of_side(side: HomeAwayOption) -> nat {
    match side {
        HomeAwayOption::Both => 2,
        _ => 1,
    }
}

/// Under a list whose matches all fall in their season, the list gives each
/// index as many identifiers as its multiplicity times its matches.
pub proof fn lemma_list_total(kind: IndexKind, l: ListRec)
    requires
        list_in_season(l),
    ensures
        posting_total(list_postings(kind, l)) == multiplicity(kind) * l.ms.len(),
{
    match kind {
        IndexKind::Season | IndexKind::Tournament | IndexKind::TournamentSeason => {
            lemma_single_total(list_postings(kind, l)[0]);
            assert(list_postings(kind, l) =~= seq![list_postings(kind, l)[0]]);
        },
        IndexKind::Year | IndexKind::TournamentYear => {
            let a = seq![(year_key(kind, l.head, l.head.start_year), ids_in_year(l.ms, l.head.start_year))];
            let b = match l.head.end_year {
                Some(e) => seq![(year_key(kind, l.head, e), ids_in_year(l.ms, e))],
                None => Seq::<Posting>::empty(),
            };
            crate::index::lemma_posting_total_concat(a, b);
            lemma_single_total(a[0]);
            if b.len() > 0 {
                lemma_single_total(b[0]);
                assert(b =~= seq![b[0]]);
            }
            lemma_year_counts(l.ms, l.head);
        },
        _ => {
            assert(multiplicity(kind) == multiplicity_of_side(kind_side(kind)));
            lemma_matches_total(kind, l.head, l.ms);
        },
    }
}

/// When every match falls in its season, each index holds its
/// multiplicity times the number of matches.
pub proof fn lemma_postings_total(kind: IndexKind, lists: Seq<ListRec>)
    requires
        all_in_season(lists),
    ensures
        posting_total(postings(kind, lists)) == multiplicity(kind) * match_count(lists),
    decreases lists.len(),
{
    if lists.len() > 0 {
        let init = lists.drop_last();
        assert(all_in_season(init)) by {
            assert forall|i: int| 0 <= i < init.len() implies list_in_season(#[trigger] init[i]) by {
                assert(init[i] == lists[i]);
            }
        }
        assert(list_in_season(lists[lists.len() - 1]));
        lemma_postings_total(kind, init);
        lemma_list_total(kind, lists.last());
        crate::index::lemma_posting_total_concat(postings(kind, init), list_postings(kind, lists.last()));
        assert(multiplicity(kind) * match_count(lists) == multiplicity(kind) * match_count(init)
            + multiplicity(kind) * lists.last().ms.len()) by (nonlinear_arith)
            requires
                match_count(lists) == match_count(init) + lists.last().ms.len(),
        ;
    }
}

fn copy_ids(ids: &Vec<usize>) -> (r: Vec<usize>)
    ensures
        r@ == ids@,
{
    let mut r: Vec<usize> = Vec::new();
    let mut i: usize = 0;
    while i < ids.len()
        invariant
            i <= ids@.len(),
            r@ == ids@.subrange(0, i as int),
        decreases ids@.len() - i,
    {
        r.push(ids[i]);
        i = i + 1;
        assert(r@ =~= ids@.subrange(0, i as int));
    }
    assert(ids@.subrange(0, ids@.len() as int) =~= ids@);
    r
}

fn all_ids(ms: &Vec<MatchEntry>) -> (r: Vec<usize>)
    ensures
        r@ == ids_of(ms@),
{
    let mut r: Vec<usize> = Vec::new();
    let mut i: usize = 0;
    while i < ms.len()
        invariant
            i <= ms@.len(),
            r@ == ids_of(ms@.subrange(0, i as int)),
        decreases ms@.len() - i,
    {
        r.push(ms[i].id);
        i = i + 1;
        assert(r@ =~= ids_of(ms@.subrange(0, i as int)));
    }
    assert(ms@.subrange(0, ms@.len() as int) =~= ms@);
    r
}

fn year_ids(ms: &Vec<MatchEntry>, y: usize) -> (r: Vec<usize>)
    ensures
        r@ == ids_in_year(ms@, y),
{
    let mut r: Vec<usize> = Vec::new();
    let mut i: usize = 0;
    while i < ms.len()
        invariant
            i <= ms@.len(),
            r@ == ids_in_year(ms@.subrange(0, i as int), y),
        decreases ms@.len() - i,
    {
        assert(ms@.subrange(0, i + 1).drop_last() =~= ms@.subrange(0, i as int));
        if ms[i].year >= 0 && ms[i].year as usize == y {
            r.push(ms[i].id);
        }
        i = i + 1;
    }
    assert(ms@.subrange(0, ms@.len() as int) =~= ms@);
    r
}

fn key_of_year(kind: IndexKind, h: ListHeader, y: usize) -> (r: Key)
    ensures
        r == year_key(kind, h, y),
{
    if kind == IndexKind::TournamentYear {
        (h.tournament, y, 0)
    } else {
        (y, 0, 0)
    }
}

fn push_team_postings(
    kind: IndexKind,
    h: ListHeader,
    m: MatchEntry,
    t: usize,
    out: &mut Vec<(Key, Vec<usize>)>,
)
    ensures
        postings_view(final(out)@) == postings_view(old(out)@) + team_match_postings(kind, h, m, t),
{
    let ghost before = postings_view(out@);
    match kind {
        IndexKind::TeamYear(_) => {
            if m.year >= 0 && m.year as usize == h.start_year {
                let v = vec![m.id];
                assert(v@ =~= seq![m.id]);
                out.push(((t, h.tournament, h.start_year), v));
            }
            let ghost mid = postings_view(out@);
            match h.end_year {
                Some(e) => {
                    if m.year >= 0 && m.year as usize == e {
                        let v = vec![m.id];
                        assert(v@ =~= seq![m.id]);
                        out.push(((t, h.tournament, e), v));
                    }
                },
                None => {},
            }
            assert(postings_view(out@) =~= before + team_match_postings(kind, h, m, t));
        },
        _ => {
            let v = vec![m.id];
            assert(v@ =~= seq![m.id]);
            out.push(((t, h.tournament, h.season), v));
            assert(postings_view(out@) =~= before + team_match_postings(kind, h, m, t));
        },
    }
}

/// The postings that one match list gives to the index `kind`.
pub fn postings_of_list(kind: IndexKind, h: ListHeader, ms: &Vec<MatchEntry>) -> (r: Vec<
    (Key, Vec<usize>),
>)
    ensures
        postings_view(r@) == list_postings(kind, ListRec { head: h, ms: ms@ }),
{
    let mut out: Vec<(Key, Vec<usize>)> = Vec::new();
    match kind {
        IndexKind::Season => {
            out.push(((h.season, 0, 0), all_ids(ms)));
            assert(postings_view(out@) =~= list_postings(kind, ListRec { head: h, ms: ms@ }));
        },
        IndexKind::Tournament => {
            out.push(((h.tournament, 0, 0), all_ids(ms)));
            assert(postings_view(out@) =~= list_postings(kind, ListRec { head: h, ms: ms@ }));
        },
        IndexKind::TournamentSeason => {
            out.push(((h.tournament, h.season, 0), all_ids(ms)));
            assert(postings_view(out@) =~= list_postings(kind, ListRec { head: h, ms: ms@ }));
        },
        IndexKind::Year | IndexKind::TournamentYear => {
            out.push((key_of_year(kind, h, h.start_year), year_ids(ms, h.start_year)));
            match h.end_year {
                Some(e) => {
                    out.push((key_of_year(kind, h, e), year_ids(ms, e)));
                },
                None => {},
            }
            assert(postings_view(out@) =~= list_postings(kind, ListRec { head: h, ms: ms@ }));
        },
        _ => {
            let side = match kind {
                IndexKind::TeamSeason(s) => s,
                IndexKind::TeamYear(s) => s,
                _ => HomeAwayOption::Both,
            };
            let mut i: usize = 0;
            while i < ms.len()
                invariant
                    i <= ms@.len(),
                    side == kind_side(kind),
                    kind is TeamSeason || kind is TeamYear,
                    postings_view(out@) == matches_postings(kind, h, ms@.subrange(0, i as int)),
                decreases ms@.len() - i,
            {
                let m = ms[i];
                let ghost before = postings_view(out@);
                match side {
                    HomeAwayOption::Both => {
                        push_team_postings(kind, h, m, m.home, &mut out);
                        push_team_postings(kind, h, m, m.away, &mut out);
                    },
                    HomeAwayOption::Home => {
                        push_team_postings(kind, h, m, m.home, &mut out);
                    },
                    HomeAwayOption::Away => {
                        push_team_postings(kind, h, m, m.away, &mut out);
                    },
                }
                proof {
                    let pre = ms@.subrange(0, i as int);
                    let next = ms@.subrange(0, i + 1);
                    assert(next.drop_last() =~= pre);
                    assert(next.last() == m);
                    assert(postings_view(out@) =~= before + match_postings(kind, h, m));
                }
                i = i + 1;
            }
            assert(ms@.subrange(0, ms@.len() as int) =~= ms@);
        },
    }
    out
}

pub open spec fn entries_within(ms: Seq<MatchEntry>, n: nat) -> bool {
    forall|j: int| 0 <= j < ms.len() ==> 1 <= (#[trigger] ms[j]).id <= n
}

proof fn lemma_within_concat(a: Seq<Posting>, b: Seq<Posting>, n: nat)
    requires
        crate::index::postings_within(a, n),
        crate::index::postings_within(b, n),
    ensures
        crate::index::postings_within(a + b, n),
{
    assert forall|i: int| 0 <= i < (a + b).len() implies crate::index::seq_within(#[trigger] (a + b)[i].1, n) by {
        if i < a.len() {
            assert((a + b)[i] == a[i]);
        } else {
            assert((a + b)[i] == b[i - a.len()]);
        }
    }
}

proof fn lemma_year_ids_within(ms: Seq<MatchEntry>, y: usize, n: nat)
    requires
        entries_within(ms, n),
    ensures
        crate::index::seq_within(ids_in_year(ms, y), n),
    decreases ms.len(),
{
    if ms.len() > 0 {
        assert(entries_within(ms.drop_last(), n)) by {
            assert forall|j: int| 0 <= j < ms.drop_last().len() implies 1 <= (#[trigger] ms.drop_last()[j]).id <= n by {
                assert(ms.drop_last()[j] == ms[j]);
            }
        }
        assert(1 <= ms[ms.len() - 1].id <= n);
        lemma_year_ids_within(ms.drop_last(), y, n);
    }
}

proof fn lemma_matches_within(kind: IndexKind, h: ListHeader, ms: Seq<MatchEntry>, n: nat)
    requires
        entries_within(ms, n),
    ensures
        crate::index::postings_within(matches_postings(kind, h, ms), n),
    decreases ms.len(),
{
    if ms.len() > 0 {
        let m = ms.last();
        assert(1 <= ms[ms.len() - 1].id <= n);
        assert(entries_within(ms.drop_last(), n)) by {
            assert forall|j: int| 0 <= j < ms.drop_last().len() implies 1 <= (#[trigger] ms.drop_last()[j]).id <= n by {
                assert(ms.drop_last()[j] == ms[j]);
            }
        }
        lemma_matches_within(kind, h, ms.drop_last(), n);
        let ts = side_teams(kind_side(kind), m);
        assert forall|t: usize| crate::index::postings_within(#[trigger] team_match_postings(kind, h, m, t), n) by {
            let ps = team_match_postings(kind, h, m, t);
            assert forall|i: int| 0 <= i < ps.len() implies crate::index::seq_within(#[trigger] ps[i].1, n) by {
                assert(ps[i].1 =~= seq![m.id]);
            }
        }
        if ts.len() == 2 {
            lemma_within_concat(team_match_postings(kind, h, m, ts[0]), team_match_postings(kind, h, m, ts[1]), n);
        }
        lemma_within_concat(matches_postings(kind, h, ms.drop_last()), match_postings(kind, h, m), n);
    }
}

/// A list whose identifiers lie in `1..=n` posts only such identifiers.
pub proof fn lemma_list_postings_within(kind: IndexKind, l: ListRec, n: nat)
    requires
        entries_within(l.ms, n),
    ensures
        crate::index::postings_within(list_postings(kind, l), n),
{
    let ps = list_postings(kind, l);
    match kind {
        IndexKind::Season | IndexKind::Tournament | IndexKind::TournamentSeason => {
            assert forall|j: int| 0 <= j < ids_of(l.ms).len() implies 1 <= #[trigger] ids_of(l.ms)[j] <= n by {
                assert(ids_of(l.ms)[j] == l.ms[j].id);
            }
            assert(crate::index::seq_within(ps[0].1, n));
        },
        IndexKind::Year | IndexKind::TournamentYear => {
            lemma_year_ids_within(l.ms, l.head.start_year, n);
            match l.head.end_year {
                Some(e) => {
                    lemma_year_ids_within(l.ms, e, n);
                },
                None => {},
            }
            assert forall|i: int| 0 <= i < ps.len() implies crate::index::seq_within(#[trigger] ps[i].1, n) by {
                if i == 0 {
                } else {
                }
            }
        },
        _ => {
            lemma_matches_within(kind, l.head, l.ms, n);
        },
    }
}

proof fn lemma_home_postings(h: ListHeader, ms: Seq<MatchEntry>)
    ensures
        matches_postings(IndexKind::TeamSeason(HomeAwayOption::Home), h, ms).len() == ms.len(),
        forall|j: int|
            0 <= j < ms.len() ==> #[trigger] matches_postings(
                IndexKind::TeamSeason(HomeAwayOption::Home),
                h,
                ms,
            )[j] == ((ms[j].home, h.tournament, h.season), seq![ms[j].id]),
    decreases ms.len(),
{
    let kind = IndexKind::TeamSeason(HomeAwayOption::Home);
    if ms.len() > 0 {
        lemma_home_postings(h, ms.drop_last());
        let a = matches_postings(kind, h, ms.drop_last());
        let b = match_postings(kind, h, ms.last());
        assert(b =~= seq![((ms.last().home, h.tournament, h.season), seq![ms.last().id])]);
        assert forall|j: int| 0 <= j < ms.len() implies #[trigger] matches_postings(kind, h, ms)[j] == (
        (ms[j].home, h.tournament, h.season), seq![ms[j].id]) by {
            if j < ms.len() - 1 {
                assert((a + b)[j] == a[j]);
                assert(ms.drop_last()[j] == ms[j]);
            } else {
                assert((a + b)[j] == b[0]);
            }
        }
    }
}

/// Where no list of tournament `t` and season `s` has `team` at home, the
/// home index of teams has no posting under `(team, t, s)`.
pub proof fn lemma_home_key_absent(lists: Seq<ListRec>, team: usize, t: usize, s: usize)
    requires
        forall|i: int, j: int|
            0 <= i < lists.len() && lists[i].head.tournament == t && lists[i].head.season == s && 0
                <= j < lists[i].ms.len() ==> (#[trigger] lists[i].ms[j]).home != team,
    ensures
        forall|p: int|
            0 <= p < postings(IndexKind::TeamSeason(HomeAwayOption::Home), lists).len() ==> (
            #[trigger] postings(IndexKind::TeamSeason(HomeAwayOption::Home), lists)[p]).0 != (
            team,
            t,
            s,
        ),
    decreases lists.len(),
{
    let kind = IndexKind::TeamSeason(HomeAwayOption::Home);
    if lists.len() > 0 {
        let init = lists.drop_last();
        let l = lists.last();
        assert forall|i: int, j: int|
            0 <= i < init.len() && init[i].head.tournament == t && init[i].head.season == s && 0 <= j
                < init[i].ms.len() implies (#[trigger] init[i].ms[j]).home != team by {
            assert(init[i] == lists[i]);
            assert(lists[i].ms[j].home != team);
        }
        lemma_home_key_absent(init, team, t, s);
        lemma_home_postings(l.head, l.ms);
        let a = postings(kind, init);
        let b = list_postings(kind, l);
        assert forall|p: int| 0 <= p < (a + b).len() implies (#[trigger] (a + b)[p]).0 != (team, t, s) by {
            if p < a.len() {
                assert((a + b)[p] == a[p]);
            } else {
                let j = p - a.len();
                assert((a + b)[p] == b[j]);
                if l.head.tournament == t && l.head.season == s {
                    assert(lists[lists.len() - 1].ms[j].home != team);
                }
            }
        }
    }
}

/// An away match of a team in a list gives the index of teams on both
/// sides a posting under the team, the list's tournament and its season.
pub proof fn lemma_away_key_present(lists: Seq<ListRec>, i: int, j: int)
    requires
        0 <= i < lists.len(),
        0 <= j < lists[i].ms.len(),
    ensures
        gather(
            postings(IndexKind::TeamSeason(HomeAwayOption::Both), lists),
            (lists[i].ms[j].away, lists[i].head.tournament, lists[i].head.season),
        ) is Some,
    decreases lists.len(),
{
    let kind = IndexKind::TeamSeason(HomeAwayOption::Both);
    let k = (lists[i].ms[j].away, lists[i].head.tournament, lists[i].head.season);
    let init = lists.drop_last();
    let l = lists.last();
    crate::index::lemma_gather_concat(postings(kind, init), list_postings(kind, l), k);
    if i == lists.len() - 1 {
        lemma_away_in_matches(l.head, l.ms, j);
    } else {
        assert(init[i] == lists[i]);
        lemma_away_key_present(init, i, j);
    }
}

proof fn lemma_away_in_matches(h: ListHeader, ms: Seq<MatchEntry>, j: int)
    requires
        0 <= j < ms.len(),
    ensures
        gather(
            matches_postings(IndexKind::TeamSeason(HomeAwayOption::Both), h, ms),
            (ms[j].away, h.tournament, h.season),
        ) is Some,
    decreases ms.len(),
{
    let kind = IndexKind::TeamSeason(HomeAwayOption::Both);
    let k = (ms[j].away, h.tournament, h.season);
    let m = ms.last();
    let mp = match_postings(kind, h, m);
    crate::index::lemma_gather_concat(matches_postings(kind, h, ms.drop_last()), mp, k);
    if j == ms.len() - 1 {
        assert(mp[1] == ((m.away, h.tournament, h.season), seq![m.id]));
        crate::index::lemma_gather_some(mp, k, 1);
    } else {
        assert(ms.drop_last()[j] == ms[j]);
        lemma_away_in_matches(h, ms.drop_last(), j);
    }
}

/// The identifiers of the lists of tournament `t`, list after list.
pub open spec fn tournament_ids(lists: Seq<ListRec>, t: usize) -> Seq<usize>
    decreases lists.len(),
{
    if lists.len() == 0 {
        seq![]
    } else {
        tournament_ids(lists.drop_last(), t) + if lists.last().head.tournament == t {
            ids_of(lists.last().ms)
        } else {
            Seq::<usize>::empty()
        }
    }
}

proof fn lemma_tournament_ids_unlisted(lists: Seq<ListRec>, t: usize)
    requires
        !tournament_listed(lists, t as int),
    ensures
        tournament_ids(lists, t) == Seq::<usize>::empty(),
    decreases lists.len(),
{
    if lists.len() > 0 {
        let init = lists.drop_last();
        assert(lists[lists.len() - 1].head.tournament != t);
        assert(!tournament_listed(init, t as int)) by {
            if tournament_listed(init, t as int) {
                let i = choose|i: int| 0 <= i < init.len() && (#[trigger] init[i]).head.tournament == t as int;
                assert(lists[i] == init[i]);
            }
        }
        lemma_tournament_ids_unlisted(init, t);
        assert(Seq::<usize>::empty() + Seq::<usize>::empty() =~= Seq::<usize>::empty());
    }
}

/// The tournament index holds under `t` the identifiers of its lists.
pub proof fn lemma_tournament_postings(lists: Seq<ListRec>, t: usize)
    ensures
        gather(postings(IndexKind::Tournament, lists), (t, 0usize, 0usize)) == if tournament_listed(
            lists,
            t as int,
        ) {
            Some(tournament_ids(lists, t))
        } else {
            None::<Seq<usize>>
        },
    decreases lists.len(),
{
    if lists.len() > 0 {
        let init = lists.drop_last();
        let l = lists.last();
        let k = (t, 0usize, 0usize);
        lemma_tournament_postings(init, t);
        crate::index::lemma_gather_concat(postings(IndexKind::Tournament, init), list_postings(IndexKind::Tournament, l), k);
        let lp = list_postings(IndexKind::Tournament, l);
        assert(lp.drop_last() =~= Seq::<Posting>::empty());
        assert(gather(Seq::<Posting>::empty(), k) is None);
        assert(lp.last() == ((l.head.tournament, 0usize, 0usize), ids_of(l.ms)));
        assert(gather(lp, k) == if l.head.tournament == t {
            Some(ids_of(l.ms))
        } else {
            None::<Seq<usize>>
        });
        assert(postings(IndexKind::Tournament, lists) == postings(IndexKind::Tournament, init) + lp);
        if tournament_listed(init, t as int) {
            let i = choose|i: int| 0 <= i < init.len() && (#[trigger] init[i]).head.tournament == t as int;
            assert(lists[i] == init[i]);
        }
        if tournament_listed(lists, t as int) && l.head.tournament != t {
            let i = choose|i: int| 0 <= i < lists.len() && (#[trigger] lists[i]).head.tournament == t as int;
            assert(init[i] == lists[i]);
        }
        if l.head.tournament == t {
            assert(tournament_listed(lists, t as int)) by {
                assert(lists[lists.len() - 1].head.tournament == t);
            }
        }
        assert(tournament_ids(init, t) + Seq::<usize>::empty() =~= tournament_ids(init, t));
        assert(Seq::<usize>::empty() + ids_of(l.ms) =~= ids_of(l.ms));
        let g = gather(postings(IndexKind::Tournament, lists), k);
        assert(g == combine(gather(postings(IndexKind::Tournament, init), k), gather(lp, k)));
        if l.head.tournament == t {
            if tournament_listed(init, t as int) {
                assert(g == Some(tournament_ids(init, t) + ids_of(l.ms)));
            } else {
                assert(g == Some(ids_of(l.ms)));
                assert(tournament_ids(init, t) =~= Seq::<usize>::empty()) by {
                    lemma_tournament_ids_unlisted(init, t);
                }
            }
        } else {
            assert(tournament_listed(lists, t as int) == tournament_listed(init, t as int));
        }
    }
}

proof fn lemma_ids_in_year_empty(ms: Seq<MatchEntry>, y: usize)
    requires
        forall|j: int| 0 <= j < ms.len() ==> (#[trigger] ms[j]).year as int != y as int,
    ensures
        ids_in_year(ms, y).len() == 0,
    decreases ms.len(),
{
    if ms.len() > 0 {
        assert(ms[ms.len() - 1].year as int != y as int);
        assert forall|j: int| 0 <= j < ms.drop_last().len() implies (#[trigger] ms.drop_last()[j]).year as int
            != y as int by {
            assert(ms.drop_last()[j] == ms[j]);
        }
        lemma_ids_in_year_empty(ms.drop_last(), y);
    }
}

/// Where no match of tournament `t` falls in year `y`, every posting of
/// the tournament-year index under `(t, y)` is empty.
pub proof fn lemma_tournament_year_empty(lists: Seq<ListRec>, t: usize, y: usize)
    requires
        forall|i: int, j: int|
            0 <= i < lists.len() && lists[i].head.tournament == t && 0 <= j < lists[i].ms.len()
                ==> (#[trigger] lists[i].ms[j]).year as int != y as int,
    ensures
        forall|p: int|
            0 <= p < postings(IndexKind::TournamentYear, lists).len() && (#[trigger] postings(
                IndexKind::TournamentYear,
                lists,
            )[p]).0 == (t, y, 0usize) ==> postings(IndexKind::TournamentYear, lists)[p].1.len() == 0,
    decreases lists.len(),
{
    let kind = IndexKind::TournamentYear;
    if lists.len() > 0 {
        let init = lists.drop_last();
        let l = lists.last();
        assert forall|i: int, j: int|
            0 <= i < init.len() && init[i].head.tournament == t && 0 <= j < init[i].ms.len() implies (
            #[trigger] init[i].ms[j]).year as int != y as int by {
            assert(init[i] == lists[i]);
            assert(lists[i].ms[j].year as int != y as int);
        }
        lemma_tournament_year_empty(init, t, y);
        let a = postings(kind, init);
        let b = list_postings(kind, l);
        if l.head.tournament == t {
            assert forall|j: int| 0 <= j < l.ms.len() implies (#[trigger] l.ms[j]).year as int != y as int by {
                assert(lists[lists.len() - 1].ms[j].year as int != y as int);
            }
            lemma_ids_in_year_empty(l.ms, y);
        }
        assert forall|p: int| 0 <= p < (a + b).len() && (#[trigger] (a + b)[p]).0 == (t, y, 0usize) implies (a
            + b)[p].1.len() == 0 by {
            if p < a.len() {
                assert((a + b)[p] == a[p]);
            } else {
                assert((a + b)[p] == b[p - a.len()]);
            }
        }
    }
}

/// After a list's postings have been appended, an index that held what
/// `lists` gave it holds what `lists` and the new list give it.
pub proof fn lemma_indexed_push(kind: IndexKind, lists: Seq<ListRec>, l: ListRec, k: Key)
    ensures
        indexed(kind, lists.push(l), k) == combine(
            indexed(kind, lists, k),
            gather(list_postings(kind, l), k),
        ),
        posting_total(postings(kind, lists.push(l))) == posting_total(postings(kind, lists))
            + posting_total(list_postings(kind, l)),
{
    assert(lists.push(l).drop_last() =~= lists);
    crate::index::lemma_gather_concat(postings(kind, lists), list_postings(kind, l), k);
    crate::index::lemma_posting_total_concat(postings(kind, lists), list_postings(kind, l));
}

} // verus!
