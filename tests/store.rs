use imdb::{
    fits_in_memory, get_tournament_name, Date, HomeAwayOption, IMDBError, InitState, Match, MatchList,
    QueryError, ReadyState, Score, ScoreGoals, ScoreRaw, IMDB,
};

fn mk(team1: &str, team2: &str, year: i32, month: u32, day: u32) -> Match {
    Match {
        id: 0,
        season_id: 0,
        tournament_id: 0,
        round: None,
        date: Date { year, month, day },
        time: None,
        team1: team1.to_string(),
        team2: team2.to_string(),
        score: Score { half_time: None, full_time: Some(ScoreGoals(2, 1)) },
        stage: None,
    }
}

fn list(name: &str, matches: Vec<Match>) -> MatchList {
    MatchList { name: name.to_string(), matches }
}

fn build(corpus: Vec<(String, Vec<MatchList>)>) -> Result<IMDB<ReadyState>, IMDBError> {
    assert!(fits_in_memory(&corpus));
    IMDB::<InitState>::build(corpus)
}

fn ids(r: Result<(usize, Vec<&Match>), QueryError>) -> Vec<usize> {
    let (total, ms) = r.unwrap();
    assert_eq!(total, ms.len());
    ms.iter().map(|m| m.id).collect()
}

#[test]
fn end_to_end_single_match() {
    let corpus = vec![(
        "2020-21".to_string(),
        vec![list("Premier League 1", vec![mk("A", "B", 2020, 8, 10)])],
    )];
    let db = build(corpus).unwrap();
    let seasons = db.seasons();
    assert_eq!(seasons.len(), 1);
    assert_eq!(seasons[0].start_year, 2020);
    assert_eq!(seasons[0].end_year, Some(2021));
    let tours = db.tournaments();
    assert_eq!(tours.len(), 1);
    assert_eq!(tours[0].name, "Premier League");
    let teams = db.teams();
    assert_eq!(teams.len(), 2);
    assert_eq!(teams[0].name, "A");
    assert_eq!(teams[1].name, "B");
    let a = teams[0].id;
    let (total, ms) = db.team_matches_by_id(&a, &HomeAwayOption::Both).unwrap();
    assert_eq!(total, 1);
    assert_eq!(ms[0].team1, "A");
    assert_eq!(ms[0].team2, "B");
    assert_eq!(ms[0].score.full_time, Some(ScoreGoals(2, 1)));
    assert_eq!(ms[0].date, Date { year: 2020, month: 8, day: 10 });
    let (away_total, away) = db.team_matches_by_id(&a, &HomeAwayOption::Away).unwrap();
    assert_eq!(away_total, 0);
    assert!(away.is_empty());
}

#[test]
fn empty_corpus_has_no_data() {
    assert!(matches!(build(vec![]), Err(IMDBError::NoDataAvailable)));
}

#[test]
fn corpus_of_empty_and_malformed_directories_has_no_data() {
    let corpus = vec![
        ("abcd".to_string(), vec![list("Liga 1", vec![mk("A", "B", 2020, 1, 1)])]),
        ("2020".to_string(), vec![]),
        ("2021".to_string(), vec![list("Liga 1", vec![])]),
    ];
    assert!(matches!(build(corpus), Err(IMDBError::NoDataAvailable)));
}

#[test]
fn malformed_directory_is_skipped() {
    let corpus = vec![
        ("2015-1".to_string(), vec![list("Liga 1", vec![mk("A", "B", 2015, 1, 1)])]),
        ("2016".to_string(), vec![list("Liga 1", vec![mk("C", "D", 2016, 3, 1)])]),
    ];
    let db = build(corpus).unwrap();
    assert_eq!(db.seasons().len(), 1);
    assert_eq!(db.seasons()[0].start_year, 2016);
    let (total, ms) = db.all_matches().unwrap();
    assert_eq!(total, 1);
    assert_eq!(ms[0].team1, "C");
    assert_eq!(ms[0].season_id, 1);
}

#[test]
fn date_outside_its_season_fails_integrity() {
    let corpus = vec![(
        "2020-21".to_string(),
        vec![list("Liga 1", vec![mk("A", "B", 2022, 1, 1)])],
    )];
    assert!(matches!(build(corpus), Err(IMDBError::DataIntegrity)));
}

fn two_seasons() -> IMDB<ReadyState> {
    let corpus = vec![
        (
            "2019-20".to_string(),
            vec![
                list("Liga 1", vec![mk("A", "B", 2019, 9, 1), mk("C", "A", 2020, 2, 1)]),
                list("Cup 1", vec![mk("B", "C", 2020, 3, 1)]),
            ],
        ),
        (
            "2020-21".to_string(),
            vec![list("Liga 2", vec![mk("B", "A", 2020, 9, 1), mk("A", "C", 2021, 2, 1)])],
        ),
    ];
    build(corpus).unwrap()
}

#[test]
fn identifiers_are_dense_and_unique() {
    let db = two_seasons();
    let all = ids(db.all_matches());
    assert_eq!(all, vec![1, 2, 3, 4, 5]);
    for id in 1..=5usize {
        assert_eq!(db.match_by_id(&id).unwrap().id, id);
    }
    assert!(matches!(db.match_by_id(&0), Err(QueryError::NotFound)));
    assert!(matches!(db.match_by_id(&6), Err(QueryError::NotFound)));
}

#[test]
fn tournaments_are_interned_across_seasons() {
    let db = two_seasons();
    let tours = db.tournaments();
    assert_eq!(tours.len(), 2);
    assert_eq!(tours[0].id, 1);
    assert_eq!(tours[0].name, "Liga");
    assert_eq!(tours[1].name, "Cup");
    assert_eq!(db.tournament_by_id(&2).unwrap(), "Cup");
    assert!(matches!(db.tournament_by_id(&3), Err(QueryError::NotFound)));
    assert_eq!(ids(db.tournament_matches_by_id(&1)), vec![1, 2, 4, 5]);
    assert_eq!(ids(db.tournament_matches_by_season_id(&1, &2)), vec![4, 5]);
    assert_eq!(ids(db.tournament_matches_by_season_id(&2, &2)), Vec::<usize>::new());
}

#[test]
fn seasons_and_years_index_matches() {
    let db = two_seasons();
    assert_eq!(ids(db.season_matches_by_id(&1)), vec![1, 2, 3]);
    assert_eq!(ids(db.season_matches_by_id(&2)), vec![4, 5]);
    assert!(matches!(db.season_matches_by_id(&3), Err(QueryError::NotFound)));
    assert_eq!(ids(db.yearly_matches_by_year(&2019)), vec![1]);
    assert_eq!(ids(db.yearly_matches_by_year(&2020)), vec![2, 3, 4]);
    assert_eq!(ids(db.yearly_matches_by_year(&2021)), vec![5]);
    assert!(matches!(db.yearly_matches_by_year(&2018), Err(QueryError::NotFound)));
}

#[test]
fn year_ranges() {
    let db = two_seasons();
    assert_eq!(ids(db.yearly_matches_year_range(&2019, &2021)), vec![1, 2, 3, 4, 5]);
    assert_eq!(ids(db.yearly_matches_year_range(&2018, &2019)), vec![1]);
    assert!(matches!(db.yearly_matches_year_range(&2020, &2020), Err(QueryError::NotFound)));
    assert!(matches!(db.yearly_matches_year_range(&2021, &2019), Err(QueryError::NotFound)));
    assert!(matches!(db.yearly_matches_year_range(&2010, &2015), Err(QueryError::NotFound)));
    assert_eq!(ids(db.tournament_yearly_matches_year_range(&1, &2019, &2020)), vec![1, 2, 4]);
}

#[test]
fn team_queries_by_side() {
    let db = two_seasons();
    let a = 1usize;
    assert_eq!(db.teams()[0].name, "A");
    assert_eq!(ids(db.team_matches_by_id(&a, &HomeAwayOption::Both)), vec![1, 2, 4, 5]);
    assert_eq!(ids(db.team_matches_by_id(&a, &HomeAwayOption::Home)), vec![1, 5]);
    assert_eq!(ids(db.team_matches_by_id(&a, &HomeAwayOption::Away)), vec![2, 4]);
    assert_eq!(ids(db.team_matches_by_season_id(&a, &2, &HomeAwayOption::Both)), vec![4, 5]);
    assert_eq!(ids(db.team_matches_by_year(&a, &2020, &HomeAwayOption::Both)), vec![2, 4]);
    assert_eq!(ids(db.team_matches_year_range(&a, &2019, &2020, &HomeAwayOption::Both)), vec![1, 2, 4]);
    assert_eq!(ids(db.team_matches_by_tournament_id(&a, &2, &HomeAwayOption::Both)), Vec::<usize>::new());
    assert_eq!(ids(db.team_tournament_matches_by_year(&a, &1, &2021, &HomeAwayOption::Both)), vec![5]);
    assert!(matches!(
        db.team_tournament_matches_by_year(&a, &2, &2021, &HomeAwayOption::Both),
        Err(QueryError::NotFound)
    ));
    assert_eq!(
        ids(db.team_tournament_matches_by_year_range(&a, &1, &2020, &2021, &HomeAwayOption::Both)),
        vec![2, 4, 5]
    );
    assert!(matches!(db.team_matches_by_id(&9, &HomeAwayOption::Both), Err(QueryError::NotFound)));
}

#[test]
fn home_filter_of_an_all_away_season_is_empty() {
    let corpus = vec![
        ("2019".to_string(), vec![list("Liga 1", vec![mk("A", "B", 2019, 1, 1)])]),
        ("2020".to_string(), vec![list("Liga 1", vec![mk("B", "A", 2020, 1, 1)])]),
    ];
    let db = build(corpus).unwrap();
    let r = db.team_tournament_matches_by_season_id(&1, &1, &2, &HomeAwayOption::Home);
    let (total, ms) = r.unwrap();
    assert_eq!(total, 0);
    assert!(ms.is_empty());
    assert_eq!(ids(db.team_tournament_matches_by_season_id(&1, &1, &2, &HomeAwayOption::Away)), vec![2]);
}

#[test]
fn tournament_without_matches_in_a_known_year_is_empty() {
    let db = two_seasons();
    let (total, ms) = db.tournament_matches_by_year(&2, &2019).unwrap();
    assert_eq!(total, 0);
    assert!(ms.is_empty());
    assert!(matches!(db.tournament_matches_by_year(&2, &2030), Err(QueryError::NotFound)));
    assert!(matches!(db.tournament_matches_by_year(&7, &2019), Err(QueryError::NotFound)));
}

#[test]
fn tournament_name_drops_the_last_word() {
    assert_eq!(get_tournament_name("Premier League 1"), "Premier League");
    assert_eq!(get_tournament_name("Premier League Matchday 12"), "Premier League Matchday");
    assert_eq!(get_tournament_name("Single"), "");
    assert_eq!(get_tournament_name(""), "");
}

#[test]
fn score_from_raw() {
    let s = Score::from(ScoreRaw { ht: Some([1, 0]), ft: None });
    assert_eq!(s.half_time, Some(ScoreGoals(1, 0)));
    assert_eq!(s.full_time, None);
}

#[test]
fn integrity_totals_on_a_larger_corpus() {
    let db = two_seasons();
    let (total, _) = db.all_matches().unwrap();
    assert_eq!(total, 5);
    let teams = db.teams();
    let mut both = 0;
    let mut home = 0;
    for t in &teams {
        both += db.team_matches_by_id(&t.id, &HomeAwayOption::Both).map(|(n, _)| n).unwrap_or(0);
        home += db.team_matches_by_id(&t.id, &HomeAwayOption::Home).map(|(n, _)| n).unwrap_or(0);
    }
    assert_eq!(both, 10);
    assert_eq!(home, 5);
}

#[test]
fn home_filter_for_a_team_that_never_played_at_home_is_empty() {
    let corpus = vec![(
        "2020-21".to_string(),
        vec![list("Premier League 1", vec![mk("A", "B", 2020, 8, 10)])],
    )];
    let db = build(corpus).unwrap();
    let b = db.teams()[1].id;
    let (total, ms) = db.team_tournament_matches_by_season_id(&b, &1, &1, &HomeAwayOption::Home).unwrap();
    assert_eq!(total, 0);
    assert!(ms.is_empty());
    let (total, _) = db.team_matches_by_id(&b, &HomeAwayOption::Home).unwrap();
    assert_eq!(total, 0);
    assert!(matches!(
        db.team_tournament_matches_by_season_id(&b, &2, &1, &HomeAwayOption::Home),
        Err(QueryError::NotFound)
    ));
}

#[test]
fn tournament_reused_across_seasons_is_one_row() {
    let corpus = vec![
        ("2019-20".to_string(), vec![list("Premier League 1", vec![mk("A", "B", 2019, 8, 10)])]),
        ("2020-21".to_string(), vec![list("Premier League 2", vec![mk("A", "B", 2020, 8, 10)])]),
    ];
    let db = build(corpus).unwrap();
    let tours = db.tournaments();
    assert_eq!(tours.len(), 1);
    assert_eq!(tours[0].id, 1);
    assert_eq!(tours[0].name, "Premier League");
    assert_eq!(ids(db.tournament_matches_by_id(&1)), vec![1, 2]);
    assert!(matches!(db.tournament_matches_by_id(&2), Err(QueryError::NotFound)));
}

#[test]
fn team_table_holds_match_teams_in_first_appearance_order() {
    let db = two_seasons();
    let names: Vec<&str> = db.teams().iter().map(|t| t.name).collect();
    assert_eq!(names, vec!["A", "B", "C"]);
    let ids_listed: Vec<usize> = db.teams().iter().map(|t| t.id).collect();
    assert_eq!(ids_listed, vec![1, 2, 3]);
    for t in db.teams() {
        let (both, _) = db.team_matches_by_id(&t.id, &HomeAwayOption::Both).unwrap();
        let (home, _) = db.team_matches_by_id(&t.id, &HomeAwayOption::Home).unwrap();
        let (away, _) = db.team_matches_by_id(&t.id, &HomeAwayOption::Away).unwrap();
        assert_eq!(both, home + away);
    }
}

#[test]
fn every_match_is_found_under_its_season_tournament_and_teams() {
    let db = two_seasons();
    let teams = db.teams();
    let id_of = |name: &str| teams.iter().find(|t| t.name == name).unwrap().id;
    let (_, all) = db.all_matches().unwrap();
    for m in all {
        let count = |r: Result<(usize, Vec<&imdb::Match>), QueryError>| {
            r.unwrap().1.iter().filter(|x| x.id == m.id).count()
        };
        assert_eq!(count(db.season_matches_by_id(&m.season_id)), 1);
        assert_eq!(count(db.tournament_matches_by_id(&m.tournament_id)), 1);
        assert_eq!(count(db.team_matches_by_id(&id_of(&m.team1), &HomeAwayOption::Home)), 1);
        assert_eq!(count(db.team_matches_by_id(&id_of(&m.team2), &HomeAwayOption::Away)), 1);
    }
}
