//! An immutable, indexed in-memory store of football match results,
//! built once from a corpus of per-season match lists and then queried
//! by season, year, tournament, team and home/away role.

pub mod data_types;
pub mod db_api;
pub mod env;
pub mod imdb;
pub mod index;
pub mod interner;
pub mod json_fetcher;
pub mod model;
pub mod query_types;
pub mod season;

pub use data_types::{Date, Match, MatchList, Score, ScoreGoals, ScoreRaw, Season, Team, Time, Tournament};
pub use db_api::QueryError;
pub use imdb::{fits_in_memory, get_tournament_name, IMDBError, InitState, ReadyState, IMDB};
pub use query_types::{paginate_matches, HomeAwayOption, PagPerPage, QueryParams};
pub use season::{parse_season_name, validate_subdir_name};
