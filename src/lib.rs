//! Tournament deck analysis: recency-weighted card tallies and multi-card deck search over a
//! corpus of tournament records.
pub mod date;
pub mod faces;
pub mod record;
pub mod search;
pub mod tally;
pub mod text;

pub use date::{
    days_since_epoch, epoch_day, extract_date_from_path, file_date_of_path, path_age_days,
    path_within_age,
};
pub use faces::{
    build_back_face_index, cache_state, expand_back_faces, find_oracle_entry, first_cache_step,
    step_after_refresh, BackFaceIndex, BulkEntry, CacheState, CacheStep, CardFaces,
};
pub use record::{format_matches, parse_format_patterns, record_matches, Card, Deck, DecklistFile, Tournament};
pub use search::{
    deck_matches_criteria, finish_search, parse_card_criterion, search_file_for_decks,
    CardCriterion, CardMatchInfo, DeckMatch,
};
pub use tally::{process_file, tally_record, AgedTally, CardTally, FileTally};
