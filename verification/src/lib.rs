//! Matching of SIRI estimated timetables against a GTFS schedule.

pub mod text;
pub mod table;
pub mod order;
pub mod permutations;
pub mod clock;
pub mod gtfs;
pub mod siri_models;
pub mod lists;
pub mod stops;
pub mod alignment;
pub mod matching_diagnostics;
pub mod scoring;
pub mod directions;
pub mod services;
pub mod matching;
pub mod matching_laws;
pub mod adaptive_matching;
pub mod adaptive_laws;
pub mod keys;
pub mod state;
pub mod feed;
pub mod processor;
pub mod enhanced_processor;
pub mod text_laws;
pub mod time_laws;
pub mod feed_laws;
pub mod recovery_laws;
pub mod tolerant_laws;
pub mod seat_laws;
pub mod strict_laws;
pub mod named_laws;
pub mod schedule_laws;
pub mod diagnosis_laws;
pub mod report_laws;
pub mod gtfs_manager;
pub mod survey;
