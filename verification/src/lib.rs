//! A verified team-building engine.
//!
//! A roster of people, each with a row of numeric skill ratings, is scored
//! (each person's ratings are reduced to their arithmetic mean), ranked
//! ascending by a chosen criterion with a stable sort, and then dealt out
//! into teams with a serpentine (snake-draft) sweep, so that the strongest
//! remaining people alternate across teams instead of piling up in one.

pub mod builder;
pub mod distribute;
pub mod html_exporter;
pub mod ingest;
pub mod parse;
pub mod roster;
pub mod sort;
pub mod spreadsheet_exporter;

pub use builder::TeamBuilder;
pub use html_exporter::generate_html;
pub use ingest::ProcessError;
pub use roster::Person;
pub use roster::SkillAverage;
pub use roster::Team;
