//! Core of a travel-itinerary assistant: given a catalog of typed places
//! (museums, historical sites, restaurants) with tag sets and coordinates,
//! and a structured interpretation of a user request (a list of requested
//! place types with relevant tags), deterministically select, score and
//! order one place per requested type into a day-plan itinerary.
//!
//! All coordinates are held in fixed-point microdegrees and all ranking
//! arithmetic is exact integer arithmetic, so the pipeline is deterministic
//! and fully specified by the contracts in this crate.

pub mod chat;
pub mod combine;
pub mod distance;
pub mod model;
pub mod pipeline;
pub mod rank;
pub mod scoring;
pub mod session;
pub mod suggestion;

pub use model::{
    NeshanDataModel, Place, PlaceInfo, PlaceScoring, PlaceType, PromptAnalyses, SuggestError,
};
pub use pipeline::suggest;
pub use session::{Session, State};
pub use suggestion::Suggestion;
