//! Scrim's engine: what gets covered in a movie, when, and how.
//!
//! The governing rule of the whole project lives here: **an uncovered frame
//! must never reach the screen or a cast device.** Where this code has to
//! choose, it over-covers. A bigger black box is a cosmetic complaint; a
//! missed frame is the one bug that matters.
//!
//! From a movie to the screen:
//!
//!   * [`probe`] reads what a movie is like, [`nudenet`] what the model sees in
//!     a frame, and [`scanner`] and [`scan`] turn that into a [`plan`];
//!   * [`window`], [`merging`], [`spans`] and [`coverage`] turn a plan into what
//!     to cover, and [`graph`] into the filtergraph that covers it;
//!   * [`mpv`] drives the player, [`fence`] keeps it behind a running scan, and
//!     [`cast`], [`devices`] and [`playback`] send a movie elsewhere;
//!   * [`paths`], [`store`] and [`stage`] are the rest of the application.
//!
//! The modules whose names end in `laws` hold what is proved of the others.
//! Times are whole milliseconds throughout, fractions whole thousandths.

pub mod args;
pub mod cast;
pub mod cast_laws;
pub mod cover_laws;
pub mod coverage;
pub mod coverage_laws;
pub mod detect_laws;
pub mod devices;
pub mod fence;
pub mod filter_laws;
pub mod graph;
pub mod graph_laws;
pub mod joining_laws;
pub mod json;
pub mod merging;
pub mod merging_laws;
pub mod mpv;
pub mod mpv_laws;
pub mod nudenet;
pub mod nudenet_laws;
pub mod numbers;
pub mod paths;
pub mod plan;
pub mod playback;
pub mod player_laws;
pub mod probe;
pub mod probe_laws;
pub mod reading;
pub mod reading_laws;
pub mod scan;
pub mod scan_laws;
pub mod scanner;
pub mod scanner_laws;
pub mod screen_laws;
pub mod spans;
pub mod spelling_laws;
pub mod stage;
pub mod store;
pub mod store_laws;
pub mod text;
pub mod text_laws;
pub mod window;
pub mod window_laws;

pub use coverage::Coverage;
pub use graph::{build_graph, CensorStyle};
pub use plan::{DetBox, Detection, Detector, Plan, PlanError, Source};
pub use plan::{MIN_SCHEMA_VERSION, SCHEMA_VERSION};
pub use spans::merge_overlaps;
pub use window::{build_windows, CensorWindow, Reason, WindowParams};
