//! Section-style testing: one test body is run repeatedly, once for every
//! combination of the nested branch points ("sections") found inside it.
//!
//! The exploration state is an explicit [`Runner`] value. A driver calls
//! [`enable_sections_start`] once, then [`enable_sections_step`] before each
//! pass; the body asks [`enter_section`] whether a branch point runs on this
//! pass; and a [`DropHandler`] closes each pass, queueing the combinations
//! found by a pass that completed or reporting the active sections of one that
//! aborted.

pub mod section;
pub mod report;
pub mod runner;
pub mod laws;

pub use section::{Entry, Path, Section};

pub use runner::{
    enable_sections_start, enable_sections_step, enter_section, failure_sections, is_running,
    DropHandler, Runner,
};
pub use report::{failure_report, report_line};
