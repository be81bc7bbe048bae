//! A verified course-schedule enumerator.
//!
//! Given the sections of a set of selected courses, partitioned into groups
//! of interchangeable alternatives, the library enumerates combinations of
//! one section per group whose meeting times are pairwise conflict-free.
//! Enumeration is lazy, resumable from an externally supplied position, and
//! runs forward or backward in a fixed lexicographic order.

pub mod account;
pub mod api;
pub mod conflict;
pub mod course;
pub mod cursor;
pub mod engine;
pub mod grouping;
pub mod laws;
pub mod raw;
pub mod schedule;
pub mod selection;
pub mod time;

pub use course::Course;
pub use course::MeetingTime;
pub use course::Section;
pub use course::SectionType;
pub use course::ThinCourse;
pub use course::ThinSection;
pub use schedule::next_schedule;
pub use selection::SelectedCourses;
pub use selection::Selection;
pub use time::Date;
pub use time::Day;
pub use time::Days;
pub use time::TimeOfDay;
