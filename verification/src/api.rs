//! The value types of the application's requests, held as plain data.
//! The surrounding application parses and serializes them; nothing
//! here performs I/O.

use vstd::prelude::*;

use crate::course::ThinCourse;

verus! {

/// One step of the generator: an optional opaque position and an
/// optional flag asking for the previous schedule instead of the next.
#[derive(Debug)]
pub struct GenerationState {
    pub state: Option<String>,
    pub prev: Option<bool>,
}

/// A request to overwrite a stored schedule with an encoded one.
#[derive(Debug)]
pub struct Overwrite {
    pub schedule: String,
}

/// The registration number whose section a preview should show; zero
/// stands in when none was given.
pub fn default_crn() -> (r: u64)
    ensures
        r == 0,
{
    0
}

/// A preview request: the section to show alongside the selection.
#[derive(Clone, Copy, PartialEq, Eq, Structural, Debug)]
pub struct Preview {
    pub crn: u64,
}

/// A request to add one course to the calendar.
#[derive(Debug)]
pub struct Add {
    pub course: ThinCourse,
}

/// A request to remove one course from the calendar.
#[derive(Debug)]
pub struct Remove {
    pub course: ThinCourse,
}

/// The chosen sections of one course slot in a calendar update.
#[derive(Debug)]
pub struct SectionQuery {
    pub course: ThinCourse,
    pub crns: Vec<u64>,
}

/// A request to swap the chosen section of one course slot.
#[derive(Clone, Copy, PartialEq, Eq, Structural, Debug)]
pub struct Update {
    pub crn: u64,
}

/// The parameters of an import link.
#[derive(Debug)]
pub struct Params {
    pub blob: String,
}

/// The payload of a Google sign-in callback.
#[derive(Debug)]
pub struct GoogleLoginRequest {
    pub g_csrf_token: String,
    pub credential: String,
}

/// The payload of a Discord sign-in callback.
#[derive(Debug)]
pub struct DiscordCallback {
    pub code: String,
}

/// A request to create a schedule under a name for a term.
#[derive(Debug)]
pub struct Create {
    pub term: String,
    pub name: String,
}

/// A course search query.
#[derive(Debug)]
pub struct Search {
    pub search: String,
}

} // verus!
