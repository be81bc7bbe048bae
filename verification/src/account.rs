//! Users, sessions, and the identities that sign in.

use vstd::prelude::*;

use crate::selection::ScheduleWithId;

verus! {

/// Which identity provider vouched for a session.
#[derive(Clone, Copy, PartialEq, Eq, Structural, Debug)]
pub enum Authority {
    DISCORD,
    GOOGLE,
}

/// The anti-forgery token double-submitted during Google sign-in.
#[derive(Debug)]
pub struct GoogleCsrfCookie {
    pub value: String,
}

/// The Discord account a sign-in resolved to.
#[derive(Debug)]
pub struct DiscordUser {
    pub id: String,
    pub username: String,
}

/// One signed-in session.
#[derive(Debug)]
pub struct Session {
    pub user_id: String,
    pub username: String,
    pub authority: Authority,
    pub session_id: String,
}

/// A user as the store sees them: the schedules they hold.
#[derive(Debug)]
pub struct User {
    pub schedules: Vec<ScheduleWithId>,
}

} // verus!
