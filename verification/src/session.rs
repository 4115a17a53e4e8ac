//! Chat-session bookkeeping around the assistant: a session holds the
//! suggestions of its latest request; the interface state holds the
//! sessions.

use vstd::prelude::*;

use crate::suggestion::Suggestion;

verus! {

/// One chat session: its creation time (milliseconds since the epoch),
/// its title, and the suggestions of its latest request. A session is
/// identified by its creation time alone: equality compares nothing else.
#[derive(Debug)]
pub struct Session {
    pub date_created: i64,
    pub title: String,
    pub suggestions: Vec<Suggestion>,
}

impl PartialEq for Session {
    /// Sessions are equal exactly when they were created at the same time.
    fn eq(&self, other: &Session) -> (r: bool) {
        self.date_created == other.date_created
    }
}

impl vstd::std_specs::cmp::PartialEqSpecImpl for Session {
    open spec fn obeys_eq_spec() -> bool {
        true
    }

    open spec fn eq_spec(&self, other: &Session) -> bool {
        self.date_created == other.date_created
    }
}

/// The top-level state of the assistant's interface: the prompt being
/// typed, the sessions, and the interface flags.
#[derive(Debug)]
pub struct State {
    pub prompt_text: String,
    pub sessions: Vec<Session>,
    pub is_sidebar_visible: bool,
    pub answering: bool,
}

impl Default for State {
    /// A fresh state: no prompt, no sessions, the sidebar visible, no
    /// answer in flight.
    fn default() -> (r: State)
        ensures
            r.prompt_text@ == Seq::<char>::empty(),
            r.sessions@ == Seq::<Session>::empty(),
            r.is_sidebar_visible == true,
            r.answering == false,
    {
        State {
            prompt_text: String::new(),
            sessions: Vec::new(),
            is_sidebar_visible: true,
            answering: false,
        }
    }
}

} // verus!
