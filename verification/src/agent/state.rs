//! Agent state persisted across restarts.

use vstd::prelude::*;

verus! {

/// What survives a restart.
#[derive(Debug, Clone, PartialEq)]
pub struct PersistedState {
    pub seen_ips: Vec<String>,
    pub journal_cursor_ms: i64,
    pub last_cert_scan: i64,
    pub known_exes: Vec<String>,
}

impl Default for PersistedState {
    fn default() -> (r: Self)
        ensures
            r.seen_ips@.len() == 0,
            r.journal_cursor_ms == 0,
            r.last_cert_scan == 0,
            r.known_exes@.len() == 0,
    {
        PersistedState {
            seen_ips: Vec::new(),
            journal_cursor_ms: 0,
            last_cert_scan: 0,
            known_exes: Vec::new(),
        }
    }
}

impl PersistedState {
    /// The state that was saved, or the default when none could be read.
    pub fn loaded(saved: Option<PersistedState>) -> (r: Self)
        ensures
            match saved {
                Some(s) => r == s,
                None => r.seen_ips@.len() == 0 && r.journal_cursor_ms == 0 && r.last_cert_scan == 0
                    && r.known_exes@.len() == 0,
            },
    {
        match saved {
            Some(s) => s,
            None => PersistedState::default(),
        }
    }
}

} // verus!
