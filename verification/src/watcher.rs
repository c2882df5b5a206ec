//! Hot reload decisions: debouncing file events and reporting reload
//! failures.
use vstd::prelude::*;
use crate::error::{ConfigError, ConfigErrorView};

verus! {

/// What the watcher's worker observed while waiting one debounce window.
pub enum WatchEvent {
    /// The platform reported a change to these paths.
    Changed(Vec<String>),
    /// The platform reported a watch-level error.
    WatchError,
    /// Nothing arrived within the debounce window.
    Timeout,
    /// The event channel closed.
    Disconnected,
}

/// What the worker does next.
#[derive(Debug, Clone, Copy, PartialEq, Eq, Structural)]
pub enum WatchAction {
    /// Keep waiting.
    Wait,
    /// Re-read the watched file and hand the value to the callback.
    Reload,
    /// Stop working.
    Exit,
}

/// What `Path`'s `==` gives for two paths: they have the same components.
pub uninterp spec fn paths_equal(a: Seq<char>, b: Seq<char>) -> bool;

/// Whether `a` and `b` name the same path, by `std::path::Path`'s `==`.
#[verifier::external_body]
pub fn same_path(a: &str, b: &str) -> (r: bool)
    ensures
        r == paths_equal(a@, b@),
{
    std::path::Path::new(a) == std::path::Path::new(b)
}

/// Some path of `paths` names `watched`.
pub open spec fn touches(paths: Seq<String>, watched: Seq<char>) -> bool {
    exists|i: int| 0 <= i < paths.len() && paths_equal(#[trigger] paths[i]@, watched)
}

/// The next pending flag and action after `event`: a change to the watched
/// file or a watch-level error schedules a re-parse, which happens once a
/// whole debounce window passes quietly.
pub open spec fn watch_step(pending: bool, event: WatchEvent, watched: Seq<char>) -> (bool, WatchAction) {
    match event {
        WatchEvent::Changed(paths) => (pending || touches(paths@, watched), WatchAction::Wait),
        WatchEvent::WatchError => (true, WatchAction::Wait),
        WatchEvent::Timeout => if pending {
            (false, WatchAction::Reload)
        } else {
            (false, WatchAction::Wait)
        },
        WatchEvent::Disconnected => (pending, WatchAction::Exit),
    }
}

/// The debounce state of a watcher's worker.
pub struct Debounce {
    /// A change has been seen since the last re-parse.
    pub pending: bool,
}

impl Debounce {
    /// Nothing pending.
    pub fn new() -> (r: Debounce)
        ensures
            !r.pending,
    {
        Debounce { pending: false }
    }

    /// Takes one observed event and says what to do next.
    pub fn on_event(&mut self, event: WatchEvent, watched: &String) -> (r: WatchAction)
        ensures
            (final(self).pending, r) == watch_step(old(self).pending, event, watched@),
            (event matches WatchEvent::Changed(paths) && exists|i: int|
                0 <= i < paths@.len() && paths_equal(#[trigger] paths@[i]@, watched@)) ==> final(self).pending,
            old(self).pending && event is Changed ==> final(self).pending,
            event is Changed ==> r == WatchAction::Wait,
    {
        match event {
            WatchEvent::Changed(paths) => {
                let n = paths.len();
                let mut i: usize = 0;
                let mut hit = false;
                while i < n
                    invariant
                        n == paths@.len(),
                        0 <= i <= n,
                        hit == exists|j: int| 0 <= j < i && paths_equal(#[trigger] paths@[j]@, watched@),
                    decreases n - i,
                {
                    if same_path(paths[i].as_str(), watched.as_str()) {
                        hit = true;
                    }
                    i = i + 1;
                }
                if hit {
                    self.pending = true;
                }
                WatchAction::Wait
            },
            WatchEvent::WatchError => {
                self.pending = true;
                WatchAction::Wait
            },
            WatchEvent::Timeout => {
                if self.pending {
                    self.pending = false;
                    WatchAction::Reload
                } else {
                    WatchAction::Wait
                }
            },
            WatchEvent::Disconnected => WatchAction::Exit,
        }
    }
}

/// A reload happens only when a debounce window passes quietly after a
/// change was seen, and it clears the pending change.
pub proof fn reload_only_after_quiet_window(pending: bool, event: WatchEvent, watched: Seq<char>)
    ensures
        watch_step(pending, event, watched).1 == WatchAction::Reload ==> pending && event is Timeout
            && !watch_step(pending, event, watched).0,
        pending && event is Timeout ==> watch_step(pending, event, watched).1 == WatchAction::Reload,
{
}

/// A change to the watched file leaves a change pending, whatever was
/// pending before, and no change event clears a pending change: so
/// several events from one save still end in one re-parse once the
/// window passes quietly.
pub proof fn change_to_watched_file_stays_pending(pending: bool, paths: Vec<String>, watched: Seq<char>, i: int)
    requires
        0 <= i < paths@.len(),
        paths_equal(paths@[i]@, watched),
    ensures
        watch_step(pending, WatchEvent::Changed(paths), watched).0,
        watch_step(pending, WatchEvent::Changed(paths), watched).1 == WatchAction::Wait,
        watch_step(watch_step(pending, WatchEvent::Changed(paths), watched).0, WatchEvent::Timeout, watched).1
            == WatchAction::Reload,
{
}

/// A change event never clears a pending change.
pub proof fn change_events_keep_a_pending_change(paths: Vec<String>, watched: Seq<char>)
    ensures
        watch_step(true, WatchEvent::Changed(paths), watched).0,
{
}

/// The outcome of a reload, given what deserializing the re-read value
/// gave: the value, or a [`ConfigError::Parse`] naming the watched file.
pub fn reload_result<T>(watched: &String, outcome: Result<T, String>) -> (r: Result<T, ConfigError>)
    ensures
        match outcome {
            Ok(t) => r == Ok::<T, ConfigError>(t),
            Err(m) => r matches Err(e) && e@ == ConfigErrorView::Parse { path: watched@, message: m@ },
        },
{
    match outcome {
        Ok(t) => Ok(t),
        Err(message) => Err(ConfigError::Parse { path: watched.clone(), message }),
    }
}

} // verus!
