//! The foreground-facing checker: a state machine around a one-shot,
//! time-bounded channel between a background probe and a later report call.
//!
//! `new` builds an idle checker; the host arms it with the receiving end of
//! a channel whose sending end a background task fills with at most one
//! result. A report call waits up to a bound for that result: an arriving
//! update prints the advisory and consumes the channel; an arriving
//! "no update" consumes it silently; a timeout leaves the checker exactly
//! as it was, so a later report can still observe the result.

use vstd::prelude::*;

use std::io::Write;
use std::sync::mpsc::Receiver;

verus! {

/// The receiving end of a one-shot channel, carried opaquely.
#[verifier::external_type_specification]
#[verifier::external_body]
#[verifier::reject_recursive_types(T)]
pub struct ExReceiver<T>(Receiver<T>);

/// Checks in the background whether a newer version of a tool exists, and
/// reports it without ever blocking the foreground.
pub struct VersionChecker {
    tool_name: String,
    current_version: String,
    receiver: Option<Receiver<Option<String>>>,
}

impl VersionChecker {
    /// The tool this checker watches.
    pub closed spec fn tool_name(&self) -> Seq<char> {
        self.tool_name@
    }

    /// The version the tool is running.
    pub closed spec fn current_version(&self) -> Seq<char> {
        self.current_version@
    }

    /// A background check is outstanding: the checker holds the receiving
    /// end of a channel that has not been consumed.
    pub closed spec fn armed(&self) -> bool {
        self.receiver is Some
    }

    /// An idle checker: no background check outstanding.
    pub fn new(tool_name: &str, current_version: &str) -> (r: VersionChecker)
        ensures
            r.tool_name() == tool_name@,
            r.current_version() == current_version@,
            !r.armed(),
    {
        VersionChecker {
            tool_name: tool_name.to_owned(),
            current_version: current_version.to_owned(),
            receiver: None,
        }
    }

    /// Install the receiving end of a fresh check's channel. A previously
    /// outstanding channel is replaced: its background task runs on
    /// harmlessly and its result is discarded.
    pub fn arm(&mut self, receiver: Receiver<Option<String>>)
        ensures
            final(self).armed(),
            final(self).tool_name() == old(self).tool_name(),
            final(self).current_version() == old(self).current_version(),
    {
        self.receiver = Some(receiver);
    }

    /// Wait up to `timeout_ms` for the outstanding check's result. An
    /// unarmed checker answers immediately with nothing. A result that
    /// arrives — an update or "no update" — consumes the channel, so the
    /// next call answers nothing: a result is delivered at most once. On a
    /// timeout the checker is left exactly as it was and the result, if one
    /// is still to come, is not lost.
    pub fn recv_update(&mut self, timeout_ms: u64) -> (r: Option<String>)
        ensures
            !old(self).armed() ==> r is None && *final(self) == *old(self),
            r is Some ==> !final(self).armed(),
            final(self).armed() ==> *final(self) == *old(self),
            final(self).tool_name() == old(self).tool_name(),
            final(self).current_version() == old(self).current_version(),
    {
        match &self.receiver {
            None => None,
            Some(receiver) => {
                match recv_with_timeout(receiver, timeout_ms) {
                    Some(result) => {
                        self.receiver = None;
                        result
                    },
                    None => None,
                }
            },
        }
    }

    /// Report with the short wait meant for a tool's normal, fast exit
    /// path: if an update arrived in time, print the advisory.
    pub fn print_warning(&mut self)
        ensures
            !old(self).armed() ==> *final(self) == *old(self),
            final(self).armed() ==> *final(self) == *old(self),
            final(self).tool_name() == old(self).tool_name(),
            final(self).current_version() == old(self).current_version(),
    {
        let update = self.recv_update(500);
        if let Some(latest_version) = update {
            self.print_update_message(latest_version.as_str());
        }
    }

    /// Report with the long wait meant for callers willing to wait for a
    /// definitive answer.
    pub fn print_warning_sync(&mut self)
        ensures
            !old(self).armed() ==> *final(self) == *old(self),
            final(self).armed() ==> *final(self) == *old(self),
            final(self).tool_name() == old(self).tool_name(),
            final(self).current_version() == old(self).current_version(),
    {
        let update = self.recv_update(6000);
        if let Some(latest_version) = update {
            self.print_update_message(latest_version.as_str());
        }
    }

    /// Relies on std's `writeln` to the standard error stream for the two
    /// advisory lines; output formatting carries no promise.
    #[verifier::external_body]
    fn print_update_message(&self, latest_version: &str) {
        let _ = writeln!(
            std::io::stderr(),
            "Note: A newer version of {} is available (current: {}, latest: {})",
            self.tool_name, self.current_version, latest_version,
        );
        let _ = writeln!(std::io::stderr(), "      Run: cargo binstall {}", self.tool_name);
    }
}

/// Relies on std's `Receiver::recv_timeout`: a value the sender sent, within
/// the bound, or nothing on timeout or a disconnected sender. When and
/// whether a value arrives depends on scheduling, so nothing is promised of
/// the outcome.
#[verifier::external_body]
fn recv_with_timeout(
    receiver: &Receiver<Option<String>>,
    timeout_ms: u64,
) -> Option<Option<String>> {
    match receiver.recv_timeout(std::time::Duration::from_millis(timeout_ms)) {
        Ok(result) => Some(result),
        Err(_) => None,
    }
}

} // verus!
