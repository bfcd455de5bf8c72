//! Server settings and what the server derives from them: worker thread
//! counts and the log rotation rule.
use vstd::prelude::*;

use crate::config_types::is_literal;
use crate::text::{chars_of, int_literal, parse_int_in, trim, trim_chars};

verus! {

/// `num_cpus::get_physical`: the number of physical cores of this machine,
/// which its documentation promises is at least 1. Nothing else is stated.
#[verifier::external_body]
fn physical_cores() -> (n: usize)
    ensures
        n >= 1,
{
    num_cpus::get_physical()
}

/// The server's command-line settings.
pub struct ServerConfig {
    pub model_repository: String,
    /// `none`, or `poll` to rescan the repository periodically.
    pub model_control_mode: String,
    pub repository_poll_secs: u64,
    pub http_port: u16,
    pub grpc_port: u16,
    pub metrics_port: u16,
    pub inference_timeout_ms: u64,
    /// Inference worker threads; 0 picks the number of physical cores.
    pub num_threads: usize,
    pub concurrency_per_model: u32,
    pub log_level: String,
    pub log_dir: String,
    /// How log files roll over, such as `7d` (see `rotation_of`).
    pub log_rotation: String,
}

impl ServerConfig {
    /// Whether the repository is rescanned periodically (mode `poll`).
    pub fn polls_repository(&self) -> (r: bool)
        ensures
            r == (self.model_control_mode@ == "poll"@),
    {
        let m = chars_of(self.model_control_mode.as_str());
        is_literal(m.as_slice(), "poll")
    }

    /// The number of inference worker threads: the configured number, or the
    /// number of physical cores when it is 0.
    pub fn inference_threads(&self) -> (n: usize)
        ensures
            self.num_threads > 0 ==> n == self.num_threads,
            n >= 1,
    {
        if self.num_threads > 0 {
            self.num_threads
        } else {
            physical_cores()
        }
    }
}

/// Half the inference threads, kept within 2..=8.
pub open spec fn runtime_threads_for(inference_threads: int) -> int {
    let h = inference_threads / 2;
    if h < 2 {
        2
    } else if h > 8 {
        8
    } else {
        h
    }
}

/// The number of threads of the asynchronous runtime for a given number of
/// inference threads: half of them, at least 2 and at most 8.
pub fn runtime_threads(inference_threads: usize) -> (n: usize)
    ensures
        n == runtime_threads_for(inference_threads as int),
{
    let h = inference_threads / 2;
    if h < 2 {
        2
    } else if h > 8 {
        8
    } else {
        h
    }
}

/// How often log files roll over.
#[derive(Debug, Clone, Copy, PartialEq, Eq, Structural)]
pub enum LogRotation {
    Hourly,
    Daily,
}

/// `s.parse::<usize>()`, as an `Option`: no sign but an optional `+`.
pub open spec fn parse_usize(s: Seq<char>) -> Option<usize> {
    if s.len() > 0 && s[0] == '-' {
        None
    } else {
        match int_literal(s) {
            Some(v) => if 0 <= v <= usize::MAX {
                Some(v as usize)
            } else {
                None
            },
            None => None,
        }
    }
}

/// The rule a rotation setting such as `7d` or `24h` stands for: the number
/// of files to keep (7 when it does not read as a number) and the period
/// (hourly for `h`, daily otherwise).
pub open spec fn rotation_of(s: Seq<char>) -> (LogRotation, usize) {
    let t = trim(s);
    let num = if t.len() > 0 {
        t.drop_last()
    } else {
        t
    };
    let count = match parse_usize(num) {
        Some(n) => n,
        None => 7,
    };
    let unit_hourly = t.len() > 0 && t.last() == 'h';
    (
        if unit_hourly {
            LogRotation::Hourly
        } else {
            LogRotation::Daily
        },
        count,
    )
}

/// Reads a rotation setting (see `rotation_of`). The setting is split one
/// byte before its end, so its last character must be ASCII.
pub fn parse_rotation(s: &str) -> (r: (LogRotation, usize))
    requires
        trim(s@).len() > 0 ==> (trim(s@).last() as u32) < 0x80,
    ensures
        r == rotation_of(s@),
{
    let cs = chars_of(s);
    let t = trim_chars(cs.as_slice());
    if t.len() == 0 {
        return (LogRotation::Daily, 7);
    }
    let last = t[t.len() - 1];
    let num = crate::text::copy_range(t.as_slice(), 0, t.len() - 1);
    assert(num@ =~= t@.drop_last());
    let count: usize = if num.len() > 0 && num[0] == '-' {
        7
    } else {
        match parse_int_in(num.as_slice(), 0, usize::MAX as i128) {
            Some(n) => n as usize,
            None => 7,
        }
    };
    let rot = if last == 'h' {
        LogRotation::Hourly
    } else {
        LogRotation::Daily
    };
    (rot, count)
}

} // verus!
