//! The command-line surface as plain data: the options a scan is configured
//! from, and the timing/safety profiles with their suggested defaults.
//! Validation and assembly into a runnable configuration live in
//! [`crate::config`].

use std::path::PathBuf;

use vstd::prelude::*;

verus! {

/// `std::path::PathBuf`, carried through unchanged.
#[verifier::external_type_specification]
#[verifier::external_body]
pub struct ExPathBuf(PathBuf);

/// The options of one scan invocation.
#[derive(Debug)]
pub struct Cli {
    /// Targets: IP, CIDR (a.b.c.d/24), range (a.b.c.d-e.f.g.h or a.b.c.d-N), or hostname.
    pub targets: Vec<String>,
    /// Read additional targets from a file (one per line; blank lines and `#` comments ignored).
    pub target_file: Option<PathBuf>,
    /// Ports to scan: comma list and/or ranges, e.g. `22,80,443,8000-8100`.
    pub ports: Option<String>,
    /// Scan the top N most common TCP ports.
    pub top_ports: Option<usize>,
    /// Scan all TCP ports (1-65535).
    pub all_ports: bool,
    /// Maximum concurrent connection attempts.
    pub concurrency: Option<usize>,
    /// Per-connection timeout in milliseconds.
    pub timeout_ms: Option<u64>,
    /// Retries for ambiguous (timed-out) probes. Refused ports are never retried.
    pub retries: Option<u32>,
    /// Raise the file-descriptor soft limit toward this value before scanning.
    pub ulimit: Option<u64>,
    /// Timing/safety profile controlling concurrency, timeouts, and rate caps.
    pub profile: Profile,
    /// Global cap on connection attempts per second. Overrides the profile default.
    pub max_rate: Option<u32>,
    /// Authorized scope entries (CIDR/IP/hostname).
    pub scope: Vec<String>,
    /// Read authorized scope entries from a file (one per line; `#` comments ignored).
    pub scope_file: Option<PathBuf>,
    /// Acknowledge that you are authorized to scan the target scope.
    pub authorized: bool,
    /// Enable TCP-ping host discovery before scanning.
    pub ping: bool,
    /// Output format.
    pub format: Format,
    /// Write the report to a file instead of stdout.
    pub output: Option<PathBuf>,
    /// Disable the progress bar.
    pub no_progress: bool,
    /// Safety cap on how many hosts a target expansion may produce.
    pub max_targets: usize,
    /// Logging verbosity (-v = debug, -vv = trace).
    pub verbose: u8,
}

/// Timing/safety profiles, loosely mirroring nmap timing templates.
///
/// Explicit flags (`--concurrency`, `--timeout`, `--retries`, `--max-rate`)
/// always override the profile's suggested value.
#[derive(Debug, Clone, Copy, PartialEq, Eq, Structural)]
pub enum Profile {
    /// Extremely gentle: tiny concurrency, long timeouts, hard rate cap.
    Paranoid,
    /// Gentle: modest concurrency, generous timeouts, moderate rate cap.
    Polite,
    /// Balanced default: fd-derived concurrency, no rate cap.
    Normal,
    /// Fast: maximum fd-derived concurrency, short timeouts, no retries.
    Aggressive,
}

/// Report output format.
#[derive(Debug, Clone, Copy, PartialEq, Eq, Structural)]
pub enum Format {
    /// Human-readable summary table.
    Human,
    /// Structured JSON (the machine-readable source of truth).
    Json,
}

impl Profile {
    pub open spec fn spec_timeout_ms(self) -> u64 {
        match self {
            Profile::Paranoid => 3000,
            Profile::Polite => 2000,
            Profile::Normal => 1500,
            Profile::Aggressive => 800,
        }
    }

    pub open spec fn spec_retries(self) -> u32 {
        match self {
            Profile::Paranoid => 2,
            Profile::Polite => 1,
            Profile::Normal => 1,
            Profile::Aggressive => 0,
        }
    }

    pub open spec fn spec_concurrency_cap(self) -> Option<usize> {
        match self {
            Profile::Paranoid => Some(8),
            Profile::Polite => Some(128),
            Profile::Normal | Profile::Aggressive => None,
        }
    }

    pub open spec fn spec_as_str(self) -> Seq<char> {
        match self {
            Profile::Paranoid => "paranoid"@,
            Profile::Polite => "polite"@,
            Profile::Normal => "normal"@,
            Profile::Aggressive => "aggressive"@,
        }
    }

    pub open spec fn spec_max_rate(self) -> Option<u32> {
        match self {
            Profile::Paranoid => Some(10),
            Profile::Polite => Some(200),
            Profile::Normal | Profile::Aggressive => None,
        }
    }

    /// Human-readable name used in reports and logs.
    pub fn as_str(self) -> (r: &'static str)
        ensures
            r@ == self.spec_as_str(),
    {
        match self {
            Profile::Paranoid => "paranoid",
            Profile::Polite => "polite",
            Profile::Normal => "normal",
            Profile::Aggressive => "aggressive",
        }
    }

    /// Suggested per-connection timeout (ms) when the user does not set `--timeout`.
    pub fn default_timeout_ms(self) -> (r: u64)
        ensures
            r == self.spec_timeout_ms(),
    {
        match self {
            Profile::Paranoid => 3000,
            Profile::Polite => 2000,
            Profile::Normal => 1500,
            Profile::Aggressive => 800,
        }
    }

    /// Suggested retry count when the user does not set `--retries`.
    pub fn default_retries(self) -> (r: u32)
        ensures
            r == self.spec_retries(),
    {
        match self {
            Profile::Paranoid => 2,
            Profile::Polite => 1,
            Profile::Normal => 1,
            Profile::Aggressive => 0,
        }
    }

    /// A hard cap on concurrency for gentle profiles, regardless of fd budget.
    /// `None` means "use the fd-derived budget".
    pub fn concurrency_cap(self) -> (r: Option<usize>)
        ensures
            r == self.spec_concurrency_cap(),
    {
        match self {
            Profile::Paranoid => Some(8),
            Profile::Polite => Some(128),
            Profile::Normal | Profile::Aggressive => None,
        }
    }

    /// Suggested global rate cap (probes/sec) when the user does not set `--max-rate`.
    pub fn default_max_rate(self) -> (r: Option<u32>)
        ensures
            r == self.spec_max_rate(),
    {
        match self {
            Profile::Paranoid => Some(10),
            Profile::Polite => Some(200),
            Profile::Normal | Profile::Aggressive => None,
        }
    }
}

/// Gentler profiles never suggest a shorter timeout, more concurrency, or a
/// higher rate than the profiles after them in the order
/// paranoid, polite, normal, aggressive.
pub proof fn lemma_profiles_ordered_by_gentleness()
    ensures
        Profile::Paranoid.spec_timeout_ms() >= Profile::Polite.spec_timeout_ms()
            >= Profile::Normal.spec_timeout_ms() >= Profile::Aggressive.spec_timeout_ms(),
        Profile::Paranoid.spec_retries() >= Profile::Polite.spec_retries()
            >= Profile::Normal.spec_retries() >= Profile::Aggressive.spec_retries(),
        Profile::Paranoid.spec_concurrency_cap()->Some_0 <= Profile::Polite.spec_concurrency_cap()->Some_0,
        Profile::Paranoid.spec_max_rate()->Some_0 <= Profile::Polite.spec_max_rate()->Some_0,
        Profile::Normal.spec_max_rate() is None && Profile::Aggressive.spec_max_rate() is None,
{
}

} // verus!
