//! Health-check descriptors and the decisions their probes rest on.
//!
//! Each configured check fires on a fixed interval (after a random initial
//! delay that de-synchronizes the workers) and runs one of three probes:
//! free disk space, process presence, or a TCP connect.  The worker loop,
//! the probe timeout, and the raw I/O of the process and TCP probes live in
//! the driver; the pass/fail decisions and the probe schedule are computed
//! and specified here.  The disk-free probe runs entirely in this module,
//! over a trusted `statvfs` call.

use vstd::prelude::*;

use crate::text::dec_digits;
use crate::text::parse_u32;
use crate::text::spec_parse_u32;
use crate::text::u64_to_string;

use rand::RngExt;

verus! {

/// A disk-free probe: OK while the filesystem holding `path` still has
/// `free` MiB available to unprivileged users.
#[derive(Clone, Debug)]
pub struct DfCheck {
    pub path: String,
    pub free: u64,
}

/// A process-presence probe: OK while a process named `process` is alive.
#[derive(Clone, Debug)]
pub struct ProcCheck {
    pub process: String,
}

/// A TCP probe: OK while a connect to `addr` succeeds.
#[derive(Clone, Debug)]
pub struct TcpCheck {
    pub addr: String,
}

/// One probe of any kind.
#[derive(Clone, Debug)]
pub enum HealthCheck {
    DfCheck(DfCheck),
    ProcCheck(ProcCheck),
    TcpCheck(TcpCheck),
}

/// A probe bound to its schedule: the named group it reports to, the
/// interval between probe starts and the timeout bounding each probe, both
/// in seconds.
#[derive(Clone, Debug)]
pub struct IntervalHealthCheck {
    pub group: String,
    pub interval: u64,
    pub timeout: u64,
    pub check: HealthCheck,
}

/// The disk-free criterion: the filesystem passes when block size times
/// available blocks reaches the threshold, converted from MiB to bytes.
pub open spec fn spec_df_ok(bsize: u64, bavail: u64, threshold_mib: u64) -> bool {
    bsize * bavail >= threshold_mib * 0x100000
}

/// Checking the threshold in whole mebibytes is the same criterion: the
/// truncated free-MiB figure reaches `threshold_mib` exactly when the byte
/// product does.
pub proof fn lemma_df_mib_equivalent(bsize: u64, bavail: u64, threshold_mib: u64)
    ensures
        ((bsize * bavail) / 0x100000 >= threshold_mib) == spec_df_ok(bsize, bavail, threshold_mib),
{
    let prod = (bsize * bavail) as int;
    let t = threshold_mib as int;
    assert(((prod / 0x100000 >= t) == (prod >= t * 0x100000))) by (nonlinear_arith)
        requires
            prod >= 0,
            t >= 0,
    ;
}

/// Decides the disk-free criterion from the probed filesystem numbers.
pub fn df_ok(bsize: u64, bavail: u64, threshold_mib: u64) -> (r: bool)
    ensures
        r == spec_df_ok(bsize, bavail, threshold_mib),
{
    proof {
        assert((bsize as int) * (bavail as int) <= u128::MAX) by (nonlinear_arith)
            requires
                bsize <= u64::MAX,
                bavail <= u64::MAX,
        ;
        assert((threshold_mib as int) * 0x100000 <= u128::MAX) by (nonlinear_arith)
            requires
                threshold_mib <= u64::MAX,
        ;
    }
    let prod: u128 = (bsize as u128) * (bavail as u128);
    let need: u128 = (threshold_mib as u128) * 0x100000;
    prod >= need
}

/// The free space in whole MiB, as reported in failure messages; saturates
/// at `u64::MAX`.
pub open spec fn spec_avail_mib(bsize: u64, bavail: u64) -> u64 {
    let mib = (bsize * bavail) / 0x100000;
    if mib > u64::MAX {
        u64::MAX
    } else {
        mib as u64
    }
}

/// Computes the free space in whole MiB.
pub fn avail_mib(bsize: u64, bavail: u64) -> (r: u64)
    ensures
        r == spec_avail_mib(bsize, bavail),
{
    proof {
        assert((bsize as int) * (bavail as int) <= u128::MAX) by (nonlinear_arith)
            requires
                bsize <= u64::MAX,
                bavail <= u64::MAX,
        ;
    }
    let prod: u128 = (bsize as u128) * (bavail as u128);
    let mib: u128 = prod / 0x100000;
    if mib > 0xffff_ffff_ffff_ffff {
        u64::MAX
    } else {
        mib as u64
    }
}

/// Outcome of one disk-free probe.
#[derive(Clone, Copy, Debug)]
pub enum DfOutcome {
    /// Enough space free.
    Passed,
    /// The filesystem statistics could not be read.
    Unreadable,
    /// Too little space: how much is available and how much is required,
    /// both in MiB.
    Low { available_mib: u64, required_mib: u64 },
}

/// Relies on `nix::sys::statvfs::statvfs`: fills the filesystem statistics
/// for `path` and hands back `(f_bsize, f_bavail)` — block size and the
/// blocks available to unprivileged users — or nothing when the call fails.
/// The numbers depend on the state of the filesystem, so nothing further is
/// assumed of them.
#[verifier::external_body]
fn statvfs_info(path: &str) -> (r: Option<(u64, u64)>)
{
    match nix::sys::statvfs::statvfs(path) {
        Ok(st) => Some((st.block_size() as u64, st.blocks_available() as u64)),
        Err(_) => None,
    }
}

impl DfCheck {
    /// A disk-free probe on `path` requiring `free` MiB.
    pub fn new(path: &str, free: u64) -> (r: DfCheck)
        ensures
            r.path@ == path@,
            r.free == free,
    {
        DfCheck { path: String::from_str(path), free }
    }

    /// Runs the probe: reads the filesystem statistics and applies the
    /// disk-free criterion to whatever they say.  A failure carries the
    /// available and required MiB figures.
    pub fn do_check(&self) -> (r: DfOutcome)
        ensures
            r matches DfOutcome::Low { required_mib, .. } ==> required_mib == self.free,
    {
        match statvfs_info(self.path.as_str()) {
            None => DfOutcome::Unreadable,
            Some((bsize, bavail)) => {
                if df_ok(bsize, bavail, self.free) {
                    DfOutcome::Passed
                } else {
                    DfOutcome::Low {
                        available_mib: avail_mib(bsize, bavail),
                        required_mib: self.free,
                    }
                }
            },
        }
    }

    /// Human-readable description of the probe.
    pub fn to_string(&self) -> (r: String)
        ensures
            r@ == "DF healthcheck, min "@ + dec_digits(self.free as nat) + "MB for "@
                + self.path@,
    {
        let mut s = String::from_str("DF healthcheck, min ");
        let num = u64_to_string(self.free);
        s.append(num.as_str());
        s.append("MB for ");
        s.append(self.path.as_str());
        s
    }
}

/// What the driver's `/proc` scan saw of one directory entry: the entry's
/// name, the contents of its `comm` file, and whether its `cmdline` file
/// was empty (a zombie) or unreadable.
#[derive(Clone, Debug)]
pub struct ProcEntry {
    pub name: String,
    pub comm: String,
    pub cmdline_empty: bool,
}

/// `s` with one trailing newline removed, if it ends in one.
pub open spec fn strip_newline(s: Seq<char>) -> Seq<char> {
    if s.len() > 0 && s.last() == '\n' {
        s.drop_last()
    } else {
        s
    }
}

/// The snapshot entry is a live process named `target`: its name is a PID
/// (all digits), its `comm` contents equal the target name after the
/// trailing newline is stripped, and its command line is non-empty.
pub open spec fn entry_matches(e: ProcEntry, target: Seq<char>) -> bool {
    &&& spec_parse_u32(e.name@) is Some
    &&& strip_newline(e.comm@) == target
    &&& !e.cmdline_empty
}

impl ProcCheck {
    /// A process-presence probe for processes named `process`.
    pub fn new(process: &str) -> (r: ProcCheck)
        ensures
            r.process@ == process@,
    {
        ProcCheck { process: String::from_str(process) }
    }

    /// Decides the probe over a snapshot of `/proc`: OK iff some entry is a
    /// live process bearing the probed name.
    pub fn matches_snapshot(&self, entries: &Vec<ProcEntry>) -> (r: bool)
        ensures
            r == exists|i: int|
                0 <= i < entries@.len() && entry_matches(#[trigger] entries@[i], self.process@),
    {
        let n = entries.len();
        let mut i: usize = 0;
        while i < n
            invariant
                n == entries@.len(),
                0 <= i <= n,
                forall|j: int| 0 <= j < i ==> !entry_matches(#[trigger] entries@[j], self.process@),
            decreases n - i,
        {
            if self.entry_matches_at(&entries[i]) {
                proof {
                    assert(entry_matches(entries@[i as int], self.process@));
                }
                return true;
            }
            i += 1;
        }
        false
    }

    /// Whether one snapshot entry is a live process bearing the probed name.
    fn entry_matches_at(&self, e: &ProcEntry) -> (r: bool)
        ensures
            r == entry_matches(*e, self.process@),
    {
        if parse_u32(e.name.as_str()).is_none() {
            return false;
        }
        if e.cmdline_empty {
            return false;
        }
        let comm = e.comm.as_str();
        let len = comm.unicode_len();
        let stripped = if len > 0 && comm.get_char(len - 1) == '\n' {
            comm.substring_char(0, len - 1)
        } else {
            comm
        };
        proof {
            assert(stripped@ =~= strip_newline(e.comm@));
        }
        let stripped_string = String::from_str(stripped);
        stripped_string == self.process
    }

    /// Human-readable description of the probe.
    pub fn to_string(&self) -> (r: String)
        ensures
            r@ == "Proc healthcheck, checking for "@ + self.process@,
    {
        let mut s = String::from_str("Proc healthcheck, checking for ");
        s.append(self.process.as_str());
        s
    }
}

impl TcpCheck {
    /// A TCP probe against the rendered socket address `addr`.
    pub fn new(addr: &str) -> (r: TcpCheck)
        ensures
            r.addr@ == addr@,
    {
        TcpCheck { addr: String::from_str(addr) }
    }

    /// Human-readable description of the probe.
    pub fn to_string(&self) -> (r: String)
        ensures
            r@ == "TCP healthcheck, connect to "@ + self.addr@,
    {
        let mut s = String::from_str("TCP healthcheck, connect to ");
        s.append(self.addr.as_str());
        s
    }
}

/// What a probe of any kind describes itself as.
pub open spec fn spec_check_message(c: HealthCheck) -> Seq<char> {
    match c {
        HealthCheck::DfCheck(d) => "DF healthcheck, min "@ + dec_digits(d.free as nat)
            + "MB for "@ + d.path@,
        HealthCheck::ProcCheck(p) => "Proc healthcheck, checking for "@ + p.process@,
        HealthCheck::TcpCheck(t) => "TCP healthcheck, connect to "@ + t.addr@,
    }
}

impl HealthCheck {
    /// Human-readable description of the probe.
    pub fn to_string(&self) -> (r: String)
        ensures
            r@ == spec_check_message(*self),
    {
        match self {
            HealthCheck::DfCheck(d) => d.to_string(),
            HealthCheck::ProcCheck(p) => p.to_string(),
            HealthCheck::TcpCheck(t) => t.to_string(),
        }
    }
}

impl IntervalHealthCheck {
    /// Human-readable description of the underlying probe.
    pub fn to_string(&self) -> (r: String)
        ensures
            r@ == spec_check_message(self.check),
    {
        self.check.to_string()
    }
}

/// Relies on `rand::RngExt::random_range` over `rand::rng()`: a uniform
/// draw from `[0, interval)`.  The draw is random, so only its range is
/// assumed.
#[verifier::external_body]
fn random_jitter(interval: u64) -> (r: u64)
    requires
        interval > 0,
    ensures
        r < interval,
{
    rand::rng().random_range(0..interval)
}

/// The first probe-start instant: `now` plus a random initial delay of
/// less than one interval, so that configured checks spread out instead of
/// firing together.
pub fn first_probe_deadline(now: u64, interval: u64) -> (r: u64)
    requires
        interval > 0,
        now + interval <= u64::MAX,
    ensures
        now <= r < now + interval,
{
    let j = random_jitter(interval);
    now + j
}

/// Each later probe starts exactly one interval after the one before.
pub fn next_probe_deadline(deadline: u64, interval: u64) -> (r: u64)
    requires
        deadline + interval <= u64::MAX,
    ensures
        r == deadline + interval,
{
    deadline + interval
}

/// The instant of probe number `k`, counted from the jittered first
/// deadline.
pub open spec fn probe_instant(first: u64, interval: u64, k: nat) -> int {
    first + k * interval
}

/// Consecutive probe-start instants differ by exactly the configured
/// interval, whatever the initial jitter was.
pub proof fn lemma_probe_cadence(first: u64, interval: u64, k: nat)
    ensures
        probe_instant(first, interval, k + 1) - probe_instant(first, interval, k) == interval,
{
    assert((k + 1) * interval == k * interval + interval) by (nonlinear_arith);
}

} // verus!
