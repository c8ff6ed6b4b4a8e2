//! Stream-redirection descriptors and the line assembler.
//!
//! A supervised child's stdout/stderr can be forwarded either to a file or
//! to syslog.  The descriptors here are plain values; the driver thread that
//! owns the file descriptors reads raw chunks, feeds them to a [`LineBuffer`],
//! and delivers each completed line (trailing newline stripped) to its sink.

use vstd::prelude::*;

verus! {

/// Where a syslog sink connects: a TCP endpoint, a UDP pair (local bind
/// address and remote server), or a Unix socket path (`None` meaning the
/// platform default).  Endpoints are carried as rendered address strings.
#[derive(Clone, Debug)]
pub enum Address {
    Tcp(String),
    Udp { server: String, local: String },
    Unix(Option<String>),
}

/// Syslog facility of a sink.
#[derive(Clone, Copy, Debug, PartialEq, Eq, Structural)]
pub enum Facility {
    Kern,
    User,
    Mail,
    Daemon,
    Auth,
    Syslog,
    Lpr,
    News,
    Uucp,
    Cron,
    AuthPriv,
    Ftp,
    Local0,
    Local1,
    Local2,
    Local3,
    Local4,
    Local5,
    Local6,
    Local7,
}

/// Syslog severity of a sink.
#[derive(Clone, Copy, Debug, PartialEq, Eq, Structural)]
pub enum Severity {
    Emerg,
    Alert,
    Crit,
    Error,
    Warning,
    Notice,
    Info,
    Debug,
}

/// A destination for one redirected output stream.
#[derive(Clone, Debug)]
pub enum Stream {
    File { filename: String },
    Syslog { address: Address, facility: Facility, severity: Severity },
}

/// True when `s` holds at least one newline byte.
pub open spec fn has_newline(s: Seq<u8>) -> bool {
    exists|i: int| 0 <= i < s.len() && s[i] == 10u8
}

/// Index of the first newline byte of `s`; meaningful only when one exists.
pub open spec fn first_newline(s: Seq<u8>) -> int {
    choose|i: int|
        0 <= i < s.len() && s[i] == 10u8 && (forall|j: int| 0 <= j < i ==> s[j] != 10u8)
}

/// The first newline index is well defined whenever a newline exists.
pub proof fn lemma_first_newline(s: Seq<u8>)
    requires
        has_newline(s),
    ensures
        0 <= first_newline(s) < s.len(),
        s[first_newline(s)] == 10u8,
        forall|j: int| 0 <= j < first_newline(s) ==> s[j] != 10u8,
{
    let i0 = choose|i: int| 0 <= i < s.len() && s[i] == 10u8;
    let k = least_newline_witness(s, i0);
    assert(0 <= k < s.len() && s[k] == 10u8 && (forall|j: int| 0 <= j < k ==> s[j] != 10u8));
}

/// Of all newline positions `<= i0`, returns the least one.
proof fn least_newline_witness(s: Seq<u8>, i0: int) -> (k: int)
    requires
        0 <= i0 < s.len(),
        s[i0] == 10u8,
    ensures
        0 <= k <= i0,
        s[k] == 10u8,
        forall|j: int| 0 <= j < k ==> s[j] != 10u8,
    decreases i0,
{
    if exists|j: int| 0 <= j < i0 && s[j] == 10u8 {
        let j0 = choose|j: int| 0 <= j < i0 && s[j] == 10u8;
        least_newline_witness(s, j0)
    } else {
        i0
    }
}

/// Assembles complete lines out of the raw byte chunks read from one file
/// descriptor.  Bytes accumulate until a newline arrives; each completed
/// line is handed out without its terminator.
pub struct LineBuffer {
    pending: Vec<u8>,
}

impl LineBuffer {
    /// The bytes received so far that belong to no completed line yet.
    pub closed spec fn view(&self) -> Seq<u8> {
        self.pending@
    }

    /// An empty assembler.
    pub fn new() -> (r: Self)
        ensures
            r@ =~= Seq::<u8>::empty(),
    {
        LineBuffer { pending: Vec::new() }
    }

    /// Appends one chunk of raw bytes.
    pub fn push_bytes(&mut self, chunk: &[u8])
        ensures
            final(self)@ =~= old(self)@ + chunk@,
    {
        let n = chunk.len();
        let mut i: usize = 0;
        while i < n
            invariant
                n == chunk@.len(),
                0 <= i <= n,
                self@ =~= old(self)@ + chunk@.subrange(0, i as int),
            decreases n - i,
        {
            let b = chunk[i];
            self.pending.push(b);
            proof {
                assert(self@ =~= old(self)@ + chunk@.subrange(0, i + 1 as int));
            }
            i += 1;
        }
        proof {
            assert(chunk@.subrange(0, n as int) =~= chunk@);
        }
    }

    /// Removes and returns the first completed line, without its newline;
    /// `None` while no newline has arrived yet.
    pub fn take_line(&mut self) -> (r: Option<Vec<u8>>)
        ensures
            match r {
                None => {
                    &&& !has_newline(old(self)@)
                    &&& final(self)@ =~= old(self)@
                },
                Some(line) => {
                    &&& has_newline(old(self)@)
                    &&& line@ =~= old(self)@.subrange(0, first_newline(old(self)@))
                    &&& final(self)@ =~= old(self)@.subrange(
                        first_newline(old(self)@) + 1,
                        old(self)@.len() as int,
                    )
                },
            },
    {
        let n = self.pending.len();
        let mut i: usize = 0;
        while i < n
            invariant
                n == self@.len(),
                0 <= i <= n,
                forall|j: int| 0 <= j < i ==> self@[j] != 10u8,
                self@ == old(self)@,
            decreases n - i,
        {
            if self.pending[i] == 10u8 {
                proof {
                    lemma_first_newline(self@);
                    assert(first_newline(self@) == i);
                }
                let mut line: Vec<u8> = Vec::new();
                let mut j: usize = 0;
                while j < i
                    invariant
                        0 <= j <= i < self@.len(),
                        self@ == old(self)@,
                        line@ =~= self@.subrange(0, j as int),
                    decreases i - j,
                {
                    let b = self.pending[j];
                    line.push(b);
                    proof {
                        assert(line@ =~= self@.subrange(0, j + 1 as int));
                    }
                    j += 1;
                }
                let mut rest: Vec<u8> = Vec::new();
                let mut k: usize = i + 1;
                while k < n
                    invariant
                        i + 1 <= k <= n == self@.len(),
                        self@ == old(self)@,
                        rest@ =~= self@.subrange(i + 1 as int, k as int),
                    decreases n - k,
                {
                    let b = self.pending[k];
                    rest.push(b);
                    proof {
                        assert(rest@ =~= self@.subrange(i + 1 as int, k + 1 as int));
                    }
                    k += 1;
                }
                self.pending = rest;
                return Some(line);
            }
            i += 1;
        }
        None
    }
}

} // verus!
