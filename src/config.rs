//! Configurations of the communication layer, and the worker allocators
//! that each one lays out.
use vstd::prelude::*;

verus! {

/// How workers are laid out and how they talk.
pub enum Config {
    /// One worker thread.
    Thread,
    /// One process with the given number of worker threads.
    Process(usize),
    /// One process with the given number of worker threads, exchanging
    /// serialized bytes.
    ProcessBinary(usize),
    /// Several processes, each with `threads` workers, at `addresses`.
    Cluster {
        /// Worker threads in each process.
        threads: usize,
        /// Which of the processes this one is.
        process: usize,
        /// The address of each process.
        addresses: Vec<String>,
        /// Whether to report the progress of connecting.
        report: bool,
        /// Whether workers in one process exchange serialized bytes.
        zerocopy: bool,
    },
}

/// Why a configuration could not be made or laid out.
#[derive(Clone, Copy, PartialEq, Eq, Structural, Debug)]
pub enum ConfigError {
    /// The host list held `read` addresses, fewer than the `wanted` processes.
    TooFewAddresses { read: usize, wanted: usize },
    /// The process index does not name one of the addresses.
    BadProcessIndex { process: usize, processes: usize },
    /// The number of workers does not fit in a `usize`.
    TooManyWorkers,
}

/// The digits of `n` in base ten.
pub open spec fn decimal(n: nat) -> Seq<char>
    decreases n,
{
    if n < 10 {
        seq![digit(n)]
    } else {
        decimal(n / 10).push(digit(n % 10))
    }
}

pub open spec fn digit(d: nat) -> char {
    if d == 0 { '0' } else if d == 1 { '1' } else if d == 2 { '2' } else if d == 3 { '3' } else if d == 4 { '4' }
    else if d == 5 { '5' } else if d == 6 { '6' } else if d == 7 { '7' } else if d == 8 { '8' } else { '9' }
}

/// The first port that processes on this host listen on by default.
pub const BASE_PORT: usize = 2101;

/// The default address of a process listening on `port`.
pub open spec fn local_address_spec(port: nat) -> Seq<char> {
    seq!['l', 'o', 'c', 'a', 'l', 'h', 'o', 's', 't', ':'] + decimal(port)
}

/// The text of the decimal digit `d`.
fn digit_text(d: usize) -> (r: &'static str)
    requires
        d < 10,
    ensures
        r@ == seq![digit(d as nat)],
{
    proof {
        reveal_strlit("0");
        reveal_strlit("1");
        reveal_strlit("2");
        reveal_strlit("3");
        reveal_strlit("4");
        reveal_strlit("5");
        reveal_strlit("6");
        reveal_strlit("7");
        reveal_strlit("8");
        reveal_strlit("9");
    }
    if d == 0 { "0" } else if d == 1 { "1" } else if d == 2 { "2" } else if d == 3 { "3" } else if d == 4 { "4" }
    else if d == 5 { "5" } else if d == 6 { "6" } else if d == 7 { "7" } else if d == 8 { "8" } else { "9" }
}

/// Appends the digits of `n` in base ten.
fn append_decimal(s: &mut String, n: usize)
    ensures
        final(s)@ == old(s)@ + decimal(n as nat),
    decreases n,
{
    if n >= 10 {
        append_decimal(s, n / 10);
    }
    s.append(digit_text(n % 10));
    proof {
        if n >= 10 {
            assert(decimal(n as nat) == decimal((n / 10) as nat).push(digit((n % 10) as nat)));
        }
        assert(final(s)@ =~= old(s)@ + decimal(n as nat));
    }
}

/// The default address of a process listening on `port`.
fn local_address(port: usize) -> (r: String)
    ensures
        r@ == local_address_spec(port as nat),
{
    let mut s = String::from_str("localhost:");
    proof {
        reveal_strlit("localhost:");
    }
    append_decimal(&mut s, port);
    proof {
        assert(s@ =~= local_address_spec(port as nat));
    }
    s
}

/// A worker's allocator, before it is built on its thread.
#[derive(Clone, Copy, PartialEq, Eq, Structural, Debug)]
pub enum WorkerBuilder {
    /// The only worker.
    Thread,
    /// Worker `index` of `peers` threads in one process.
    Process { index: usize, peers: usize },
    /// As `Process`, exchanging serialized bytes.
    ProcessBinary { index: usize, peers: usize },
    /// Worker `index` of `peers` across processes.
    ZeroCopy { index: usize, peers: usize },
    /// As `ZeroCopy`, exchanging serialized bytes within the process too.
    ZeroCopyBinary { index: usize, peers: usize },
}

impl Config {
    /// The configuration that command-line values describe: several
    /// processes make a cluster (at `hosts`, or at consecutive local ports
    /// from `BASE_PORT` when none are given); else several threads make a
    /// process; else one thread.
    pub fn from_values(
        threads: usize,
        process: usize,
        processes: usize,
        report: bool,
        zerocopy: bool,
        hosts: Option<Vec<String>>,
    ) -> (r: Result<Config, ConfigError>)
        requires
            processes > 1 && hosts is None ==> BASE_PORT + processes <= usize::MAX,
        ensures
            processes > 1 ==> (match hosts {
                Some(h) => if h@.len() < processes {
                    r == Err::<Config, ConfigError>(ConfigError::TooFewAddresses { read: h@.len() as usize, wanted: processes })
                } else {
                    r matches Ok(Config::Cluster { threads: t, process: p, addresses: a, report: rp, zerocopy: z })
                        && t == threads && p == process && rp == report && z == zerocopy
                        && a@ == h@.take(processes as int)
                },
                None => r matches Ok(Config::Cluster { threads: t, process: p, addresses: a, report: rp, zerocopy: z })
                    && t == threads && p == process && rp == report && z == zerocopy
                    && a@.len() == processes
                    && forall|i: int| 0 <= i < processes ==> (#[trigger] a@[i])@ == local_address_spec((BASE_PORT + i) as nat),
            }),
            processes <= 1 && threads > 1 && zerocopy ==> (r matches Ok(Config::ProcessBinary(n)) && n == threads),
            processes <= 1 && threads > 1 && !zerocopy ==> (r matches Ok(Config::Process(n)) && n == threads),
            processes <= 1 && threads <= 1 ==> r matches Ok(Config::Thread),
    {
        if processes > 1 {
            let addresses = match hosts {
                Some(h) => {
                    if h.len() < processes {
                        return Err(ConfigError::TooFewAddresses { read: h.len(), wanted: processes });
                    }
                    let mut h = h;
                    h.truncate(processes);
                    h
                },
                None => {
                    let mut a: Vec<String> = Vec::new();
                    let mut i: usize = 0;
                    while i < processes
                        invariant
                            0 <= i <= processes,
                            BASE_PORT + processes <= usize::MAX,
                            a@.len() == i,
                            forall|k: int| 0 <= k < i ==> (#[trigger] a@[k])@ == local_address_spec((BASE_PORT + k) as nat),
                        decreases processes - i,
                    {
                        a.push(local_address(BASE_PORT + i));
                        i = i + 1;
                    }
                    a
                },
            };
            Ok(Config::Cluster { threads, process, addresses, report, zerocopy })
        } else if threads > 1 {
            if zerocopy {
                Ok(Config::ProcessBinary(threads))
            } else {
                Ok(Config::Process(threads))
            }
        } else {
            Ok(Config::Thread)
        }
    }

    /// Lays out one allocator for each worker of this process. In a cluster
    /// the workers are numbered across processes: this process's come after
    /// those of the processes before it.
    pub fn try_build(&self) -> (r: Result<Vec<WorkerBuilder>, ConfigError>)
        ensures
            match *self {
                Config::Thread => r matches Ok(v) && v@ == seq![WorkerBuilder::Thread],
                Config::Process(n) => r matches Ok(v) && v@.len() == n && forall|i: int| 0 <= i < n
                    ==> #[trigger] v@[i] == (WorkerBuilder::Process { index: i as usize, peers: n }),
                Config::ProcessBinary(n) => r matches Ok(v) && v@.len() == n && forall|i: int| 0 <= i < n
                    ==> #[trigger] v@[i] == (WorkerBuilder::ProcessBinary { index: i as usize, peers: n }),
                Config::Cluster { threads, process, addresses, report: _, zerocopy } => {
                    if process >= addresses@.len() {
                        r == Err::<Vec<WorkerBuilder>, ConfigError>(ConfigError::BadProcessIndex { process, processes: addresses@.len() as usize })
                    } else if threads * addresses@.len() > usize::MAX {
                        r == Err::<Vec<WorkerBuilder>, ConfigError>(ConfigError::TooManyWorkers)
                    } else {
                        r matches Ok(v) && v@.len() == threads && forall|i: int| 0 <= i < threads ==> #[trigger] v@[i] == if zerocopy {
                            WorkerBuilder::ZeroCopyBinary { index: (process * threads + i) as usize, peers: (threads * addresses@.len()) as usize }
                        } else {
                            WorkerBuilder::ZeroCopy { index: (process * threads + i) as usize, peers: (threads * addresses@.len()) as usize }
                        }
                    }
                },
            },
    {
        match self {
            Config::Thread => {
                let mut v: Vec<WorkerBuilder> = Vec::new();
                v.push(WorkerBuilder::Thread);
                proof {
                    assert(v@ =~= seq![WorkerBuilder::Thread]);
                }
                Ok(v)
            },
            Config::Process(n) => {
                let mut v: Vec<WorkerBuilder> = Vec::new();
                let mut i: usize = 0;
                while i < *n
                    invariant
                        0 <= i <= *n,
                        v@.len() == i,
                        forall|k: int| 0 <= k < i ==> #[trigger] v@[k] == (WorkerBuilder::Process { index: k as usize, peers: *n }),
                    decreases *n - i,
                {
                    v.push(WorkerBuilder::Process { index: i, peers: *n });
                    i = i + 1;
                }
                Ok(v)
            },
            Config::ProcessBinary(n) => {
                let mut v: Vec<WorkerBuilder> = Vec::new();
                let mut i: usize = 0;
                while i < *n
                    invariant
                        0 <= i <= *n,
                        v@.len() == i,
                        forall|k: int| 0 <= k < i ==> #[trigger] v@[k] == (WorkerBuilder::ProcessBinary { index: k as usize, peers: *n }),
                    decreases *n - i,
                {
                    v.push(WorkerBuilder::ProcessBinary { index: i, peers: *n });
                    i = i + 1;
                }
                Ok(v)
            },
            Config::Cluster { threads, process, addresses, report: _, zerocopy } => {
                let processes = addresses.len();
                if *process >= processes {
                    return Err(ConfigError::BadProcessIndex { process: *process, processes });
                }
                let peers = match threads.checked_mul(processes) {
                    Some(p) => p,
                    None => {
                        return Err(ConfigError::TooManyWorkers);
                    },
                };
                proof {
                    assert(*process * *threads + *threads <= *threads * processes) by (nonlinear_arith)
                        requires *process < processes;
                }
                let first = *process * *threads;
                let mut v: Vec<WorkerBuilder> = Vec::new();
                let mut i: usize = 0;
                while i < *threads
                    invariant
                        0 <= i <= *threads,
                        first + *threads <= peers,
                        first == *process * *threads,
                        peers == *threads * processes,
                        v@.len() == i,
                        forall|k: int| 0 <= k < i ==> #[trigger] v@[k] == if *zerocopy {
                            WorkerBuilder::ZeroCopyBinary { index: (first + k) as usize, peers }
                        } else {
                            WorkerBuilder::ZeroCopy { index: (first + k) as usize, peers }
                        },
                    decreases *threads - i,
                {
                    if *zerocopy {
                        v.push(WorkerBuilder::ZeroCopyBinary { index: first + i, peers });
                    } else {
                        v.push(WorkerBuilder::ZeroCopy { index: first + i, peers });
                    }
                    i = i + 1;
                }
                Ok(v)
            },
        }
    }
}

} // verus!
