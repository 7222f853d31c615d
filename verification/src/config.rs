//! The validated configuration of one scan, and the decision tree that
//! validates a raw command line into one.
//!
//! Reading the process arguments, parsing an address and printing messages
//! belong to the surrounding program; the decision itself — which shapes of
//! command line yield a configuration, the usage text, or which error — is
//! pinned down here over plain, pre-parsed facts.

use vstd::prelude::*;

verus! {

/// A target address, IPv4 or IPv6, held as plain numeric parts.
#[derive(Clone, Copy, PartialEq, Eq, Structural, Debug)]
pub enum IpAddress {
    /// The four octets of an IPv4 address.
    V4(u8, u8, u8, u8),
    /// The eight 16-bit segments of an IPv6 address.
    V6(u16, u16, u16, u16, u16, u16, u16, u16),
}

/// Worker count used when the command line names none.
pub const DEFAULT_THREADS: u16 = 4;

/// The immutable input of one scan: the target address and the worker count.
#[derive(Clone, Copy, PartialEq, Eq, Structural, Debug)]
pub struct ScanConfig {
    /// The host to scan.
    pub target: IpAddress,
    /// How many workers partition the port space.
    pub threads: u16,
}

impl ScanConfig {
    /// A configuration is well formed when at least one worker exists; with
    /// none the partition degenerates and nothing is ever probed.
    pub open spec fn wf(self) -> bool {
        1 <= self.threads
    }
}

/// Why a command line was rejected.
#[derive(Clone, Copy, PartialEq, Eq, Structural, Debug)]
pub enum ArgError {
    /// Fewer arguments than the shape needs: fewer than two overall (the
    /// count includes the program name), or the worker-count flag without
    /// both its count and its address.
    NotEnoughArguments,
    /// More than four arguments, or extra arguments beside a lone address or
    /// a help flag.
    TooManyArguments,
    /// The address argument parses as neither IPv4 nor IPv6.
    InvalidAddress,
    /// The worker-count argument does not parse as a positive 16-bit number:
    /// with zero workers the partition degenerates.
    InvalidThreadCount,
    /// The first argument is neither an address nor a known flag.
    InvalidSyntax,
}

/// The outcome of argument validation: show the usage text, reject the run,
/// or scan with the given configuration.
#[derive(Clone, Copy, PartialEq, Eq, Structural, Debug)]
pub enum ArgDecision {
    /// A lone help flag: print the usage text and scan nothing.
    Help,
    /// A configuration error: report it and scan nothing.
    Fail(ArgError),
    /// Scan with this configuration.
    Run(ScanConfig),
}

/// The decision tree of argument validation, over facts the caller reads off
/// the raw command line: `arg_count` counts the arguments including the
/// program name; `first_ip` is the first real argument as an address, when it
/// parses as one; `first_has_help` and `first_has_j` tell whether that
/// argument contains a help flag ("-h" or "-help") or "-j"; `third_ip` is
/// the third argument as an address and `second_threads` the second as a
/// 16-bit count, each when present and parsable.
///
/// Exactly three command-line shapes are accepted: a lone address, a lone
/// help flag, and the four-argument worker-count form; every other shape is
/// an error. The help flag wins over "-j". A worker count of zero is
/// rejected like an unparsable one: every configuration handed out is well
/// formed.
pub fn decide_args(
    arg_count: usize,
    first_ip: Option<IpAddress>,
    first_has_help: bool,
    first_has_j: bool,
    third_ip: Option<IpAddress>,
    second_threads: Option<u16>,
) -> (r: ArgDecision)
    ensures
        arg_count < 2 ==> r == ArgDecision::Fail(ArgError::NotEnoughArguments),
        arg_count > 4 ==> r == ArgDecision::Fail(ArgError::TooManyArguments),
        (arg_count == 2 && first_ip is Some) ==> r == ArgDecision::Run(
            (ScanConfig { target: first_ip.unwrap(), threads: DEFAULT_THREADS }),
        ),
        (3 <= arg_count <= 4 && first_ip is Some) ==> r == ArgDecision::Fail(
            ArgError::TooManyArguments,
        ),
        (arg_count == 2 && first_ip is None && first_has_help) ==> r == ArgDecision::Help,
        (3 <= arg_count <= 4 && first_ip is None && first_has_help) ==> r == ArgDecision::Fail(
            ArgError::TooManyArguments,
        ),
        (2 <= arg_count <= 3 && first_ip is None && !first_has_help && first_has_j) ==> r
            == ArgDecision::Fail(ArgError::NotEnoughArguments),
        (arg_count == 4 && first_ip is None && !first_has_help && first_has_j && third_ip
            is None) ==> r == ArgDecision::Fail(ArgError::InvalidAddress),
        (arg_count == 4 && first_ip is None && !first_has_help && first_has_j && third_ip is Some
            && (second_threads is None || second_threads == Some(0u16))) ==> r
            == ArgDecision::Fail(ArgError::InvalidThreadCount),
        (arg_count == 4 && first_ip is None && !first_has_help && first_has_j && third_ip is Some
            && second_threads is Some && second_threads.unwrap() >= 1) ==> r == ArgDecision::Run(
            (ScanConfig { target: third_ip.unwrap(), threads: second_threads.unwrap() }),
        ),
        (2 <= arg_count <= 4 && first_ip is None && !first_has_help && !first_has_j) ==> r
            == ArgDecision::Fail(ArgError::InvalidSyntax),
        forall|c: ScanConfig| r == ArgDecision::Run(c) ==> #[trigger] c.wf(),
{
    if arg_count < 2 {
        ArgDecision::Fail(ArgError::NotEnoughArguments)
    } else if arg_count > 4 {
        ArgDecision::Fail(ArgError::TooManyArguments)
    } else {
        match first_ip {
            Some(target) => {
                if arg_count == 2 {
                    ArgDecision::Run(ScanConfig { target, threads: DEFAULT_THREADS })
                } else {
                    ArgDecision::Fail(ArgError::TooManyArguments)
                }
            },
            None => {
                if first_has_help && arg_count == 2 {
                    ArgDecision::Help
                } else if first_has_help {
                    ArgDecision::Fail(ArgError::TooManyArguments)
                } else if first_has_j {
                    if arg_count != 4 {
                        ArgDecision::Fail(ArgError::NotEnoughArguments)
                    } else {
                        match third_ip {
                            None => ArgDecision::Fail(ArgError::InvalidAddress),
                            Some(target) => match second_threads {
                                None => ArgDecision::Fail(ArgError::InvalidThreadCount),
                                Some(threads) => {
                                    if threads >= 1 {
                                        ArgDecision::Run(ScanConfig { target, threads })
                                    } else {
                                        ArgDecision::Fail(ArgError::InvalidThreadCount)
                                    }
                                },
                            },
                        }
                    }
                } else {
                    ArgDecision::Fail(ArgError::InvalidSyntax)
                }
            },
        }
    }
}

} // verus!
