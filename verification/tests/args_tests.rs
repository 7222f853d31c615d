use port_sniffer::config::ArgDecision;
use port_sniffer::config::ArgError;
use port_sniffer::config::DEFAULT_THREADS;
use port_sniffer::config::IpAddress;
use port_sniffer::config::ScanConfig;
use port_sniffer::config::decide_args;

fn target() -> IpAddress {
    IpAddress::V4(192, 168, 0, 1)
}

#[test]
fn too_few_arguments_rejected() {
    let d = decide_args(1, None, false, false, None, None);
    assert_eq!(d, ArgDecision::Fail(ArgError::NotEnoughArguments));
}

#[test]
fn too_many_arguments_rejected() {
    let d = decide_args(5, None, false, false, None, None);
    assert_eq!(d, ArgDecision::Fail(ArgError::TooManyArguments));
}

#[test]
fn plain_address_runs_with_default_workers() {
    let d = decide_args(2, Some(target()), false, false, None, None);
    assert_eq!(
        d,
        ArgDecision::Run(ScanConfig { target: target(), threads: DEFAULT_THREADS })
    );
}

#[test]
fn address_with_extra_arguments_rejected() {
    let d = decide_args(3, Some(target()), false, false, None, None);
    assert_eq!(d, ArgDecision::Fail(ArgError::TooManyArguments));
    let d4 = decide_args(4, Some(target()), false, false, None, Some(8));
    assert_eq!(d4, ArgDecision::Fail(ArgError::TooManyArguments));
}

#[test]
fn short_worker_flag_rejected() {
    let d2 = decide_args(2, None, false, true, None, None);
    assert_eq!(d2, ArgDecision::Fail(ArgError::NotEnoughArguments));
    let d3 = decide_args(3, None, false, true, None, Some(8));
    assert_eq!(d3, ArgDecision::Fail(ArgError::NotEnoughArguments));
}

#[test]
fn zero_worker_count_rejected() {
    let d = decide_args(4, None, false, true, Some(target()), Some(0));
    assert_eq!(d, ArgDecision::Fail(ArgError::InvalidThreadCount));
}

#[test]
fn lone_help_flag_shows_usage() {
    let d = decide_args(2, None, true, false, None, None);
    assert_eq!(d, ArgDecision::Help);
}

#[test]
fn help_flag_with_extra_arguments_rejected() {
    let d = decide_args(3, None, true, false, None, None);
    assert_eq!(d, ArgDecision::Fail(ArgError::TooManyArguments));
}

#[test]
fn worker_flag_with_bad_address_rejected() {
    let d = decide_args(4, None, false, true, None, Some(8));
    assert_eq!(d, ArgDecision::Fail(ArgError::InvalidAddress));
}

#[test]
fn worker_flag_with_bad_count_rejected() {
    let d = decide_args(4, None, false, true, Some(target()), None);
    assert_eq!(d, ArgDecision::Fail(ArgError::InvalidThreadCount));
}

#[test]
fn worker_flag_runs_with_named_count() {
    let d = decide_args(4, None, false, true, Some(target()), Some(8));
    assert_eq!(d, ArgDecision::Run(ScanConfig { target: target(), threads: 8 }));
}

#[test]
fn unknown_first_argument_rejected() {
    let d = decide_args(2, None, false, false, None, None);
    assert_eq!(d, ArgDecision::Fail(ArgError::InvalidSyntax));
}

#[test]
fn ipv6_target_accepted() {
    let six = IpAddress::V6(0, 0, 0, 0, 0, 0, 0, 1);
    let d = decide_args(2, Some(six), false, false, None, None);
    assert_eq!(
        d,
        ArgDecision::Run(ScanConfig { target: six, threads: DEFAULT_THREADS })
    );
}
