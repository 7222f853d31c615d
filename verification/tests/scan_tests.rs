use port_sniffer::collector::Channel;
use port_sniffer::collector::Collector;
use port_sniffer::collector::RecvOutcome;
use port_sniffer::collector::collect;
use port_sniffer::collector::sort_ports;
use port_sniffer::config::ScanConfig;
use port_sniffer::config::IpAddress;
use port_sniffer::connector::PortStatus;
use port_sniffer::connector::classify;
use port_sniffer::connector::should_report;
use port_sniffer::partition::MAX_PORT;
use port_sniffer::partition::WorkerTask;
use port_sniffer::partition::make_tasks;
use port_sniffer::partition::next_port;
use port_sniffer::partition::worker_ports;
use port_sniffer::scan::contains_port;
use port_sniffer::scan::dispatch;
use port_sniffer::scan::worker_scan;

fn loopback() -> IpAddress {
    IpAddress::V4(127, 0, 0, 1)
}

#[test]
fn make_tasks_partitions_by_index() {
    let tasks = make_tasks(4);
    assert_eq!(tasks.len(), 4);
    for (i, task) in tasks.iter().enumerate() {
        assert_eq!(task.offset, i as u16);
        assert_eq!(task.stride, 4);
    }
}

#[test]
fn worker_ports_stride_one_covers_all_but_top() {
    let ports = worker_ports(&WorkerTask { offset: 0, stride: 1 });
    assert_eq!(ports.len(), 65534);
    assert_eq!(ports[0], 1);
    assert_eq!(*ports.last().unwrap(), 65534);
}

#[test]
fn worker_ports_full_stride_single_probe() {
    let first = worker_ports(&WorkerTask { offset: 0, stride: MAX_PORT });
    assert_eq!(first, vec![1]);
    let last = worker_ports(&WorkerTask { offset: MAX_PORT - 1, stride: MAX_PORT });
    assert_eq!(last, vec![MAX_PORT]);
}

#[test]
fn partition_is_disjoint_and_complete() {
    let mut seen = vec![0u8; 65536];
    for task in make_tasks(4) {
        for port in worker_ports(&task) {
            seen[port as usize] += 1;
        }
    }
    assert_eq!(seen[0], 0);
    for port in 1..=65534u32 {
        assert_eq!(seen[port as usize], 1);
    }
    assert_eq!(seen[65535], 0);
}

#[test]
fn next_port_steps_and_stops() {
    assert_eq!(next_port(1, 4), Some(5));
    assert_eq!(next_port(65530, 4), Some(65534));
    assert_eq!(next_port(65531, 4), None);
    assert_eq!(next_port(65534, 1), None);
}

#[test]
fn classification_is_idempotent() {
    for _ in 0..3 {
        assert_eq!(classify(true), PortStatus::Open);
        assert_eq!(classify(false), PortStatus::Closed);
    }
    assert!(should_report(PortStatus::Open));
    assert!(!should_report(PortStatus::Closed));
}

#[test]
fn contains_port_models_the_endpoint() {
    let open = vec![22u16, 80, 443];
    assert!(contains_port(&open, 22));
    assert!(contains_port(&open, 443));
    assert!(!contains_port(&open, 23));
    assert!(!contains_port(&Vec::new(), 22));
}

#[test]
fn channel_closes_only_when_every_sender_is_gone() {
    let mut ch = Channel::new(2);
    ch.send(5);
    ch.drop_sender();
    ch.drop_sender();
    assert_eq!(ch.recv(), RecvOutcome::Port(5));
    assert_eq!(ch.recv(), RecvOutcome::Disconnected);
}

#[test]
fn collector_reaches_done_exactly_on_closure() {
    let mut col = Collector::new();
    assert!(!col.done);
    col.step(RecvOutcome::Port(80));
    assert!(!col.done);
    col.step(RecvOutcome::Port(22));
    assert!(!col.done);
    col.step(RecvOutcome::Disconnected);
    assert!(col.done);
    assert_eq!(col.report(), vec![22, 80]);
}

#[test]
fn collect_drains_the_closed_channel() {
    let mut ch = Channel::new(1);
    ch.send(10);
    ch.send(7);
    ch.drop_sender();
    let mut col = Collector::new();
    collect(&mut ch, &mut col);
    assert!(col.done);
    assert_eq!(col.gathered, vec![10, 7]);
    assert_eq!(col.report(), vec![7, 10]);
}

#[test]
fn sort_ports_orders_ascending() {
    let out = sort_ports(&vec![443, 22, 80, 22]);
    assert_eq!(out, vec![22, 22, 80, 443]);
    assert_eq!(sort_ports(&Vec::new()), Vec::<u16>::new());
}

#[test]
fn worker_reports_accepted_ports_in_probe_order() {
    let mut ch = Channel::new(1);
    let open = vec![80u16, 22];
    worker_scan(&WorkerTask { offset: 0, stride: 1 }, &open, &mut ch);
    ch.drop_sender();
    let mut col = Collector::new();
    collect(&mut ch, &mut col);
    assert_eq!(col.gathered, vec![22, 80]);
}

#[test]
fn scenario_listeners_on_three_ports() {
    let config = ScanConfig { target: loopback(), threads: 4 };
    let open = vec![22u16, 80, 443];
    assert_eq!(dispatch(&config, &open), vec![22, 80, 443]);
}

#[test]
fn scenario_no_listeners_empty_report() {
    let config = ScanConfig { target: loopback(), threads: 1 };
    assert_eq!(dispatch(&config, &Vec::new()), Vec::<u16>::new());
}

#[test]
fn scenario_worker_count_does_not_change_report() {
    let open = vec![65534u16, 8080, 1, 443, 80, 22];
    let one = ScanConfig { target: loopback(), threads: 1 };
    let eight = ScanConfig { target: loopback(), threads: 8 };
    let report_one = dispatch(&one, &open);
    let report_eight = dispatch(&eight, &open);
    assert_eq!(report_one, vec![1, 22, 80, 443, 8080, 65534]);
    assert_eq!(report_one, report_eight);
}

#[test]
fn boundary_gap_skips_the_top_port() {
    let config = ScanConfig { target: loopback(), threads: 4 };
    let open = vec![65534u16, 65535];
    assert_eq!(dispatch(&config, &open), vec![65534]);
}

#[test]
fn repeated_scans_agree() {
    let config = ScanConfig { target: loopback(), threads: 3 };
    let open = vec![22u16, 8080];
    assert_eq!(dispatch(&config, &open), dispatch(&config, &open));
}
