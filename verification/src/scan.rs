//! The engine end to end, run against a modeled endpoint.
//!
//! The dispatcher computes the partition, runs every worker over one shared
//! channel, releases its own sender handle, and lets the collector drain the
//! channel to closure and sort the report. The endpoint stands in for the
//! network: a list of the ports on which a connect attempt succeeds. The
//! report is proved strictly ascending and to hold exactly the accepted
//! ports that some worker probes — which, for any worker count below the
//! full width of the port space, are the accepted ports from 1 to
//! `MAX_PORT - 1`, whatever the worker count.

use vstd::prelude::*;

use crate::collector::Channel;
use crate::collector::Collector;
use crate::collector::collect;
use crate::collector::lemma_membership_permutation;
use crate::collector::lemma_no_duplicates_permutation;
use crate::collector::lemma_no_duplicates_same_membership;
use crate::collector::lemma_report_order_independent;
use crate::collector::lemma_sorted_no_duplicates_strict;
use crate::collector::sorted;
use crate::collector::strictly_ascending;
use crate::config::ScanConfig;
use crate::connector::classify;
use crate::connector::should_report;
use crate::partition::MAX_PORT;
use crate::partition::WorkerTask;
use crate::partition::lemma_partition_complete;
use crate::partition::lemma_partition_disjoint;
use crate::partition::lemma_ports_from_membership;
use crate::partition::make_tasks;
use crate::partition::next_port;
use crate::partition::ports_from;

verus! {

/// Whether some worker of a pool of `threads` probes port `p`.
pub open spec fn probed(threads: u16, p: u16) -> bool {
    exists|o: int|
        0 <= o < threads && #[trigger] ports_from((o + 1) as u16, threads).contains(p)
}

/// What one worker reports against an endpoint that accepts exactly the
/// ports listed in `open`: the accepted ports of its walk, in probe order.
pub open spec fn report_from(start: u16, stride: u16, open: Seq<u16>) -> Seq<u16>
    recommends
        1 <= stride,
    decreases MAX_PORT - start,
        when 1 <= stride
{
    let rest = if MAX_PORT - start <= stride {
        Seq::<u16>::empty()
    } else {
        report_from((start + stride) as u16, stride, open)
    };
    if open.contains(start) {
        seq![start] + rest
    } else {
        rest
    }
}

/// Every worker's report up to (excluding) worker index `count`, in worker
/// order: what the channel holds once those workers have run one after the
/// other.
pub open spec fn reports_upto(stride: u16, count: int, open: Seq<u16>) -> Seq<u16>
    recommends
        1 <= stride,
        0 <= count <= stride,
    decreases count,
{
    if count <= 0 {
        Seq::<u16>::empty()
    } else {
        reports_upto(stride, count - 1, open) + report_from(count as u16, stride, open)
    }
}

/// A port is in a concatenation exactly when it is in one of the parts.
proof fn lemma_concat_contains(a: Seq<u16>, b: Seq<u16>, p: u16)
    ensures
        (a + b).contains(p) <==> (a.contains(p) || b.contains(p)),
{
    if (a + b).contains(p) {
        let i = choose|i: int| 0 <= i < (a + b).len() && (a + b)[i] == p;
        if i < a.len() {
            assert(a[i] == p);
        } else {
            assert(b[i - a.len()] == p);
        }
    }
    if a.contains(p) {
        let i = choose|i: int| 0 <= i < a.len() && a[i] == p;
        assert((a + b)[i] == p);
    }
    if b.contains(p) {
        let i = choose|i: int| 0 <= i < b.len() && b[i] == p;
        assert((a + b)[a.len() + i] == p);
    }
}

/// A concatenation of two duplicate-free sequences with no port in common is
/// itself duplicate-free.
proof fn lemma_concat_no_duplicates(a: Seq<u16>, b: Seq<u16>)
    requires
        a.no_duplicates(),
        b.no_duplicates(),
        forall|p: u16| !(a.contains(p) && b.contains(p)),
    ensures
        (a + b).no_duplicates(),
{
    let c = a + b;
    assert forall|i: int, j: int|
        0 <= i < c.len() && 0 <= j < c.len() && i != j implies c[i] != c[j] by {
        if i < a.len() && j < a.len() {
            assert(c[i] == a[i] && c[j] == a[j]);
        } else if i >= a.len() && j >= a.len() {
            assert(c[i] == b[i - a.len()] && c[j] == b[j - a.len()]);
        } else if i < a.len() && j >= a.len() {
            if c[i] == c[j] {
                assert(a.contains(a[i]));
                assert(b[j - a.len()] == a[i]);
                assert(b.contains(a[i]));
            }
        } else {
            if c[i] == c[j] {
                assert(a.contains(a[j]));
                assert(b[i - a.len()] == a[j]);
                assert(b.contains(a[j]));
            }
        }
    }
}

/// A worker's report holds exactly the accepted ports of its walk.
pub proof fn lemma_report_from_membership(start: u16, stride: u16, open: Seq<u16>, p: u16)
    requires
        1 <= stride,
    ensures
        report_from(start, stride, open).contains(p) <==> (ports_from(start, stride).contains(p)
            && open.contains(p)),
    decreases MAX_PORT - start,
{
    let r = report_from(start, stride, open);
    let s = ports_from(start, stride);
    if MAX_PORT - start <= stride {
        assert(s =~= seq![start]);
        assert(s.contains(p) <==> p == start) by {
            if s.contains(p) {
                let i = choose|i: int| 0 <= i < s.len() && s[i] == p;
            }
            if p == start {
                assert(s[0] == p);
            }
        }
        if open.contains(start) {
            assert(r =~= seq![start] + Seq::<u16>::empty());
            lemma_concat_contains(seq![start], Seq::<u16>::empty(), p);
            assert(seq![start].contains(p) <==> p == start) by {
                if seq![start].contains(p) {
                    let i = choose|i: int| 0 <= i < seq![start].len() && seq![start][i] == p;
                }
                if p == start {
                    assert(seq![start][0] == p);
                }
            }
        } else {
            assert(r =~= Seq::<u16>::empty());
            assert(!r.contains(p));
        }
    } else {
        let q = (start + stride) as u16;
        lemma_report_from_membership(q, stride, open, p);
        let rest = report_from(q, stride, open);
        assert(s == seq![start] + ports_from(q, stride));
        lemma_concat_contains(seq![start], ports_from(q, stride), p);
        assert(seq![start].contains(p) <==> p == start) by {
            if seq![start].contains(p) {
                let i = choose|i: int| 0 <= i < seq![start].len() && seq![start][i] == p;
            }
            if p == start {
                assert(seq![start][0] == p);
            }
        }
        if open.contains(start) {
            assert(r == seq![start] + rest);
            lemma_concat_contains(seq![start], rest, p);
        } else {
            assert(r == rest);
        }
    }
}

/// A worker's report, like its walk, never repeats a port.
pub proof fn lemma_report_from_no_duplicates(start: u16, stride: u16, open: Seq<u16>)
    requires
        1 <= stride,
    ensures
        report_from(start, stride, open).no_duplicates(),
    decreases MAX_PORT - start,
{
    let r = report_from(start, stride, open);
    if MAX_PORT - start <= stride {
        if open.contains(start) {
            assert(r =~= seq![start] + Seq::<u16>::empty());
            assert(r.len() == 1);
        } else {
            assert(r =~= Seq::<u16>::empty());
        }
    } else {
        let q = (start + stride) as u16;
        lemma_report_from_no_duplicates(q, stride, open);
        let rest = report_from(q, stride, open);
        if open.contains(start) {
            assert(r == seq![start] + rest);
            assert(!rest.contains(start)) by {
                lemma_report_from_membership(q, stride, open, start);
                if ports_from(q, stride).contains(start) {
                    lemma_ports_from_membership(q, stride, start);
                    let k = choose|k: int|
                        k >= 0 && start as int == q as int + #[trigger] (k * stride as int);
                    assert(k * stride as int >= 0) by (nonlinear_arith)
                        requires
                            k >= 0,
                            stride as int >= 0,
                    ;
                }
            }
            assert forall|p: u16| !(seq![start].contains(p) && rest.contains(p)) by {
                if seq![start].contains(p) {
                    let i = choose|i: int| 0 <= i < seq![start].len() && seq![start][i] == p;
                    assert(p == start);
                }
            }
            assert(seq![start].no_duplicates());
            lemma_concat_no_duplicates(seq![start], rest);
        } else {
            assert(r == rest);
        }
    }
}

/// The gathered reports hold a port exactly when some already-run worker
/// reports it.
pub proof fn lemma_reports_upto_membership(stride: u16, count: int, open: Seq<u16>, p: u16)
    requires
        1 <= stride,
        0 <= count <= stride,
    ensures
        reports_upto(stride, count, open).contains(p) <==> exists|o: int|
            0 <= o < count && #[trigger] report_from((o + 1) as u16, stride, open).contains(p),
    decreases count,
{
    if count <= 0 {
        assert(!reports_upto(stride, count, open).contains(p));
    } else {
        lemma_reports_upto_membership(stride, count - 1, open, p);
        lemma_concat_contains(
            reports_upto(stride, count - 1, open),
            report_from(count as u16, stride, open),
            p,
        );
        assert(count as u16 == ((count - 1) + 1) as u16);
        if report_from(count as u16, stride, open).contains(p) {
            let o = count - 1;
            assert(report_from((o + 1) as u16, stride, open).contains(p));
        }
    }
}

/// The gathered reports never repeat a port: no worker repeats one, and the
/// partition keeps distinct workers' reports disjoint.
pub proof fn lemma_reports_upto_no_duplicates(stride: u16, count: int, open: Seq<u16>)
    requires
        1 <= stride,
        0 <= count <= stride,
    ensures
        reports_upto(stride, count, open).no_duplicates(),
    decreases count,
{
    if count <= 0 {
    } else {
        lemma_reports_upto_no_duplicates(stride, count - 1, open);
        lemma_report_from_no_duplicates(count as u16, stride, open);
        let a = reports_upto(stride, count - 1, open);
        let b = report_from(count as u16, stride, open);
        assert forall|p: u16| !(a.contains(p) && b.contains(p)) by {
            if a.contains(p) && b.contains(p) {
                lemma_reports_upto_membership(stride, count - 1, open, p);
                let o = choose|o: int|
                    0 <= o < count - 1 && #[trigger] report_from(
                        (o + 1) as u16,
                        stride,
                        open,
                    ).contains(p);
                lemma_report_from_membership((o + 1) as u16, stride, open, p);
                lemma_report_from_membership(count as u16, stride, open, p);
                lemma_partition_disjoint(stride, o as u16, (count - 1) as u16, p);
            }
        }
        lemma_concat_no_duplicates(a, b);
    }
}

/// For a worker count below the full width of the port space, the union of
/// all workers' probe walks is exactly the range from 1 to `MAX_PORT - 1`:
/// every such port is probed (by exactly one worker), and the top port falls
/// into the accepted boundary gap.
pub proof fn lemma_probed_iff(threads: u16, p: u16)
    requires
        1 <= threads < MAX_PORT,
    ensures
        probed(threads, p) <==> (1 <= p < MAX_PORT),
{
    if 1 <= p < MAX_PORT {
        lemma_partition_complete(threads, p);
        let o = (p - 1) as int % threads as int;
        assert(ports_from((o + 1) as u16, threads).contains(p));
        assert(probed(threads, p));
    }
    if probed(threads, p) {
        let o = choose|o: int|
            0 <= o < threads && #[trigger] ports_from((o + 1) as u16, threads).contains(p);
        lemma_ports_from_membership((o + 1) as u16, threads, p);
        let k = choose|k: int|
            k >= 0 && p as int == (o + 1) + #[trigger] (k * threads as int);
        assert(k * threads as int >= 0) by (nonlinear_arith)
            requires
                k >= 0,
                threads as int >= 0,
        ;
        assert(p as int >= o + 1);
        if p == MAX_PORT {
            assert(p as int == o + 1);
        }
    }
}

/// One probe against the endpoint model: the connect attempt on `p`
/// completes exactly when `open` lists `p`.
pub fn contains_port(open: &Vec<u16>, p: u16) -> (r: bool)
    ensures
        r == open@.contains(p),
{
    let mut i: usize = 0;
    while i < open.len()
        invariant
            i <= open@.len(),
            forall|k: int| 0 <= k < i ==> open@[k] != p,
        decreases open@.len() - i,
    {
        if open[i] == p {
            return true;
        }
        i = i + 1;
    }
    proof {
        if open@.contains(p) {
            let k = choose|k: int| 0 <= k < open@.len() && open@[k] == p;
        }
    }
    false
}

/// One worker's scan: walks its probe sequence in increasing order, probes
/// each port, classifies the outcome, and sends every port classified open
/// into the shared channel, exiting when its walk ends. The endpoint model
/// `open` stands in for the network.
pub fn worker_scan(task: &WorkerTask, open: &Vec<u16>, ch: &mut Channel)
    requires
        task.wf(),
        old(ch).senders >= 1,
    ensures
        final(ch).senders == old(ch).senders,
        final(ch).queue@ == old(ch).queue@ + report_from(
            (task.offset + 1) as u16,
            task.stride,
            open@,
        ),
{
    let mut port: u16 = task.offset + 1;
    proof {
        assert(old(ch).queue@ + report_from((task.offset + 1) as u16, task.stride, open@)
            == ch.queue@ + report_from(port, task.stride, open@));
    }
    loop
        invariant_except_break
            old(ch).queue@ + report_from((task.offset + 1) as u16, task.stride, open@)
                == ch.queue@ + report_from(port, task.stride, open@),
        invariant
            task.wf(),
            1 <= port <= MAX_PORT,
            ch.senders == old(ch).senders,
            old(ch).senders >= 1,
        ensures
            ch.senders == old(ch).senders,
            ch.queue@ == old(ch).queue@ + report_from(
                (task.offset + 1) as u16,
                task.stride,
                open@,
            ),
        decreases MAX_PORT - port,
    {
        let ghost q0 = ch.queue@;
        let connected = contains_port(open, port);
        let status = classify(connected);
        if should_report(status) {
            ch.send(port);
        }
        match next_port(port, task.stride) {
            Some(q) => {
                proof {
                    if open@.contains(port) {
                        assert(report_from(port, task.stride, open@) == seq![port] + report_from(
                            q,
                            task.stride,
                            open@,
                        ));
                        assert(q0.push(port) + report_from(q, task.stride, open@) =~= q0 + (
                        seq![port] + report_from(q, task.stride, open@)));
                    }
                }
                port = q;
            },
            None => {
                proof {
                    if open@.contains(port) {
                        assert(report_from(port, task.stride, open@) == seq![port]
                            + Seq::<u16>::empty());
                        assert(report_from(port, task.stride, open@) =~= seq![port]);
                        assert(q0.push(port) =~= q0 + report_from(port, task.stride, open@));
                    } else {
                        assert(report_from(port, task.stride, open@) =~= Seq::<u16>::empty());
                        assert(q0 =~= q0 + report_from(port, task.stride, open@));
                    }
                }
                break ;
            },
        }
    }
}

/// The whole engine against a modeled endpoint: computes the partition,
/// hands each worker a cloned sender handle into one shared channel and runs
/// it, releases the dispatcher's own handle — so the channel closes exactly
/// when the last worker exits — then lets the collector drain the channel to
/// closure and sort. The report is strictly ascending and holds exactly the
/// accepted ports that some worker probes.
pub fn dispatch(config: &ScanConfig, open: &Vec<u16>) -> (r: Vec<u16>)
    requires
        config.wf(),
    ensures
        sorted(r@),
        r@.no_duplicates(),
        strictly_ascending(r@),
        forall|p: u16|
            #[trigger] r@.contains(p) <==> (open@.contains(p) && probed(config.threads, p)),
        config.threads < MAX_PORT ==> forall|p: u16|
            #[trigger] r@.contains(p) <==> (open@.contains(p) && 1 <= p < MAX_PORT),
{
    let n = config.threads;
    let tasks = make_tasks(n);
    let mut ch = Channel::new(1);
    let mut i: usize = 0;
    proof {
        assert(ch.queue@ =~= reports_upto(n, 0, open@));
    }
    while i < tasks.len()
        invariant
            1 <= n,
            tasks@.len() == n as int,
            forall|k: int|
                0 <= k < n as int ==> #[trigger] tasks@[k] == (WorkerTask {
                    offset: k as u16,
                    stride: n,
                }),
            i <= tasks@.len(),
            ch.senders == 1,
            ch.queue@ == reports_upto(n, i as int, open@),
        decreases tasks@.len() - i,
    {
        let task = tasks[i];
        ch.clone_sender();
        worker_scan(&task, open, &mut ch);
        ch.drop_sender();
        proof {
            assert(task.offset == i as u16);
            assert((task.offset + 1) as u16 == (i + 1) as u16);
            assert(ch.queue@ == reports_upto(n, i as int, open@) + report_from(
                (i + 1) as u16,
                n,
                open@,
            ));
            assert(ch.queue@ == reports_upto(n, i as int + 1, open@));
        }
        i = i + 1;
    }
    ch.drop_sender();
    let ghost all = reports_upto(n, n as int, open@);
    let mut col = Collector::new();
    collect(&mut ch, &mut col);
    proof {
        assert(col.gathered@ =~= all);
    }
    let r = col.report();
    proof {
        lemma_reports_upto_no_duplicates(n, n as int, open@);
        lemma_no_duplicates_permutation(all, r@);
        lemma_sorted_no_duplicates_strict(r@);
        lemma_membership_permutation(all, r@);
        assert forall|p: u16|
            #[trigger] r@.contains(p) <==> (open@.contains(p) && probed(n, p)) by {
            lemma_reports_upto_membership(n, n as int, open@, p);
            if r@.contains(p) {
                let o = choose|o: int|
                    0 <= o < n as int && #[trigger] report_from((o + 1) as u16, n, open@).contains(
                        p,
                    );
                lemma_report_from_membership((o + 1) as u16, n, open@, p);
                assert(ports_from((o + 1) as u16, n).contains(p));
                assert(probed(n, p));
            }
            if open@.contains(p) && probed(n, p) {
                let o = choose|o: int|
                    0 <= o < n && #[trigger] ports_from((o + 1) as u16, n).contains(p);
                lemma_report_from_membership((o + 1) as u16, n, open@, p);
                assert(report_from((o + 1) as u16, n, open@).contains(p));
                assert(all.contains(p));
            }
        }
        if n < MAX_PORT {
            assert forall|p: u16|
                #[trigger] r@.contains(p) <==> (open@.contains(p) && 1 <= p < MAX_PORT) by {
                lemma_probed_iff(n, p);
            }
        }
    }
    r
}

/// Changing the worker count never changes the report. Any two strictly
/// ascending, duplicate-free reports that hold exactly the accepted probed
/// ports — produced with any two worker counts below the full width of the
/// port space, however unequal — are one and the same sequence, because
/// every such pool probes exactly the ports from 1 to `MAX_PORT - 1`.
pub proof fn lemma_worker_count_irrelevant(
    r1: Seq<u16>,
    r2: Seq<u16>,
    open: Seq<u16>,
    n1: u16,
    n2: u16,
)
    requires
        1 <= n1 < MAX_PORT,
        1 <= n2 < MAX_PORT,
        sorted(r1),
        r1.no_duplicates(),
        sorted(r2),
        r2.no_duplicates(),
        forall|p: u16| #[trigger] r1.contains(p) <==> (open.contains(p) && probed(n1, p)),
        forall|p: u16| #[trigger] r2.contains(p) <==> (open.contains(p) && probed(n2, p)),
    ensures
        r1 == r2,
{
    assert forall|p: u16| r1.contains(p) <==> r2.contains(p) by {
        lemma_probed_iff(n1, p);
        lemma_probed_iff(n2, p);
    }
    lemma_no_duplicates_same_membership(r1, r2);
    lemma_report_order_independent(r1, r2);
}

} // verus!
