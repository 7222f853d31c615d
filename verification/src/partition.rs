//! The static partition of the port space across workers.
//!
//! Worker `i` of a pool of `n` probes the ports `i+1, i+1+n, i+1+2n, ...` in
//! increasing order, and stops at the first port whose distance to the top of
//! the range is at most `n`. The partition needs no coordination: the slices
//! are pairwise disjoint, and together they cover every port from 1 to
//! `MAX_PORT - 1` (the top port itself falls into the accepted boundary gap
//! whenever the stride is below the full width of the range).

use vstd::prelude::*;

verus! {

/// Highest TCP port number; the scannable space is the range from 1 to this
/// value inclusive. Port 0 is never probed: every probe sequence starts at
/// its worker's offset plus one.
pub const MAX_PORT: u16 = 65535;

/// One worker's share of the port space: the ports congruent to
/// `offset + 1` modulo `stride`, probed in increasing order.
#[derive(Clone, Copy, PartialEq, Eq, Structural, Debug)]
pub struct WorkerTask {
    /// The worker's index, between 0 and `stride - 1`.
    pub offset: u16,
    /// Distance between consecutive probed ports: the worker count.
    pub stride: u16,
}

impl WorkerTask {
    /// A task is well formed when its stride is positive and its offset lies
    /// below the stride.
    pub open spec fn wf(self) -> bool {
        1 <= self.stride && self.offset < self.stride
    }

    /// The exact sequence of ports this worker probes, in probe order.
    pub open spec fn ports(self) -> Seq<u16>
        recommends
            self.wf(),
    {
        ports_from((self.offset + 1) as u16, self.stride)
    }
}

/// The probe walk that starts at `start` and advances by `stride`: each port
/// of the walk is probed, and the walk stops at the first port whose distance
/// to `MAX_PORT` is at most `stride` (the next step would leave the range).
/// The last few ports below `MAX_PORT` may therefore be skipped when the
/// stride does not divide the remaining span; that boundary gap is part of
/// the design, not repaired here.
pub open spec fn ports_from(start: u16, stride: u16) -> Seq<u16>
    recommends
        1 <= stride,
    decreases MAX_PORT - start,
        when 1 <= stride
{
    if MAX_PORT - start <= stride {
        seq![start]
    } else {
        seq![start] + ports_from((start + stride) as u16, stride)
    }
}

/// Whether `p` lies on the arithmetic progression that starts at `start`
/// and steps by `stride`.
pub open spec fn in_stride(start: int, stride: int, p: int) -> bool {
    exists|k: int| k >= 0 && p == start + #[trigger] (k * stride)
}

/// Exact membership of a probe walk: a port is probed starting at `start`
/// exactly when it lies on the progression and either sits below `MAX_PORT`
/// or is the starting port itself.
pub proof fn lemma_ports_from_membership(start: u16, stride: u16, p: u16)
    requires
        1 <= stride,
    ensures
        ports_from(start, stride).contains(p) <==> (in_stride(
            start as int,
            stride as int,
            p as int,
        ) && (p < MAX_PORT || p == start)),
    decreases MAX_PORT - start,
{
    let s = ports_from(start, stride);
    if MAX_PORT - start <= stride {
        assert(s =~= seq![start]);
        if p == start {
            assert(p as int == start as int + 0 * stride as int);
            assert(in_stride(start as int, stride as int, p as int));
            assert(s[0] == p);
            assert(s.contains(p));
        } else {
            assert(!s.contains(p)) by {
                if s.contains(p) {
                    let i = choose|i: int| 0 <= i < s.len() && s[i] == p;
                    assert(i == 0);
                }
            }
            if in_stride(start as int, stride as int, p as int) {
                let k = choose|k: int| k >= 0 && p as int == start as int + #[trigger] (k * stride as int);
                assert(k >= 1);
                assert(k * stride as int >= stride as int) by (nonlinear_arith)
                    requires
                        k >= 1,
                        stride as int >= 1,
                ;
                assert(p as int >= start as int + stride as int);
                assert(p == MAX_PORT);
            }
        }
    } else {
        let next = (start + stride) as u16;
        lemma_ports_from_membership(next, stride, p);
        let rest = ports_from(next, stride);
        assert(s == seq![start] + rest);
        assert(s.contains(p) <==> (p == start || rest.contains(p))) by {
            if s.contains(p) {
                let i = choose|i: int| 0 <= i < s.len() && s[i] == p;
                if i > 0 {
                    assert(rest[i - 1] == p);
                    assert(rest.contains(p));
                }
            }
            if p == start {
                assert(s[0] == p);
            }
            if rest.contains(p) {
                let i = choose|i: int| 0 <= i < rest.len() && rest[i] == p;
                assert(s[i + 1] == p);
            }
        }
        if p == start {
            assert(p as int == start as int + 0 * stride as int);
            assert(in_stride(start as int, stride as int, p as int));
        } else {
            // On the progression from `start` and distinct from it means:
            // on the progression from the next step, and conversely.
            assert(in_stride(start as int, stride as int, p as int) <==> in_stride(
                next as int,
                stride as int,
                p as int,
            )) by {
                if in_stride(start as int, stride as int, p as int) {
                    let k = choose|k: int|
                        k >= 0 && p as int == start as int + #[trigger] (k * stride as int);
                    assert(k >= 1);
                    assert((k - 1) * stride as int == k * stride as int - stride as int)
                        by (nonlinear_arith);
                    assert(p as int == next as int + (k - 1) * stride as int);
                    assert(in_stride(next as int, stride as int, p as int));
                }
                if in_stride(next as int, stride as int, p as int) {
                    let k = choose|k: int| k >= 0 && p as int == next as int + #[trigger] (k * stride as int);
                    assert((k + 1) * stride as int == k * stride as int + stride as int)
                        by (nonlinear_arith);
                    assert(p as int == start as int + (k + 1) * stride as int);
                    assert(in_stride(start as int, stride as int, p as int));
                }
            }
        }
    }
}

/// A probe walk is nonempty, starts at its starting port, and is strictly
/// increasing.
pub proof fn lemma_ports_from_increasing(start: u16, stride: u16)
    requires
        1 <= stride,
    ensures
        ports_from(start, stride).len() >= 1,
        ports_from(start, stride)[0] == start,
        forall|i: int, j: int|
            0 <= i < j < ports_from(start, stride).len() ==> ports_from(start, stride)[i]
                < ports_from(start, stride)[j],
    decreases MAX_PORT - start,
{
    let s = ports_from(start, stride);
    if MAX_PORT - start <= stride {
        assert(s =~= seq![start]);
    } else {
        let next = (start + stride) as u16;
        lemma_ports_from_increasing(next, stride);
        let rest = ports_from(next, stride);
        assert(s == seq![start] + rest);
        assert forall|i: int, j: int| 0 <= i < j < s.len() implies s[i] < s[j] by {
            if i == 0 {
                assert(s[j] == rest[j - 1]);
                if j - 1 > 0 {
                    assert(rest[0] < rest[j - 1]);
                }
                assert(rest[j - 1] >= next);
            } else {
                assert(s[i] == rest[i - 1] && s[j] == rest[j - 1]);
            }
        }
    }
}

/// A probe walk never repeats a port.
pub proof fn lemma_ports_from_no_duplicates(start: u16, stride: u16)
    requires
        1 <= stride,
    ensures
        ports_from(start, stride).no_duplicates(),
{
    let s = ports_from(start, stride);
    lemma_ports_from_increasing(start, stride);
    assert forall|i: int, j: int|
        0 <= i < s.len() && 0 <= j < s.len() && i != j implies s[i] != s[j] by {
        if i < j {
            assert(s[i] < s[j]);
        } else {
            assert(s[j] < s[i]);
        }
    }
}

/// Disjointness of the partition: two distinct workers sharing one stride
/// never probe the same port, so no port is probed twice across the pool.
pub proof fn lemma_partition_disjoint(n: u16, i: u16, j: u16, p: u16)
    requires
        1 <= n,
        i < n,
        j < n,
        i != j,
    ensures
        !(ports_from((i + 1) as u16, n).contains(p) && ports_from((j + 1) as u16, n).contains(p)),
{
    lemma_ports_from_membership((i + 1) as u16, n, p);
    lemma_ports_from_membership((j + 1) as u16, n, p);
    if ports_from((i + 1) as u16, n).contains(p) && ports_from((j + 1) as u16, n).contains(p) {
        let k1 = choose|k: int| k >= 0 && p as int == i + 1 + #[trigger] (k * n as int);
        let k2 = choose|k: int| k >= 0 && p as int == j + 1 + #[trigger] (k * n as int);
        assert(i + k1 * n as int == j + k2 * n as int);
        if k1 < k2 {
            assert((k2 - k1) * n as int >= n as int) by (nonlinear_arith)
                requires
                    k2 - k1 >= 1,
                    n as int >= 1,
            ;
            assert(k2 * n as int - k1 * n as int == (k2 - k1) * n as int) by (nonlinear_arith);
            assert(i - j >= n);
        } else if k2 < k1 {
            assert((k1 - k2) * n as int >= n as int) by (nonlinear_arith)
                requires
                    k1 - k2 >= 1,
                    n as int >= 1,
            ;
            assert(k1 * n as int - k2 * n as int == (k1 - k2) * n as int) by (nonlinear_arith);
            assert(j - i >= n);
        }
    }
}

/// Completeness of the partition modulo the boundary gap: every port from 1
/// to `MAX_PORT - 1` is probed by the worker whose offset is `(p - 1) % n`.
pub proof fn lemma_partition_complete(n: u16, p: u16)
    requires
        1 <= n,
        1 <= p,
        p < MAX_PORT,
    ensures
        ({
            let o = (p - 1) as int % n as int;
            0 <= o < n && ports_from((o + 1) as u16, n).contains(p)
        }),
{
    let x = (p - 1) as int;
    let m = n as int;
    let o = x % m;
    let k = x / m;
    vstd::arithmetic::div_mod::lemma_mod_division_less_than_divisor(x, m);
    vstd::arithmetic::div_mod::lemma_fundamental_div_mod(x, m);
    vstd::arithmetic::div_mod::lemma_div_pos_is_pos(x, m);
    assert(x == m * k + o);
    assert(k * m == m * k) by (nonlinear_arith);
    assert(p as int == (o + 1) + k * m);
    let start = (o + 1) as u16;
    assert(start as int == o + 1);
    lemma_ports_from_membership(start, n, p);
    assert(in_stride(start as int, m, p as int));
}

/// The accepted boundary gap: when the stride is below the full width of the
/// port space, no worker ever probes `MAX_PORT` itself.
pub proof fn lemma_boundary_gap(n: u16, o: u16)
    requires
        1 <= n < MAX_PORT,
        o < n,
    ensures
        !ports_from((o + 1) as u16, n).contains(MAX_PORT),
{
    lemma_ports_from_membership((o + 1) as u16, n, MAX_PORT);
}

/// The next port of a worker's walk, or `None` once the walk ends: the walk
/// stops as soon as the distance from `port` to `MAX_PORT` is at most
/// `stride`.
pub fn next_port(port: u16, stride: u16) -> (r: Option<u16>)
    ensures
        MAX_PORT - port > stride ==> r == Some((port + stride) as u16),
        MAX_PORT - port <= stride ==> r is None,
{
    if MAX_PORT - port > stride {
        Some(port + stride)
    } else {
        None
    }
}

/// One worker's full probe sequence, materialised in probe order.
pub fn worker_ports(task: &WorkerTask) -> (r: Vec<u16>)
    requires
        task.wf(),
    ensures
        r@ == task.ports(),
{
    let mut r: Vec<u16> = Vec::new();
    let mut port: u16 = task.offset + 1;
    proof {
        assert(task.ports() =~= r@ + ports_from(port, task.stride));
    }
    loop
        invariant_except_break
            task.ports() == r@ + ports_from(port, task.stride),
        invariant
            task.wf(),
            1 <= port <= MAX_PORT,
        ensures
            r@ == task.ports(),
        decreases MAX_PORT - port,
    {
        r.push(port);
        match next_port(port, task.stride) {
            Some(q) => {
                proof {
                    assert(ports_from(port, task.stride) == seq![port] + ports_from(
                        q,
                        task.stride,
                    ));
                    assert(task.ports() =~= r@ + ports_from(q, task.stride));
                }
                port = q;
            },
            None => {
                proof {
                    assert(ports_from(port, task.stride) =~= seq![port]);
                    assert(r@ =~= task.ports());
                }
                break ;
            },
        }
    }
    r
}

/// The dispatcher's partition: one task per worker, all sharing the worker
/// count as stride, with offsets 0 to `threads - 1`.
pub fn make_tasks(threads: u16) -> (r: Vec<WorkerTask>)
    requires
        1 <= threads,
    ensures
        r@.len() == threads as int,
        forall|i: int|
            0 <= i < threads as int ==> #[trigger] r@[i] == (WorkerTask {
                offset: i as u16,
                stride: threads,
            }),
{
    let mut r: Vec<WorkerTask> = Vec::new();
    let mut i: u16 = 0;
    while i < threads
        invariant
            i <= threads,
            r@.len() == i as int,
            forall|k: int|
                0 <= k < i as int ==> #[trigger] r@[k] == (WorkerTask {
                    offset: k as u16,
                    stride: threads,
                }),
        decreases threads - i,
    {
        r.push(WorkerTask { offset: i, stride: threads });
        i = i + 1;
    }
    r
}

} // verus!
