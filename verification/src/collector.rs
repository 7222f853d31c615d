//! The result channel's lifecycle and the collector.
//!
//! Every worker reports its open ports through one shared multi-producer,
//! single-consumer channel. The channel counts as closed only when every
//! sender handle is gone — each worker drops its handle when it exits, and
//! the dispatcher releases its own right after spawning, so closure is the
//! signal that every worker has finished. The collector appends each received
//! port, moves to `Done` exactly on closure, and only then sorts the gathered
//! ports into the final report.

use vstd::prelude::*;
use vstd::relations::sorted_by;
use vstd::relations::total_ordering;
use vstd::seq_lib::lemma_sorted_unique;

verus! {

/// A sequence of ports in ascending order (repeats allowed).
pub open spec fn sorted(s: Seq<u16>) -> bool {
    forall|i: int, j: int| 0 <= i <= j < s.len() ==> s[i] <= s[j]
}

/// A sequence of ports in strictly ascending order: sorted and free of
/// duplicates.
pub open spec fn strictly_ascending(s: Seq<u16>) -> bool {
    forall|i: int, j: int| 0 <= i < j < s.len() ==> s[i] < s[j]
}

/// Model of the shared result channel: the ports sent but not yet received,
/// in arrival order, and the number of live sender handles.
pub struct Channel {
    /// Sent but not yet received ports, oldest first.
    pub queue: Vec<u16>,
    /// Live sender handles: one per running worker, plus the dispatcher's
    /// own handle until it releases it.
    pub senders: u32,
}

/// What one receive attempt yields: the oldest queued port, or the closure
/// signal once the queue is drained and every sender handle is gone.
#[derive(Clone, Copy, PartialEq, Eq, Structural, Debug)]
pub enum RecvOutcome {
    /// A worker reported this port as open.
    Port(u16),
    /// The channel is closed: nothing queued and no live sender.
    Disconnected,
}

impl Channel {
    /// A fresh channel with `senders` live sender handles and nothing queued.
    pub fn new(senders: u32) -> (r: Channel)
        ensures
            r.queue@ == Seq::<u16>::empty(),
            r.senders == senders,
    {
        Channel { queue: Vec::new(), senders }
    }

    /// The channel reports closure exactly in this state.
    pub open spec fn closed(self) -> bool {
        self.senders == 0 && self.queue@.len() == 0
    }

    /// A worker reports one open port: the port joins the end of the queue.
    /// Ownership of the value transfers to the channel; sending never blocks.
    pub fn send(&mut self, p: u16)
        requires
            old(self).senders >= 1,
        ensures
            final(self).queue@ == old(self).queue@.push(p),
            final(self).senders == old(self).senders,
    {
        self.queue.push(p);
    }

    /// A new sender handle, cloned for one more producer: the dispatcher
    /// hands one to each worker it spawns.
    pub fn clone_sender(&mut self)
        requires
            old(self).senders >= 1,
            old(self).senders < u32::MAX,
        ensures
            final(self).senders == old(self).senders + 1,
            final(self).queue@ == old(self).queue@,
    {
        self.senders = self.senders + 1;
    }

    /// One sender handle goes out of scope: a worker exiting, or the
    /// dispatcher releasing the handle it never sends on.
    pub fn drop_sender(&mut self)
        requires
            old(self).senders >= 1,
        ensures
            final(self).senders == old(self).senders - 1,
            final(self).queue@ == old(self).queue@,
    {
        self.senders = self.senders - 1;
    }

    /// One receive: yields the oldest queued port, or `Disconnected` exactly
    /// when the queue is empty and every sender handle is gone. A receive on
    /// an empty queue with live senders blocks instead, so that state is
    /// excluded here.
    pub fn recv(&mut self) -> (r: RecvOutcome)
        requires
            old(self).queue@.len() > 0 || old(self).senders == 0,
        ensures
            final(self).senders == old(self).senders,
            (r is Disconnected) <==> old(self).closed(),
            old(self).queue@.len() > 0 ==> r == RecvOutcome::Port(old(self).queue@[0])
                && final(self).queue@ == old(self).queue@.drop_first(),
            old(self).queue@.len() == 0 ==> final(self).queue@ == old(self).queue@,
    {
        if self.queue.len() > 0 {
            let p = self.queue.remove(0);
            proof {
                assert(old(self).queue@.remove(0) =~= old(self).queue@.drop_first());
            }
            RecvOutcome::Port(p)
        } else {
            RecvOutcome::Disconnected
        }
    }
}

/// The collector: accumulates reported ports and reaches `Done` exactly when
/// the channel closes.
pub struct Collector {
    /// Every port received so far, in arrival order.
    pub gathered: Vec<u16>,
    /// Whether the closure signal has arrived. Terminal: no step leaves it.
    pub done: bool,
}

impl Collector {
    /// A collector that has received nothing and is still collecting.
    pub fn new() -> (r: Collector)
        ensures
            r.gathered@ == Seq::<u16>::empty(),
            !r.done,
    {
        Collector { gathered: Vec::new(), done: false }
    }

    /// One transition of the collector: a received port is appended to the
    /// gathered sequence, and the closure signal — nothing else — moves the
    /// collector to `Done`. It therefore never finishes while a worker still
    /// holds a sender handle, and never keeps waiting once closure arrives.
    pub fn step(&mut self, event: RecvOutcome)
        requires
            !old(self).done,
        ensures
            final(self).done <==> (event is Disconnected),
            match event {
                RecvOutcome::Port(p) => final(self).gathered@ == old(self).gathered@.push(p),
                RecvOutcome::Disconnected => final(self).gathered@ == old(self).gathered@,
            },
    {
        match event {
            RecvOutcome::Port(p) => {
                self.gathered.push(p);
            },
            RecvOutcome::Disconnected => {
                self.done = true;
            },
        }
    }

    /// The final report: the gathered ports, sorted ascending. Available only
    /// once the collector is `Done`; no partial report is ever handed out.
    pub fn report(&self) -> (r: Vec<u16>)
        requires
            self.done,
        ensures
            sorted(r@),
            r@.to_multiset() == self.gathered@.to_multiset(),
    {
        sort_ports(&self.gathered)
    }
}

/// The collect loop, entered once every sender handle is gone: drains the
/// channel in arrival order and reaches `Done`. Together with the contracts
/// of [`Channel::recv`] and [`Collector::step`] this is the channel-closure
/// guarantee: the collector terminates exactly when all workers have exited,
/// missing none of their reports.
pub fn collect(ch: &mut Channel, col: &mut Collector)
    requires
        old(ch).senders == 0,
        !old(col).done,
    ensures
        final(col).done,
        final(col).gathered@ == old(col).gathered@ + old(ch).queue@,
        final(ch).closed(),
{
    loop
        invariant_except_break
            !col.done,
        invariant
            ch.senders == 0,
            col.gathered@ + ch.queue@ == old(col).gathered@ + old(ch).queue@,
        ensures
            col.done,
            ch.queue@.len() == 0,
            col.gathered@ + ch.queue@ == old(col).gathered@ + old(ch).queue@,
        decreases ch.queue@.len(),
    {
        let ghost q0 = ch.queue@;
        let ghost g0 = col.gathered@;
        let event = ch.recv();
        col.step(event);
        if col.done {
            proof {
                assert(col.gathered@ + ch.queue@ == g0 + q0);
            }
            break ;
        }
        proof {
            assert(q0 =~= seq![q0[0]] + q0.drop_first());
            assert(g0.push(q0[0]) + q0.drop_first() =~= g0 + q0);
        }
    }
    proof {
        assert(col.gathered@ + ch.queue@ =~= col.gathered@);
    }
}

/// Sorts a gathered sequence of ports ascending by straight insertion. The
/// result is a permutation of the input: same ports, same multiplicities.
pub fn sort_ports(input: &Vec<u16>) -> (r: Vec<u16>)
    ensures
        sorted(r@),
        r@.to_multiset() == input@.to_multiset(),
{
    broadcast use vstd::seq_lib::group_to_multiset_ensures;

    let mut r: Vec<u16> = Vec::new();
    let mut idx: usize = 0;
    proof {
        assert(input@.subrange(0, 0) =~= Seq::<u16>::empty());
        assert(r@.to_multiset() =~= input@.subrange(0, 0).to_multiset());
    }
    while idx < input.len()
        invariant
            idx <= input@.len(),
            sorted(r@),
            r@.to_multiset() == input@.subrange(0, idx as int).to_multiset(),
        decreases input@.len() - idx,
    {
        let x = input[idx];
        let mut pos: usize = 0;
        while pos < r.len() && r[pos] <= x
            invariant
                pos <= r@.len(),
                forall|k: int| 0 <= k < pos ==> r@[k] <= x,
            decreases r@.len() - pos,
        {
            pos = pos + 1;
        }
        let ghost r0 = r@;
        r.insert(pos, x);
        proof {
            broadcast use vstd::seq_lib::group_to_multiset_ensures;

            r0.insert_ensures(pos as int, x);
            assert(sorted(r@)) by {
                assert forall|i: int, j: int| 0 <= i <= j < r@.len() implies r@[i] <= r@[j] by {
                    if i < pos {
                        assert(r@[i] == r0[i]);
                    }
                    if j < pos {
                        assert(r@[j] == r0[j]);
                    }
                    if i > pos {
                        assert(r@[i] == r0[i - 1]);
                    }
                    if j > pos {
                        assert(r@[j] == r0[j - 1]);
                        if j - 1 >= pos && pos < r0.len() {
                            assert(!(r0[pos as int] <= x));
                            assert(r0[pos as int] <= r0[j - 1]);
                        }
                    }
                }
            }
            vstd::seq_lib::to_multiset_insert(r0, pos as int, x);
            assert(input@.subrange(0, idx + 1) =~= input@.subrange(0, idx as int).push(x));
            assert(input@.subrange(0, idx as int).push(x).to_multiset() == input@.subrange(
                0,
                idx as int,
            ).to_multiset().insert(x));
            assert(r@.to_multiset() =~= input@.subrange(0, idx + 1).to_multiset());
        }
        idx = idx + 1;
    }
    proof {
        assert(input@.subrange(0, input@.len() as int) =~= input@);
    }
    r
}

/// A sorted sequence without duplicates is strictly ascending.
pub proof fn lemma_sorted_no_duplicates_strict(s: Seq<u16>)
    requires
        sorted(s),
        s.no_duplicates(),
    ensures
        strictly_ascending(s),
{
    assert forall|i: int, j: int| 0 <= i < j < s.len() implies s[i] < s[j] by {
        assert(s[i] <= s[j]);
        assert(s[i] != s[j]);
    }
}

/// Freedom from duplicates carries across a permutation.
pub proof fn lemma_no_duplicates_permutation(a: Seq<u16>, b: Seq<u16>)
    requires
        a.no_duplicates(),
        a.to_multiset() == b.to_multiset(),
    ensures
        b.no_duplicates(),
{
    broadcast use vstd::seq_lib::group_to_multiset_ensures;

    a.lemma_multiset_has_no_duplicates();
    b.lemma_multiset_has_no_duplicates_conv();
}

/// Membership carries across a permutation.
pub proof fn lemma_membership_permutation(a: Seq<u16>, b: Seq<u16>)
    requires
        a.to_multiset() == b.to_multiset(),
    ensures
        forall|p: u16| a.contains(p) <==> b.contains(p),
{
    broadcast use vstd::seq_lib::group_to_multiset_ensures;

    assert forall|p: u16| a.contains(p) <==> b.contains(p) by {
        assert(a.contains(p) <==> a.to_multiset().count(p) > 0);
        assert(b.contains(p) <==> b.to_multiset().count(p) > 0);
    }
}

/// Two sequences free of duplicates that hold the same ports are
/// permutations of one another.
pub proof fn lemma_no_duplicates_same_membership(a: Seq<u16>, b: Seq<u16>)
    requires
        a.no_duplicates(),
        b.no_duplicates(),
        forall|p: u16| a.contains(p) <==> b.contains(p),
    ensures
        a.to_multiset() == b.to_multiset(),
{
    broadcast use vstd::seq_lib::group_to_multiset_ensures;

    a.lemma_multiset_has_no_duplicates();
    b.lemma_multiset_has_no_duplicates();
    assert forall|p: u16| a.to_multiset().count(p) == b.to_multiset().count(p) by {
        assert(a.contains(p) <==> a.to_multiset().count(p) > 0);
        assert(b.contains(p) <==> b.to_multiset().count(p) > 0);
        if a.contains(p) {
            assert(a.to_multiset().contains(p));
            assert(b.to_multiset().contains(p));
        }
    }
    assert(a.to_multiset() =~= b.to_multiset());
}

/// Result ordering does not depend on arrival order: two sorted reports of
/// the same collection of ports — however the workers' notifications were
/// interleaved on the way in — are one and the same sequence.
pub proof fn lemma_report_order_independent(a: Seq<u16>, b: Seq<u16>)
    requires
        sorted(a),
        sorted(b),
        a.to_multiset() == b.to_multiset(),
    ensures
        a == b,
{
    let leq = |x: u16, y: u16| x <= y;
    assert(total_ordering(leq));
    assert(sorted_by(a, leq));
    assert(sorted_by(b, leq));
    lemma_sorted_unique(a, b, leq);
    assert(a =~= b);
}

} // verus!
