//! Laws of delivery, proved of every state that has the invariant.

use crate::lcb::invariants::{
    causes_delivered, fifo_ordered, lemma_causal_le_ordered, lemma_deliver_inv,
    lemma_insert_acks, lemma_pair_key_injective, lemma_record_ack_inv, lemma_stash_inv,
    lemma_try_deliver_inv, needs_majority,
};
use crate::lcb::model::{
    causal_count, key_of, majority, ordered_count, pair_key, DeliveredState, Topology,
};
use crate::lcb::payload::{PayloadKind, PayloadView};
use vstd::prelude::*;

verus! {

/// Counting over a prefix and the stretch that follows it.
pub proof fn lemma_count_split(log: Seq<PayloadView>, i: int, j: int, owner: u32)
    requires
        0 <= i <= j <= log.len(),
    ensures
        ordered_count(log.take(j), owner) == ordered_count(log.take(i), owner) + ordered_count(
            log.subrange(i, j),
            owner,
        ),
    decreases j - i,
{
    if i == j {
        assert(log.subrange(i, j) =~= Seq::empty());
    } else {
        lemma_count_split(log, i, j - 1, owner);
        assert(log.take(j).drop_last() =~= log.take(j - 1));
        assert(log.subrange(i, j).drop_last() =~= log.subrange(i, j - 1));
        assert(log.take(j).last() == log.subrange(i, j).last());
    }
}

/// A prefix of an ordered log is ordered.
pub proof fn lemma_fifo_prefix(log: Seq<PayloadView>, n: int)
    requires
        fifo_ordered(log),
        0 <= n <= log.len(),
    ensures
        fifo_ordered(log.take(n)),
{
    let prefix = log.take(n);
    assert forall|i: int| 0 <= i < prefix.len() && (#[trigger] prefix[i]).kind.ordered() implies
        prefix[i].uid == ordered_count(prefix.take(i), prefix[i].owner) + 1 by {
        assert(prefix.take(i) =~= log.take(i));
        assert(log[i].kind.ordered());
    }
}

/// In an ordered log that holds at least `number` ordered payloads of
/// `owner`, one of them carries `number`. The result is its place.
pub proof fn lemma_number_present(log: Seq<PayloadView>, owner: u32, number: nat) -> (j: int)
    requires
        fifo_ordered(log),
        1 <= number <= ordered_count(log, owner),
    ensures
        0 <= j < log.len(),
        log[j].owner == owner,
        log[j].kind.ordered(),
        log[j].uid == number,
    decreases log.len(),
{
    let rest = log.drop_last();
    let last = log.last();
    assert(log.take(log.len() - 1) =~= rest);
    if last.owner == owner && last.kind.ordered() && ordered_count(rest, owner) + 1 == number {
        assert(log[log.len() - 1].kind.ordered());
        log.len() - 1
    } else {
        lemma_fifo_prefix(log, log.len() - 1);
        lemma_number_present(rest, owner, number)
    }
}

/// Integrity: no packet is delivered twice. Two places of the log never
/// hold the same owner with the same packet number.
pub proof fn law_delivered_once(st: DeliveredState, topo: Topology, i: int, j: int)
    requires
        st.inv(topo),
        0 <= i < st.log.len(),
        0 <= j < st.log.len(),
        i != j,
    ensures
        st.log[i].owner != st.log[j].owner || st.log[i].uid != st.log[j].uid,
{
    lemma_pair_key_injective(st.log[i].owner, st.log[i].uid, st.log[j].owner, st.log[j].uid);
    if i < j {
        assert(key_of(st.log[i]) != key_of(st.log[j]));
    } else {
        assert(key_of(st.log[j]) != key_of(st.log[i]));
    }
}

/// A packet is in the delivered set exactly if the log holds it, and then
/// it is no longer among the undelivered payloads.
pub proof fn law_delivered_set_is_log(st: DeliveredState, topo: Topology, owner: u32, uid: u32)
    requires
        st.inv(topo),
    ensures
        st.delivered(owner, uid) <==> exists|i: int|
            0 <= i < st.log.len() && (#[trigger] st.log[i]).owner == owner && st.log[i].uid == uid,
        st.delivered(owner, uid) ==> !st.undelivered.contains_key(pair_key(owner, uid)),
{
    let key = pair_key(owner, uid);
    if st.delivered(owner, uid) {
        let i = choose|i: int| 0 <= i < st.log.len() && key_of(#[trigger] st.log[i]) == key;
        lemma_pair_key_injective(st.log[i].owner, st.log[i].uid, owner, uid);
        if st.undelivered.contains_key(key) {
            assert(!st.set.contains(key));
        }
    }
    if exists|i: int|
        0 <= i < st.log.len() && (#[trigger] st.log[i]).owner == owner && st.log[i].uid == uid {
        let i = choose|i: int|
            0 <= i < st.log.len() && (#[trigger] st.log[i]).owner == owner && st.log[i].uid == uid;
        assert(st.set.contains(key_of(st.log[i])));
    }
}

/// The expected number of an owner is one more than the ordered payloads
/// delivered from it, and its clock entry is the number of causal payloads
/// delivered from it.
pub proof fn law_counts(st: DeliveredState, topo: Topology, owner: u32)
    requires
        st.inv(topo),
    ensures
        st.next_expected(owner) - 1 == ordered_count(st.log, owner),
        owner <= topo.total_nodes ==> st.vector_clock[owner as int] == causal_count(st.log, owner),
        owner > topo.total_nodes ==> causal_count(st.log, owner) == 0,
{
    assert(st.next_expected(owner) == ordered_count(st.log, owner) + 1);
    assert(causal_count(st.log, owner) == if owner < st.vector_clock.len() {
        st.vector_clock[owner as int] as nat
    } else {
        0
    });
}

/// Each counter is the number of distinct senders that acknowledged its
/// packet.
pub proof fn law_ack_counter(st: DeliveredState, topo: Topology, owner: u32, uid: u32)
    requires
        st.inv(topo),
    ensures
        st.ackers(pair_key(owner, uid)).finite(),
        st.ack_count(pair_key(owner, uid)) == st.ackers(pair_key(owner, uid)).len(),
        forall|sender: u32|
            st.acked_by(sender, owner, uid) <==> st.ackers(pair_key(owner, uid)).contains(sender),
{
    assert(st.ackers(pair_key(owner, uid)).finite());
}

/// A payload of a uniform kind is delivered only with a majority behind
/// it: the senders that acknowledged it are at least half the nodes and one.
pub proof fn law_delivered_had_majority(st: DeliveredState, topo: Topology, i: int)
    requires
        st.inv(topo),
        0 <= i < st.log.len(),
        needs_majority(st.log[i].kind),
    ensures
        st.ackers(pair_key(st.log[i].owner, st.log[i].uid)).finite(),
        st.ackers(pair_key(st.log[i].owner, st.log[i].uid)).len() >= majority(topo.total_nodes),
        2 * st.ackers(pair_key(st.log[i].owner, st.log[i].uid)).len() > topo.total_nodes,
{
    let key = key_of(st.log[i]);
    assert(st.ack_count(key) >= majority(topo.total_nodes));
    assert(st.ackers(key).finite() && st.ack_count(key) == st.ackers(key).len());
}

/// FIFO order: of two ordered payloads of one owner, the one delivered
/// later carries the larger number, larger by the count of that owner's
/// ordered payloads delivered from the first up to the second. So the
/// numbers ascend by one from each such delivery to the next.
pub proof fn law_fifo_order(st: DeliveredState, topo: Topology, i: int, j: int)
    requires
        st.inv(topo),
        0 <= i < j < st.log.len(),
        st.log[i].kind.ordered(),
        st.log[j].kind.ordered(),
        st.log[i].owner == st.log[j].owner,
    ensures
        st.log[i].uid == ordered_count(st.log.take(i), st.log[i].owner) + 1,
        st.log[j].uid == st.log[i].uid + ordered_count(st.log.subrange(i, j), st.log[i].owner),
        st.log[i].uid < st.log[j].uid,
{
    let log = st.log;
    let owner = log[i].owner;
    lemma_count_split(log, i, j, owner);
    lemma_count_split(log, i, i + 1, owner);
    lemma_count_split(log, i + 1, j, owner);
    assert(log.take(i + 1).drop_last() =~= log.take(i));
    assert(log.take(i + 1).last() == log[i]);
}

/// Causal order: a causal payload is delivered only after every ordered
/// payload that its clock names. If the payload at place `i` is causal, its
/// owner depends on `owner`, and `number` is at most the entry of `owner` in
/// its clock, then packet `number` of `owner` stands before place `i`. The
/// result is where.
pub proof fn law_causal_order(
    st: DeliveredState,
    topo: Topology,
    i: int,
    d: int,
    number: u32,
) -> (j: int)
    requires
        st.inv(topo),
        0 <= i < st.log.len(),
        st.log[i].kind == PayloadKind::Lcb,
        0 <= d < topo.dependencies(st.log[i].owner).len(),
        1 <= number <= st.log[i].vector_clock[topo.dependencies(st.log[i].owner)[d] as int],
    ensures
        0 <= j < i,
        st.log[j].owner == topo.dependencies(st.log[i].owner)[d],
        st.log[j].uid == number,
        st.log[j].kind.ordered(),
{
    let log = st.log;
    let dep = topo.dependencies(log[i].owner)[d];
    let before = log.take(i);
    assert(causes_delivered(topo, before, log[i]));
    assert(causal_count(before, dep) >= log[i].vector_clock[dep as int]);
    lemma_causal_le_ordered(before, dep);
    lemma_fifo_prefix(log, i);
    let j = lemma_number_present(before, dep, number as nat);
    assert(before[j] == log[j]);
    j
}

/// Causal order, read from the delivered payload: an ordered payload `q`
/// that the clock of a causal payload `p` names, from an owner that the
/// owner of `p` depends on, was delivered before `p`.
pub proof fn law_cause_comes_first(st: DeliveredState, topo: Topology, p: int, q: int, d: int)
    requires
        st.inv(topo),
        0 <= p < st.log.len(),
        0 <= q < st.log.len(),
        st.log[p].kind == PayloadKind::Lcb,
        st.log[q].kind.ordered(),
        0 <= d < topo.dependencies(st.log[p].owner).len(),
        st.log[q].owner == topo.dependencies(st.log[p].owner)[d],
        st.log[q].uid <= st.log[p].vector_clock[st.log[q].owner as int],
    ensures
        q < p,
{
    let log = st.log;
    assert(log[q].uid == ordered_count(log.take(q), log[q].owner) + 1);
    let j = law_causal_order(st, topo, p, d, log[q].uid);
    if j != q {
        law_delivered_once(st, topo, j, q);
    }
}

/// A payload that can be delivered when it arrives is delivered by its
/// arrival. Payloads of the kinds without a condition always can.
pub proof fn law_deliverable_is_delivered(
    st: DeliveredState,
    topo: Topology,
    sender: u32,
    p: PayloadView,
)
    requires
        st.inv(topo),
        st.fits(topo, p),
        st.record_ack(sender, p).stash(p).can_deliver(topo, p),
    ensures
        st.insert(topo, sender, p).delivered(p.owner, p.uid),
        p.kind == PayloadKind::Tcp || p.kind == PayloadKind::Beb || p.kind == PayloadKind::Rb
            ==> st.record_ack(sender, p).stash(p).can_deliver(topo, p),
{
    lemma_record_ack_inv(st, topo, sender, p);
    let acked = st.record_ack(sender, p);
    let key = key_of(p);
    if !acked.set.contains(key) {
        lemma_stash_inv(acked, topo, p);
        let stashed = acked.stash(p);
        let work = seq![(p.owner, p.uid)];
        assert(work.last() == (p.owner, p.uid));
        assert(stashed.undelivered.contains_key(key));
        assert(stashed.undelivered[key] == p);
        lemma_deliver_inv(stashed, topo, key);
        let next = stashed.unstash(key).deliver(p);
        lemma_try_deliver_inv(next, topo, work.drop_last() + next.follow_ups(topo, p));
        assert(next.set.contains(key));
    }
}

/// A payload that cannot be delivered when it arrives waits among the
/// undelivered payloads, and nothing else changes but the acknowledgement.
pub proof fn law_undeliverable_waits(
    st: DeliveredState,
    topo: Topology,
    sender: u32,
    p: PayloadView,
)
    requires
        st.inv(topo),
        !st.delivered(p.owner, p.uid),
        !st.record_ack(sender, p).stash(p).can_deliver(topo, p),
    ensures
        st.insert(topo, sender, p) == st.record_ack(sender, p).stash(p),
        st.insert(topo, sender, p).log == st.log,
{
    lemma_record_ack_inv(st, topo, sender, p);
    let stashed = st.record_ack(sender, p).stash(p);
    let work = seq![(p.owner, p.uid)];
    assert(work.last() == (p.owner, p.uid));
    assert(stashed.undelivered.dom() =~= st.undelivered.dom().insert(key_of(p)));
}

/// A payload that arrives again, from a sender whose acknowledgement of it
/// is recorded, changes nothing.
pub proof fn law_repeated_arrival(
    st: DeliveredState,
    topo: Topology,
    first: u32,
    again: u32,
    p: PayloadView,
)
    requires
        st.inv(topo),
        st.fits(topo, p),
        st.insert(topo, first, p).acked_by(again, p.owner, p.uid),
    ensures
        st.insert(topo, first, p).insert(topo, again, p) == st.insert(topo, first, p),
{
    lemma_record_ack_inv(st, topo, first, p);
    let acked = st.record_ack(first, p);
    let key = key_of(p);
    let once = st.insert(topo, first, p);
    let work = seq![(p.owner, p.uid)];
    assert(work.last() == (p.owner, p.uid));
    assert(once.ackers(key).insert(again) =~= once.ackers(key));
    assert(once.record_ack(again, p).acked =~= once.acked);
    assert(once.record_ack(again, p) == once);
    if acked.set.contains(key) {
    } else {
        lemma_stash_inv(acked, topo, p);
        let stashed = acked.stash(p);
        assert(stashed.undelivered[key] == p);
        if stashed.can_deliver(topo, p) {
            lemma_deliver_inv(stashed, topo, key);
            let next = stashed.unstash(key).deliver(p);
            lemma_try_deliver_inv(next, topo, work.drop_last() + next.follow_ups(topo, p));
            assert(once.set.contains(key));
        } else {
            assert(once == stashed);
            assert(stashed.stash(p).undelivered =~= stashed.undelivered);
            assert(stashed.stash(p) == stashed);
        }
    }
}

/// Duplicates change nothing: the same payload arriving again from the
/// same sender leaves the state as the first arrival left it, so nothing is
/// delivered a second time.
pub proof fn law_duplicate_arrival(st: DeliveredState, topo: Topology, sender: u32, p: PayloadView)
    requires
        st.inv(topo),
        st.fits(topo, p),
    ensures
        st.insert(topo, sender, p).insert(topo, sender, p) == st.insert(topo, sender, p),
{
    lemma_insert_acks(st, topo, sender, p);
    law_repeated_arrival(st, topo, sender, sender, p);
}

} // verus!
