//! What holds of every delivered state that the delivery rules can reach,
//! and the proofs that each rule keeps it.

use crate::lcb::model::{
    causal_count, key_of, majority, ordered_count, pair_key, DeliveredState, Topology,
};
use crate::lcb::payload::{PayloadKind, PayloadView};
use vstd::prelude::*;
use vstd::relations::injective_on;
use vstd::set_lib::{lemma_int_range, lemma_len_subset, lemma_map_size, set_int_range};

verus! {

/// In `log`, the n-th payload of an ordered kind from one owner carries the
/// packet number n.
pub open spec fn fifo_ordered(log: Seq<PayloadView>) -> bool {
    forall|i: int|
        0 <= i < log.len() && (#[trigger] log[i]).kind.ordered() ==> log[i].uid == ordered_count(
            log.take(i),
            log[i].owner,
        ) + 1
}

/// Whether `before` holds, from each owner that the owner of `p` depends
/// on, at least as many causal payloads as the clock of `p` asks.
pub open spec fn causes_delivered(topo: Topology, before: Seq<PayloadView>, p: PayloadView) -> bool {
    forall|d: int|
        0 <= d < topo.dependencies(p.owner).len() ==> causal_count(
            before,
            #[trigger] topo.dependencies(p.owner)[d],
        ) >= p.vector_clock[topo.dependencies(p.owner)[d] as int]
}

/// In `log`, every causal payload comes after the causal payloads that its
/// clock asks for.
pub open spec fn causally_ordered(topo: Topology, log: Seq<PayloadView>) -> bool {
    forall|i: int|
        0 <= i < log.len() && (#[trigger] log[i]).kind == PayloadKind::Lcb ==> causes_delivered(
            topo,
            log.take(i),
            log[i],
        )
}

/// The kinds that are delivered only once a majority has acknowledged the
/// payload.
pub open spec fn needs_majority(kind: PayloadKind) -> bool {
    kind == PayloadKind::Urb || kind == PayloadKind::Fifob || kind == PayloadKind::Lcb
}

impl DeliveredState {
    /// Every delivered payload of a kind that needs a majority has the
    /// acknowledgements of one.
    pub open spec fn majority_backed(self, topo: Topology) -> bool {
        forall|i: int|
            0 <= i < self.log.len() && needs_majority((#[trigger] self.log[i]).kind)
                ==> self.ack_count(key_of(self.log[i])) >= majority(topo.total_nodes)
    }

    /// Every undelivered payload is kept under its own key, has not been
    /// delivered, and fits.
    pub open spec fn stash_sound(self, topo: Topology) -> bool {
        &&& self.undelivered.dom().finite()
        &&& forall|k: u64| #[trigger]
            self.undelivered.contains_key(k) ==> {
                &&& !self.set.contains(k)
                &&& key_of(self.undelivered[k]) == k
                &&& self.fits(topo, self.undelivered[k])
            }
    }

    /// The delivered set holds the packets of the log, and the log holds
    /// none of them twice.
    pub open spec fn delivered_once(self) -> bool {
        &&& forall|i: int, j: int|
            0 <= i < j < self.log.len() ==> key_of(#[trigger] self.log[i]) != key_of(
                #[trigger] self.log[j],
            )
        &&& forall|i: int| 0 <= i < self.log.len() ==> self.set.contains(key_of(#[trigger] self.log[i]))
        &&& forall|k: u64| #[trigger]
            self.set.contains(k) ==> exists|i: int|
                0 <= i < self.log.len() && key_of(#[trigger] self.log[i]) == k
    }

    /// The expected numbers and the clock count what the log holds.
    pub open spec fn clocks_count(self) -> bool {
        &&& forall|o: u32| #[trigger] self.next_expected(o) == ordered_count(self.log, o) + 1
        &&& forall|o: u32| #[trigger]
            causal_count(self.log, o) == if o < self.vector_clock.len() {
                self.vector_clock[o as int] as nat
            } else {
                0
            }
    }

    /// Each counter is the number of senders recorded for its packet.
    pub open spec fn acks_counted(self) -> bool {
        forall|k: u64|
            (#[trigger] self.ackers(k)).finite() && self.ack_count(k) == self.ackers(k).len()
    }

    /// What holds of every state that the delivery rules reach from the
    /// initial one.
    pub open spec fn inv(self, topo: Topology) -> bool {
        &&& self.vector_clock.len() == topo.total_nodes + 1
        &&& self.stash_sound(topo)
        &&& self.delivered_once()
        &&& self.clocks_count()
        &&& self.acks_counted()
        &&& fifo_ordered(self.log)
        &&& causally_ordered(topo, self.log)
        &&& self.majority_backed(topo)
    }

    /// Whether `self` comes from `before` by deliveries alone: the log has
    /// grown at its end, the delivered set has grown, and the
    /// acknowledgements are the same.
    pub open spec fn extends(self, before: DeliveredState) -> bool {
        &&& before.log.len() <= self.log.len()
        &&& self.log.take(before.log.len() as int) == before.log
        &&& before.set.subset_of(self.set)
        &&& self.acked == before.acked
        &&& self.acked_counter == before.acked_counter
        &&& self.vector_clock.len() == before.vector_clock.len()
    }
}

/// Two packets have the same key only if they have the same owner and the
/// same number.
pub proof fn lemma_pair_key_injective(o1: u32, u1: u32, o2: u32, u2: u32)
    ensures
        pair_key(o1, u1) == pair_key(o2, u2) <==> (o1 == o2 && u1 == u2),
{
}

/// Counting after one more payload.
pub proof fn lemma_count_push(log: Seq<PayloadView>, p: PayloadView, owner: u32)
    ensures
        ordered_count(log.push(p), owner) == ordered_count(log, owner) + if p.owner == owner
            && p.kind.ordered() {
            1nat
        } else {
            0nat
        },
        causal_count(log.push(p), owner) == causal_count(log, owner) + if p.owner == owner
            && p.kind == PayloadKind::Lcb {
            1nat
        } else {
            0nat
        },
{
    assert(log.push(p).drop_last() =~= log);
    assert(log.push(p).last() == p);
}

/// A log holds no more causal payloads of an owner than ordered ones.
pub proof fn lemma_causal_le_ordered(log: Seq<PayloadView>, owner: u32)
    ensures
        causal_count(log, owner) <= ordered_count(log, owner),
    decreases log.len(),
{
    if log.len() > 0 {
        lemma_causal_le_ordered(log.drop_last(), owner);
    }
}

/// A finite set of node ids has at most 2^32 members.
pub proof fn lemma_id_set_bound(s: Set<u32>)
    requires
        s.finite(),
    ensures
        s.len() <= 0x1_0000_0000,
{
    let f = |a: u32| a as int;
    let image = s.map(f);
    assert(injective_on(f, s));
    lemma_map_size(s, image, f);
    lemma_int_range(0, 0x1_0000_0000);
    assert(image.subset_of(set_int_range(0, 0x1_0000_0000)));
    lemma_len_subset(image, set_int_range(0, 0x1_0000_0000));
}

/// The state of a node that has seen nothing has the invariant.
pub proof fn lemma_initial_inv(topo: Topology)
    ensures
        DeliveredState::initial(topo.total_nodes).inv(topo),
{
    let st = DeliveredState::initial(topo.total_nodes);
    assert(st.undelivered.dom() =~= Set::empty());
    assert forall|k: u64| (#[trigger] st.ackers(k)).finite() && st.ack_count(k) == st.ackers(
        k,
    ).len() by {}
}

/// Recording an acknowledgement keeps the invariant.
pub proof fn lemma_record_ack_inv(st: DeliveredState, topo: Topology, sender: u32, p: PayloadView)
    requires
        st.inv(topo),
    ensures
        st.record_ack(sender, p).inv(topo),
        st.record_ack(sender, p).log == st.log,
        st.record_ack(sender, p).set == st.set,
        st.record_ack(sender, p).undelivered == st.undelivered,
{
    let next = st.record_ack(sender, p);
    let key = key_of(p);
    lemma_id_set_bound(st.ackers(key));
    assert(st.ackers(key).finite());
    assert forall|k: u64| (#[trigger] next.ackers(k)).finite() && next.ack_count(k) == next.ackers(
        k,
    ).len() by {
        assert(st.ackers(k).finite() && st.ack_count(k) == st.ackers(k).len());
        if k == key {
            assert(next.ackers(k) == st.ackers(key).insert(sender));
        } else {
            assert(next.ackers(k) == st.ackers(k));
        }
    }
    assert forall|k: u64| #[trigger] next.undelivered.contains_key(k) implies {
        &&& !next.set.contains(k)
        &&& key_of(next.undelivered[k]) == k
        &&& next.fits(topo, next.undelivered[k])
    } by {
        assert(st.undelivered.contains_key(k));
    }
    assert forall|o: u32| #[trigger] next.next_expected(o) == ordered_count(next.log, o) + 1 by {
        assert(st.next_expected(o) == ordered_count(st.log, o) + 1);
    }
    assert forall|i: int|
        0 <= i < next.log.len() && needs_majority((#[trigger] next.log[i]).kind) implies next.ack_count(
        key_of(next.log[i]),
    ) >= majority(topo.total_nodes) by {
        assert(st.ack_count(key_of(st.log[i])) >= majority(topo.total_nodes));
        assert(st.ack_count(key) == st.ackers(key).len());
    }
}

/// Stashing a payload that fits and has not been delivered keeps the
/// invariant.
pub proof fn lemma_stash_inv(st: DeliveredState, topo: Topology, p: PayloadView)
    requires
        st.inv(topo),
        st.fits(topo, p),
        !st.set.contains(key_of(p)),
    ensures
        st.stash(p).inv(topo),
{
    let next = st.stash(p);
    assert(next.undelivered.dom() =~= st.undelivered.dom().insert(key_of(p)));
    assert forall|k: u64| #[trigger] next.undelivered.contains_key(k) implies {
        &&& !next.set.contains(k)
        &&& key_of(next.undelivered[k]) == k
        &&& next.fits(topo, next.undelivered[k])
    } by {
        if k != key_of(p) {
            assert(st.undelivered.contains_key(k));
        }
    }
    assert forall|k: u64|
        (#[trigger] next.ackers(k)).finite() && next.ack_count(k) == next.ackers(k).len() by {
        assert(st.ackers(k).finite() && st.ack_count(k) == st.ackers(k).len());
    }
    assert forall|o: u32| #[trigger] next.next_expected(o) == ordered_count(next.log, o) + 1 by {
        assert(st.next_expected(o) == ordered_count(st.log, o) + 1);
    }
    assert forall|i: int|
        0 <= i < next.log.len() && needs_majority((#[trigger] next.log[i]).kind) implies next.ack_count(
        key_of(next.log[i]),
    ) >= majority(topo.total_nodes) by {
        assert(st.ack_count(key_of(st.log[i])) >= majority(topo.total_nodes));
    }
}

/// Delivering an undelivered payload that the rules allow keeps the
/// invariant.
pub proof fn lemma_deliver_inv(st: DeliveredState, topo: Topology, key: u64)
    requires
        st.inv(topo),
        st.undelivered.contains_key(key),
        st.can_deliver(topo, st.undelivered[key]),
    ensures
        st.unstash(key).deliver(st.undelivered[key]).inv(topo),
        st.unstash(key).deliver(st.undelivered[key]).extends(st),
        st.unstash(key).deliver(st.undelivered[key]).undelivered.dom().len()
            < st.undelivered.dom().len(),
{
    let p = st.undelivered[key];
    let next = st.unstash(key).deliver(p);
    let log = st.log;
    let grown = log.push(p);
    assert(key_of(p) == key);
    assert(next.log == grown);
    assert(next.undelivered.dom() =~= st.undelivered.dom().remove(key));
    assert(grown.take(log.len() as int) =~= log);
    assert(st.next_expected(p.owner) == ordered_count(log, p.owner) + 1);
    lemma_causal_le_ordered(log, p.owner);
    assert(causal_count(log, p.owner) == if p.owner < st.vector_clock.len() {
        st.vector_clock[p.owner as int] as nat
    } else {
        0
    });

    // the undelivered payloads
    assert forall|k: u64| #[trigger] next.undelivered.contains_key(k) implies {
        &&& !next.set.contains(k)
        &&& key_of(next.undelivered[k]) == k
        &&& next.fits(topo, next.undelivered[k])
    } by {
        assert(st.undelivered.contains_key(k));
        assert(st.fits(topo, st.undelivered[k]));
    }

    // the delivered set and the log
    assert forall|i: int, j: int| 0 <= i < j < grown.len() implies key_of(#[trigger] grown[i])
        != key_of(#[trigger] grown[j]) by {
        if j == log.len() {
            assert(st.set.contains(key_of(log[i])));
        } else {
            assert(key_of(log[i]) != key_of(log[j]));
        }
    }
    assert forall|i: int| 0 <= i < grown.len() implies next.set.contains(
        key_of(#[trigger] grown[i]),
    ) by {
        if i < log.len() {
            assert(st.set.contains(key_of(log[i])));
        }
    }
    assert forall|k: u64| #[trigger] next.set.contains(k) implies exists|i: int|
        0 <= i < grown.len() && key_of(#[trigger] grown[i]) == k by {
        if k == key {
            assert(key_of(grown[log.len() as int]) == k);
        } else {
            assert(st.set.contains(k));
            let i = choose|i: int| 0 <= i < log.len() && key_of(#[trigger] log[i]) == k;
            assert(key_of(grown[i]) == k);
        }
    }

    // the counts
    assert forall|o: u32| #[trigger] next.next_expected(o) == ordered_count(grown, o) + 1 by {
        lemma_count_push(log, p, o);
        assert(st.next_expected(o) == ordered_count(log, o) + 1);
    }
    assert forall|o: u32| #[trigger]
        causal_count(grown, o) == if o < next.vector_clock.len() {
            next.vector_clock[o as int] as nat
        } else {
            0
        } by {
        lemma_count_push(log, p, o);
        assert(causal_count(log, o) == if o < st.vector_clock.len() {
            st.vector_clock[o as int] as nat
        } else {
            0
        });
    }
    assert forall|k: u64|
        (#[trigger] next.ackers(k)).finite() && next.ack_count(k) == next.ackers(k).len() by {
        assert(st.ackers(k).finite() && st.ack_count(k) == st.ackers(k).len());
    }

    // the majorities
    assert forall|i: int|
        0 <= i < grown.len() && needs_majority((#[trigger] grown[i]).kind) implies next.ack_count(
        key_of(grown[i]),
    ) >= majority(topo.total_nodes) by {
        if i < log.len() {
            assert(needs_majority(log[i].kind));
            assert(st.ack_count(key_of(log[i])) >= majority(topo.total_nodes));
        }
    }

    // the order
    assert forall|i: int| 0 <= i < grown.len() && (#[trigger] grown[i]).kind.ordered() implies
        grown[i].uid == ordered_count(grown.take(i), grown[i].owner) + 1 by {
        if i < log.len() {
            assert(grown.take(i) =~= log.take(i));
            assert(log[i].kind.ordered());
        } else {
            assert(grown.take(i) =~= log);
        }
    }
    assert forall|i: int| 0 <= i < grown.len() && (#[trigger] grown[i]).kind
        == PayloadKind::Lcb implies causes_delivered(topo, grown.take(i), grown[i]) by {
        if i < log.len() {
            assert(grown.take(i) =~= log.take(i));
            assert(log[i].kind == PayloadKind::Lcb);
            assert(causes_delivered(topo, log.take(i), log[i]));
        } else {
            assert(grown.take(i) =~= log);
            assert(st.dependencies_met(topo, p));
            assert(st.fits(topo, p));
            let deps = topo.dependencies(p.owner);
            assert forall|d: int| 0 <= d < deps.len() implies causal_count(log, #[trigger] deps[d])
                >= p.vector_clock[deps[d] as int] by {
                let dep = deps[d];
                assert(dep < st.vector_clock.len());
                assert(causal_count(log, dep) == if dep < st.vector_clock.len() {
                    st.vector_clock[dep as int] as nat
                } else {
                    0
                });
                assert(st.vector_clock[dep as int] >= p.vector_clock[dep as int]);
            }
        }
    }
}

/// Trying packets keeps the invariant, and only delivers.
pub proof fn lemma_try_deliver_inv(st: DeliveredState, topo: Topology, work: Seq<(u32, u32)>)
    requires
        st.inv(topo),
    ensures
        st.try_deliver(topo, work).inv(topo),
        st.try_deliver(topo, work).extends(st),
    decreases st.undelivered.dom().len(), work.len(),
{
    assert(st.log.take(st.log.len() as int) =~= st.log);
    if work.len() > 0 {
        let key = pair_key(work.last().0, work.last().1);
        if !st.undelivered.contains_key(key) {
            lemma_try_deliver_inv(st, topo, work.drop_last());
        } else {
            let p = st.undelivered[key];
            if st.can_deliver(topo, p) {
                lemma_deliver_inv(st, topo, key);
                let next = st.unstash(key).deliver(p);
                let more = work.drop_last() + next.follow_ups(topo, p);
                lemma_try_deliver_inv(next, topo, more);
                let last = next.try_deliver(topo, more);
                assert(last.log.take(st.log.len() as int) =~= st.log) by {
                    assert(last.log.take(next.log.len() as int) == next.log);
                    assert(next.log.take(st.log.len() as int) == st.log);
                    assert(last.log.take(next.log.len() as int).take(st.log.len() as int)
                        =~= last.log.take(st.log.len() as int));
                }
            }
        }
    }
}

/// The arrival of a payload that fits keeps the invariant.
pub proof fn lemma_insert_inv(st: DeliveredState, topo: Topology, sender: u32, p: PayloadView)
    requires
        st.inv(topo),
        st.fits(topo, p),
    ensures
        st.insert(topo, sender, p).inv(topo),
        st.insert(topo, sender, p).log.len() >= st.log.len(),
        st.insert(topo, sender, p).log.take(st.log.len() as int) == st.log,
        st.set.subset_of(st.insert(topo, sender, p).set),
{
    lemma_record_ack_inv(st, topo, sender, p);
    let acked = st.record_ack(sender, p);
    assert(st.log.take(st.log.len() as int) =~= st.log);
    if !acked.set.contains(key_of(p)) {
        lemma_stash_inv(acked, topo, p);
        lemma_try_deliver_inv(acked.stash(p), topo, seq![(p.owner, p.uid)]);
    }
}

/// The arrival of a payload records its sender's acknowledgement, and
/// keeps every acknowledgement recorded before.
pub proof fn lemma_insert_acks(st: DeliveredState, topo: Topology, sender: u32, p: PayloadView)
    requires
        st.inv(topo),
        st.fits(topo, p),
    ensures
        st.insert(topo, sender, p).acked_by(sender, p.owner, p.uid),
        forall|s: u32, o: u32, u: u32|
            st.acked_by(s, o, u) ==> #[trigger] st.insert(topo, sender, p).acked_by(s, o, u),
        forall|s: u32, o: u32, u: u32|
            #[trigger] st.insert(topo, sender, p).acked_by(s, o, u) ==> st.acked_by(s, o, u) || (s
                == sender && o == p.owner && u == p.uid),
{
    lemma_record_ack_inv(st, topo, sender, p);
    let acked = st.record_ack(sender, p);
    let after = st.insert(topo, sender, p);
    if !acked.set.contains(key_of(p)) {
        lemma_stash_inv(acked, topo, p);
        lemma_try_deliver_inv(acked.stash(p), topo, seq![(p.owner, p.uid)]);
    }
    assert(after.acked == acked.acked);
    assert forall|s: u32, o: u32, u: u32| #[trigger]
        after.acked_by(s, o, u) implies st.acked_by(s, o, u) || (s == sender && o == p.owner && u
        == p.uid) by {
        lemma_pair_key_injective(o, u, p.owner, p.uid);
    }
}

} // verus!
