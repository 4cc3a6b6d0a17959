//! The broker's client registry and relay rules.
//!
//! The broker accepts socket connections, gives each one a fresh
//! identifier, and relays every line received from one client to all
//! other registered clients. This module holds the registry bookkeeping
//! and the relay decisions: which clients a broadcast targets, which
//! lines are admitted, and the exact bytes written to each target. The
//! sockets and threads live with the caller, which keys its writer
//! handles by the identifiers handed out here.

use crate::config::MAX_MSG_LEN;
use vstd::prelude::*;
use vstd::string::StrSliceExecFns;
use vstd::utf8::encode_utf8;

verus! {

/// The clients a broadcast from `sender` is delivered to: every
/// registered client but the sender, in registration order.
pub open spec fn targets_of(ids: Seq<u64>, sender: u64) -> Seq<u64> {
    ids.filter(|x: u64| x != sender)
}

/// The live client registry: the identifiers of the connections that
/// completed registration, and the next identifier to hand out.
pub struct Registry {
    pub ids: Vec<u64>,
    pub next_id: u64,
}

impl Registry {
    /// Identifiers are pairwise distinct and below the next one, so an
    /// identifier is never reused within the registry's lifetime.
    pub open spec fn wf(&self) -> bool {
        &&& forall|i: int| 0 <= i < self.ids@.len() ==> #[trigger] self.ids@[i] < self.next_id
        &&& forall|i: int, j: int|
            0 <= i < j < self.ids@.len() ==> self.ids@[i] != self.ids@[j]
    }

    /// An empty registry.
    pub fn new() -> (r: Registry)
        ensures
            r.wf(),
            r.ids@ == Seq::<u64>::empty(),
            r.next_id == 0,
    {
        Registry { ids: Vec::new(), next_id: 0 }
    }

    /// Register a newly accepted connection: it gets the next
    /// identifier, which joins the registry.
    pub fn register(&mut self) -> (id: u64)
        requires
            old(self).wf(),
            old(self).next_id < u64::MAX,
        ensures
            final(self).wf(),
            id == old(self).next_id,
            final(self).ids@ == old(self).ids@.push(id),
            final(self).next_id == old(self).next_id + 1,
    {
        let id = self.next_id;
        self.next_id = self.next_id + 1;
        self.ids.push(id);
        proof {
            assert forall|i: int, j: int|
                0 <= i < j < self.ids@.len() implies self.ids@[i] != self.ids@[j] by {
                if j < old(self).ids@.len() {
                    assert(old(self).ids@[i] != old(self).ids@[j]);
                } else {
                    assert(old(self).ids@[i] < id);
                }
            }
        }
        id
    }

    /// Remove a client on disconnect; every other client stays, in order.
    pub fn deregister(&mut self, id: u64)
        requires
            old(self).wf(),
        ensures
            final(self).wf(),
            final(self).ids@ == targets_of(old(self).ids@, id),
            final(self).next_id == old(self).next_id,
    {
        let kept = filtered_ids(&self.ids, id);
        proof {
            lemma_targets_membership(self.ids@, id);
            lemma_targets_no_dup(self.ids@, id);
            let t = targets_of(self.ids@, id);
            assert forall|i: int| 0 <= i < t.len() implies #[trigger] t[i] < self.next_id by {
                assert(self.ids@.contains(t[i]));
                let w = choose|w: int| 0 <= w < self.ids@.len() && self.ids@[w] == t[i];
                assert(self.ids@[w] < self.next_id);
            }
        }
        self.ids = kept;
    }

    /// The snapshot of clients a line from `sender` is relayed to.
    pub fn targets(&self, sender: u64) -> (v: Vec<u64>)
        ensures
            v@ == targets_of(self.ids@, sender),
    {
        filtered_ids(&self.ids, sender)
    }
}

/// All identifiers except `excluded`, in order.
fn filtered_ids(ids: &Vec<u64>, excluded: u64) -> (v: Vec<u64>)
    ensures
        v@ == targets_of(ids@, excluded),
{
    let mut out: Vec<u64> = Vec::new();
    let mut i: usize = 0;
    proof {
        reveal(Seq::filter);
        assert(ids@.take(0) =~= Seq::<u64>::empty());
        assert(out@ =~= targets_of(ids@.take(0), excluded));
    }
    while i < ids.len()
        invariant
            i <= ids@.len(),
            out@ == targets_of(ids@.take(i as int), excluded),
        decreases ids@.len() - i,
    {
        let x = ids[i];
        if x != excluded {
            out.push(x);
        }
        proof {
            reveal(Seq::filter);
            assert(ids@.take(i + 1 as int).drop_last() =~= ids@.take(i as int));
            assert(ids@.take(i + 1 as int).last() == ids@[i as int]);
            assert(out@ =~= targets_of(ids@.take(i + 1 as int), excluded));
        }
        i = i + 1;
    }
    proof {
        assert(ids@.take(ids@.len() as int) =~= ids@);
    }
    out
}

/// Targets are registered clients other than the sender — all of them,
/// and nothing else.
pub proof fn lemma_targets_membership(ids: Seq<u64>, sender: u64)
    ensures
        forall|k: int|
            0 <= k < targets_of(ids, sender).len() ==> ids.contains(
                #[trigger] targets_of(ids, sender)[k],
            ) && targets_of(ids, sender)[k] != sender,
        forall|x: u64| ids.contains(x) && x != sender ==> targets_of(ids, sender).contains(x),
        !targets_of(ids, sender).contains(sender),
    decreases ids.len(),
{
    reveal(Seq::filter);
    let t = targets_of(ids, sender);
    if ids.len() == 0 {
    } else {
        let dl = ids.drop_last();
        let last = ids.last();
        lemma_targets_membership(dl, sender);
        let td = targets_of(dl, sender);
        assert forall|k: int|
            0 <= k < t.len() implies ids.contains(#[trigger] t[k]) && t[k] != sender by {
            if k < td.len() {
                assert(t[k] == td[k]);
                assert(dl.contains(td[k]));
                let w = choose|w: int| 0 <= w < dl.len() && dl[w] == td[k];
                assert(ids[w] == t[k]);
            } else {
                assert(t[k] == last);
                assert(ids[ids.len() - 1] == last);
            }
        }
        assert forall|x: u64| ids.contains(x) && x != sender implies t.contains(x) by {
            let w = choose|w: int| 0 <= w < ids.len() && ids[w] == x;
            if w < ids.len() - 1 {
                assert(dl[w] == x);
                assert(dl.contains(x));
                assert(td.contains(x));
                let k = choose|k: int| 0 <= k < td.len() && td[k] == x;
                assert(t[k] == x);
            } else {
                assert(x == last);
                assert(t[t.len() - 1] == x);
            }
        }
    }
}

/// With distinct registered identifiers, no target appears twice: a
/// relayed line reaches each other client at most once.
pub proof fn lemma_targets_no_dup(ids: Seq<u64>, sender: u64)
    requires
        forall|i: int, j: int| 0 <= i < j < ids.len() ==> ids[i] != ids[j],
    ensures
        forall|i: int, j: int|
            0 <= i < j < targets_of(ids, sender).len() ==> targets_of(ids, sender)[i]
                != targets_of(ids, sender)[j],
    decreases ids.len(),
{
    reveal(Seq::filter);
    let t = targets_of(ids, sender);
    if ids.len() > 0 {
        let dl = ids.drop_last();
        let last = ids.last();
        assert forall|i: int, j: int| 0 <= i < j < dl.len() implies dl[i] != dl[j] by {
            assert(ids[i] != ids[j]);
        }
        lemma_targets_no_dup(dl, sender);
        lemma_targets_membership(dl, sender);
        let td = targets_of(dl, sender);
        assert forall|i: int, j: int|
            0 <= i < j < t.len() implies t[i] != t[j] by {
            if j < td.len() {
                assert(t[i] == td[i] && t[j] == td[j]);
            } else {
                assert(t[j] == last);
                assert(t[i] == td[i]);
                assert(dl.contains(td[i]));
                let w = choose|w: int| 0 <= w < dl.len() && dl[w] == td[i];
                assert(ids[w] == td[i]);
                assert(ids[w] != ids[ids.len() - 1]);
            }
        }
    }
}

/// Law: a broadcast from a registered sender is addressed to every other
/// registered client exactly once (the target list has no duplicates),
/// and never to the sender itself.
pub proof fn lemma_broadcast_targets(r: Registry, sender: u64, j: u64)
    requires
        r.wf(),
    ensures
        targets_of(r.ids@, sender).contains(j) <==> (r.ids@.contains(j) && j != sender),
        !targets_of(r.ids@, sender).contains(sender),
        forall|i1: int, i2: int|
            0 <= i1 < i2 < targets_of(r.ids@, sender).len() ==> targets_of(r.ids@, sender)[i1]
                != targets_of(r.ids@, sender)[i2],
{
    lemma_targets_membership(r.ids@, sender);
    lemma_targets_no_dup(r.ids@, sender);
    let t = targets_of(r.ids@, sender);
    if t.contains(j) {
        let k = choose|k: int| 0 <= k < t.len() && t[k] == j;
        assert(r.ids@.contains(t[k]) && t[k] != sender);
    }
}

/// Law: a client that is not registered when the target snapshot is
/// taken — because it already disconnected or has not yet connected —
/// receives nothing from that broadcast; in particular a deregistered
/// client is never targeted again.
pub proof fn lemma_no_stale_delivery(ids: Seq<u64>, gone: u64, sender: u64)
    ensures
        !ids.contains(gone) ==> !targets_of(ids, sender).contains(gone),
        !targets_of(targets_of(ids, gone), sender).contains(gone),
{
    lemma_targets_membership(ids, sender);
    if !ids.contains(gone) && targets_of(ids, sender).contains(gone) {
        let t = targets_of(ids, sender);
        let k = choose|k: int| 0 <= k < t.len() && t[k] == gone;
        assert(ids.contains(t[k]));
    }
    lemma_targets_membership(ids, gone);
    lemma_targets_membership(targets_of(ids, gone), sender);
    let tg = targets_of(ids, gone);
    let t2 = targets_of(tg, sender);
    if t2.contains(gone) {
        let k = choose|k: int| 0 <= k < t2.len() && t2[k] == gone;
        assert(tg.contains(t2[k]));
        let w = choose|w: int| 0 <= w < tg.len() && tg[w] == gone;
        assert(tg[w] != gone);
    }
}

/// Law: a client that registers only after a broadcast's target snapshot
/// was taken receives nothing from it: the identifier that `register`
/// hands out next is absent from every earlier snapshot.
pub proof fn lemma_late_joiner(r: Registry, sender: u64)
    requires
        r.wf(),
    ensures
        !r.ids@.contains(r.next_id),
        !targets_of(r.ids@, sender).contains(r.next_id),
{
    if r.ids@.contains(r.next_id) {
        let w = choose|w: int| 0 <= w < r.ids@.len() && r.ids@[w] == r.next_id;
        assert(r.ids@[w] < r.next_id);
    }
    lemma_no_stale_delivery(r.ids@, r.next_id, sender);
}

/// Whether the broker relays a received line: anything longer than the
/// fixed maximum (in bytes) is dropped, and the connection stays open.
pub fn admit_line(line: &str) -> (r: bool)
    ensures
        r <==> encode_utf8(line@).len() <= MAX_MSG_LEN,
{
    let b = line.as_bytes();
    b.len() <= MAX_MSG_LEN
}

/// The exact bytes written to each target: the line, with a trailing
/// newline appended.
pub fn broadcast_payload(line: &str) -> (r: Vec<u8>)
    ensures
        r@ == encode_utf8(line@) + seq![10u8],
{
    let mut v = line.as_bytes_vec();
    v.push(10u8);
    proof {
        assert(v@ =~= encode_utf8(line@) + seq![10u8]);
    }
    v
}

} // verus!
