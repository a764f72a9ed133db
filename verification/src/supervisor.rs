//! The stream supervisor's state: the set of active per-stream
//! monitors, keyed by stream name, and the reconciliation of that set
//! against a discovery snapshot. Removal of an entry cancels its
//! monitor's signal; a stream present in both the set and the snapshot
//! keeps its monitor untouched; a new stream gets a fresh handle and is
//! reported for spawning.

use vstd::prelude::*;

verus! {

/// Fixed namespace prefix of the log streams this subsystem collects.
pub const LOG_STREAM_PREFIX: &'static str = "system:container-logs:";

/// One-shot cooperative cancellation signal, owned by the supervisor
/// and scoped to exactly one monitor.
#[derive(Clone, Copy, PartialEq, Eq, Structural, Debug)]
pub struct MonitorHandle {
    pub cancelled: bool,
}

/// The handle's state after a cancellation request.
pub open spec fn spec_cancel(h: MonitorHandle) -> MonitorHandle {
    MonitorHandle { cancelled: true }
}

impl MonitorHandle {
    /// A fresh handle whose signal is not set.
    pub fn new() -> (h: MonitorHandle)
        ensures
            !h.cancelled,
    {
        MonitorHandle { cancelled: false }
    }

    /// Request cancellation of the monitor observing this handle.
    pub fn cancel(&mut self)
        ensures
            *final(self) == spec_cancel(*old(self)),
            final(self).cancelled,
    {
        self.cancelled = true;
    }
}

/// Cancelling a handle twice has exactly the effect of cancelling once:
/// the signal is one-shot and setting it again changes nothing.
pub proof fn lemma_cancel_idempotent(h: MonitorHandle)
    ensures
        spec_cancel(spec_cancel(h)) == spec_cancel(h),
        spec_cancel(h).cancelled,
{
}

/// An entry of the active-stream set: a stream name bound to the
/// cancellation handle of its monitor.
pub struct StreamEntry {
    pub name: Vec<u8>,
    pub handle: MonitorHandle,
}

pub open spec fn has_name(s: Seq<StreamEntry>, k: Seq<u8>) -> bool {
    exists|i: int| 0 <= i < s.len() && (#[trigger] s[i]).name@ == k
}

pub open spec fn names_unique(s: Seq<StreamEntry>) -> bool {
    forall|i: int, j: int| 0 <= i < j < s.len() ==> (#[trigger] s[i]).name@ != (#[trigger] s[j]).name@
}

pub open spec fn entry_handle(s: Seq<StreamEntry>, k: Seq<u8>) -> MonitorHandle {
    s[choose|i: int| 0 <= i < s.len() && (#[trigger] s[i]).name@ == k].handle
}

proof fn lemma_entry_handle(s: Seq<StreamEntry>, k: Seq<u8>, i: int)
    requires
        names_unique(s),
        0 <= i < s.len(),
        s[i].name@ == k,
    ensures
        entry_handle(s, k) == s[i].handle,
{
    let j = choose|j: int| 0 <= j < s.len() && (#[trigger] s[j]).name@ == k;
    if i < j {
        assert(s[i].name@ != s[j].name@);
    } else if j < i {
        assert(s[j].name@ != s[i].name@);
    }
}

/// `k` occurs among the snapshot's names.
pub open spec fn snap_has(s: Seq<Vec<u8>>, k: Seq<u8>) -> bool {
    exists|i: int| 0 <= i < s.len() && (#[trigger] s[i])@ == k
}

/// The set of streams with a running (or just-cancelled) monitor,
/// viewed as a map from stream name to monitor handle.
pub struct ActiveStreamSet {
    pub entries: Vec<StreamEntry>,
}

impl View for ActiveStreamSet {
    type V = Map<Seq<u8>, MonitorHandle>;

    open spec fn view(&self) -> Map<Seq<u8>, MonitorHandle> {
        Map::new(
            |k: Seq<u8>| has_name(self.entries@, k),
            |k: Seq<u8>| entry_handle(self.entries@, k),
        )
    }
}

/// What reconciliation did: entries whose streams vanished, with their
/// handles cancelled, and the names of streams to spawn monitors for.
pub struct ReconcileOutcome {
    pub cancelled: Vec<StreamEntry>,
    pub spawned: Vec<Vec<u8>>,
}

/// Relation between the set before and after one reconciliation against
/// snapshot `snap`, with outcome `out`.
pub open spec fn reconcile_post(
    pre: Map<Seq<u8>, MonitorHandle>,
    post: Map<Seq<u8>, MonitorHandle>,
    snap: Seq<Vec<u8>>,
    out: ReconcileOutcome,
) -> bool {
    // a stream that vanished is removed and its monitor cancelled
    &&& forall|k: Seq<u8>|
        pre.dom().contains(k) && !snap_has(snap, k) ==> !post.dom().contains(k) && has_name(
            out.cancelled@,
            k,
        )
    &&& forall|i: int|
        0 <= i < out.cancelled@.len() ==> (#[trigger] out.cancelled@[i]).handle.cancelled
            && pre.dom().contains(out.cancelled@[i].name@) && !snap_has(
            snap,
            out.cancelled@[i].name@,
        )
    // a stream present in both keeps its monitor and is not re-spawned
    &&& forall|k: Seq<u8>|
        pre.dom().contains(k) && snap_has(snap, k) ==> post.dom().contains(k) && post[k] == pre[k]
            && !snap_has(out.spawned@, k)
    // a new stream gets a fresh monitor and is reported for spawning
    &&& forall|k: Seq<u8>|
        !pre.dom().contains(k) && snap_has(snap, k) ==> post.dom().contains(k)
            && !post[k].cancelled && snap_has(out.spawned@, k)
    &&& forall|i: int|
        0 <= i < out.spawned@.len() ==> !pre.dom().contains((#[trigger] out.spawned@[i])@)
            && snap_has(snap, out.spawned@[i]@)
    // the set holds exactly the snapshot's streams afterwards
    &&& forall|k: Seq<u8>| post.dom().contains(k) ==> snap_has(snap, k)
    // each stream is spawned at most once
    &&& forall|i: int, j: int|
        0 <= i < j < out.spawned@.len() ==> (#[trigger] out.spawned@[i])@ != (
        #[trigger] out.spawned@[j])@
}

fn bytes_eq(a: &Vec<u8>, b: &Vec<u8>) -> (r: bool)
    ensures
        r == (a@ == b@),
{
    let r = a == b;
    proof {
        if r {
            assert(a@ =~= b@);
        } else {
            if a@ == b@ {
                assert(a.len() == b.len());
                assert(forall|i: int| 0 <= i < a@.len() ==> a@[i] == b@[i]);
                assert(false);
            }
        }
    }
    r
}

fn clone_bytes(v: &Vec<u8>) -> (out: Vec<u8>)
    ensures
        out@ == v@,
{
    let mut out: Vec<u8> = Vec::new();
    let mut i: usize = 0;
    while i < v.len()
        invariant
            i <= v@.len(),
            out@ == v@.subrange(0, i as int),
        decreases v@.len() - i,
    {
        out.push(v[i]);
        i = i + 1;
        assert(out@ =~= v@.subrange(0, i as int));
    }
    assert(v@.subrange(0, v@.len() as int) =~= v@);
    out
}

fn snapshot_contains(snap: &Vec<Vec<u8>>, k: &Vec<u8>) -> (r: bool)
    ensures
        r == snap_has(snap@, k@),
{
    let mut i: usize = 0;
    while i < snap.len()
        invariant
            i <= snap@.len(),
            forall|q: int| 0 <= q < i ==> (#[trigger] snap@[q])@ != k@,
        decreases snap@.len() - i,
    {
        if bytes_eq(&snap[i], k) {
            return true;
        }
        i = i + 1;
    }
    false
}

fn set_contains(entries: &Vec<StreamEntry>, k: &Vec<u8>) -> (r: bool)
    ensures
        r == has_name(entries@, k@),
{
    let mut i: usize = 0;
    while i < entries.len()
        invariant
            i <= entries@.len(),
            forall|q: int| 0 <= q < i ==> (#[trigger] entries@[q]).name@ != k@,
        decreases entries@.len() - i,
    {
        if bytes_eq(&entries[i].name, k) {
            return true;
        }
        i = i + 1;
    }
    false
}

impl ActiveStreamSet {
    /// No two entries share a stream name, and every held handle is
    /// still uncancelled: at most one live monitor per stream.
    pub open spec fn wf(&self) -> bool {
        &&& names_unique(self.entries@)
        &&& forall|i: int|
            0 <= i < self.entries@.len() ==> !(#[trigger] self.entries@[i]).handle.cancelled
    }

    /// The supervisor starts with no active streams.
    pub fn new() -> (s: ActiveStreamSet)
        ensures
            s.wf(),
            forall|k: Seq<u8>| !(#[trigger] s@.dom().contains(k)),
    {
        ActiveStreamSet { entries: Vec::new() }
    }

    /// Compare the active set against a discovery snapshot and apply
    /// the minimal changes: cancel and remove what vanished, keep what
    /// stayed, insert a fresh handle for what appeared.
    pub fn reconcile(&mut self, snapshot: &Vec<Vec<u8>>) -> (out: ReconcileOutcome)
        requires
            old(self).wf(),
        ensures
            final(self).wf(),
            reconcile_post(old(self)@, final(self)@, snapshot@, out),
    {
        let ghost orig = self.entries@;
        let mut kept: Vec<StreamEntry> = Vec::new();
        let mut cancelled: Vec<StreamEntry> = Vec::new();
        let mut i: usize = 0;
        while i < self.entries.len()
            invariant
                old(self).wf(),
                self.entries@ == orig,
                i <= orig.len(),
                forall|t: int|
                    0 <= t < kept@.len() ==> has_name(orig, (#[trigger] kept@[t]).name@)
                        && kept@[t].handle == entry_handle(orig, kept@[t].name@) && snap_has(
                        snapshot@,
                        kept@[t].name@,
                    ) && !kept@[t].handle.cancelled,
                forall|t: int|
                    0 <= t < kept@.len() ==> exists|q: int|
                        0 <= q < i && (#[trigger] kept@[t]).name@ == orig[q].name@,
                forall|t: int|
                    0 <= t < cancelled@.len() ==> (#[trigger] cancelled@[t]).handle.cancelled
                        && has_name(orig, cancelled@[t].name@) && !snap_has(
                        snapshot@,
                        cancelled@[t].name@,
                    ),
                forall|q: int|
                    0 <= q < i ==> (snap_has(snapshot@, (#[trigger] orig[q]).name@) ==> has_name(
                        kept@,
                        orig[q].name@,
                    )) && (!snap_has(snapshot@, orig[q].name@) ==> has_name(
                        cancelled@,
                        orig[q].name@,
                    )),
                names_unique(kept@),
            decreases orig.len() - i,
        {
            let ghost kept_pre = kept@;
            let ghost cancelled_pre = cancelled@;
            let name_c = clone_bytes(&self.entries[i].name);
            let in_snap = snapshot_contains(snapshot, &self.entries[i].name);
            if in_snap {
                proof {
                    if has_name(kept@, orig[i as int].name@) {
                        let t = choose|t: int|
                            0 <= t < kept@.len() && (#[trigger] kept@[t]).name@ == orig[
                            i as int].name@;
                        let q = choose|q: int|
                            0 <= q < i && (#[trigger] kept@[t]).name@ == orig[q].name@;
                        assert(orig[q].name@ == orig[i as int].name@);
                        assert(false);
                    }
                    lemma_entry_handle(orig, orig[i as int].name@, i as int);
                }
                let e = StreamEntry { name: name_c, handle: self.entries[i].handle };
                kept.push(e);
                proof {
                    assert(kept@.last().name@ == orig[i as int].name@);
                    assert forall|t: int| 0 <= t < kept@.len() implies exists|q: int|
                        0 <= q < i + 1 && (#[trigger] kept@[t]).name@ == orig[q].name@ by {
                        if t < kept_pre.len() {
                            assert(kept@[t] == kept_pre[t]);
                            let q = choose|q: int|
                                0 <= q < i && (#[trigger] kept_pre[t]).name@ == orig[q].name@;
                            assert(0 <= q < i + 1 && kept@[t].name@ == orig[q].name@);
                        } else {
                            assert(kept@[t].name@ == orig[i as int].name@);
                        }
                    }
                    assert forall|q: int| 0 <= q < i + 1 implies (snap_has(snapshot@,
                        (#[trigger] orig[q]).name@) ==> has_name(kept@, orig[q].name@)) && (
                    !snap_has(snapshot@, orig[q].name@) ==> has_name(cancelled@,
                        orig[q].name@)) by {
                        if q < i {
                            if snap_has(snapshot@, orig[q].name@) {
                                let t = choose|t: int|
                                    0 <= t < kept_pre.len() && (#[trigger] kept_pre[t]).name@
                                        == orig[q].name@;
                                assert(kept@[t] == kept_pre[t]);
                            }
                        } else {
                            assert(kept@[kept@.len() - 1].name@ == orig[q].name@);
                        }
                    }
                }
            } else {
                let mut h = self.entries[i].handle;
                h.cancel();
                let e = StreamEntry { name: name_c, handle: h };
                cancelled.push(e);
                proof {
                    assert(cancelled@.last().name@ == orig[i as int].name@);
                    assert forall|q: int| 0 <= q < i + 1 implies (snap_has(snapshot@,
                        (#[trigger] orig[q]).name@) ==> has_name(kept@, orig[q].name@)) && (
                    !snap_has(snapshot@, orig[q].name@) ==> has_name(cancelled@,
                        orig[q].name@)) by {
                        if q < i {
                            if !snap_has(snapshot@, orig[q].name@) {
                                let t = choose|t: int|
                                    0 <= t < cancelled_pre.len() && (#[trigger] cancelled_pre[
                                    t]).name@ == orig[q].name@;
                                assert(cancelled@[t] == cancelled_pre[t]);
                            }
                        } else {
                            assert(cancelled@[cancelled@.len() - 1].name@ == orig[q].name@);
                        }
                    }
                }
            }
            i = i + 1;
        }
        let ghost kept0 = kept@;
        let mut spawned: Vec<Vec<u8>> = Vec::new();
        let mut j: usize = 0;
        while j < snapshot.len()
            invariant
                j <= snapshot@.len(),
                kept0.len() <= kept@.len(),
                forall|t: int| 0 <= t < kept0.len() ==> kept@[t] == kept0[t],
                forall|t: int|
                    0 <= t < kept0.len() ==> has_name(orig, (#[trigger] kept0[t]).name@) && kept0[
                    t].handle == entry_handle(orig, kept0[t].name@) && snap_has(
                        snapshot@,
                        kept0[t].name@,
                    ),
                forall|q: int|
                    0 <= q < orig.len() && snap_has(snapshot@, (#[trigger] orig[q]).name@)
                        ==> has_name(kept0, orig[q].name@),
                forall|t: int|
                    kept0.len() <= t < kept@.len() ==> !has_name(orig, (
                    #[trigger] kept@[t]).name@) && snap_has(snapshot@, kept@[t].name@) && snap_has(
                        spawned@,
                        kept@[t].name@,
                    ),
                forall|t: int|
                    0 <= t < spawned@.len() ==> !has_name(orig, (#[trigger] spawned@[t])@)
                        && snap_has(snapshot@, spawned@[t]@) && has_name(kept@, spawned@[t]@),
                forall|t: int| 0 <= t < kept@.len() ==> !(#[trigger] kept@[t]).handle.cancelled,
                names_unique(kept@),
                forall|i2: int, j2: int|
                    0 <= i2 < j2 < spawned@.len() ==> (#[trigger] spawned@[i2])@ != (
                    #[trigger] spawned@[j2])@,
                forall|q: int| 0 <= q < j ==> has_name(kept@, (#[trigger] snapshot@[q])@),
            decreases snapshot@.len() - j,
        {
            let ghost kept_pre = kept@;
            let ghost spawned_pre = spawned@;
            let present = set_contains(&kept, &snapshot[j]);
            if !present {
                let e = StreamEntry {
                    name: clone_bytes(&snapshot[j]),
                    handle: MonitorHandle::new(),
                };
                kept.push(e);
                spawned.push(clone_bytes(&snapshot[j]));
                proof {
                    assert(kept@.last().name@ == snapshot@[j as int]@);
                    assert(spawned@.last()@ == snapshot@[j as int]@);
                    assert(snap_has(snapshot@, snapshot@[j as int]@));
                    if has_name(orig, snapshot@[j as int]@) {
                        let u = choose|u: int|
                            0 <= u < orig.len() && (#[trigger] orig[u]).name@ == snapshot@[
                            j as int]@;
                        assert(has_name(kept0, orig[u].name@));
                        let w = choose|w: int|
                            0 <= w < kept0.len() && (#[trigger] kept0[w]).name@ == orig[u].name@;
                        assert(kept_pre[w] == kept0[w]);
                        assert(has_name(kept_pre, snapshot@[j as int]@));
                        assert(false);
                    }
                    assert forall|t: int| kept0.len() <= t < kept@.len() implies !has_name(orig,
                        (#[trigger] kept@[t]).name@) && snap_has(snapshot@, kept@[t].name@)
                        && snap_has(spawned@, kept@[t].name@) by {
                        if t < kept_pre.len() {
                            assert(kept@[t] == kept_pre[t]);
                            let u = choose|u: int|
                                0 <= u < spawned_pre.len() && (#[trigger] spawned_pre[u])@
                                    == kept_pre[t].name@;
                            assert(spawned@[u] == spawned_pre[u]);
                        } else {
                            assert(kept@[t].name@ == snapshot@[j as int]@);
                            assert(spawned@[spawned@.len() - 1]@ == kept@[t].name@);
                        }
                    }
                    assert forall|t: int| 0 <= t < spawned@.len() implies !has_name(orig,
                        (#[trigger] spawned@[t])@) && snap_has(snapshot@, spawned@[t]@)
                        && has_name(kept@, spawned@[t]@) by {
                        if t < spawned_pre.len() {
                            assert(spawned@[t] == spawned_pre[t]);
                            let u = choose|u: int|
                                0 <= u < kept_pre.len() && (#[trigger] kept_pre[u]).name@
                                    == spawned_pre[t]@;
                            assert(kept@[u] == kept_pre[u]);
                        } else {
                            assert(spawned@[t]@ == snapshot@[j as int]@);
                            assert(kept@[kept@.len() - 1].name@ == spawned@[t]@);
                        }
                    }
                    assert forall|q: int| 0 <= q < j + 1 implies has_name(kept@,
                        (#[trigger] snapshot@[q])@) by {
                        if q < j {
                            let u = choose|u: int|
                                0 <= u < kept_pre.len() && (#[trigger] kept_pre[u]).name@
                                    == snapshot@[q]@;
                            assert(kept@[u] == kept_pre[u]);
                        } else {
                            assert(kept@[kept@.len() - 1].name@ == snapshot@[q]@);
                        }
                    }
                }
            } else {
                proof {
                    assert forall|q: int| 0 <= q < j + 1 implies has_name(kept@,
                        (#[trigger] snapshot@[q])@) by {
                    }
                }
            }
            j = j + 1;
        }
        self.entries = kept;
        let out = ReconcileOutcome { cancelled, spawned };
        proof {
            let pre = old(self)@;
            let post = self@;
            let snap = snapshot@;
            let ent = self.entries@;
            assert forall|k: Seq<u8>| pre.dom().contains(k) && !snap_has(snap, k) implies !post
                .dom().contains(k) && has_name(out.cancelled@, k) by {
                let q = choose|q: int| 0 <= q < orig.len() && (#[trigger] orig[q]).name@ == k;
                if has_name(ent, k) {
                    let t = choose|t: int|
                        0 <= t < ent.len() && (#[trigger] ent[t]).name@ == k;
                    if t < kept0.len() {
                        assert(ent[t] == kept0[t]);
                        assert(snap_has(snap, kept0[t].name@));
                    } else {
                        assert(snap_has(snap, ent[t].name@));
                    }
                    assert(false);
                }
            }
            assert forall|k: Seq<u8>| pre.dom().contains(k) && snap_has(snap, k) implies post
                .dom().contains(k) && post[k] == pre[k] && !snap_has(out.spawned@, k) by {
                let q = choose|q: int| 0 <= q < orig.len() && (#[trigger] orig[q]).name@ == k;
                assert(has_name(kept0, k));
                let t = choose|t: int| 0 <= t < kept0.len() && (#[trigger] kept0[t]).name@ == k;
                assert(ent[t] == kept0[t]);
                assert(ent[t].name@ == k);
                assert(has_name(ent, k));
                lemma_entry_handle(orig, k, q);
                lemma_entry_handle(ent, k, t);
                if snap_has(out.spawned@, k) {
                    let u = choose|u: int|
                        0 <= u < out.spawned@.len() && (#[trigger] out.spawned@[u])@ == k;
                    assert(!has_name(orig, out.spawned@[u]@));
                    assert(false);
                }
            }
            assert forall|k: Seq<u8>| !pre.dom().contains(k) && snap_has(snap, k) implies post
                .dom().contains(k) && !post[k].cancelled && snap_has(out.spawned@, k) by {
                let q = choose|q: int| 0 <= q < snap.len() && (#[trigger] snap[q])@ == k;
                assert(has_name(ent, k));
                let t = choose|t: int| 0 <= t < ent.len() && (#[trigger] ent[t]).name@ == k;
                lemma_entry_handle(ent, k, t);
                if t < kept0.len() {
                    assert(ent[t] == kept0[t]);
                    assert(has_name(orig, kept0[t].name@));
                    assert(false);
                } else {
                    assert(snap_has(spawned@, ent[t].name@));
                }
            }
            assert forall|k: Seq<u8>| post.dom().contains(k) implies snap_has(snap, k) by {
                let t = choose|t: int| 0 <= t < ent.len() && (#[trigger] ent[t]).name@ == k;
                if t < kept0.len() {
                    assert(ent[t] == kept0[t]);
                    assert(snap_has(snap, kept0[t].name@));
                } else {
                    assert(snap_has(snap, ent[t].name@));
                }
            }
        }
        out
    }


    /// One supervisor tick. A failed discovery listing terminates the
    /// whole supervisor: the active set is left untouched, so the
    /// monitors that were running are not told to stop by this path —
    /// only process teardown would. A successful listing is reconciled.
    pub fn supervisor_tick(&mut self, listing: Option<Vec<Vec<u8>>>) -> (out: TickOutcome)
        requires
            old(self).wf(),
        ensures
            final(self).wf(),
            listing is None ==> out is Terminated && *final(self) == *old(self),
            listing matches Some(snap) ==> (out matches TickOutcome::Reconciled(o)
                && reconcile_post(old(self)@, final(self)@, snap@, o)),
    {
        match listing {
            None => TickOutcome::Terminated,
            Some(snap) => {
                let o = self.reconcile(&snap);
                TickOutcome::Reconciled(o)
            },
        }
    }
}

/// What one supervisor tick did: terminated on a failed listing, or
/// reconciled against the snapshot it obtained.
pub enum TickOutcome {
    Terminated,
    Reconciled(ReconcileOutcome),
}

/// `s` starts with `p`.
pub open spec fn has_prefix(s: Seq<u8>, p: Seq<u8>) -> bool {
    s.len() >= p.len() && s.subrange(0, p.len() as int) == p
}

fn starts_with(s: &Vec<u8>, p: &Vec<u8>) -> (r: bool)
    ensures
        r == has_prefix(s@, p@),
{
    if s.len() < p.len() {
        return false;
    }
    let mut i: usize = 0;
    while i < p.len()
        invariant
            i <= p@.len(),
            p@.len() <= s@.len(),
            forall|q: int| 0 <= q < i ==> s@[q] == p@[q],
        decreases p@.len() - i,
    {
        if s[i] != p[i] {
            proof {
                if has_prefix(s@, p@) {
                    assert(s@.subrange(0, p@.len() as int)[i as int] == p@[i as int]);
                }
            }
            return false;
        }
        i = i + 1;
    }
    proof {
        assert(s@.subrange(0, p@.len() as int) =~= p@);
    }
    true
}

/// Keep the advertised topics that carry the stream-namespace prefix,
/// in order: the discovery snapshot.
pub fn filter_streams(names: Vec<Vec<u8>>, prefix: &Vec<u8>) -> (out: Vec<Vec<u8>>)
    ensures
        out@.map_values(|v: Vec<u8>| v@) == names@.map_values(|v: Vec<u8>| v@).filter(
            |s: Seq<u8>| has_prefix(s, prefix@),
        ),
{
    let mut out: Vec<Vec<u8>> = Vec::new();
    let mut i: usize = 0;
    proof {
        reveal(Seq::filter);
        assert(names@.map_values(|v: Vec<u8>| v@).take(0) =~= Seq::<Seq<u8>>::empty());
        assert(out@.map_values(|v: Vec<u8>| v@) =~= names@.map_values(|v: Vec<u8>| v@).take(
            0).filter(|s: Seq<u8>| has_prefix(s, prefix@)));
    }
    while i < names.len()
        invariant
            i <= names@.len(),
            out@.map_values(|v: Vec<u8>| v@) == names@.map_values(|v: Vec<u8>| v@).take(
                i as int).filter(|s: Seq<u8>| has_prefix(s, prefix@)),
        decreases names@.len() - i,
    {
        let ghost pred = |s: Seq<u8>| has_prefix(s, prefix@);
        let ghost mapped = names@.map_values(|v: Vec<u8>| v@);
        let ghost out_pre = out@.map_values(|v: Vec<u8>| v@);
        let keep = starts_with(&names[i], prefix);
        if keep {
            let c = clone_bytes(&names[i]);
            out.push(c);
        }
        proof {
            reveal(Seq::filter);
            assert(mapped.take(i + 1).drop_last() =~= mapped.take(i as int));
            assert(mapped.take(i + 1).last() == mapped[i as int]);
            if keep {
                assert(out@.map_values(|v: Vec<u8>| v@) =~= out_pre.push(names@[i as int]@));
            } else {
                assert(out@.map_values(|v: Vec<u8>| v@) =~= out_pre);
            }
        }
        i = i + 1;
    }
    proof {
        assert(names@.map_values(|v: Vec<u8>| v@).take(names@.len() as int) =~= names@.map_values(
            |v: Vec<u8>| v@));
    }
    out
}

} // verus!
