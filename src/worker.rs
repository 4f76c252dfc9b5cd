use vstd::prelude::*;
use crate::keypair::{generate_keypair, lemma_value_fits, public_key_to_u128, KeyPair};

verus! {

/// A threshold after seeing a value: raised to it when the value is higher,
/// never lowered.
pub open spec fn raise(threshold: u128, v: u128) -> u128 {
    if v > threshold {
        v
    } else {
        threshold
    }
}

/// What a worker sees, in order: a threshold from the controller, or the
/// comparable value of a candidate it generated.
pub ghost enum WorkerEvent {
    Adopt(u128),
    Candidate(u128),
}

/// The threshold of a worker that started at `initial` and saw `events`.
pub open spec fn threshold_after(initial: u128, events: Seq<WorkerEvent>) -> u128
    decreases events.len(),
{
    if events.len() == 0 {
        initial
    } else {
        let before = threshold_after(initial, events.drop_last());
        match events.last() {
            WorkerEvent::Adopt(t) => raise(before, t),
            WorkerEvent::Candidate(v) => raise(before, v),
        }
    }
}

/// Whether the event at `i` is a candidate that the worker reports: one whose
/// value exceeds the threshold held just before it.
pub open spec fn reports_at(initial: u128, events: Seq<WorkerEvent>, i: int) -> bool {
    match events[i] {
        WorkerEvent::Candidate(v) => v > threshold_after(initial, events.take(i)),
        WorkerEvent::Adopt(_) => false,
    }
}

/// The search state of one worker thread: the value a candidate must exceed
/// to be reported.
pub struct Worker {
    pub threshold: u128,
}

impl Worker {
    /// A worker that starts from the controller's first broadcast.
    pub fn new(initial: u128) -> (r: Worker)
        ensures
            r.threshold == initial,
    {
        Worker { threshold: initial }
    }

    /// Takes a threshold broadcast by the controller; the local threshold
    /// only ever moves up.
    pub fn adopt(&mut self, threshold: u128)
        ensures
            final(self).threshold == raise(old(self).threshold, threshold),
    {
        if threshold > self.threshold {
            self.threshold = threshold;
        }
    }

    /// Hands back a candidate that beats the threshold, to be reported, and
    /// raises the threshold to its value; drops any other.
    pub fn consider(&mut self, candidate: KeyPair) -> (r: Option<KeyPair>)
        requires
            candidate@.wf(),
        ensures
            r is Some <==> candidate@.value() > old(self).threshold,
            r matches Some(kp) ==> kp@ == candidate@,
            final(self).threshold == raise(old(self).threshold, candidate@.value() as u128),
    {
        let value = public_key_to_u128(&candidate);
        if value > self.threshold {
            self.threshold = value;
            Some(candidate)
        } else {
            None
        }
    }

    /// Generates one fresh key pair and considers it.
    pub fn search_step(&mut self) -> (r: Option<KeyPair>)
        ensures
            r matches Some(kp) ==> kp@.wf() && kp@.value() > old(self).threshold
                && final(self).threshold == kp@.value(),
            r is None ==> final(self).threshold == old(self).threshold,
    {
        let candidate = generate_keypair();
        proof {
            lemma_value_fits(candidate@);
        }
        self.consider(candidate)
    }
}

proof fn lemma_threshold_grows(initial: u128, events: Seq<WorkerEvent>, i: int, j: int)
    requires
        0 <= i <= j <= events.len(),
    ensures
        threshold_after(initial, events.take(i)) <= threshold_after(initial, events.take(j)),
    decreases j - i,
{
    if i < j {
        lemma_threshold_grows(initial, events, i, j - 1);
        assert(events.take(j).drop_last() =~= events.take(j - 1));
    }
}

/// A worker never reports a candidate whose value is at or below a threshold
/// it adopted earlier, so in particular not below the latest one.
pub proof fn lemma_reports_beat_adopted(initial: u128, events: Seq<WorkerEvent>, j: int, i: int)
    requires
        0 <= j < i < events.len(),
        events[j] is Adopt,
        reports_at(initial, events, i),
    ensures
        events[i]->Candidate_0 > events[j]->Adopt_0,
{
    assert(events.take(j + 1).drop_last() =~= events.take(j));
    assert(events.take(j + 1).last() == events[j]);
    lemma_threshold_grows(initial, events, j + 1, i);
}

} // verus!
