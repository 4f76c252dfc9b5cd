use vstd::prelude::*;
use crate::checkpoint::{lines_view, load_max, load_spec, LoadError};
use crate::codec::{encode_line, is_first_delimiter, line_of, DELIMITER};
use crate::keypair::{generate_keypair, lemma_value_fits, public_key_to_u128, KeyPair};
use crate::worker::raise;

verus! {

/// A message from a worker to the controller.
pub enum WorkerMessage {
    /// A candidate that beat the worker's threshold.
    Largest(KeyPair),
    /// The number of key pairs the worker examined since its last report.
    Progress { iteration_delta: usize },
}

/// What the controller asks of its surroundings after a message.
#[derive(Clone, Copy, Debug, PartialEq, Eq, Structural)]
pub enum ControllerAction {
    /// A new largest value: send it to every worker, append the new
    /// incumbent's checkpoint line and flush it, and log it.
    Broadcast(u128),
    /// A candidate that was not strictly larger: nothing to do.
    Discard,
    /// Advance the progress counter by this many key pairs.
    Advance(usize),
}

/// The controller's state: the incumbent key pair and its value.
pub struct Controller {
    pub largest_value: u128,
    pub largest_keypair: KeyPair,
}

/// The largest value after each of a run of candidate values, in order.
pub open spec fn largest_after(initial: u128, candidates: Seq<u128>) -> u128
    decreases candidates.len(),
{
    if candidates.len() == 0 {
        initial
    } else {
        raise(largest_after(initial, candidates.drop_last()), candidates.last())
    }
}

/// What the controller broadcasts on the candidate at `i`, if anything.
pub open spec fn broadcast_at(initial: u128, candidates: Seq<u128>, i: int) -> Option<u128> {
    if candidates[i] > largest_after(initial, candidates.take(i)) {
        Some(candidates[i])
    } else {
        None
    }
}

/// A line in which no delimiter occurs.
pub open spec fn lacks_delimiter(line: Seq<u8>) -> bool {
    forall|k: int| 0 <= k < line.len() ==> line[k] != DELIMITER
}

impl Controller {
    /// The incumbent and the largest value agree.
    pub open spec fn wf(&self) -> bool {
        &&& self.largest_keypair@.wf()
        &&& self.largest_value as nat == self.largest_keypair@.value()
    }

    /// A controller whose incumbent is `keypair`.
    pub fn with_incumbent(keypair: KeyPair) -> (r: Controller)
        requires
            keypair@.wf(),
        ensures
            r.wf(),
            r.largest_keypair@ == keypair@,
    {
        let largest_value = public_key_to_u128(&keypair);
        Controller { largest_value, largest_keypair: keypair }
    }

    /// Starts from the lines of the checkpoint log: the largest entry there
    /// becomes the incumbent, or a freshly generated pair when there is none.
    /// A line that does not parse fails the start.
    pub fn startup(lines: &Vec<Vec<u8>>) -> (r: Result<Controller, LoadError>)
        ensures
            r is Err <==> load_spec(lines_view(lines@)) is Err,
            r matches Err(e) ==> load_spec(lines_view(lines@)) == Err::<
                Option<crate::keypair::KeyPairModel>,
                LoadError,
            >(e),
            r matches Ok(c) ==> c.wf(),
            r matches Ok(c) ==> (load_spec(lines_view(lines@)) matches Ok(Some(kp))
                ==> c.largest_keypair@ == kp),
            lines@.len() == 0 ==> r is Ok,
            (exists|i: int| 0 <= i < lines@.len() && lacks_delimiter(#[trigger] lines@[i]@))
                ==> r is Err,
    {
        proof {
            lemma_missing_delimiter_fails(lines_view(lines@));
            if exists|i: int| 0 <= i < lines@.len() && lacks_delimiter(#[trigger] lines@[i]@) {
                let i = choose|i: int| 0 <= i < lines@.len() && lacks_delimiter(#[trigger] lines@[i]@);
                assert(lacks_delimiter(lines_view(lines@)[i]));
            }
        }
        match load_max(lines) {
            Err(e) => Err(e),
            Ok(Some(kp)) => Ok(Controller::with_incumbent(kp)),
            Ok(None) => Ok(Controller::with_incumbent(generate_keypair())),
        }
    }

    /// Processes one worker message. A candidate strictly larger than the
    /// incumbent replaces it and is broadcast; any other is discarded.
    pub fn handle(&mut self, msg: WorkerMessage) -> (r: ControllerAction)
        requires
            old(self).wf(),
            msg matches WorkerMessage::Largest(kp) ==> kp@.wf(),
        ensures
            final(self).wf(),
            match msg {
                WorkerMessage::Largest(kp) => {
                    let v = kp@.value() as u128;
                    &&& final(self).largest_value == raise(old(self).largest_value, v)
                    &&& if v > old(self).largest_value {
                        &&& r == ControllerAction::Broadcast(v)
                        &&& final(self).largest_keypair@ == kp@
                    } else {
                        &&& r == ControllerAction::Discard
                        &&& final(self).largest_keypair@ == old(self).largest_keypair@
                    }
                },
                WorkerMessage::Progress { iteration_delta } => {
                    &&& r == ControllerAction::Advance(iteration_delta)
                    &&& final(self).largest_value == old(self).largest_value
                    &&& final(self).largest_keypair@ == old(self).largest_keypair@
                },
            },
    {
        match msg {
            WorkerMessage::Largest(keypair) => {
                let value = public_key_to_u128(&keypair);
                if value > self.largest_value {
                    self.largest_value = value;
                    self.largest_keypair = keypair;
                    ControllerAction::Broadcast(value)
                } else {
                    ControllerAction::Discard
                }
            },
            WorkerMessage::Progress { iteration_delta } => ControllerAction::Advance(
                iteration_delta,
            ),
        }
    }

    /// The checkpoint line of the incumbent, without the line break.
    pub fn checkpoint_line(&self) -> (r: Vec<u8>)
        ensures
            r@ == line_of(self.largest_keypair@),
    {
        encode_line(&self.largest_keypair)
    }
}

proof fn lemma_missing_delimiter_fails(lines: Seq<Seq<u8>>)
    ensures
        (exists|i: int| 0 <= i < lines.len() && lacks_delimiter(#[trigger] lines[i]))
            ==> load_spec(lines) is Err,
    decreases lines.len(),
{
    if exists|i: int| 0 <= i < lines.len() && lacks_delimiter(#[trigger] lines[i]) {
        let i = choose|i: int| 0 <= i < lines.len() && lacks_delimiter(#[trigger] lines[i]);
        let init = lines.drop_last();
        if i < lines.len() - 1 {
            assert(init[i] == lines[i]);
            lemma_missing_delimiter_fails(init);
        } else {
            assert(!(exists|k: int| is_first_delimiter(lines.last(), k)));
        }
    }
}

/// Over any run of candidates, the controller's largest value never
/// decreases, and each time it changes the new value is the one broadcast
/// for that candidate; nothing else is ever broadcast.
pub proof fn lemma_largest_monotone_and_broadcast(initial: u128, candidates: Seq<u128>)
    ensures
        forall|i: int, j: int|
            0 <= i <= j <= candidates.len() ==> #[trigger] largest_after(initial, candidates.take(i))
                <= #[trigger] largest_after(initial, candidates.take(j)),
        forall|i: int|
            0 <= i < candidates.len() ==> {
                let before = largest_after(initial, candidates.take(i));
                let after = largest_after(initial, candidates.take(i + 1));
                &&& after != before ==> #[trigger] broadcast_at(initial, candidates, i) == Some(
                    after,
                )
                &&& broadcast_at(initial, candidates, i) matches Some(b) ==> b == after
            },
{
    assert forall|i: int, j: int|
        0 <= i <= j <= candidates.len() implies #[trigger] largest_after(initial, candidates.take(i))
        <= #[trigger] largest_after(initial, candidates.take(j)) by {
        lemma_largest_grows(initial, candidates, i, j);
    }
    assert forall|i: int| 0 <= i < candidates.len() implies {
        let before = largest_after(initial, candidates.take(i));
        let after = largest_after(initial, candidates.take(i + 1));
        &&& after != before ==> #[trigger] broadcast_at(initial, candidates, i) == Some(after)
        &&& broadcast_at(initial, candidates, i) matches Some(b) ==> b == after
    } by {
        assert(candidates.take(i + 1).drop_last() =~= candidates.take(i));
        assert(candidates.take(i + 1).last() == candidates[i]);
    }
}

proof fn lemma_largest_grows(initial: u128, candidates: Seq<u128>, i: int, j: int)
    requires
        0 <= i <= j <= candidates.len(),
    ensures
        largest_after(initial, candidates.take(i)) <= largest_after(initial, candidates.take(j)),
    decreases j - i,
{
    if i < j {
        lemma_largest_grows(initial, candidates, i, j - 1);
        assert(candidates.take(j).drop_last() =~= candidates.take(j - 1));
    }
}

} // verus!
