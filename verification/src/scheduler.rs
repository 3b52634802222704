//! The queue of tool invocations that wait for their turn.

use std::collections::VecDeque;
use vstd::prelude::*;

verus! {

/// What is to become of an invocation that the scheduler has offered.
pub enum NextInvocationOutcome<T, E> {
    /// The scheduler forgets the invocation: it was launched, or it never will be.
    DontTryAgain,
    /// The invocation goes to the back of the queue, to be offered again in a later pass.
    TryLater(T),
    /// The pass ends at once with this error.
    Error(E),
}

/// The invocations that `outcomes` send back to the queue, in the order of the outcomes.
pub open spec fn retried<T, E>(outcomes: Seq<NextInvocationOutcome<T, E>>) -> Seq<T>
    decreases outcomes.len(),
{
    if outcomes.len() == 0 {
        Seq::empty()
    } else {
        match outcomes.last() {
            NextInvocationOutcome::TryLater(invocation) => retried(outcomes.drop_last()).push(
                invocation,
            ),
            _ => retried(outcomes.drop_last()),
        }
    }
}

/// None of `outcomes` is an error.
pub open spec fn all_decided<T, E>(outcomes: Seq<NextInvocationOutcome<T, E>>) -> bool {
    forall|i: int| 0 <= i < outcomes.len() ==> !((#[trigger] outcomes[i]) is Error)
}

/// A pass over `queue` took the outcomes `outcomes`, one for each invocation that it offered,
/// in the order of the queue, and ended with `result` and with `left` in the queue.
///
/// A pass without an error offers every invocation and leaves those that are to be tried
/// later. An error ends the pass: the queue then holds the invocations that were sent back
/// before it, followed by those that the pass did not reach. No invocation is lost.
pub open spec fn pass_ends<T, E>(
    queue: Seq<T>,
    outcomes: Seq<NextInvocationOutcome<T, E>>,
    result: Result<(), E>,
    left: Seq<T>,
) -> bool {
    match result {
        Ok(_) => {
            &&& outcomes.len() == queue.len()
            &&& all_decided(outcomes)
            &&& left == retried(outcomes)
        },
        Err(error) => {
            &&& 0 < outcomes.len() <= queue.len()
            &&& all_decided(outcomes.drop_last())
            &&& outcomes.last() == NextInvocationOutcome::<T, E>::Error(error)
            &&& left == retried(outcomes.drop_last()) + queue.skip(outcomes.len() as int)
        },
    }
}

/// `outcomes` are answers that `f` may give when it is offered the first invocations of
/// `queue`, one after the other.
pub open spec fn answers<T, E, F: FnMut(T) -> NextInvocationOutcome<T, E>>(
    f: F,
    queue: Seq<T>,
    outcomes: Seq<NextInvocationOutcome<T, E>>,
) -> bool {
    &&& outcomes.len() <= queue.len()
    &&& forall|i: int| 0 <= i < outcomes.len() ==> f.ensures((queue[i],), #[trigger] outcomes[i])
}

/// A first-in, first-out queue of tool invocations. Its model is the sequence of the
/// invocations, the next one to be offered first.
pub struct Scheduler<T> {
    queued_invocations: VecDeque<T>,
}

impl<T> View for Scheduler<T> {
    type V = Seq<T>;

    closed spec fn view(&self) -> Seq<T> {
        self.queued_invocations@
    }
}

impl<T> Default for Scheduler<T> {
    fn default() -> (out: Self)
        ensures
            out@ == Seq::<T>::empty(),
    {
        Scheduler { queued_invocations: VecDeque::new() }
    }
}

impl<T> Scheduler<T> {
    /// Offers each queued invocation to `f`, in the order of the queue, and does with it what
    /// `f` answers. When `f` answers with an error the pass ends and returns that error.
    pub fn next_invocations<E, F: FnMut(T) -> NextInvocationOutcome<T, E>>(&mut self, mut f: F) -> (out:
        Result<(), E>)
        requires
            forall|invocation: T| f.requires((invocation,)),
        ensures
            exists|outcomes: Seq<NextInvocationOutcome<T, E>>|
                #[trigger] answers(f, old(self)@, outcomes) && pass_ends(
                    old(self)@,
                    outcomes,
                    out,
                    final(self)@,
                ),
    {
        let mut taken: VecDeque<T> = VecDeque::new();
        std::mem::swap(&mut self.queued_invocations, &mut taken);
        let mut failure: Option<E> = None;
        let ghost mut outcomes: Seq<NextInvocationOutcome<T, E>> = Seq::empty();
        let ghost offered_to = f;
        while taken.len() > 0
            invariant
                f == offered_to,
                forall|invocation: T| f.requires((invocation,)),
                answers(offered_to, old(self)@, outcomes),
                match failure {
                    None => {
                        &&& taken@ == old(self)@.skip(outcomes.len() as int)
                        &&& all_decided(outcomes)
                        &&& self@ == retried(outcomes)
                    },
                    Some(error) => {
                        &&& taken@.len() == 0
                        &&& pass_ends(old(self)@, outcomes, Err::<(), E>(error), self@)
                    },
                },
            decreases taken.len(),
        {
            let invocation = taken.pop_front().unwrap();
            assert(invocation == old(self)@[outcomes.len() as int]);
            let outcome = f(invocation);
            let ghost before = outcomes;
            proof {
                outcomes = outcomes.push(outcome);
                assert(outcomes.drop_last() =~= before);
                assert(taken@ =~= old(self)@.skip(outcomes.len() as int));
            }
            match outcome {
                NextInvocationOutcome::DontTryAgain => {},
                NextInvocationOutcome::TryLater(invocation) => {
                    self.queued_invocations.push_back(invocation);
                },
                NextInvocationOutcome::Error(error) => {
                    self.queued_invocations.append(&mut taken);
                    failure = Some(error);
                },
            }
            proof {
                if failure is None {
                    assert forall|i: int| 0 <= i < outcomes.len() implies !((
                    #[trigger] outcomes[i]) is Error) by {
                        if i < before.len() {
                            assert(!(before[i] is Error));
                        }
                    }
                }
            }
        }
        match failure {
            None => {
                proof {
                    assert(outcomes.len() == old(self)@.len());
                    assert(pass_ends(old(self)@, outcomes, Ok::<(), E>(()), self@));
                }
                Ok(())
            },
            Some(error) => Err(error),
        }
    }

    /// Puts `invocation` at the back of the queue. That an invocation is queued does not mean
    /// that its tool will run: the tool may turn out not to be runnable.
    pub fn queue_invocation(&mut self, invocation: T)
        ensures
            final(self)@ == old(self)@.push(invocation),
    {
        self.queued_invocations.push_back(invocation);
    }

    /// How many invocations are queued.
    pub fn len(&self) -> (out: usize)
        ensures
            out == self@.len(),
    {
        self.queued_invocations.len()
    }

    /// Tells whether no invocation is queued.
    pub fn is_empty(&self) -> (out: bool)
        ensures
            out == (self@.len() == 0),
    {
        self.queued_invocations.len() == 0
    }
}

/// A pass never makes the queue longer.
pub proof fn lemma_pass_never_grows<T, E>(
    queue: Seq<T>,
    outcomes: Seq<NextInvocationOutcome<T, E>>,
    result: Result<(), E>,
    left: Seq<T>,
)
    requires
        pass_ends(queue, outcomes, result, left),
    ensures
        left.len() <= queue.len(),
{
    lemma_retried_len(outcomes);
    if result is Err {
        lemma_retried_len(outcomes.drop_last());
    }
}

/// No more invocations are sent back than there were outcomes.
proof fn lemma_retried_len<T, E>(outcomes: Seq<NextInvocationOutcome<T, E>>)
    ensures
        retried(outcomes).len() <= outcomes.len(),
    decreases outcomes.len(),
{
    if outcomes.len() > 0 {
        lemma_retried_len(outcomes.drop_last());
    }
}

} // verus!
