//! The order in which a transaction is put together, signed and sent, and
//! what a failure on the way comes to.
//!
//! The steps themselves (asking a node, signing) are the caller's to carry
//! out. The caller starts with [`Assembly::start`], does what the state says
//! is due, and hands the result to [`Assembly::advance`], until the state is
//! [`Assembly::Done`].

use vstd::prelude::*;

verus! {

/// Where the assembly of one transaction stands: the step that is due, with
/// what that step works on, or the result once nothing is due any more.
///
/// `B` is a block reference, `T` a signed transaction, `S` the signature of
/// a confirmed transaction and `E` the error of the node or of a signer.
#[derive(Debug, PartialEq, Eq)]
pub enum Assembly<B, T, S, E> {
    /// Ask the node for a recent block reference.
    FetchBlockhash,
    /// Build the transaction and sign it against this block reference.
    Sign(B),
    /// Send this signed transaction and wait until the node confirms it.
    Submit(T),
    /// Nothing is left to do: the call returns this.
    Done(Result<S, E>),
}

/// What came of a step that was carried out.
#[derive(Debug, PartialEq, Eq)]
pub enum StepResult<B, T, S, E> {
    /// The node's answer to the request for a block reference.
    Blockhash(Result<B, E>),
    /// The signed transaction, or why it could not be signed.
    Signed(Result<T, E>),
    /// The node's answer to the transaction that was sent.
    Confirmed(Result<S, E>),
}

impl<B, T, S, E> Assembly<B, T, S, E> {
    /// The state after `result` came in.
    ///
    /// A step that succeeded hands what it made to the next one, and the
    /// last one ends the assembly with the signature. A step that failed
    /// ends the assembly with its error. A result that does not belong to
    /// the step that is due changes nothing, and neither does any result
    /// once the assembly is done.
    pub open spec fn spec_advance(self, result: StepResult<B, T, S, E>) -> Assembly<B, T, S, E> {
        match (self, result) {
            (Assembly::FetchBlockhash, StepResult::Blockhash(Ok(blockhash))) => Assembly::Sign(
                blockhash,
            ),
            (Assembly::FetchBlockhash, StepResult::Blockhash(Err(e))) => Assembly::Done(Err(e)),
            (Assembly::Sign(_), StepResult::Signed(Ok(transaction))) => Assembly::Submit(
                transaction,
            ),
            (Assembly::Sign(_), StepResult::Signed(Err(e))) => Assembly::Done(Err(e)),
            (Assembly::Submit(_), StepResult::Confirmed(Ok(signature))) => Assembly::Done(
                Ok(signature),
            ),
            (Assembly::Submit(_), StepResult::Confirmed(Err(e))) => Assembly::Done(Err(e)),
            _ => self,
        }
    }

    /// Whether `result` moves the assembly on to the submission.
    pub open spec fn starts_submission(self, result: StepResult<B, T, S, E>) -> bool {
        self is Sign && result matches StepResult::Signed(Ok(_))
    }

    /// The state after the results `results`, from the start on.
    pub open spec fn after(results: Seq<StepResult<B, T, S, E>>) -> Assembly<B, T, S, E>
        decreases results.len(),
    {
        if results.len() == 0 {
            Assembly::FetchBlockhash
        } else {
            Self::after(results.drop_last()).spec_advance(results.last())
        }
    }

    /// How many times a transaction was handed over for submission in the
    /// course of `results`.
    pub open spec fn submissions(results: Seq<StepResult<B, T, S, E>>) -> nat
        decreases results.len(),
    {
        if results.len() == 0 {
            0
        } else if Self::after(results.drop_last()).starts_submission(results.last()) {
            Self::submissions(results.drop_last()) + 1
        } else {
            Self::submissions(results.drop_last())
        }
    }

    /// The state in which every assembly starts.
    pub fn start() -> (s: Assembly<B, T, S, E>)
        ensures
            s == Assembly::<B, T, S, E>::FetchBlockhash,
            s == Self::after(Seq::empty()),
    {
        Assembly::FetchBlockhash
    }

    /// Takes the result of the step that was due and says what is due next.
    pub fn advance(self, result: StepResult<B, T, S, E>) -> (next: Assembly<B, T, S, E>)
        ensures
            next == self.spec_advance(result),
    {
        match self {
            Assembly::FetchBlockhash => match result {
                StepResult::Blockhash(Ok(blockhash)) => Assembly::Sign(blockhash),
                StepResult::Blockhash(Err(e)) => Assembly::Done(Err(e)),
                _ => Assembly::FetchBlockhash,
            },
            Assembly::Sign(blockhash) => match result {
                StepResult::Signed(Ok(transaction)) => Assembly::Submit(transaction),
                StepResult::Signed(Err(e)) => Assembly::Done(Err(e)),
                _ => Assembly::Sign(blockhash),
            },
            Assembly::Submit(transaction) => match result {
                StepResult::Confirmed(Ok(signature)) => Assembly::Done(Ok(signature)),
                StepResult::Confirmed(Err(e)) => Assembly::Done(Err(e)),
                _ => Assembly::Submit(transaction),
            },
            Assembly::Done(outcome) => Assembly::Done(outcome),
        }
    }
}

/// How far an assembly has come: 0 at the start, 1 with a block reference,
/// 2 with a signed transaction handed over, 3 when it is done.
pub open spec fn progress<B, T, S, E>(state: Assembly<B, T, S, E>) -> nat {
    match state {
        Assembly::FetchBlockhash => 0,
        Assembly::Sign(_) => 1,
        Assembly::Submit(_) => 2,
        Assembly::Done(_) => 3,
    }
}

/// An assembly that is done stays done, with the same result, and hands
/// nothing more over for submission.
pub proof fn lemma_done_stays<B, T, S, E>(
    results: Seq<StepResult<B, T, S, E>>,
    more: Seq<StepResult<B, T, S, E>>,
)
    requires
        Assembly::<B, T, S, E>::after(results) is Done,
    ensures
        Assembly::<B, T, S, E>::after(results + more) == Assembly::<B, T, S, E>::after(results),
        Assembly::<B, T, S, E>::submissions(results + more) == Assembly::<B, T, S, E>::submissions(
            results,
        ),
    decreases more.len(),
{
    if more.len() == 0 {
        assert(results + more == results);
    } else {
        lemma_done_stays(results, more.drop_last());
        assert((results + more).drop_last() == results + more.drop_last());
    }
}

/// If the node fails to give a block reference, the assembly is over: it
/// returns that very error, and whatever is reported to it afterwards, no
/// transaction is ever handed over for submission.
pub proof fn lemma_fetch_failure_submits_nothing<B, T, S, E>(
    e: E,
    more: Seq<StepResult<B, T, S, E>>,
)
    ensures
        Assembly::<B, T, S, E>::after(seq![StepResult::Blockhash(Err(e))] + more)
            == Assembly::<B, T, S, E>::Done(Err(e)),
        Assembly::<B, T, S, E>::submissions(seq![StepResult::Blockhash(Err(e))] + more) == 0,
{
    let first = seq![StepResult::<B, T, S, E>::Blockhash(Err(e))];
    assert(first.drop_last() == Seq::<StepResult<B, T, S, E>>::empty());
    assert(Assembly::<B, T, S, E>::after(first.drop_last()) == Assembly::<
        B,
        T,
        S,
        E,
    >::FetchBlockhash);
    assert(first.last() == StepResult::<B, T, S, E>::Blockhash(Err(e)));
    assert(Assembly::<B, T, S, E>::after(first) == Assembly::<B, T, S, E>::Done(Err(e)));
    assert(Assembly::<B, T, S, E>::submissions(first.drop_last()) == 0);
    assert(Assembly::<B, T, S, E>::submissions(first) == 0);
    lemma_done_stays(first, more);
}

/// A transaction is handed over for submission at most once in an
/// assembly, and only after a block reference was fetched and the
/// transaction was signed: the count of submissions is 0 before the
/// assembly has a signed transaction and at most 1 from then on, and the
/// transaction that is due for submission is the one that the signing step
/// reported.
pub proof fn lemma_submits_at_most_once<B, T, S, E>(results: Seq<StepResult<B, T, S, E>>)
    ensures
        progress(Assembly::<B, T, S, E>::after(results)) < 2 ==> Assembly::<
            B,
            T,
            S,
            E,
        >::submissions(results) == 0,
        Assembly::<B, T, S, E>::after(results) is Submit ==> Assembly::<B, T, S, E>::submissions(
            results,
        ) == 1,
        Assembly::<B, T, S, E>::submissions(results) <= 1,
        Assembly::<B, T, S, E>::after(results) matches Assembly::Submit(t) ==> exists|i: int|
            0 <= i < results.len() && #[trigger] results[i] == StepResult::<B, T, S, E>::Signed(
                Ok(t),
            ),
        Assembly::<B, T, S, E>::after(results) matches Assembly::Sign(b) ==> exists|i: int|
            0 <= i < results.len() && #[trigger] results[i] == StepResult::<
                B,
                T,
                S,
                E,
            >::Blockhash(Ok(b)),
    decreases results.len(),
{
    if results.len() > 0 {
        let before = results.drop_last();
        lemma_submits_at_most_once(before);
        let prev = Assembly::<B, T, S, E>::after(before);
        let now = Assembly::<B, T, S, E>::after(results);
        let last = results.len() - 1;
        if let Assembly::Submit(t) = now {
            if let Assembly::Submit(t0) = prev {
                let i = choose|i: int|
                    0 <= i < before.len() && #[trigger] before[i] == StepResult::<
                        B,
                        T,
                        S,
                        E,
                    >::Signed(Ok(t0));
                assert(results[i] == before[i]);
            } else {
                assert(results[last] == StepResult::<B, T, S, E>::Signed(Ok(t)));
            }
        }
        if let Assembly::Sign(b) = now {
            if let Assembly::Sign(b0) = prev {
                let i = choose|i: int|
                    0 <= i < before.len() && #[trigger] before[i] == StepResult::<
                        B,
                        T,
                        S,
                        E,
                    >::Blockhash(Ok(b0));
                assert(results[i] == before[i]);
            } else {
                assert(results[last] == StepResult::<B, T, S, E>::Blockhash(Ok(b)));
            }
        }
    }
}

/// The result of an assembly is what a step reported: an error that it
/// returns is the error of a step that failed, unchanged, and a signature
/// that it returns is the one that the node confirmed, after exactly one
/// submission.
pub proof fn lemma_result_comes_from_a_step<B, T, S, E>(results: Seq<StepResult<B, T, S, E>>)
    ensures
        Assembly::<B, T, S, E>::after(results) matches Assembly::Done(Err(e)) ==> exists|i: int|
            0 <= i < results.len() && {
                ||| #[trigger] results[i] == StepResult::<B, T, S, E>::Blockhash(Err(e))
                ||| results[i] == StepResult::<B, T, S, E>::Signed(Err(e))
                ||| results[i] == StepResult::<B, T, S, E>::Confirmed(Err(e))
            },
        Assembly::<B, T, S, E>::after(results) matches Assembly::Done(Ok(s)) ==> {
            &&& Assembly::<B, T, S, E>::submissions(results) == 1
            &&& exists|i: int|
                0 <= i < results.len() && #[trigger] results[i] == StepResult::<
                    B,
                    T,
                    S,
                    E,
                >::Confirmed(Ok(s))
        },
    decreases results.len(),
{
    if results.len() > 0 {
        let before = results.drop_last();
        lemma_result_comes_from_a_step(before);
        lemma_submits_at_most_once(before);
        let prev = Assembly::<B, T, S, E>::after(before);
        let now = Assembly::<B, T, S, E>::after(results);
        let last = results.len() - 1;
        match now {
            Assembly::Done(Err(e)) => {
                if prev == now {
                    let i = choose|i: int|
                        0 <= i < before.len() && {
                            ||| #[trigger] before[i] == StepResult::<B, T, S, E>::Blockhash(Err(e))
                            ||| before[i] == StepResult::<B, T, S, E>::Signed(Err(e))
                            ||| before[i] == StepResult::<B, T, S, E>::Confirmed(Err(e))
                        };
                    assert(results[i] == before[i]);
                } else {
                    assert(results[last] == results.last());
                }
            },
            Assembly::Done(Ok(s)) => {
                if prev == now {
                    let i = choose|i: int|
                        0 <= i < before.len() && #[trigger] before[i] == StepResult::<
                            B,
                            T,
                            S,
                            E,
                        >::Confirmed(Ok(s));
                    assert(results[i] == before[i]);
                } else {
                    assert(results[last] == StepResult::<B, T, S, E>::Confirmed(Ok(s)));
                }
            },
            _ => {},
        }
    }
}

} // verus!
