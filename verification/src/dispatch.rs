//! The prompt loop: one prompt, one command, and what the command's
//! outcome means for the loop.

use vstd::prelude::*;

verus! {

/// What a command tells the prompt loop once it has run.
#[derive(Debug, Clone, Copy, PartialEq, Eq, Structural)]
pub enum CommandOutcome {
    /// Stay at the current menu.
    Continue,
    /// Go up to the parent menu.
    GoBack,
    /// End the session.
    Exit,
}

/// Where the prompt loop stands.
///
/// The loop has one live state, `Prompting`: a prompt is out and the loop
/// waits for the command that the operator picks to run. The other two are
/// final.
#[derive(Debug, PartialEq, Eq)]
pub enum LoopState<E> {
    /// A prompt is out.
    Prompting,
    /// A command asked to exit: the session ended well.
    Exited,
    /// Prompting, or the command that was picked, failed with this error.
    Failed(E),
}

/// What becomes of one prompt: the outcome of the command that ran, or the
/// failure of the prompt or of the command.
pub type Turn<E> = Result<CommandOutcome, E>;

impl<E> LoopState<E> {
    /// Whether the loop has ended.
    pub open spec fn is_final(self) -> bool {
        !(self is Prompting)
    }

    /// The state after one more turn. A loop that has ended stays as it is.
    pub open spec fn spec_step(self, turn: Turn<E>) -> LoopState<E> {
        match self {
            LoopState::Prompting => match turn {
                Ok(CommandOutcome::Continue) => LoopState::Prompting,
                Ok(CommandOutcome::GoBack) => LoopState::Prompting,
                Ok(CommandOutcome::Exit) => LoopState::Exited,
                Err(e) => LoopState::Failed(e),
            },
            _ => self,
        }
    }

    /// The state after the turns `turns`, from the first prompt on.
    pub open spec fn after(turns: Seq<Turn<E>>) -> LoopState<E>
        decreases turns.len(),
    {
        if turns.len() == 0 {
            LoopState::Prompting
        } else {
            Self::after(turns.drop_last()).spec_step(turns.last())
        }
    }

    /// How many prompts the loop has put out by the end of `turns`: the
    /// first one, and one more after each turn that leaves it prompting.
    pub open spec fn prompts(turns: Seq<Turn<E>>) -> nat
        decreases turns.len(),
    {
        if turns.len() == 0 {
            1
        } else if Self::after(turns) is Prompting {
            Self::prompts(turns.drop_last()) + 1
        } else {
            Self::prompts(turns.drop_last())
        }
    }

    /// The state in which the loop starts: its first prompt is out.
    pub fn start() -> (s: LoopState<E>)
        ensures
            s == LoopState::<E>::Prompting,
            s == Self::after(Seq::empty()),
    {
        LoopState::Prompting
    }

    /// Takes the result of one turn and says where the loop stands then:
    /// `Continue` and `GoBack` prompt again, `Exit` ends the session, and a
    /// failure ends it with that error.
    pub fn step(self, turn: Turn<E>) -> (next: LoopState<E>)
        ensures
            next == self.spec_step(turn),
    {
        match self {
            LoopState::Prompting => match turn {
                Ok(CommandOutcome::Continue) => LoopState::Prompting,
                Ok(CommandOutcome::GoBack) => LoopState::Prompting,
                Ok(CommandOutcome::Exit) => LoopState::Exited,
                Err(e) => LoopState::Failed(e),
            },
            other => other,
        }
    }
}

/// Whether `turn` keeps the loop going.
pub open spec fn keeps_prompting<E>(turn: Turn<E>) -> bool {
    turn == Ok::<CommandOutcome, E>(CommandOutcome::Continue) || turn == Ok::<CommandOutcome, E>(
        CommandOutcome::GoBack,
    )
}

/// Whether each of `turns` keeps the loop going.
pub open spec fn all_keep_prompting<E>(turns: Seq<Turn<E>>) -> bool {
    forall|i: int| 0 <= i < turns.len() ==> keeps_prompting(#[trigger] turns[i])
}

/// The loop is still prompting exactly when no turn so far was an `Exit` or
/// a failure: it never ends on its own, however many turns it has taken, and
/// it has then put out one prompt more than it has taken turns.
pub proof fn lemma_prompting_iff_no_exit<E>(turns: Seq<Turn<E>>)
    ensures
        LoopState::<E>::after(turns) is Prompting <==> all_keep_prompting(turns),
        all_keep_prompting(turns) ==> LoopState::<E>::prompts(turns) == turns.len() + 1,
    decreases turns.len(),
{
    if turns.len() > 0 {
        let before = turns.drop_last();
        lemma_prompting_iff_no_exit(before);
        if all_keep_prompting(turns) {
            assert forall|i: int| 0 <= i < before.len() implies keeps_prompting(
                #[trigger] before[i],
            ) by {
                assert(keeps_prompting(turns[i]));
            }
            assert(keeps_prompting(turns[turns.len() - 1]));
        }
        if LoopState::<E>::after(turns) is Prompting {
            assert(LoopState::<E>::after(before) is Prompting);
            assert forall|i: int| 0 <= i < turns.len() implies keeps_prompting(
                #[trigger] turns[i],
            ) by {
                if i < before.len() {
                    assert(keeps_prompting(before[i]));
                }
            }
        }
    }
}

/// Once the loop has ended, later turns change nothing: neither the state
/// nor the number of prompts.
pub proof fn lemma_final_state_stays<E>(turns: Seq<Turn<E>>, more: Seq<Turn<E>>)
    requires
        LoopState::<E>::after(turns).is_final(),
    ensures
        LoopState::<E>::after(turns + more) == LoopState::<E>::after(turns),
        LoopState::<E>::prompts(turns + more) == LoopState::<E>::prompts(turns),
    decreases more.len(),
{
    if more.len() == 0 {
        assert(turns + more == turns);
    } else {
        lemma_final_state_stays(turns, more.drop_last());
        assert((turns + more).drop_last() == turns + more.drop_last());
    }
}

/// The first turn that is an `Exit` or a failure decides how the loop ends:
/// with `k` turns before it that kept the loop going, the loop has put out
/// `k + 1` prompts, and it ends well on an `Exit` and with the error on a
/// failure, whatever turns are listed after it.
pub proof fn lemma_first_ending_turn_decides<E>(turns: Seq<Turn<E>>, k: int)
    requires
        0 <= k < turns.len(),
        all_keep_prompting(turns.take(k)),
        !keeps_prompting(turns[k]),
    ensures
        LoopState::<E>::prompts(turns) == k + 1,
        turns[k] == Ok::<CommandOutcome, E>(CommandOutcome::Exit) ==> LoopState::<E>::after(turns)
            == LoopState::<E>::Exited,
        turns[k] matches Err(e) ==> LoopState::<E>::after(turns) == LoopState::Failed(e),
{
    let head = turns.take(k + 1);
    let tail = turns.skip(k + 1);
    assert(head.drop_last() == turns.take(k));
    assert(head.last() == turns[k]);
    lemma_prompting_iff_no_exit(turns.take(k));
    assert(LoopState::<E>::after(head).is_final());
    lemma_final_state_stays(head, tail);
    assert(head + tail == turns);
}

/// What replaying a list of command outcomes comes to.
#[derive(Debug, Clone, Copy, PartialEq, Eq, Structural)]
pub struct Replay {
    /// How many commands ran, each picked at a prompt of its own.
    pub commands: usize,
    /// Whether the loop ended, which it does on an `Exit` only.
    pub exited: bool,
}

/// The turns in which the commands return `outcomes` and nothing fails.
pub open spec fn turns_of(outcomes: Seq<CommandOutcome>) -> Seq<Turn<()>> {
    outcomes.map_values(|o: CommandOutcome| Ok::<CommandOutcome, ()>(o))
}

/// Runs the loop on commands that return `outcomes`, in this order, and
/// reports how many of them ran and whether the loop ended. Outcomes listed
/// after an `Exit` are never asked for. A loop that has ended has put out as
/// many prompts as commands ran; one that has not has run every command and
/// has one more prompt out.
pub fn replay(outcomes: &[CommandOutcome]) -> (r: Replay)
    ensures
        r.exited == LoopState::<()>::after(turns_of(outcomes@)).is_final(),
        r.exited <==> outcomes@.contains(CommandOutcome::Exit),
        r.exited ==> r.commands == LoopState::<()>::prompts(turns_of(outcomes@)),
        !r.exited ==> r.commands == outcomes@.len() && r.commands + 1 == LoopState::<()>::prompts(
            turns_of(outcomes@),
        ),
{
    let ghost turns = turns_of(outcomes@);
    let mut state: LoopState<()> = LoopState::start();
    let mut commands: usize = 0;
    while commands < outcomes.len() && matches!(state, LoopState::Prompting)
        invariant
            commands <= outcomes@.len(),
            turns == turns_of(outcomes@),
            state == LoopState::<()>::after(turns.take(commands as int)),
            state is Prompting ==> commands + 1 == LoopState::<()>::prompts(
                turns.take(commands as int),
            ),
            state.is_final() ==> commands == LoopState::<()>::prompts(turns.take(commands as int)),
            state is Prompting ==> !outcomes@.take(commands as int).contains(CommandOutcome::Exit),
            state.is_final() ==> outcomes@.take(commands as int).contains(CommandOutcome::Exit),
        decreases outcomes@.len() - commands,
    {
        let ghost i = commands as int;
        assert(turns.take(i + 1).drop_last() == turns.take(i));
        assert(turns.take(i + 1).last() == Ok::<CommandOutcome, ()>(outcomes@[i]));
        state = state.step(Ok(outcomes[commands]));
        if matches!(state, LoopState::Prompting) {
            assert forall|j: int| 0 <= j < i + 1 implies #[trigger] outcomes@.take(i + 1)[j]
                != CommandOutcome::Exit by {
                if j < i {
                    assert(outcomes@.take(i)[j] == outcomes@[j]);
                    assert(outcomes@.take(i).contains(outcomes@[j]));
                }
            }
        } else {
            assert(outcomes@.take(i + 1)[i] == CommandOutcome::Exit);
        }
        commands = commands + 1;
    }
    proof {
        let seen = turns.take(commands as int);
        let rest = turns.skip(commands as int);
        assert(seen + rest == turns);
        if state.is_final() {
            lemma_final_state_stays(seen, rest);
            let j = choose|j: int|
                0 <= j < commands && outcomes@.take(commands as int)[j] == CommandOutcome::Exit;
            assert(outcomes@[j] == CommandOutcome::Exit);
        } else {
            assert(seen == turns);
            assert(outcomes@.take(commands as int) == outcomes@);
        }
    }
    Replay { commands, exited: !matches!(state, LoopState::Prompting) }
}

} // verus!
