use scilla::{replay, CommandOutcome, LoopState, Replay};

#[test]
fn loop_prompts_four_times_then_exits() {
    let outcomes = [
        CommandOutcome::Continue,
        CommandOutcome::Continue,
        CommandOutcome::GoBack,
        CommandOutcome::Exit,
    ];
    assert_eq!(replay(&outcomes), Replay { commands: 4, exited: true });
}

#[test]
fn loop_without_exit_never_ends() {
    assert_eq!(replay(&[]), Replay { commands: 0, exited: false });
    let mut outcomes = Vec::new();
    for i in 0..1000 {
        outcomes.push(if i % 3 == 0 { CommandOutcome::GoBack } else { CommandOutcome::Continue });
        assert_eq!(replay(&outcomes), Replay { commands: i + 1, exited: false });
    }
}

#[test]
fn loop_asks_for_nothing_after_exit() {
    let outcomes = [
        CommandOutcome::GoBack,
        CommandOutcome::Exit,
        CommandOutcome::Continue,
        CommandOutcome::Exit,
    ];
    assert_eq!(replay(&outcomes), Replay { commands: 2, exited: true });
    assert_eq!(replay(&[CommandOutcome::Exit]), Replay { commands: 1, exited: true });
}

#[test]
fn step_follows_the_outcome() {
    let start: LoopState<String> = LoopState::start();
    assert_eq!(start, LoopState::Prompting);
    assert_eq!(start.step(Ok(CommandOutcome::Continue)), LoopState::Prompting);
    let s: LoopState<String> = LoopState::start();
    assert_eq!(s.step(Ok(CommandOutcome::GoBack)), LoopState::Prompting);
    let s: LoopState<String> = LoopState::start();
    assert_eq!(s.step(Ok(CommandOutcome::Exit)), LoopState::Exited);
}

#[test]
fn step_ends_the_loop_with_the_error_of_a_failure() {
    let s: LoopState<String> = LoopState::start();
    let failed = s.step(Err("node unreachable".to_string()));
    assert_eq!(failed, LoopState::Failed("node unreachable".to_string()));
}

#[test]
fn step_leaves_an_ended_loop_as_it_is() {
    let exited: LoopState<String> = LoopState::Exited;
    assert_eq!(exited.step(Ok(CommandOutcome::Continue)), LoopState::Exited);
    let exited: LoopState<String> = LoopState::Exited;
    assert_eq!(exited.step(Err("late".to_string())), LoopState::Exited);
    let failed: LoopState<String> = LoopState::Failed("first".to_string());
    assert_eq!(failed.step(Ok(CommandOutcome::Exit)), LoopState::Failed("first".to_string()));
    let failed: LoopState<String> = LoopState::Failed("first".to_string());
    assert_eq!(failed.step(Err("second".to_string())), LoopState::Failed("first".to_string()));
}
