use active_app_volume::mainloop::{
    next_loop_step, respond_to_context_state, ContextResponse, ContextState, IterateOutcome,
    LoopStep,
};
use active_app_volume::sinks::ListEvent::{End, Error, Item, Reported};
use active_app_volume::sinks::{Counting, ListEvent, SinkAction, SinkProcessInfo};

#[test]
fn new_progress_is_empty() {
    let info = SinkProcessInfo::new();
    assert!(!info.got_all_sinks);
    assert_eq!(info.sink_count, 0);
    assert_eq!(info.processed_sink_count, 0);
    let mut done = false;
    info.check_if_done(&mut done);
    assert!(!done);
}

fn run(counting: Counting, events: &[ListEvent]) -> (SinkProcessInfo, bool, Vec<SinkAction>) {
    let mut info = SinkProcessInfo::new();
    let mut done = false;
    let mut actions = Vec::new();
    for event in events {
        actions.push(info.on_list_event(counting, *event, &mut done));
    }
    (info, done, actions)
}

#[test]
fn done_when_list_ended_and_all_processed() {
    let (info, done, _) = run(Counting::OnReport, &[Item, Item, Reported]);
    assert!(!done);
    assert_eq!((info.sink_count, info.processed_sink_count), (2, 1));
    let (_, done, _) = run(Counting::OnReport, &[Item, Item, Reported, End]);
    assert!(!done);
    let (info, done, actions) = run(Counting::OnReport, &[Item, Item, Reported, End, Reported]);
    assert!(done);
    assert!(info.got_all_sinks);
    assert_eq!(info.sink_count, 2);
    assert_eq!(info.processed_sink_count, 2);
    assert_eq!(
        actions,
        vec![
            SinkAction::ApplyAndAwaitReport,
            SinkAction::ApplyAndAwaitReport,
            SinkAction::Wait,
            SinkAction::Wait,
            SinkAction::Wait
        ]
    );
}

#[test]
fn done_at_list_end_when_everything_already_processed() {
    let (_, done, _) = run(Counting::OnReport, &[Item, Reported]);
    assert!(!done);
    let (_, done, _) = run(Counting::OnReport, &[Item, Reported, End]);
    assert!(done);
}

#[test]
fn empty_list_is_done_at_its_end() {
    let (_, done, _) = run(Counting::OnReport, &[ListEvent::End]);
    assert!(done);
    let (_, done, _) = run(Counting::AtOnce, &[ListEvent::End]);
    assert!(done);
}

#[test]
fn counting_at_once_processes_each_sink_when_listed() {
    let (info, done, actions) = run(Counting::AtOnce, &[Item, Item]);
    assert!(!done);
    assert_eq!((info.sink_count, info.processed_sink_count), (2, 2));
    assert_eq!(actions, vec![SinkAction::ApplyIgnoringReport, SinkAction::ApplyIgnoringReport]);
    let (_, done, _) = run(Counting::AtOnce, &[Item, Item, End]);
    assert!(done);
}

#[test]
fn listing_error_ends_the_work() {
    let (info, done, _) = run(Counting::OnReport, &[Item, Error]);
    assert!(done);
    assert_eq!((info.sink_count, info.processed_sink_count), (1, 0));
    assert!(!info.got_all_sinks);
    let (_, done, _) = run(Counting::AtOnce, &[Error]);
    assert!(done);
}

#[test]
fn done_stays_raised_after_more_events() {
    let (_, done, _) = run(Counting::OnReport, &[Item, Reported, End, Item]);
    assert!(done);
}

#[test]
fn done_is_never_lowered() {
    let info = SinkProcessInfo::new();
    let mut done = true;
    info.check_if_done(&mut done);
    assert!(done);
}

#[test]
fn context_states() {
    assert_eq!(respond_to_context_state(ContextState::Ready), ContextResponse::RunOperation);
    assert_eq!(respond_to_context_state(ContextState::Failed), ContextResponse::MarkDone);
    assert_eq!(respond_to_context_state(ContextState::Terminated), ContextResponse::MarkDone);
    assert_eq!(respond_to_context_state(ContextState::Connecting), ContextResponse::Wait);
    assert_eq!(respond_to_context_state(ContextState::Unconnected), ContextResponse::Wait);
    assert_eq!(respond_to_context_state(ContextState::Authorizing), ContextResponse::Wait);
    assert_eq!(respond_to_context_state(ContextState::SettingName), ContextResponse::Wait);
}

#[test]
fn loop_steps() {
    assert_eq!(next_loop_step(IterateOutcome::Success, false), LoopStep::Iterate);
    assert_eq!(next_loop_step(IterateOutcome::Success, true), LoopStep::Finish);
    assert_eq!(next_loop_step(IterateOutcome::Quit, false), LoopStep::Abort);
    assert_eq!(next_loop_step(IterateOutcome::Error, true), LoopStep::Abort);
}
