use attache::models::{BriefCase, SocialMedia, Task};
use attache::plan::{build_plan, ExecutionPlan, ExecutionStep, SchedulerError};
use attache::state::AppState;

fn account(profile: u128, platform: SocialMedia) -> BriefCase {
    BriefCase::new("n".to_string(), platform, profile, "u".to_string())
}

fn task(link: &str, comments: &[&str], platform: SocialMedia, accounts: &[BriefCase]) -> Task {
    Task::new(link.to_string(), comments.iter().map(|c| c.to_string()).collect(), platform, accounts)
}

fn key(s: &ExecutionStep) -> (usize, usize, u128) {
    (s.task_index, s.briefcase_index, s.profile_id)
}

fn drain(plan: &mut ExecutionPlan) -> Vec<(usize, usize, u128)> {
    let mut out = Vec::new();
    while let Some(s) = plan.next() {
        out.push(key(&s));
    }
    out
}

const P: u128 = 11;
const Q: u128 = 22;

#[test]
fn two_tasks_group_by_first_seen_profile() {
    let a1 = account(P, SocialMedia::X);
    let a2 = account(Q, SocialMedia::X);
    let accounts = vec![a1, a2];
    let t1 = task("T1", &["c"], SocialMedia::X, &accounts);
    let t2 = task("T2", &["c"], SocialMedia::X, &accounts);
    let mut plan = build_plan(&[t1, t2]).unwrap();
    assert_eq!(plan.total_steps(), 4);
    let mut changes = Vec::new();
    let mut steps = Vec::new();
    for _ in 0..4 {
        changes.push(plan.should_change_profile());
        let s = plan.next().unwrap();
        steps.push((s.task_index, s.briefcase_index, s.profile_id, s.link.clone()));
    }
    assert_eq!(
        steps,
        vec![
            (0, 0, P, "T1".to_string()),
            (1, 0, P, "T2".to_string()),
            (0, 1, Q, "T1".to_string()),
            (1, 1, Q, "T2".to_string()),
        ]
    );
    assert_eq!(changes, vec![true, false, true, false]);
    assert!(!plan.should_change_profile());
    assert!(plan.is_complete());
    let groups = plan.profile_executions();
    assert_eq!(groups.len(), 2);
    assert_eq!(groups[0].profile_id, P);
    assert_eq!(groups[1].profile_id, Q);
    assert_eq!(groups[0].steps.len(), 2);
}

#[test]
fn empty_pool_is_an_error() {
    assert_eq!(build_plan(&[]).err(), Some(SchedulerError::EmptyPool));
}

#[test]
fn pool_without_matching_accounts_is_an_error() {
    let accounts = vec![account(P, SocialMedia::Youtube)];
    let t = task("T", &["c"], SocialMedia::Facebook, &accounts);
    assert_eq!(build_plan(&[t]).err(), Some(SchedulerError::EmptyPool));
    let empty = ExecutionPlan::new(&[]);
    assert_eq!(empty.total_steps(), 0);
    assert!(empty.is_complete());
}

#[test]
fn single_task_single_account() {
    let accounts = vec![account(P, SocialMedia::Instagram)];
    let t = task("T", &["c"], SocialMedia::Instagram, &accounts);
    let mut plan = build_plan(&[t]).unwrap();
    assert_eq!(plan.total_steps(), 1);
    assert_eq!(plan.overall_progress(), (0, 1));
    assert!(plan.next().is_some());
    assert!(plan.is_complete());
    assert_eq!(plan.completed_steps(), 1);
    assert!(plan.next().is_none());
}

#[test]
fn profile_runs_are_contiguous() {
    let a = account(P, SocialMedia::X);
    let b = account(Q, SocialMedia::X);
    let c = account(33, SocialMedia::Youtube);
    let d = account(P, SocialMedia::Youtube);
    let t1 = task("1", &["c"], SocialMedia::X, &[b.clone(), a.clone()]);
    let t2 = task("2", &["c"], SocialMedia::Youtube, &[c.clone(), d.clone()]);
    let t3 = task("3", &["c"], SocialMedia::X, &[a, b]);
    let mut plan = build_plan(&[t1, t2, t3]).unwrap();
    let profiles: Vec<u128> = drain(&mut plan).iter().map(|k| k.2).collect();
    assert_eq!(profiles, vec![Q, Q, P, P, P, 33]);
}

#[test]
fn should_change_profile_marks_first_step_and_boundaries() {
    let t = task("1", &["c"], SocialMedia::X, &[account(P, SocialMedia::X), account(Q, SocialMedia::X), account(P, SocialMedia::X)]);
    let mut plan = build_plan(&[t]).unwrap();
    let mut signals = Vec::new();
    while !plan.is_complete() {
        signals.push(plan.should_change_profile());
        plan.next();
    }
    assert_eq!(signals, vec![true, false, true]);
    assert!(!plan.should_change_profile());
}

#[test]
fn advance_hands_out_every_step_once_then_nothing() {
    let accounts = vec![account(P, SocialMedia::X), account(Q, SocialMedia::X)];
    let t1 = task("1", &["c"], SocialMedia::X, &accounts);
    let t2 = task("2", &["c"], SocialMedia::X, &accounts);
    let mut plan = build_plan(&[t1, t2]).unwrap();
    let total = plan.total_steps();
    let mut seen = Vec::new();
    for _ in 0..total {
        seen.push(key(&plan.next().unwrap()));
    }
    let mut sorted = seen.clone();
    sorted.sort();
    sorted.dedup();
    assert_eq!(sorted.len(), total);
    for _ in 0..3 {
        assert!(plan.next().is_none());
    }
    assert_eq!(plan.completed_steps(), total);
}

#[test]
fn mark_visited_twice_counts_once() {
    let a = account(P, SocialMedia::X);
    let t = task("1", &["c"], SocialMedia::X, &[a.clone()]);
    let mut plan = build_plan(&[t]).unwrap();
    plan.mark_visited(a.id);
    assert_eq!(plan.overall_progress(), (1, 1));
    plan.mark_visited(a.id);
    assert_eq!(plan.overall_progress(), (1, 1));
    assert!(plan.is_visited(a.id));
    assert!(!plan.is_visited(a.id + 1));
}

#[test]
fn reset_replays_the_same_steps_and_keeps_progress() {
    let a = account(P, SocialMedia::X);
    let b = account(Q, SocialMedia::X);
    let t1 = task("1", &["c"], SocialMedia::X, &[a.clone(), b.clone()]);
    let t2 = task("2", &["c"], SocialMedia::X, &[b.clone()]);
    let mut plan = build_plan(&[t1, t2]).unwrap();
    let first = drain(&mut plan);
    plan.mark_visited(a.id);
    let before = plan.overall_progress();
    plan.reset();
    assert_eq!(plan.overall_progress(), before);
    assert_eq!(plan.completed_steps(), 0);
    assert_eq!(drain(&mut plan), first);
    plan.reset_progress();
    assert_eq!(plan.overall_progress(), (0, 3));
}

#[test]
fn rewind_and_current_step() {
    let t = task("1", &["c"], SocialMedia::X, &[account(P, SocialMedia::X), account(Q, SocialMedia::X)]);
    let mut plan = build_plan(&[t]).unwrap();
    assert_eq!(plan.current_step().map(key), Some((0, 0, P)));
    assert_eq!(plan.shown_step().map(key), Some((0, 0, P)));
    plan.rewind_one();
    assert_eq!(plan.completed_steps(), 0);
    plan.next();
    assert_eq!(plan.current_step().map(key), Some((0, 0, P)));
    assert_eq!(plan.current_profile_id(), Some(P));
    plan.next();
    assert!(plan.current_step().is_none());
    assert_eq!(plan.shown_step().map(key), Some((0, 1, Q)));
    plan.rewind_one();
    assert_eq!(plan.current_step().map(key), Some((0, 0, P)));
    assert!(plan.should_change_profile());
}

#[test]
fn task_progress_counts_visited_accounts_per_task() {
    let a = account(P, SocialMedia::X);
    let b = account(Q, SocialMedia::X);
    let c = account(P, SocialMedia::Youtube);
    let t1 = task("1", &["c"], SocialMedia::X, &[a.clone(), b.clone()]);
    let t2 = task("2", &["c"], SocialMedia::Youtube, &[c.clone()]);
    let tasks = vec![t1, t2];
    let mut plan = build_plan(&tasks).unwrap();
    plan.mark_visited(b.id);
    assert_eq!(plan.task_progress(&tasks), vec![(0, 1, 2), (1, 0, 1)]);
    assert_eq!(plan.visited_count(), 1);
}

#[test]
fn scheduler_error_messages() {
    assert_eq!(SchedulerError::EmptyPool.message(), "nothing to do: no task has a matching account");
    assert_eq!(SchedulerError::NoActivePlan.message(), "no execution plan is active");
    assert_eq!(SchedulerError::IndexOutOfRange.message(), "a step refers to a task or account that does not exist");
}

#[test]
fn session_without_plan_reports_no_active_plan() {
    let mut state = AppState::new(vec![], vec![]);
    assert_eq!(state.execute_next_step().err(), Some(SchedulerError::NoActivePlan));
    assert_eq!(state.next_execution().err(), Some(SchedulerError::NoActivePlan));
    assert_eq!(state.get_progress().err(), Some(SchedulerError::NoActivePlan));
    assert_eq!(state.is_complete().err(), Some(SchedulerError::NoActivePlan));
    assert_eq!(state.should_change_profile().err(), Some(SchedulerError::NoActivePlan));
    assert_eq!(state.next_execution_step().err(), Some(SchedulerError::NoActivePlan));
    assert_eq!(state.mark_briefcase_visited(5).err(), Some(SchedulerError::NoActivePlan));
    assert_eq!(state.reset_execution_plan().err(), Some(SchedulerError::NoActivePlan));
    assert_eq!(state.get_task_progress().err(), Some(SchedulerError::NoActivePlan));
    assert_eq!(state.current_step().err(), Some(SchedulerError::NoActivePlan));
    assert_eq!(state.current_task_index().err(), Some(SchedulerError::NoActivePlan));
    assert_eq!(state.current_profile_id().err(), Some(SchedulerError::NoActivePlan));
}

#[test]
fn start_automation_refuses_an_empty_pool() {
    let mut state = AppState::new(vec![], vec![account(P, SocialMedia::X)]);
    let t = task("1", &["c"], SocialMedia::Youtube, &[]);
    assert_eq!(state.start_automation(vec![t]).err(), Some(SchedulerError::EmptyPool));
    assert!(!state.is_running());
    assert_eq!(state.task_count(), 0);
    let mut none = AppState::new(vec![], vec![]);
    assert_eq!(none.start_automation(vec![]).err(), Some(SchedulerError::EmptyPool));
}

#[test]
fn session_walks_the_plan_marking_then_advancing() {
    let a = account(P, SocialMedia::X);
    let b = account(Q, SocialMedia::X);
    let mut state = AppState::new(vec![], vec![a.clone(), b.clone()]);
    let t1 = task("L1", &["one", "two"], SocialMedia::X, &[]);
    let t2 = task("L2", &["only"], SocialMedia::X, &[]);
    let first = state.start_automation(vec![t1, t2]).unwrap();
    assert!(state.is_running());
    assert!(!first.completed);
    assert_eq!((first.profile_id, first.link.as_str(), first.task_index), (P, "L1", 0));
    assert!(first.should_change_profile);
    assert_eq!(first.comment, "one");
    assert_eq!(state.get_progress().unwrap(), (0, 4));

    let second = state.next_execution().unwrap();
    assert_eq!((second.profile_id, second.link.as_str(), second.task_index), (P, "L2", 1));
    assert!(!second.should_change_profile);
    assert_eq!(second.comment, "only");
    assert_eq!(state.get_progress().unwrap(), (1, 4));

    let third = state.next_execution().unwrap();
    assert_eq!((third.profile_id, third.link.as_str(), third.task_index), (Q, "L1", 0));
    assert!(third.should_change_profile);
    assert_eq!(third.comment, "two");

    let fourth = state.next_execution().unwrap();
    assert_eq!((fourth.profile_id, fourth.task_index), (Q, 1));
    assert!(!fourth.should_change_profile);

    let done = state.next_execution().unwrap();
    assert!(done.completed);
    assert_eq!(done.profile_id, 0);
    assert!(done.link.is_empty());
    assert_eq!(state.get_progress().unwrap(), (2, 4));
    assert!(state.is_complete().unwrap());
    assert_eq!(state.get_task_progress().unwrap(), vec![(0, 2, 2), (1, 2, 2)]);
}

#[test]
fn comment_index_wraps_and_can_be_set() {
    let a = account(P, SocialMedia::X);
    let mut state = AppState::new(vec![], vec![a]);
    state.start_automation(vec![task("L", &["x", "y"], SocialMedia::X, &[])]).unwrap();
    assert_eq!(state.get_current_comment(0), Some("x".to_string()));
    state.increment_comment_index(0);
    assert_eq!(state.get_current_comment(0), Some("y".to_string()));
    state.increment_comment_index(0);
    assert_eq!(state.get_current_comment(0), Some("x".to_string()));
    state.set_task_comment_index(0, 1);
    assert_eq!(state.get_current_comment(0), Some("y".to_string()));
    state.set_task_comment_index(0, 5);
    assert_eq!(state.get_current_comment(0), Some("y".to_string()));
    assert_eq!(state.get_current_comment(3), None);
}

#[test]
fn session_reset_keeps_progress() {
    let a = account(P, SocialMedia::X);
    let mut state = AppState::new(vec![], vec![a]);
    state.start_automation(vec![task("L", &["x"], SocialMedia::X, &[])]).unwrap();
    state.next_execution().unwrap();
    assert_eq!(state.get_progress().unwrap(), (1, 1));
    state.reset_execution_plan().unwrap();
    assert_eq!(state.get_progress().unwrap(), (1, 1));
    assert_eq!(state.current_task_index().unwrap(), Some(0));
    assert_eq!(state.current_profile_id().unwrap(), Some(P));
}

#[test]
fn profiles_and_window_label() {
    let mut state = AppState::new(vec![], vec![]);
    let p = attache::models::Profile::new("p".to_string(), "/d".to_string());
    let id = p.profile_id;
    state.add_profile(p);
    assert_eq!(state.get_profile_by_id(id).map(|x| x.profile_name.clone()), Some("p".to_string()));
    assert!(state.get_profile_by_id(id + 1).is_none());
    state.set_current_window_label("profile-1".to_string());
    assert_eq!(state.get_current_window_label().as_deref(), Some("profile-1"));
    state.clear_current_window_label();
    assert!(state.get_current_window_label().is_none());
}

#[test]
fn previous_goes_back_one_step_and_keeps_progress() {
    let a = account(P, SocialMedia::X);
    let b = account(Q, SocialMedia::X);
    let mut state = AppState::new(vec![], vec![a, b]);
    let first = state.start_automation(vec![task("L1", &["c"], SocialMedia::X, &[])]).unwrap();
    assert_eq!(first.profile_id, P);
    let second = state.next_execution().unwrap();
    assert_eq!(second.profile_id, Q);
    assert!(second.should_change_profile);
    assert_eq!(state.get_progress().unwrap(), (1, 2));

    let back = state.prev_task_execution().unwrap();
    assert!(!back.completed);
    assert_eq!((back.profile_id, back.link.as_str(), back.task_index), (P, "L1", 0));
    assert!(back.should_change_profile);
    assert_eq!(state.get_progress().unwrap(), (1, 2));

    let again = state.prev_task_execution().unwrap();
    assert_eq!(again.profile_id, P);
    assert!(!again.should_change_profile);
    assert_eq!(state.get_progress().unwrap(), (1, 2));

    let mut none = AppState::new(vec![], vec![]);
    assert_eq!(none.prev_task_execution().err(), Some(SchedulerError::NoActivePlan));
}

#[test]
fn session_switches_once_per_profile() {
    let a = account(P, SocialMedia::X);
    let b = account(Q, SocialMedia::X);
    let c = account(33, SocialMedia::X);
    let t1 = task("1", &["c"], SocialMedia::X, &[c.clone(), a.clone(), b.clone()]);
    let t2 = task("2", &["c"], SocialMedia::X, &[b, a, c]);
    let mut plan = build_plan(&[t1, t2]).unwrap();
    let mut starts = 0;
    while !plan.is_complete() {
        if plan.should_change_profile() {
            starts += 1;
        }
        plan.next();
    }
    assert_eq!(starts, 3);
    assert_eq!(plan.profile_executions().len(), 3);
}

#[test]
fn next_at_the_start_marks_the_first_step() {
    let a = account(P, SocialMedia::X);
    let b = account(Q, SocialMedia::X);
    let mut state = AppState::new(vec![], vec![a.clone(), b.clone()]);
    state.start_automation(vec![task("L", &["x"], SocialMedia::X, &[])]).unwrap();
    state.reset_execution_plan().unwrap();
    assert_eq!(state.get_progress().unwrap(), (0, 2));
    let shown = state.next_execution().unwrap();
    assert_eq!(state.get_progress().unwrap(), (1, 2));
    assert_eq!(state.get_task_progress().unwrap(), vec![(0, 1, 2)]);
    assert_eq!(shown.profile_id, P);
    assert_eq!(state.next_execution_step().unwrap().map(|s| s.profile_id), Some(Q));
    assert_eq!(state.next_execution_step().unwrap().map(|s| s.profile_id), None);
}

#[test]
fn last_step_is_marked_when_finishing() {
    let a = account(P, SocialMedia::X);
    let mut state = AppState::new(vec![], vec![a.clone()]);
    state.start_automation(vec![task("L", &["x"], SocialMedia::X, &[])]).unwrap();
    let done = state.next_execution().unwrap();
    assert!(done.completed);
    assert_eq!(state.get_progress().unwrap(), (1, 1));
    state.mark_briefcase_visited(a.id).unwrap();
    assert_eq!(state.get_progress().unwrap(), (1, 1));
}
