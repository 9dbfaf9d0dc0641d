use vstd::prelude::*;

use crate::models::{on_platform, BriefCase, Profile, Task};
use crate::plan::{
    pairs_upto, plan_order, starts_session, step_in_pool, step_of, task_progress_of, task_steps,
    ExecutionPlan, ExecutionStep, SchedulerError,
};

verus! {

/// What one move of the automation tells the window layer: the step to show
/// and whether it needs another browser session, or that the plan is complete.
#[derive(Clone, Debug)]
pub struct ExecutionResult {
    pub completed: bool,
    pub profile_id: u128,
    pub link: String,
    pub should_change_profile: bool,
    pub task_index: usize,
    pub comment: String,
}

/// The comment that task `i` of `tasks` shows next: its comment at its comment
/// index, wrapping around; empty where the task does not exist or has none.
pub open spec fn comment_of(tasks: Seq<Task>, i: int) -> Seq<char> {
    if 0 <= i < tasks.len() && tasks[i].comments@.len() > 0 {
        tasks[i].comments@[(tasks[i].comment_index as int) % (tasks[i].comments@.len() as int)]@
    } else {
        seq![]
    }
}

/// `r` reports the step at cursor `c` of `order`, with the comment it shows.
pub open spec fn reports_step(r: ExecutionResult, order: Seq<ExecutionStep>, c: int, tasks: Seq<Task>) -> bool {
    reports_shown(r, order[c], starts_session(order, c), tasks)
}

/// `r` reports step `st` as the one now shown, with the comment its task shows,
/// and `change` as whether it needs another browser session.
pub open spec fn reports_shown(r: ExecutionResult, st: ExecutionStep, change: bool, tasks: Seq<Task>) -> bool {
    &&& !r.completed
    &&& r.profile_id == st.profile_id
    &&& r.link == st.link
    &&& r.should_change_profile == change
    &&& r.task_index == st.task_index
    &&& r.comment@ == comment_of(tasks, st.task_index as int)
}

/// `r` reports that every step has been handed out.
pub open spec fn reports_completion(r: ExecutionResult) -> bool {
    &&& r.completed
    &&& r.profile_id == 0
    &&& r.link@.len() == 0
    &&& !r.should_change_profile
    &&& r.task_index == 0
    &&& r.comment@.len() == 0
}

/// The id of the account that step `s` names in `tasks`, if `tasks` holds it.
pub open spec fn account_of(tasks: Seq<Task>, s: ExecutionStep) -> Option<u128> {
    if s.task_index < tasks.len() && s.briefcase_index < tasks[s.task_index as int].related_brief_cases@.len() {
        Some(tasks[s.task_index as int].related_brief_cases@[s.briefcase_index as int].id)
    } else {
        None
    }
}

/// `tasks` with task `i` moved on to its next comment, wrapping around; unchanged
/// where the task does not exist or has no comments.
pub open spec fn bump_comment(tasks: Seq<Task>, i: int) -> Seq<Task> {
    if 0 <= i < tasks.len() && tasks[i].comments@.len() > 0 {
        tasks.update(
            i,
            Task {
                comment_index: ((tasks[i].comment_index + 1) as int % (
                tasks[i].comments@.len() as int)) as usize,
                ..tasks[i]
            },
        )
    } else {
        tasks
    }
}

/// `a` and `b` have the same links and accounts, task by task, so that the
/// same plan is built from both.
pub open spec fn same_skeleton(a: Seq<Task>, b: Seq<Task>) -> bool {
    &&& a.len() == b.len()
    &&& forall|t: int|
        0 <= t < a.len() ==> (#[trigger] a[t]).link == b[t].link && a[t].related_brief_cases@
            == b[t].related_brief_cases@
}

proof fn lemma_same_skeleton_same_plan(a: Seq<Task>, b: Seq<Task>)
    requires
        same_skeleton(a, b),
    ensures
        plan_order(a) == plan_order(b),
        forall|s: ExecutionStep| step_in_pool(a, s) ==> #[trigger] step_in_pool(b, s),
{
    lemma_same_skeleton_pairs(a, b, a.len() as int);
    assert forall|s: ExecutionStep| step_in_pool(a, s) implies #[trigger] step_in_pool(b, s) by {
        let t = s.task_index as int;
        assert(a[t].link == b[t].link);
        assert(step_of(a, t, s.briefcase_index as int) == step_of(b, t, s.briefcase_index as int));
    }
}

proof fn lemma_same_skeleton_pairs(a: Seq<Task>, b: Seq<Task>, n: int)
    requires
        same_skeleton(a, b),
        n <= a.len(),
    ensures
        pairs_upto(a, n) == pairs_upto(b, n),
    decreases n,
{
    if n > 0 {
        lemma_same_skeleton_pairs(a, b, n - 1);
        assert(a[n - 1].link == b[n - 1].link);
        let len = a[n - 1].related_brief_cases@.len() as int;
        assert(task_steps(a, n - 1, len) =~= task_steps(b, n - 1, len));
    }
}

/// The state of one automation session: the profiles and accounts, the task
/// pool of the current run, the execution plan built from it, and the window
/// that shows the current profile. The window layer keeps it behind one lock
/// and runs each operation, composite ones included, under one hold of it.
pub struct AppState {
    profiles: Vec<Profile>,
    brief_cases: Vec<BriefCase>,
    tasks: Vec<Task>,
    execution_plan: Option<ExecutionPlan>,
    current_window_label: Option<String>,
    is_running: bool,
}

impl AppState {
    /// The profiles.
    pub closed spec fn profiles(&self) -> Seq<Profile> {
        self.profiles@
    }

    /// The accounts.
    pub closed spec fn brief_cases(&self) -> Seq<BriefCase> {
        self.brief_cases@
    }

    /// The task pool of the current run.
    pub closed spec fn tasks(&self) -> Seq<Task> {
        self.tasks@
    }

    /// The execution plan, if one has been built.
    pub closed spec fn plan(&self) -> Option<ExecutionPlan> {
        self.execution_plan
    }

    /// The label of the window that shows the current profile.
    pub closed spec fn window_label(&self) -> Option<String> {
        self.current_window_label
    }

    /// Whether automation is running.
    pub closed spec fn running(&self) -> bool {
        self.is_running
    }

    /// A plan, where there is one, is well formed and is the plan of the
    /// current task pool.
    pub closed spec fn wf(&self) -> bool {
        self.execution_plan matches Some(p) ==> {
            &&& p.wf()
            &&& p.order() == plan_order(self.tasks@)
            &&& forall|i: int| 0 <= i < p.order().len() ==> step_in_pool(self.tasks@, #[trigger] p.order()[i])
        }
    }

    /// The profiles, accounts, tasks, window label and running flag of `self`
    /// are those of `other`.
    pub open spec fn same_but_plan(&self, other: &AppState) -> bool {
        &&& self.profiles() == other.profiles()
        &&& self.brief_cases() == other.brief_cases()
        &&& self.tasks() == other.tasks()
        &&& self.window_label() == other.window_label()
        &&& self.running() == other.running()
    }

    /// A session with these profiles and accounts, no tasks, no plan, no
    /// window, not running.
    pub fn new(profiles: Vec<Profile>, brief_cases: Vec<BriefCase>) -> (r: AppState)
        ensures
            r.wf(),
            r.profiles() == profiles@,
            r.brief_cases() == brief_cases@,
            r.tasks().len() == 0,
            r.plan() is None,
            r.window_label() is None,
            !r.running(),
    {
        AppState {
            profiles,
            brief_cases,
            tasks: Vec::new(),
            execution_plan: None,
            current_window_label: None,
            is_running: false,
        }
    }

    /// Adds a profile.
    pub fn add_profile(&mut self, profile: Profile)
        requires
            old(self).wf(),
        ensures
            final(self).wf(),
            final(self).profiles() == old(self).profiles().push(profile),
            final(self).brief_cases() == old(self).brief_cases(),
            final(self).tasks() == old(self).tasks(),
            final(self).plan() == old(self).plan(),
            final(self).window_label() == old(self).window_label(),
            final(self).running() == old(self).running(),
    {
        self.profiles.push(profile);
    }

    /// The profiles.
    pub fn get_profiles(&self) -> (r: &Vec<Profile>)
        ensures
            r@ == self.profiles(),
    {
        &self.profiles
    }

    /// Replaces the profiles.
    pub fn set_profiles(&mut self, profiles: Vec<Profile>)
        requires
            old(self).wf(),
        ensures
            final(self).wf(),
            final(self).profiles() == profiles@,
            final(self).brief_cases() == old(self).brief_cases(),
            final(self).tasks() == old(self).tasks(),
            final(self).plan() == old(self).plan(),
            final(self).window_label() == old(self).window_label(),
            final(self).running() == old(self).running(),
    {
        self.profiles = profiles;
    }

    /// The first profile with id `profile_id`, if any.
    pub fn get_profile_by_id(&self, profile_id: u128) -> (r: Option<&Profile>)
        ensures
            r is None <==> forall|i: int|
                0 <= i < self.profiles().len() ==> (#[trigger] self.profiles()[i]).profile_id
                    != profile_id,
            r matches Some(p) ==> exists|i: int|
                0 <= i < self.profiles().len() && self.profiles()[i] == *p && p.profile_id
                    == profile_id && forall|j: int|
                    0 <= j < i ==> (#[trigger] self.profiles()[j]).profile_id != profile_id,
    {
        let mut i: usize = 0;
        while i < self.profiles.len()
            invariant
                i <= self.profiles@.len(),
                forall|j: int| 0 <= j < i ==> (#[trigger] self.profiles@[j]).profile_id != profile_id,
            decreases self.profiles@.len() - i,
        {
            if self.profiles[i].profile_id == profile_id {
                let found = &self.profiles[i];
                proof {
                    let w = i as int;
                    assert(self.profiles()[w] == *found && found.profile_id == profile_id);
                    assert(!(forall|k: int|
                        0 <= k < self.profiles().len() ==> (#[trigger] self.profiles()[k]).profile_id
                            != profile_id));
                }
                return Some(found);
            }
            i = i + 1;
        }
        None
    }

    /// Adds an account.
    pub fn add_brief_case(&mut self, brief_case: BriefCase)
        requires
            old(self).wf(),
        ensures
            final(self).wf(),
            final(self).brief_cases() == old(self).brief_cases().push(brief_case),
            final(self).profiles() == old(self).profiles(),
            final(self).tasks() == old(self).tasks(),
            final(self).plan() == old(self).plan(),
            final(self).window_label() == old(self).window_label(),
            final(self).running() == old(self).running(),
    {
        self.brief_cases.push(brief_case);
    }

    /// The accounts.
    pub fn get_brief_cases(&self) -> (r: &Vec<BriefCase>)
        ensures
            r@ == self.brief_cases(),
    {
        &self.brief_cases
    }

    /// Replaces the accounts.
    pub fn set_brief_cases(&mut self, brief_cases: Vec<BriefCase>)
        requires
            old(self).wf(),
        ensures
            final(self).wf(),
            final(self).brief_cases() == brief_cases@,
            final(self).profiles() == old(self).profiles(),
            final(self).tasks() == old(self).tasks(),
            final(self).plan() == old(self).plan(),
            final(self).window_label() == old(self).window_label(),
            final(self).running() == old(self).running(),
    {
        self.brief_cases = brief_cases;
    }

    /// Takes `tasks` as the task pool of the run and builds its plan.
    pub fn set_tasks(&mut self, tasks: Vec<Task>)
        requires
            old(self).wf(),
        ensures
            final(self).wf(),
            final(self).tasks() == tasks@,
            final(self).plan() matches Some(p) && p.order() == plan_order(tasks@) && p.cursor() == 0
                && p.visited() == Set::<u128>::empty(),
            final(self).profiles() == old(self).profiles(),
            final(self).brief_cases() == old(self).brief_cases(),
            final(self).window_label() == old(self).window_label(),
            final(self).running() == old(self).running(),
    {
        let plan = ExecutionPlan::new(tasks.as_slice());
        self.tasks = tasks;
        self.execution_plan = Some(plan);
    }

    /// The task pool.
    pub fn get_tasks(&self) -> (r: &Vec<Task>)
        ensures
            r@ == self.tasks(),
    {
        &self.tasks
    }

    /// Task `index`, if there is one.
    pub fn get_task(&self, index: usize) -> (r: Option<&Task>)
        ensures
            r is None <==> index >= self.tasks().len(),
            r matches Some(t) ==> *t == self.tasks()[index as int],
    {
        if index < self.tasks.len() {
            Some(&self.tasks[index])
        } else {
            None
        }
    }

    /// The number of tasks.
    pub fn task_count(&self) -> (r: usize)
        ensures
            r == self.tasks().len(),
    {
        self.tasks.len()
    }

    /// Points task `task_index` at comment `comment_index`, where the task
    /// exists and has such a comment; otherwise changes nothing.
    pub fn set_task_comment_index(&mut self, task_index: usize, comment_index: usize)
        requires
            old(self).wf(),
        ensures
            final(self).wf(),
            final(self).tasks() == (if task_index < old(self).tasks().len() && comment_index
                < old(self).tasks()[task_index as int].comments@.len() {
                old(self).tasks().update(
                    task_index as int,
                    Task { comment_index, ..old(self).tasks()[task_index as int] },
                )
            } else {
                old(self).tasks()
            }),
            final(self).plan() == old(self).plan(),
            final(self).profiles() == old(self).profiles(),
            final(self).brief_cases() == old(self).brief_cases(),
            final(self).window_label() == old(self).window_label(),
            final(self).running() == old(self).running(),
    {
        if task_index < self.tasks.len() && comment_index < self.tasks[task_index].comments.len() {
            let ghost before = self.tasks@;
            self.tasks[task_index].comment_index = comment_index;
            proof {
                assert(self.tasks@ =~= before.update(
                    task_index as int,
                    Task { comment_index, ..before[task_index as int] },
                ));
                lemma_same_skeleton_same_plan(before, self.tasks@);
            }
        }
    }

    /// The comment that task `task_index` shows next, if the task exists and
    /// has comments.
    pub fn get_current_comment(&self, task_index: usize) -> (r: Option<String>)
        ensures
            r is None <==> task_index >= self.tasks().len() || self.tasks()[task_index as int].comments@.len() == 0,
            r matches Some(c) ==> c@ == comment_of(self.tasks(), task_index as int),
    {
        if task_index < self.tasks.len() {
            let task = &self.tasks[task_index];
            if task.comments.len() == 0 {
                None
            } else {
                let index = task.comment_index % task.comments.len();
                Some(task.comments[index].clone())
            }
        } else {
            None
        }
    }

    /// Moves task `task_index` on to its next comment, wrapping around.
    pub fn increment_comment_index(&mut self, task_index: usize)
        requires
            old(self).wf(),
        ensures
            final(self).wf(),
            final(self).tasks() == bump_comment(old(self).tasks(), task_index as int),
            final(self).plan() == old(self).plan(),
            final(self).profiles() == old(self).profiles(),
            final(self).brief_cases() == old(self).brief_cases(),
            final(self).window_label() == old(self).window_label(),
            final(self).running() == old(self).running(),
    {
        if task_index < self.tasks.len() && self.tasks[task_index].comments.len() > 0 {
            let ghost before = self.tasks@;
            let len = self.tasks[task_index].comments.len();
            let current = self.tasks[task_index].comment_index;
            let next = (current % len + 1) % len;
            proof {
                vstd::arithmetic::div_mod::lemma_add_mod_noop(current as int, 1, len as int);
                if len == 1 {
                    assert(1int % 1 == 0);
                } else {
                    vstd::arithmetic::div_mod::lemma_small_mod(1, len as nat);
                }
            }
            self.tasks[task_index].comment_index = next;
            proof {
                assert(self.tasks@ =~= bump_comment(before, task_index as int));
                lemma_same_skeleton_same_plan(before, self.tasks@);
            }
        }
    }

    /// Builds a fresh plan from the current task pool.
    pub fn create_execution_plan(&mut self)
        requires
            old(self).wf(),
        ensures
            final(self).wf(),
            final(self).plan() matches Some(p) && p.order() == plan_order(old(self).tasks())
                && p.cursor() == 0 && p.visited() == Set::<u128>::empty(),
            final(self).same_but_plan(old(self)),
    {
        self.execution_plan = Some(ExecutionPlan::new(self.tasks.as_slice()));
    }

    /// Hands out the next step of the plan: `Ok(None)` once the plan is
    /// complete; `NoActivePlan` where no plan has been built.
    pub fn next_execution_step(&mut self) -> (r: Result<Option<ExecutionStep>, SchedulerError>)
        requires
            old(self).wf(),
        ensures
            final(self).wf(),
            final(self).same_but_plan(old(self)),
            old(self).plan() is None ==> r == Err::<Option<ExecutionStep>, SchedulerError>(
                SchedulerError::NoActivePlan,
            ) && final(self).plan() is None,
            old(self).plan() matches Some(p) ==> {
                &&& r == Ok::<Option<ExecutionStep>, SchedulerError>(
                    crate::plan::advance_result(p.order(), p.cursor()),
                )
                &&& final(self).plan() matches Some(q) && q.order() == p.order() && q.cursor()
                    == crate::plan::advance_cursor(p.order(), p.cursor()) && q.visited() == p.visited()
            },
    {
        match &mut self.execution_plan {
            Some(plan) => Ok(plan.next()),
            None => Err(SchedulerError::NoActivePlan),
        }
    }

    /// Whether the step at the cursor opens a new browser session;
    /// `NoActivePlan` where no plan has been built.
    pub fn should_change_profile(&self) -> (r: Result<bool, SchedulerError>)
        requires
            self.wf(),
        ensures
            self.plan() is None ==> r == Err::<bool, SchedulerError>(SchedulerError::NoActivePlan),
            self.plan() matches Some(p) ==> r == Ok::<bool, SchedulerError>(
                starts_session(p.order(), p.cursor()),
            ),
    {
        match &self.execution_plan {
            Some(plan) => Ok(plan.should_change_profile()),
            None => Err(SchedulerError::NoActivePlan),
        }
    }

    /// The profile of the current step (none once the plan is complete);
    /// `NoActivePlan` where no plan has been built.
    pub fn current_profile_id(&self) -> (r: Result<Option<u128>, SchedulerError>)
        requires
            self.wf(),
        ensures
            self.plan() is None ==> r == Err::<Option<u128>, SchedulerError>(
                SchedulerError::NoActivePlan,
            ),
            self.plan() matches Some(p) ==> r == Ok::<Option<u128>, SchedulerError>(
                match crate::plan::current_of(p.order(), p.cursor()) {
                    Some(s) => Some(s.profile_id),
                    None => None,
                },
            ),
    {
        match &self.execution_plan {
            Some(plan) => Ok(plan.current_profile_id()),
            None => Err(SchedulerError::NoActivePlan),
        }
    }

    /// The current step (none once the plan is complete); `NoActivePlan`
    /// where no plan has been built.
    pub fn current_step(&self) -> (r: Result<Option<ExecutionStep>, SchedulerError>)
        requires
            self.wf(),
        ensures
            self.plan() is None ==> r == Err::<Option<ExecutionStep>, SchedulerError>(
                SchedulerError::NoActivePlan,
            ),
            self.plan() matches Some(p) ==> r == Ok::<Option<ExecutionStep>, SchedulerError>(
                crate::plan::current_of(p.order(), p.cursor()),
            ),
    {
        match &self.execution_plan {
            Some(plan) => match plan.current_step() {
                Some(s) => Ok(Some(s.duplicate())),
                None => Ok(None),
            },
            None => Err(SchedulerError::NoActivePlan),
        }
    }

    /// The index of the task of the current step (none once the plan is
    /// complete); `NoActivePlan` where no plan has been built.
    pub fn current_task_index(&self) -> (r: Result<Option<usize>, SchedulerError>)
        requires
            self.wf(),
        ensures
            self.plan() is None ==> r == Err::<Option<usize>, SchedulerError>(
                SchedulerError::NoActivePlan,
            ),
            self.plan() matches Some(p) ==> r == Ok::<Option<usize>, SchedulerError>(
                match crate::plan::current_of(p.order(), p.cursor()) {
                    Some(s) => Some(s.task_index),
                    None => None,
                },
            ),
    {
        match self.current_step() {
            Ok(Some(s)) => Ok(Some(s.task_index)),
            Ok(None) => Ok(None),
            Err(e) => Err(e),
        }
    }

    /// Records that account `briefcase_id` has been visited; `NoActivePlan`,
    /// changing nothing, where no plan has been built.
    pub fn mark_briefcase_visited(&mut self, briefcase_id: u128) -> (r: Result<(), SchedulerError>)
        requires
            old(self).wf(),
        ensures
            final(self).wf(),
            final(self).same_but_plan(old(self)),
            old(self).plan() is None ==> r == Err::<(), SchedulerError>(SchedulerError::NoActivePlan)
                && final(self).plan() is None,
            old(self).plan() matches Some(p) ==> r is Ok && (final(self).plan() matches Some(q)
                && q.order() == p.order() && q.cursor() == p.cursor() && q.visited()
                == p.visited().insert(briefcase_id)),
    {
        match &mut self.execution_plan {
            Some(plan) => {
                plan.mark_visited(briefcase_id);
                Ok(())
            },
            None => Err(SchedulerError::NoActivePlan),
        }
    }

    /// Moves the plan's cursor back to its first step, visited accounts
    /// staying visited; `NoActivePlan`, changing nothing, where no plan has
    /// been built.
    pub fn reset_execution_plan(&mut self) -> (r: Result<(), SchedulerError>)
        requires
            old(self).wf(),
        ensures
            final(self).wf(),
            final(self).same_but_plan(old(self)),
            old(self).plan() is None ==> r == Err::<(), SchedulerError>(SchedulerError::NoActivePlan)
                && final(self).plan() is None,
            old(self).plan() matches Some(p) ==> r is Ok && (final(self).plan() matches Some(q)
                && q.order() == p.order() && q.cursor() == 0 && q.visited() == p.visited()),
    {
        match &mut self.execution_plan {
            Some(plan) => {
                plan.reset();
                Ok(())
            },
            None => Err(SchedulerError::NoActivePlan),
        }
    }

    /// Whether every step of the plan has been handed out; `NoActivePlan`
    /// where no plan has been built.
    pub fn is_complete(&self) -> (r: Result<bool, SchedulerError>)
        requires
            self.wf(),
        ensures
            self.plan() is None ==> r == Err::<bool, SchedulerError>(SchedulerError::NoActivePlan),
            self.plan() matches Some(p) ==> r == Ok::<bool, SchedulerError>(
                p.cursor() >= p.order().len(),
            ),
    {
        match &self.execution_plan {
            Some(plan) => Ok(plan.is_complete()),
            None => Err(SchedulerError::NoActivePlan),
        }
    }

    /// The number of visited accounts and of steps; `NoActivePlan` where no
    /// plan has been built.
    pub fn get_progress(&self) -> (r: Result<(usize, usize), SchedulerError>)
        requires
            self.wf(),
        ensures
            self.plan() is None ==> r == Err::<(usize, usize), SchedulerError>(
                SchedulerError::NoActivePlan,
            ),
            self.plan() matches Some(p) ==> r == Ok::<(usize, usize), SchedulerError>(
                (p.visited().len() as usize, p.order().len() as usize),
            ),
    {
        match &self.execution_plan {
            Some(plan) => Ok(plan.overall_progress()),
            None => Err(SchedulerError::NoActivePlan),
        }
    }

    /// The progress of each task; `NoActivePlan` where no plan has been built.
    pub fn get_task_progress(&self) -> (r: Result<Vec<(usize, usize, usize)>, SchedulerError>)
        requires
            self.wf(),
        ensures
            self.plan() is None ==> r is Err && r->Err_0 == SchedulerError::NoActivePlan,
            self.plan() matches Some(p) ==> r matches Ok(v) && v@ == task_progress_of(
                self.tasks(),
                p.visited(),
            ),
    {
        match &self.execution_plan {
            Some(plan) => Ok(plan.task_progress(self.tasks.as_slice())),
            None => Err(SchedulerError::NoActivePlan),
        }
    }

    /// Records the label of the window that shows the current profile.
    pub fn set_current_window_label(&mut self, label: String)
        requires
            old(self).wf(),
        ensures
            final(self).wf(),
            final(self).window_label() == Some(label),
            final(self).profiles() == old(self).profiles(),
            final(self).brief_cases() == old(self).brief_cases(),
            final(self).tasks() == old(self).tasks(),
            final(self).plan() == old(self).plan(),
            final(self).running() == old(self).running(),
    {
        self.current_window_label = Some(label);
    }

    /// The label of the window that shows the current profile.
    pub fn get_current_window_label(&self) -> (r: &Option<String>)
        ensures
            *r == self.window_label(),
    {
        &self.current_window_label
    }

    /// Forgets the current window's label.
    pub fn clear_current_window_label(&mut self)
        requires
            old(self).wf(),
        ensures
            final(self).wf(),
            final(self).window_label() is None,
            final(self).profiles() == old(self).profiles(),
            final(self).brief_cases() == old(self).brief_cases(),
            final(self).tasks() == old(self).tasks(),
            final(self).plan() == old(self).plan(),
            final(self).running() == old(self).running(),
    {
        self.current_window_label = None;
    }

    /// Records whether automation is running.
    pub fn set_running(&mut self, running: bool)
        requires
            old(self).wf(),
        ensures
            final(self).wf(),
            final(self).running() == running,
            final(self).profiles() == old(self).profiles(),
            final(self).brief_cases() == old(self).brief_cases(),
            final(self).tasks() == old(self).tasks(),
            final(self).plan() == old(self).plan(),
            final(self).window_label() == old(self).window_label(),
    {
        self.is_running = running;
    }

    /// Whether automation is running.
    pub fn is_running(&self) -> (r: bool)
        ensures
            r == self.running(),
    {
        self.is_running
    }
}


/// `r` holds the tasks of `tasks`, in order, each resolved against the accounts
/// `cases`: same link, comments and platform, the accounts of `cases` on that
/// platform, and the first comment.
pub open spec fn resolved_from(r: Seq<Task>, tasks: Seq<Task>, cases: Seq<BriefCase>) -> bool {
    &&& r.len() == tasks.len()
    &&& forall|i: int|
        0 <= i < r.len() ==> {
            &&& (#[trigger] r[i]).link == tasks[i].link
            &&& r[i].comments == tasks[i].comments
            &&& r[i].social_media == tasks[i].social_media
            &&& r[i].related_brief_cases@ == on_platform(cases, tasks[i].social_media)
            &&& r[i].comment_index == 0
        }
}

/// Whether no task of `tasks` has an account of `cases` on its platform.
pub open spec fn no_task_matches(tasks: Seq<Task>, cases: Seq<BriefCase>) -> bool {
    forall|i: int| 0 <= i < tasks.len() ==> on_platform(cases, (#[trigger] tasks[i]).social_media).len() == 0
}

fn completion() -> (r: ExecutionResult)
    ensures
        reports_completion(r),
{
    ExecutionResult {
        completed: true,
        profile_id: 0,
        link: String::new(),
        should_change_profile: false,
        task_index: 0,
        comment: String::new(),
    }
}

/// Whether some task of `tasks` has an account.
fn any_task_has_account(tasks: &Vec<Task>) -> (r: bool)
    ensures
        r == exists|i: int| 0 <= i < tasks@.len() && (#[trigger] tasks@[i]).related_brief_cases@.len() > 0,
{
    let mut i: usize = 0;
    while i < tasks.len()
        invariant
            i <= tasks@.len(),
            forall|j: int| 0 <= j < i ==> (#[trigger] tasks@[j]).related_brief_cases@.len() == 0,
        decreases tasks@.len() - i,
    {
        if tasks[i].related_brief_cases.len() > 0 {
            return true;
        }
        i = i + 1;
    }
    false
}

impl AppState {
    /// Takes the next step of the plan: reports it, with whether it opens a new
    /// browser session (judged before the cursor moves) and the comment its task
    /// shows, or reports completion once every step has been handed out.
    pub fn execute_next_step(&mut self) -> (r: Result<ExecutionResult, SchedulerError>)
        requires
            old(self).wf(),
        ensures
            final(self).wf(),
            final(self).same_but_plan(old(self)),
            old(self).plan() is None ==> r == Err::<ExecutionResult, SchedulerError>(
                SchedulerError::NoActivePlan,
            ) && final(self).plan() is None,
            old(self).plan() matches Some(p) ==> if p.cursor() >= p.order().len() {
                &&& r matches Ok(x) && reports_completion(x)
                &&& final(self).plan() == old(self).plan()
            } else {
                &&& r matches Ok(x) && reports_step(x, p.order(), p.cursor(), old(self).tasks())
                &&& final(self).plan() matches Some(q) && q.order() == p.order() && q.cursor()
                    == p.cursor() + 1 && q.visited() == p.visited()
            },
    {
        let (should_change, step) = match &mut self.execution_plan {
            None => {
                return Err(SchedulerError::NoActivePlan);
            },
            Some(plan) => {
                if plan.is_complete() {
                    return Ok(completion());
                }
                let should_change = plan.should_change_profile();
                proof {
                    plan.lemma_cursor_in_range();
                }
                (should_change, plan.next())
            },
        };
        match step {
            Some(step) => {
                let comment = match self.get_current_comment(step.task_index) {
                    Some(c) => c,
                    None => String::new(),
                };
                let r = ExecutionResult {
                    completed: false,
                    profile_id: step.profile_id,
                    link: step.link,
                    should_change_profile: should_change,
                    task_index: step.task_index,
                    comment,
                };
                Ok(r)
            },
            None => Ok(completion()),
        }
    }

    /// The operator's "next": first records the step in front of the operator
    /// (the current step; once the plan is complete, the last one handed out),
    /// marking its account visited and moving its task on to the next comment,
    /// then takes the next step. A step that names an
    /// account the task pool does not hold is reported before anything changes.
    pub fn next_execution(&mut self) -> (r: Result<ExecutionResult, SchedulerError>)
        requires
            old(self).wf(),
        ensures
            final(self).wf(),
            final(self).profiles() == old(self).profiles(),
            final(self).brief_cases() == old(self).brief_cases(),
            final(self).window_label() == old(self).window_label(),
            final(self).running() == old(self).running(),
            old(self).plan() is None ==> r == Err::<ExecutionResult, SchedulerError>(
                SchedulerError::NoActivePlan,
            ) && final(self).plan() is None && final(self).tasks() == old(self).tasks(),
            r != Err::<ExecutionResult, SchedulerError>(SchedulerError::IndexOutOfRange),
            old(self).plan() matches Some(p) ==> (crate::plan::current_of(p.order(), p.cursor())
                matches Some(cs) ==> (final(self).plan() matches Some(q) && q.visited().contains(
                account_of(old(self).tasks(), cs)->0,
            ))),
            old(self).plan() matches Some(p) ==> {
                let consumed = crate::plan::shown_of(p.order(), p.cursor());
                if consumed matches Some(st) && account_of(old(self).tasks(), st) is None {
                    &&& r == Err::<ExecutionResult, SchedulerError>(SchedulerError::IndexOutOfRange)
                    &&& final(self).plan() == old(self).plan()
                    &&& final(self).tasks() == old(self).tasks()
                } else {
                    let tasks1 = match consumed {
                        Some(st) => bump_comment(old(self).tasks(), st.task_index as int),
                        None => old(self).tasks(),
                    };
                    let visited1 = match consumed {
                        Some(st) => p.visited().insert(account_of(old(self).tasks(), st)->0),
                        None => p.visited(),
                    };
                    &&& final(self).tasks() == tasks1
                    &&& final(self).plan() matches Some(q) && q.order() == p.order() && q.visited()
                        == visited1 && q.cursor() == crate::plan::advance_cursor(p.order(), p.cursor())
                    &&& if p.cursor() >= p.order().len() {
                        r matches Ok(x) && reports_completion(x)
                    } else {
                        r matches Ok(x) && reports_step(x, p.order(), p.cursor(), tasks1)
                    }
                }
            },
    {
        let consumed = match &self.execution_plan {
            None => {
                return Err(SchedulerError::NoActivePlan);
            },
            Some(plan) => match {
                proof {
                    plan.lemma_cursor_in_range();
                }
                plan.shown_step()
            } {
                Some(s) => Some(s.duplicate()),
                None => None,
            },
        };
        match consumed {
            Some(st) => {
                if st.task_index >= self.tasks.len() || st.briefcase_index
                    >= self.tasks[st.task_index].related_brief_cases.len() {
                    return Err(SchedulerError::IndexOutOfRange);
                }
                let id = self.tasks[st.task_index].related_brief_cases[st.briefcase_index].id;
                let _ = self.mark_briefcase_visited(id);
                self.increment_comment_index(st.task_index);
            },
            None => {},
        }
        self.execute_next_step()
    }

    /// Starts a run: resolves each of `tasks` against the accounts, builds the
    /// plan, marks the session running and takes the first step. Where no task
    /// has an account on its platform (no tasks, no accounts, or none that
    /// match) it reports that there is nothing to do and changes nothing.
    pub fn start_automation(&mut self, tasks: Vec<Task>) -> (r: Result<ExecutionResult, SchedulerError>)
        requires
            old(self).wf(),
        ensures
            final(self).wf(),
            final(self).profiles() == old(self).profiles(),
            final(self).brief_cases() == old(self).brief_cases(),
            final(self).window_label() == old(self).window_label(),
            r is Err <==> no_task_matches(tasks@, old(self).brief_cases()),
            r is Err ==> {
                &&& r == Err::<ExecutionResult, SchedulerError>(SchedulerError::EmptyPool)
                &&& final(self).tasks() == old(self).tasks()
                &&& final(self).plan() == old(self).plan()
                &&& final(self).running() == old(self).running()
            },
            r matches Ok(x) ==> {
                &&& resolved_from(final(self).tasks(), tasks@, old(self).brief_cases())
                &&& final(self).running()
                &&& reports_step(x, plan_order(final(self).tasks()), 0, final(self).tasks())
                &&& final(self).plan() matches Some(q) && q.order() == plan_order(final(self).tasks())
                    && q.cursor() == 1 && q.visited() == Set::<u128>::empty()
            },
    {
        let ghost input = tasks@;
        let total = tasks.len();
        let mut rest = tasks;
        let mut resolved: Vec<Task> = Vec::new();
        let mut i: usize = 0;
        while rest.len() > 0
            invariant
                i + rest@.len() == input.len(),
                input.len() == total,
                rest@ == input.subrange(i as int, input.len() as int),
                resolved_from(resolved@, input.subrange(0, i as int), self.brief_cases@),
            decreases rest@.len(),
        {
            let task = rest.remove(0);
            let ghost before = resolved@;
            let t = Task::new(task.link, task.comments, task.social_media, self.brief_cases.as_slice());
            resolved.push(t);
            proof {
                assert(task == input[i as int]);
                assert forall|j: int| 0 <= j < resolved@.len() implies {
                    &&& (#[trigger] resolved@[j]).link == input.subrange(0, i + 1)[j].link
                    &&& resolved@[j].comments == input.subrange(0, i + 1)[j].comments
                    &&& resolved@[j].social_media == input.subrange(0, i + 1)[j].social_media
                    &&& resolved@[j].related_brief_cases@ == on_platform(
                        self.brief_cases@,
                        input.subrange(0, i + 1)[j].social_media,
                    )
                    &&& resolved@[j].comment_index == 0
                } by {
                    if j < i {
                        assert(resolved@[j] == before[j]);
                        assert(input.subrange(0, i + 1)[j] == input.subrange(0, i as int)[j]);
                    }
                }
                assert(rest@ =~= input.subrange(i + 1, input.len() as int));
            }
            i = i + 1;
        }
        proof {
            assert(input.subrange(0, i as int) =~= input);
        }
        if !any_task_has_account(&resolved) {
            proof {
                assert forall|j: int| 0 <= j < input.len() implies on_platform(
                    self.brief_cases@,
                    (#[trigger] input[j]).social_media,
                ).len() == 0 by {
                    assert(resolved@[j].related_brief_cases@.len() == 0);
                }
            }
            return Err(SchedulerError::EmptyPool);
        }
        proof {
            let j = choose|j: int| 0 <= j < resolved@.len() && (#[trigger] resolved@[j]).related_brief_cases@.len() > 0;
            assert(on_platform(self.brief_cases@, input[j].social_media).len() > 0);
            assert(!no_task_matches(input, self.brief_cases@));
            crate::plan::lemma_plan_covers_pairs(resolved@);
        }
        self.set_tasks(resolved);
        self.set_running(true);
        self.execute_next_step()
    }
}


impl AppState {
    /// The operator's "previous": moves the cursor back by one step (not past
    /// the start) and reports the step now shown, with whether its profile
    /// differs from that of the step shown before. Visited accounts stay
    /// visited. An empty plan reports completion.
    pub fn prev_task_execution(&mut self) -> (r: Result<ExecutionResult, SchedulerError>)
        requires
            old(self).wf(),
        ensures
            final(self).wf(),
            final(self).same_but_plan(old(self)),
            old(self).plan() is None ==> r == Err::<ExecutionResult, SchedulerError>(
                SchedulerError::NoActivePlan,
            ) && final(self).plan() is None,
            old(self).plan() matches Some(p) ==> {
                let c1 = if p.cursor() > 0 {
                    p.cursor() - 1
                } else {
                    0
                };
                let shown_before = crate::plan::current_of(p.order(), p.cursor());
                &&& final(self).plan() matches Some(q) && q.order() == p.order() && q.visited()
                    == p.visited() && q.cursor() == c1
                &&& match crate::plan::current_of(p.order(), c1) {
                    None => r matches Ok(x) && reports_completion(x),
                    Some(st) => r matches Ok(x) && reports_shown(
                        x,
                        st,
                        match shown_before {
                            Some(b) => b.profile_id != st.profile_id,
                            None => true,
                        },
                        old(self).tasks(),
                    ),
                }
            },
    {
        let (before, now) = match &mut self.execution_plan {
            None => {
                return Err(SchedulerError::NoActivePlan);
            },
            Some(plan) => {
                let before = plan.current_profile_id();
                plan.rewind_one();
                let now = match plan.current_step() {
                    Some(s) => Some(s.duplicate()),
                    None => None,
                };
                (before, now)
            },
        };
        match now {
            None => Ok(completion()),
            Some(st) => {
                let change = match before {
                    Some(p) => p != st.profile_id,
                    None => true,
                };
                let comment = match self.get_current_comment(st.task_index) {
                    Some(c) => c,
                    None => String::new(),
                };
                Ok(
                    ExecutionResult {
                        completed: false,
                        profile_id: st.profile_id,
                        link: st.link,
                        should_change_profile: change,
                        task_index: st.task_index,
                        comment,
                    },
                )
            },
        }
    }
}

} // verus!
