use vstd::prelude::*;

use crate::models::{BriefCase, Task};

verus! {

/// One unit of work: post on the link of task `task_index` from account
/// `briefcase_index` of that task's resolved accounts, in profile `profile_id`.
#[derive(Clone, Debug)]
pub struct ExecutionStep {
    pub task_index: usize,
    pub briefcase_index: usize,
    pub profile_id: u128,
    pub link: String,
}

impl ExecutionStep {
    /// A copy of this step, field for field.
    pub fn duplicate(&self) -> (r: ExecutionStep)
        ensures
            r == *self,
    {
        ExecutionStep {
            task_index: self.task_index,
            briefcase_index: self.briefcase_index,
            profile_id: self.profile_id,
            link: self.link.clone(),
        }
    }
}

/// The steps of one profile, in the order the plan takes them.
#[derive(Clone, Debug)]
pub struct ProfileExecution {
    pub profile_id: u128,
    pub steps: Vec<ExecutionStep>,
}

/// Why a scheduling operation could not be carried out.
#[derive(Clone, Copy, Debug, PartialEq, Eq, Structural)]
pub enum SchedulerError {
    /// No task has any matching account: there is nothing to do.
    EmptyPool,
    /// The operation needs an execution plan and none has been built.
    NoActivePlan,
    /// A step names a task or an account that the task pool does not hold.
    IndexOutOfRange,
}

impl SchedulerError {
    /// A message for the operator.
    pub fn message(&self) -> (r: &'static str)
        ensures
            *self == SchedulerError::EmptyPool ==> r@ == "nothing to do: no task has a matching account"@,
            *self == SchedulerError::NoActivePlan ==> r@ == "no execution plan is active"@,
            *self == SchedulerError::IndexOutOfRange ==> r@ == "a step refers to a task or account that does not exist"@,
    {
        match self {
            SchedulerError::EmptyPool => "nothing to do: no task has a matching account",
            SchedulerError::NoActivePlan => "no execution plan is active",
            SchedulerError::IndexOutOfRange => "a step refers to a task or account that does not exist",
        }
    }
}

/// The step for account `b` of task `t`.
pub open spec fn step_of(tasks: Seq<Task>, t: int, b: int) -> ExecutionStep {
    ExecutionStep {
        task_index: t as usize,
        briefcase_index: b as usize,
        profile_id: tasks[t].related_brief_cases@[b].profile_id,
        link: tasks[t].link,
    }
}

/// The steps for the first `n` accounts of task `t`.
pub open spec fn task_steps(tasks: Seq<Task>, t: int, n: int) -> Seq<ExecutionStep> {
    Seq::new(n as nat, |b: int| step_of(tasks, t, b))
}

/// Every (task, account) pair of the first `n` tasks, task by task and, within a
/// task, in the order of its accounts.
pub open spec fn pairs_upto(tasks: Seq<Task>, n: int) -> Seq<ExecutionStep>
    decreases n,
{
    if n <= 0 {
        seq![]
    } else {
        pairs_upto(tasks, n - 1) + task_steps(tasks, n - 1, tasks[n - 1].related_brief_cases@.len() as int)
    }
}

/// Every (task, account) pair of the pool.
pub open spec fn all_pairs(tasks: Seq<Task>) -> Seq<ExecutionStep> {
    pairs_upto(tasks, tasks.len() as int)
}

/// The profiles of `s`, each once, in the order of their first occurrence.
pub open spec fn profiles_in_order(s: Seq<ExecutionStep>) -> Seq<u128>
    decreases s.len(),
{
    if s.len() == 0 {
        seq![]
    } else {
        let r = profiles_in_order(s.drop_last());
        if r.contains(s.last().profile_id) {
            r
        } else {
            r.push(s.last().profile_id)
        }
    }
}

/// The steps of `s` in profile `p`, in their order in `s`.
pub open spec fn steps_for(s: Seq<ExecutionStep>, p: u128) -> Seq<ExecutionStep>
    decreases s.len(),
{
    if s.len() == 0 {
        seq![]
    } else {
        let r = steps_for(s.drop_last(), p);
        if s.last().profile_id == p {
            r.push(s.last())
        } else {
            r
        }
    }
}

/// The steps of each profile of `ps` in turn.
pub open spec fn concat_groups(s: Seq<ExecutionStep>, ps: Seq<u128>) -> Seq<ExecutionStep>
    decreases ps.len(),
{
    if ps.len() == 0 {
        seq![]
    } else {
        concat_groups(s, ps.drop_last()) + steps_for(s, ps.last())
    }
}

/// `s` regrouped by profile, profiles in first-seen order.
pub open spec fn grouped(s: Seq<ExecutionStep>) -> Seq<ExecutionStep> {
    concat_groups(s, profiles_in_order(s))
}

/// The flattened order of the plan built from `tasks`.
pub open spec fn plan_order(tasks: Seq<Task>) -> Seq<ExecutionStep> {
    grouped(all_pairs(tasks))
}

/// The steps of a sequence of groups, one group after the other.
pub open spec fn group_steps(gs: Seq<ProfileExecution>) -> Seq<ExecutionStep>
    decreases gs.len(),
{
    if gs.len() == 0 {
        seq![]
    } else {
        group_steps(gs.drop_last()) + gs.last().steps@
    }
}

/// Whether the step at `i` of `order` starts a new browser session: it is the
/// first step, or its profile differs from that of the step before it.
pub open spec fn starts_session(order: Seq<ExecutionStep>, i: int) -> bool {
    0 <= i < order.len() && (i == 0 || order[i].profile_id != order[i - 1].profile_id)
}

/// No profile occurs in two runs of `order` that another profile separates.
pub open spec fn runs_contiguous(order: Seq<ExecutionStep>) -> bool {
    forall|i: int, j: int, k: int|
        0 <= i < j < k < order.len() && #[trigger] order[i].profile_id == #[trigger] order[k].profile_id
            ==> #[trigger] order[j].profile_id == order[i].profile_id
}

/// What `advance` returns from cursor `c`.
pub open spec fn advance_result(order: Seq<ExecutionStep>, c: int) -> Option<ExecutionStep> {
    if 0 <= c < order.len() {
        Some(order[c])
    } else {
        None
    }
}

/// The cursor after `advance` from cursor `c`.
pub open spec fn advance_cursor(order: Seq<ExecutionStep>, c: int) -> int {
    if 0 <= c < order.len() {
        c + 1
    } else {
        c
    }
}

/// What `n` calls of `advance` return, one after the other, from cursor `c`.
pub open spec fn advance_results(order: Seq<ExecutionStep>, c: int, n: nat) -> Seq<Option<ExecutionStep>>
    decreases n,
{
    if n == 0 {
        seq![]
    } else {
        seq![advance_result(order, c)] + advance_results(order, advance_cursor(order, c), (n - 1) as nat)
    }
}

/// The step shown as current at cursor `c`: the first step before any advance,
/// the step last handed out after that, and none once the plan is complete or
/// when it is empty.
pub open spec fn current_of(order: Seq<ExecutionStep>, c: int) -> Option<ExecutionStep> {
    if c < 0 || c >= order.len() {
        None
    } else if c == 0 {
        Some(order[0])
    } else {
        Some(order[c - 1])
    }
}

/// The step in front of the operator at cursor `c`: the first step before any
/// advance, otherwise the step last handed out, also once the plan is
/// complete; none for an empty plan.
pub open spec fn shown_of(order: Seq<ExecutionStep>, c: int) -> Option<ExecutionStep> {
    if order.len() == 0 || c < 0 || c > order.len() {
        None
    } else if c == 0 {
        Some(order[0])
    } else {
        Some(order[c - 1])
    }
}

/// The number of accounts of `cases` whose id is in `visited`.
pub open spec fn visited_in(cases: Seq<BriefCase>, visited: Set<u128>) -> nat
    decreases cases.len(),
{
    if cases.len() == 0 {
        0
    } else {
        visited_in(cases.drop_last(), visited) + if visited.contains(cases.last().id) {
            1nat
        } else {
            0nat
        }
    }
}

/// The progress of each task: its index, how many of its accounts are visited,
/// and how many it has.
pub open spec fn task_progress_of(tasks: Seq<Task>, visited: Set<u128>) -> Seq<(usize, usize, usize)> {
    Seq::new(
        tasks.len(),
        |i: int|
            (
                i as usize,
                visited_in(tasks[i].related_brief_cases@, visited) as usize,
                tasks[i].related_brief_cases@.len() as usize,
            ),
    )
}

/// The execution plan: steps grouped by profile, their flattened order, a cursor
/// over it and the set of accounts visited so far.
///
/// Progress is kept per account: an account that matches several tasks counts
/// once in `visited_count`, and is visited for each of those tasks in
/// `task_progress`.
pub struct ExecutionPlan {
    profile_executions: Vec<ProfileExecution>,
    execution_order: Vec<ExecutionStep>,
    current_step_index: usize,
    visited_briefcase_ids: Vec<u128>,
}

impl ExecutionPlan {
    /// The flattened order of the steps.
    pub closed spec fn order(&self) -> Seq<ExecutionStep> {
        self.execution_order@
    }

    /// The groups of steps, one per profile.
    pub closed spec fn groups(&self) -> Seq<ProfileExecution> {
        self.profile_executions@
    }

    /// How many steps `advance` has handed out since the start or the last reset.
    pub closed spec fn cursor(&self) -> int {
        self.current_step_index as int
    }

    /// The ids of the accounts visited so far.
    pub closed spec fn visited(&self) -> Set<u128> {
        self.visited_briefcase_ids@.to_set()
    }

    /// The cursor lies in `[0, total]`, the groups hold the flattened order, and
    /// each visited id is recorded once.
    pub closed spec fn wf(&self) -> bool {
        &&& self.current_step_index <= self.execution_order@.len()
        &&& group_steps(self.profile_executions@) == self.execution_order@
        &&& self.visited_briefcase_ids@.no_duplicates()
    }
}

/// Whether `ids` holds `id`.
fn contains_id(ids: &Vec<u128>, id: u128) -> (r: bool)
    ensures
        r == ids@.contains(id),
{
    let mut i: usize = 0;
    while i < ids.len()
        invariant
            i <= ids@.len(),
            forall|j: int| 0 <= j < i ==> ids@[j] != id,
        decreases ids@.len() - i,
    {
        if ids[i] == id {
            return true;
        }
        i = i + 1;
    }
    false
}

/// Every (task, account) pair of the pool, task by task.
fn collect_pairs(tasks: &[Task]) -> (r: Vec<ExecutionStep>)
    ensures
        r@ == all_pairs(tasks@),
        forall|i: int| 0 <= i < r@.len() ==> step_in_pool(tasks@, #[trigger] r@[i]),
        r@.no_duplicates(),
{
    let mut r: Vec<ExecutionStep> = Vec::new();
    let mut t: usize = 0;
    while t < tasks.len()
        invariant
            t <= tasks@.len(),
            r@ == pairs_upto(tasks@, t as int),
            forall|i: int| 0 <= i < r@.len() ==> step_in_pool(tasks@, #[trigger] r@[i]),
            forall|i: int| 0 <= i < r@.len() ==> (#[trigger] r@[i]).task_index < t,
            r@.no_duplicates(),
        decreases tasks@.len() - t,
    {
        let task = &tasks[t];
        let mut b: usize = 0;
        while b < task.related_brief_cases.len()
            invariant
                t < tasks@.len(),
                *task == tasks@[t as int],
                b <= task.related_brief_cases@.len(),
                r@ == pairs_upto(tasks@, t as int) + task_steps(tasks@, t as int, b as int),
                forall|i: int| 0 <= i < r@.len() ==> step_in_pool(tasks@, #[trigger] r@[i]),
                forall|i: int|
                    0 <= i < r@.len() ==> (#[trigger] r@[i]).task_index < t || (r@[i].task_index == t
                        && r@[i].briefcase_index < b),
                r@.no_duplicates(),
            decreases task.related_brief_cases@.len() - b,
        {
            let step = ExecutionStep {
                task_index: t,
                briefcase_index: b,
                profile_id: task.related_brief_cases[b].profile_id,
                link: task.link.clone(),
            };
            let ghost before = r@;
            r.push(step);
            proof {
                assert(step == step_of(tasks@, t as int, b as int));
                assert forall|i: int| 0 <= i < r@.len() implies step_in_pool(tasks@, #[trigger] r@[i]) by {
                    if i < before.len() {
                        assert(r@[i] == before[i]);
                    }
                }
                assert forall|i: int, j: int| 0 <= i < j < r@.len() implies r@[i] != r@[j] by {
                    if j == before.len() {
                        assert(r@[i] == before[i]);
                    } else {
                        assert(before[i] != before[j]);
                    }
                }
                assert(task_steps(tasks@, t as int, b + 1) =~= task_steps(tasks@, t as int, b as int).push(
                    step_of(tasks@, t as int, b as int),
                ));
            }
            b = b + 1;
        }
        t = t + 1;
    }
    r
}

/// The profiles of `s`, each once, in first-seen order.
fn first_seen_profiles(s: &Vec<ExecutionStep>) -> (r: Vec<u128>)
    ensures
        r@ == profiles_in_order(s@),
{
    let mut r: Vec<u128> = Vec::new();
    let mut i: usize = 0;
    while i < s.len()
        invariant
            i <= s@.len(),
            r@ == profiles_in_order(s@.subrange(0, i as int)),
        decreases s@.len() - i,
    {
        proof {
            assert(s@.subrange(0, i + 1).drop_last() =~= s@.subrange(0, i as int));
        }
        if !contains_id(&r, s[i].profile_id) {
            r.push(s[i].profile_id);
        }
        i = i + 1;
    }
    proof {
        assert(s@.subrange(0, i as int) =~= s@);
    }
    r
}

impl ExecutionPlan {
    /// Builds the plan for `tasks`: every (task, account) pair becomes a step,
    /// the steps are grouped by the account's profile, profiles in the order in
    /// which they are first met, and the groups are laid end to end. The cursor
    /// starts at 0 and no account is visited.
    pub fn new(tasks: &[Task]) -> (r: ExecutionPlan)
        ensures
            r.wf(),
            r.order() == plan_order(tasks@),
            r.groups().len() == profiles_in_order(all_pairs(tasks@)).len(),
            forall|k: int|
                0 <= k < r.groups().len() ==> (#[trigger] r.groups()[k]).profile_id == profiles_in_order(
                    all_pairs(tasks@),
                )[k] && r.groups()[k].steps@ == steps_for(
                    all_pairs(tasks@),
                    profiles_in_order(all_pairs(tasks@))[k],
                ),
            r.cursor() == 0,
            r.visited() == Set::<u128>::empty(),
            forall|i: int| 0 <= i < r.order().len() ==> step_in_pool(tasks@, #[trigger] r.order()[i]),
            r.order().no_duplicates(),
            forall|x: ExecutionStep| #[trigger] all_pairs(tasks@).contains(x) <==> r.order().contains(x),
    {
        let pairs = collect_pairs(tasks);
        let profiles = first_seen_profiles(&pairs);
        let ghost s = pairs@;
        let mut groups: Vec<ProfileExecution> = Vec::new();
        let mut order: Vec<ExecutionStep> = Vec::new();
        let mut k: usize = 0;
        while k < profiles.len()
            invariant
                s == all_pairs(tasks@),
                pairs@ == s,
                profiles@ == profiles_in_order(s),
                k <= profiles@.len(),
                groups@.len() == k,
                forall|j: int|
                    0 <= j < k ==> (#[trigger] groups@[j]).profile_id == profiles@[j]
                        && groups@[j].steps@ == steps_for(s, profiles@[j]),
                order@ == concat_groups(s, profiles@.subrange(0, k as int)),
                group_steps(groups@) == order@,
            decreases profiles@.len() - k,
        {
            let p = profiles[k];
            let mut steps: Vec<ExecutionStep> = Vec::new();
            let ghost before = order@;
            let mut i: usize = 0;
            while i < pairs.len()
                invariant
                    pairs@ == s,
                    i <= s.len(),
                    steps@ == steps_for(s.subrange(0, i as int), p),
                    order@ == before + steps@,
            decreases s.len() - i,
            {
                proof {
                    assert(s.subrange(0, i + 1).drop_last() =~= s.subrange(0, i as int));
                }
                if pairs[i].profile_id == p {
                    steps.push(pairs[i].duplicate());
                    order.push(pairs[i].duplicate());
                }
                i = i + 1;
            }
            proof {
                assert(s.subrange(0, i as int) =~= s);
                assert(profiles@.subrange(0, k + 1).drop_last() =~= profiles@.subrange(0, k as int));
            }
            let ghost old_groups = groups@;
            groups.push(ProfileExecution { profile_id: p, steps });
            proof {
                assert(groups@.drop_last() =~= old_groups);
            }
            k = k + 1;
        }
        proof {
            assert(profiles@.subrange(0, k as int) =~= profiles@);
            assert(Seq::<u128>::empty().to_set() =~= Set::<u128>::empty());
            lemma_concat_groups_from(s, profiles@);
            lemma_grouped_permutes(s);
            assert forall|i: int| 0 <= i < order@.len() implies step_in_pool(tasks@, #[trigger] order@[i]) by {
                assert(s.contains(order@[i]));
                let k = choose|k: int| 0 <= k < s.len() && s[k] == order@[i];
                assert(step_in_pool(tasks@, pairs@[k]));
            }
        }
        ExecutionPlan {
            profile_executions: groups,
            execution_order: order,
            current_step_index: 0,
            visited_briefcase_ids: Vec::new(),
        }
    }
}


impl ExecutionPlan {
    /// The cursor of a well-formed plan lies in `[0, total]`.
    pub proof fn lemma_cursor_in_range(&self)
        requires
            self.wf(),
        ensures
            0 <= self.cursor() <= self.order().len(),
    {
    }

    /// The visited set of a plan is finite.
    pub proof fn lemma_visited_finite(&self)
        ensures
            self.visited().finite(),
    {
        vstd::seq_lib::seq_to_set_is_finite(self.visited_briefcase_ids@);
    }
}

/// Builds the plan for `tasks`, or reports that there is nothing to do: the
/// pool is empty or no task has a matching account.
pub fn build_plan(tasks: &[Task]) -> (r: Result<ExecutionPlan, SchedulerError>)
    ensures
        r is Err <==> forall|t: int|
            0 <= t < tasks@.len() ==> (#[trigger] tasks@[t]).related_brief_cases@.len() == 0,
        r is Err ==> r == Err::<ExecutionPlan, SchedulerError>(SchedulerError::EmptyPool),
        r matches Ok(p) ==> p.wf() && p.order() == plan_order(tasks@) && p.cursor() == 0
            && p.visited() == Set::<u128>::empty() && forall|i: int|
            0 <= i < p.order().len() ==> step_in_pool(tasks@, #[trigger] p.order()[i]),
{
    let plan = ExecutionPlan::new(tasks);
    proof {
        lemma_plan_covers_pairs(tasks@);
    }
    if plan.total_steps() == 0 {
        Err(SchedulerError::EmptyPool)
    } else {
        Ok(plan)
    }
}

impl ExecutionPlan {
    /// The groups of steps, one per profile, in first-seen order.
    pub fn profile_executions(&self) -> (r: &Vec<ProfileExecution>)
        ensures
            r@ == self.groups(),
    {
        &self.profile_executions
    }

    /// Hands out the step at the cursor and moves the cursor past it; once every
    /// step has been handed out, returns `None` and changes nothing.
    pub fn next(&mut self) -> (r: Option<ExecutionStep>)
        requires
            old(self).wf(),
        ensures
            final(self).wf(),
            r == advance_result(old(self).order(), old(self).cursor()),
            final(self).cursor() == advance_cursor(old(self).order(), old(self).cursor()),
            final(self).order() == old(self).order(),
            final(self).groups() == old(self).groups(),
            final(self).visited() == old(self).visited(),
    {
        if self.current_step_index >= self.execution_order.len() {
            return None;
        }
        let step = self.execution_order[self.current_step_index].duplicate();
        self.current_step_index = self.current_step_index + 1;
        Some(step)
    }

    /// Whether the step at the cursor opens a new browser session: true at the
    /// first step and wherever the profile changes, false elsewhere and once the
    /// plan is complete.
    pub fn should_change_profile(&self) -> (r: bool)
        requires
            self.wf(),
        ensures
            r == starts_session(self.order(), self.cursor()),
    {
        if self.current_step_index >= self.execution_order.len() {
            return false;
        }
        if self.current_step_index == 0 {
            return true;
        }
        let current = self.execution_order[self.current_step_index - 1].profile_id;
        let next = self.execution_order[self.current_step_index].profile_id;
        current != next
    }

    /// Records that account `briefcase_id` has been visited.
    pub fn mark_visited(&mut self, briefcase_id: u128)
        requires
            old(self).wf(),
        ensures
            final(self).wf(),
            final(self).visited() == old(self).visited().insert(briefcase_id),
            final(self).visited().finite(),
            final(self).visited().len() == old(self).visited().len() + (if old(self).visited().contains(
                briefcase_id,
            ) {
                0int
            } else {
                1int
            }),
            final(self).order() == old(self).order(),
            final(self).groups() == old(self).groups(),
            final(self).cursor() == old(self).cursor(),
    {
        let ghost before = self.visited_briefcase_ids@;
        proof {
            vstd::seq_lib::seq_to_set_is_finite(before);
        }
        if !contains_id(&self.visited_briefcase_ids, briefcase_id) {
            self.visited_briefcase_ids.push(briefcase_id);
            proof {
                assert(self.visited_briefcase_ids@ == before.push(briefcase_id));
                assert forall|i: int, j: int|
                    0 <= i < j < self.visited_briefcase_ids@.len() implies self.visited_briefcase_ids@[i]
                    != self.visited_briefcase_ids@[j] by {
                    if j == before.len() {
                        assert(before.contains(before[i]));
                    }
                }
            }
        }
        proof {
            let now = self.visited_briefcase_ids@;
            assert forall|x: u128| now.contains(x) <==> (before.contains(x) || x == briefcase_id) by {
                if now != before {
                    if x == briefcase_id {
                        assert(now[before.len() as int] == x);
                    }
                    if before.contains(x) {
                        let i = choose|i: int| 0 <= i < before.len() && before[i] == x;
                        assert(now[i] == x);
                    }
                }
            }
            assert(now.to_set() =~= before.to_set().insert(briefcase_id));
            vstd::seq_lib::seq_to_set_is_finite(now);
        }
    }

    /// Whether account `briefcase_id` has been visited.
    pub fn is_visited(&self, briefcase_id: u128) -> (r: bool)
        ensures
            r == self.visited().contains(briefcase_id),
    {
        contains_id(&self.visited_briefcase_ids, briefcase_id)
    }

    /// The step shown as current: the first step before any advance, then the
    /// step last handed out; none once the plan is complete or when it is empty.
    pub fn current_step(&self) -> (r: Option<&ExecutionStep>)
        requires
            self.wf(),
        ensures
            r is None <==> current_of(self.order(), self.cursor()) is None,
            r matches Some(s) ==> current_of(self.order(), self.cursor()) == Some(*s),
    {
        if self.current_step_index >= self.execution_order.len() {
            None
        } else if self.current_step_index == 0 {
            Some(&self.execution_order[0])
        } else {
            Some(&self.execution_order[self.current_step_index - 1])
        }
    }

    /// The step in front of the operator: the first step before any advance,
    /// otherwise the step `next` handed out last, also once the plan is
    /// complete; none only for an empty plan. Wherever `current_step` gives a
    /// step, this is that step.
    pub fn shown_step(&self) -> (r: Option<&ExecutionStep>)
        requires
            self.wf(),
        ensures
            r is None <==> self.order().len() == 0,
            r matches Some(s) ==> shown_of(self.order(), self.cursor()) == Some(*s),
            current_of(self.order(), self.cursor()) matches Some(c) ==> r matches Some(s) && *s == c,
    {
        if self.execution_order.len() == 0 {
            None
        } else if self.current_step_index == 0 {
            Some(&self.execution_order[0])
        } else {
            Some(&self.execution_order[self.current_step_index - 1])
        }
    }

    /// The profile of the current step.
    pub fn current_profile_id(&self) -> (r: Option<u128>)
        requires
            self.wf(),
        ensures
            r == (match current_of(self.order(), self.cursor()) {
                Some(s) => Some(s.profile_id),
                None => None,
            }),
    {
        match self.current_step() {
            Some(s) => Some(s.profile_id),
            None => None,
        }
    }

    /// Moves the cursor back by one step, if it is not at the start; visited
    /// accounts stay visited.
    pub fn rewind_one(&mut self)
        requires
            old(self).wf(),
        ensures
            final(self).wf(),
            final(self).cursor() == (if old(self).cursor() > 0 {
                old(self).cursor() - 1
            } else {
                0
            }),
            final(self).order() == old(self).order(),
            final(self).groups() == old(self).groups(),
            final(self).visited() == old(self).visited(),
    {
        if self.current_step_index > 0 {
            self.current_step_index = self.current_step_index - 1;
        }
    }

    /// Moves the cursor back to the first step; visited accounts stay visited.
    pub fn reset(&mut self)
        requires
            old(self).wf(),
        ensures
            final(self).wf(),
            final(self).cursor() == 0,
            final(self).order() == old(self).order(),
            final(self).groups() == old(self).groups(),
            final(self).visited() == old(self).visited(),
    {
        self.current_step_index = 0;
    }

    /// Forgets every visited account; the cursor stays where it is.
    pub fn reset_progress(&mut self)
        requires
            old(self).wf(),
        ensures
            final(self).wf(),
            final(self).visited() == Set::<u128>::empty(),
            final(self).order() == old(self).order(),
            final(self).groups() == old(self).groups(),
            final(self).cursor() == old(self).cursor(),
    {
        self.visited_briefcase_ids = Vec::new();
        proof {
            assert(self.visited_briefcase_ids@.to_set() =~= Set::<u128>::empty());
        }
    }

    /// The number of steps of the plan.
    pub fn total_steps(&self) -> (r: usize)
        ensures
            r == self.order().len(),
    {
        self.execution_order.len()
    }

    /// The number of steps handed out since the start or the last reset.
    pub fn completed_steps(&self) -> (r: usize)
        ensures
            r == self.cursor(),
    {
        self.current_step_index
    }

    /// Whether every step has been handed out.
    pub fn is_complete(&self) -> (r: bool)
        ensures
            r == (self.cursor() >= self.order().len()),
    {
        self.current_step_index >= self.execution_order.len()
    }

    /// The number of visited accounts.
    pub fn visited_count(&self) -> (r: usize)
        requires
            self.wf(),
        ensures
            r == self.visited().len(),
            self.visited().finite(),
    {
        proof {
            self.visited_briefcase_ids@.unique_seq_to_set();
            vstd::seq_lib::seq_to_set_is_finite(self.visited_briefcase_ids@);
        }
        self.visited_briefcase_ids.len()
    }

    /// The number of visited accounts and the number of steps.
    pub fn overall_progress(&self) -> (r: (usize, usize))
        requires
            self.wf(),
        ensures
            r == (self.visited().len() as usize, self.order().len() as usize),
    {
        (self.visited_count(), self.total_steps())
    }

    /// For each task of `tasks`: its index, how many of its accounts are
    /// visited, and how many accounts it has.
    pub fn task_progress(&self, tasks: &[Task]) -> (r: Vec<(usize, usize, usize)>)
        ensures
            r@ == task_progress_of(tasks@, self.visited()),
    {
        let mut r: Vec<(usize, usize, usize)> = Vec::new();
        let mut t: usize = 0;
        while t < tasks.len()
            invariant
                t <= tasks@.len(),
                r@ == task_progress_of(tasks@, self.visited()).subrange(0, t as int),
            decreases tasks@.len() - t,
        {
            let cases = &tasks[t].related_brief_cases;
            let mut count: usize = 0;
            let mut b: usize = 0;
            while b < cases.len()
                invariant
                    b <= cases@.len(),
                    count as nat == visited_in(cases@.subrange(0, b as int), self.visited()),
                    count <= b,
                decreases cases@.len() - b,
            {
                proof {
                    assert(cases@.subrange(0, b + 1).drop_last() =~= cases@.subrange(0, b as int));
                }
                if self.is_visited(cases[b].id) {
                    count = count + 1;
                }
                b = b + 1;
            }
            proof {
                assert(cases@.subrange(0, b as int) =~= cases@);
            }
            r.push((t, count, cases.len()));
            proof {
                assert(r@ =~= task_progress_of(tasks@, self.visited()).subrange(0, t + 1));
            }
            t = t + 1;
        }
        proof {
            assert(task_progress_of(tasks@, self.visited()).subrange(0, t as int) =~= task_progress_of(
                tasks@,
                self.visited(),
            ));
        }
        r
    }
}


proof fn lemma_steps_for_profile(s: Seq<ExecutionStep>, p: u128)
    ensures
        forall|i: int| 0 <= i < steps_for(s, p).len() ==> (#[trigger] steps_for(s, p)[i]).profile_id == p,
    decreases s.len(),
{
    if s.len() > 0 {
        lemma_steps_for_profile(s.drop_last(), p);
        let r = steps_for(s.drop_last(), p);
        assert forall|i: int| 0 <= i < steps_for(s, p).len() implies (#[trigger] steps_for(
            s,
            p,
        )[i]).profile_id == p by {
            if i < r.len() {
                assert(r[i].profile_id == p);
            }
        }
    }
}

proof fn lemma_profiles_distinct(s: Seq<ExecutionStep>)
    ensures
        profiles_in_order(s).no_duplicates(),
    decreases s.len(),
{
    if s.len() > 0 {
        lemma_profiles_distinct(s.drop_last());
        let r = profiles_in_order(s.drop_last());
        if !r.contains(s.last().profile_id) {
            let q = r.push(s.last().profile_id);
            assert forall|i: int, j: int| 0 <= i < j < q.len() implies q[i] != q[j] by {
                if j == r.len() {
                    assert(r.contains(r[i]));
                }
            }
        }
    }
}

proof fn lemma_concat_groups_contiguous(s: Seq<ExecutionStep>, ps: Seq<u128>)
    requires
        ps.no_duplicates(),
    ensures
        runs_contiguous(concat_groups(s, ps)),
        forall|i: int|
            0 <= i < concat_groups(s, ps).len() ==> ps.contains(
                (#[trigger] concat_groups(s, ps)[i]).profile_id,
            ),
    decreases ps.len(),
{
    if ps.len() > 0 {
        let init = ps.drop_last();
        let p = ps.last();
        assert(init.no_duplicates());
        lemma_concat_groups_contiguous(s, init);
        lemma_steps_for_profile(s, p);
        let a = concat_groups(s, init);
        let b = steps_for(s, p);
        let c = a + b;
        assert(c == concat_groups(s, ps));
        assert(!init.contains(p)) by {
            if init.contains(p) {
                let i = choose|i: int| 0 <= i < init.len() && init[i] == p;
                assert(ps[i] == ps[ps.len() - 1]);
            }
        }
        assert forall|i: int, j: int, k: int|
            0 <= i < j < k < c.len() && #[trigger] c[i].profile_id == #[trigger] c[k].profile_id implies #[trigger] c[j].profile_id
            == c[i].profile_id by {
            if k < a.len() {
                assert(a[i].profile_id == a[k].profile_id);
                assert(a[j].profile_id == a[i].profile_id);
            } else if i >= a.len() {
                assert(b[i - a.len()].profile_id == p);
                assert(b[j - a.len()].profile_id == p);
            } else {
                assert(init.contains(a[i].profile_id));
                assert(b[k - a.len()].profile_id == p);
            }
        }
        assert forall|i: int| 0 <= i < c.len() implies ps.contains((#[trigger] c[i]).profile_id) by {
            if i < a.len() {
                let x = a[i].profile_id;
                assert(init.contains(x));
                let m = choose|m: int| 0 <= m < init.len() && init[m] == x;
                assert(ps[m] == x);
            } else {
                assert(b[i - a.len()].profile_id == p);
                assert(ps[ps.len() - 1] == p);
            }
        }
    }
}

/// The plan keeps each profile's steps together: no profile's steps are split
/// by another profile's, so every run of one profile is maximal.
pub proof fn lemma_plan_runs_contiguous(tasks: Seq<Task>)
    ensures
        runs_contiguous(plan_order(tasks)),
{
    lemma_profiles_distinct(all_pairs(tasks));
    lemma_concat_groups_contiguous(all_pairs(tasks), profiles_in_order(all_pairs(tasks)));
}

proof fn lemma_advance_past_end(order: Seq<ExecutionStep>, c: int, n: nat)
    requires
        c >= order.len(),
    ensures
        advance_results(order, c, n) == Seq::new(n, |i: int| None::<ExecutionStep>),
    decreases n,
{
    if n > 0 {
        lemma_advance_past_end(order, c, (n - 1) as nat);
        assert(advance_results(order, c, n) =~= Seq::new(n, |i: int| None::<ExecutionStep>));
    }
}

proof fn lemma_advance_from(order: Seq<ExecutionStep>, c: int, extra: nat)
    requires
        0 <= c <= order.len(),
    ensures
        advance_results(order, c, ((order.len() - c) + extra) as nat) == Seq::new(
            (order.len() - c) as nat,
            |i: int| Some(order[c + i]),
        ) + Seq::new(extra, |i: int| None::<ExecutionStep>),
    decreases order.len() - c,
{
    if c == order.len() {
        lemma_advance_past_end(order, c, extra);
        assert(Seq::new((order.len() - c) as nat, |i: int| Some(order[c + i])) =~= Seq::<
            Option<ExecutionStep>,
        >::empty());
        assert(Seq::<Option<ExecutionStep>>::empty() + Seq::new(extra, |i: int| None::<ExecutionStep>)
            =~= Seq::new(extra, |i: int| None::<ExecutionStep>));
    } else {
        lemma_advance_from(order, c + 1, extra);
        let n = ((order.len() - c) + extra) as nat;
        assert(advance_results(order, c, n) == seq![Some(order[c])] + advance_results(
            order,
            c + 1,
            (n - 1) as nat,
        ));
        assert(advance_results(order, c, n) =~= Seq::new(
            (order.len() - c) as nat,
            |i: int| Some(order[c + i]),
        ) + Seq::new(extra, |i: int| None::<ExecutionStep>));
    }
}

/// Calling `next` on a plan at its start `order.len() + extra` times hands out
/// every step exactly once, in the plan's order, and then nothing on each of the
/// `extra` calls that follow.
pub proof fn lemma_advance_drains_in_order(order: Seq<ExecutionStep>, extra: nat)
    ensures
        advance_results(order, 0, order.len() + extra) == Seq::new(order.len(), |i: int| Some(order[i]))
            + Seq::new(extra, |i: int| None::<ExecutionStep>),
{
    lemma_advance_from(order, 0, extra);
    assert(Seq::new(order.len(), |i: int| Some(order[0 + i])) =~= Seq::new(
        order.len(),
        |i: int| Some(order[i]),
    ));
}

/// Marking an account visited a second time changes nothing: with `marked_once`
/// the plan after `mark_visited(id)` on `plan` and `marked_twice` the plan after
/// marking `id` again, the visited set and its size are those after the first.
pub proof fn lemma_mark_visited_idempotent(
    plan: ExecutionPlan,
    marked_once: ExecutionPlan,
    marked_twice: ExecutionPlan,
    id: u128,
)
    requires
        marked_once.visited() == plan.visited().insert(id),
        marked_twice.visited() == marked_once.visited().insert(id),
    ensures
        marked_twice.visited() == marked_once.visited(),
        marked_twice.visited().len() == marked_once.visited().len(),
{
    assert(marked_twice.visited() =~= marked_once.visited());
}

/// Resetting leaves progress as it was, and draining the plan again with `next`
/// hands out the very steps of the first drain, in the same order: with `after`
/// the plan after `reset` on `before`, each `n` calls of `next` from `after`
/// return what `n` calls returned from the plan's start.
pub proof fn lemma_reset_replays(before: ExecutionPlan, after: ExecutionPlan, n: nat)
    requires
        before.wf(),
        after.cursor() == 0,
        after.order() == before.order(),
        after.visited() == before.visited(),
    ensures
        advance_results(after.order(), after.cursor(), n) == advance_results(before.order(), 0, n),
        advance_results(after.order(), after.cursor(), before.order().len()) == Seq::new(
            before.order().len(),
            |i: int| Some(before.order()[i]),
        ),
        (after.visited().len(), after.order().len()) == (before.visited().len(), before.order().len()),
{
    lemma_advance_drains_in_order(before.order(), 0);
    assert(Seq::new(before.order().len(), |i: int| Some(before.order()[i])) + Seq::new(
        0,
        |i: int| None::<ExecutionStep>,
    ) =~= Seq::new(before.order().len(), |i: int| Some(before.order()[i])));
}


/// The number of steps of `s` whose profile is in `ps`.
spec fn count_in(s: Seq<ExecutionStep>, ps: Seq<u128>) -> nat
    decreases s.len(),
{
    if s.len() == 0 {
        0
    } else {
        count_in(s.drop_last(), ps) + if ps.contains(s.last().profile_id) {
            1nat
        } else {
            0nat
        }
    }
}

proof fn lemma_count_in_push(s: Seq<ExecutionStep>, ps: Seq<u128>, p: u128)
    requires
        !ps.contains(p),
    ensures
        count_in(s, ps.push(p)) == count_in(s, ps) + steps_for(s, p).len(),
    decreases s.len(),
{
    if s.len() > 0 {
        lemma_count_in_push(s.drop_last(), ps, p);
        let x = s.last().profile_id;
        if ps.push(p).contains(x) {
            let i = choose|i: int| 0 <= i < ps.push(p).len() && ps.push(p)[i] == x;
            if i < ps.len() {
                assert(ps[i] == x);
            }
        }
        if ps.contains(x) {
            let i = choose|i: int| 0 <= i < ps.len() && ps[i] == x;
            assert(ps.push(p)[i] == x);
        }
        if x == p {
            assert(ps.push(p)[ps.len() as int] == x);
        }
    }
}

proof fn lemma_concat_groups_len(s: Seq<ExecutionStep>, ps: Seq<u128>)
    requires
        ps.no_duplicates(),
    ensures
        concat_groups(s, ps).len() == count_in(s, ps),
    decreases ps.len(),
{
    if ps.len() == 0 {
        lemma_count_in_none(s, ps);
    } else {
        let init = ps.drop_last();
        assert(init.no_duplicates());
        lemma_concat_groups_len(s, init);
        assert(!init.contains(ps.last())) by {
            if init.contains(ps.last()) {
                let i = choose|i: int| 0 <= i < init.len() && init[i] == ps.last();
                assert(ps[i] == ps[ps.len() - 1]);
            }
        }
        lemma_count_in_push(s, init, ps.last());
        assert(init.push(ps.last()) =~= ps);
    }
}

proof fn lemma_count_in_none(s: Seq<ExecutionStep>, ps: Seq<u128>)
    requires
        ps.len() == 0,
    ensures
        count_in(s, ps) == 0,
    decreases s.len(),
{
    if s.len() > 0 {
        lemma_count_in_none(s.drop_last(), ps);
    }
}

proof fn lemma_count_in_all(s: Seq<ExecutionStep>, ps: Seq<u128>)
    requires
        forall|i: int| 0 <= i < s.len() ==> ps.contains(#[trigger] s[i].profile_id),
    ensures
        count_in(s, ps) == s.len(),
    decreases s.len(),
{
    if s.len() > 0 {
        let init = s.drop_last();
        assert forall|i: int| 0 <= i < init.len() implies ps.contains(#[trigger] init[i].profile_id) by {
            assert(init[i] == s[i]);
        }
        lemma_count_in_all(init, ps);
        assert(ps.contains(s[s.len() - 1].profile_id));
    }
}

proof fn lemma_profiles_cover(s: Seq<ExecutionStep>)
    ensures
        forall|i: int| 0 <= i < s.len() ==> profiles_in_order(s).contains(#[trigger] s[i].profile_id),
    decreases s.len(),
{
    if s.len() > 0 {
        let init = s.drop_last();
        lemma_profiles_cover(init);
        let r = profiles_in_order(init);
        let q = profiles_in_order(s);
        assert forall|i: int| 0 <= i < s.len() implies q.contains(#[trigger] s[i].profile_id) by {
            if i < init.len() {
                assert(init[i] == s[i]);
                assert(r.contains(s[i].profile_id));
                let m = choose|m: int| 0 <= m < r.len() && r[m] == s[i].profile_id;
                if !r.contains(s.last().profile_id) {
                    assert(q[m] == r[m]);
                }
            } else if !r.contains(s.last().profile_id) {
                assert(q[r.len() as int] == s.last().profile_id);
            }
        }
    }
}

proof fn lemma_pairs_upto_empty(tasks: Seq<Task>, n: int)
    requires
        0 <= n <= tasks.len(),
    ensures
        pairs_upto(tasks, n).len() == 0 <==> forall|t: int|
            0 <= t < n ==> (#[trigger] tasks[t]).related_brief_cases@.len() == 0,
    decreases n,
{
    if n > 0 {
        lemma_pairs_upto_empty(tasks, n - 1);
    }
}

/// The plan holds one step for each (task, account) pair: as many steps as the
/// pairs, and none exactly when no task has a matching account.
pub proof fn lemma_plan_covers_pairs(tasks: Seq<Task>)
    ensures
        plan_order(tasks).len() == all_pairs(tasks).len(),
        plan_order(tasks).len() == 0 <==> forall|t: int|
            0 <= t < tasks.len() ==> (#[trigger] tasks[t]).related_brief_cases@.len() == 0,
{
    let s = all_pairs(tasks);
    lemma_profiles_distinct(s);
    lemma_profiles_cover(s);
    lemma_concat_groups_len(s, profiles_in_order(s));
    lemma_count_in_all(s, profiles_in_order(s));
    lemma_pairs_upto_empty(tasks, tasks.len() as int);
}


/// Whether `s` names account `s.briefcase_index` of task `s.task_index` of
/// `tasks`, and carries that account's profile and that task's link.
pub open spec fn step_in_pool(tasks: Seq<Task>, s: ExecutionStep) -> bool {
    &&& s.task_index < tasks.len()
    &&& s.briefcase_index < tasks[s.task_index as int].related_brief_cases@.len()
    &&& s == step_of(tasks, s.task_index as int, s.briefcase_index as int)
}

proof fn lemma_steps_for_from(s: Seq<ExecutionStep>, p: u128)
    ensures
        forall|i: int| 0 <= i < steps_for(s, p).len() ==> s.contains(#[trigger] steps_for(s, p)[i]),
    decreases s.len(),
{
    if s.len() > 0 {
        let init = s.drop_last();
        lemma_steps_for_from(init, p);
        let r = steps_for(init, p);
        assert forall|i: int| 0 <= i < steps_for(s, p).len() implies s.contains(#[trigger] steps_for(s, p)[i]) by {
            if i < r.len() {
                assert(init.contains(r[i]));
                let k = choose|k: int| 0 <= k < init.len() && init[k] == r[i];
                assert(s[k] == r[i]);
            } else {
                assert(s[s.len() - 1] == steps_for(s, p)[i]);
            }
        }
    }
}

proof fn lemma_concat_groups_from(s: Seq<ExecutionStep>, ps: Seq<u128>)
    ensures
        forall|i: int| 0 <= i < concat_groups(s, ps).len() ==> s.contains(#[trigger] concat_groups(s, ps)[i]),
    decreases ps.len(),
{
    if ps.len() > 0 {
        lemma_concat_groups_from(s, ps.drop_last());
        lemma_steps_for_from(s, ps.last());
        let a = concat_groups(s, ps.drop_last());
        let b = steps_for(s, ps.last());
        assert forall|i: int| 0 <= i < (a + b).len() implies s.contains(#[trigger] (a + b)[i]) by {
            if i < a.len() {
                assert(s.contains(a[i]));
            } else {
                assert(s.contains(b[i - a.len()]));
            }
        }
    }
}


proof fn lemma_steps_for_distinct(s: Seq<ExecutionStep>, p: u128)
    requires
        s.no_duplicates(),
    ensures
        steps_for(s, p).no_duplicates(),
    decreases s.len(),
{
    if s.len() > 0 {
        let init = s.drop_last();
        assert(init.no_duplicates());
        lemma_steps_for_distinct(init, p);
        lemma_steps_for_from(init, p);
        let r = steps_for(init, p);
        if s.last().profile_id == p {
            assert forall|i: int, j: int| 0 <= i < j < r.push(s.last()).len() implies r.push(s.last())[i]
                != r.push(s.last())[j] by {
                if j == r.len() {
                    assert(init.contains(r[i]));
                    let k = choose|k: int| 0 <= k < init.len() && init[k] == r[i];
                    assert(s[k] != s[s.len() - 1]);
                }
            }
        }
    }
}

proof fn lemma_concat_groups_distinct(s: Seq<ExecutionStep>, ps: Seq<u128>)
    requires
        s.no_duplicates(),
        ps.no_duplicates(),
    ensures
        concat_groups(s, ps).no_duplicates(),
    decreases ps.len(),
{
    if ps.len() > 0 {
        let init = ps.drop_last();
        let p = ps.last();
        assert(init.no_duplicates());
        lemma_concat_groups_distinct(s, init);
        lemma_concat_groups_contiguous(s, init);
        lemma_steps_for_distinct(s, p);
        lemma_steps_for_profile(s, p);
        let a = concat_groups(s, init);
        let b = steps_for(s, p);
        assert(!init.contains(p)) by {
            if init.contains(p) {
                let i = choose|i: int| 0 <= i < init.len() && init[i] == p;
                assert(ps[i] == ps[ps.len() - 1]);
            }
        }
        assert forall|i: int, j: int| 0 <= i < a.len() && 0 <= j < b.len() implies a[i] != b[j] by {
            assert(init.contains(a[i].profile_id));
            assert(b[j].profile_id == p);
        }
        vstd::seq_lib::lemma_no_dup_in_concat(a, b);
    }
}

/// The plan holds every (task, account) pair exactly once: no step twice, and
/// a step is in the plan exactly when it is one of the pairs.
proof fn lemma_grouped_permutes(s: Seq<ExecutionStep>)
    requires
        s.no_duplicates(),
    ensures
        grouped(s).no_duplicates(),
        forall|x: ExecutionStep| #[trigger] s.contains(x) <==> grouped(s).contains(x),
{
    let ps = profiles_in_order(s);
    let g = grouped(s);
    lemma_profiles_distinct(s);
    lemma_concat_groups_distinct(s, ps);
    lemma_concat_groups_from(s, ps);
    lemma_profiles_cover(s);
    lemma_concat_groups_len(s, ps);
    lemma_count_in_all(s, ps);
    assert(g.to_set().subset_of(s.to_set())) by {
        assert forall|x: ExecutionStep| g.to_set().contains(x) implies s.to_set().contains(x) by {
            let i = choose|i: int| 0 <= i < g.len() && g[i] == x;
            assert(s.contains(g[i]));
        }
    }
    g.unique_seq_to_set();
    s.unique_seq_to_set();
    vstd::seq_lib::seq_to_set_is_finite(g);
    vstd::seq_lib::seq_to_set_is_finite(s);
    vstd::set_lib::lemma_subset_equality(g.to_set(), s.to_set());
    assert forall|x: ExecutionStep| #[trigger] s.contains(x) <==> g.contains(x) by {
        assert(s.to_set().contains(x) == s.contains(x));
        assert(g.to_set().contains(x) == g.contains(x));
    }
}


/// The number of the first `n` positions of `order` that start a session.
pub open spec fn session_starts(order: Seq<ExecutionStep>, n: int) -> nat
    decreases n,
{
    if n <= 0 {
        0
    } else {
        session_starts(order, n - 1) + if starts_session(order, n - 1) {
            1nat
        } else {
            0nat
        }
    }
}

proof fn lemma_session_starts_prefix(x: Seq<ExecutionStep>, y: Seq<ExecutionStep>, n: int)
    requires
        0 <= n <= x.len(),
        n <= y.len(),
        forall|i: int| 0 <= i < n ==> x[i] == y[i],
    ensures
        session_starts(x, n) == session_starts(y, n),
    decreases n,
{
    if n > 0 {
        lemma_session_starts_prefix(x, y, n - 1);
        if n >= 2 {
            assert(x[n - 2] == y[n - 2]);
        }
        assert(x[n - 1] == y[n - 1]);
    }
}

proof fn lemma_session_starts_group(a: Seq<ExecutionStep>, b: Seq<ExecutionStep>, p: u128, k: int)
    requires
        1 <= k <= b.len(),
        forall|i: int| 0 <= i < b.len() ==> (#[trigger] b[i]).profile_id == p,
        a.len() > 0 ==> a.last().profile_id != p,
    ensures
        session_starts(a + b, a.len() + k) == session_starts(a, a.len() as int) + 1,
    decreases k,
{
    let c = a + b;
    if k == 1 {
        lemma_session_starts_prefix(c, a, a.len() as int);
        if a.len() > 0 {
            assert(c[a.len() - 1] == a.last());
        }
        assert(c[a.len() as int] == b[0]);
        assert(starts_session(c, a.len() as int));
    } else {
        lemma_session_starts_group(a, b, p, k - 1);
        assert(c[a.len() + k - 1] == b[k - 1]);
        assert(c[a.len() + k - 2] == b[k - 2]);
        assert(!starts_session(c, a.len() + k - 1));
    }
}

proof fn lemma_profile_has_steps(s: Seq<ExecutionStep>, p: u128)
    requires
        profiles_in_order(s).contains(p),
    ensures
        steps_for(s, p).len() > 0,
    decreases s.len(),
{
    if s.len() > 0 {
        let init = s.drop_last();
        let r = profiles_in_order(init);
        if s.last().profile_id != p {
            if !r.contains(s.last().profile_id) {
                let i = choose|i: int| 0 <= i < r.push(s.last().profile_id).len() && r.push(
                    s.last().profile_id,
                )[i] == p;
                assert(r[i] == p);
            }
            lemma_profile_has_steps(init, p);
        }
    }
}

proof fn lemma_concat_groups_starts(s: Seq<ExecutionStep>, ps: Seq<u128>)
    requires
        ps.no_duplicates(),
        forall|i: int| 0 <= i < ps.len() ==> profiles_in_order(s).contains(#[trigger] ps[i]),
    ensures
        session_starts(concat_groups(s, ps), concat_groups(s, ps).len() as int) == ps.len(),
    decreases ps.len(),
{
    if ps.len() > 0 {
        let init = ps.drop_last();
        let p = ps.last();
        assert(init.no_duplicates());
        assert forall|i: int| 0 <= i < init.len() implies profiles_in_order(s).contains(#[trigger] init[i]) by {
            assert(init[i] == ps[i]);
        }
        lemma_concat_groups_starts(s, init);
        lemma_concat_groups_contiguous(s, init);
        lemma_steps_for_profile(s, p);
        assert(profiles_in_order(s).contains(ps[ps.len() - 1]));
        lemma_profile_has_steps(s, p);
        let a = concat_groups(s, init);
        let b = steps_for(s, p);
        assert(!init.contains(p)) by {
            if init.contains(p) {
                let i = choose|i: int| 0 <= i < init.len() && init[i] == p;
                assert(ps[i] == ps[ps.len() - 1]);
            }
        }
        if a.len() > 0 {
            assert(init.contains(a[a.len() - 1].profile_id));
        }
        lemma_session_starts_group(a, b, p, b.len() as int);
    }
}

/// The plan opens as many browser sessions as there are distinct profiles
/// among its steps: `should_change_profile` is true at exactly that many
/// positions, so the operator switches sessions once per profile after the
/// first, the fewest a single pass over all pairs allows.
pub proof fn lemma_plan_session_count(tasks: Seq<Task>)
    ensures
        session_starts(plan_order(tasks), plan_order(tasks).len() as int) == profiles_in_order(
            all_pairs(tasks),
        ).len(),
{
    let s = all_pairs(tasks);
    let ps = profiles_in_order(s);
    lemma_profiles_distinct(s);
    assert forall|i: int| 0 <= i < ps.len() implies ps.contains(#[trigger] ps[i]) by {}
    lemma_concat_groups_starts(s, ps);
}


/// The distinct profiles of the steps of `order`.
pub open spec fn profile_ids(order: Seq<ExecutionStep>) -> Set<u128> {
    order.map_values(|x: ExecutionStep| x.profile_id).to_set()
}

/// The number of positions `1 <= i < n` of `order` whose profile differs from
/// that of the position before: the session switches.
pub open spec fn profile_changes(order: Seq<ExecutionStep>, n: int) -> nat
    decreases n,
{
    if n <= 1 {
        0
    } else {
        profile_changes(order, n - 1) + if order[n - 1].profile_id != order[n - 2].profile_id {
            1nat
        } else {
            0nat
        }
    }
}

proof fn lemma_starts_are_changes_plus_one(order: Seq<ExecutionStep>, n: int)
    requires
        1 <= n <= order.len(),
    ensures
        session_starts(order, n) == profile_changes(order, n) + 1,
    decreases n,
{
    if n > 1 {
        lemma_starts_are_changes_plus_one(order, n - 1);
    } else {
        assert(session_starts(order, 0) == 0);
    }
}

proof fn lemma_group_in_concat(s: Seq<ExecutionStep>, ps: Seq<u128>, p: u128)
    requires
        ps.contains(p),
    ensures
        forall|i: int| 0 <= i < steps_for(s, p).len() ==> concat_groups(s, ps).contains(
            #[trigger] steps_for(s, p)[i],
        ),
    decreases ps.len(),
{
    let init = ps.drop_last();
    let a = concat_groups(s, init);
    let g = steps_for(s, p);
    if ps.last() == p {
        assert forall|i: int| 0 <= i < g.len() implies concat_groups(s, ps).contains(#[trigger] g[i]) by {
            assert((a + g)[a.len() + i] == g[i]);
        }
    } else {
        let k = choose|k: int| 0 <= k < ps.len() && ps[k] == p;
        assert(init[k] == p);
        lemma_group_in_concat(s, init, p);
        assert forall|i: int| 0 <= i < g.len() implies concat_groups(s, ps).contains(#[trigger] g[i]) by {
            assert(a.contains(g[i]));
            let j = choose|j: int| 0 <= j < a.len() && a[j] == g[i];
            assert((a + steps_for(s, ps.last()))[j] == g[i]);
        }
    }
}

/// Each profile's steps form one run of the plan: the plan switches sessions
/// exactly once less often than it has distinct profiles, the fewest any order
/// visiting every pair can. Where the plan has steps, the switches number the
/// distinct profile ids of the built order minus one.
pub proof fn lemma_plan_switches_minimal(tasks: Seq<Task>)
    ensures
        profile_ids(plan_order(tasks)).finite(),
        session_starts(plan_order(tasks), plan_order(tasks).len() as int) == profile_ids(
            plan_order(tasks),
        ).len(),
        plan_order(tasks).len() > 0 ==> profile_changes(plan_order(tasks), plan_order(tasks).len() as int)
            == profile_ids(plan_order(tasks)).len() - 1,
{
    let s = all_pairs(tasks);
    let ps = profiles_in_order(s);
    let o = plan_order(tasks);
    let ids = o.map_values(|x: ExecutionStep| x.profile_id);
    lemma_plan_session_count(tasks);
    lemma_profiles_distinct(s);
    lemma_profiles_cover(s);
    lemma_concat_groups_from(s, ps);
    assert forall|p: u128| #[trigger] ids.to_set().contains(p) <==> ps.to_set().contains(p) by {
        if ids.to_set().contains(p) {
            let i = choose|i: int| 0 <= i < ids.len() && ids[i] == p;
            assert(s.contains(o[i]));
            let k = choose|k: int| 0 <= k < s.len() && s[k] == o[i];
            assert(ps.contains(s[k].profile_id));
        }
        if ps.to_set().contains(p) {
            assert(ps.contains(p));
            lemma_profile_has_steps(s, p);
            lemma_steps_for_profile(s, p);
            lemma_group_in_concat(s, ps, p);
            let x = steps_for(s, p)[0];
            assert(o.contains(x));
            let j = choose|j: int| 0 <= j < o.len() && o[j] == x;
            assert(ids[j] == p);
        }
    }
    assert(ids.to_set() =~= ps.to_set());
    ps.unique_seq_to_set();
    vstd::seq_lib::seq_to_set_is_finite(ids);
    if o.len() > 0 {
        lemma_starts_are_changes_plus_one(o, o.len() as int);
    }
}

} // verus!
