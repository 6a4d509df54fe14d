//! The engine: validates the dependency graph of a set of tasks, orders the
//! tasks topologically and runs them so that each task receives the values
//! of its predecessors.
//!
//! Tasks run one after another in the execution sequence. Since that
//! sequence is a topological order, the output of every predecessor is final
//! before its successor reads it. On a failure the engine stops scheduling
//! tasks that wait on others (fail-fast), or, in keep-going mode, skips only
//! the tasks that wait on a task that did not succeed.
use vstd::prelude::*;
use crate::content::{Content, EnvVar, Input, Output, Storable, produced, handed_on};
use crate::graph::Graph;
use crate::task::{Complex, DefaultTask, ExecState};

verus! {

/// No two of `tasks` share an id.
pub open spec fn distinct_ids<A: Complex>(tasks: Seq<DefaultTask<A>>) -> bool {
    forall|i: int, j: int| 0 <= i < tasks.len() && 0 <= j < tasks.len() && i != j ==> ids_of(tasks)[i] != ids_of(tasks)[j]
}

pub open spec fn ids_of<A: Complex>(tasks: Seq<DefaultTask<A>>) -> Seq<usize> {
    tasks.map_values(|t: DefaultTask<A>| t.id_spec())
}

/// The tasks of `ts` keyed by id: a task whose id an earlier task already
/// has takes that task's place; other tasks are appended in order.
pub open spec fn keyed<A: Complex>(ts: Seq<DefaultTask<A>>) -> Seq<DefaultTask<A>>
    decreases ts.len(),
{
    if ts.len() == 0 {
        Seq::empty()
    } else {
        let acc = keyed(ts.drop_last());
        let t = ts.last();
        if ids_of(acc).contains(t.id_spec()) {
            acc.update(ids_of(acc).index_of(t.id_spec()), t)
        } else {
            acc.push(t)
        }
    }
}

proof fn lemma_ids_of_push<A: Complex>(ts: Seq<DefaultTask<A>>)
    requires
        ts.len() > 0,
    ensures
        forall|id: usize| ids_of(ts).contains(id) <==> (ids_of(ts.drop_last()).contains(id) || id == ts.last().id_spec()),
{
    let pre = ts.drop_last();
    let n = ts.len() - 1;
    assert forall|id: usize| ids_of(ts).contains(id) <==> (ids_of(pre).contains(id) || id == ts.last().id_spec()) by {
        if ids_of(ts).contains(id) {
            let j = choose|j: int| 0 <= j < ts.len() && ids_of(ts)[j] == id;
            if j < n {
                assert(ids_of(pre)[j] == id);
            }
        }
        if ids_of(pre).contains(id) {
            let j = choose|j: int| 0 <= j < pre.len() && ids_of(pre)[j] == id;
            assert(ids_of(ts)[j] == id);
        }
        if id == ts.last().id_spec() {
            assert(ids_of(ts)[n] == id);
        }
    }
}

/// Keying by id leaves distinct ids, the same set of ids as the input, and
/// the input itself when its ids are already distinct.
pub proof fn lemma_keyed_ids<A: Complex>(ts: Seq<DefaultTask<A>>)
    ensures
        distinct_ids(keyed(ts)),
        keyed(ts).len() <= ts.len(),
        forall|id: usize| ids_of(keyed(ts)).contains(id) <==> ids_of(ts).contains(id),
        distinct_ids(ts) ==> keyed(ts) == ts,
    decreases ts.len(),
{
    if ts.len() > 0 {
        let pre = ts.drop_last();
        lemma_keyed_ids(pre);
        lemma_ids_of_push(ts);
        let acc = keyed(pre);
        let t = ts.last();
        let n = ts.len() - 1;
        let k = keyed(ts);
        if ids_of(acc).contains(t.id_spec()) {
            let p = ids_of(acc).index_of(t.id_spec());
            assert(k == acc.update(p, t));
            assert(ids_of(k) =~= ids_of(acc));
            assert forall|id: usize| ids_of(k).contains(id) <==> ids_of(ts).contains(id) by {}
            if distinct_ids(ts) {
                assert(ids_of(pre).contains(t.id_spec()));
                let q = choose|q: int| 0 <= q < pre.len() && ids_of(pre)[q] == t.id_spec();
                assert(ids_of(ts)[q] == ids_of(ts)[n]);
            }
        } else {
            assert(k == acc.push(t));
            assert(ids_of(k) =~= ids_of(acc).push(t.id_spec()));
            assert forall|id: usize| ids_of(k).contains(id) <==> ids_of(ts).contains(id) by {
                let ik = ids_of(k);
                if ik.contains(id) && id != t.id_spec() {
                    let j = choose|j: int| 0 <= j < ik.len() && ik[j] == id;
                    assert(ids_of(acc)[j] == id);
                }
                if ids_of(acc).contains(id) {
                    let j = choose|j: int| 0 <= j < ids_of(acc).len() && ids_of(acc)[j] == id;
                    assert(ik[j] == id);
                }
                if id == t.id_spec() {
                    assert(ik[acc.len() as int] == id);
                }
            }
            if distinct_ids(ts) {
                assert(distinct_ids(pre)) by {
                    assert forall|a: int, b: int| 0 <= a < pre.len() && 0 <= b < pre.len() && a != b implies ids_of(pre)[a] != ids_of(pre)[b] by {
                        assert(ids_of(ts)[a] != ids_of(ts)[b]);
                    }
                }
                assert(ts =~= pre.push(t));
            }
        }
        assert(distinct_ids(k)) by {
            assert forall|a: int, b: int| 0 <= a < k.len() && 0 <= b < k.len() && a != b implies ids_of(k)[a] != ids_of(k)[b] by {
                if k.len() == acc.len() {
                    assert(ids_of(acc)[a] != ids_of(acc)[b]);
                } else if a < acc.len() && b < acc.len() {
                    assert(ids_of(acc)[a] != ids_of(acc)[b]);
                } else if a < acc.len() {
                    assert(ids_of(acc).contains(ids_of(acc)[a]));
                } else {
                    assert(ids_of(acc).contains(ids_of(acc)[b]));
                }
            }
        }
    }
}

/// Each task kept by keying is the last input task with its id.
pub proof fn lemma_keyed_last<A: Complex>(ts: Seq<DefaultTask<A>>)
    ensures
        forall|i: int| #![trigger keyed(ts)[i]] 0 <= i < keyed(ts).len() ==> exists|j: int|
            0 <= j < ts.len() && #[trigger] ts[j] == keyed(ts)[i]
            && forall|l: int| j < l < ts.len() ==> ts[l].id_spec() != ts[j].id_spec(),
    decreases ts.len(),
{
    if ts.len() > 0 {
        let pre = ts.drop_last();
        lemma_keyed_last(pre);
        lemma_keyed_ids(pre);
        let acc = keyed(pre);
        let t = ts.last();
        let n = ts.len() - 1;
        let k = keyed(ts);
        assert(ts[n] == t);
        let found = ids_of(acc).contains(t.id_spec());
        let p = ids_of(acc).index_of(t.id_spec());
        if found {
            assert(k == acc.update(p, t));
        } else {
            assert(k == acc.push(t));
        }
        assert forall|i: int| #![trigger k[i]] 0 <= i < k.len() implies exists|j: int|
            0 <= j < ts.len() && #[trigger] ts[j] == k[i]
            && forall|l: int| j < l < ts.len() ==> ts[l].id_spec() != ts[j].id_spec() by {
            if (found && i == p) || (!found && i == acc.len()) {
                assert(ts[n] == k[i]);
            } else {
                assert(k[i] == acc[i]);
                let j = choose|j: int|
                    0 <= j < pre.len() && #[trigger] pre[j] == acc[i]
                    && forall|l: int| j < l < pre.len() ==> pre[l].id_spec() != pre[j].id_spec();
                assert(ts[j] == k[i]);
                assert(ids_of(acc)[i] == acc[i].id_spec());
                assert forall|l: int| j < l < ts.len() implies ts[l].id_spec() != ts[j].id_spec() by {
                    if l < n {
                        assert(pre[l] == ts[l]);
                    } else if found {
                        assert(ids_of(acc)[i] != ids_of(acc)[p]);
                    } else {
                        assert(ids_of(acc).contains(acc[i].id_spec()));
                    }
                }
            }
        }
    }
}

/// Task `v` of `tasks` lists task `u` among its predecessors.
pub open spec fn depends_in<A: Complex>(tasks: Seq<DefaultTask<A>>, u: int, v: int) -> bool {
    0 <= u < tasks.len() && 0 <= v < tasks.len() && tasks[v].preds().contains(ids_of(tasks)[u])
}

/// `o` lists every position of `tasks` once, each after its predecessors.
pub open spec fn is_order_of<A: Complex>(tasks: Seq<DefaultTask<A>>, o: Seq<usize>) -> bool {
    &&& o.no_duplicates()
    &&& forall|i: int| 0 <= i < o.len() ==> o[i] < tasks.len()
    &&& forall|v: usize| v < tasks.len() ==> o.contains(v)
    &&& forall|i: int, j: int|
        0 <= i < o.len() && 0 <= j < o.len() && #[trigger] depends_in(tasks, o[j] as int, o[i] as int) ==> j < i
}

/// Task `w` of `tasks` is not in `prefix` and all its predecessors are.
pub open spec fn ready_in_tasks<A: Complex>(tasks: Seq<DefaultTask<A>>, prefix: Seq<usize>, w: int) -> bool {
    &&& 0 <= w < tasks.len()
    &&& !prefix.contains(w as usize)
    &&& forall|u: int| 0 <= u < tasks.len() && #[trigger] depends_in(tasks, u, w) ==> prefix.contains(u as usize)
}

/// Each entry of `o` is the lowest-numbered task of `tasks` ready after the
/// entries before it.
pub open spec fn picks_lowest_in<A: Complex>(tasks: Seq<DefaultTask<A>>, o: Seq<usize>) -> bool {
    forall|k: int| 0 <= k < o.len() ==> {
        &&& ready_in_tasks(tasks, #[trigger] o.subrange(0, k), o[k] as int)
        &&& forall|w: int| 0 <= w < o[k] ==> !ready_in_tasks(tasks, o.subrange(0, k), w)
    }
}

/// Task `i` of `tasks` names, at position `k` of its predecessor list, an
/// id that no task has.
pub open spec fn unknown_in<A: Complex>(tasks: Seq<DefaultTask<A>>, i: int, k: int) -> bool {
    0 <= i < tasks.len() && 0 <= k < tasks[i].preds().len() && !ids_of(tasks).contains(tasks[i].preds()[k])
}

/// Errors found before any task runs.
#[derive(Debug)]
pub enum DagError {
    /// A task names a predecessor that is not in the task set; holds the
    /// task's name.
    RelyTaskIllegal(String),
    /// The dependency graph has a cycle.
    LoopGraph,
    /// No task was given.
    EmptyJob,
    /// A parser could not produce the tasks; holds its message.
    ParseError(String),
}

/// A source of tasks, such as a configuration file format.
pub trait Parser<A> {
    /// Reading `file` may give `out`. A parser that states nothing of its
    /// results keeps this default.
    open spec fn parses(&self, file: Seq<char>, out: Result<Vec<DefaultTask<A>>, String>) -> bool {
        true
    }

    fn parse_tasks(&self, file: &str) -> (r: Result<Vec<DefaultTask<A>>, String>)
        ensures
            self.parses(file@, r),
    ;
}

/// The engine: the tasks, their dependency graph and execution states, the
/// shared environment and the execution sequence.
pub struct Dag<A> {
    tasks: Vec<DefaultTask<A>>,
    rely_graph: Graph,
    execute_states: Vec<ExecState>,
    env: EnvVar,
    /// False once a run has ended or a task has failed.
    can_continue: bool,
    keep_going: bool,
    /// Positions in `tasks`, in execution order.
    exe_sequence: Vec<usize>,
}

impl<A: Complex> Dag<A> {
    pub closed spec fn task_list(&self) -> Seq<DefaultTask<A>> {
        self.tasks@
    }

    pub open spec fn count(&self) -> nat {
        self.task_list().len()
    }

    pub open spec fn ids(&self) -> Seq<usize> {
        ids_of(self.task_list())
    }

    pub open spec fn preds(&self, i: int) -> Seq<usize> {
        self.task_list()[i].preds()
    }

    /// Task `v` lists task `u` among its predecessors.
    pub open spec fn depends(&self, u: int, v: int) -> bool {
        depends_in(self.task_list(), u, v)
    }

    /// `o` lists every task position once, each after its predecessors.
    pub open spec fn is_exec_order(&self, o: Seq<usize>) -> bool {
        is_order_of(self.task_list(), o)
    }

    /// Task `w` is not in `prefix` and all its predecessors are.
    pub open spec fn ready_in(&self, prefix: Seq<usize>, w: int) -> bool {
        ready_in_tasks(self.task_list(), prefix, w)
    }

    /// Each entry of `o` is the lowest-numbered task ready after the entries
    /// before it.
    pub open spec fn picks_lowest(&self, o: Seq<usize>) -> bool {
        picks_lowest_in(self.task_list(), o)
    }

    pub open spec fn has_cycle(&self) -> bool {
        !exists|o: Seq<usize>| is_order_of(self.task_list(), o)
    }

    /// Task `i` names, at position `k` of its predecessor list, an id that
    /// no task has.
    pub open spec fn unknown_pred(&self, i: int, k: int) -> bool {
        unknown_in(self.task_list(), i, k)
    }

    pub open spec fn has_unknown_pred(&self) -> bool {
        exists|i: int, k: int| unknown_in(self.task_list(), i, k)
    }

    pub open spec fn ids_unique(&self) -> bool {
        distinct_ids(self.task_list())
    }

    pub closed spec fn sequence(&self) -> Seq<usize> {
        self.exe_sequence@
    }

    pub closed spec fn keeps_going(&self) -> bool {
        self.keep_going
    }

    pub closed spec fn can_start(&self) -> bool {
        self.can_continue
    }

    pub closed spec fn environment(&self) -> EnvVar {
        self.env
    }

    pub closed spec fn n_states(&self) -> nat {
        self.execute_states@.len()
    }

    /// Whether the action of task `i` was called.
    pub closed spec fn ran(&self, i: int) -> bool {
        self.execute_states@[i].ran
    }

    pub closed spec fn succeeded(&self, i: int) -> bool {
        self.execute_states@[i].success
    }

    pub closed spec fn output(&self, i: int) -> Output {
        self.execute_states@[i].output
    }

    /// The values handed to the action of task `i`.
    pub closed spec fn input(&self, i: int) -> Seq<Content> {
        self.execute_states@[i].input@
    }

    /// No task has run: every state is empty.
    pub open spec fn fresh_states(&self) -> bool {
        forall|i: int| 0 <= i < self.n_states() ==> {
            &&& !#[trigger] self.ran(i)
            &&& !self.succeeded(i)
            &&& self.output(i) == Output::Out(None)
            &&& self.input(i) == Seq::<Content>::empty()
        }
    }

    pub open spec fn failed(&self, i: int) -> bool {
        self.ran(i) && !self.succeeded(i)
    }

    /// Position of the task with id `id`.
    pub open spec fn index_of(&self, id: usize) -> int {
        choose|i: int| 0 <= i < self.count() && self.ids()[i] == id
    }

    pub open spec fn pred_index(&self, i: int, m: int) -> int {
        self.index_of(self.preds(i)[m])
    }

    /// The values that the first `m` predecessors of task `i` hand on.
    pub open spec fn gather(&self, i: int, m: int) -> Seq<Content>
        decreases m,
    {
        if m <= 0 {
            Seq::empty()
        } else {
            let prev = self.gather(i, m - 1);
            match handed_on(self.output(self.pred_index(i, m - 1))) {
                Some(c) => prev.push(c),
                None => prev,
            }
        }
    }

    pub open spec fn no_failure_before(&self, k: int) -> bool {
        forall|k2: int| 0 <= k2 < k ==> !self.failed(self.sequence()[k2] as int)
    }

    /// Whether the task at step `k` of the sequence gets to run: every
    /// predecessor succeeded and, in fail-fast mode, a task that waits on
    /// others runs only while no earlier step failed.
    pub open spec fn may_run(&self, k: int) -> bool {
        let i = self.sequence()[k] as int;
        &&& (self.preds(i).len() == 0 || self.keeps_going() || self.no_failure_before(k))
        &&& forall|m: int| 0 <= m < self.preds(i).len() ==> self.succeeded(#[trigger] self.pred_index(i, m))
    }

    /// What holds of the task at step `k` after it was scheduled.
    pub open spec fn scheduled_at(&self, k: int) -> bool {
        let i = self.sequence()[k] as int;
        &&& self.ran(i) == self.may_run(k)
        &&& !self.ran(i) ==> self.output(i) == Output::Out(None) && !self.succeeded(i)
        &&& self.ran(i) ==> self.succeeded(i) == produced(self.output(i)) && self.input(i) == self.gather(
            i,
            self.preds(i).len() as int,
        )
        &&& self.ran(i) ==> self.task_list()[i].action_spec().yields(self.input(i), self.environment(), self.output(i))
    }

    /// Every task of the sequence was scheduled as `scheduled_at` says.
    pub open spec fn ran_as_scheduled(&self) -> bool {
        &&& self.n_states() == self.count()
        &&& self.count() <= usize::MAX
        &&& forall|k: int| 0 <= k < self.sequence().len() ==> #[trigger] self.scheduled_at(k)
    }

    pub closed spec fn wf(&self) -> bool {
        &&& self.ids_unique()
        &&& self.env.wf()
        &&& self.rely_graph.wf()
        &&& (self.execute_states@.len() == 0 || self.execute_states@.len() == self.count())
        &&& forall|k: int| 0 <= k < self.exe_sequence@.len() ==> self.exe_sequence@[k] < self.execute_states@.len()
    }

    /// Graph, states and sequence have been set up for the tasks.
    pub closed spec fn initialized(&self) -> bool {
        &&& self.wf()
        &&& self.execute_states@.len() == self.count()
        &&& self.count() <= usize::MAX
        &&& self.rely_graph.node_ids() == self.ids()
        &&& forall|u: int, v: int| #[trigger] self.rely_graph.edge(u, v) == self.depends(u, v)
        &&& !self.has_unknown_pred()
        &&& self.is_exec_order(self.sequence())
    }

    /// A job that has not been started: no states, an empty sequence, an
    /// empty environment, fail-fast mode, and its run still ahead.
    pub open spec fn fresh_job(&self) -> bool {
        &&& self.wf()
        &&& self.can_start()
        &&& !self.keeps_going()
        &&& self.n_states() == 0
        &&& self.sequence().len() == 0
        &&& forall|k: Seq<char>| self.environment().lookup(k) is None
    }

    /// Both have the same states, one for one.
    pub open spec fn same_states(&self, other: &Dag<A>) -> bool {
        &&& self.n_states() == other.n_states()
        &&& forall|i: int| 0 <= i < self.n_states() ==> {
            &&& self.ran(i) == other.ran(i)
            &&& self.succeeded(i) == other.succeeded(i)
            &&& self.output(i) == other.output(i)
            &&& self.input(i) == other.input(i)
        }
    }

    pub open spec fn same_job(&self, other: &Dag<A>) -> bool {
        &&& self.task_list() == other.task_list()
        &&& self.keeps_going() == other.keeps_going()
        &&& self.environment() == other.environment()
    }

    fn new() -> (d: Dag<A>)
        ensures
            d.wf(),
            d.count() == 0,
            d.can_start(),
            !d.keeps_going(),
            d.n_states() == 0,
            d.sequence().len() == 0,
            forall|k: Seq<char>| d.environment().lookup(k) is None,
    {
        Dag {
            tasks: Vec::new(),
            rely_graph: Graph::new(),
            execute_states: Vec::new(),
            env: EnvVar::new(),
            can_continue: true,
            keep_going: false,
            exe_sequence: Vec::new(),
        }
    }
    fn position_of_id(&self, id: usize) -> (r: Option<usize>)
        ensures
            match r {
                Some(i) => i < self.count() && self.ids()[i as int] == id,
                None => !self.ids().contains(id),
            },
    {
        let mut i: usize = 0;
        while i < self.tasks.len()
            invariant
                i <= self.count(),
                forall|j: int| 0 <= j < i ==> self.ids()[j] != id,
            decreases self.count() - i,
        {
            if self.tasks[i].id() == id {
                return Some(i);
            }
            i = i + 1;
        }
        None
    }

    /// A job made of `tasks`, keyed by id: a task whose id an earlier task
    /// already has takes that task's place, so the last task given with each
    /// id is kept, where that id first appeared.
    pub fn with_tasks(tasks: Vec<DefaultTask<A>>) -> (d: Dag<A>)
        ensures
            d.fresh_job(),
            d.task_list() == keyed(tasks@),
            distinct_ids(d.task_list()),
            d.count() <= tasks@.len(),
            forall|id: usize| d.ids().contains(id) <==> ids_of(tasks@).contains(id),
            forall|i: int| #![trigger d.task_list()[i]] 0 <= i < d.count() ==> exists|j: int|
                0 <= j < tasks@.len() && #[trigger] tasks@[j] == d.task_list()[i]
                && forall|l: int| j < l < tasks@.len() ==> tasks@[l].id_spec() != tasks@[j].id_spec(),
            distinct_ids(tasks@) ==> d.task_list() == tasks@,
    {
        let mut dag = Dag::new();
        let mut tasks = tasks;
        let ghost all = tasks@;
        let mut taken: Vec<DefaultTask<A>> = Vec::new();
        // reverse, so that popping yields the tasks in their given order
        while tasks.len() > 0
            invariant
                taken@.len() + tasks@.len() == all.len(),
                forall|j: int| 0 <= j < tasks@.len() ==> tasks@[j] == all[j],
                forall|j: int| 0 <= j < taken@.len() ==> taken@[j] == all[all.len() - 1 - j],
            decreases tasks@.len(),
        {
            let t = tasks.pop().unwrap();
            taken.push(t);
        }
        let ghost rev = taken@;
        let ghost env0 = dag.env;
        proof {
            assert(all.subrange(0, 0) =~= Seq::<DefaultTask<A>>::empty());
        }
        while taken.len() > 0
            invariant
                dag.wf(),
                dag.can_start(),
                !dag.keeps_going(),
                dag.n_states() == 0,
                dag.sequence().len() == 0,
                dag.env == env0,
                forall|k: Seq<char>| env0.lookup(k) is None,
                forall|j: int| 0 <= j < taken@.len() ==> taken@[j] == rev[j],
                taken@.len() <= rev.len(),
                rev.len() == all.len(),
                forall|j: int| 0 <= j < rev.len() ==> rev[j] == all[all.len() - 1 - j],
                dag.task_list() == keyed(all.subrange(0, all.len() - taken@.len())),
            decreases taken@.len(),
        {
            let ghost pre = taken@;
            let t = taken.pop().unwrap();
            let ghost done = (all.len() - taken@.len() - 1) as int;
            assert(t == pre[pre.len() - 1]);
            assert(pre[pre.len() - 1] == rev[pre.len() - 1]);
            assert(t == all[done]);
            let ghost before = dag.task_list();
            let ghost prefix = all.subrange(0, done + 1);
            proof {
                assert(prefix.drop_last() =~= all.subrange(0, done));
                assert(prefix.last() == t);
            }
            match dag.position_of_id(t.id()) {
                Some(i) => {
                    proof {
                        let q = ids_of(before).index_of(t.id_spec());
                        assert(ids_of(before)[i as int] == t.id_spec());
                        assert(ids_of(before).contains(t.id_spec()));
                        assert(ids_of(before)[q] == t.id_spec());
                        assert(q == i);
                    }
                    dag.tasks.set(i, t);
                },
                None => {
                    dag.tasks.push(t);
                },
            }
            proof {
                assert(dag.task_list() == keyed(prefix));
                lemma_keyed_ids(prefix);
                assert(dag.ids_unique());
            }
        }
        proof {
            assert(all.subrange(0, all.len() as int) =~= all);
            lemma_keyed_ids(all);
            lemma_keyed_last(all);
        }
        dag
    }

    /// Builds the dependency graph: one node per task, in task order, and an
    /// edge from each predecessor to the task that names it.
    fn create_graph(&mut self) -> (r: Result<(), DagError>)
        requires
            old(self).wf(),
        ensures
            final(self).wf(),
            final(self).task_list() == old(self).task_list(),
            final(self).execute_states == old(self).execute_states,
            final(self).exe_sequence == old(self).exe_sequence,
            final(self).can_continue == old(self).can_continue,
            final(self).keep_going == old(self).keep_going,
            final(self).env == old(self).env,
            r is Ok <==> !old(self).has_unknown_pred(),
            r matches Err(e) ==> (e matches DagError::RelyTaskIllegal(name) && exists|i: int, k: int|
                old(self).unknown_pred(i, k) && name@ == old(self).task_list()[i].name_spec()),
            r is Ok ==> {
                &&& final(self).rely_graph.node_ids() == final(self).ids()
                &&& forall|u: int, v: int| #[trigger] final(self).rely_graph.edge(u, v) == final(self).depends(u, v)
            },
    {
        let n = self.tasks.len();
        self.rely_graph = Graph::new();
        assert(self.ids() == old(self).ids());
        assert(self.rely_graph.node_ids() =~= self.ids().subrange(0, 0));
        let mut i: usize = 0;
        while i < n
            invariant
                self.wf(),
                n == self.count(),
                self.task_list() == old(self).task_list(),
                self.execute_states == old(self).execute_states,
                self.exe_sequence == old(self).exe_sequence,
                self.can_continue == old(self).can_continue,
                self.keep_going == old(self).keep_going,
                self.env == old(self).env,
                i <= n,
                self.rely_graph.node_ids() == self.ids().subrange(0, i as int),
                forall|u: int, v: int| !#[trigger] self.rely_graph.edge(u, v),
            decreases n - i,
        {
            let id = self.tasks[i].id();
            let added = self.rely_graph.add_node(id);
            proof {
                assert(self.ids()[i as int] == id);
                if !added {
                    let sub = self.ids().subrange(0, i as int);
                    assert(sub.contains(id));
                    let x = choose|x: int| 0 <= x < sub.len() && sub[x] == id;
                    assert(self.ids()[x] == id);
                    assert(false);
                }
                assert(self.rely_graph.node_ids() =~= self.ids().subrange(0, i + 1));
            }
            i = i + 1;
        }
        assert(self.rely_graph.node_ids() =~= self.ids());
        let mut v: usize = 0;
        while v < n
            invariant
                self.wf(),
                n == self.count(),
                self.task_list() == old(self).task_list(),
                self.execute_states == old(self).execute_states,
                self.exe_sequence == old(self).exe_sequence,
                self.can_continue == old(self).can_continue,
                self.keep_going == old(self).keep_going,
                self.env == old(self).env,
                v <= n,
                self.rely_graph.node_ids() == self.ids(),
                forall|a: int, k: int| 0 <= a < v ==> !old(self).unknown_pred(a, k),
                forall|a: int, b: int| #[trigger] self.rely_graph.edge(a, b) == (self.depends(a, b) && b < v),
            decreases n - v,
        {
            let np = self.tasks[v].predecessors().len();
            let mut m: usize = 0;
            while m < np
                invariant
                    self.wf(),
                    n == self.count(),
                    self.task_list() == old(self).task_list(),
                    self.execute_states == old(self).execute_states,
                    self.exe_sequence == old(self).exe_sequence,
                    self.can_continue == old(self).can_continue,
                    self.keep_going == old(self).keep_going,
                    self.env == old(self).env,
                    v < n,
                    np == self.preds(v as int).len(),
                    m <= np,
                    self.rely_graph.node_ids() == self.ids(),
                    forall|a: int, k: int| 0 <= a < v ==> !old(self).unknown_pred(a, k),
                    forall|k: int| 0 <= k < m ==> !old(self).unknown_pred(v as int, k),
                    forall|a: int, b: int| #[trigger] self.rely_graph.edge(a, b) == ((self.depends(a, b) && b < v) || (
                        b == v && 0 <= a < n && self.preds(v as int).subrange(0, m as int).contains(self.ids()[a]))),
                decreases np - m,
            {
                let p = self.tasks[v].predecessors()[m];
                match self.rely_graph.find_index_by_id(p) {
                    None => {
                        proof {
                            assert(self.unknown_pred(v as int, m as int));
                            assert(self.ids() == old(self).ids());
                            assert(old(self).unknown_pred(v as int, m as int));
                        }
                        return Err(DagError::RelyTaskIllegal(self.tasks[v].name()));
                    },
                    Some(u) => {
                        let ghost g0 = self.rely_graph;
                        self.rely_graph.add_edge(u, v);
                        proof {
                            let pre = self.preds(v as int);
                            assert(pre.subrange(0, m + 1) =~= pre.subrange(0, m as int).push(p));
                            assert forall|a: int, b: int| #[trigger] self.rely_graph.edge(a, b) == ((self.depends(a, b) && b < v) || (
                                b == v && 0 <= a < n && pre.subrange(0, m + 1).contains(self.ids()[a]))) by {
                                assert(g0.edge(a, b) == ((self.depends(a, b) && b < v) || (
                                    b == v && 0 <= a < n && pre.subrange(0, m as int).contains(self.ids()[a]))));
                                if b == v && 0 <= a < n {
                                    if self.ids()[a] == p {
                                        assert(a == u);
                                        assert(pre.subrange(0, m + 1)[m as int] == p);
                                    }
                                    if a == u {
                                        assert(self.ids()[a] == p);
                                    }
                                    let x = self.ids()[a];
                                    let s1 = pre.subrange(0, m + 1);
                                    let s0 = pre.subrange(0, m as int);
                                    if pre.subrange(0, m + 1).contains(x) && x != p {
                                        let y = choose|y: int| 0 <= y < s1.len() && #[trigger] s1[y] == x;
                                        assert(s0[y] == x);
                                    }
                                    if pre.subrange(0, m as int).contains(x) {
                                        let y = choose|y: int| 0 <= y < s0.len() && #[trigger] s0[y] == x;
                                        assert(s1[y] == x);
                                    }
                                }
                            }
                            assert(self.ids().contains(p));
                            assert(self.task_list() == old(self).task_list());
                            assert(!old(self).unknown_pred(v as int, m as int));
                        }
                    },
                }
                m = m + 1;
            }
            proof {
                assert(self.preds(v as int).subrange(0, np as int) =~= self.preds(v as int));
                assert forall|a: int, k: int| 0 <= a < v + 1 implies !old(self).unknown_pred(a, k) by {
                    if a == v && 0 <= k < np {
                        assert(!old(self).unknown_pred(v as int, k));
                    }
                }
            }
            v = v + 1;
        }
        proof {
            assert(self.ids() == old(self).ids());
            assert forall|a: int, k: int| !unknown_in(old(self).task_list(), a, k) by {
                if 0 <= a < n {
                    assert(!old(self).unknown_pred(a, k));
                }
            }
            assert(!old(self).has_unknown_pred());
        }
        Ok(())
    }

    /// Sets up the execution states, the dependency graph and the execution
    /// sequence.
    fn init(&mut self) -> (r: Result<(), DagError>)
        requires
            old(self).wf(),
        ensures
            final(self).wf(),
            final(self).same_job(old(self)),
            final(self).can_continue == old(self).can_continue,
            r is Ok <==> !old(self).has_unknown_pred() && !old(self).has_cycle() && old(self).count() > 0,
            r matches Err(DagError::RelyTaskIllegal(name)) <==> old(self).has_unknown_pred(),
            r matches Err(DagError::RelyTaskIllegal(name)) ==> exists|i: int, k: int|
                old(self).unknown_pred(i, k) && name@ == old(self).task_list()[i].name_spec(),
            r matches Err(DagError::LoopGraph) <==> !old(self).has_unknown_pred() && old(self).has_cycle(),
            r matches Err(DagError::EmptyJob) <==> old(self).count() == 0,
            !(r matches Err(DagError::ParseError(_))),
            r is Ok ==> final(self).initialized() && final(self).fresh_states(),
            r is Ok ==> final(self).picks_lowest(final(self).sequence()),
            r is Err ==> final(self).sequence() == old(self).sequence() && final(self).fresh_states(),
    {
        let n = self.tasks.len();
        let mut states: Vec<ExecState> = Vec::new();
        while states.len() < n
            invariant
                states@.len() <= n,
                forall|i: int| 0 <= i < states@.len() ==> (#[trigger] states@[i]).fresh(),
            decreases n - states@.len(),
        {
            states.push(ExecState::new());
        }
        self.execute_states = states;
        assert(self.ids() == old(self).ids());
        let ghost mid = *self;
        assert(mid.task_list() == old(self).task_list());
        match self.create_graph() {
            Err(e) => {
                proof {
                    assert(mid.has_unknown_pred());
                    if let DagError::RelyTaskIllegal(ref name) = e {
                        let (i, k) = choose|i: int, k: int|
                            mid.unknown_pred(i, k) && name@ == mid.task_list()[i].name_spec();
                        assert(old(self).unknown_pred(i, k));
                    }
                }
                return Err(e);
            },
            Ok(()) => {},
        }
        proof {
            assert(self.rely_graph.size() == self.count());
            assert forall|o: Seq<usize>| self.rely_graph.is_topo_order(o) == self.is_exec_order(o) by {
                assert((forall|i: int| 0 <= i < o.len() ==> o[i] < self.rely_graph.size()) == (forall|i: int| 0 <= i < o.len() ==> o[i] < self.count()));
                assert((forall|v: usize| v < self.rely_graph.size() ==> o.contains(v)) == (forall|v: usize| v < self.count() ==> o.contains(v)));
                if self.rely_graph.is_topo_order(o) {
                    assert(o.no_duplicates());
                    assert(forall|i: int| 0 <= i < o.len() ==> o[i] < self.count());
                    assert(forall|v: usize| v < self.count() ==> o.contains(v));
                    assert forall|i: int, j: int|
                        0 <= i < o.len() && 0 <= j < o.len() && #[trigger] depends_in(self.task_list(), o[j] as int, o[i] as int) implies j < i by {
                        assert(self.rely_graph.edge(o[j] as int, o[i] as int));
                    }
                    assert(self.is_exec_order(o));
                }
                if self.is_exec_order(o) {
                    assert forall|i: int, j: int|
                        0 <= i < o.len() && 0 <= j < o.len() && #[trigger] self.rely_graph.edge(o[j] as int, o[i] as int) implies j < i by {
                        assert(self.depends(o[j] as int, o[i] as int));
                    }
                    assert(self.rely_graph.is_topo_order(o));
                }
            }
        }
        match self.rely_graph.topo_sort() {
            None => {
                proof {
                    if self.count() == 0 {
                        assert(is_order_of(self.task_list(), Seq::<usize>::empty()));
                    }
                    if exists|o: Seq<usize>| is_order_of(self.task_list(), o) {
                        let o = choose|o: Seq<usize>| is_order_of(self.task_list(), o);
                        assert(self.is_exec_order(o));
                        assert(self.rely_graph.is_topo_order(o));
                    }
                    assert(self.task_list() == old(self).task_list());
                }
                Err(DagError::LoopGraph)
            },
            Some(seq) => {
                assert(self.is_exec_order(seq@));
                proof {
                    let g = self.rely_graph;
                    assert forall|k: int| 0 <= k < seq@.len() implies {
                        &&& ready_in_tasks(self.task_list(), #[trigger] seq@.subrange(0, k), seq@[k] as int)
                        &&& forall|w: int| 0 <= w < seq@[k] ==> !ready_in_tasks(self.task_list(), seq@.subrange(0, k), w)
                    } by {
                        let pre = seq@.subrange(0, k);
                        assert(g.lowest_ready(pre, seq@[k] as int));
                        let ts = self.task_list();
                        assert forall|w: int| #[trigger] ready_in_tasks(ts, pre, w) == g.ready_after(pre, w) by {
                            if ready_in_tasks(ts, pre, w) {
                                assert forall|u: int| 0 <= u < g.size() && #[trigger] g.edge(u, w) implies pre.contains(u as usize) by {
                                    assert(self.depends(u, w));
                                }
                            }
                            if g.ready_after(pre, w) {
                                assert forall|u: int| 0 <= u < self.count() && #[trigger] depends_in(self.task_list(), u, w) implies pre.contains(u as usize) by {
                                    assert(g.edge(u, w));
                                }
                            }
                        }
                        assert forall|w: int| 0 <= w < seq@[k] implies !ready_in_tasks(ts, pre, w) by {
                            assert(!g.ready_after(pre, w));
                        }
                        assert(ready_in_tasks(ts, pre, seq@[k] as int));
                    }
                }
                assert(self.task_list() == old(self).task_list());
                if seq.len() == 0 {
                    proof {
                        if n > 0 {
                            assert(seq@.contains(0usize));
                        }
                    }
                    return Err(DagError::EmptyJob);
                }
                proof {
                    if n == 0 {
                        assert(seq@[0] < n);
                    }
                }
                self.exe_sequence = seq;
                Ok(())
            },
        }
    }

    /// States agree everywhere but at position `x`.
    pub closed spec fn agree_except(&self, other: &Dag<A>, x: int) -> bool {
        &&& self.task_list() == other.task_list()
        &&& self.sequence() == other.sequence()
        &&& self.keeps_going() == other.keeps_going()
        &&& self.environment() == other.environment()
        &&& self.execute_states@.len() == other.execute_states@.len()
        &&& forall|y: int| 0 <= y < self.execute_states@.len() && y != x ==> self.execute_states@[y] == other.execute_states@[y]
    }

    proof fn lemma_gather_frame(&self, other: &Dag<A>, i: int, m: int, x: int)
        requires
            self.agree_except(other, x),
            0 <= i < self.count(),
            m <= self.preds(i).len(),
            forall|m2: int| 0 <= m2 < m ==> 0 <= #[trigger] self.pred_index(i, m2) < self.execute_states@.len() && self.pred_index(i, m2) != x,
        ensures
            self.gather(i, m) == other.gather(i, m),
        decreases m,
    {
        if m > 0 {
            self.lemma_gather_frame(other, i, m - 1, x);
            assert(self.pred_index(i, m - 1) == other.pred_index(i, m - 1));
        }
    }

    /// In an initialized job, each predecessor of the task at step `k` comes
    /// at an earlier step.
    proof fn lemma_pred_earlier(&self, k: int, m: int) -> (j: int)
        requires
            self.initialized(),
            0 <= k < self.sequence().len(),
            0 <= m < self.preds(self.sequence()[k] as int).len(),
        ensures
            0 <= j < k,
            self.sequence()[j] as int == self.pred_index(self.sequence()[k] as int, m),
            0 <= self.pred_index(self.sequence()[k] as int, m) < self.count(),
            self.ids()[self.pred_index(self.sequence()[k] as int, m)] == self.preds(self.sequence()[k] as int)[m],
    {
        let i = self.sequence()[k] as int;
        let id = self.preds(i)[m];
        if !self.ids().contains(id) {
            assert(unknown_in(self.task_list(), i, m));
        }
        let w = choose|w: int| 0 <= w < self.ids().len() && self.ids()[w] == id;
        let p = self.index_of(id);
        assert(0 <= p < self.count() && self.ids()[p] == id);
        assert(self.preds(i)[m] == id);
        assert(self.task_list()[i].preds().contains(ids_of(self.task_list())[p]));
        assert(depends_in(self.task_list(), p, i));
        assert(self.sequence().contains(p as usize));
        let j = choose|j: int| 0 <= j < self.sequence().len() && self.sequence()[j] == p as usize;
        assert(self.sequence()[j] as int == p);
        assert(depends_in(self.task_list(), self.sequence()[j] as int, self.sequence()[k] as int));
        j
    }

    proof fn lemma_may_run_frame(&self, other: &Dag<A>, k: int, x: int)
        requires
            self.initialized(),
            self.agree_except(other, x),
            0 <= k < self.sequence().len(),
            forall|k3: int| 0 <= k3 < k ==> self.sequence()[k3] as int != x,
        ensures
            self.may_run(k) == other.may_run(k),
            self.no_failure_before(k) == other.no_failure_before(k),
            self.gather(self.sequence()[k] as int, self.preds(self.sequence()[k] as int).len() as int)
                == other.gather(self.sequence()[k] as int, self.preds(self.sequence()[k] as int).len() as int),
    {
        let i = self.sequence()[k] as int;
        assert forall|m: int| 0 <= m < self.preds(i).len() implies 0 <= #[trigger] self.pred_index(i, m) < self.execute_states@.len()
            && self.pred_index(i, m) != x by {
            let j = self.lemma_pred_earlier(k, m);
        }
        self.lemma_gather_frame(other, i, self.preds(i).len() as int, x);
        assert forall|m: int| 0 <= m < self.preds(i).len() implies self.succeeded(#[trigger] self.pred_index(i, m)) == other.succeeded(
            other.pred_index(i, m)) by {
            assert(self.pred_index(i, m) == other.pred_index(i, m));
            let y = self.pred_index(i, m);
            assert(0 <= y < self.execute_states@.len() && y != x);
            assert(self.execute_states@[y] == other.execute_states@[y]);
        }
        assert forall|k2: int| 0 <= k2 < k implies self.failed(self.sequence()[k2] as int) == other.failed(other.sequence()[k2] as int) by {
            assert(self.sequence()[k2] < self.count());
        }
        assert(self.no_failure_before(k) == other.no_failure_before(k));
        assert(self.preds(i) == other.preds(i));
        if forall|m: int| 0 <= m < self.preds(i).len() ==> self.succeeded(#[trigger] self.pred_index(i, m)) {
            assert forall|m: int| 0 <= m < other.preds(i).len() implies other.succeeded(#[trigger] other.pred_index(i, m)) by {
                assert(self.succeeded(self.pred_index(i, m)));
            }
        }
        if forall|m: int| 0 <= m < other.preds(i).len() ==> other.succeeded(#[trigger] other.pred_index(i, m)) {
            assert forall|m: int| 0 <= m < self.preds(i).len() implies self.succeeded(#[trigger] self.pred_index(i, m)) by {
                assert(other.succeeded(other.pred_index(i, m)));
            }
        }
    }

    proof fn lemma_scheduled_frame(&self, other: &Dag<A>, k2: int, x: int)
        requires
            self.initialized(),
            self.agree_except(other, x),
            0 <= k2 < self.sequence().len(),
            forall|k3: int| 0 <= k3 <= k2 ==> self.sequence()[k3] as int != x,
            self.scheduled_at(k2),
        ensures
            other.scheduled_at(k2),
    {
        self.lemma_may_run_frame(other, k2, x);
        let i = self.sequence()[k2] as int;
        assert(i < self.count());
        assert(self.execute_states@[i] == other.execute_states@[i]);
    }

    /// Records that a task failed: no task that waits on others starts
    /// after this in fail-fast mode.
    fn handle_error(&mut self)
        ensures
            !final(self).can_continue,
            final(self).tasks == old(self).tasks,
            final(self).rely_graph == old(self).rely_graph,
            final(self).execute_states == old(self).execute_states,
            final(self).exe_sequence == old(self).exe_sequence,
            final(self).keep_going == old(self).keep_going,
            final(self).env == old(self).env,
    {
        self.can_continue = false;
    }

    /// Runs every task of the sequence in order and reports whether none
    /// failed.
    #[verifier::loop_isolation(false)]
    fn run(&mut self) -> (ok: bool)
        requires
            old(self).initialized(),
            old(self).fresh_states(),
            old(self).can_continue,
        ensures
            final(self).initialized(),
            final(self).same_job(old(self)),
            final(self).sequence() == old(self).sequence(),
            final(self).ran_as_scheduled(),
            ok == final(self).no_failure_before(final(self).sequence().len() as int),
    {
        let mut all_ok = true;
        let mut k: usize = 0;
        let len = self.exe_sequence.len();
        proof {
            assert forall|k2: int| 0 <= k2 < len implies (#[trigger] self.execute_states@[self.sequence()[k2] as int]).fresh() by {
                let x = self.sequence()[k2] as int;
                assert(x < self.count());
                assert(!self.ran(x));
            }
        }
        while k < len
            invariant
                self.initialized(),
                self.same_job(old(self)),
                self.sequence() == old(self).sequence(),
                len == self.sequence().len(),
                k <= len,
                forall|k2: int| k <= k2 < len ==> (#[trigger] self.execute_states@[self.sequence()[k2] as int]).fresh(),
                forall|k2: int| 0 <= k2 < k ==> #[trigger] self.scheduled_at(k2),
                self.can_continue == self.no_failure_before(k as int),
                all_ok == self.no_failure_before(k as int),
            decreases len - k,
        {
            let i = self.exe_sequence[k];
            assert(i < self.count());
            let np = self.tasks[i].predecessors().len();
            let mut inputs: Vec<Content> = Vec::new();
            let mut runnable = true;
            let mut m: usize = 0;
            while m < np && runnable
                invariant
                    m <= np,
                    np == self.preds(i as int).len(),
                    runnable ==> inputs@ == self.gather(i as int, m as int),
                    runnable ==> forall|m2: int| 0 <= m2 < m ==> self.succeeded(#[trigger] self.pred_index(i as int, m2)),
                    runnable && m > 0 ==> (self.can_continue || self.keep_going),
                    !runnable ==> !self.may_run(k as int),
                decreases np - m + if runnable { 1int } else { 0int },
            {
                if !self.can_continue && !self.keep_going {
                    runnable = false;
                } else {
                    let p = self.tasks[i].predecessors()[m];
                    let ghost j0 = self.lemma_pred_earlier(k as int, m as int);
                    match self.rely_graph.find_index_by_id(p) {
                        None => {
                            proof {
                                assert(self.ids()[self.pred_index(i as int, m as int)] == p);
                            }
                            runnable = false;
                        },
                        Some(j) => {
                            proof {
                                assert(self.ids()[j as int] == p);
                                assert(self.ids()[self.pred_index(i as int, m as int)] == p);
                                assert(j == self.pred_index(i as int, m as int));
                            }
                            if !self.execute_states[j].success() {
                                runnable = false;
                            } else {
                                match self.execute_states[j].get_output() {
                                    Some(c) => {
                                        inputs.push(c);
                                    },
                                    None => {},
                                }
                            }
                        },
                    }
                }
                m = m + 1;
            }
            let ghost before = *self;
            if runnable {
                let ghost inp = inputs@;
                let input = Input::new(inputs);
                let out = self.tasks[i].action().run(input, &self.env);
                let ok = !out.is_err();
                let mut st = ExecState::new();
                st.set_output(out);
                st.ran = true;
                st.input = Ghost(inp);
                self.execute_states.set(i, st);
                if !ok {
                    self.handle_error();
                    all_ok = false;
                }
            }
            proof {
                let x = i as int;
                assert(before.agree_except(self, x));
                assert forall|k2: int| 0 <= k2 < k + 1 implies #[trigger] self.scheduled_at(k2) by {
                    if k2 < k {
                        assert forall|k3: int| 0 <= k3 <= k2 implies self.sequence()[k3] as int != x by {
                            assert(self.sequence()[k3] != self.sequence()[k as int]);
                        }
                        before.lemma_scheduled_frame(self, k2, x);
                    } else {
                        assert forall|k3: int| 0 <= k3 < k implies self.sequence()[k3] as int != x by {
                            assert(self.sequence()[k3] != self.sequence()[k as int]);
                        }
                        before.lemma_may_run_frame(self, k as int, x);
                    }
                }
                assert forall|k2: int| k + 1 <= k2 < len implies (#[trigger] self.execute_states@[self.sequence()[k2] as int]).fresh() by {
                    assert(self.sequence()[k2] != self.sequence()[k as int]);
                    assert(self.sequence()[k2] < self.count());
                }
                assert forall|k3: int| 0 <= k3 < k implies self.sequence()[k3] as int != x by {
                    assert(self.sequence()[k3] != self.sequence()[k as int]);
                }
                before.lemma_may_run_frame(self, k as int, x);
            }
            k = k + 1;
        }
        all_ok
    }

    /// Runs the job once. Validation errors come back as `Err`; otherwise
    /// the result says whether no task failed. A job that has run (or whose
    /// run was cut short by a failure) does not run again and returns
    /// `Ok(false)`.
    pub fn start(&mut self) -> (r: Result<bool, DagError>)
        requires
            old(self).wf(),
        ensures
            final(self).wf(),
            final(self).same_job(old(self)),
            !old(self).can_start() ==> (r matches Ok(false)) && *final(self) == *old(self),
            old(self).can_start() ==> {
                &&& (r matches Err(DagError::RelyTaskIllegal(_))) <==> old(self).has_unknown_pred()
                &&& (r matches Err(DagError::LoopGraph)) <==> !old(self).has_unknown_pred() && old(self).has_cycle()
                &&& (r matches Err(DagError::EmptyJob)) <==> old(self).count() == 0
                &&& !(r matches Err(DagError::ParseError(_)))
            },
            r matches Err(DagError::RelyTaskIllegal(name)) ==> exists|i: int, k: int|
                old(self).unknown_pred(i, k) && name@ == old(self).task_list()[i].name_spec(),
            r is Err ==> final(self).sequence() == old(self).sequence() && final(self).can_start() && final(self).fresh_states(),
            old(self).can_start() && r is Ok ==> {
                &&& !final(self).can_start()
                &&& !final(self).has_unknown_pred()
                &&& final(self).is_exec_order(final(self).sequence())
                &&& final(self).picks_lowest(final(self).sequence())
                &&& final(self).ran_as_scheduled()
                &&& r == Ok::<bool, DagError>(final(self).no_failure_before(final(self).sequence().len() as int))
            },
    {
        if !self.can_continue {
            return Ok(false);
        }
        match self.init() {
            Err(e) => Err(e),
            Ok(()) => {
                let ok = self.run();
                let ghost after = *self;
                self.can_continue = false;
                proof {
                    assert(self.sequence() == after.sequence());
                    assert forall|k: int| 0 <= k < self.sequence().len() implies #[trigger] self.scheduled_at(k) by {
                        assert(after.scheduled_at(k));
                        assert(after.agree_except(self, -1));
                        assert forall|k3: int| 0 <= k3 <= k implies self.sequence()[k3] as int != -1 by {}
                        after.lemma_scheduled_frame(self, k, -1);
                    }
                    assert(self.no_failure_before(self.sequence().len() as int) == after.no_failure_before(
                        after.sequence().len() as int)) by {
                        assert forall|k2: int| 0 <= k2 < self.sequence().len() implies self.failed(self.sequence()[k2] as int)
                            == after.failed(after.sequence()[k2] as int) by {}
                    }
                    assert(self.initialized());
                    assert(self.task_list() == after.task_list());
                }
                Ok(ok)
            },
        }
    }

    /// The value of the last task of the sequence, when it produced one of
    /// type `T`.
    pub fn get_result<T: Storable>(&self) -> (r: Option<T>)
        requires
            self.wf(),
        ensures
            self.sequence().len() == 0 ==> r is None,
            self.sequence().len() > 0 ==> match handed_on(self.output(self.sequence().last() as int)) {
                None => r is None,
                Some(c) => (r is Some <==> T::fits(c.value())) && (r matches Some(x) ==> x.stored() == c.value()),
            },
    {
        let n = self.exe_sequence.len();
        if n == 0 {
            return None;
        }
        let last = self.exe_sequence[n - 1];
        match self.execute_states[last].get_output() {
            Some(c) => T::take(c.value_owned()),
            None => None,
        }
    }

    /// For each task, in task order, its id and its value when it produced
    /// one of type `T`.
    pub fn get_results<T: Storable>(&self) -> (r: Vec<(usize, Option<T>)>)
        requires
            self.wf(),
        ensures
            r@.len() == self.count(),
            forall|i: int| 0 <= i < self.count() ==> (#[trigger] r@[i]).0 == self.ids()[i],
            forall|i: int| 0 <= i < self.count() && self.n_states() == 0 ==> (#[trigger] r@[i]).1 is None,
            forall|i: int| 0 <= i < self.count() && self.n_states() > 0 ==> match handed_on(self.output(i)) {
                None => (#[trigger] r@[i]).1 is None,
                Some(c) => (r@[i].1 is Some <==> T::fits(c.value())) && (r@[i].1 matches Some(x) ==> x.stored() == c.value()),
            },
    {
        let mut out: Vec<(usize, Option<T>)> = Vec::new();
        let mut i: usize = 0;
        while i < self.tasks.len()
            invariant
                self.wf(),
                i <= self.count(),
                out@.len() == i,
                forall|j: int| 0 <= j < i ==> (#[trigger] out@[j]).0 == self.ids()[j],
                forall|j: int| 0 <= j < i && self.n_states() == 0 ==> (#[trigger] out@[j]).1 is None,
                forall|j: int| 0 <= j < i && self.n_states() > 0 ==> match handed_on(self.output(j)) {
                    None => (#[trigger] out@[j]).1 is None,
                    Some(c) => (out@[j].1 is Some <==> T::fits(c.value())) && (out@[j].1 matches Some(x) ==> x.stored() == c.value()),
                },
            decreases self.count() - i,
        {
            let v = if i < self.execute_states.len() {
                match self.execute_states[i].get_output() {
                    Some(c) => T::take(c.value_owned()),
                    None => None,
                }
            } else {
                None
            };
            out.push((self.tasks[i].id(), v));
            i = i + 1;
        }
        out
    }

    /// Sets the environment that every action receives.
    pub fn set_env(&mut self, env: EnvVar)
        requires
            env.wf(),
        ensures
            final(self).environment() == env,
            final(self).task_list() == old(self).task_list(),
            final(self).keeps_going() == old(self).keeps_going(),
            final(self).can_start() == old(self).can_start(),
            final(self).sequence() == old(self).sequence(),
            final(self).same_states(old(self)),
            old(self).wf() ==> final(self).wf(),
    {
        self.env = env;
    }

    /// Switches to keep-going mode: a failure no longer stops tasks that do
    /// not depend on the failed task.
    pub fn keep_going(self) -> (d: Dag<A>)
        ensures
            d.keeps_going(),
            d.task_list() == self.task_list(),
            d.environment() == self.environment(),
            d.can_start() == self.can_start(),
            d.sequence() == self.sequence(),
            d.same_states(&self),
            self.wf() ==> d.wf(),
    {
        let mut d = self;
        d.keep_going = true;
        d
    }

    /// A job made of the tasks that `parser` reads from `file`.
    pub fn with_config_file_and_parser<P: Parser<A>>(file: &str, parser: &P) -> (r: Result<Dag<A>, DagError>)
        ensures
            exists|out: Result<Vec<DefaultTask<A>>, String>| {
                &&& parser.parses(file@, out)
                &&& (r is Ok <==> out is Ok)
                &&& out matches Ok(tasks) ==> (r matches Ok(d) && d.fresh_job() && d.task_list() == keyed(tasks@))
                &&& out matches Err(m) ==> (r matches Err(DagError::ParseError(e)) && e@ == m@)
            },
    {
        match parser.parse_tasks(file) {
            Ok(tasks) => {
                let ghost out = Ok::<Vec<DefaultTask<A>>, String>(tasks);
                let d = Dag::with_tasks(tasks);
                assert(parser.parses(file@, out));
                Ok(d)
            },
            Err(msg) => {
                let ghost out = Err::<Vec<DefaultTask<A>>, String>(msg);
                assert(parser.parses(file@, out));
                Err(DagError::ParseError(msg))
            },
        }
    }

    /// Consecutive entries of `p` are joined by dependencies.
    pub open spec fn is_path(&self, p: Seq<int>) -> bool {
        &&& p.len() >= 1
        &&& 0 <= p[0] < self.count()
        &&& forall|q: int| 0 <= q < p.len() - 1 ==> #[trigger] self.depends(p[q], p[q + 1])
    }

    /// Step of the sequence at which task `t` runs.
    pub open spec fn step_of(&self, t: int) -> int {
        choose|k: int| 0 <= k < self.sequence().len() && self.sequence()[k] as int == t
    }

    proof fn lemma_step_of(&self, t: int)
        requires
            self.is_exec_order(self.sequence()),
            self.ran_as_scheduled(),
            0 <= t < self.count(),
        ensures
            0 <= self.step_of(t) < self.sequence().len(),
            self.sequence()[self.step_of(t)] as int == t,
    {
        assert(self.sequence().contains(t as usize));
    }

    /// Along a path, steps of the sequence increase.
    pub proof fn lemma_path_runs_later(&self, p: Seq<int>)
        requires
            self.is_exec_order(self.sequence()),
            self.ran_as_scheduled(),
            self.is_path(p),
        ensures
            self.step_of(p[0]) <= self.step_of(p.last()),
            p.len() >= 2 ==> self.step_of(p[0]) < self.step_of(p.last()),
            0 <= p.last() < self.count(),
        decreases p.len(),
    {
        self.lemma_step_of(p[0]);
        if p.len() >= 2 {
            let q = p.drop_last();
            assert forall|z: int| 0 <= z < q.len() - 1 implies #[trigger] self.depends(q[z], q[z + 1]) by {
                assert(self.depends(p[z], p[z + 1]));
            }
            self.lemma_path_runs_later(q);
            let a = q.last();
            let b = p.last();
            let z = p.len() - 2;
            assert(self.depends(p[z], p[z + 1]));
            self.lemma_step_of(a);
            self.lemma_step_of(b);
            let ka = self.step_of(a);
            let kb = self.step_of(b);
            assert(depends_in(self.task_list(), self.sequence()[ka] as int, self.sequence()[kb] as int));
        }
    }

    /// A predecessor runs at an earlier step than its successor, so every
    /// value a task receives was final when it was read.
    pub proof fn lemma_preds_run_first(&self, u: int, v: int)
        requires
            self.is_exec_order(self.sequence()),
            self.ran_as_scheduled(),
            self.depends(u, v),
        ensures
            self.step_of(u) < self.step_of(v),
    {
        let p = seq![u, v];
        assert(self.depends(p[0], p[1]));
        self.lemma_path_runs_later(p);
    }

    /// In fail-fast mode, no task reachable from a task whose action returned
    /// an error hands on a value: each was cancelled before its action ran.
    pub proof fn lemma_fail_fast_cancels_descendants(&self, p: Seq<int>)
        requires
            !self.keeps_going(),
            self.is_exec_order(self.sequence()),
            self.ran_as_scheduled(),
            self.is_path(p),
            p.len() >= 2,
            self.ran(p[0]),
            !produced(self.output(p[0])),
        ensures
            !self.ran(p.last()),
            self.output(p.last()) == Output::Out(None),
    {
        self.lemma_step_of(p[0]);
        assert(self.scheduled_at(self.step_of(p[0])));
        self.lemma_path_runs_later(p);
        let t = p.last();
        self.lemma_step_of(t);
        self.lemma_step_of(p[0]);
        let k = self.step_of(t);
        assert(self.scheduled_at(k));
        let z = p.len() - 2;
        assert(self.depends(p[z], p[z + 1]));
        assert(self.preds(t).len() > 0);
        assert(!self.no_failure_before(k));
    }

    /// In keep-going mode, every task that no task with an error output
    /// reaches runs its action, stores what the action returned, and
    /// succeeds exactly when that output is a value.
    pub proof fn lemma_keep_going_runs_unaffected(&self, t: int)
        requires
            self.keeps_going(),
            !self.has_unknown_pred(),
            self.is_exec_order(self.sequence()),
            self.ran_as_scheduled(),
            0 <= t < self.count(),
            forall|p: Seq<int>| #[trigger] self.is_path(p) && p.last() == t ==> !(self.ran(p[0]) && !produced(
                self.output(p[0]))),
        ensures
            self.ran(t),
            self.succeeded(t) == produced(self.output(t)),
            self.task_list()[t].action_spec().yields(self.input(t), self.environment(), self.output(t)),
        decreases self.step_of(t),
    {
        self.lemma_step_of(t);
        let k = self.step_of(t);
        assert(self.scheduled_at(k));
        assert forall|m: int| 0 <= m < self.preds(t).len() implies self.succeeded(#[trigger] self.pred_index(t, m)) by {
            let id = self.preds(t)[m];
            if !self.ids().contains(id) {
                assert(unknown_in(self.task_list(), t, m));
            }
            let w = choose|w: int| 0 <= w < self.ids().len() && self.ids()[w] == id;
            let q = self.pred_index(t, m);
            assert(0 <= q < self.count() && self.ids()[q] == id);
            assert(self.task_list()[t].preds().contains(ids_of(self.task_list())[q]));
            assert(self.depends(q, t));
            self.lemma_preds_run_first(q, t);
            self.lemma_step_of(q);
            assert forall|p: Seq<int>| #[trigger] self.is_path(p) && p.last() == q implies !(self.ran(p[0]) && !produced(
                self.output(p[0]))) by {
                let p2 = p.push(t);
                assert forall|z: int| 0 <= z < p2.len() - 1 implies #[trigger] self.depends(p2[z], p2[z + 1]) by {
                    if z < p.len() - 1 {
                        assert(self.depends(p[z], p[z + 1]));
                    }
                }
                assert(self.is_path(p2));
                assert(p2[0] == p[0]);
            }
            self.lemma_keep_going_runs_unaffected(q);
            let single = seq![q];
            assert(self.is_path(single));
            assert(!(self.ran(single[0]) && !produced(self.output(single[0]))));
        }
        let single = seq![t];
        assert(self.is_path(single));
    }

    /// The flag that `start` returns is true exactly when every action that
    /// ran returned a value.
    pub proof fn lemma_success_flag(&self)
        requires
            self.is_exec_order(self.sequence()),
            self.ran_as_scheduled(),
        ensures
            self.no_failure_before(self.sequence().len() as int) <==> forall|i: int|
                0 <= i < self.count() && #[trigger] self.ran(i) ==> produced(self.output(i)),
    {
        if self.no_failure_before(self.sequence().len() as int) {
            assert forall|i: int| 0 <= i < self.count() && #[trigger] self.ran(i) implies produced(self.output(i)) by {
                self.lemma_step_of(i);
                let k = self.step_of(i);
                assert(self.scheduled_at(k));
                assert(!self.failed(self.sequence()[k] as int));
            }
        }
        if forall|i: int| 0 <= i < self.count() && #[trigger] self.ran(i) ==> produced(self.output(i)) {
            assert forall|k2: int| 0 <= k2 < self.sequence().len() implies !self.failed(self.sequence()[k2] as int) by {
                assert(self.scheduled_at(k2));
                let i = self.sequence()[k2] as int;
                assert(i < self.count());
                if self.ran(i) {
                    assert(produced(self.output(i)));
                }
            }
        }
    }
}

} // verus!
