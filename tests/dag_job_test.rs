use std::sync::atomic::{AtomicUsize, Ordering};
use std::sync::Arc;

use dagrs::{Complex, Content, Dag, DagError, DefaultTask, EnvVar, IdAllocator, Input, Output, Parser};

enum Kind {
    /// Its own value plus `base` times each input value.
    Sum(usize),
    /// `base` divided by the given divisor; an error when it is zero.
    Divide(usize),
    /// Always fails with a payload.
    Fail,
    /// Doubles its single input, or yields 1 with no input.
    Double,
    /// Produces nothing.
    Nothing,
    /// Produces a text value.
    Text,
}

struct Act {
    kind: Kind,
    calls: Arc<AtomicUsize>,
}

impl Act {
    fn new(kind: Kind) -> Act {
        Act { kind, calls: Arc::new(AtomicUsize::new(0)) }
    }

    fn counted(kind: Kind, calls: &Arc<AtomicUsize>) -> Act {
        Act { kind, calls: calls.clone() }
    }
}

impl Complex for Act {
    fn run(&self, input: Input, env: &EnvVar) -> Output {
        self.calls.fetch_add(1, Ordering::SeqCst);
        match self.kind {
            Kind::Sum(v) => {
                let base = *env.get::<usize>("base").unwrap();
                let mut sum = v;
                input.get_iter().for_each(|c| sum += c.get::<usize>().unwrap() * base);
                Output::new(sum)
            }
            Kind::Divide(d) => {
                let base = *env.get::<usize>("base").unwrap();
                match base.checked_div(d) {
                    Some(q) => Output::new(q),
                    None => Output::error("division by zero".to_string()),
                }
            }
            Kind::Fail => Output::error_with_exit_code(None, Some(Content::new("error".to_string()))),
            Kind::Double => match input.get(0) {
                Some(c) => Output::new(c.get::<usize>().unwrap() * 2),
                None => Output::new(1usize),
            },
            Kind::Nothing => Output::empty(),
            Kind::Text => Output::new("done".to_string()),
        }
    }
}

fn base_env() -> EnvVar {
    let mut env = EnvVar::new();
    env.set("base", 2usize);
    env
}

#[test]
fn task_loop_graph() {
    let mut ids = IdAllocator::new();
    let mut a = DefaultTask::with_action(&mut ids, "a", Act::new(Kind::Nothing));
    let mut b = DefaultTask::with_action(&mut ids, "b", Act::new(Kind::Nothing));
    let mut c = DefaultTask::with_action(&mut ids, "c", Act::new(Kind::Nothing));
    a.set_predecessors(&[b.id()]);
    b.set_predecessors(&[c.id()]);
    c.set_predecessors(&[a.id()]);

    let mut job = Dag::with_tasks(vec![a, b, c]);
    job.set_env(base_env());
    let res = job.start();
    assert!(matches!(res, Err(DagError::LoopGraph)));
}

#[test]
fn task_self_loop_graph() {
    let mut ids = IdAllocator::new();
    let mut a = DefaultTask::with_action(&mut ids, "a", Act::new(Kind::Nothing));
    let own = a.id();
    a.set_predecessors(&[own]);
    let res = Dag::with_tasks(vec![a]).start();
    assert!(matches!(res, Err(DagError::LoopGraph)));
}

#[test]
fn non_job() {
    let tasks: Vec<DefaultTask<Act>> = Vec::new();
    let res = Dag::with_tasks(tasks).start();
    assert!(res.is_err());
    assert!(matches!(res, Err(DagError::EmptyJob)));
}

#[test]
fn unknown_predecessor() {
    let mut ids = IdAllocator::new();
    let a = DefaultTask::with_action(&mut ids, "a", Act::new(Kind::Nothing));
    let mut b = DefaultTask::with_action(&mut ids, "b", Act::new(Kind::Nothing));
    b.set_predecessors(&[a.id(), 99]);
    let res = Dag::with_tasks(vec![a, b]).start();
    match res {
        Err(DagError::RelyTaskIllegal(name)) => assert_eq!(name, "b"),
        _ => panic!("expected an unknown predecessor"),
    }
}

fn test_dag(keep_going: bool, expected_outputs: Vec<(usize, Option<usize>)>) {
    let mut ids = IdAllocator::new();
    let a = DefaultTask::with_action(&mut ids, "Compute A", Act::new(Kind::Sum(1)));
    let mut b = DefaultTask::with_action(&mut ids, "Compute B", Act::new(Kind::Sum(2)));
    let mut c = DefaultTask::with_action(&mut ids, "Compute C", Act::new(Kind::Divide(0)));
    let mut d = DefaultTask::with_action(&mut ids, "Compute D", Act::new(Kind::Fail));
    let mut e = DefaultTask::with_action(&mut ids, "Compute E", Act::new(Kind::Sum(16)));
    let mut f = DefaultTask::with_action(&mut ids, "Compute F", Act::new(Kind::Sum(32)));
    let mut g = DefaultTask::with_action(&mut ids, "Compute G", Act::new(Kind::Sum(64)));
    let h = DefaultTask::with_action(&mut ids, "Compute H", Act::new(Kind::Sum(64)));
    let i = DefaultTask::with_action(&mut ids, "Compute I", Act::new(Kind::Sum(64)));
    let j = DefaultTask::with_action(&mut ids, "Compute J", Act::new(Kind::Sum(64)));
    let k = DefaultTask::with_action(&mut ids, "Compute K", Act::new(Kind::Sum(64)));
    let l = DefaultTask::with_action(&mut ids, "Compute L", Act::new(Kind::Sum(64)));
    let m = DefaultTask::with_action(&mut ids, "Compute M", Act::new(Kind::Sum(64)));

    b.set_predecessors(&[a.id()]);
    c.set_predecessors(&[a.id()]);
    d.set_predecessors(&[a.id()]);
    e.set_predecessors(&[b.id(), c.id()]);
    f.set_predecessors(&[c.id(), d.id()]);
    g.set_predecessors(&[b.id(), e.id(), f.id()]);

    let mut job = Dag::with_tasks(vec![a, b, c, d, e, f, g, h, i, j, k, l, m]);
    if keep_going {
        job = job.keep_going();
    }
    job.set_env(base_env());
    assert!(!job.start().unwrap());

    let mut output_ordered = job.get_results::<usize>();
    output_ordered.sort_by_key(|(k, _)| *k);
    assert_eq!(output_ordered, expected_outputs);
}

fn diamond_expected() -> Vec<(usize, Option<usize>)> {
    vec![
        (1, Some(1)),
        (2, Some(4)),
        (3, None),
        (4, None),
        (5, None),
        (6, None),
        (7, None),
        (8, Some(64)),
        (9, Some(64)),
        (10, Some(64)),
        (11, Some(64)),
        (12, Some(64)),
        (13, Some(64)),
    ]
}

#[test]
fn task_failed_execute() {
    test_dag(false, diamond_expected());
}

#[test]
fn task_keep_going() {
    test_dag(true, diamond_expected());
}

#[test]
fn linear_success() {
    let mut ids = IdAllocator::new();
    let a = DefaultTask::with_action(&mut ids, "a", Act::new(Kind::Double));
    let mut b = DefaultTask::with_action(&mut ids, "b", Act::new(Kind::Double));
    let mut c = DefaultTask::with_action(&mut ids, "c", Act::new(Kind::Double));
    b.set_predecessors(&[a.id()]);
    c.set_predecessors(&[b.id()]);
    let mut job = Dag::with_tasks(vec![c, b, a]);
    job.set_env(base_env());
    assert!(job.start().unwrap());
    assert_eq!(job.get_result::<usize>(), Some(4));
}

#[test]
fn restart_refused() {
    let calls = Arc::new(AtomicUsize::new(0));
    let mut ids = IdAllocator::new();
    let a = DefaultTask::with_action(&mut ids, "a", Act::counted(Kind::Double, &calls));
    let mut b = DefaultTask::with_action(&mut ids, "b", Act::counted(Kind::Double, &calls));
    b.set_predecessors(&[a.id()]);
    let mut job = Dag::with_tasks(vec![a, b]);
    assert!(job.start().unwrap());
    assert_eq!(calls.load(Ordering::SeqCst), 2);
    assert!(!job.start().unwrap());
    assert_eq!(calls.load(Ordering::SeqCst), 2);
}

#[test]
fn single_task_result() {
    let mut ids = IdAllocator::new();
    let a = DefaultTask::with_action(&mut ids, "a", Act::new(Kind::Double));
    let mut job = Dag::with_tasks(vec![a]);
    assert!(job.start().unwrap());
    assert_eq!(job.get_result::<usize>(), Some(1));
}

#[test]
fn result_of_other_type_is_absent() {
    let mut ids = IdAllocator::new();
    let a = DefaultTask::with_action(&mut ids, "a", Act::new(Kind::Text));
    let mut job = Dag::with_tasks(vec![a]);
    assert!(job.start().unwrap());
    assert_eq!(job.get_result::<usize>(), None);
    assert_eq!(job.get_result::<String>(), Some("done".to_string()));
}

#[test]
fn result_before_start_is_absent() {
    let mut ids = IdAllocator::new();
    let a = DefaultTask::with_action(&mut ids, "a", Act::new(Kind::Double));
    let job = Dag::with_tasks(vec![a]);
    assert_eq!(job.get_result::<usize>(), None);
}

#[test]
fn fail_fast_cancels_waiting_tasks() {
    let calls = Arc::new(AtomicUsize::new(0));
    let mut ids = IdAllocator::new();
    let a = DefaultTask::with_action(&mut ids, "a", Act::counted(Kind::Fail, &calls));
    let mut b = DefaultTask::with_action(&mut ids, "b", Act::counted(Kind::Double, &calls));
    let mut c = DefaultTask::with_action(&mut ids, "c", Act::counted(Kind::Double, &calls));
    b.set_predecessors(&[a.id()]);
    c.set_predecessors(&[b.id()]);
    let mut job = Dag::with_tasks(vec![a, b, c]);
    assert!(!job.start().unwrap());
    assert_eq!(calls.load(Ordering::SeqCst), 1);
    assert_eq!(job.get_results::<usize>(), vec![(1, None), (2, None), (3, None)]);
}

#[test]
fn keep_going_runs_independent_chain() {
    let mut ids = IdAllocator::new();
    let a = DefaultTask::with_action(&mut ids, "a", Act::new(Kind::Fail));
    let x = DefaultTask::with_action(&mut ids, "x", Act::new(Kind::Double));
    let mut y = DefaultTask::with_action(&mut ids, "y", Act::new(Kind::Double));
    y.set_predecessors(&[x.id()]);
    let mut job = Dag::with_tasks(vec![a, x, y]).keep_going();
    assert!(!job.start().unwrap());
    assert_eq!(job.get_results::<usize>(), vec![(1, None), (2, Some(1)), (3, Some(2))]);
}

#[test]
fn empty_output_hands_nothing_on() {
    let mut ids = IdAllocator::new();
    let a = DefaultTask::with_action(&mut ids, "a", Act::new(Kind::Nothing));
    let mut b = DefaultTask::with_action(&mut ids, "b", Act::new(Kind::Double));
    b.set_predecessors(&[a.id()]);
    let mut job = Dag::with_tasks(vec![a, b]);
    assert!(job.start().unwrap());
    assert_eq!(job.get_result::<usize>(), Some(1));
}

#[test]
fn duplicate_id_replaces_earlier_task() {
    let mut ids = IdAllocator::new();
    let a = DefaultTask::with_action(&mut ids, "a", Act::new(Kind::Text));
    ids.reset();
    let a2 = DefaultTask::with_action(&mut ids, "a2", Act::new(Kind::Double));
    let mut job = Dag::with_tasks(vec![a, a2]);
    assert!(job.start().unwrap());
    assert_eq!(job.get_results::<usize>(), vec![(1, Some(1))]);
}

struct ListParser;

impl Parser<Act> for ListParser {
    fn parse_tasks(&self, file: &str) -> Result<Vec<DefaultTask<Act>>, String> {
        if file == "missing" {
            return Err("cannot read".to_string());
        }
        let mut ids = IdAllocator::new();
        Ok(vec![DefaultTask::with_action(&mut ids, "only", Act::new(Kind::Double))])
    }
}

#[test]
fn parser_tasks_and_errors() {
    let mut job = Dag::with_config_file_and_parser("tasks", &ListParser).unwrap();
    assert!(job.start().unwrap());
    assert_eq!(job.get_result::<usize>(), Some(1));
    let res = Dag::with_config_file_and_parser("missing", &ListParser);
    assert!(matches!(res, Err(DagError::ParseError(m)) if m == "cannot read"));
}

#[test]
fn failed_start_leaves_no_result() {
    let mut ids = IdAllocator::new();
    let mut a = DefaultTask::with_action(&mut ids, "a", Act::new(Kind::Double));
    let own = a.id();
    a.set_predecessors(&[own]);
    let mut job = Dag::with_tasks(vec![a]);
    assert!(matches!(job.start(), Err(DagError::LoopGraph)));
    assert_eq!(job.get_result::<usize>(), None);
    assert_eq!(job.get_results::<usize>(), vec![(1, None)]);
}

#[test]
fn sequence_takes_lowest_ready_task() {
    let mut ids = IdAllocator::new();
    let a = DefaultTask::with_action(&mut ids, "a", Act::new(Kind::Double));
    let mut b = DefaultTask::with_action(&mut ids, "b", Act::new(Kind::Double));
    let c = DefaultTask::with_action(&mut ids, "c", Act::new(Kind::Text));
    b.set_predecessors(&[a.id()]);
    let mut job = Dag::with_tasks(vec![a, b, c]);
    assert!(job.start().unwrap());
    assert_eq!(job.get_result::<String>(), Some("done".to_string()));
    assert_eq!(job.get_result::<usize>(), None);
}

#[test]
fn repeated_id_keeps_last_task_in_first_place() {
    let mut ids = IdAllocator::new();
    let a = DefaultTask::with_action(&mut ids, "a", Act::new(Kind::Text));
    let b = DefaultTask::with_action(&mut ids, "b", Act::new(Kind::Text));
    ids.reset();
    let a2 = DefaultTask::with_action(&mut ids, "a2", Act::new(Kind::Double));
    let mut job = Dag::with_tasks(vec![a, b, a2]);
    assert!(job.start().unwrap());
    assert_eq!(job.get_results::<usize>(), vec![(1, Some(1)), (2, None)]);
    assert_eq!(job.get_results::<String>(), vec![(1, None), (2, Some("done".to_string()))]);
}
