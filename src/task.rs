//! What a task is, how ids are handed out, and the per-task execution state.
use vstd::prelude::*;
use crate::content::{Content, EnvVar, Input, Output, produced, handed_on};

verus! {

/// The work a task performs: from the values of its predecessors and the
/// shared environment to an output. Failures are reported through the
/// output's error variants.
pub trait Complex {
    /// The action may return `out` when handed `input` and `env`. An action
    /// that states nothing of its results keeps this default.
    open spec fn yields(&self, input: Seq<Content>, env: EnvVar, out: Output) -> bool {
        true
    }

    fn run(&self, input: Input, env: &EnvVar) -> (r: Output)
        requires
            env.wf(),
        ensures
            self.yields(input.values(), *env, r),
    ;
}

/// Hands out task ids, counting up from 1.
#[derive(Debug)]
pub struct IdAllocator {
    next: usize,
}

impl IdAllocator {
    /// The id that `next_id` hands out next.
    pub closed spec fn upcoming(&self) -> nat {
        self.next as nat
    }

    pub fn new() -> (r: IdAllocator)
        ensures
            r.upcoming() == 1,
    {
        IdAllocator { next: 1 }
    }

    /// Starts counting from 1 again.
    pub fn reset(&mut self)
        ensures
            final(self).upcoming() == 1,
    {
        self.next = 1;
    }

    pub fn next_id(&mut self) -> (id: usize)
        requires
            old(self).upcoming() < usize::MAX,
        ensures
            id == old(self).upcoming(),
            final(self).upcoming() == old(self).upcoming() + 1,
    {
        let id = self.next;
        self.next = self.next + 1;
        id
    }
}

/// A task: an id, a display name, the ids of its predecessors and an action.
#[derive(Debug)]
pub struct DefaultTask<A> {
    id: usize,
    name: String,
    precursors: Vec<usize>,
    action: A,
}

impl<A: Complex> DefaultTask<A> {
    pub closed spec fn id_spec(&self) -> usize {
        self.id
    }

    pub closed spec fn name_spec(&self) -> Seq<char> {
        self.name@
    }

    pub closed spec fn action_spec(&self) -> A {
        self.action
    }

    /// Ids of the predecessors, in declared order.
    pub closed spec fn preds(&self) -> Seq<usize> {
        self.precursors@
    }

    /// A task with the next id of `ids` and no predecessors.
    pub fn with_action(ids: &mut IdAllocator, name: &str, action: A) -> (t: DefaultTask<A>)
        requires
            old(ids).upcoming() < usize::MAX,
        ensures
            t.id_spec() == old(ids).upcoming(),
            final(ids).upcoming() == old(ids).upcoming() + 1,
            t.name_spec() == name@,
            t.preds().len() == 0,
            t.action_spec() == action,
    {
        let id = ids.next_id();
        DefaultTask { id, name: name.to_owned(), precursors: Vec::new(), action }
    }

    pub fn id(&self) -> (r: usize)
        ensures
            r == self.id_spec(),
    {
        self.id
    }

    pub fn name(&self) -> (r: String)
        ensures
            r@ == self.name_spec(),
    {
        self.name.clone()
    }

    pub fn predecessors(&self) -> (r: &[usize])
        ensures
            r@ == self.preds(),
    {
        self.precursors.as_slice()
    }

    pub fn action(&self) -> (r: &A)
        ensures
            *r == self.action_spec(),
    {
        &self.action
    }

    /// Sets the ids of the tasks that must finish before this one.
    pub fn set_predecessors(&mut self, preds: &[usize])
        ensures
            final(self).preds() == preds@,
            final(self).id_spec() == old(self).id_spec(),
            final(self).name_spec() == old(self).name_spec(),
            final(self).action_spec() == old(self).action_spec(),
    {
        let mut v: Vec<usize> = Vec::new();
        let mut i: usize = 0;
        while i < preds.len()
            invariant
                i <= preds@.len(),
                v@ == preds@.subrange(0, i as int),
            decreases preds@.len() - i,
        {
            v.push(preds[i]);
            i = i + 1;
            assert(v@ =~= preds@.subrange(0, i as int));
        }
        assert(v@ =~= preds@);
        self.precursors = v;
    }
}

/// Execution state of one task: its output and whether it succeeded. A
/// state is written once, when its task has run.
pub(crate) struct ExecState {
    pub(crate) success: bool,
    pub(crate) output: Output,
    /// Whether the task's action was called.
    pub(crate) ran: bool,
    /// The values handed to the action.
    pub(crate) input: Ghost<Seq<Content>>,
}

impl ExecState {
    /// A state with no output yet.
    pub(crate) open spec fn fresh(&self) -> bool {
        &&& !self.success
        &&& !self.ran
        &&& self.output == Output::Out(None)
        &&& self.input@ == Seq::<Content>::empty()
    }

    pub(crate) fn new() -> (r: ExecState)
        ensures
            r.fresh(),
    {
        ExecState { success: false, output: Output::Out(None), ran: false, input: Ghost(Seq::empty()) }
    }

    /// Records what the action returned; success follows the variant.
    pub(crate) fn set_output(&mut self, output: Output)
        ensures
            final(self).output == output,
            final(self).success == produced(output),
            final(self).ran == old(self).ran,
            final(self).input == old(self).input,
    {
        self.success = !output.is_err();
        self.output = output;
    }

    /// The value produced, if the task produced one.
    pub(crate) fn get_output(&self) -> (r: Option<Content>)
        ensures
            r == handed_on(self.output),
    {
        self.output.get_out()
    }

    pub(crate) fn get_full_output(&self) -> (r: Output)
        ensures
            r == self.output,
    {
        self.output.duplicate()
    }

    pub(crate) fn success(&self) -> (r: bool)
        ensures
            r == self.success,
    {
        self.success
    }
}

} // verus!
