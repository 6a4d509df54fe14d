//! Task values: the value box, a task's output and input, and the
//! environment shared by every action.
use vstd::prelude::*;
use std::sync::Arc;

verus! {

/// A value carried between tasks, tagged with its type.
#[derive(Debug, Clone)]
pub enum Value {
    Usize(usize),
    U64(u64),
    I32(i32),
    I64(i64),
    Bool(bool),
    Text(String),
}

impl Value {
    /// A copy equal to `self`.
    pub fn duplicate(&self) -> (r: Value)
        ensures
            r == *self,
    {
        match self {
            Value::Usize(x) => Value::Usize(*x),
            Value::U64(x) => Value::U64(*x),
            Value::I32(x) => Value::I32(*x),
            Value::I64(x) => Value::I64(*x),
            Value::Bool(x) => Value::Bool(*x),
            Value::Text(s) => Value::Text(s.clone()),
        }
    }
}

/// A type whose values a [`Content`] can hold.
pub trait Storable: Sized + crate::seal::Sealed {
    /// The tagged value that stands for `self`.
    spec fn stored(&self) -> Value;

    /// Whether `v` holds a value of this type.
    spec fn fits(v: Value) -> bool;

    /// A value is tagged with its own type.
    proof fn lemma_stored_fits(&self)
        ensures
            Self::fits(self.stored()),
    ;

    /// Different values are stored differently.
    proof fn lemma_stored_injective(&self, other: &Self)
        requires
            self.stored() == other.stored(),
        ensures
            *self == *other,
    ;

    fn to_value(&self) -> (v: Value)
        ensures
            v == self.stored(),
            Self::fits(v),
    ;

    fn peek(v: &Value) -> (r: Option<&Self>)
        ensures
            r is Some <==> Self::fits(*v),
            r matches Some(x) ==> x.stored() == *v,
    ;

    fn take(v: Value) -> (r: Option<Self>)
        ensures
            r is Some <==> Self::fits(v),
            r matches Some(x) ==> x.stored() == v,
    ;
}

impl Storable for usize {
    proof fn lemma_stored_fits(&self) {
    }

    proof fn lemma_stored_injective(&self, other: &Self) {
    }

    open spec fn stored(&self) -> Value {
        Value::Usize(*self)
    }

    open spec fn fits(v: Value) -> bool {
        v is Usize
    }

    fn to_value(&self) -> (v: Value) {
        Value::Usize(*self)
    }

    fn peek(v: &Value) -> (r: Option<&usize>) {
        match v {
            Value::Usize(x) => Some(x),
            _ => None,
        }
    }

    fn take(v: Value) -> (r: Option<usize>) {
        match v {
            Value::Usize(x) => Some(x),
            _ => None,
        }
    }
}

impl Storable for u64 {
    proof fn lemma_stored_fits(&self) {
    }

    proof fn lemma_stored_injective(&self, other: &Self) {
    }

    open spec fn stored(&self) -> Value {
        Value::U64(*self)
    }

    open spec fn fits(v: Value) -> bool {
        v is U64
    }

    fn to_value(&self) -> (v: Value) {
        Value::U64(*self)
    }

    fn peek(v: &Value) -> (r: Option<&u64>) {
        match v {
            Value::U64(x) => Some(x),
            _ => None,
        }
    }

    fn take(v: Value) -> (r: Option<u64>) {
        match v {
            Value::U64(x) => Some(x),
            _ => None,
        }
    }
}

impl Storable for i32 {
    proof fn lemma_stored_fits(&self) {
    }

    proof fn lemma_stored_injective(&self, other: &Self) {
    }

    open spec fn stored(&self) -> Value {
        Value::I32(*self)
    }

    open spec fn fits(v: Value) -> bool {
        v is I32
    }

    fn to_value(&self) -> (v: Value) {
        Value::I32(*self)
    }

    fn peek(v: &Value) -> (r: Option<&i32>) {
        match v {
            Value::I32(x) => Some(x),
            _ => None,
        }
    }

    fn take(v: Value) -> (r: Option<i32>) {
        match v {
            Value::I32(x) => Some(x),
            _ => None,
        }
    }
}

impl Storable for i64 {
    proof fn lemma_stored_fits(&self) {
    }

    proof fn lemma_stored_injective(&self, other: &Self) {
    }

    open spec fn stored(&self) -> Value {
        Value::I64(*self)
    }

    open spec fn fits(v: Value) -> bool {
        v is I64
    }

    fn to_value(&self) -> (v: Value) {
        Value::I64(*self)
    }

    fn peek(v: &Value) -> (r: Option<&i64>) {
        match v {
            Value::I64(x) => Some(x),
            _ => None,
        }
    }

    fn take(v: Value) -> (r: Option<i64>) {
        match v {
            Value::I64(x) => Some(x),
            _ => None,
        }
    }
}

impl Storable for bool {
    proof fn lemma_stored_fits(&self) {
    }

    proof fn lemma_stored_injective(&self, other: &Self) {
    }

    open spec fn stored(&self) -> Value {
        Value::Bool(*self)
    }

    open spec fn fits(v: Value) -> bool {
        v is Bool
    }

    fn to_value(&self) -> (v: Value) {
        Value::Bool(*self)
    }

    fn peek(v: &Value) -> (r: Option<&bool>) {
        match v {
            Value::Bool(x) => Some(x),
            _ => None,
        }
    }

    fn take(v: Value) -> (r: Option<bool>) {
        match v {
            Value::Bool(x) => Some(x),
            _ => None,
        }
    }
}

impl Storable for String {
    proof fn lemma_stored_fits(&self) {
    }

    proof fn lemma_stored_injective(&self, other: &Self) {
    }

    open spec fn stored(&self) -> Value {
        Value::Text(*self)
    }

    open spec fn fits(v: Value) -> bool {
        v is Text
    }

    fn to_value(&self) -> (v: Value) {
        Value::Text(self.clone())
    }

    fn peek(v: &Value) -> (r: Option<&String>) {
        match v {
            Value::Text(x) => Some(x),
            _ => None,
        }
    }

    fn take(v: Value) -> (r: Option<String>) {
        match v {
            Value::Text(x) => Some(x),
            _ => None,
        }
    }
}

/// An immutable box around one task value.
#[derive(Debug, Clone)]
pub struct Content {
    content: Value,
}

impl Content {
    /// The value held.
    pub closed spec fn value(&self) -> Value {
        self.content
    }

    pub fn new<H: Storable>(val: H) -> (c: Content)
        ensures
            c.value() == val.stored(),
            H::fits(c.value()),
    {
        proof {
            val.lemma_stored_fits();
        }
        Content { content: val.to_value() }
    }

    pub fn from_arc<H: Storable>(val: Arc<H>) -> (c: Content)
        ensures
            c.value() == (*val).stored(),
    {
        Content { content: (*val).to_value() }
    }

    /// A view of the value when it has type `H`.
    pub fn get<H: Storable>(&self) -> (r: Option<&H>)
        ensures
            r is Some <==> H::fits(self.value()),
            r matches Some(x) ==> x.stored() == self.value(),
            forall|h: H| #[trigger] h.stored() == self.value() ==> r == Some(&h),
    {
        let r = H::peek(&self.content);
        proof {
            assert forall|h: H| #[trigger] h.stored() == self.value() implies r == Some(&h) by {
                h.lemma_stored_fits();
                let x = r.unwrap();
                x.lemma_stored_injective(&h);
            }
        }
        r
    }

    /// The value, shared, when it has type `H`.
    pub fn into_inner<H: Storable>(self) -> (r: Option<Arc<H>>)
        ensures
            r is Some <==> H::fits(self.value()),
            r matches Some(x) ==> (*x).stored() == self.value(),
            forall|h: H| #[trigger] h.stored() == self.value() ==> (r matches Some(x) && *x == h),
    {
        let ghost v = self.value();
        let r = match H::take(self.content) {
            Some(x) => Some(Arc::new(x)),
            None => None,
        };
        proof {
            assert forall|h: H| #[trigger] h.stored() == v implies (r matches Some(x) && *x == h) by {
                h.lemma_stored_fits();
                let x = r.unwrap();
                (*x).lemma_stored_injective(&h);
            }
        }
        r
    }

    /// The value held, taken out of the box.
    pub fn value_owned(self) -> (r: Value)
        ensures
            r == self.value(),
    {
        self.content
    }

    /// A copy equal to `self`.
    pub fn duplicate(&self) -> (r: Content)
        ensures
            r == *self,
    {
        Content { content: self.content.duplicate() }
    }
}

/// Output produced by a task.
#[derive(Debug, Clone)]
pub enum Output {
    Out(Option<Content>),
    Error(String),
    ErrWithExitCode(Option<i32>, Option<Content>),
}

/// Whether `o` records a successful run.
pub open spec fn produced(o: Output) -> bool {
    o is Out
}

/// The value that `o` hands to successors, if any.
pub open spec fn handed_on(o: Output) -> Option<Content> {
    match o {
        Output::Out(c) => c,
        _ => None,
    }
}

impl Output {
    pub fn new<H: Storable>(val: H) -> (r: Output)
        ensures
            r matches Output::Out(Some(c)) && c.value() == val.stored() && H::fits(c.value()),
    {
        Output::Out(Some(Content::new(val)))
    }

    pub fn empty() -> (r: Output)
        ensures
            r == Output::Out(None),
    {
        Output::Out(None)
    }

    pub fn error(msg: String) -> (r: Output)
        ensures
            r == Output::Error(msg),
    {
        Output::Error(msg)
    }

    pub fn error_with_exit_code(code: Option<i32>, msg: Option<Content>) -> (r: Output)
        ensures
            r == Output::ErrWithExitCode(code, msg),
    {
        Output::ErrWithExitCode(code, msg)
    }

    /// Whether the output reports an error.
    pub fn is_err(&self) -> (r: bool)
        ensures
            r == !produced(*self),
    {
        match self {
            Output::Error(_) | Output::ErrWithExitCode(_, _) => true,
            Output::Out(_) => false,
        }
    }

    /// The value produced, if any.
    pub fn get_out(&self) -> (r: Option<Content>)
        ensures
            r == handed_on(*self),
    {
        match self {
            Output::Out(Some(c)) => Some(c.duplicate()),
            _ => None,
        }
    }

    /// The error message: the text of `Err`, or the payload of
    /// `ErrWithExitCode` when it holds text.
    pub fn get_err(&self) -> (r: Option<String>)
        ensures
            r == match *self {
                Output::Out(_) => None,
                Output::Error(m) => Some(m),
                Output::ErrWithExitCode(_, None) => None,
                Output::ErrWithExitCode(_, Some(c)) => match c.value() {
                    Value::Text(m) => Some(m),
                    _ => None,
                },
            },
    {
        match self {
            Output::Out(_) => None,
            Output::Error(m) => Some(m.clone()),
            Output::ErrWithExitCode(_, None) => None,
            Output::ErrWithExitCode(_, Some(c)) => match c.get::<String>() {
                Some(m) => Some(m.clone()),
                None => None,
            },
        }
    }

    /// A copy equal to `self`.
    pub fn duplicate(&self) -> (r: Output)
        ensures
            r == *self,
    {
        match self {
            Output::Out(None) => Output::Out(None),
            Output::Out(Some(c)) => Output::Out(Some(c.duplicate())),
            Output::Error(m) => Output::Error(m.clone()),
            Output::ErrWithExitCode(code, None) => Output::ErrWithExitCode(*code, None),
            Output::ErrWithExitCode(code, Some(c)) => Output::ErrWithExitCode(*code, Some(c.duplicate())),
        }
    }
}

/// A task's input: the values of its predecessors, in the order in which it
/// declared them.
#[derive(Debug)]
pub struct Input(Vec<Content>);

impl Input {
    /// The values held, in order.
    pub closed spec fn values(&self) -> Seq<Content> {
        self.0@
    }

    pub fn new(input: Vec<Content>) -> (r: Input)
        ensures
            r.values() == input@,
    {
        Input(input)
    }

    pub fn get_iter(&self) -> (r: std::slice::Iter<'_, Content>)
        ensures
            vstd::std_specs::iter::IteratorSpec::remaining(&r).len() == self.values().len(),
            forall|i: int| 0 <= i < self.values().len() ==>
                *#[trigger] vstd::std_specs::iter::IteratorSpec::remaining(&r)[i] == self.values()[i],
    {
        self.0.as_slice().iter()
    }

    pub fn len(&self) -> (r: usize)
        ensures
            r == self.values().len(),
    {
        self.0.len()
    }

    /// The value at position `i`, if any.
    pub fn get(&self, i: usize) -> (r: Option<&Content>)
        ensures
            r == (if i < self.values().len() { Some(&self.values()[i as int]) } else { None::<&Content> }),
    {
        if i < self.0.len() {
            Some(&self.0[i])
        } else {
            None
        }
    }
}

/// Named values shared by every action of a run. Keys are unique.
#[derive(Debug)]
pub struct EnvVar {
    vars: Vec<(String, Content)>,
}

impl EnvVar {
    pub closed spec fn wf(&self) -> bool {
        forall|i: int, j: int|
            0 <= i < self.vars@.len() && 0 <= j < self.vars@.len() && i != j ==> self.vars@[i].0@ != self.vars@[j].0@
    }

    /// The value stored under `key`, if any.
    pub closed spec fn lookup(&self, key: Seq<char>) -> Option<Value> {
        if exists|i: int| 0 <= i < self.vars@.len() && self.vars@[i].0@ == key {
            let i = choose|i: int| 0 <= i < self.vars@.len() && self.vars@[i].0@ == key;
            Some(self.vars@[i].1.value())
        } else {
            None
        }
    }

    pub fn new() -> (r: EnvVar)
        ensures
            r.wf(),
            forall|k: Seq<char>| r.lookup(k) is None,
    {
        EnvVar { vars: Vec::new() }
    }

    fn position(&self, key: &String) -> (r: Option<usize>)
        ensures
            match r {
                Some(i) => i < self.vars@.len() && self.vars@[i as int].0@ == key@,
                None => forall|i: int| 0 <= i < self.vars@.len() ==> self.vars@[i].0@ != key@,
            },
    {
        let mut i: usize = 0;
        while i < self.vars.len()
            invariant
                i <= self.vars@.len(),
                forall|j: int| 0 <= j < i ==> self.vars@[j].0@ != key@,
            decreases self.vars@.len() - i,
        {
            if self.vars[i].0 == *key {
                return Some(i);
            }
            i = i + 1;
        }
        None
    }

    /// Stores `val` under `key`, replacing what was there.
    pub fn set<H: Storable>(&mut self, key: &str, val: H)
        requires
            old(self).wf(),
        ensures
            final(self).wf(),
            final(self).lookup(key@) == Some(val.stored()),
            forall|k: Seq<char>| k != key@ ==> final(self).lookup(k) == old(self).lookup(k),
    {
        let name = key.to_owned();
        let c = Content::new(val);
        let ghost prev = self.vars@;
        match self.position(&name) {
            Some(i) => {
                self.vars.set(i, (name, c));
                proof {
                    assert(self.vars@[i as int].0@ == key@);
                    assert forall|k: Seq<char>| k != key@ implies self.lookup(k) == old(self).lookup(k) by {
                        assert forall|j: int| 0 <= j < prev.len() implies (self.vars@[j].0@ == k <==> prev[j].0@ == k) by {
                            if j != i {
                                assert(self.vars@[j] == prev[j]);
                            }
                        }
                        if exists|j: int| 0 <= j < prev.len() && prev[j].0@ == k {
                            let a = choose|j: int| 0 <= j < prev.len() && prev[j].0@ == k;
                            assert(self.vars@[a].0@ == k);
                        }
                    }
                }
            },
            None => {
                self.vars.push((name, c));
                proof {
                    let n = prev.len() as int;
                    assert(self.vars@[n].0@ == key@);
                    assert forall|k: Seq<char>| k != key@ implies self.lookup(k) == old(self).lookup(k) by {
                        if exists|j: int| 0 <= j < prev.len() && prev[j].0@ == k {
                            let a = choose|j: int| 0 <= j < prev.len() && prev[j].0@ == k;
                            assert(self.vars@[a].0@ == k);
                        }
                    }
                }
            },
        }
    }

    /// The value under `key` when it has type `H`.
    pub fn get<H: Storable>(&self, key: &str) -> (r: Option<&H>)
        requires
            self.wf(),
        ensures
            r is Some <==> (self.lookup(key@) matches Some(v) && H::fits(v)),
            r matches Some(x) ==> self.lookup(key@) == Some(x.stored()),
    {
        let name = key.to_owned();
        match self.position(&name) {
            Some(i) => self.vars[i].1.get::<H>(),
            None => None,
        }
    }
}

} // verus!
