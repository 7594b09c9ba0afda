use vstd::prelude::*;

verus! {

/// Identity of a process: the grouping shared by all tasks spawned from one
/// loaded program. Never zero.
#[derive(Clone, Copy, Debug, PartialEq, Eq, Structural, PartialOrd, Ord, Hash)]
pub struct ProcessId {
    id: u32,
}

/// Identity of one task (one guest execution context). Never zero.
#[derive(Clone, Copy, Debug, PartialEq, Eq, Structural, PartialOrd, Ord, Hash)]
pub struct TaskId {
    id: u32,
}

impl ProcessId {
    /// The number this identity stands for.
    pub closed spec fn raw(self) -> u32 {
        self.id
    }

    #[verifier::type_invariant]
    spec fn inv(self) -> bool {
        self.id != 0
    }

    /// Two identities are equal exactly when their numbers are.
    pub broadcast proof fn lemma_raw_eq(a: Self, b: Self)
        ensures
            #[trigger] a.raw() == #[trigger] b.raw() <==> a == b,
    {
    }

    /// `None` for zero, the identity `id` otherwise.
    pub fn new(id: u32) -> (r: Option<ProcessId>)
        ensures
            id == 0 <==> r is None,
            r matches Some(p) ==> p.raw() == id,
    {
        if id == 0 {
            None
        } else {
            Some(ProcessId { id })
        }
    }

    /// The identity `id`, which must not be zero.
    pub fn from_raw(id: u32) -> (r: ProcessId)
        requires
            id != 0,
        ensures
            r.raw() == id,
    {
        ProcessId { id }
    }

    pub fn into_raw(&self) -> (r: u32)
        ensures
            r == self.raw(),
            r != 0,
    {
        proof {
            use_type_invariant(self);
        }
        self.id
    }

    /// The task identity with the same number.
    pub fn to_tid(&self) -> (r: TaskId)
        ensures
            r.raw() == self.raw(),
    {
        proof {
            use_type_invariant(self);
        }
        TaskId { id: self.id }
    }
}

impl TaskId {
    /// The number this identity stands for.
    pub closed spec fn raw(self) -> u32 {
        self.id
    }

    #[verifier::type_invariant]
    spec fn inv(self) -> bool {
        self.id != 0
    }

    /// Two identities are equal exactly when their numbers are.
    pub broadcast proof fn lemma_raw_eq(a: Self, b: Self)
        ensures
            #[trigger] a.raw() == #[trigger] b.raw() <==> a == b,
    {
    }

    /// `None` for zero, the identity `id` otherwise.
    pub fn new(id: u32) -> (r: Option<TaskId>)
        ensures
            id == 0 <==> r is None,
            r matches Some(t) ==> t.raw() == id,
    {
        if id == 0 {
            None
        } else {
            Some(TaskId { id })
        }
    }

    /// The identity `id`, which must not be zero.
    pub fn from_raw(id: u32) -> (r: TaskId)
        requires
            id != 0,
        ensures
            r.raw() == id,
    {
        TaskId { id }
    }

    pub fn into_raw(&self) -> (r: u32)
        ensures
            r == self.raw(),
            r != 0,
    {
        proof {
            use_type_invariant(self);
        }
        self.id
    }

    /// The process identity with the same number.
    pub fn to_pid(&self) -> (r: ProcessId)
        ensures
            r.raw() == self.raw(),
    {
        proof {
            use_type_invariant(self);
        }
        ProcessId { id: self.id }
    }
}

} // verus!
