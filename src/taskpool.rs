use vstd::prelude::*;

use crate::ids::TaskId;
use crate::task::{lemma_refs_in_beyond, lemma_refs_in_zero, refs_in, Task};

verus! {

/// How many mapping entries of `tasks` hold page `p`.
pub open spec fn refs(tasks: Seq<Task>, p: int) -> nat
    decreases tasks.len(),
{
    if tasks.len() == 0 {
        0
    } else {
        refs_in(tasks[0].memory_mapping.mapping@, p) + refs(tasks.drop_first(), p)
    }
}

/// Counting over tasks splits over concatenation.
pub proof fn lemma_refs_concat(a: Seq<Task>, b: Seq<Task>, p: int)
    ensures
        refs(a + b, p) == refs(a, p) + refs(b, p),
    decreases a.len(),
{
    if a.len() == 0 {
        assert(a + b =~= b);
    } else {
        assert((a + b).drop_first() =~= a.drop_first() + b);
        lemma_refs_concat(a.drop_first(), b, p);
    }
}

/// Adding a task adds its entries.
pub proof fn lemma_refs_push(a: Seq<Task>, t: Task, p: int)
    ensures
        refs(a.push(t), p) == refs(a, p) + refs_in(t.memory_mapping.mapping@, p),
{
    lemma_refs_concat(a, seq![t], p);
    assert(a.push(t) =~= a + seq![t]);
    assert(seq![t].drop_first() =~= Seq::<Task>::empty());
    assert(seq![t][0] == t);
    assert(refs(Seq::<Task>::empty(), p) == 0);
    assert(refs(seq![t], p) == refs_in(t.memory_mapping.mapping@, p));
}

/// Taking out task `k` takes out its entries.
pub proof fn lemma_refs_remove(a: Seq<Task>, k: int, p: int)
    requires
        0 <= k < a.len(),
    ensures
        refs(a, p) == refs(a.remove(k), p) + refs_in(a[k].memory_mapping.mapping@, p),
{
    let l = a.subrange(0, k);
    let r = a.subrange(k + 1, a.len() as int);
    assert(a =~= l + (seq![a[k]] + r));
    assert(a.remove(k) =~= l + r);
    lemma_refs_concat(l, seq![a[k]] + r, p);
    lemma_refs_concat(seq![a[k]], r, p);
    lemma_refs_concat(l, r, p);
    assert((seq![a[k]] + r).drop_first() =~= r);
    assert(seq![a[k]].drop_first() =~= Seq::<Task>::empty());
}

/// Tasks with no entry for page `p` map it nowhere.
pub proof fn lemma_refs_zero(a: Seq<Task>, p: int)
    requires
        refs(a, p) == 0,
    ensures
        forall|i: int, j: int|
            0 <= i < a.len() && 0 <= j < a[i].memory_mapping.mapping@.len() ==> (#[trigger] a[i].memory_mapping.mapping@[j]).0.0 != p,
    decreases a.len(),
{
    if a.len() > 0 {
        lemma_refs_in_zero(a[0].memory_mapping.mapping@, p);
        lemma_refs_zero(a.drop_first(), p);
        assert forall|i: int, j: int|
            0 <= i < a.len() && 0 <= j < a[i].memory_mapping.mapping@.len() implies (#[trigger] a[i].memory_mapping.mapping@[j]).0.0 != p by {
            if i > 0 {
                assert(a[i] == a.drop_first()[i - 1]);
            }
        }
    }
}

/// Tasks whose pages are all below `n` hold no page from `n` on.
pub proof fn lemma_refs_beyond(a: Seq<Task>, n: nat, p: int)
    requires
        forall|i: int| 0 <= i < a.len() ==> (#[trigger] a[i]).memory_mapping.within(n),
        p >= n,
    ensures
        refs(a, p) == 0,
    decreases a.len(),
{
    if a.len() > 0 {
        assert(a[0].memory_mapping.within(n));
        lemma_refs_in_beyond(a[0].memory_mapping.mapping@, n, p);
        assert forall|i: int| 0 <= i < a.drop_first().len() implies (#[trigger] a.drop_first()[i]).memory_mapping.within(n) by {
            assert(a.drop_first()[i] == a[i + 1]);
        }
        lemma_refs_beyond(a.drop_first(), n, p);
    }
}

/// The live tasks, keyed by task identity: no two hold the same id.
pub struct TaskPool {
    task_pool: Vec<Task>,
}

impl TaskPool {
    /// The tasks, in the order they were added.
    pub closed spec fn tasks(&self) -> Seq<Task> {
        self.task_pool@
    }

    pub open spec fn wf(&self) -> bool {
        forall|i: int, j: int|
            0 <= i < j < self.tasks().len() ==> #[trigger] self.tasks()[i].tid != #[trigger] self.tasks()[j].tid
    }

    /// Whether some task holds id `tid`.
    pub open spec fn holds(&self, tid: TaskId) -> bool {
        exists|i: int| 0 <= i < self.tasks().len() && self.tasks()[i].tid == tid
    }

    pub fn new() -> (r: TaskPool)
        ensures
            r.wf(),
            r.tasks().len() == 0,
    {
        TaskPool { task_pool: Vec::new() }
    }

    pub fn len(&self) -> (r: usize)
        ensures
            r == self.tasks().len(),
    {
        self.task_pool.len()
    }

    pub fn is_empty(&self) -> (r: bool)
        ensures
            r == (self.tasks().len() == 0),
    {
        self.task_pool.len() == 0
    }

    /// Where task `tid` stands, if it is in the pool.
    pub fn position(&self, tid: TaskId) -> (r: Option<usize>)
        ensures
            r matches Some(i) ==> i < self.tasks().len() && self.tasks()[i as int].tid == tid,
            r is None ==> !self.holds(tid),
    {
        let mut i: usize = 0;
        while i < self.task_pool.len()
            invariant
                i <= self.task_pool@.len(),
                forall|j: int| 0 <= j < i ==> self.task_pool@[j].tid != tid,
            decreases self.task_pool@.len() - i,
        {
            if self.task_pool[i].tid == tid {
                return Some(i);
            }
            i = i + 1;
        }
        None
    }

    /// Task `tid`, if it is in the pool.
    pub fn get_task(&self, tid: TaskId) -> (r: Option<&Task>)
        ensures
            r is None <==> !self.holds(tid),
            r matches Some(t) ==> exists|i: int| 0 <= i < self.tasks().len() && self.tasks()[i] == *t && t.tid == tid,
    {
        match self.position(tid) {
            Some(i) => Some(&self.task_pool[i]),
            None => None,
        }
    }

    /// Adds `task`, in place of the task with the same id if there is one.
    pub fn add_task(&mut self, task: Task)
        requires
            old(self).wf(),
        ensures
            final(self).wf(),
            old(self).holds(task.tid) ==> exists|i: int|
                0 <= i < old(self).tasks().len() && old(self).tasks()[i].tid == task.tid && final(self).tasks()
                    == old(self).tasks().update(i, task),
            !old(self).holds(task.tid) ==> final(self).tasks() == old(self).tasks().push(task),
            forall|u: TaskId| #[trigger] final(self).holds(u) <==> old(self).holds(u) || u == task.tid,
    {
        match self.position(task.tid) {
            Some(i) => {
                self.task_pool.set(i, task);
                proof {
                    let o = old(self).tasks();
                    assert forall|u: TaskId| #[trigger] self.holds(u) <==> old(self).holds(u) || u == task.tid by {
                        if old(self).holds(u) {
                            let k = choose|k: int| 0 <= k < o.len() && o[k].tid == u;
                            if k != i {
                                assert(self.tasks()[k] == o[k]);
                            }
                        }
                        if self.holds(u) {
                            let k = choose|k: int| 0 <= k < self.tasks().len() && self.tasks()[k].tid == u;
                            if k != i {
                                assert(self.tasks()[k] == o[k]);
                            }
                        }
                        if u == task.tid {
                            assert(self.tasks()[i as int].tid == u);
                        }
                    }
                    assert forall|a: int, b: int| 0 <= a < b < self.tasks().len() implies #[trigger] self.tasks()[a].tid
                        != #[trigger] self.tasks()[b].tid by {
                        if a == i as int {
                            assert(o[a].tid != o[b].tid);
                        } else if b == i as int {
                            assert(o[a].tid != o[b].tid);
                        } else {
                            assert(o[a].tid != o[b].tid);
                        }
                    }
                }
            },
            None => {
                self.task_pool.push(task);
                proof {
                    let o = old(self).tasks();
                    assert forall|u: TaskId| #[trigger] self.holds(u) <==> old(self).holds(u) || u == task.tid by {
                        if old(self).holds(u) {
                            let k = choose|k: int| 0 <= k < o.len() && o[k].tid == u;
                            assert(self.tasks()[k] == o[k]);
                        }
                        if self.holds(u) {
                            let k = choose|k: int| 0 <= k < self.tasks().len() && self.tasks()[k].tid == u;
                            if k < o.len() {
                                assert(self.tasks()[k] == o[k]);
                            }
                        }
                        if u == task.tid {
                            assert(self.tasks()[o.len() as int].tid == u);
                        }
                    }
                    assert forall|a: int, b: int| 0 <= a < b < self.tasks().len() implies #[trigger] self.tasks()[a].tid
                        != #[trigger] self.tasks()[b].tid by {
                        if b == o.len() {
                            assert(o[a].tid != task.tid);
                        } else {
                            assert(o[a].tid != o[b].tid);
                        }
                    }
                }
            },
        }
    }

    /// Takes task `tid` out of the pool.
    pub fn remove_task(&mut self, tid: TaskId) -> (r: Option<Task>)
        requires
            old(self).wf(),
        ensures
            final(self).wf(),
            r is None <==> !old(self).holds(tid),
            r is None ==> final(self).tasks() == old(self).tasks(),
            r matches Some(t) ==> t.tid == tid && exists|i: int|
                0 <= i < old(self).tasks().len() && old(self).tasks()[i] == t && final(self).tasks()
                    == old(self).tasks().remove(i),
            forall|u: TaskId| u != tid ==> (final(self).holds(u) <==> old(self).holds(u)),
            !final(self).holds(tid),
    {
        match self.position(tid) {
            Some(i) => {
                let t = self.task_pool.remove(i);
                proof {
                    let o = old(self).tasks();
                    assert(!self.holds(tid)) by {
                        if self.holds(tid) {
                            let k = choose|k: int| 0 <= k < self.tasks().len() && self.tasks()[k].tid == tid;
                            if k < i {
                                assert(o[k].tid == o[i as int].tid);
                            } else {
                                assert(o[k + 1].tid == o[i as int].tid);
                            }
                        }
                    }
                    assert forall|u: TaskId| u != tid implies (self.holds(u) <==> old(self).holds(u)) by {
                        if old(self).holds(u) {
                            let k = choose|k: int| 0 <= k < o.len() && o[k].tid == u;
                            if k < i {
                                assert(self.tasks()[k].tid == u);
                            } else {
                                assert(self.tasks()[k - 1].tid == u);
                            }
                        }
                    }
                }
                Some(t)
            },
            None => None,
        }
    }
}

} // verus!
