use crate::graph::{
    deref, height, lemma_deref, lemma_deref_ends, lemma_deref_height, lemma_height_edge,
    lemma_spine, live, node_closed, ranked, rhs, spine, Graph, PROGRAM_AREA_END,
};
use crate::heap::{first_free, lemma_first_free, lemma_placed};
use crate::machine::{
    head_step, lemma_head_step, lemma_run, lemma_run_under_inc, lemma_step_i, lemma_step_inc,
    lemma_step_k, lemma_step_s, lemma_whnf, run, whnf, Status, Step, Store,
};
use vstd::prelude::*;

verus! {

/// The heap of graph nodes and the cursor from which the next free slot is
/// looked for.
pub struct Runner {
    memory: Vec<Graph>,
    fresh_id: usize,
}

impl Runner {
    /// The nodes, by address.
    pub closed spec fn heap(&self) -> Seq<Graph> {
        self.memory@
    }

    /// Where the search for a free slot starts.
    pub closed spec fn fresh(&self) -> nat {
        self.fresh_id as nat
    }

    /// The heap and the cursor together.
    pub open spec fn store(&self) -> Store {
        Store { mem: self.heap(), fresh: self.fresh() }
    }

    /// The invariant of the heap holds and the cursor lies in it.
    pub open spec fn wf(&self) -> bool {
        self.store().wf()
    }

    /// A heap that holds the five primitives and nothing else.
    pub fn new() -> (r: Self)
        ensures
            r.wf(),
            r.heap() == seq![Graph::S, Graph::K, Graph::I, Graph::Inc, Graph::Num(0)],
            r.fresh() == PROGRAM_AREA_END,
    {
        let r = Self {
            memory: vec![Graph::S, Graph::K, Graph::I, Graph::Inc, Graph::Num(0)],
            fresh_id: PROGRAM_AREA_END,
        };
        proof {
            let h = r.memory@;
            let rank = Seq::new(5, |i: int| 0nat);
            assert(ranked(h, rank));
        }
        r
    }

    /// The number of slots, free ones included.
    pub fn len(&self) -> (n: usize)
        ensures
            n == self.heap().len(),
    {
        self.memory.len()
    }

    /// The node at `addr`.
    pub fn get(&self, addr: usize) -> (g: Graph)
        requires
            addr < self.heap().len(),
        ensures
            g == self.heap()[addr as int],
    {
        self.memory[addr]
    }

    /// Overwrites the node at `addr`.
    pub fn set(&mut self, addr: usize, graph: Graph)
        requires
            addr < old(self).heap().len(),
        ensures
            final(self).store() == old(self).store().set(addr, graph),
    {
        self.memory[addr] = graph;
    }

    /// Moves the cursor back to the first slot past the primitives.
    pub(crate) fn reset_cursor(&mut self)
        ensures
            final(self).heap() == old(self).heap(),
            final(self).fresh() == PROGRAM_AREA_END,
    {
        self.fresh_id = PROGRAM_AREA_END;
    }

    /// Stores `graph` in the first free slot at or after the cursor, or at
    /// the end of the heap, and moves the cursor past it.
    #[verifier::loop_isolation(false)]
    pub fn push(&mut self, graph: Graph) -> (id: usize)
        requires
            old(self).wf(),
            node_closed(old(self).heap(), graph),
        ensures
            final(self).wf(),
            id == old(self).store().slot(),
            final(self).store() == old(self).store().place(graph),
    {
        proof {
            lemma_placed(self.heap(), self.fresh(), graph);
            lemma_first_free(self.heap(), self.fresh());
        }
        let n = self.memory.len();
        let mut i = self.fresh_id;
        while i < n
            invariant
                self.fresh_id <= i <= n,
                n == self.memory@.len(),
                self.memory@ == old(self).memory@,
                self.fresh_id == old(self).fresh_id,
                first_free(self.memory@, self.fresh_id as nat) == first_free(
                    self.memory@,
                    i as nat,
                ),
            decreases n - i,
        {
            if self.memory[i] == Graph::Free {
                self.memory[i] = graph;
                self.fresh_id = i + 1;
                return i;
            }
            i += 1;
        }
        self.memory.push(graph);
        self.fresh_id = self.memory.len();
        n
    }

    /// Follows links from `expr` to the node that it stands for.
    pub fn follow_link(&self, expr: usize) -> (d: usize)
        requires
            self.wf(),
            expr < self.heap().len(),
        ensures
            d == deref(self.heap(), expr),
            d < self.heap().len(),
            !(self.heap()[d as int] is Link),
            live(self.heap(), expr) ==> live(self.heap(), d),
    {
        let mut cur = expr;
        proof {
            lemma_deref_ends(self.heap(), expr);
        }
        loop
            invariant
                self.wf(),
                cur < self.heap().len(),
                deref(self.heap(), cur) == deref(self.heap(), expr),
            ensures
                cur == deref(self.heap(), expr),
            decreases height(self.heap(), cur),
        {
            match self.memory[cur] {
                Graph::Link(t) => {
                    proof {
                        lemma_height_edge(self.heap(), cur, t);
                        assert(node_closed(self.heap(), self.heap()[cur as int]));
                    }
                    cur = t;
                },
                _ => {
                    break ;
                },
            }
        }
        cur
    }

    /// The argument of the application at `expr_id`.
    pub fn get_rhs(&self, expr_id: usize) -> (x: usize)
        requires
            expr_id < self.heap().len(),
            self.heap()[expr_id as int] is Apply,
        ensures
            x == rhs(self.heap(), expr_id),
    {
        match self.memory[expr_id] {
            Graph::Apply(_, x) => x,
            _ => expr_id,
        }
    }

    /// Appends the spine of `id` to `stack`, head last.
    pub fn spine(&self, id: usize, stack: &mut Vec<usize>)
        requires
            self.wf(),
            id < self.heap().len(),
        ensures
            final(stack)@ == old(stack)@ + spine(self.heap(), id),
    {
        let mut cur = id;
        loop
            invariant_except_break
                cur < self.heap().len(),
                old(stack)@ + spine(self.heap(), id) == stack@ + spine(self.heap(), cur),
            invariant
                self.wf(),
            ensures
                stack@ == old(stack)@ + spine(self.heap(), id),
            decreases height(self.heap(), cur),
        {
            let ghost before = stack@;
            let d = self.follow_link(cur);
            stack.push(d);
            match self.memory[d] {
                Graph::Apply(l, _) => {
                    proof {
                        let h = self.heap();
                        lemma_deref_height(h, cur);
                        lemma_height_edge(h, d, l);
                        assert(node_closed(h, h[d as int]));
                        assert(before + (seq![d] + spine(h, l)) =~= before.push(d) + spine(h, l));
                    }
                    cur = l;
                },
                _ => {
                    proof {
                        assert(before + seq![d] =~= before.push(d));
                    }
                    break ;
                },
            }
        }
    }

    /// Contracts the `S` redex at the head of the spine of `start`, which
    /// `stack` holds, and leaves in `stack` the spine after the step.
    fn fire_s(&mut self, start: usize, stack: &mut Vec<usize>)
        requires
            old(self).wf(),
            live(old(self).heap(), start),
            old(stack)@ == spine(old(self).heap(), start),
            old(stack)@.len() >= 4,
            old(self).heap()[old(stack)@.last() as int] == Graph::S,
            old(self).heap().len() + 2 <= usize::MAX,
        ensures
            final(self).wf(),
            live(final(self).heap(), start),
            head_step(old(self).store(), start) == Step::Next(final(self).store()),
            final(stack)@ == spine(final(self).heap(), start),
    {
        proof {
            lemma_spine(self.heap(), start);
            lemma_step_s(self.store(), start);
        }
        let n = stack.len();
        let r1 = stack[n - 2];
        let r2 = stack[n - 3];
        let r3 = stack[n - 4];
        let x = self.get_rhs(r1);
        let y = self.get_rhs(r2);
        let z = self.get_rhs(r3);
        let left = self.push(Graph::Apply(x, z));
        let right = self.push(Graph::Apply(y, z));
        self.memory[r3] = Graph::Apply(left, right);
        stack.truncate(n - 4);
        self.spine(r3, stack);
    }

    /// Contracts the `K` redex at the head of the spine of `start`, which
    /// `stack` holds, and leaves in `stack` the spine after the step.
    fn fire_k(&mut self, start: usize, stack: &mut Vec<usize>)
        requires
            old(self).wf(),
            live(old(self).heap(), start),
            old(stack)@ == spine(old(self).heap(), start),
            old(stack)@.len() >= 3,
            old(self).heap()[old(stack)@.last() as int] == Graph::K,
        ensures
            final(self).wf(),
            live(final(self).heap(), start),
            head_step(old(self).store(), start) == Step::Next(final(self).store()),
            final(stack)@ == spine(final(self).heap(), start),
    {
        proof {
            lemma_spine(self.heap(), start);
            lemma_step_k(self.store(), start);
        }
        let n = stack.len();
        let r1 = stack[n - 2];
        let r2 = stack[n - 3];
        let x = self.get_rhs(r1);
        self.memory[r2] = Graph::Link(x);
        stack.truncate(n - 3);
        self.spine(r2, stack);
    }

    /// Contracts the `I` redex at the head of the spine of `start`, which
    /// `stack` holds, and leaves in `stack` the spine after the step.
    fn fire_i(&mut self, start: usize, stack: &mut Vec<usize>)
        requires
            old(self).wf(),
            live(old(self).heap(), start),
            old(stack)@ == spine(old(self).heap(), start),
            old(stack)@.len() >= 2,
            old(self).heap()[old(stack)@.last() as int] == Graph::I,
        ensures
            final(self).wf(),
            live(final(self).heap(), start),
            head_step(old(self).store(), start) == Step::Next(final(self).store()),
            final(stack)@ == spine(final(self).heap(), start),
    {
        proof {
            lemma_spine(self.heap(), start);
            lemma_step_i(self.store(), start);
        }
        let n = stack.len();
        let r = stack[n - 2];
        let x = self.get_rhs(r);
        self.memory[r] = Graph::Link(x);
        stack.truncate(n - 2);
        self.spine(r, stack);
    }

    /// Overwrites the application of `Inc` at the head of the spine of
    /// `start` with the successor of `v`, the number that its argument has
    /// been reduced to, and leaves in `stack` the spine after the step.
    fn fire_inc(&mut self, start: usize, stack: &mut Vec<usize>, v: u16)
        requires
            old(self).wf(),
            live(old(self).heap(), start),
            old(stack)@ == spine(old(self).heap(), start),
            old(stack)@.len() >= 2,
            old(self).heap()[old(stack)@.last() as int] == Graph::Inc,
            v < u16::MAX,
            ({
                let h = old(self).heap();
                let t = rhs(h, old(stack)@[old(stack)@.len() - 2]);
                head_step(old(self).store(), t) == Step::Stop(Status::Whnf) && h[deref(h, t) as int]
                    == Graph::Num(v)
            }),
        ensures
            final(self).wf(),
            live(final(self).heap(), start),
            head_step(old(self).store(), start) == Step::Next(final(self).store()),
            final(stack)@ == spine(final(self).heap(), start),
    {
        proof {
            lemma_spine(self.heap(), start);
            lemma_step_inc(self.store(), start, v);
        }
        let n = stack.len();
        let r = stack[n - 2];
        self.memory[r] = Graph::Num(v + 1);
        stack.truncate(n - 1);
    }

    /// Reduces the graph at `start` towards weak head normal form, making at
    /// most `fuel` head steps, and returns why it stopped and how much of
    /// `fuel` is left.
    #[verifier::loop_isolation(false)]
    pub fn reduce(&mut self, start: usize, fuel: u64) -> (res: (Status, u64))
        requires
            old(self).wf(),
            live(old(self).heap(), start),
        ensures
            final(self).wf(),
            final(self).store() == run(old(self).store(), start, fuel as nat).store,
            res.0 == run(old(self).store(), start, fuel as nat).status,
            res.1 == run(old(self).store(), start, fuel as nat).fuel,
            live(final(self).heap(), start),
            live(final(self).heap(), deref(final(self).heap(), start)),
            !(final(self).heap()[deref(final(self).heap(), start) as int] is Link),
            res.0 == Status::Whnf <==> whnf(final(self).heap(), start),
            res.0 == Status::OutOfFuel ==> res.1 == 0,
        decreases fuel, height(old(self).heap(), start),
    {
        let ghost s0 = self.store();
        let ghost fuel0 = fuel;
        let mut fuel = fuel;
        let mut stack: Vec<usize> = Vec::new();
        self.spine(start, &mut stack);
        proof {
            lemma_run(s0, start, fuel0 as nat);
            let o = run(s0, start, fuel0 as nat);
            lemma_whnf(o.store, start);
            lemma_deref(o.store.mem, start);
        }
        loop
            invariant
                self.wf(),
                live(self.heap(), start),
                stack@ == spine(self.heap(), start),
                run(s0, start, fuel0 as nat) == run(self.store(), start, fuel as nat),
                fuel <= fuel0,
                fuel == fuel0 ==> self.store() == s0,
            decreases fuel,
        {
            let ghost s = self.store();
            let ghost h = self.heap();
            proof {
                lemma_spine(h, start);
            }
            let n = stack.len();
            let f = stack[n - 1];
            match self.memory[f] {
                Graph::S => {
                    if n < 4 {
                        return (Status::Whnf, fuel);
                    }
                    if self.memory.len() > usize::MAX - 2 {
                        return (Status::Exhausted, fuel);
                    }
                    if fuel == 0 {
                        proof {
                            lemma_head_step(s, start);
                        }
                        return (Status::OutOfFuel, 0);
                    }
                    self.fire_s(start, &mut stack);
                    fuel = fuel - 1;
                },
                Graph::K => {
                    if n < 3 {
                        return (Status::Whnf, fuel);
                    }
                    if fuel == 0 {
                        proof {
                            lemma_head_step(s, start);
                        }
                        return (Status::OutOfFuel, 0);
                    }
                    self.fire_k(start, &mut stack);
                    fuel = fuel - 1;
                },
                Graph::I => {
                    if n < 2 {
                        return (Status::Whnf, fuel);
                    }
                    if fuel == 0 {
                        proof {
                            lemma_head_step(s, start);
                        }
                        return (Status::OutOfFuel, 0);
                    }
                    self.fire_i(start, &mut stack);
                    fuel = fuel - 1;
                },
                Graph::Inc => {
                    if n < 2 {
                        return (Status::Whnf, fuel);
                    }
                    let r = stack[n - 2];
                    let t = self.get_rhs(r);
                    proof {
                        lemma_run_under_inc(s, start, fuel as nat);
                        lemma_run(s, t, fuel as nat);
                    }
                    let (status, left) = self.reduce(t, fuel);
                    let ghost o = self.store();
                    match status {
                        Status::Whnf => {},
                        _ => {
                            return (status, left);
                        },
                    }
                    proof {
                        lemma_spine(o.mem, start);
                    }
                    let d = self.follow_link(t);
                    match self.memory[d] {
                        Graph::Num(v) => {
                            if v == u16::MAX {
                                return (Status::Overflow(r), left);
                            }
                            if left == 0 {
                                return (Status::OutOfFuel, 0);
                            }
                            self.fire_inc(start, &mut stack, v);
                            fuel = left - 1;
                        },
                        _ => {
                            return (Status::NotNumber(t), left);
                        },
                    }
                },
                Graph::Stdin => {
                    return (Status::Input(f), fuel);
                },
                _ => {
                    return (Status::Whnf, fuel);
                },
            }
        }
    }
}

} // verus!
