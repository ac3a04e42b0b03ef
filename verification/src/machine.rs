use crate::graph::{
    acyclic, closed, deref, height, lemma_deref, lemma_height_edge, lemma_rank_of, lemma_spine,
    lemma_spine_distinct, live, node_closed, node_ranked, rank_of, ranked, rhs, spine, wf, Graph,
    PROGRAM_AREA_END,
};
use crate::heap::{
    extends, first_free, frame, lemma_first_free, lemma_frame_live, lemma_placed, lemma_set_leaf,
    lemma_set_link, lemma_spine_cut, lemma_spine_same, placed,
};
use vstd::prelude::*;

verus! {

/// The state that reduction works on: the nodes by address, and the cursor
/// from which the next free slot is looked for.
pub struct Store {
    pub mem: Seq<Graph>,
    pub fresh: nat,
}

/// A store after something was built in it, and the address of what was
/// built.
pub struct Built {
    pub store: Store,
    pub at: usize,
}

impl Store {
    /// The heap is well formed and fits the address space, and the cursor
    /// lies past the primitives and in the heap.
    pub open spec fn wf(self) -> bool {
        &&& wf(self.mem)
        &&& PROGRAM_AREA_END <= self.fresh <= self.mem.len() <= usize::MAX
    }

    /// The address that the next stored node gets.
    pub open spec fn slot(self) -> usize {
        first_free(self.mem, self.fresh) as usize
    }

    /// The store after `g` was stored at `slot`.
    pub open spec fn place(self, g: Graph) -> Store {
        Store { mem: placed(self.mem, self.fresh, g), fresh: first_free(self.mem, self.fresh) + 1 }
    }

    /// The store after `g` was stored, with the address it got.
    pub open spec fn put(self, g: Graph) -> Built {
        Built { store: self.place(g), at: self.slot() }
    }

    /// The store after the node at `a` was overwritten with `g`.
    pub open spec fn set(self, a: usize, g: Graph) -> Store {
        Store { mem: self.mem.update(a as int, g), fresh: self.fresh }
    }
}

/// Why a reduction came to rest.
#[derive(Clone, Copy, Debug, PartialEq, Eq, Structural)]
pub enum Status {
    /// Weak head normal form: a number, or a primitive short of arguments.
    Whnf,
    /// The head is the unread input, at this address.
    Input(usize),
    /// `Inc` was applied to the node at this address, whose weak head normal
    /// form is no number.
    NotNumber(usize),
    /// `Inc` was applied to the largest number; the application is at this
    /// address.
    Overflow(usize),
    /// The next step needs two new nodes and the heap has no addresses left
    /// for them.
    Exhausted,
    /// The step budget ran out with a redex still at the head.
    OutOfFuel,
}

/// What one attempt at a head step gives: the store after the step, or the
/// reason why no step was made.
pub enum Step {
    Next(Store),
    Stop(Status),
}

/// One step of normal-order reduction towards the weak head normal form of
/// `root`.
///
/// The head of the spine decides. `I x` becomes a link to `x`, `K x y` a
/// link to `x`; `S x y z` is overwritten in place with `(x z) (y z)`, built
/// from two new nodes. `Inc t` first takes the steps of `t`; once `t` is in
/// weak head normal form and a number `v`, the application is overwritten
/// with `v + 1`.
pub open spec fn head_step(s: Store, root: usize) -> Step
    decreases height(s.mem, root),
{
    let h = s.mem;
    let sp = spine(h, root);
    let n = sp.len() as int;
    let head = sp[n - 1];
    if !(closed(h) && acyclic(h) && live(h, root)) {
        Step::Stop(Status::Whnf)
    } else {
        match h[head as int] {
            Graph::I => if n >= 2 {
                let r = sp[n - 2];
                Step::Next(s.set(r, Graph::Link(rhs(h, r))))
            } else {
                Step::Stop(Status::Whnf)
            },
            Graph::K => if n >= 3 {
                let r1 = sp[n - 2];
                let r2 = sp[n - 3];
                Step::Next(s.set(r2, Graph::Link(rhs(h, r1))))
            } else {
                Step::Stop(Status::Whnf)
            },
            Graph::S => if n >= 4 {
                if h.len() + 2 > usize::MAX {
                    Step::Stop(Status::Exhausted)
                } else {
                    let x = rhs(h, sp[n - 2]);
                    let y = rhs(h, sp[n - 3]);
                    let z = rhs(h, sp[n - 4]);
                    let s1 = s.place(Graph::Apply(x, z));
                    let s2 = s1.place(Graph::Apply(y, z));
                    Step::Next(s2.set(sp[n - 4], Graph::Apply(s.slot(), s1.slot())))
                }
            } else {
                Step::Stop(Status::Whnf)
            },
            Graph::Inc => if n >= 2 {
                let r = sp[n - 2];
                let t = rhs(h, r);
                proof {
                    lemma_spine(h, root);
                    lemma_height_edge(h, r, t);
                }
                match head_step(s, t) {
                    Step::Stop(Status::Whnf) => match h[deref(h, t) as int] {
                        Graph::Num(v) => if v < u16::MAX {
                            Step::Next(s.set(r, Graph::Num((v + 1) as u16)))
                        } else {
                            Step::Stop(Status::Overflow(r))
                        },
                        _ => Step::Stop(Status::NotNumber(t)),
                    },
                    other => other,
                }
            } else {
                Step::Stop(Status::Whnf)
            },
            Graph::Stdin => Step::Stop(Status::Input(head)),
            _ => Step::Stop(Status::Whnf),
        }
    }
}

/// The node that `head_step` overwrites.
pub open spec fn redex(s: Store, root: usize) -> usize
    decreases height(s.mem, root),
{
    let h = s.mem;
    let sp = spine(h, root);
    let n = sp.len() as int;
    if !(closed(h) && acyclic(h) && live(h, root)) {
        root
    } else {
        match h[sp[n - 1] as int] {
            Graph::I => sp[n - 2],
            Graph::K => sp[n - 3],
            Graph::S => sp[n - 4],
            Graph::Inc => if n >= 2 {
                let r = sp[n - 2];
                let t = rhs(h, r);
                proof {
                    lemma_spine(h, root);
                    lemma_height_edge(h, r, t);
                }
                match head_step(s, t) {
                    Step::Stop(_) => r,
                    _ => redex(s, t),
                }
            } else {
                root
            },
            _ => root,
        }
    }
}

/// Where a reduction stands when it comes to rest.
pub struct Outcome {
    pub store: Store,
    pub status: Status,
    /// What is left of the step budget.
    pub fuel: nat,
}

/// Head steps on `root`, one after the other, until none can be made or
/// `fuel` steps were made and one more is due.
pub open spec fn run(s: Store, root: usize, fuel: nat) -> Outcome
    decreases fuel,
{
    match head_step(s, root) {
        Step::Stop(status) => Outcome { store: s, status, fuel },
        Step::Next(s2) => if fuel == 0 {
            Outcome { store: s, status: Status::OutOfFuel, fuel: 0 }
        } else {
            run(s2, root, (fuel - 1) as nat)
        },
    }
}

/// What a step from `s` to `s2` that rewrites the node `m` keeps: the
/// invariant, every live node but `m`, and `m` in use.
pub open spec fn step_ok(s: Store, s2: Store, m: usize) -> bool {
    &&& s2.wf()
    &&& frame(s.mem, s2.mem, m)
    &&& live(s.mem, m)
    &&& s.mem[m as int] is Apply
    &&& live(s2.mem, m)
}

/// Storing a node keeps the invariant, as long as the heap still fits the
/// address space, and keeps every live node.
pub proof fn lemma_place(s: Store, g: Graph)
    requires
        s.wf(),
        node_closed(s.mem, g),
    ensures
        s.place(g).mem.len() <= usize::MAX ==> s.place(g).wf(),
        wf(s.place(g).mem),
        extends(s.mem, s.place(g).mem),
        !live(s.mem, s.slot()),
        live(s.place(g).mem, s.slot()) || g == Graph::Free,
        s.slot() >= PROGRAM_AREA_END,
        s.slot() < s.mem.len() ==> s.mem[s.slot() as int] == Graph::Free,
        s.slot() <= s.mem.len(),
        s.place(g).mem[s.slot() as int] == g,
        s.place(g).mem.len() == if s.slot() < s.mem.len() {
            s.mem.len()
        } else {
            s.mem.len() + 1
        },
        forall|a: usize|
            a != s.slot() && a < s.mem.len() ==> #[trigger] s.place(g).mem[a as int]
                == s.mem[a as int],
{
    lemma_placed(s.mem, s.fresh, g);
    lemma_first_free(s.mem, s.fresh);
    if live(s.mem, s.slot()) {
        assert(s.slot() != first_free(s.mem, s.fresh));
    }
}

/// Overwriting the third application of an `S` redex with `(x z) (y z)`,
/// built from two new nodes, keeps the invariant and every other live node.
proof fn lemma_s_rewrite(s: Store, r1: usize, r2: usize, r3: usize)
    requires
        s.wf(),
        s.mem.len() + 2 <= usize::MAX,
        live(s.mem, r1),
        live(s.mem, r2),
        live(s.mem, r3),
        s.mem[r1 as int] is Apply,
        s.mem[r2 as int] is Apply,
        s.mem[r3 as int] is Apply,
        height(s.mem, r1) < height(s.mem, r2) < height(s.mem, r3),
    ensures
        ({
            let h = s.mem;
            let s1 = s.place(Graph::Apply(rhs(h, r1), rhs(h, r3)));
            let s2 = s1.place(Graph::Apply(rhs(h, r2), rhs(h, r3)));
            let s3 = s2.set(r3, Graph::Apply(s.slot(), s1.slot()));
            &&& step_ok(s, s3, r3)
            &&& s1.wf()
            &&& s2.wf()
            &&& node_closed(h, Graph::Apply(rhs(h, r1), rhs(h, r3)))
            &&& node_closed(s1.mem, Graph::Apply(rhs(h, r2), rhs(h, r3)))
            &&& r3 < s2.mem.len()
            &&& !live(h, s.slot())
            &&& !live(h, s1.slot())
            &&& s.slot() != s1.slot()
            &&& s3.mem[s.slot() as int] == Graph::Apply(rhs(h, r1), rhs(h, r3))
            &&& s3.mem[s1.slot() as int] == Graph::Apply(rhs(h, r2), rhs(h, r3))
            &&& s3.mem[r3 as int] == Graph::Apply(s.slot(), s1.slot())
            &&& s3.mem.len() <= h.len() + 2
        }),
{
    let h = s.mem;
    let x = rhs(h, r1);
    let y = rhs(h, r2);
    let z = rhs(h, r3);
    assert(node_closed(h, h[r1 as int]));
    assert(node_closed(h, h[r2 as int]));
    assert(node_closed(h, h[r3 as int]));
    lemma_height_edge(h, r1, x);
    lemma_height_edge(h, r2, y);
    lemma_height_edge(h, r3, z);
    let ga = Graph::Apply(x, z);
    let gb = Graph::Apply(y, z);
    let s1 = s.place(ga);
    let a = s.slot();
    lemma_place(s, ga);
    let h1 = s1.mem;
    let s2 = s1.place(gb);
    let b = s1.slot();
    assert(live(h1, y) && live(h1, z)) by {
        assert(h1[y as int] == h[y as int]);
        assert(h1[z as int] == h[z as int]);
    }
    lemma_place(s1, gb);
    let h2 = s2.mem;
    assert(h2[a as int] == ga);
    assert(h2[b as int] == gb);
    // The heap with both new nodes linked in under `r3` is ranked by the
    // old rank doubled, the new nodes in between.
    let s3 = s2.set(r3, Graph::Apply(a, b));
    let h3 = s3.mem;
    lemma_rank_of(h);
    let rank = rank_of(h);
    let top = 2 * rank[r3 as int] + 1;
    let rank3 = Seq::new(
        h3.len(),
        |i: int|
            if i == a || i == b {
                top as nat
            } else if i < h.len() {
                (2 * rank[i] + 2) as nat
            } else {
                0nat
            },
    );
    assert forall|i: int| 0 <= i < h3.len() implies node_closed(h3, #[trigger] h3[i]) && node_ranked(
        rank3,
        i,
        h3[i],
    ) by {
        if i == r3 {
        } else if i == a {
        } else if i == b {
        } else {
            assert(i < h.len());
            assert(h1[i as usize as int] == h[i]);
            assert(h2[i as usize as int] == h1[i]);
            assert(node_closed(h, h[i]));
            assert(node_ranked(rank, i, h[i]));
        }
    }
    assert(ranked(h3, rank3));
    assert(frame(h, h3, r3)) by {
        assert forall|q: usize| live(h, q) && q != r3 implies #[trigger] h3[q as int]
            == h[q as int] by {
            assert(h1[q as int] == h[q as int]);
            assert(h2[q as int] == h1[q as int]);
        }
    }
    assert(live(h2, r3)) by {
        assert(h1[r3 as int] == h[r3 as int]);
        assert(h2[r3 as int] == h1[r3 as int]);
    }
    assert(!live(h, b)) by {
        if live(h, b) {
            assert(h1[b as int] == h[b as int]);
        }
    }
}

/// The `S` step in full: the store it gives, and the spine after it.
pub proof fn lemma_step_s(s: Store, root: usize)
    requires
        s.wf(),
        live(s.mem, root),
        s.mem[spine(s.mem, root).last() as int] == Graph::S,
        spine(s.mem, root).len() >= 4,
        s.mem.len() + 2 <= usize::MAX,
    ensures
        ({
            let h = s.mem;
            let sp = spine(h, root);
            let n = sp.len() as int;
            let r3 = sp[n - 4];
            let s1 = s.place(Graph::Apply(rhs(h, sp[n - 2]), rhs(h, r3)));
            let s2 = s1.place(Graph::Apply(rhs(h, sp[n - 3]), rhs(h, r3)));
            let s3 = s2.set(r3, Graph::Apply(s.slot(), s1.slot()));
            &&& head_step(s, root) == Step::Next(s3)
            &&& redex(s, root) == r3
            &&& step_ok(s, s3, r3)
            &&& height(h, r3) <= height(h, root)
            &&& live(s3.mem, root)
            &&& spine(s3.mem, root) == sp.take(n - 4) + spine(s3.mem, r3)
            &&& s1.wf()
            &&& s2.wf()
            &&& node_closed(h, Graph::Apply(rhs(h, sp[n - 2]), rhs(h, r3)))
            &&& node_closed(s1.mem, Graph::Apply(rhs(h, sp[n - 3]), rhs(h, r3)))
            &&& r3 < s2.mem.len()
            &&& !live(h, s.slot())
            &&& !live(h, s1.slot())
            &&& s.slot() != s1.slot()
            &&& s3.mem[s.slot() as int] == Graph::Apply(rhs(h, sp[n - 2]), rhs(h, r3))
            &&& s3.mem[s1.slot() as int] == Graph::Apply(rhs(h, sp[n - 3]), rhs(h, r3))
            &&& s3.mem[r3 as int] == Graph::Apply(s.slot(), s1.slot())
            &&& s3.mem.len() <= h.len() + 2
        }),
{
    let h = s.mem;
    let sp = spine(h, root);
    let n = sp.len() as int;
    let r1 = sp[n - 2];
    let r2 = sp[n - 3];
    let r3 = sp[n - 4];
    assert(live(h, r1) && live(h, r2) && live(h, r3) && (h[r1 as int] is Apply) && (h[r2 as int] is Apply)
        && (h[r3 as int] is Apply) && height(h, r1) < height(h, r2) < height(h, r3) && height(
        h,
        r3,
    ) <= height(h, root)) by {
        lemma_spine(h, root);
        assert(sp[n - 4 + 1] == r2 && sp[n - 3 + 1] == r1);
    }
    lemma_s_rewrite(s, r1, r2, r3);
    let s1 = s.place(Graph::Apply(rhs(h, r1), rhs(h, r3)));
    let s2 = s1.place(Graph::Apply(rhs(h, r2), rhs(h, r3)));
    let s3 = s2.set(r3, Graph::Apply(s.slot(), s1.slot()));
    assert(head_step(s, root) == Step::Next(s3));
    assert(redex(s, root) == r3);
    lemma_frame_live(h, s3.mem, r3, root);
    lemma_spine_cut(h, s3.mem, root, n - 4);
}

/// The `K` step in full: the store it gives, and the spine after it.
pub proof fn lemma_step_k(s: Store, root: usize)
    requires
        s.wf(),
        live(s.mem, root),
        s.mem[spine(s.mem, root).last() as int] == Graph::K,
        spine(s.mem, root).len() >= 3,
    ensures
        ({
            let h = s.mem;
            let sp = spine(h, root);
            let n = sp.len() as int;
            let r2 = sp[n - 3];
            let s2 = s.set(r2, Graph::Link(rhs(h, sp[n - 2])));
            &&& head_step(s, root) == Step::Next(s2)
            &&& redex(s, root) == r2
            &&& step_ok(s, s2, r2)
            &&& height(h, r2) <= height(h, root)
            &&& live(s2.mem, root)
            &&& spine(s2.mem, root) == sp.take(n - 3) + spine(s2.mem, r2)
        }),
{
    let h = s.mem;
    let sp = spine(h, root);
    let n = sp.len() as int;
    lemma_spine(h, root);
    let r1 = sp[n - 2];
    let r2 = sp[n - 3];
    let x = rhs(h, r1);
    assert(node_closed(h, h[r1 as int]));
    lemma_height_edge(h, r1, x);
    assert(height(h, sp[n - 3 + 1]) < height(h, sp[n - 3]));
    lemma_set_link(h, r2, x);
    let s2 = s.set(r2, Graph::Link(x));
    lemma_frame_live(h, s2.mem, r2, root);
    lemma_spine_cut(h, s2.mem, root, n - 3);
}

/// The `I` step in full: the store it gives, and the spine after it.
pub proof fn lemma_step_i(s: Store, root: usize)
    requires
        s.wf(),
        live(s.mem, root),
        s.mem[spine(s.mem, root).last() as int] == Graph::I,
        spine(s.mem, root).len() >= 2,
    ensures
        ({
            let h = s.mem;
            let sp = spine(h, root);
            let n = sp.len() as int;
            let r = sp[n - 2];
            let s2 = s.set(r, Graph::Link(rhs(h, r)));
            &&& head_step(s, root) == Step::Next(s2)
            &&& redex(s, root) == r
            &&& step_ok(s, s2, r)
            &&& height(h, r) <= height(h, root)
            &&& live(s2.mem, root)
            &&& spine(s2.mem, root) == sp.take(n - 2) + spine(s2.mem, r)
        }),
{
    let h = s.mem;
    let sp = spine(h, root);
    let n = sp.len() as int;
    lemma_spine(h, root);
    let r = sp[n - 2];
    let x = rhs(h, r);
    assert(node_closed(h, h[r as int]));
    lemma_height_edge(h, r, x);
    lemma_set_link(h, r, x);
    let s2 = s.set(r, Graph::Link(x));
    lemma_frame_live(h, s2.mem, r, root);
    lemma_spine_cut(h, s2.mem, root, n - 2);
}

/// The step that completes `Inc`, in full: the store it gives, and the
/// spine after it.
pub proof fn lemma_step_inc(s: Store, root: usize, v: u16)
    requires
        s.wf(),
        live(s.mem, root),
        s.mem[spine(s.mem, root).last() as int] == Graph::Inc,
        spine(s.mem, root).len() >= 2,
        v < u16::MAX,
        ({
            let t = rhs(s.mem, spine(s.mem, root)[spine(s.mem, root).len() - 2]);
            head_step(s, t) == Step::Stop(Status::Whnf) && s.mem[deref(s.mem, t) as int]
                == Graph::Num(v)
        }),
    ensures
        ({
            let h = s.mem;
            let sp = spine(h, root);
            let n = sp.len() as int;
            let r = sp[n - 2];
            let s2 = s.set(r, Graph::Num((v + 1) as u16));
            &&& head_step(s, root) == Step::Next(s2)
            &&& redex(s, root) == r
            &&& step_ok(s, s2, r)
            &&& height(h, r) <= height(h, root)
            &&& live(s2.mem, root)
            &&& spine(s2.mem, root) == sp.take(n - 1)
        }),
{
    let h = s.mem;
    let sp = spine(h, root);
    let n = sp.len() as int;
    let r = sp[n - 2];
    let g = Graph::Num((v + 1) as u16);
    let s2 = s.set(r, g);
    assert(live(h, r) && h[r as int] is Apply && r >= PROGRAM_AREA_END && height(h, r) <= height(
        h,
        root,
    )) by {
        lemma_spine(h, root);
        assert(sp[n - 2] == r);
    }
    assert(head_step(s, root) == Step::Next(s2));
    assert(redex(s, root) == r);
    lemma_set_leaf(h, r, g);
    lemma_frame_live(h, s2.mem, r, root);
    lemma_spine_cut(h, s2.mem, root, n - 2);
    assert(spine(s2.mem, r) == seq![r]) by {
        assert(deref(s2.mem, r) == r);
    }
    assert(sp.take(n - 1) =~= sp.take(n - 2) + seq![r]);
}

/// A head step keeps the invariant and rewrites one application, which lies
/// no higher than `root`; where no step is made, the status names a live
/// node of the kind it speaks of.
pub proof fn lemma_head_step(s: Store, root: usize)
    requires
        s.wf(),
        live(s.mem, root),
    ensures
        match head_step(s, root) {
            Step::Next(s2) => step_ok(s, s2, redex(s, root)) && height(s.mem, redex(s, root))
                <= height(s.mem, root),
            Step::Stop(Status::Input(f)) => f < s.mem.len() && s.mem[f as int] == Graph::Stdin,
            Step::Stop(Status::NotNumber(t)) => live(s.mem, t),
            Step::Stop(Status::Overflow(r)) => live(s.mem, r),
            Step::Stop(Status::OutOfFuel) => false,
            _ => true,
        },
    decreases height(s.mem, root),
{
    let h = s.mem;
    let sp = spine(h, root);
    let n = sp.len() as int;
    lemma_spine(h, root);
    let head = sp[n - 1];
    match h[head as int] {
        Graph::I => {
            if n >= 2 {
                lemma_step_i(s, root);
            }
        },
        Graph::K => {
            if n >= 3 {
                lemma_step_k(s, root);
            }
        },
        Graph::S => {
            if n >= 4 && h.len() + 2 <= usize::MAX {
                lemma_step_s(s, root);
            }
        },
        Graph::Inc => {
            if n >= 2 {
                let r = sp[n - 2];
                let t = rhs(h, r);
                assert(node_closed(h, h[r as int]));
                lemma_height_edge(h, r, t);
                lemma_head_step(s, t);
                match head_step(s, t) {
                    Step::Stop(Status::Whnf) => {
                        lemma_deref(h, t);
                        match h[deref(h, t) as int] {
                            Graph::Num(v) => {
                                if v < u16::MAX {
                                    lemma_step_inc(s, root, v);
                                }
                            },
                            _ => {},
                        }
                    },
                    _ => {},
                }
            }
        },
        _ => {},
    }
}

/// `a` stands for a number, or for a primitive applied to fewer arguments
/// than it needs.
pub open spec fn whnf(h: Seq<Graph>, a: usize) -> bool {
    let sp = spine(h, a);
    let args = sp.len() - 1;
    match h[sp.last() as int] {
        Graph::S => args < 3,
        Graph::K => args < 2,
        Graph::I => args < 1,
        Graph::Inc => args < 1,
        Graph::Num(_) => true,
        _ => false,
    }
}

/// No head step is due exactly at a weak head normal form.
pub proof fn lemma_whnf(s: Store, root: usize)
    requires
        s.wf(),
        live(s.mem, root),
    ensures
        head_step(s, root) == Step::Stop(Status::Whnf) <==> whnf(s.mem, root),
{
    lemma_spine(s.mem, root);
}

/// What a reduction keeps, and what its status says of the store it ends
/// in: any status but `OutOfFuel` is the reason why no head step can be
/// made there, and `OutOfFuel` comes with a step still due.
pub proof fn lemma_run(s: Store, root: usize, fuel: nat)
    requires
        s.wf(),
        live(s.mem, root),
    ensures
        ({
            let o = run(s, root, fuel);
            &&& o.store.wf()
            &&& o.fuel <= fuel
            &&& s.mem.len() <= o.store.mem.len()
            &&& forall|a: usize| live(s.mem, a) ==> live(o.store.mem, a)
            &&& o.status != Status::OutOfFuel ==> head_step(o.store, root) == Step::Stop(
                o.status,
            )
            &&& o.status == Status::OutOfFuel ==> o.fuel == 0 && head_step(o.store, root) is Next
            &&& o.fuel == fuel ==> o.store == s
        }),
    decreases fuel,
{
    lemma_head_step(s, root);
    match head_step(s, root) {
        Step::Stop(_) => {},
        Step::Next(s2) => {
            if fuel > 0 {
                let m = redex(s, root);
                assert forall|a: usize| live(s.mem, a) implies live(s2.mem, a) by {
                    if a != m {
                        assert(s2.mem[a as int] == s.mem[a as int]);
                    }
                }
                lemma_run(s2, root, (fuel - 1) as nat);
            }
        },
    }
}

/// Under `Inc`, reduction of the whole is reduction of the argument, and
/// then, once the argument has come to rest in weak head normal form,
/// reduction of the whole from there. Meanwhile the spine of the whole
/// stays as it is.
pub proof fn lemma_run_under_inc(s: Store, root: usize, fuel: nat)
    requires
        s.wf(),
        live(s.mem, root),
        spine(s.mem, root).len() >= 2,
        s.mem[spine(s.mem, root).last() as int] == Graph::Inc,
    ensures
        ({
            let sp = spine(s.mem, root);
            let r = sp[sp.len() - 2];
            let o = run(s, rhs(s.mem, r), fuel);
            &&& live(s.mem, rhs(s.mem, r))
            &&& height(s.mem, rhs(s.mem, r)) < height(s.mem, root)
            &&& spine(o.store.mem, root) == sp
            &&& o.store.mem[r as int] == s.mem[r as int]
            &&& o.store.mem[sp.last() as int] == Graph::Inc
            &&& run(s, root, fuel) == if o.status == Status::Whnf {
                run(o.store, root, o.fuel)
            } else {
                o
            }
        }),
    decreases fuel,
{
    let h = s.mem;
    let sp = spine(h, root);
    let n = sp.len() as int;
    let r = sp[n - 2];
    let t = rhs(h, r);
    lemma_spine(h, root);
    assert(node_closed(h, h[r as int]));
    lemma_height_edge(h, r, t);
    lemma_head_step(s, t);
    match head_step(s, t) {
        Step::Stop(_) => {},
        Step::Next(s2) => {
            if fuel > 0 {
                let m = redex(s, t);
                assert forall|i: int| 0 <= i < sp.len() implies sp[i] != m by {
                    if i < n - 2 {
                        lemma_spine_distinct(h, root, i, n - 2);
                    }
                }
                lemma_spine_same(h, s2.mem, root, m);
                assert(s2.mem[r as int] == h[r as int]);
                assert(s2.mem[sp[n - 1] as int] == h[sp[n - 1] as int]);
                assert(live(s2.mem, root)) by {
                    if root != m {
                        assert(s2.mem[root as int] == h[root as int]);
                    }
                }
                lemma_run_under_inc(s2, root, (fuel - 1) as nat);
            }
        },
    }
}

} // verus!
