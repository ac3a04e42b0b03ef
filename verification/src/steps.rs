use crate::graph::{
    acyclic, closed, deref, height, lemma_height_edge, lemma_spine, lemma_spine_at,
    lemma_spine_distinct, lhs, live, node_closed, spine, Graph,
};
use crate::heap::{frame, lemma_deref_frame, lemma_frame_live, lemma_spine_cut, lemma_spine_same};
use crate::machine::{head_step, lemma_head_step, redex, run, Status, Step, Store};
use vstd::prelude::*;

verus! {

/// The store after `k` head steps on `root`, or after as many as can be
/// made.
pub open spec fn steps(s: Store, root: usize, k: nat) -> Store
    decreases k,
{
    if k == 0 {
        s
    } else {
        match head_step(s, root) {
            Step::Next(t) => steps(t, root, (k - 1) as nat),
            Step::Stop(_) => s,
        }
    }
}

/// `k` head steps can be made on `root`, one after the other.
pub open spec fn can_step(s: Store, root: usize, k: nat) -> bool
    decreases k,
{
    k == 0 || (head_step(s, root) matches Step::Next(t) && can_step(t, root, (k - 1) as nat))
}

/// A reduction that can make `k` steps and has the fuel for them goes on
/// from the store after these steps with the fuel that is left.
pub proof fn lemma_run_steps(s: Store, root: usize, k: nat, fuel: nat)
    requires
        can_step(s, root, k),
        fuel >= k,
    ensures
        run(s, root, fuel) == run(steps(s, root, k), root, (fuel - k) as nat),
    decreases k,
{
    if k > 0 {
        match head_step(s, root) {
            Step::Next(t) => {
                lemma_run_steps(t, root, (k - 1) as nat, (fuel - 1) as nat);
            },
            Step::Stop(_) => {},
        }
    }
}

/// Steps add up.
pub proof fn lemma_steps_more(s: Store, root: usize, j: nat, k: nat)
    requires
        can_step(s, root, j),
        can_step(steps(s, root, j), root, k),
    ensures
        can_step(s, root, j + k),
        steps(s, root, j + k) == steps(steps(s, root, j), root, k),
    decreases j,
{
    if j > 0 {
        match head_step(s, root) {
            Step::Next(t) => {
                lemma_steps_more(t, root, (j - 1) as nat, k);
            },
            Step::Stop(_) => {},
        }
    }
}

/// Two addresses that stand for the same node have the same head step.
pub proof fn lemma_step_same_deref(s: Store, a: usize, b: usize)
    requires
        s.wf(),
        live(s.mem, a),
        live(s.mem, b),
        deref(s.mem, a) == deref(s.mem, b),
    ensures
        head_step(s, a) == head_step(s, b),
        head_step(s, a) is Next ==> redex(s, a) == redex(s, b),
{
    assert(spine(s.mem, a) == spine(s.mem, b));
    lemma_spine(s.mem, a);
}

/// Two addresses that stand for the same node are reduced alike.
pub proof fn lemma_run_same_deref(s: Store, a: usize, b: usize, fuel: nat)
    requires
        s.wf(),
        live(s.mem, a),
        live(s.mem, b),
        deref(s.mem, a) == deref(s.mem, b),
    ensures
        run(s, a, fuel) == run(s, b, fuel),
    decreases fuel,
{
    lemma_step_same_deref(s, a, b);
    lemma_head_step(s, a);
    match head_step(s, a) {
        Step::Next(t) => {
            if fuel > 0 {
                let m = redex(s, a);
                lemma_deref_frame(s.mem, t.mem, a, m);
                lemma_deref_frame(s.mem, t.mem, b, m);
                lemma_frame_live(s.mem, t.mem, m, a);
                lemma_frame_live(s.mem, t.mem, m, b);
                lemma_run_same_deref(t, a, b, (fuel - 1) as nat);
            }
        },
        Step::Stop(_) => {},
    }
}

/// `g` is the function part of the application that comes `k`-th on the
/// spine of `top`, counted from one: the spine of `top` ends in the spine
/// of `g`.
pub open spec fn under(h: Seq<Graph>, top: usize, g: usize, k: int) -> bool {
    &&& 1 <= k < spine(h, top).len()
    &&& lhs(h, spine(h, top)[k - 1]) == g
}

/// What `under` gives: the spine of `top` is `k` nodes followed by the
/// spine of `g`, and these `k` nodes lie higher than `g`.
pub proof fn lemma_under(h: Seq<Graph>, top: usize, g: usize, k: int)
    requires
        closed(h),
        acyclic(h),
        live(h, top),
        under(h, top, g, k),
    ensures
        spine(h, top) == spine(h, top).take(k) + spine(h, g),
        live(h, g),
        forall|i: int| 0 <= i < k ==> height(h, g) < height(h, #[trigger] spine(h, top)[i]),
{
    let sp = spine(h, top);
    lemma_spine(h, top);
    let r = sp[k - 1];
    assert(h[r as int] is Apply);
    assert(node_closed(h, h[r as int]));
    lemma_spine_at(h, r);
    assert(spine(h, r) == sp.skip(k - 1));
    assert(sp.skip(k) =~= spine(h, g)) by {
        assert(sp.skip(k - 1) == seq![r] + spine(h, g));
        assert(sp.skip(k) =~= sp.skip(k - 1).skip(1));
    }
    assert(sp =~= sp.take(k) + sp.skip(k));
    lemma_height_edge(h, r, g);
    assert forall|i: int| 0 <= i < k implies height(h, g) < height(h, #[trigger] sp[i]) by {
        if i < k - 1 {
            lemma_spine_distinct(h, top, i, k - 1);
        }
    }
}

/// Two spines that end alike, the longer in all of the shorter, give the
/// same head step where the shorter gives one at all.
proof fn lemma_head_step_suffix(s: Store, top: usize, g: usize, k: int)
    requires
        closed(s.mem),
        acyclic(s.mem),
        live(s.mem, top),
        live(s.mem, g),
        0 <= k,
        spine(s.mem, g).len() >= 1,
        spine(s.mem, top) == spine(s.mem, top).take(k) + spine(s.mem, g),
        spine(s.mem, top).len() == k + spine(s.mem, g).len(),
        !(head_step(s, g) is Stop) || head_step(s, g) matches Step::Stop(Status::Input(_)),
    ensures
        head_step(s, top) == head_step(s, g),
        head_step(s, g) is Next ==> redex(s, top) == redex(s, g),
{
    let h = s.mem;
    let st = spine(h, top);
    let sg = spine(h, g);
    let nt = st.len() as int;
    let ng = sg.len() as int;
    let joined = st.take(k) + sg;
    assert(st[nt - 1] == joined[nt - 1]);
    assert(st[nt - 1] == sg[ng - 1]);
    if ng >= 2 {
        assert(st[nt - 2] == joined[nt - 2]);
        assert(st[nt - 2] == sg[ng - 2]);
    }
    if ng >= 3 {
        assert(st[nt - 3] == joined[nt - 3]);
        assert(st[nt - 3] == sg[ng - 3]);
    }
    if ng >= 4 {
        assert(st[nt - 4] == joined[nt - 4]);
        assert(st[nt - 4] == sg[ng - 4]);
    }
}

/// A head step on `g` is the head step on any `top` that `g` lies under,
/// and leaves `g` under `top`.
pub proof fn lemma_step_under(s: Store, top: usize, g: usize, k: int)
    requires
        s.wf(),
        live(s.mem, top),
        under(s.mem, top, g, k),
        head_step(s, g) is Next,
    ensures
        head_step(s, top) == head_step(s, g),
        head_step(s, g)->Next_0.wf(),
        live(head_step(s, g)->Next_0.mem, top),
        under(head_step(s, g)->Next_0.mem, top, g, k),
{
    let h = s.mem;
    let st = spine(h, top);
    let sg = spine(h, g);
    let nt = st.len() as int;
    let ng = sg.len() as int;
    lemma_under(h, top, g, k);
    assert(ng >= 1 && nt == k + ng) by {
        lemma_spine(h, g);
        assert(st.len() == (st.take(k) + sg).len());
    }
    lemma_head_step_suffix(s, top, g, k);
    lemma_head_step(s, g);
    let t = head_step(s, g)->Next_0;
    let m = redex(s, g);
    lemma_frame_live(h, t.mem, m, top);
    lemma_under_kept(h, t.mem, top, g, k, m);
}

/// Rewriting an application no higher than `g` leaves `g` under `top`.
proof fn lemma_under_kept(h: Seq<Graph>, h2: Seq<Graph>, top: usize, g: usize, k: int, m: usize)
    requires
        closed(h),
        acyclic(h),
        closed(h2),
        acyclic(h2),
        live(h, top),
        live(h2, top),
        under(h, top, g, k),
        frame(h, h2, m),
        live(h, m),
        live(h2, m),
        h[m as int] is Apply,
        height(h, m) <= height(h, g),
    ensures
        under(h2, top, g, k),
{
    let st = spine(h, top);
    let sg = spine(h, g);
    let nt = st.len() as int;
    let ng = sg.len() as int;
    lemma_under(h, top, g, k);
    assert(nt == k + ng) by {
        assert(st.len() == (st.take(k) + sg).len());
    }
    assert(forall|i: int| 0 <= i < k ==> st[i] != m);
    assert(live(h, st[k - 1]) && (h[st[k - 1] as int] is Apply)) by {
        lemma_spine(h, top);
    }
    assert(h2[st[k - 1] as int] == h[st[k - 1] as int]);
    if exists|j: int| 0 <= j < ng && sg[j] == m {
        let j = choose|j: int| 0 <= j < ng && sg[j] == m;
        assert(st[k + j] == (st.take(k) + sg)[k + j]);
        lemma_spine_cut(h, h2, top, k + j);
        let st2 = spine(h2, top);
        assert(spine(h2, m).len() >= 1) by {
            lemma_spine(h2, m);
        }
        assert(st2 == st.take(k + j) + spine(h2, m));
        assert(st2[k - 1] == st.take(k + j)[k - 1]);
    } else {
        assert forall|i: int| 0 <= i < nt implies st[i] != m by {
            if i >= k {
                assert(st[i] == (st.take(k) + sg)[i]);
                assert(sg[i - k] != m);
            }
        }
        lemma_spine_same(h, h2, top, m);
    }
}

/// Head steps on `g` are the head steps on any `top` that `g` lies
/// under.
pub proof fn lemma_steps_under(s: Store, top: usize, g: usize, k: int, j: nat)
    requires
        s.wf(),
        live(s.mem, top),
        under(s.mem, top, g, k),
        can_step(s, g, j),
    ensures
        can_step(s, top, j),
        steps(s, top, j) == steps(s, g, j),
        steps(s, g, j).wf(),
        live(steps(s, g, j).mem, top),
        under(steps(s, g, j).mem, top, g, k),
    decreases j,
{
    if j > 0 {
        lemma_step_under(s, top, g, k);
        let t = head_step(s, g)->Next_0;
        lemma_steps_under(t, top, g, k, (j - 1) as nat);
    }
}

/// Unread input at the head of `g` is unread input at the head of any
/// `top` that `g` lies under.
pub proof fn lemma_input_under(s: Store, top: usize, g: usize, k: int)
    requires
        s.wf(),
        live(s.mem, top),
        under(s.mem, top, g, k),
        head_step(s, g) matches Step::Stop(Status::Input(_)),
    ensures
        head_step(s, top) == head_step(s, g),
{
    let h = s.mem;
    let st = spine(h, top);
    let sg = spine(h, g);
    lemma_under(h, top, g, k);
    assert(sg.len() >= 1 && st.len() == k + sg.len()) by {
        lemma_spine(h, g);
        assert(st.len() == (st.take(k) + sg).len());
    }
    lemma_head_step_suffix(s, top, g, k);
}

} // verus!
