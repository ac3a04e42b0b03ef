use crate::graft::{cons_built, is_cons, lemma_cons_built, lemma_cons_extends, lemma_put};
use crate::graph::{
    deref, lemma_deref, lemma_height_edge, lemma_spine, lemma_spine_at, lemma_spine_distinct, lhs,
    live, node_closed, rhs, spine, Graph, I, K, S,
};
use crate::heap::{frame, lemma_frame_live};
use crate::machine::{head_step, lemma_step_i, lemma_step_k, lemma_step_s, run, Built, Store};
use crate::steps::{can_step, lemma_run_same_deref, lemma_run_steps, lemma_steps_more, steps};
use vstd::prelude::*;

verus! {

/// The node at `g` applies a pair of `car` and `cdr` to the selector
/// `sel`.
pub open spec fn is_selection(h: Seq<Graph>, g: usize, car: usize, cdr: usize, sel: usize) -> bool {
    &&& live(h, g)
    &&& h[g as int] matches Graph::Apply(c, x) && x == sel && is_cons(h, deref(h, c), car, cdr)
}

/// The first step of a selection: `S left right sel` at `g`, where `left` is
/// `S I (K car)` and `right` is `K cdr`, becomes `(left sel) (right sel)`.
proof fn lemma_select_1(s: Store, g: usize, car: usize, cdr: usize, sel: usize)
    requires
        s.wf(),
        s.mem.len() + 2 <= usize::MAX,
        is_selection(s.mem, g, car, cdr, sel),
    ensures
        ({
            let h = s.mem;
            let c = deref(h, lhs(h, g));
            let t = head_step(s, g)->Next_0;
            let left = lhs(t.mem, g);
            let right = rhs(t.mem, g);
            &&& head_step(s, g) is Next
            &&& t.wf()
            &&& frame(h, t.mem, g)
            &&& !live(h, left)
            &&& !live(h, right)
            &&& left != right
            &&& t.mem[left as int] == Graph::Apply(rhs(h, lhs(h, c)), sel)
            &&& t.mem[right as int] == Graph::Apply(rhs(h, c), sel)
            &&& t.mem[g as int] is Apply
            &&& t.mem.len() <= h.len() + 2
            &&& live(t.mem, g)
            &&& c != g
            &&& lhs(h, c) != g
            &&& live(h, c)
        }),
{
    let h = s.mem;
    let cg = lhs(h, g);
    let c = deref(h, cg);
    let s_car = lhs(h, c);
    assert(node_closed(h, h[g as int]));
    lemma_deref(h, cg);
    lemma_spine_at(h, g);
    assert(spine(h, cg) == seq![c] + spine(h, s_car));
    lemma_spine_at(h, s_car);
    lemma_spine_at(h, S);
    let sp = seq![g, c, s_car, S];
    assert(spine(h, g) =~= sp);
    lemma_step_s(s, g);
    lemma_spine_distinct(h, g, 0, 1);
    lemma_spine_distinct(h, g, 0, 2);
}

/// The second step: `S I (K car) sel` at `left` becomes
/// `(I sel) (K car sel)`.
proof fn lemma_select_2(s: Store, g: usize, left: usize, s_i_car: usize, sel: usize)
    requires
        s.wf(),
        s.mem.len() + 2 <= usize::MAX,
        live(s.mem, g),
        s.mem[g as int] is Apply,
        lhs(s.mem, g) == left,
        s.mem[left as int] == Graph::Apply(s_i_car, sel),
        s.mem[s_i_car as int] is Apply,
        s.mem[lhs(s.mem, s_i_car) as int] == Graph::Apply(S, I),
    ensures
        ({
            let h = s.mem;
            let t = head_step(s, g)->Next_0;
            let ll = lhs(t.mem, left);
            let lr = rhs(t.mem, left);
            &&& head_step(s, g) is Next
            &&& t.wf()
            &&& frame(h, t.mem, left)
            &&& !live(h, ll)
            &&& !live(h, lr)
            &&& ll != lr
            &&& t.mem[ll as int] == Graph::Apply(I, sel)
            &&& t.mem[lr as int] == Graph::Apply(rhs(h, s_i_car), sel)
            &&& t.mem[left as int] is Apply
            &&& t.mem.len() <= h.len() + 2
            &&& left != g
        }),
{
    let h = s.mem;
    let s_i = lhs(h, s_i_car);
    assert(node_closed(h, h[g as int]));
    assert(node_closed(h, h[left as int]));
    assert(node_closed(h, h[s_i_car as int]));
    lemma_spine_at(h, g);
    lemma_spine_at(h, left);
    lemma_spine_at(h, s_i_car);
    lemma_spine_at(h, s_i);
    lemma_spine_at(h, S);
    let sp = seq![g, left, s_i_car, s_i, S];
    assert(spine(h, g) =~= sp);
    lemma_step_s(s, g);
    lemma_spine_distinct(h, g, 0, 1);
}

/// The third step: `I sel` at `ll` becomes a link to `sel`.
proof fn lemma_select_3(s: Store, g: usize, left: usize, ll: usize, sel: usize)
    requires
        s.wf(),
        live(s.mem, g),
        s.mem[g as int] is Apply,
        lhs(s.mem, g) == left,
        s.mem[left as int] is Apply,
        lhs(s.mem, left) == ll,
        s.mem[ll as int] == Graph::Apply(I, sel),
    ensures
        ({
            let t = head_step(s, g)->Next_0;
            &&& head_step(s, g) is Next
            &&& t.wf()
            &&& frame(s.mem, t.mem, ll)
            &&& t.mem[ll as int] == Graph::Link(sel)
            &&& t.mem.len() == s.mem.len()
            &&& ll != g
            &&& ll != left
        }),
{
    let h = s.mem;
    assert(node_closed(h, h[g as int]));
    assert(node_closed(h, h[left as int]));
    lemma_spine_at(h, g);
    lemma_spine_at(h, left);
    lemma_spine_at(h, ll);
    lemma_spine_at(h, I);
    let sp = seq![g, left, ll, I];
    assert(spine(h, g) =~= sp);
    lemma_step_i(s, g);
    lemma_spine_distinct(h, g, 0, 2);
    lemma_spine_distinct(h, g, 1, 2);
}

/// Three head steps take the application of a pair to a selector to the
/// selector applied to the two parts: `sel (K car sel) (K cdr sel)`. They
/// rewrite the application and otherwise only add nodes.
proof fn lemma_selection(s: Store, g: usize, car: usize, cdr: usize, sel: usize)
    requires
        s.wf(),
        s.mem.len() + 4 <= usize::MAX,
        is_selection(s.mem, g, car, cdr, sel),
    ensures
        ({
            let h = s.mem;
            let t = steps(s, g, 3);
            let left = lhs(t.mem, g);
            let right = rhs(t.mem, g);
            let ll = lhs(t.mem, left);
            let lr = rhs(t.mem, left);
            &&& can_step(s, g, 3)
            &&& t.wf()
            &&& live(t.mem, g)
            &&& t.mem[g as int] is Apply
            &&& t.mem[left as int] is Apply
            &&& t.mem[ll as int] == Graph::Link(sel)
            &&& live(t.mem, lr)
            &&& t.mem[lr as int] matches Graph::Apply(k_car, x) && x == sel && live(t.mem, k_car)
                && t.mem[k_car as int] == Graph::Apply(K, car)
            &&& live(t.mem, right)
            &&& t.mem[right as int] matches Graph::Apply(k_cdr, x) && x == sel && live(t.mem, k_cdr)
                && t.mem[k_cdr as int] == Graph::Apply(K, cdr)
            &&& !live(h, left) && !live(h, right) && !live(h, ll) && !live(h, lr)
            &&& left != right && ll != lr && left != ll && left != lr && right != ll && right != lr
            &&& forall|x: usize| live(h, x) && x != g ==> #[trigger] t.mem[x as int] == h[x as int]
            &&& forall|x: usize| live(h, x) ==> live(t.mem, x)
            &&& h.len() <= t.mem.len() <= h.len() + 4
        }),
{
    let h0 = s.mem;
    let c = deref(h0, lhs(h0, g));
    let s_car = lhs(h0, c);
    let k_cdr = rhs(h0, c);
    let s_i_car = rhs(h0, s_car);
    let s_i = lhs(h0, s_i_car);
    let k_car = rhs(h0, s_i_car);
    assert(is_cons(h0, c, car, cdr));
    lemma_select_1(s, g, car, cdr, sel);
    let t1 = head_step(s, g)->Next_0;
    let h1 = t1.mem;
    let left = lhs(h1, g);
    let right = rhs(h1, g);
    assert(h1[s_i_car as int] == h0[s_i_car as int]) by {
        assert(node_closed(h0, h0[s_car as int]));
        lemma_spine_at(h0, g);
        assert(spine(h0, lhs(h0, g)) == seq![c] + spine(h0, s_car));
        lemma_spine_at(h0, s_car);
        lemma_spine_at(h0, S);
        assert(spine(h0, g) =~= seq![g, c, s_car, S]);
        lemma_spine(h0, g);
        lemma_height_edge(h0, s_car, s_i_car);
        lemma_spine_distinct(h0, g, 0, 2);
    }
    assert(h1[s_i as int] == h0[s_i as int] && h1[k_car as int] == h0[k_car as int] && h1[k_cdr as int]
        == h0[k_cdr as int]) by {
        assert(node_closed(h0, h0[s_car as int]));
        assert(node_closed(h0, h0[s_i_car as int]));
        assert(node_closed(h0, h0[c as int]));
        lemma_spine_at(h0, g);
        assert(spine(h0, lhs(h0, g)) == seq![c] + spine(h0, s_car));
        lemma_spine_at(h0, s_car);
        lemma_spine_at(h0, S);
        assert(spine(h0, g) =~= seq![g, c, s_car, S]);
        lemma_spine(h0, g);
        lemma_spine_distinct(h0, g, 0, 1);
        lemma_spine_distinct(h0, g, 0, 2);
        lemma_height_edge(h0, s_car, s_i_car);
        lemma_height_edge(h0, s_i_car, s_i);
        lemma_height_edge(h0, s_i_car, k_car);
        lemma_height_edge(h0, c, k_cdr);
    }
    lemma_select_2(t1, g, left, s_i_car, sel);
    let t2 = head_step(t1, g)->Next_0;
    let h2 = t2.mem;
    let ll = lhs(h2, left);
    let lr = rhs(h2, left);
    assert(h2[g as int] == h1[g as int]);
    assert(h2[right as int] == h1[right as int]);
    assert(h2[k_car as int] == h1[k_car as int]);
    assert(h2[k_cdr as int] == h1[k_cdr as int]);
    lemma_select_3(t2, g, left, ll, sel);
    let t3 = head_step(t2, g)->Next_0;
    let h3 = t3.mem;
    assert(h3[g as int] == h2[g as int]);
    assert(h3[left as int] == h2[left as int]);
    assert(h3[right as int] == h2[right as int]);
    assert(h3[lr as int] == h2[lr as int]);
    assert(h3[k_car as int] == h2[k_car as int]);
    assert(h3[k_cdr as int] == h2[k_cdr as int]);
    assert(steps(s, g, 3) == t3 && can_step(s, g, 3)) by {
        reveal_with_fuel(steps, 4);
        reveal_with_fuel(can_step, 4);
    }
    assert forall|x: usize| live(h0, x) implies live(h3, x) by {
        lemma_frame_live(h0, h1, g, x);
        lemma_frame_live(h1, h2, left, x);
        lemma_frame_live(h2, h3, ll, x);
    }
    assert forall|x: usize| live(h0, x) && x != g implies #[trigger] h3[x as int] == h0[x as int] by {
        assert(h1[x as int] == h0[x as int]);
        assert(h2[x as int] == h1[x as int]);
    }
    assert(!live(h0, ll) && !live(h0, lr)) by {
        if live(h0, ll) {
            lemma_frame_live(h0, h1, g, ll);
        }
        if live(h0, lr) {
            lemma_frame_live(h0, h1, g, lr);
        }
    }
}

/// `K x y` at `g`, the `K` behind a link at `ll`, becomes a link to `x`.
proof fn lemma_select_k(s: Store, g: usize, left: usize, ll: usize)
    requires
        s.wf(),
        live(s.mem, g),
        s.mem[g as int] is Apply,
        lhs(s.mem, g) == left,
        s.mem[left as int] is Apply,
        lhs(s.mem, left) == ll,
        s.mem[ll as int] == Graph::Link(K),
    ensures
        ({
            let t = head_step(s, g)->Next_0;
            &&& head_step(s, g) is Next
            &&& t.wf()
            &&& frame(s.mem, t.mem, g)
            &&& t.mem[g as int] == Graph::Link(rhs(s.mem, left))
            &&& t.mem.len() == s.mem.len()
        }),
{
    let h = s.mem;
    assert(node_closed(h, h[g as int]));
    assert(node_closed(h, h[left as int]));
    lemma_spine_at(h, g);
    lemma_spine_at(h, left);
    lemma_spine_at(h, ll);
    lemma_spine_at(h, K);
    let sp = seq![g, left, K];
    assert(spine(h, g) =~= sp);
    lemma_step_k(s, g);
}

/// `K x y` at `right`, which `g` links to, becomes a link to `x`; then `g`
/// stands for what `x` stands for.
proof fn lemma_select_out(s: Store, g: usize, right: usize, k_x: usize)
    requires
        s.wf(),
        live(s.mem, g),
        s.mem[g as int] == Graph::Link(right),
        s.mem[right as int] is Apply,
        lhs(s.mem, right) == k_x,
        s.mem[k_x as int] is Apply,
        lhs(s.mem, k_x) == K,
    ensures
        ({
            let t = head_step(s, g)->Next_0;
            &&& head_step(s, g) is Next
            &&& t.wf()
            &&& frame(s.mem, t.mem, right)
            &&& t.mem[right as int] == Graph::Link(rhs(s.mem, k_x))
            &&& t.mem.len() == s.mem.len()
            &&& right != g
            &&& live(t.mem, g)
            &&& live(t.mem, rhs(s.mem, k_x))
            &&& deref(t.mem, g) == deref(t.mem, rhs(s.mem, k_x))
        }),
{
    let h = s.mem;
    let x = rhs(h, k_x);
    assert(node_closed(h, h[g as int]));
    assert(node_closed(h, h[right as int]));
    assert(node_closed(h, h[k_x as int]));
    lemma_spine_at(h, g);
    lemma_spine_at(h, right);
    lemma_spine_at(h, k_x);
    lemma_spine_at(h, K);
    let sp = seq![right, k_x, K];
    assert(spine(h, g) =~= sp);
    lemma_step_k(s, g);
    let t = s.set(right, Graph::Link(x));
    lemma_frame_live(h, t.mem, right, g);
    lemma_frame_live(h, t.mem, right, x);
    lemma_spine_at(t.mem, g);
    lemma_spine_at(t.mem, right);
}

/// The first part of a pair: the application of a pair of `car` and `cdr`
/// to `K` becomes, in five head steps, a chain of links to `car`, and is
/// reduced from there as `car` is. The steps rewrite the application and
/// otherwise only add nodes.
pub proof fn lemma_select_first(s: Store, g: usize, car: usize, cdr: usize, fuel: nat)
    requires
        s.wf(),
        s.mem.len() + 4 <= usize::MAX,
        is_selection(s.mem, g, car, cdr, K),
    ensures
        ({
            let t = steps(s, g, 5);
            &&& can_step(s, g, 5)
            &&& t.wf()
            &&& live(t.mem, g)
            &&& live(t.mem, car)
            &&& deref(t.mem, g) == deref(t.mem, car)
            &&& forall|x: usize|
                live(s.mem, x) && x != g ==> #[trigger] t.mem[x as int] == s.mem[x as int]
            &&& forall|x: usize| live(s.mem, x) ==> live(t.mem, x)
            &&& s.mem.len() <= t.mem.len() <= s.mem.len() + 4
            &&& fuel >= 5 ==> run(s, g, fuel) == run(t, car, (fuel - 5) as nat)
        }),
{
    let h0 = s.mem;
    lemma_selection(s, g, car, cdr, K);
    let t3 = steps(s, g, 3);
    let h3 = t3.mem;
    let left = lhs(h3, g);
    let ll = lhs(h3, left);
    let lr = rhs(h3, left);
    let k_car = lhs(h3, lr);
    lemma_select_k(t3, g, left, ll);
    let t4 = head_step(t3, g)->Next_0;
    let h4 = t4.mem;
    assert(h4[lr as int] == h3[lr as int]);
    assert(h4[k_car as int] == h3[k_car as int]);
    lemma_select_out(t4, g, lr, k_car);
    let t5 = head_step(t4, g)->Next_0;
    let h5 = t5.mem;
    assert(steps(t3, g, 2) == t5 && can_step(t3, g, 2)) by {
        reveal_with_fuel(steps, 3);
        reveal_with_fuel(can_step, 3);
    }
    lemma_steps_more(s, g, 3, 2);
    assert forall|x: usize| live(h0, x) implies live(h5, x) by {
        lemma_frame_live(h3, h4, g, x);
        lemma_frame_live(h4, h5, lr, x);
    }
    assert forall|x: usize| live(h0, x) && x != g implies #[trigger] h5[x as int] == h0[x as int] by {
        assert(h3[x as int] == h0[x as int]);
        assert(h4[x as int] == h3[x as int]);
    }
    if fuel >= 5 {
        lemma_run_steps(s, g, 5, fuel);
        lemma_run_same_deref(t5, g, car, (fuel - 5) as nat);
    }
}

/// `K I x` at `left`, the function part of `g`, becomes a link to `I`.
proof fn lemma_select_ki(s: Store, g: usize, left: usize, ll: usize, ki: usize)
    requires
        s.wf(),
        live(s.mem, g),
        s.mem[g as int] is Apply,
        lhs(s.mem, g) == left,
        s.mem[left as int] is Apply,
        lhs(s.mem, left) == ll,
        s.mem[ll as int] == Graph::Link(ki),
        s.mem[ki as int] == Graph::Apply(K, I),
    ensures
        ({
            let t = head_step(s, g)->Next_0;
            &&& head_step(s, g) is Next
            &&& t.wf()
            &&& frame(s.mem, t.mem, left)
            &&& t.mem[left as int] == Graph::Link(I)
            &&& t.mem.len() == s.mem.len()
            &&& left != g
        }),
{
    let h = s.mem;
    assert(node_closed(h, h[g as int]));
    assert(node_closed(h, h[left as int]));
    assert(node_closed(h, h[ll as int]));
    lemma_spine_at(h, g);
    lemma_spine_at(h, left);
    lemma_spine_at(h, ll);
    lemma_spine_at(h, ki);
    lemma_spine_at(h, K);
    let sp = seq![g, left, ki, K];
    assert(spine(h, g) =~= sp);
    lemma_step_k(s, g);
    lemma_spine_distinct(h, g, 0, 1);
}

/// `I x` at `g`, the `I` behind a link at `left`, becomes a link to `x`.
proof fn lemma_select_i(s: Store, g: usize, left: usize)
    requires
        s.wf(),
        live(s.mem, g),
        s.mem[g as int] is Apply,
        lhs(s.mem, g) == left,
        s.mem[left as int] == Graph::Link(I),
    ensures
        ({
            let t = head_step(s, g)->Next_0;
            &&& head_step(s, g) is Next
            &&& t.wf()
            &&& frame(s.mem, t.mem, g)
            &&& t.mem[g as int] == Graph::Link(rhs(s.mem, g))
            &&& t.mem.len() == s.mem.len()
        }),
{
    let h = s.mem;
    assert(node_closed(h, h[g as int]));
    lemma_spine_at(h, g);
    lemma_spine_at(h, left);
    lemma_spine_at(h, I);
    let sp = seq![g, I];
    assert(spine(h, g) =~= sp);
    lemma_step_i(s, g);
}

/// The second part of a pair: the application of a pair of `car` and `cdr`
/// to `K I` becomes, in six head steps, a chain of links to `cdr`, and is
/// reduced from there as `cdr` is. The steps rewrite the application and
/// otherwise only add nodes.
pub proof fn lemma_select_second(s: Store, g: usize, car: usize, cdr: usize, fuel: nat)
    requires
        s.wf(),
        s.mem.len() + 4 <= usize::MAX,
        is_selection(s.mem, g, car, cdr, rhs(s.mem, g)),
        live(s.mem, rhs(s.mem, g)),
        s.mem[rhs(s.mem, g) as int] == Graph::Apply(K, I),
    ensures
        ({
            let t = steps(s, g, 6);
            &&& can_step(s, g, 6)
            &&& t.wf()
            &&& live(t.mem, g)
            &&& live(t.mem, cdr)
            &&& deref(t.mem, g) == deref(t.mem, cdr)
            &&& forall|x: usize|
                live(s.mem, x) && x != g ==> #[trigger] t.mem[x as int] == s.mem[x as int]
            &&& forall|x: usize| live(s.mem, x) ==> live(t.mem, x)
            &&& s.mem.len() <= t.mem.len() <= s.mem.len() + 4
            &&& fuel >= 6 ==> run(s, g, fuel) == run(t, cdr, (fuel - 6) as nat)
        }),
{
    let h0 = s.mem;
    let ki = rhs(h0, g);
    lemma_selection(s, g, car, cdr, ki);
    let t3 = steps(s, g, 3);
    let h3 = t3.mem;
    let left = lhs(h3, g);
    let right = rhs(h3, g);
    let ll = lhs(h3, left);
    let k_cdr = lhs(h3, right);
    assert(ki != g) by {
        lemma_height_edge(h0, g, ki);
    }
    assert(h3[ki as int] == h0[ki as int]);
    lemma_select_ki(t3, g, left, ll, ki);
    let t4 = head_step(t3, g)->Next_0;
    let h4 = t4.mem;
    assert(h4[g as int] == h3[g as int]);
    assert(h4[right as int] == h3[right as int]);
    assert(h4[k_cdr as int] == h3[k_cdr as int]);
    lemma_select_i(t4, g, left);
    let t5 = head_step(t4, g)->Next_0;
    let h5 = t5.mem;
    assert(h5[right as int] == h4[right as int]) by {
        assert(live(h4, right));
        assert(right != g) by {
            assert(!live(h0, right));
        }
    }
    assert(h5[k_cdr as int] == h4[k_cdr as int]);
    lemma_select_out(t5, g, right, k_cdr);
    let t6 = head_step(t5, g)->Next_0;
    let h6 = t6.mem;
    assert(steps(t3, g, 3) == t6 && can_step(t3, g, 3)) by {
        reveal_with_fuel(steps, 4);
        reveal_with_fuel(can_step, 4);
    }
    lemma_steps_more(s, g, 3, 3);
    assert forall|x: usize| live(h0, x) implies live(h6, x) by {
        lemma_frame_live(h3, h4, left, x);
        lemma_frame_live(h4, h5, g, x);
        lemma_frame_live(h5, h6, right, x);
    }
    assert forall|x: usize| live(h0, x) && x != g implies #[trigger] h6[x as int] == h0[x as int] by {
        assert(h3[x as int] == h0[x as int]);
        assert(h4[x as int] == h3[x as int]);
        assert(h5[x as int] == h4[x as int]);
    }
    if fuel >= 6 {
        lemma_run_steps(s, g, 6, fuel);
        lemma_run_same_deref(t6, g, cdr, (fuel - 6) as nat);
    }
}

/// The store after the pair of `car` and `cdr` and its application to
/// `K` were built.
pub open spec fn first_built(s: Store, car: usize, cdr: usize) -> Built {
    let pair = cons_built(s, car, cdr);
    pair.store.put(Graph::Apply(pair.at, K))
}

/// The store after the pair of `car` and `cdr` and its application to
/// `K I` were built.
pub open spec fn second_built(s: Store, car: usize, cdr: usize) -> Built {
    let pair = cons_built(s, car, cdr);
    let ki = pair.store.put(Graph::Apply(K, I));
    ki.store.put(Graph::Apply(pair.at, ki.at))
}

/// A pair applied to `K` is reduced as its first part is: after five head
/// steps the application stands for what `car` stands for, and from there
/// the two are reduced alike.
pub proof fn lemma_pair_first(s: Store, car: usize, cdr: usize, fuel: nat)
    requires
        s.wf(),
        live(s.mem, car),
        live(s.mem, cdr),
        fuel >= 5,
        first_built(s, car, cdr).store.mem.len() + 4 <= usize::MAX,
    ensures
        ({
            let g = first_built(s, car, cdr);
            let t = steps(g.store, g.at, 5);
            &&& can_step(g.store, g.at, 5)
            &&& deref(t.mem, g.at) == deref(t.mem, car)
            &&& run(g.store, g.at, fuel) == run(t, car, (fuel - 5) as nat)
        }),
{
    let pair = cons_built(s, car, cdr);
    let g = pair.store.put(Graph::Apply(pair.at, K));
    assert(pair.store.mem.len() <= g.store.mem.len());
    lemma_cons_built(s.mem, s, car, cdr);
    lemma_put(s.mem, pair.store, Graph::Apply(pair.at, K));
    lemma_cons_extends(pair.store.mem, g.store.mem, pair.at, car, cdr);
    lemma_spine_at(g.store.mem, pair.at);
    lemma_select_first(g.store, g.at, car, cdr, fuel);
}

/// A pair applied to `K I` is reduced as its second part is: after six
/// head steps the application stands for what `cdr` stands for, and from
/// there the two are reduced alike.
pub proof fn lemma_pair_second(s: Store, car: usize, cdr: usize, fuel: nat)
    requires
        s.wf(),
        live(s.mem, car),
        live(s.mem, cdr),
        fuel >= 6,
        second_built(s, car, cdr).store.mem.len() + 4 <= usize::MAX,
    ensures
        ({
            let g = second_built(s, car, cdr);
            let t = steps(g.store, g.at, 6);
            &&& can_step(g.store, g.at, 6)
            &&& deref(t.mem, g.at) == deref(t.mem, cdr)
            &&& run(g.store, g.at, fuel) == run(t, cdr, (fuel - 6) as nat)
        }),
{
    let pair = cons_built(s, car, cdr);
    let ki = pair.store.put(Graph::Apply(K, I));
    let g = ki.store.put(Graph::Apply(pair.at, ki.at));
    assert(pair.store.mem.len() <= ki.store.mem.len() <= g.store.mem.len());
    lemma_cons_built(s.mem, s, car, cdr);
    lemma_put(s.mem, pair.store, Graph::Apply(K, I));
    lemma_cons_extends(pair.store.mem, ki.store.mem, pair.at, car, cdr);
    lemma_put(s.mem, ki.store, Graph::Apply(pair.at, ki.at));
    lemma_cons_extends(ki.store.mem, g.store.mem, pair.at, car, cdr);
    lemma_spine_at(g.store.mem, pair.at);
    lemma_select_second(g.store, g.at, car, cdr, fuel);
}
} // verus!
