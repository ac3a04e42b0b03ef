use crate::collect::{lemma_reaches_edge, lemma_reaches_self, lemma_swept_wf, reaches, swept};
use crate::driver::{
    advanced, opened, played, polled, probed, started, supplied, symbol_at, trimmed, Action, Cursor,
    Exit, Play,
};
use crate::expr::Expr;
use crate::graft::{fed, is_church, is_cons, lemma_fed, lemma_fed_size, lemma_put};
use crate::graph::{
    acyclic, closed, deref, height, lemma_deref, lemma_deref_height, lemma_height_edge, lemma_spine,
    lemma_spine_at, lhs, live, node_closed, ranked, rhs, spine, wf, Graph, I, INC, K,
    PROGRAM_AREA_END, ZERO,
};
use crate::heap::{
    agree_below, extends, lemma_deref_below, lemma_deref_frame, lemma_extends_below,
    lemma_frame_live,
};
use crate::loader::loaded;
use crate::machine::{head_step, lemma_step_i, run, Built, Status, Step, Store};
use crate::numeral::{decode_steps, is_decoder, lemma_church_below, lemma_decode};
use crate::pair::{lemma_select_first, lemma_select_second};
use crate::steps::{can_step, lemma_input_under, lemma_run_steps, lemma_steps_under, steps, under};
use vstd::prelude::*;

verus! {

/// The first part of the pair at `c`.
pub open spec fn pair_car(h: Seq<Graph>, c: usize) -> usize {
    rhs(h, rhs(h, rhs(h, lhs(h, c))))
}

/// The second part of the pair at `c`.
pub open spec fn pair_cdr(h: Seq<Graph>, c: usize) -> usize {
    rhs(h, rhs(h, c))
}

/// `a` stands for a pair whose second part is unread input.
pub open spec fn listed(h: Seq<Graph>, a: usize) -> bool {
    let c = deref(h, a);
    &&& is_cons(h, c, pair_car(h, c), pair_cdr(h, c))
    &&& pair_cdr(h, c) < h.len()
    &&& h[pair_cdr(h, c) as int] == Graph::Stdin
}

/// `root` is the input that is still to come: `I` applied to unread
/// input, or the second part, not yet selected, of a pair whose second part
/// is unread input.
pub open spec fn waiting(h: Seq<Graph>, root: usize) -> bool {
    &&& live(h, root)
    &&& h[root as int] matches Graph::Apply(f, x) && if f == I {
        x < h.len() && h[x as int] == Graph::Stdin
    } else {
        live(h, x) && h[x as int] == Graph::Apply(K, I) && listed(h, f)
    }
}

/// The head steps that take `root` to its unread input.
pub open spec fn wait_steps(h: Seq<Graph>, root: usize) -> nat {
    if lhs(h, root) == I {
        1
    } else {
        6
    }
}

/// The unread input that `root` comes to.
pub open spec fn unread(h: Seq<Graph>, root: usize) -> usize {
    if lhs(h, root) == I {
        rhs(h, root)
    } else {
        pair_cdr(h, deref(h, lhs(h, root)))
    }
}

/// The input that is still to come is reduced, in one head step or in
/// six, to a chain of links to unread input, and no further. The steps
/// rewrite `root` and otherwise only add nodes.
pub proof fn lemma_waiting(s: Store, root: usize)
    requires
        s.wf(),
        s.mem.len() + 4 <= usize::MAX,
        waiting(s.mem, root),
    ensures
        ({
            let h = s.mem;
            let t = steps(s, root, wait_steps(h, root));
            let u = unread(h, root);
            &&& can_step(s, root, wait_steps(h, root))
            &&& t.wf()
            &&& live(t.mem, root)
            &&& u < h.len()
            &&& h[u as int] == Graph::Stdin
            &&& t.mem[u as int] == Graph::Stdin
            &&& deref(t.mem, root) == u
            &&& head_step(t, root) == Step::Stop(Status::Input(u))
            &&& forall|x: usize| live(h, x) && x != root ==> #[trigger] t.mem[x as int] == h[x as int]
            &&& forall|x: usize| live(h, x) ==> live(t.mem, x)
            &&& h.len() <= t.mem.len() <= h.len() + 4
        }),
{
    let h = s.mem;
    let u = unread(h, root);
    assert(node_closed(h, h[root as int]));
    if lhs(h, root) == I {
        lemma_spine_at(h, root);
        lemma_spine_at(h, I);
        assert(spine(h, root) =~= seq![root, I]);
        lemma_step_i(s, root);
        let t = s.set(root, Graph::Link(u));
        assert(steps(s, root, 1) == t && can_step(s, root, 1)) by {
            reveal_with_fuel(steps, 2);
            reveal_with_fuel(can_step, 2);
        }
        lemma_height_edge(h, root, u);
        lemma_spine_at(t.mem, root);
        lemma_spine_at(t.mem, u);
        assert forall|x: usize| live(h, x) implies live(t.mem, x) by {
            lemma_frame_live(h, t.mem, root, x);
        }
    } else {
        let f = lhs(h, root);
        let c = deref(h, f);
        lemma_select_second(s, root, pair_car(h, c), u, 6);
        let t = steps(s, root, 6);
        lemma_deref(h, f);
        assert(u != root) by {
            lemma_height_edge(h, root, f);
            lemma_height_edge(h, c, rhs(h, c));
            lemma_height_edge(h, rhs(h, c), u);
        }
        assert(t.mem[u as int] == h[u as int]);
        lemma_spine_at(t.mem, u);
        assert(spine(t.mem, root) == spine(t.mem, u));
    }
}

/// The node at `g` decodes the head of the list at `root`: it is
/// `root K Inc 0`.
pub open spec fn probes(h: Seq<Graph>, g: usize, root: usize) -> bool {
    &&& live(h, g)
    &&& h[g as int] matches Graph::Apply(i, zero) && {
        &&& zero == ZERO
        &&& live(h, i)
        &&& h[i as int] matches Graph::Apply(car, inc) && {
            &&& inc == INC
            &&& live(h, car)
            &&& h[car as int] == Graph::Apply(root, K)
        }
    }
}

/// The list lies under its selection, and that under the probe; the probe's
/// three nodes lie above the list.
pub proof fn lemma_probes(h: Seq<Graph>, g: usize, root: usize)
    requires
        closed(h),
        acyclic(h),
        probes(h, g, root),
    ensures
        under(h, g, root, 3),
        under(h, g, lhs(h, lhs(h, g)), 2),
        live(h, root),
        height(h, root) < height(h, lhs(h, lhs(h, g))) < height(h, lhs(h, g)) < height(h, g),
{
    let i = lhs(h, g);
    let car = lhs(h, i);
    assert(node_closed(h, h[car as int]));
    lemma_spine_at(h, g);
    lemma_spine_at(h, i);
    lemma_spine_at(h, car);
    lemma_spine(h, root);
    assert(spine(h, g) =~= seq![g, i, car] + spine(h, root));
    lemma_height_edge(h, g, i);
    lemma_height_edge(h, i, car);
    lemma_height_edge(h, car, root);
}

/// Before a read: the probe is in place and the list is the input that
/// is still to come.
pub open spec fn ready(p: Play) -> bool {
    &&& p.store.wf()
    &&& p.cur.pending is None
    &&& probes(p.store.mem, p.cur.probe, p.cur.root)
    &&& waiting(p.store.mem, p.cur.root)
}

/// After a poll that asked for input: the probe is in place and the list
/// stands for the unread input that was asked for.
pub open spec fn asked(p: Play) -> bool {
    let h = p.store.mem;
    let u = deref(h, p.cur.root);
    &&& p.store.wf()
    &&& p.cur.pending == Some(u)
    &&& probes(h, p.cur.probe, p.cur.root)
    &&& u < h.len()
    &&& h[u as int] == Graph::Stdin
}

/// A poll before a read asks for input, after one head step or six.
pub proof fn lemma_poll_reads(p: Play, budget: usize, fuel: nat)
    requires
        ready(p),
        fuel >= wait_steps(p.store.mem, p.cur.root),
        p.store.mem.len() + 4 <= usize::MAX,
    ensures
        ({
            let r = polled(p, budget, fuel);
            &&& r.action == Action::Read
            &&& r.fuel == fuel - wait_steps(p.store.mem, p.cur.root)
            &&& asked(r.play)
            &&& r.play.cur.root == p.cur.root
            &&& r.play.cur.probe == p.cur.probe
            &&& r.play.store.mem.len() <= p.store.mem.len() + 4
        }),
{
    reveal(polled);
    let s = p.store;
    let h = s.mem;
    let g = p.cur.probe;
    let root = p.cur.root;
    let j = wait_steps(h, root);
    lemma_probes(h, g, root);
    lemma_waiting(s, root);
    let t = steps(s, root, j);
    lemma_steps_under(s, g, root, 3, j);
    lemma_run_steps(s, g, j, fuel);
    lemma_input_under(t, g, root, 3);
    assert(run(t, g, (fuel - j) as nat).status == Status::Input(unread(h, root)));
    assert(run(t, g, (fuel - j) as nat).store == t);
    let i = lhs(h, g);
    let car = lhs(h, i);
    assert(t.mem[g as int] == h[g as int]);
    assert(t.mem[i as int] == h[i as int]);
    assert(t.mem[car as int] == h[car as int]);
}

/// After input was supplied: the probe is in place, and the list stands
/// for a pair of the numeral `sym` and unread input.
pub open spec fn served(p: Play, sym: nat) -> bool {
    let h = p.store.mem;
    &&& p.store.wf()
    &&& p.cur.pending is None
    &&& probes(h, p.cur.probe, p.cur.root)
    &&& listed(h, p.cur.root)
    &&& is_church(h, pair_car(h, deref(h, p.cur.root)), sym)
}

/// Supplying a symbol makes the list a pair of its numeral and unread
/// input.
pub proof fn lemma_supplied(p: Play, sym: u16)
    requires
        asked(p),
        p.store.mem.len() + 5 * sym + 8 <= usize::MAX,
    ensures
        served(supplied(p, sym), sym as nat),
        supplied(p, sym).cur.root == p.cur.root,
        supplied(p, sym).cur.probe == p.cur.probe,
        supplied(p, sym).store.mem.len() <= p.store.mem.len() + 5 * sym + 8,
{
    let s = p.store;
    let h = s.mem;
    let g = p.cur.probe;
    let root = p.cur.root;
    let u = deref(h, root);
    let t = fed(s, u, sym);
    let i = lhs(h, g);
    let car = lhs(h, i);
    lemma_fed_size(s, u, sym);
    lemma_fed(s, u, sym);
    lemma_probes(h, g, root);
    lemma_deref_height(h, root);
    assert(t.mem[g as int] == h[g as int]);
    assert(t.mem[i as int] == h[i as int]);
    assert(t.mem[car as int] == h[car as int]);
    lemma_deref_frame(h, t.mem, root, u);
    lemma_spine_at(t.mem, u);
    let pair = lhs_link(t.mem, u);
    lemma_spine_at(t.mem, pair);
}

/// The target of the link at `a`.
pub open spec fn lhs_link(h: Seq<Graph>, a: usize) -> usize {
    match h[a as int] {
        Graph::Link(t) => t,
        _ => a,
    }
}

/// A pair with unread input for its second part stays what it is while
/// nothing at or below the node that stands for it changes.
pub proof fn lemma_listed_below(h1: Seq<Graph>, h2: Seq<Graph>, a: usize)
    requires
        closed(h1),
        acyclic(h1),
        acyclic(h2),
        live(h1, a),
        listed(h1, a),
        agree_below(h1, h2, height(h1, a)),
    ensures
        listed(h2, a),
        deref(h2, a) == deref(h1, a),
        pair_car(h2, deref(h2, a)) == pair_car(h1, deref(h1, a)),
        pair_cdr(h2, deref(h2, a)) == pair_cdr(h1, deref(h1, a)),
{
    lemma_deref_below(h1, h2, a);
    lemma_deref(h1, a);
    let c = deref(h1, a);
    assert(h2[c as int] == h1[c as int]);
    let s_car = lhs(h1, c);
    let k_cdr = rhs(h1, c);
    let s_i_car = rhs(h1, s_car);
    let s_i = lhs(h1, s_i_car);
    let k_car = rhs(h1, s_i_car);
    let cdr = rhs(h1, k_cdr);
    lemma_height_edge(h1, c, s_car);
    lemma_height_edge(h1, c, k_cdr);
    lemma_height_edge(h1, s_car, s_i_car);
    lemma_height_edge(h1, s_i_car, s_i);
    lemma_height_edge(h1, s_i_car, k_car);
    lemma_height_edge(h1, k_cdr, cdr);
    assert(h2[s_car as int] == h1[s_car as int]);
    assert(h2[k_cdr as int] == h1[k_cdr as int]);
    assert(h2[s_i_car as int] == h1[s_i_car as int]);
    assert(h2[s_i as int] == h1[s_i as int]);
    assert(h2[k_car as int] == h1[k_car as int]);
    assert(live(h1, cdr));
    assert(h2[cdr as int] == h1[cdr as int]);
}

/// The numeral of a served symbol is decoded: the probe comes to rest at
/// the number `sym` after five head steps and the steps of decoding, and
/// the list is still a pair with unread input for its second part.
pub proof fn lemma_decoded(p: Play, sym: nat, fuel: nat)
    requires
        served(p, sym),
        sym <= u16::MAX,
        fuel >= 5 + decode_steps(sym),
        p.store.mem.len() + 4 + 6 * sym <= usize::MAX,
    ensures
        ({
            let o = run(p.store, p.cur.probe, fuel);
            &&& o.status == Status::Whnf
            &&& o.fuel == fuel - 5 - decode_steps(sym)
            &&& o.store.wf()
            &&& o.store.mem[deref(o.store.mem, p.cur.probe) as int] == Graph::Num(sym as u16)
            &&& live(o.store.mem, p.cur.root)
            &&& listed(o.store.mem, p.cur.root)
            &&& o.store.mem.len() <= p.store.mem.len() + 4 + 6 * sym
        }),
{
    let s = p.store;
    let h = s.mem;
    let g = p.cur.probe;
    let root = p.cur.root;
    let i = lhs(h, g);
    let car = lhs(h, i);
    let c = deref(h, root);
    let num = pair_car(h, c);
    let tl = pair_cdr(h, c);
    lemma_probes(h, g, root);
    lemma_deref(h, root);
    lemma_select_first(s, car, num, tl, fuel);
    let t5 = steps(s, car, 5);
    lemma_steps_under(s, g, car, 2, 5);
    lemma_run_steps(s, g, 5, fuel);
    // The numeral lies below the list, and the list below the probe.
    let s_car = lhs(h, c);
    let s_i_car = rhs(h, s_car);
    let k_car = rhs(h, s_i_car);
    lemma_height_edge(h, c, s_car);
    lemma_height_edge(h, s_car, s_i_car);
    lemma_height_edge(h, s_i_car, k_car);
    lemma_height_edge(h, k_car, num);
    assert(agree_below(h, t5.mem, height(h, num)));
    lemma_church_below(h, t5.mem, num, sym);
    lemma_spine_at(t5.mem, num);
    assert(t5.mem[g as int] == h[g as int]);
    assert(t5.mem[i as int] == h[i as int]);
    assert(is_decoder(t5.mem, g, sym));
    let f5 = (fuel - 5) as nat;
    lemma_decode(t5, g, sym, f5);
    let o = run(t5, g, f5);
    assert forall|a: usize| live(h, a) && height(h, a) <= height(h, root) implies #[trigger] o.store.mem[a as int]
        == h[a as int] by {
        assert(t5.mem[a as int] == h[a as int]);
    }
    assert(agree_below(h, o.store.mem, height(h, root)));
    lemma_listed_below(h, o.store.mem, root);
}

/// The input that is still to come stays what it is while the heap only
/// grows.
pub proof fn lemma_waiting_extends(h1: Seq<Graph>, h2: Seq<Graph>, root: usize)
    requires
        closed(h1),
        acyclic(h1),
        acyclic(h2),
        waiting(h1, root),
        extends(h1, h2),
    ensures
        waiting(h2, root),
{
    assert(h2[root as int] == h1[root as int]);
    assert(node_closed(h1, h1[root as int]));
    let f = lhs(h1, root);
    let x = rhs(h1, root);
    assert(h2[x as int] == h1[x as int]);
    if f != I {
        lemma_extends_below(h1, h2, height(h1, f));
        lemma_listed_below(h1, h2, f);
    }
}

/// A sweep keeps the end of a chain of links that the root of the sweep
/// reaches, and the root reaches that end.
pub proof fn lemma_deref_swept(h: Seq<Graph>, top: usize, a: usize)
    requires
        wf(h),
        h.len() <= usize::MAX,
        live(h, a),
        reaches(h, top, a),
    ensures
        deref(swept(h, top), a) == deref(h, a),
        reaches(h, top, deref(h, a)),
    decreases height(h, a),
{
    lemma_swept_wf(h, top);
    let h2 = swept(h, top);
    assert(h2[a as int] == h[a as int]);
    match h[a as int] {
        Graph::Link(t) => {
            lemma_height_edge(h, a, t);
            assert(node_closed(h, h[a as int]));
            lemma_reaches_edge(h, top, a, t);
            lemma_deref_swept(h, top, t);
        },
        _ => {},
    }
}

/// A sweep keeps a pair with unread input for its second part, where its
/// root reaches the node that stands for the pair.
pub proof fn lemma_listed_swept(h: Seq<Graph>, top: usize, a: usize)
    requires
        wf(h),
        h.len() <= usize::MAX,
        live(h, a),
        listed(h, a),
        reaches(h, top, a),
    ensures
        listed(swept(h, top), a),
{
    let h2 = swept(h, top);
    lemma_deref_swept(h, top, a);
    lemma_deref(h, a);
    let c = deref(h, a);
    let s_car = lhs(h, c);
    let k_cdr = rhs(h, c);
    let s_i_car = rhs(h, s_car);
    let s_i = lhs(h, s_i_car);
    let k_car = rhs(h, s_i_car);
    let cdr = rhs(h, k_cdr);
    lemma_reaches_edge(h, top, c, s_car);
    lemma_reaches_edge(h, top, c, k_cdr);
    lemma_reaches_edge(h, top, s_car, s_i_car);
    lemma_reaches_edge(h, top, s_i_car, s_i);
    lemma_reaches_edge(h, top, s_i_car, k_car);
    lemma_reaches_edge(h, top, k_cdr, cdr);
    assert(h2[c as int] == h[c as int]);
    assert(h2[s_car as int] == h[s_car as int]);
    assert(h2[k_cdr as int] == h[k_cdr as int]);
    assert(h2[s_i_car as int] == h[s_i_car as int]);
    assert(h2[s_i as int] == h[s_i as int]);
    assert(h2[k_car as int] == h[k_car as int]);
    assert(h2[cdr as int] == h[cdr as int]);
}

/// After a byte: with the list moved on to its second part, the heap
/// trimmed and the next probe built, all is ready for the next read.
pub proof fn lemma_moved_on(s: Store, root: usize, budget: usize)
    requires
        s.wf(),
        live(s.mem, root),
        listed(s.mem, root),
        s.mem.len() + 5 <= usize::MAX,
    ensures
        ({
            let tail = advanced(s, root);
            let next = probed(trimmed(tail.store, tail.at, budget), tail.at);
            let p = Play {
                store: next.store,
                cur: Cursor { root: tail.at, probe: next.at, pending: None },
            };
            &&& ready(p)
            &&& next.store.mem.len() <= s.mem.len() + 5
        }),
{
    let h = s.mem;
    let ki = s.put(Graph::Apply(K, I));
    let tail = ki.store.put(Graph::Apply(root, ki.at));
    assert(s.mem.len() <= ki.store.mem.len() <= s.mem.len() + 1);
    assert(ki.store.mem.len() <= tail.store.mem.len() <= ki.store.mem.len() + 1);
    lemma_put(h, s, Graph::Apply(K, I));
    assert(live(ki.store.mem, root));
    lemma_put(h, ki.store, Graph::Apply(root, ki.at));
    let h2 = tail.store.mem;
    lemma_deref(h, root);
    assert(root != I);
    assert(h2[ki.at as int] == Graph::Apply(K, I));
    lemma_extends_below(h, h2, height(h, root));
    lemma_listed_below(h, h2, root);
    assert(waiting(h2, tail.at));
    let t = trimmed(tail.store, tail.at, budget);
    assert(t.wf() && waiting(t.mem, tail.at)) by {
        if h2.len() > budget {
            lemma_swept_wf(h2, tail.at);
            lemma_reaches_self(h2, tail.at);
            lemma_reaches_edge(h2, tail.at, tail.at, root);
            lemma_reaches_edge(h2, tail.at, tail.at, ki.at);
            lemma_listed_swept(h2, tail.at, root);
            assert(t.mem[tail.at as int] == h2[tail.at as int]);
            assert(t.mem[ki.at as int] == h2[ki.at as int]);
        }
    }
    assert(t.mem.len() == h2.len());
    let b1 = t.put(Graph::Apply(tail.at, K));
    let b2 = b1.store.put(Graph::Apply(b1.at, INC));
    let b3 = b2.store.put(Graph::Apply(b2.at, ZERO));
    assert(t.mem.len() <= b1.store.mem.len() <= t.mem.len() + 1);
    assert(b1.store.mem.len() <= b2.store.mem.len() <= b1.store.mem.len() + 1);
    assert(b2.store.mem.len() <= b3.store.mem.len() <= b2.store.mem.len() + 1);
    lemma_put(t.mem, t, Graph::Apply(tail.at, K));
    lemma_put(t.mem, b1.store, Graph::Apply(b1.at, INC));
    lemma_put(t.mem, b2.store, Graph::Apply(b2.at, ZERO));
    let h3 = b3.store.mem;
    assert(h3[b1.at as int] == Graph::Apply(tail.at, K)) by {
        assert(live(b2.store.mem, b1.at));
    }
    lemma_waiting_extends(t.mem, h3, tail.at);
}

/// A poll after input was supplied decodes the symbol: a byte is
/// emitted and all is ready for the next read; the symbol 256 ends the
/// output.
pub proof fn lemma_poll_decodes(p: Play, sym: nat, budget: usize, fuel: nat)
    requires
        served(p, sym),
        sym <= 256,
        fuel >= 5 + decode_steps(sym),
        p.store.mem.len() + 6 * sym + 9 <= usize::MAX,
    ensures
        ({
            let r = polled(p, budget, fuel);
            &&& r.fuel == fuel - 5 - decode_steps(sym)
            &&& sym >= 256 ==> r.action == Action::Halt
            &&& sym < 256 ==> {
                &&& r.action == Action::Emit(sym as u8)
                &&& ready(r.play)
                &&& r.play.store.mem.len() <= p.store.mem.len() + 6 * sym + 9
            }
        }),
{
    reveal(polled);
    lemma_decoded(p, sym, fuel);
    let o = run(p.store, p.cur.probe, fuel);
    if sym < 256 {
        lemma_moved_on(o.store, p.cur.root, budget);
    }
}

/// From a state that is ready for a read, the rest of the input is
/// written out and the output ends. A byte takes 1545 units of fuel and
/// 3000 slots at most, the end of the input 1551 units and as many slots.
pub proof fn lemma_echo(p: Play, input: Seq<u8>, pos: nat, budget: usize, fuel: nat)
    requires
        ready(p),
        pos <= input.len(),
        fuel >= 1545 * (input.len() - pos) + 1551,
        p.store.mem.len() + 3000 * (input.len() - pos + 1) <= usize::MAX,
    ensures
        played(p, input, pos, budget, fuel).out == input.skip(pos as int),
        played(p, input, pos, budget, fuel).exit == Exit::Done,
    decreases input.len() - pos,
{
    let f0 = (fuel - 1) as nat;
    lemma_poll_reads(p, budget, f0);
    let first_poll = polled(p, budget, f0);
    let sym = symbol_at(input, pos);
    let fed_play = supplied(first_poll.play, sym);
    lemma_supplied(first_poll.play, sym);
    let f1 = first_poll.fuel;
    let f2 = (f1 - 1) as nat;
    lemma_poll_decodes(fed_play, sym as nat, budget, f2);
    let second_poll = polled(fed_play, budget, f2);
    let pos2 = if pos < input.len() {
        pos + 1
    } else {
        pos
    };
    assert(played(p, input, pos, budget, fuel) == played(fed_play, input, pos2, budget, f1));
    if pos < input.len() {
        let b = input[pos as int];
        assert(sym as u8 == b);
        lemma_echo(second_poll.play, input, pos + 1, budget, second_poll.fuel);
        let rest = played(second_poll.play, input, pos + 1, budget, second_poll.fuel);
        assert(played(fed_play, input, pos2, budget, f1).out == seq![b] + rest.out);
        assert(seq![b] + input.skip(pos as int + 1) =~= input.skip(pos as int));
    } else {
        assert(input.skip(pos as int) =~= Seq::<u8>::empty());
    }
}

/// The heap that holds the primitives and nothing else is well formed.
pub proof fn lemma_first_store()
    ensures
        (Store {
            mem: seq![Graph::S, Graph::K, Graph::I, Graph::Inc, Graph::Num(0)],
            fresh: PROGRAM_AREA_END as nat,
        }).wf(),
{
    let h = seq![Graph::S, Graph::K, Graph::I, Graph::Inc, Graph::Num(0)];
    let rank = Seq::new(5, |i: int| 0nat);
    assert(ranked(h, rank));
}

/// The identity echoes its input: run on any input with fuel enough, the
/// program `I` writes exactly the input and then ends.
pub proof fn lemma_identity_echoes(input: Seq<u8>, budget: usize, fuel: nat)
    requires
        fuel >= 1545 * input.len() + 1551,
        10 + 3000 * (input.len() + 1) <= usize::MAX,
    ensures
        ({
            let start = started(Expr::I);
            let r = played(opened(start.store, start.at), input, 0, budget, fuel);
            r.out == input && r.exit == Exit::Done
        }),
{
    let s0 = Store {
        mem: seq![Graph::S, Graph::K, Graph::I, Graph::Inc, Graph::Num(0)],
        fresh: PROGRAM_AREA_END as nat,
    };
    lemma_first_store();
    assert(loaded(s0, Expr::I) == Built { store: s0, at: I });
    let stdin = s0.put(Graph::Stdin);
    let root = stdin.store.put(Graph::Apply(I, stdin.at));
    assert(s0.mem.len() <= stdin.store.mem.len() <= s0.mem.len() + 1);
    assert(stdin.store.mem.len() <= root.store.mem.len() <= stdin.store.mem.len() + 1);
    lemma_put(s0.mem, s0, Graph::Stdin);
    lemma_put(s0.mem, stdin.store, Graph::Apply(I, stdin.at));
    let b1 = root.store.put(Graph::Apply(root.at, K));
    let b2 = b1.store.put(Graph::Apply(b1.at, INC));
    let b3 = b2.store.put(Graph::Apply(b2.at, ZERO));
    assert(root.store.mem.len() <= b1.store.mem.len() <= root.store.mem.len() + 1);
    assert(b1.store.mem.len() <= b2.store.mem.len() <= b1.store.mem.len() + 1);
    assert(b2.store.mem.len() <= b3.store.mem.len() <= b2.store.mem.len() + 1);
    lemma_put(s0.mem, root.store, Graph::Apply(root.at, K));
    lemma_put(s0.mem, b1.store, Graph::Apply(b1.at, INC));
    lemma_put(s0.mem, b2.store, Graph::Apply(b2.at, ZERO));
    let h = b3.store.mem;
    assert(h[b1.at as int] == Graph::Apply(root.at, K)) by {
        assert(live(b2.store.mem, b1.at));
    }
    assert(h[root.at as int] == Graph::Apply(I, stdin.at)) by {
        assert(live(b1.store.mem, root.at));
        assert(live(b2.store.mem, root.at));
    }
    assert(h[stdin.at as int] == Graph::Stdin) by {
        assert(live(root.store.mem, stdin.at));
        assert(live(b1.store.mem, stdin.at));
        assert(live(b2.store.mem, stdin.at));
    }
    let p = opened(started(Expr::I).store, started(Expr::I).at);
    assert(ready(p));
    lemma_echo(p, input, 0, budget, fuel);
    assert(input.skip(0) =~= input);
}} // verus!
