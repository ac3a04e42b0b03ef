use crate::graft::{
    church_built, is_church, is_succ, lemma_church_built, lemma_church_extends, lemma_put,
};
use crate::graph::{
    acyclic, deref, height, lemma_deref, lemma_height_edge, lemma_spine, lemma_spine_at,
    lemma_spine_distinct, lhs, live, node_closed, rhs, spine, Graph, I, INC, K, S, ZERO,
};
use crate::heap::{agree_below, frame, lemma_frame_live};
use crate::machine::{
    head_step, lemma_run, lemma_run_under_inc, lemma_step_i, lemma_step_inc, lemma_step_k,
    lemma_step_s, run, Built, Status, Step, Store,
};
use crate::steps::{can_step, lemma_run_steps, steps};
use vstd::prelude::*;

verus! {

/// A numeral stays what it is while nothing at or below its height
/// changes.
pub proof fn lemma_church_below(h1: Seq<Graph>, h2: Seq<Graph>, c: usize, n: nat)
    requires
        acyclic(h1),
        is_church(h1, c, n),
        agree_below(h1, h2, height(h1, c)),
    ensures
        is_church(h2, c, n),
    decreases n,
{
    assert(h2[c as int] == h1[c as int]);
    if n > 0 {
        match h1[c as int] {
            Graph::Apply(succ, pred) => {
                lemma_height_edge(h1, c, succ);
                lemma_height_edge(h1, c, pred);
                lemma_church_below(h1, h2, pred, (n - 1) as nat);
                assert(h2[succ as int] == h1[succ as int]);
                match h1[succ as int] {
                    Graph::Apply(_, s_ks_k) => {
                        lemma_height_edge(h1, succ, s_ks_k);
                        assert(h2[s_ks_k as int] == h1[s_ks_k as int]);
                        match h1[s_ks_k as int] {
                            Graph::Apply(s_ks, _) => {
                                lemma_height_edge(h1, s_ks_k, s_ks);
                                assert(h2[s_ks as int] == h1[s_ks as int]);
                                match h1[s_ks as int] {
                                    Graph::Apply(_, ks) => {
                                        lemma_height_edge(h1, s_ks, ks);
                                        assert(h2[ks as int] == h1[ks as int]);
                                    },
                                    _ => {},
                                }
                            },
                            _ => {},
                        }
                    },
                    _ => {},
                }
            },
            _ => {},
        }
    }
}

/// The node at `g` decodes the numeral `n`: it is `c Inc 0` for a node `c`
/// that stands for the numeral.
pub open spec fn is_decoder(h: Seq<Graph>, g: usize, n: nat) -> bool {
    &&& live(h, g)
    &&& h[g as int] matches Graph::Apply(i, zero) && {
        &&& zero == ZERO
        &&& live(h, i)
        &&& h[i as int] matches Graph::Apply(c, inc) && {
            &&& inc == INC
            &&& is_church(h, deref(h, c), n)
        }
    }
}

/// The number of head steps that decode the numeral `n`.
pub open spec fn decode_steps(n: nat) -> nat {
    6 * n + 2
}

/// The first step of decoding a successor: `S f c' Inc` at `i`, where `f`
/// is `S (K S) K`, becomes `(f Inc) (c' Inc)`.
proof fn lemma_succ_1(s: Store, g: usize, i: usize, c: usize, succ: usize)
    requires
        s.wf(),
        s.mem.len() + 2 <= usize::MAX,
        live(s.mem, g),
        s.mem[g as int] == Graph::Apply(i, ZERO),
        s.mem[i as int] is Apply,
        rhs(s.mem, i) == INC,
        deref(s.mem, lhs(s.mem, i)) == c,
        s.mem[c as int] is Apply,
        lhs(s.mem, c) == succ,
        s.mem[succ as int] is Apply,
        lhs(s.mem, succ) == S,
    ensures
        ({
            let h = s.mem;
            let t = head_step(s, g)->Next_0;
            let a = lhs(t.mem, i);
            let b = rhs(t.mem, i);
            &&& head_step(s, g) is Next
            &&& t.wf()
            &&& frame(h, t.mem, i)
            &&& !live(h, a)
            &&& !live(h, b)
            &&& a != b
            &&& t.mem[a as int] == Graph::Apply(rhs(h, succ), INC)
            &&& t.mem[b as int] == Graph::Apply(rhs(h, c), INC)
            &&& t.mem[i as int] is Apply
            &&& t.mem.len() <= h.len() + 2
            &&& live(h, i)
            &&& live(h, c)
            &&& live(h, succ)
            &&& i != g
            &&& height(h, succ) < height(h, c) < height(h, i) < height(h, g)
        }),
{
    let h = s.mem;
    let ci = lhs(h, i);
    assert(node_closed(h, h[g as int]));
    assert(node_closed(h, h[i as int]));
    lemma_deref(h, ci);
    assert(node_closed(h, h[c as int]));
    lemma_spine_at(h, g);
    lemma_spine_at(h, i);
    assert(spine(h, ci) == seq![c] + spine(h, succ));
    lemma_spine_at(h, succ);
    lemma_spine_at(h, S);
    let sp = seq![g, i, c, succ, S];
    assert(spine(h, g) =~= sp);
    lemma_step_s(s, g);
    lemma_spine(h, g);
    assert(sp[0] == g && sp[1] == i && sp[2] == c && sp[3] == succ);
    lemma_spine_distinct(h, g, 0, 1);
    lemma_spine_distinct(h, g, 1, 2);
    lemma_spine_distinct(h, g, 2, 3);
}

/// The second step: `S (K S) K Inc` at `a` becomes `(K S Inc) (K Inc)`.
proof fn lemma_succ_2(s: Store, g: usize, i: usize, a: usize, sksk: usize, s_ks: usize)
    requires
        s.wf(),
        s.mem.len() + 2 <= usize::MAX,
        live(s.mem, g),
        s.mem[g as int] == Graph::Apply(i, ZERO),
        s.mem[i as int] is Apply,
        lhs(s.mem, i) == a,
        s.mem[a as int] == Graph::Apply(sksk, INC),
        s.mem[sksk as int] == Graph::Apply(s_ks, K),
        s.mem[s_ks as int] is Apply,
        lhs(s.mem, s_ks) == S,
    ensures
        ({
            let h = s.mem;
            let t = head_step(s, g)->Next_0;
            let a1 = lhs(t.mem, a);
            let b1 = rhs(t.mem, a);
            &&& head_step(s, g) is Next
            &&& t.wf()
            &&& frame(h, t.mem, a)
            &&& !live(h, a1)
            &&& !live(h, b1)
            &&& a1 != b1
            &&& t.mem[a1 as int] == Graph::Apply(rhs(h, s_ks), INC)
            &&& t.mem[b1 as int] == Graph::Apply(K, INC)
            &&& t.mem[a as int] is Apply
            &&& t.mem.len() <= h.len() + 2
        }),
{
    let h = s.mem;
    assert(node_closed(h, h[g as int]));
    assert(node_closed(h, h[i as int]));
    assert(node_closed(h, h[a as int]));
    assert(node_closed(h, h[sksk as int]));
    lemma_spine_at(h, g);
    lemma_spine_at(h, i);
    lemma_spine_at(h, a);
    lemma_spine_at(h, sksk);
    lemma_spine_at(h, s_ks);
    lemma_spine_at(h, S);
    let sp = seq![g, i, a, sksk, s_ks, S];
    assert(spine(h, g) =~= sp);
    lemma_step_s(s, g);
}

/// The third step: `K S Inc` at `a1` becomes a link to `S`.
proof fn lemma_succ_3(s: Store, g: usize, i: usize, a: usize, a1: usize, ks: usize)
    requires
        s.wf(),
        live(s.mem, g),
        s.mem[g as int] == Graph::Apply(i, ZERO),
        s.mem[i as int] is Apply,
        lhs(s.mem, i) == a,
        s.mem[a as int] is Apply,
        lhs(s.mem, a) == a1,
        s.mem[a1 as int] == Graph::Apply(ks, INC),
        s.mem[ks as int] == Graph::Apply(K, S),
    ensures
        ({
            let t = head_step(s, g)->Next_0;
            &&& head_step(s, g) is Next
            &&& t.wf()
            &&& frame(s.mem, t.mem, a1)
            &&& t.mem[a1 as int] == Graph::Link(S)
            &&& t.mem.len() == s.mem.len()
        }),
{
    let h = s.mem;
    assert(node_closed(h, h[g as int]));
    assert(node_closed(h, h[i as int]));
    assert(node_closed(h, h[a as int]));
    assert(node_closed(h, h[a1 as int]));
    lemma_spine_at(h, g);
    lemma_spine_at(h, i);
    lemma_spine_at(h, a);
    lemma_spine_at(h, a1);
    lemma_spine_at(h, ks);
    lemma_spine_at(h, K);
    let sp = seq![g, i, a, a1, ks, K];
    assert(spine(h, g) =~= sp);
    lemma_step_k(s, g);
}

/// The fourth step: `S (K Inc) (c' Inc) 0` at `g`, its `S` behind a link,
/// becomes `(K Inc 0) (c' Inc 0)`.
proof fn lemma_succ_4(s: Store, g: usize, i: usize, a: usize, a1: usize)
    requires
        s.wf(),
        s.mem.len() + 2 <= usize::MAX,
        live(s.mem, g),
        s.mem[g as int] == Graph::Apply(i, ZERO),
        s.mem[i as int] is Apply,
        lhs(s.mem, i) == a,
        s.mem[a as int] is Apply,
        lhs(s.mem, a) == a1,
        s.mem[a1 as int] == Graph::Link(S),
    ensures
        ({
            let h = s.mem;
            let t = head_step(s, g)->Next_0;
            let a2 = lhs(t.mem, g);
            let b2 = rhs(t.mem, g);
            &&& head_step(s, g) is Next
            &&& t.wf()
            &&& frame(h, t.mem, g)
            &&& !live(h, a2)
            &&& !live(h, b2)
            &&& a2 != b2
            &&& t.mem[a2 as int] == Graph::Apply(rhs(h, a), ZERO)
            &&& t.mem[b2 as int] == Graph::Apply(rhs(h, i), ZERO)
            &&& t.mem[g as int] is Apply
            &&& t.mem.len() <= h.len() + 2
        }),
{
    let h = s.mem;
    assert(node_closed(h, h[g as int]));
    assert(node_closed(h, h[i as int]));
    assert(node_closed(h, h[a as int]));
    lemma_spine_at(h, g);
    lemma_spine_at(h, i);
    lemma_spine_at(h, a);
    lemma_spine_at(h, a1);
    lemma_spine_at(h, S);
    let sp = seq![g, i, a, S];
    assert(spine(h, g) =~= sp);
    lemma_step_s(s, g);
}

/// The fifth step: `K Inc 0` at `a2` becomes a link to `Inc`, which
/// leaves `Inc (c' Inc 0)` at `g`.
proof fn lemma_succ_5(s: Store, g: usize, a2: usize, b1: usize)
    requires
        s.wf(),
        live(s.mem, g),
        s.mem[g as int] is Apply,
        lhs(s.mem, g) == a2,
        s.mem[a2 as int] == Graph::Apply(b1, ZERO),
        s.mem[b1 as int] == Graph::Apply(K, INC),
    ensures
        ({
            let t = head_step(s, g)->Next_0;
            &&& head_step(s, g) is Next
            &&& t.wf()
            &&& frame(s.mem, t.mem, a2)
            &&& t.mem[a2 as int] == Graph::Link(INC)
            &&& t.mem.len() == s.mem.len()
            &&& live(t.mem, g)
            &&& spine(t.mem, g) == seq![g, INC]
            &&& a2 != g
        }),
{
    let h = s.mem;
    assert(node_closed(h, h[g as int]));
    assert(node_closed(h, h[a2 as int]));
    lemma_spine_at(h, g);
    lemma_spine_at(h, a2);
    lemma_spine_at(h, b1);
    lemma_spine_at(h, K);
    let sp = seq![g, a2, b1, K];
    assert(spine(h, g) =~= sp);
    lemma_step_k(s, g);
    lemma_spine_distinct(h, g, 0, 1);
    let t = s.set(a2, Graph::Link(INC));
    lemma_frame_live(h, t.mem, a2, g);
    lemma_spine_at(t.mem, g);
    lemma_spine_at(t.mem, a2);
    lemma_spine_at(t.mem, INC);
    assert(spine(t.mem, g) =~= seq![g, INC]);
}

/// Five head steps take the decoder of a successor numeral to `Inc`
/// applied to the decoder of the numeral before it. They rewrite the two
/// nodes of the decoder and otherwise only add nodes.
proof fn lemma_decode_succ(s: Store, g: usize, n: nat)
    requires
        s.wf(),
        is_decoder(s.mem, g, n),
        n >= 1,
        s.mem.len() + 6 <= usize::MAX,
    ensures
        ({
            let h = s.mem;
            let t = steps(s, g, 5);
            let inner = rhs(t.mem, g);
            &&& can_step(s, g, 5)
            &&& t.wf()
            &&& live(t.mem, g)
            &&& spine(t.mem, g) == seq![g, INC]
            &&& is_decoder(t.mem, inner, (n - 1) as nat)
            &&& !live(h, inner)
            &&& !live(h, lhs(t.mem, inner))
            &&& forall|q: usize|
                live(h, q) && q != g && q != lhs(h, g) ==> #[trigger] t.mem[q as int] == h[q as int]
            &&& forall|q: usize| live(h, q) ==> live(t.mem, q)
            &&& h.len() <= t.mem.len() <= h.len() + 6
        }),
{
    let h0 = s.mem;
    let i = lhs(h0, g);
    let c = deref(h0, lhs(h0, i));
    let succ = lhs(h0, c);
    let pred = rhs(h0, c);
    let sksk = rhs(h0, succ);
    let s_ks = lhs(h0, sksk);
    let ks = rhs(h0, s_ks);
    assert(is_church(h0, c, n));
    assert(is_succ(h0, succ));
    assert(is_church(h0, pred, (n - 1) as nat));
    // Step one.
    lemma_succ_1(s, g, i, c, succ);
    let t1 = head_step(s, g)->Next_0;
    let h1 = t1.mem;
    let a = lhs(h1, i);
    let b = rhs(h1, i);
    lemma_height_edge(h0, c, pred);
    lemma_height_edge(h0, succ, sksk);
    lemma_height_edge(h0, sksk, s_ks);
    lemma_height_edge(h0, s_ks, ks);
    assert(h1[g as int] == h0[g as int]);
    assert(h1[sksk as int] == h0[sksk as int]);
    assert(h1[s_ks as int] == h0[s_ks as int]);
    assert(h1[ks as int] == h0[ks as int]);
    // Step two.
    lemma_succ_2(t1, g, i, a, sksk, s_ks);
    let t2 = head_step(t1, g)->Next_0;
    let h2 = t2.mem;
    let a1 = lhs(h2, a);
    let b1 = rhs(h2, a);
    assert(h2[g as int] == h1[g as int]);
    assert(h2[i as int] == h1[i as int]);
    assert(h2[b as int] == h1[b as int]);
    assert(h2[ks as int] == h1[ks as int]);
    // Step three.
    lemma_succ_3(t2, g, i, a, a1, ks);
    let t3 = head_step(t2, g)->Next_0;
    let h3 = t3.mem;
    assert(h3[g as int] == h2[g as int]);
    assert(h3[i as int] == h2[i as int]);
    assert(h3[a as int] == h2[a as int]);
    assert(h3[b as int] == h2[b as int]);
    assert(h3[b1 as int] == h2[b1 as int]);
    // Step four.
    lemma_succ_4(t3, g, i, a, a1);
    let t4 = head_step(t3, g)->Next_0;
    let h4 = t4.mem;
    let a2 = lhs(h4, g);
    let b2 = rhs(h4, g);
    assert(h4[b1 as int] == h3[b1 as int]);
    assert(h4[b as int] == h3[b as int]);
    // Step five.
    lemma_succ_5(t4, g, a2, b1);
    let t5 = head_step(t4, g)->Next_0;
    let h5 = t5.mem;
    assert(h5[g as int] == h4[g as int]);
    assert(h5[b2 as int] == h4[b2 as int]);
    assert(h5[b as int] == h4[b as int]);
    assert(steps(s, g, 5) == t5 && can_step(s, g, 5)) by {
        reveal_with_fuel(steps, 6);
        reveal_with_fuel(can_step, 6);
    }
    assert forall|q: usize| live(h0, q) implies live(h5, q) by {
        lemma_frame_live(h0, h1, i, q);
        lemma_frame_live(h1, h2, a, q);
        lemma_frame_live(h2, h3, a1, q);
        lemma_frame_live(h3, h4, g, q);
        lemma_frame_live(h4, h5, a2, q);
    }
    assert forall|q: usize| live(h0, q) && q != g && q != i implies #[trigger] h5[q as int]
        == h0[q as int] by {
        assert(h1[q as int] == h0[q as int]);
        assert(h2[q as int] == h1[q as int]);
        assert(h3[q as int] == h2[q as int]);
        assert(h4[q as int] == h3[q as int]);
    }
    assert(!live(h0, b2)) by {
        if live(h0, b2) {
            lemma_frame_live(h0, h1, i, b2);
            lemma_frame_live(h1, h2, a, b2);
            lemma_frame_live(h2, h3, a1, b2);
        }
    }
    assert(agree_below(h0, h5, height(h0, pred)));
    lemma_church_below(h0, h5, pred, (n - 1) as nat);
    assert(deref(h5, pred) == pred);
}

/// Two head steps take the decoder of the numeral zero to a link to the
/// number zero.
proof fn lemma_decode_zero(s: Store, g: usize)
    requires
        s.wf(),
        is_decoder(s.mem, g, 0),
    ensures
        ({
            let h = s.mem;
            let t = s.set(lhs(h, g), Graph::Link(I)).set(g, Graph::Link(ZERO));
            &&& can_step(s, g, 2)
            &&& steps(s, g, 2) == t
            &&& t.wf()
            &&& live(t.mem, g)
            &&& head_step(t, g) == Step::Stop(Status::Whnf)
            &&& deref(t.mem, g) == ZERO
            &&& lhs(h, g) != g
            &&& live(h, lhs(h, g))
        }),
{
    let h = s.mem;
    let i = lhs(h, g);
    let ci = lhs(h, i);
    let c = deref(h, ci);
    assert(node_closed(h, h[g as int]));
    assert(node_closed(h, h[i as int]));
    lemma_deref(h, ci);
    lemma_spine_at(h, g);
    lemma_spine_at(h, i);
    assert(spine(h, ci) == seq![c] + spine(h, K));
    lemma_spine_at(h, K);
    let sp = seq![g, i, c, K];
    assert(spine(h, g) =~= sp);
    lemma_step_k(s, g);
    lemma_spine_distinct(h, g, 0, 1);
    let t1 = s.set(i, Graph::Link(I));
    let h1 = t1.mem;
    lemma_frame_live(h, h1, i, g);
    lemma_spine_at(h1, g);
    lemma_spine_at(h1, i);
    lemma_spine_at(h1, I);
    assert(spine(h1, g) =~= seq![g, I]);
    lemma_step_i(t1, g);
    let t2 = t1.set(g, Graph::Link(ZERO));
    let h2 = t2.mem;
    lemma_spine_at(h2, g);
    lemma_spine_at(h2, ZERO);
    assert(steps(s, g, 2) == t2 && can_step(s, g, 2)) by {
        reveal_with_fuel(steps, 3);
        reveal_with_fuel(can_step, 3);
    }
}

/// Decoding a numeral: the reduction of `c Inc 0`, where `c` stands for
/// the numeral `n`, comes to rest after `6 n + 2` head steps, at the number
/// `n`. It rewrites the two nodes of the decoder and otherwise only adds
/// nodes, six for each successor at most.
pub proof fn lemma_decode(s: Store, g: usize, n: nat, fuel: nat)
    requires
        s.wf(),
        is_decoder(s.mem, g, n),
        n <= u16::MAX,
        s.mem.len() + 6 * n <= usize::MAX,
        fuel >= decode_steps(n),
    ensures
        ({
            let o = run(s, g, fuel);
            &&& o.status == Status::Whnf
            &&& o.fuel == fuel - decode_steps(n)
            &&& o.store.wf()
            &&& o.store.mem[deref(o.store.mem, g) as int] == Graph::Num(n as u16)
            &&& forall|q: usize|
                live(s.mem, q) && q != g && q != lhs(s.mem, g) ==> #[trigger] o.store.mem[q as int]
                    == s.mem[q as int]
            &&& forall|q: usize| live(s.mem, q) ==> live(o.store.mem, q)
            &&& s.mem.len() <= o.store.mem.len() <= s.mem.len() + 6 * n
        }),
    decreases n,
{
    let h = s.mem;
    if n == 0 {
        lemma_decode_zero(s, g);
        lemma_run_steps(s, g, 2, fuel);
        let t = steps(s, g, 2);
        assert(run(t, g, (fuel - 2) as nat).store == t);
        assert forall|q: usize| live(h, q) implies live(t.mem, q) by {}
    } else {
        lemma_decode_succ(s, g, n);
        lemma_run_steps(s, g, 5, fuel);
        let t = steps(s, g, 5);
        let f1 = (fuel - 5) as nat;
        let inner = rhs(t.mem, g);
        lemma_decode(t, inner, (n - 1) as nat, f1);
        let o1 = run(t, inner, f1);
        lemma_run_under_inc(t, g, f1);
        lemma_run(t, inner, f1);
        let v = (n - 1) as u16;
        assert(live(o1.store.mem, g));
        lemma_step_inc(o1.store, g, v);
        let t7 = o1.store.set(g, Graph::Num(n as u16));
        assert(head_step(o1.store, g) == Step::Next(t7));
        assert(run(o1.store, g, o1.fuel) == run(t7, g, (o1.fuel - 1) as nat));
        assert(spine(t7.mem, g) =~= seq![g]);
        assert(head_step(t7, g) == Step::Stop(Status::Whnf));
        lemma_spine_at(t7.mem, g);
        assert forall|q: usize| live(h, q) && q != g && q != lhs(h, g) implies #[trigger] t7.mem[q as int]
            == h[q as int] by {
            assert(t.mem[q as int] == h[q as int]);
            assert(o1.store.mem[q as int] == t.mem[q as int]);
        }
        assert forall|q: usize| live(h, q) implies live(t7.mem, q) by {
            assert(live(t.mem, q));
            assert(live(o1.store.mem, q));
        }
    }
}

/// The store after the numeral `n` and its decoder were built: the
/// numeral, then `c Inc` and `c Inc 0` for its address `c`.
pub open spec fn decoder_built(s: Store, n: nat) -> Built {
    let c = church_built(s, n);
    let inc = c.store.put(Graph::Apply(c.at, INC));
    inc.store.put(Graph::Apply(inc.at, ZERO))
}

/// A numeral decodes to its number: with the numeral `n` built, and
/// applied to `Inc` and to zero, reduction comes to rest in weak head
/// normal form after `6 n + 2` head steps, and the application then stands
/// for the number `n`.
pub proof fn lemma_church_decodes(s: Store, n: nat, fuel: nat)
    requires
        s.wf(),
        n <= u16::MAX,
        fuel >= decode_steps(n),
        decoder_built(s, n).store.mem.len() + 6 * n <= usize::MAX,
    ensures
        ({
            let g = decoder_built(s, n);
            let o = run(g.store, g.at, fuel);
            &&& o.status == Status::Whnf
            &&& o.fuel == fuel - decode_steps(n)
            &&& o.store.mem[deref(o.store.mem, g.at) as int] == Graph::Num(n as u16)
        }),
{
    let c = church_built(s, n);
    let inc = c.store.put(Graph::Apply(c.at, INC));
    let g = inc.store.put(Graph::Apply(inc.at, ZERO));
    assert(c.store.mem.len() <= inc.store.mem.len() <= g.store.mem.len());
    lemma_church_built(s.mem, s, n);
    lemma_put(s.mem, c.store, Graph::Apply(c.at, INC));
    lemma_church_extends(c.store.mem, inc.store.mem, c.at, n);
    lemma_put(s.mem, inc.store, Graph::Apply(inc.at, ZERO));
    lemma_church_extends(inc.store.mem, g.store.mem, c.at, n);
    assert(g.store.mem[inc.at as int] == Graph::Apply(c.at, INC));
    lemma_spine_at(g.store.mem, c.at);
    lemma_decode(g.store, g.at, n, fuel);
}} // verus!
