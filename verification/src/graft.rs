use crate::graph::{live, node_closed, wf, Graph, I, K, PROGRAM_AREA_END, S};
use crate::heap::{extends, frame, fresh_in, lemma_link_fresh, node_fresh, self_contained};
use crate::machine::{lemma_place, Built, Store};
use vstd::prelude::*;

verus! {

/// Storing one node in a store that has grown out of `base`: the store
/// keeps what it had, the new node is in use at an address that `base` did
/// not use, and a node that points only at fresh addresses keeps the new
/// part self-contained.
pub proof fn lemma_put(base: Seq<Graph>, s: Store, g: Graph)
    requires
        s.wf(),
        extends(base, s.mem),
        node_closed(s.mem, g),
        g != Graph::Free,
        s.put(g).store.mem.len() <= usize::MAX,
    ensures
        s.put(g).store.wf(),
        extends(base, s.put(g).store.mem),
        extends(s.mem, s.put(g).store.mem),
        live(s.put(g).store.mem, s.put(g).at),
        s.put(g).store.mem[s.put(g).at as int] == g,
        !live(s.mem, s.put(g).at),
        !live(base, s.put(g).at),
        s.put(g).at >= PROGRAM_AREA_END,
        self_contained(base, s.mem) && node_fresh(base, g) ==> self_contained(
            base,
            s.put(g).store.mem,
        ),
{
    lemma_place(s, g);
    let h2 = s.put(g).store.mem;
    let at = s.put(g).at;
    assert forall|a: usize| live(base, a) implies #[trigger] h2[a as int] == base[a as int] by {
        assert(s.mem[a as int] == base[a as int]);
        assert(live(s.mem, a));
    }
    if live(base, at) {
        assert(s.mem[at as int] == base[at as int]);
    }
    if self_contained(base, s.mem) && node_fresh(base, g) {
        assert forall|a: int| 0 <= a < h2.len() && !live(base, a as usize) implies node_fresh(
            base,
            #[trigger] h2[a],
        ) by {
            if a != at {
                assert(h2[a as usize as int] == s.mem[a]);
                assert(node_fresh(base, s.mem[a]));
            }
        }
    }
}

/// The store after the pair of `car` and `cdr` was built: the term
/// `S (S I (K car)) (K cdr)`, six new nodes.
pub open spec fn cons_built(s: Store, car: usize, cdr: usize) -> Built {
    let k_car = s.put(Graph::Apply(K, car));
    let k_cdr = k_car.store.put(Graph::Apply(K, cdr));
    let s_i = k_cdr.store.put(Graph::Apply(S, I));
    let s_i_car = s_i.store.put(Graph::Apply(s_i.at, k_car.at));
    let s_car = s_i_car.store.put(Graph::Apply(S, s_i_car.at));
    s_car.store.put(Graph::Apply(s_car.at, k_cdr.at))
}

/// The node at `c` is the pair of `car` and `cdr`, with nothing reduced.
pub open spec fn is_cons(h: Seq<Graph>, c: usize, car: usize, cdr: usize) -> bool {
    &&& live(h, c)
    &&& h[c as int] is Apply
    &&& h[c as int] matches Graph::Apply(s_car, k_cdr) && {
        &&& live(h, k_cdr)
        &&& h[k_cdr as int] == Graph::Apply(K, cdr)
        &&& live(h, s_car)
        &&& h[s_car as int] matches Graph::Apply(s, s_i_car) && {
            &&& s == S
            &&& live(h, s_i_car)
            &&& h[s_i_car as int] matches Graph::Apply(s_i, k_car) && {
                &&& live(h, s_i)
                &&& h[s_i as int] == Graph::Apply(S, I)
                &&& live(h, k_car)
                &&& h[k_car as int] == Graph::Apply(K, car)
            }
        }
    }
}

/// A pair stays what it is while the heap only grows.
pub proof fn lemma_cons_extends(h1: Seq<Graph>, h2: Seq<Graph>, c: usize, car: usize, cdr: usize)
    requires
        is_cons(h1, c, car, cdr),
        extends(h1, h2),
    ensures
        is_cons(h2, c, car, cdr),
{
    assert(h2[c as int] == h1[c as int]);
    match h1[c as int] {
        Graph::Apply(s_car, k_cdr) => {
            assert(h2[k_cdr as int] == h1[k_cdr as int]);
            assert(h2[s_car as int] == h1[s_car as int]);
            match h1[s_car as int] {
                Graph::Apply(_, s_i_car) => {
                    assert(h2[s_i_car as int] == h1[s_i_car as int]);
                    match h1[s_i_car as int] {
                        Graph::Apply(s_i, k_car) => {
                            assert(h2[s_i as int] == h1[s_i as int]);
                            assert(h2[k_car as int] == h1[k_car as int]);
                        },
                        _ => {},
                    }
                },
                _ => {},
            }
        },
        _ => {},
    }
}

/// Building a pair keeps the invariant and what the store had, and the
/// pair stands at a fresh address.
pub proof fn lemma_cons_built(base: Seq<Graph>, s: Store, car: usize, cdr: usize)
    requires
        s.wf(),
        extends(base, s.mem),
        live(s.mem, car),
        live(s.mem, cdr),
        cons_built(s, car, cdr).store.mem.len() <= usize::MAX,
    ensures
        cons_built(s, car, cdr).store.wf(),
        extends(base, cons_built(s, car, cdr).store.mem),
        extends(s.mem, cons_built(s, car, cdr).store.mem),
        is_cons(cons_built(s, car, cdr).store.mem, cons_built(s, car, cdr).at, car, cdr),
        !live(s.mem, cons_built(s, car, cdr).at),
        !live(base, cons_built(s, car, cdr).at),
        self_contained(base, s.mem) && fresh_in(base, car) && fresh_in(base, cdr)
            ==> self_contained(base, cons_built(s, car, cdr).store.mem),
{
    let b1 = s.put(Graph::Apply(K, car));
    let b2 = b1.store.put(Graph::Apply(K, cdr));
    let b3 = b2.store.put(Graph::Apply(S, I));
    let b4 = b3.store.put(Graph::Apply(b3.at, b1.at));
    let b5 = b4.store.put(Graph::Apply(S, b4.at));
    let b6 = b5.store.put(Graph::Apply(b5.at, b2.at));
    assert(b1.store.mem.len() <= b2.store.mem.len() <= b3.store.mem.len() <= b4.store.mem.len()
        <= b5.store.mem.len() <= b6.store.mem.len());
    lemma_put(base, s, Graph::Apply(K, car));
    assert(live(b1.store.mem, cdr));
    lemma_put(base, b1.store, Graph::Apply(K, cdr));
    lemma_put(base, b2.store, Graph::Apply(S, I));
    assert(live(b3.store.mem, b1.at)) by {
        assert(live(b2.store.mem, b1.at));
    }
    lemma_put(base, b3.store, Graph::Apply(b3.at, b1.at));
    lemma_put(base, b4.store, Graph::Apply(S, b4.at));
    assert(live(b5.store.mem, b2.at)) by {
        assert(live(b3.store.mem, b2.at));
        assert(live(b4.store.mem, b2.at));
    }
    lemma_put(base, b5.store, Graph::Apply(b5.at, b2.at));
    let h = b6.store.mem;
    assert(h[b5.at as int] == Graph::Apply(S, b4.at));
    assert(h[b4.at as int] == Graph::Apply(b3.at, b1.at)) by {
        assert(live(b5.store.mem, b4.at));
    }
    assert(h[b3.at as int] == Graph::Apply(S, I)) by {
        assert(live(b4.store.mem, b3.at));
        assert(live(b5.store.mem, b3.at));
    }
    assert(h[b2.at as int] == Graph::Apply(K, cdr));
    assert(h[b1.at as int] == Graph::Apply(K, car)) by {
        assert(live(b4.store.mem, b1.at));
        assert(live(b5.store.mem, b1.at));
    }
    assert forall|a: usize| live(s.mem, a) implies #[trigger] h[a as int] == s.mem[a as int] by {
        assert(live(b1.store.mem, a));
        assert(live(b2.store.mem, a));
        assert(live(b3.store.mem, a));
        assert(live(b4.store.mem, a));
        assert(live(b5.store.mem, a));
    }
    if live(s.mem, b6.at) {
        assert(live(b5.store.mem, b6.at));
    }
}

/// The store after the numeral `n` was built: `K I` for zero, and for a
/// successor `S (S (K S) K)` applied to the numeral before it, the
/// successor's four nodes first.
pub open spec fn church_built(s: Store, n: nat) -> Built
    decreases n,
{
    if n == 0 {
        s.put(Graph::Apply(K, I))
    } else {
        let ks = s.put(Graph::Apply(K, S));
        let s_ks = ks.store.put(Graph::Apply(S, ks.at));
        let s_ks_k = s_ks.store.put(Graph::Apply(s_ks.at, K));
        let succ = s_ks_k.store.put(Graph::Apply(S, s_ks_k.at));
        let pred = church_built(succ.store, (n - 1) as nat);
        pred.store.put(Graph::Apply(succ.at, pred.at))
    }
}

/// The node at `a` is the successor `S (S (K S) K)`, with nothing reduced.
pub open spec fn is_succ(h: Seq<Graph>, a: usize) -> bool {
    &&& live(h, a)
    &&& h[a as int] matches Graph::Apply(s, s_ks_k) && {
        &&& s == S
        &&& live(h, s_ks_k)
        &&& h[s_ks_k as int] matches Graph::Apply(s_ks, k) && {
            &&& k == K
            &&& live(h, s_ks)
            &&& h[s_ks as int] matches Graph::Apply(s2, ks) && {
                &&& s2 == S
                &&& live(h, ks)
                &&& h[ks as int] == Graph::Apply(K, S)
            }
        }
    }
}

/// The node at `a` is the numeral `n`, with nothing reduced.
pub open spec fn is_church(h: Seq<Graph>, a: usize, n: nat) -> bool
    decreases n,
{
    &&& live(h, a)
    &&& if n == 0 {
        h[a as int] == Graph::Apply(K, I)
    } else {
        h[a as int] matches Graph::Apply(succ, pred) && is_succ(h, succ) && is_church(
            h,
            pred,
            (n - 1) as nat,
        )
    }
}

/// A numeral stays what it is while the heap only grows.
pub proof fn lemma_church_extends(h1: Seq<Graph>, h2: Seq<Graph>, a: usize, n: nat)
    requires
        is_church(h1, a, n),
        extends(h1, h2),
    ensures
        is_church(h2, a, n),
    decreases n,
{
    assert(h2[a as int] == h1[a as int]);
    if n > 0 {
        match h1[a as int] {
            Graph::Apply(succ, pred) => {
                lemma_church_extends(h1, h2, pred, (n - 1) as nat);
                assert(h2[succ as int] == h1[succ as int]);
                match h1[succ as int] {
                    Graph::Apply(_, s_ks_k) => {
                        assert(h2[s_ks_k as int] == h1[s_ks_k as int]);
                        match h1[s_ks_k as int] {
                            Graph::Apply(s_ks, _) => {
                                assert(h2[s_ks as int] == h1[s_ks as int]);
                                match h1[s_ks as int] {
                                    Graph::Apply(_, ks) => {
                                        assert(h2[ks as int] == h1[ks as int]);
                                    },
                                    _ => {},
                                }
                            },
                            _ => {},
                        }
                    },
                    _ => {},
                }
            },
            _ => {},
        }
    }
}

/// Building never shrinks the heap.
pub proof fn lemma_church_len(s: Store, n: nat)
    ensures
        s.mem.len() <= church_built(s, n).store.mem.len(),
    decreases n,
{
    if n > 0 {
        let ks = s.put(Graph::Apply(K, S));
        let s_ks = ks.store.put(Graph::Apply(S, ks.at));
        let s_ks_k = s_ks.store.put(Graph::Apply(s_ks.at, K));
        let succ = s_ks_k.store.put(Graph::Apply(S, s_ks_k.at));
        lemma_church_len(succ.store, (n - 1) as nat);
    }
}

/// Building a numeral keeps the invariant and what the store had; the
/// numeral stands at a fresh address and is made of nodes that point only
/// at one another and at the primitives.
pub proof fn lemma_church_built(base: Seq<Graph>, s: Store, n: nat)
    requires
        s.wf(),
        extends(base, s.mem),
        church_built(s, n).store.mem.len() <= usize::MAX,
    ensures
        church_built(s, n).store.wf(),
        extends(base, church_built(s, n).store.mem),
        extends(s.mem, church_built(s, n).store.mem),
        is_church(church_built(s, n).store.mem, church_built(s, n).at, n),
        !live(s.mem, church_built(s, n).at),
        !live(base, church_built(s, n).at),
        self_contained(base, s.mem) ==> self_contained(base, church_built(s, n).store.mem),
    decreases n,
{
    if n == 0 {
        lemma_put(base, s, Graph::Apply(K, I));
    } else {
        let b1 = s.put(Graph::Apply(K, S));
        let b2 = b1.store.put(Graph::Apply(S, b1.at));
        let b3 = b2.store.put(Graph::Apply(b2.at, K));
        let b4 = b3.store.put(Graph::Apply(S, b3.at));
        let b5 = church_built(b4.store, (n - 1) as nat);
        let b6 = b5.store.put(Graph::Apply(b4.at, b5.at));
        lemma_church_len(b4.store, (n - 1) as nat);
        assert(b1.store.mem.len() <= b2.store.mem.len() <= b3.store.mem.len() <= b4.store.mem.len()
            <= b5.store.mem.len() <= b6.store.mem.len());
        lemma_put(base, s, Graph::Apply(K, S));
        lemma_put(base, b1.store, Graph::Apply(S, b1.at));
        lemma_put(base, b2.store, Graph::Apply(b2.at, K));
        lemma_put(base, b3.store, Graph::Apply(S, b3.at));
        lemma_church_built(base, b4.store, (n - 1) as nat);
        let h4 = b4.store.mem;
        assert(is_succ(h4, b4.at)) by {
            assert(live(b3.store.mem, b1.at));
            assert(live(b3.store.mem, b2.at));
            assert(h4[b3.at as int] == Graph::Apply(b2.at, K));
            assert(h4[b2.at as int] == Graph::Apply(S, b1.at));
            assert(h4[b1.at as int] == Graph::Apply(K, S));
        }
        let h5 = b5.store.mem;
        assert(live(h5, b4.at));
        lemma_put(base, b5.store, Graph::Apply(b4.at, b5.at));
        let h = b6.store.mem;
        lemma_church_extends(h5, h, b5.at, (n - 1) as nat);
        assert(is_succ(h, b4.at)) by {
            let g4 = h4[b4.at as int];
            assert(h5[b4.at as int] == g4 && h[b4.at as int] == g4);
            assert(h5[b3.at as int] == h4[b3.at as int] && h[b3.at as int] == h4[b3.at as int]);
            assert(h5[b2.at as int] == h4[b2.at as int] && h[b2.at as int] == h4[b2.at as int]);
            assert(h5[b1.at as int] == h4[b1.at as int] && h[b1.at as int] == h4[b1.at as int]);
        }
        assert forall|a: usize| live(s.mem, a) implies #[trigger] h[a as int] == s.mem[a as int] by {
            assert(live(b1.store.mem, a));
            assert(live(b2.store.mem, a));
            assert(live(b3.store.mem, a));
            assert(live(h4, a));
            assert(live(h5, a));
        }
        if live(s.mem, b6.at) {
            assert(live(h5, b6.at));
        }
    }
}

/// The store after the unread input at `f` was forced with the symbol
/// `sym`: the numeral of `sym`, a new unread input and the pair of the two
/// are built, and `f` becomes a link to the pair.
pub open spec fn fed(s: Store, f: usize, sym: u16) -> Store {
    let church = church_built(s, sym as nat);
    let tail = church.store.put(Graph::Stdin);
    let pair = cons_built(tail.store, church.at, tail.at);
    pair.store.set(f, Graph::Link(pair.at))
}

/// A pair built out of fresh nodes stays what it is while the fresh nodes
/// stay as they are.
pub proof fn lemma_cons_kept(
    base: Seq<Graph>,
    h1: Seq<Graph>,
    h2: Seq<Graph>,
    c: usize,
    car: usize,
    cdr: usize,
)
    requires
        wf(h1),
        is_cons(h1, c, car, cdr),
        self_contained(base, h1),
        !live(base, c),
        h1.len() <= h2.len(),
        forall|a: usize| a < h1.len() && !live(base, a) ==> #[trigger] h2[a as int] == h1[a as int],
    ensures
        is_cons(h2, c, car, cdr),
{
    assert(h2[c as int] == h1[c as int]);
    assert(node_fresh(base, h1[c as int]));
    match h1[c as int] {
        Graph::Apply(s_car, k_cdr) => {
            assert(h2[k_cdr as int] == h1[k_cdr as int]);
            assert(h2[s_car as int] == h1[s_car as int]);
            assert(node_fresh(base, h1[s_car as int]));
            match h1[s_car as int] {
                Graph::Apply(_, s_i_car) => {
                    assert(h2[s_i_car as int] == h1[s_i_car as int]);
                    assert(node_fresh(base, h1[s_i_car as int]));
                    match h1[s_i_car as int] {
                        Graph::Apply(s_i, k_car) => {
                            assert(h2[s_i as int] == h1[s_i as int]);
                            assert(h2[k_car as int] == h1[k_car as int]);
                        },
                        _ => {},
                    }
                },
                _ => {},
            }
        },
        _ => {},
    }
}

/// A numeral built out of fresh nodes stays what it is while the fresh
/// nodes stay as they are.
pub proof fn lemma_church_kept(base: Seq<Graph>, h1: Seq<Graph>, h2: Seq<Graph>, c: usize, n: nat)
    requires
        wf(h1),
        is_church(h1, c, n),
        self_contained(base, h1),
        !live(base, c),
        h1.len() <= h2.len(),
        forall|a: usize| a < h1.len() && !live(base, a) ==> #[trigger] h2[a as int] == h1[a as int],
    ensures
        is_church(h2, c, n),
    decreases n,
{
    assert(h2[c as int] == h1[c as int]);
    assert(node_fresh(base, h1[c as int]));
    if n > 0 {
        match h1[c as int] {
            Graph::Apply(succ, pred) => {
                assert(is_church(h1, pred, (n - 1) as nat));
                assert(h1[pred as int] is Apply);
                assert(!live(base, pred));
                lemma_church_kept(base, h1, h2, pred, (n - 1) as nat);
                assert(h2[succ as int] == h1[succ as int]);
                assert(node_fresh(base, h1[succ as int]));
                match h1[succ as int] {
                    Graph::Apply(_, s_ks_k) => {
                        assert(h2[s_ks_k as int] == h1[s_ks_k as int]);
                        assert(node_fresh(base, h1[s_ks_k as int]));
                        match h1[s_ks_k as int] {
                            Graph::Apply(s_ks, _) => {
                                assert(h2[s_ks as int] == h1[s_ks as int]);
                                assert(node_fresh(base, h1[s_ks as int]));
                                match h1[s_ks as int] {
                                    Graph::Apply(_, ks) => {
                                        assert(h2[ks as int] == h1[ks as int]);
                                    },
                                    _ => {},
                                }
                            },
                            _ => {},
                        }
                    },
                    _ => {},
                }
            },
            _ => {},
        }
    }
}

/// A numeral takes five nodes for each successor, and one.
pub proof fn lemma_church_size(s: Store, n: nat)
    ensures
        church_built(s, n).store.mem.len() <= s.mem.len() + 5 * n + 1,
    decreases n,
{
    if n > 0 {
        let ks = s.put(Graph::Apply(K, S));
        let s_ks = ks.store.put(Graph::Apply(S, ks.at));
        let s_ks_k = s_ks.store.put(Graph::Apply(s_ks.at, K));
        let succ = s_ks_k.store.put(Graph::Apply(S, s_ks_k.at));
        lemma_church_size(succ.store, (n - 1) as nat);
    }
}

/// Forcing the input takes the nodes of the numeral, and eight.
pub proof fn lemma_fed_size(s: Store, f: usize, sym: u16)
    requires
        f < s.mem.len(),
    ensures
        s.mem.len() <= fed(s, f, sym).mem.len() <= s.mem.len() + 5 * sym + 8,
{
    let church = church_built(s, sym as nat);
    let tail = church.store.put(Graph::Stdin);
    let b1 = tail.store.put(Graph::Apply(K, church.at));
    let b2 = b1.store.put(Graph::Apply(K, tail.at));
    let b3 = b2.store.put(Graph::Apply(S, I));
    let b4 = b3.store.put(Graph::Apply(b3.at, b1.at));
    let b5 = b4.store.put(Graph::Apply(S, b4.at));
    let pair = b5.store.put(Graph::Apply(b5.at, b2.at));
    lemma_church_size(s, sym as nat);
    lemma_church_len(s, sym as nat);
    assert(church.store.mem.len() <= tail.store.mem.len() <= church.store.mem.len() + 1);
    assert(tail.store.mem.len() <= b1.store.mem.len() <= tail.store.mem.len() + 1);
    assert(b1.store.mem.len() <= b2.store.mem.len() <= b1.store.mem.len() + 1);
    assert(b2.store.mem.len() <= b3.store.mem.len() <= b2.store.mem.len() + 1);
    assert(b3.store.mem.len() <= b4.store.mem.len() <= b3.store.mem.len() + 1);
    assert(b4.store.mem.len() <= b5.store.mem.len() <= b4.store.mem.len() + 1);
    assert(b5.store.mem.len() <= pair.store.mem.len() <= b5.store.mem.len() + 1);
    assert(cons_built(tail.store, church.at, tail.at) == pair);
    assert(fed(s, f, sym).mem.len() == pair.store.mem.len());
}

/// Forcing the input keeps the invariant and every live node but the
/// forced one, which becomes a link to a pair of the numeral of the symbol
/// and a new unread input, all of them at fresh addresses.
pub proof fn lemma_fed(s: Store, f: usize, sym: u16)
    requires
        s.wf(),
        f < s.mem.len(),
        s.mem[f as int] == Graph::Stdin,
        fed(s, f, sym).mem.len() <= usize::MAX,
    ensures
        ({
            let church = church_built(s, sym as nat);
            let tail = church.store.put(Graph::Stdin);
            let pair = cons_built(tail.store, church.at, tail.at);
            let t = fed(s, f, sym);
            &&& t.wf()
            &&& frame(s.mem, t.mem, f)
            &&& t.mem[f as int] == Graph::Link(pair.at)
            &&& is_cons(t.mem, pair.at, church.at, tail.at)
            &&& is_church(t.mem, church.at, sym as nat)
            &&& tail.at < t.mem.len()
            &&& t.mem[tail.at as int] == Graph::Stdin
            &&& !live(s.mem, pair.at)
            &&& !live(s.mem, church.at)
            &&& !live(s.mem, tail.at)
        }),
{
    let base = s.mem;
    let church = church_built(s, sym as nat);
    let tail = church.store.put(Graph::Stdin);
    let pair = cons_built(tail.store, church.at, tail.at);
    let t = fed(s, f, sym);
    assert(church.store.mem.len() <= tail.store.mem.len() <= pair.store.mem.len()) by {
        let b1 = tail.store.put(Graph::Apply(K, church.at));
        let b2 = b1.store.put(Graph::Apply(K, tail.at));
        let b3 = b2.store.put(Graph::Apply(S, I));
        let b4 = b3.store.put(Graph::Apply(b3.at, b1.at));
        let b5 = b4.store.put(Graph::Apply(S, b4.at));
        assert(tail.store.mem.len() <= b1.store.mem.len() <= b2.store.mem.len()
            <= b3.store.mem.len() <= b4.store.mem.len() <= b5.store.mem.len()
            <= pair.store.mem.len());
    }
    assert(self_contained(base, base));
    lemma_church_built(base, s, sym as nat);
    lemma_put(base, church.store, Graph::Stdin);
    assert(live(tail.store.mem, church.at));
    lemma_cons_built(base, tail.store, church.at, tail.at);
    lemma_link_fresh(base, pair.store.mem, f, pair.at);
    let h1 = pair.store.mem;
    lemma_church_extends(church.store.mem, tail.store.mem, church.at, sym as nat);
    lemma_church_extends(tail.store.mem, h1, church.at, sym as nat);
    assert(h1[tail.at as int] == Graph::Stdin) by {
        assert(live(tail.store.mem, tail.at));
    }
    assert forall|a: usize| a < h1.len() && !live(base, a) implies #[trigger] t.mem[a as int]
        == h1[a as int] by {}
    lemma_cons_kept(base, h1, t.mem, pair.at, church.at, tail.at);
    lemma_church_kept(base, h1, t.mem, church.at, sym as nat);
}

} // verus!
