use crate::expr::Expr;
use crate::graft::{
    church_built, cons_built, fed, is_church, is_cons, lemma_church_built, lemma_cons_built,
    lemma_fed,
};
use crate::graph::{live, Graph, I, K, S};
use crate::heap::{extends, frame};
use crate::machine::{lemma_place, Built, Store};
use crate::runner::Runner;
use vstd::prelude::*;

verus! {

/// The store after the term `e` was loaded: the primitives stand at their
/// fixed addresses, and each application is one new node, stored after its
/// two parts.
pub open spec fn loaded(s: Store, e: Expr) -> Built
    decreases e,
{
    match e {
        Expr::I => Built { store: s, at: I },
        Expr::K => Built { store: s, at: K },
        Expr::S => Built { store: s, at: S },
        Expr::A(l, r) => {
            let bl = loaded(s, *l);
            let br = loaded(bl.store, *r);
            br.store.put(Graph::Apply(bl.at, br.at))
        },
    }
}

/// The graph at `a` is the term `e`, node for node, with nothing reduced.
pub open spec fn holds(h: Seq<Graph>, a: usize, e: Expr) -> bool
    decreases e,
{
    match e {
        Expr::I => a == I,
        Expr::K => a == K,
        Expr::S => a == S,
        Expr::A(l, r) => live(h, a) && (h[a as int] matches Graph::Apply(la, ra) && holds(h, la, *l)
            && holds(h, ra, *r)),
    }
}

/// A loaded term stays what it is while the heap only grows.
pub proof fn lemma_holds_extends(h1: Seq<Graph>, h2: Seq<Graph>, a: usize, e: Expr)
    requires
        holds(h1, a, e),
        extends(h1, h2),
    ensures
        holds(h2, a, e),
    decreases e,
{
    match e {
        Expr::A(l, r) => {
            assert(h2[a as int] == h1[a as int]);
            match h1[a as int] {
                Graph::Apply(la, ra) => {
                    lemma_holds_extends(h1, h2, la, *l);
                    lemma_holds_extends(h1, h2, ra, *r);
                },
                _ => {},
            }
        },
        _ => {},
    }
}

/// Loading never shrinks the heap.
pub proof fn lemma_loaded_len(s: Store, e: Expr)
    ensures
        s.mem.len() <= loaded(s, e).store.mem.len(),
    decreases e,
{
    match e {
        Expr::A(l, r) => {
            lemma_loaded_len(s, *l);
            lemma_loaded_len(loaded(s, *l).store, *r);
        },
        _ => {},
    }
}

/// Loading keeps the invariant and every live node, and the address it
/// gives holds the term.
pub proof fn lemma_loaded(s: Store, e: Expr)
    requires
        s.wf(),
        loaded(s, e).store.mem.len() <= usize::MAX,
    ensures
        loaded(s, e).store.wf(),
        extends(s.mem, loaded(s, e).store.mem),
        live(loaded(s, e).store.mem, loaded(s, e).at),
        holds(loaded(s, e).store.mem, loaded(s, e).at, e),
    decreases e,
{
    match e {
        Expr::A(l, r) => {
            let bl = loaded(s, *l);
            let br = loaded(bl.store, *r);
            let b = br.store.put(Graph::Apply(bl.at, br.at));
            lemma_loaded_len(bl.store, *r);
            assert(br.store.mem.len() <= b.store.mem.len());
            lemma_loaded(s, *l);
            lemma_loaded(bl.store, *r);
            assert(live(br.store.mem, bl.at)) by {
                assert(br.store.mem[bl.at as int] == bl.store.mem[bl.at as int]);
            }
            lemma_place(br.store, Graph::Apply(bl.at, br.at));
            lemma_holds_extends(bl.store.mem, br.store.mem, bl.at, *l);
            lemma_holds_extends(br.store.mem, b.store.mem, bl.at, *l);
            lemma_holds_extends(br.store.mem, b.store.mem, br.at, *r);
            assert forall|a: usize| live(s.mem, a) implies #[trigger] b.store.mem[a as int]
                == s.mem[a as int] by {
                assert(live(bl.store.mem, a));
                assert(live(br.store.mem, a));
            }
        },
        _ => {},
    }
}

impl Runner {
    /// Loads the term `expr` and returns the address that holds it.
    pub fn push_expr(&mut self, expr: &Expr) -> (at: usize)
        requires
            old(self).wf(),
        ensures
            final(self).wf(),
            final(self).store() == loaded(old(self).store(), *expr).store,
            at == loaded(old(self).store(), *expr).at,
            extends(old(self).heap(), final(self).heap()),
            live(final(self).heap(), at),
            holds(final(self).heap(), at, *expr),
        decreases expr,
    {
        let at = match expr {
            Expr::I => I,
            Expr::K => K,
            Expr::S => S,
            Expr::A(l, r) => {
                let l = self.push_expr(l);
                let r = self.push_expr(r);
                proof {
                    assert(self.heap()[l as int] != Graph::Free);
                }
                self.push(Graph::Apply(l, r))
            },
        };
        proof {
            lemma_loaded(old(self).store(), *expr);
        }
        at
    }

    /// Builds the numeral `num` and returns its address.
    pub fn push_church(&mut self, num: u16) -> (at: usize)
        requires
            old(self).wf(),
        ensures
            final(self).wf(),
            final(self).store() == church_built(old(self).store(), num as nat).store,
            at == church_built(old(self).store(), num as nat).at,
            extends(old(self).heap(), final(self).heap()),
            is_church(final(self).heap(), at, num as nat),
        decreases num,
    {
        let at = if num == 0 {
            self.push(Graph::Apply(K, I))
        } else {
            let ks = self.push(Graph::Apply(K, S));
            proof {
                lemma_place(old(self).store(), Graph::Apply(K, S));
            }
            let ghost s1 = self.store();
            let s_ks = self.push(Graph::Apply(S, ks));
            proof {
                lemma_place(s1, Graph::Apply(S, ks));
            }
            let ghost s2 = self.store();
            let s_ks_k = self.push(Graph::Apply(s_ks, K));
            proof {
                lemma_place(s2, Graph::Apply(s_ks, K));
            }
            let ghost s3 = self.store();
            let succ = self.push(Graph::Apply(S, s_ks_k));
            proof {
                lemma_place(s3, Graph::Apply(S, s_ks_k));
            }
            let n = self.push_church(num - 1);
            proof {
                assert(self.heap()[succ as int] != Graph::Free);
            }
            self.push(Graph::Apply(succ, n))
        };
        proof {
            lemma_church_built(old(self).heap(), old(self).store(), num as nat);
        }
        at
    }

    /// Builds the pair of `car` and `cdr` and returns its address.
    pub fn push_cons(&mut self, car: usize, cdr: usize) -> (at: usize)
        requires
            old(self).wf(),
            live(old(self).heap(), car),
            live(old(self).heap(), cdr),
        ensures
            final(self).wf(),
            final(self).store() == cons_built(old(self).store(), car, cdr).store,
            at == cons_built(old(self).store(), car, cdr).at,
            extends(old(self).heap(), final(self).heap()),
            is_cons(final(self).heap(), at, car, cdr),
    {
        let ghost s0 = self.store();
        let k_car = self.push(Graph::Apply(K, car));
        proof {
            lemma_place(s0, Graph::Apply(K, car));
        }
        let ghost s1 = self.store();
        let k_cdr = self.push(Graph::Apply(K, cdr));
        proof {
            lemma_place(s1, Graph::Apply(K, cdr));
        }
        let ghost s2 = self.store();
        let s_i = self.push(Graph::Apply(S, I));
        proof {
            lemma_place(s2, Graph::Apply(S, I));
            assert(live(self.heap(), k_car));
        }
        let ghost s3 = self.store();
        let s_i_car = self.push(Graph::Apply(s_i, k_car));
        proof {
            lemma_place(s3, Graph::Apply(s_i, k_car));
        }
        let ghost s4 = self.store();
        let s_car = self.push(Graph::Apply(S, s_i_car));
        proof {
            lemma_place(s4, Graph::Apply(S, s_i_car));
            assert(live(s3.mem, k_cdr));
            assert(live(s4.mem, k_cdr));
            assert(live(self.heap(), k_cdr));
        }
        let at = self.push(Graph::Apply(s_car, k_cdr));
        proof {
            lemma_cons_built(s0.mem, s0, car, cdr);
        }
        at
    }

    /// Forces the unread input at `f` with `symbol`, a byte or 256 for the
    /// end of the input: builds the numeral of `symbol`, a new unread input
    /// and the pair of the two, and overwrites `f` with a link to the pair.
    pub fn feed(&mut self, f: usize, symbol: u16)
        requires
            old(self).wf(),
            f < old(self).heap().len(),
            old(self).heap()[f as int] == Graph::Stdin,
        ensures
            final(self).wf(),
            final(self).store() == fed(old(self).store(), f, symbol),
            frame(old(self).heap(), final(self).heap(), f),
    {
        let church = self.push_church(symbol);
        let stdin = self.push(Graph::Stdin);
        proof {
            lemma_place(church_built(old(self).store(), symbol as nat).store, Graph::Stdin);
        }
        let cons = self.push_cons(church, stdin);
        self.set(f, Graph::Link(cons));
        proof {
            lemma_fed(old(self).store(), f, symbol);
        }
    }
}

} // verus!
