use crate::collect::{lemma_reaches_self, swept};
use crate::expr::Expr;
use crate::graft::{fed, lemma_fed};
use crate::graph::{deref, live, Graph, I, INC, K, PROGRAM_AREA_END, ZERO};
use crate::heap::lemma_frame_live;
use crate::loader::loaded;
use crate::machine::{lemma_head_step, lemma_place, lemma_run, run, Built, Status, Store};
use crate::runner::Runner;
use vstd::prelude::*;

verus! {

/// The number of slots past which the heap is swept after a byte: what 256
/// MiB hold at 24 bytes a node.
pub const HEAP_BUDGET: usize = 11_184_810;

/// Why a program cannot go on.
#[derive(Clone, Copy, Debug, PartialEq, Eq, Structural)]
pub enum Fault {
    /// `Inc` was applied to the node at this address, which is no number.
    CannotIncrement(usize),
    /// The head of the output, decoded at this address, is no number.
    NotNumeral(usize),
    /// A number grew past what a node can hold; the application of `Inc` is
    /// at this address.
    Overflow(usize),
    /// The heap has no addresses left.
    Exhausted,
}

/// What the caller of `poll` is to do next.
#[derive(Clone, Copy, Debug, PartialEq, Eq, Structural)]
pub enum Action {
    /// Write this byte, then poll again.
    Emit(u8),
    /// Read one symbol, hand it to `supply`, then poll again.
    Read,
    /// The output has ended.
    Halt,
    /// The program is ill-typed or too large.
    Fail(Fault),
    /// The step budget ran out; poll again to go on.
    Yield,
}

/// How a run over a given input ended.
#[derive(Clone, Copy, Debug, PartialEq, Eq, Structural)]
pub enum Exit {
    /// The output ended.
    Done,
    /// The program could not go on.
    Failed(Fault),
    /// The fuel ran out before the output ended.
    OutOfFuel,
}

/// Where the decoding of the output stands: the list that is left, the
/// node that decodes its head, and the unread input that reduction is
/// waiting on, if any.
#[derive(Clone, Copy, Debug, PartialEq, Eq, Structural)]
pub struct Cursor {
    pub root: usize,
    pub probe: usize,
    pub pending: Option<usize>,
}

/// A heap together with a cursor into it.
pub struct Play {
    pub store: Store,
    pub cur: Cursor,
}

impl Play {
    /// The store is well formed, the list and its decoder are in use, and the
    /// input that is waited on is unread.
    pub open spec fn wf(self) -> bool {
        &&& self.store.wf()
        &&& live(self.store.mem, self.cur.root)
        &&& live(self.store.mem, self.cur.probe)
        &&& self.cur.pending matches Some(f) ==> f < self.store.mem.len() && self.store.mem[f as int]
            == Graph::Stdin
    }
}

/// The store after the decoder of the head of the list at `root` was
/// built: `root K Inc 0`, three new nodes.
pub open spec fn probed(s: Store, root: usize) -> Built {
    let car = s.put(Graph::Apply(root, K));
    let inc = car.store.put(Graph::Apply(car.at, INC));
    inc.store.put(Graph::Apply(inc.at, ZERO))
}

/// The store after the tail of the list at `root` was built:
/// `root (K I)`, two new nodes.
pub open spec fn advanced(s: Store, root: usize) -> Built {
    let ki = s.put(Graph::Apply(K, I));
    ki.store.put(Graph::Apply(root, ki.at))
}

/// The store after a sweep from `root`, if it holds more than `budget`
/// slots; else the store as it is.
pub open spec fn trimmed(s: Store, root: usize, budget: usize) -> Store {
    if s.mem.len() > budget {
        Store { mem: swept(s.mem, root), fresh: PROGRAM_AREA_END as nat }
    } else {
        s
    }
}

/// A list to be decoded, from its start.
pub open spec fn opened(s: Store, start: usize) -> Play {
    let p = probed(s, start);
    Play { store: p.store, cur: Cursor { root: start, probe: p.at, pending: None } }
}

/// What `poll` gives: the next state, what to do, and what is left of the
/// step budget.
pub struct Polled {
    pub play: Play,
    pub action: Action,
    pub fuel: nat,
}

/// One round of decoding. The probe is reduced with `fuel` steps at most.
/// Where it comes to rest as a number below 256, that byte is emitted, the
/// list moves on to its tail, the heap is swept if it is over `budget`, and
/// the next probe is built. A number from 256 on ends the output. Unread
/// input at the head asks for a symbol.
#[verifier::opaque]
pub open spec fn polled(p: Play, budget: usize, fuel: nat) -> Polled {
    let o = run(p.store, p.cur.probe, fuel);
    let rest = Play { store: o.store, cur: Cursor { pending: None, ..p.cur } };
    match o.status {
        Status::Whnf => match o.store.mem[deref(o.store.mem, p.cur.probe) as int] {
            Graph::Num(v) => if v >= 256 {
                Polled { play: rest, action: Action::Halt, fuel: o.fuel }
            } else {
                let tail = advanced(o.store, p.cur.root);
                let next = probed(trimmed(tail.store, tail.at, budget), tail.at);
                Polled {
                    play: Play {
                        store: next.store,
                        cur: Cursor { root: tail.at, probe: next.at, pending: None },
                    },
                    action: Action::Emit(v as u8),
                    fuel: o.fuel,
                }
            },
            _ => Polled {
                play: rest,
                action: Action::Fail(Fault::NotNumeral(p.cur.probe)),
                fuel: o.fuel,
            },
        },
        Status::Input(f) => Polled {
            play: Play { store: o.store, cur: Cursor { pending: Some(f), ..p.cur } },
            action: Action::Read,
            fuel: o.fuel,
        },
        Status::NotNumber(t) => Polled {
            play: rest,
            action: Action::Fail(Fault::CannotIncrement(t)),
            fuel: o.fuel,
        },
        Status::Overflow(r) => Polled {
            play: rest,
            action: Action::Fail(Fault::Overflow(r)),
            fuel: o.fuel,
        },
        Status::Exhausted => Polled {
            play: rest,
            action: Action::Fail(Fault::Exhausted),
            fuel: o.fuel,
        },
        Status::OutOfFuel => Polled { play: rest, action: Action::Yield, fuel: o.fuel },
    }
}

/// The state after the pending input was forced with `symbol`.
pub open spec fn supplied(p: Play, symbol: u16) -> Play {
    match p.cur.pending {
        Some(f) => Play { store: fed(p.store, f, symbol), cur: Cursor { pending: None, ..p.cur } },
        None => p,
    }
}

/// The symbol that the input `input` gives at position `pos`: its byte
/// there, or 256 past its end.
pub open spec fn symbol_at(input: Seq<u8>, pos: nat) -> u16 {
    if pos < input.len() {
        input[pos as int] as u16
    } else {
        256
    }
}

/// What a run gives: the bytes written, how it ended, and how much of the
/// input was read.
pub struct Played {
    pub play: Play,
    pub out: Seq<u8>,
    pub pos: nat,
    pub exit: Exit,
}

/// A whole run over the input `input`, read from `pos` on. Each round
/// takes one unit of `fuel` for itself and polls with the rest; the run
/// ends as `OutOfFuel` when a round cannot be paid for or a poll yields.
pub open spec fn played(p: Play, input: Seq<u8>, pos: nat, budget: usize, fuel: nat) -> Played
    decreases fuel,
{
    if fuel == 0 {
        Played { play: p, out: seq![], pos, exit: Exit::OutOfFuel }
    } else {
        let r = polled(p, budget, (fuel - 1) as nat);
        if r.fuel >= fuel {
            Played { play: r.play, out: seq![], pos, exit: Exit::OutOfFuel }
        } else {
            match r.action {
                Action::Emit(b) => {
                    let rest = played(r.play, input, pos, budget, r.fuel);
                    Played { out: seq![b] + rest.out, ..rest }
                },
                Action::Read => played(
                    supplied(r.play, symbol_at(input, pos)),
                    input,
                    if pos < input.len() {
                        pos + 1
                    } else {
                        pos
                    },
                    budget,
                    r.fuel,
                ),
                Action::Halt => Played { play: r.play, out: seq![], pos, exit: Exit::Done },
                Action::Fail(fault) => Played {
                    play: r.play,
                    out: seq![],
                    pos,
                    exit: Exit::Failed(fault),
                },
                Action::Yield => Played { play: r.play, out: seq![], pos, exit: Exit::OutOfFuel },
            }
        }
    }
}

/// The heap that a program starts on: the term, applied to the unread
/// input.
pub open spec fn started(e: Expr) -> Built {
    let s = Store {
        mem: seq![Graph::S, Graph::K, Graph::I, Graph::Inc, Graph::Num(0)],
        fresh: PROGRAM_AREA_END as nat,
    };
    let program = loaded(s, e);
    let stdin = program.store.put(Graph::Stdin);
    stdin.store.put(Graph::Apply(program.at, stdin.at))
}

impl Runner {
    /// A new heap with `expr` loaded and applied to the unread input, and
    /// the address of that application: the output list of the program.
    pub fn load(expr: &Expr) -> (res: (Runner, usize))
        ensures
            res.0.wf(),
            res.0.store() == started(*expr).store,
            res.1 == started(*expr).at,
            live(res.0.heap(), res.1),
    {
        let mut this = Runner::new();
        let i = this.push_expr(expr);
        let ghost s1 = this.store();
        let stdin = this.push(Graph::Stdin);
        proof {
            lemma_place(s1, Graph::Stdin);
            assert(live(this.heap(), i)) by {
                assert(this.heap()[i as int] == s1.mem[i as int]);
            }
        }
        let ghost s2 = this.store();
        let start = this.push(Graph::Apply(i, stdin));
        proof {
            lemma_place(s2, Graph::Apply(i, stdin));
        }
        (this, start)
    }

    /// Builds the decoder of the head of the list at `root`.
    pub fn probe(&mut self, root: usize) -> (g: usize)
        requires
            old(self).wf(),
            live(old(self).heap(), root),
        ensures
            final(self).wf(),
            final(self).store() == probed(old(self).store(), root).store,
            g == probed(old(self).store(), root).at,
            live(final(self).heap(), g),
            forall|a: usize| live(old(self).heap(), a) ==> live(final(self).heap(), a),
            forall|a: usize|
                a < old(self).heap().len() && old(self).heap()[a as int] == Graph::Stdin
                    ==> final(self).heap()[a as int] == Graph::Stdin,
    {
        let ghost s0 = self.store();
        let car = self.push(Graph::Apply(root, K));
        proof {
            lemma_place(s0, Graph::Apply(root, K));
        }
        let ghost s1 = self.store();
        let i = self.push(Graph::Apply(car, INC));
        proof {
            lemma_place(s1, Graph::Apply(car, INC));
        }
        let ghost s2 = self.store();
        let g = self.push(Graph::Apply(i, ZERO));
        proof {
            lemma_place(s2, Graph::Apply(i, ZERO));
            assert forall|a: usize| live(s0.mem, a) implies live(self.heap(), a) by {
                assert(s1.mem[a as int] == s0.mem[a as int]);
                assert(s2.mem[a as int] == s1.mem[a as int]);
                assert(self.heap()[a as int] == s2.mem[a as int]);
            }
            assert forall|a: usize|
                a < s0.mem.len() && s0.mem[a as int] == Graph::Stdin implies self.heap()[a as int]
                == Graph::Stdin by {
                assert(live(s0.mem, a));
                assert(s1.mem[a as int] == s0.mem[a as int]);
                assert(s2.mem[a as int] == s1.mem[a as int]);
                assert(self.heap()[a as int] == s2.mem[a as int]);
            }
        }
        g
    }

    /// Builds the tail of the list at `root`.
    pub fn advance(&mut self, root: usize) -> (tail: usize)
        requires
            old(self).wf(),
            live(old(self).heap(), root),
        ensures
            final(self).wf(),
            final(self).store() == advanced(old(self).store(), root).store,
            tail == advanced(old(self).store(), root).at,
            live(final(self).heap(), tail),
    {
        let ghost s0 = self.store();
        let ki = self.push(Graph::Apply(K, I));
        proof {
            lemma_place(s0, Graph::Apply(K, I));
            assert(live(self.heap(), root)) by {
                assert(self.heap()[root as int] == s0.mem[root as int]);
            }
        }
        let ghost s1 = self.store();
        let tail = self.push(Graph::Apply(root, ki));
        proof {
            lemma_place(s1, Graph::Apply(root, ki));
        }
        tail
    }

    /// Sweeps the heap from `root` if it holds more than `budget` slots.
    pub fn trim(&mut self, root: usize, budget: usize)
        requires
            old(self).wf(),
            live(old(self).heap(), root),
        ensures
            final(self).wf(),
            final(self).store() == trimmed(old(self).store(), root, budget),
            live(final(self).heap(), root),
    {
        if self.len() > budget {
            proof {
                lemma_reaches_self(self.heap(), root);
            }
            self.garbage_collect(root);
        }
    }

    /// Starts the decoding of the list at `start`.
    pub fn open(&mut self, start: usize) -> (cur: Cursor)
        requires
            old(self).wf(),
            live(old(self).heap(), start),
        ensures
            (Play { store: final(self).store(), cur }) == opened(old(self).store(), start),
            (Play { store: final(self).store(), cur }).wf(),
    {
        let probe = self.probe(start);
        Cursor { root: start, probe, pending: None }
    }

    /// One round of decoding, with `fuel` reduction steps at most: says
    /// what to do next, and how much of `fuel` is left.
    pub fn poll(&mut self, cur: &mut Cursor, budget: usize, fuel: u64) -> (res: (Action, u64))
        requires
            (Play { store: old(self).store(), cur: *old(cur) }).wf(),
        ensures
            (Play { store: final(self).store(), cur: *final(cur) }).wf(),
            (Play { store: final(self).store(), cur: *final(cur) }) == polled(
                Play { store: old(self).store(), cur: *old(cur) },
                budget,
                fuel as nat,
            ).play,
            res.0 == polled(
                Play { store: old(self).store(), cur: *old(cur) },
                budget,
                fuel as nat,
            ).action,
            res.1 == polled(
                Play { store: old(self).store(), cur: *old(cur) },
                budget,
                fuel as nat,
            ).fuel,
            res.1 <= fuel,
            res.0 == Action::Read <==> final(cur).pending is Some,
    {
        let ghost s0 = self.store();
        proof {
            reveal(polled);
            lemma_run(s0, cur.probe, fuel as nat);
        }
        let (status, left) = self.reduce(cur.probe, fuel);
        proof {
            lemma_head_step(self.store(), cur.probe);
        }
        cur.pending = None;
        let action = match status {
            Status::Whnf => {
                let d = self.follow_link(cur.probe);
                match self.get(d) {
                    Graph::Num(v) => {
                        if v >= 256 {
                            Action::Halt
                        } else {
                            let tail = self.advance(cur.root);
                            self.trim(tail, budget);
                            let probe = self.probe(tail);
                            cur.root = tail;
                            cur.probe = probe;
                            Action::Emit(v as u8)
                        }
                    },
                    _ => Action::Fail(Fault::NotNumeral(cur.probe)),
                }
            },
            Status::Input(f) => {
                cur.pending = Some(f);
                Action::Read
            },
            Status::NotNumber(t) => Action::Fail(Fault::CannotIncrement(t)),
            Status::Overflow(r) => Action::Fail(Fault::Overflow(r)),
            Status::Exhausted => Action::Fail(Fault::Exhausted),
            Status::OutOfFuel => Action::Yield,
        };
        (action, left)
    }

    /// Forces the input that the last poll asked for with `symbol`: a byte,
    /// or 256 for the end of the input.
    pub fn supply(&mut self, cur: &mut Cursor, symbol: u16)
        requires
            (Play { store: old(self).store(), cur: *old(cur) }).wf(),
            old(cur).pending is Some,
        ensures
            (Play { store: final(self).store(), cur: *final(cur) }).wf(),
            (Play { store: final(self).store(), cur: *final(cur) }) == supplied(
                Play { store: old(self).store(), cur: *old(cur) },
                symbol,
            ),
    {
        let ghost h = self.heap();
        match cur.pending {
            Some(f) => {
                self.feed(f, symbol);
                cur.pending = None;
                proof {
                    lemma_fed(old(self).store(), f, symbol);
                    lemma_frame_live(h, self.heap(), f, cur.root);
                    lemma_frame_live(h, self.heap(), f, cur.probe);
                }
            },
            None => {},
        }
    }

    /// Decodes the list at `start` to its end, reading `input` where the
    /// program asks for input, and returns the bytes written and how the run
    /// ended. `fuel` bounds the rounds and the reduction steps together.
    pub fn print_list(&mut self, start: usize, input: &Vec<u8>, fuel: u64) -> (res: (Vec<u8>, Exit))
        requires
            old(self).wf(),
            live(old(self).heap(), start),
        ensures
            final(self).wf(),
            final(self).store() == played(
                opened(old(self).store(), start),
                input@,
                0,
                HEAP_BUDGET,
                fuel as nat,
            ).play.store,
            res.0@ == played(opened(old(self).store(), start), input@, 0, HEAP_BUDGET, fuel as nat).out,
            res.1 == played(opened(old(self).store(), start), input@, 0, HEAP_BUDGET, fuel as nat).exit,
    {
        let mut cur = self.open(start);
        let ghost begin = opened(old(self).store(), start);
        let mut out: Vec<u8> = Vec::new();
        let mut pos: usize = 0;
        let mut fuel = fuel;
        let ghost fuel0 = fuel;
        let mut exit = Exit::OutOfFuel;
        while fuel > 0
            invariant_except_break
                (Play { store: self.store(), cur }).wf(),
                pos <= input.len(),
                ({
                    let all = played(begin, input@, 0, HEAP_BUDGET, fuel0 as nat);
                    let rest = played(
                        Play { store: self.store(), cur },
                        input@,
                        pos as nat,
                        HEAP_BUDGET,
                        fuel as nat,
                    );
                    all.out == out@ + rest.out && all.exit == rest.exit && all.play == rest.play
                }),
                exit == Exit::OutOfFuel,
            ensures
                self.wf(),
                ({
                    let all = played(begin, input@, 0, HEAP_BUDGET, fuel0 as nat);
                    all.out == out@ && all.exit == exit && all.play.store == self.store()
                }),
            decreases fuel,
        {
            let ghost before = Play { store: self.store(), cur };
            let ghost out0 = out@;
            let (action, left) = self.poll(&mut cur, HEAP_BUDGET, fuel - 1);
            fuel = left;
            match action {
                Action::Emit(b) => {
                    out.push(b);
                    proof {
                        let rest = played(
                            Play { store: self.store(), cur },
                            input@,
                            pos as nat,
                            HEAP_BUDGET,
                            fuel as nat,
                        );
                        assert(out0 + (seq![b] + rest.out) =~= out@ + rest.out);
                    }
                },
                Action::Read => {
                    if pos < input.len() {
                        self.supply(&mut cur, input[pos] as u16);
                        pos += 1;
                    } else {
                        self.supply(&mut cur, 256);
                    }
                },
                Action::Halt => {
                    exit = Exit::Done;
                    proof {
                        assert(out0 + Seq::<u8>::empty() =~= out0);
                    }
                    break ;
                },
                Action::Fail(fault) => {
                    exit = Exit::Failed(fault);
                    proof {
                        assert(out0 + Seq::<u8>::empty() =~= out0);
                    }
                    break ;
                },
                Action::Yield => {
                    proof {
                        assert(out0 + Seq::<u8>::empty() =~= out0);
                    }
                    break ;
                },
            }
        }
        proof {
            assert(out@ + Seq::<u8>::empty() =~= out@);
        }
        (out, exit)
    }

    /// Runs the program `expr` on `input` and returns the bytes it writes
    /// and how the run ended.
    pub fn run(expr: &Expr, input: &Vec<u8>, fuel: u64) -> (res: (Vec<u8>, Exit))
        ensures
            res.0@ == played(
                opened(started(*expr).store, started(*expr).at),
                input@,
                0,
                HEAP_BUDGET,
                fuel as nat,
            ).out,
            res.1 == played(
                opened(started(*expr).store, started(*expr).at),
                input@,
                0,
                HEAP_BUDGET,
                fuel as nat,
            ).exit,
    {
        let (mut this, start) = Runner::load(expr);
        this.print_list(start, input, fuel)
    }
}

} // verus!
