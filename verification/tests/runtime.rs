use lazyk::driver::{Action, Exit, Fault, HEAP_BUDGET};
use lazyk::expr::Expr;
use lazyk::graph::{Graph, I, INC, K, PROGRAM_AREA_END, S, ZERO};
use lazyk::machine::Status;
use lazyk::parse::parse;
use lazyk::program::compose;
use lazyk::runner::Runner;

const FUEL: u64 = 50_000_000;

fn a(l: Expr, r: Expr) -> Expr {
    l * r
}

fn church(n: u16) -> Expr {
    let mut e = a(Expr::K, Expr::I);
    for _ in 0..n {
        let succ = a(Expr::S, a(a(Expr::S, a(Expr::K, Expr::S)), Expr::K));
        e = a(succ, e);
    }
    e
}

fn cons(car: Expr, cdr: Expr) -> Expr {
    a(
        a(Expr::S, a(a(Expr::S, Expr::I), a(Expr::K, car))),
        a(Expr::K, cdr),
    )
}

fn value(r: &mut Runner, at: usize) -> Graph {
    let d = r.follow_link(at);
    r.get(d)
}

#[test]
fn new_heap_holds_the_primitives() {
    let r = Runner::new();
    assert_eq!(r.len(), PROGRAM_AREA_END);
    assert_eq!(r.get(S), Graph::S);
    assert_eq!(r.get(K), Graph::K);
    assert_eq!(r.get(I), Graph::I);
    assert_eq!(r.get(INC), Graph::Inc);
    assert_eq!(r.get(ZERO), Graph::Num(0));
}

#[test]
fn push_appends_then_reuses_free_slots() {
    let mut r = Runner::new();
    let x = r.push(Graph::Apply(K, I));
    let y = r.push(Graph::Apply(S, x));
    let z = r.push(Graph::Stdin);
    assert_eq!((x, y, z), (5, 6, 7));
    r.garbage_collect(z);
    assert_eq!(r.get(5), Graph::Free);
    assert_eq!(r.get(6), Graph::Free);
    assert_eq!(r.get(7), Graph::Stdin);
    assert_eq!(r.push(Graph::Apply(K, K)), 5);
    assert_eq!(r.push(Graph::Apply(I, I)), 6);
    assert_eq!(r.push(Graph::Apply(S, S)), 8);
    assert_eq!(r.len(), 9);
}

#[test]
fn loader_interns_primitives() {
    let mut r = Runner::new();
    assert_eq!(r.push_expr(&Expr::S), S);
    assert_eq!(r.push_expr(&Expr::K), K);
    assert_eq!(r.push_expr(&Expr::I), I);
    assert_eq!(r.len(), 5);
    let at = r.push_expr(&a(a(Expr::S, Expr::K), Expr::I));
    assert_eq!(r.get(5), Graph::Apply(S, K));
    assert_eq!(r.get(at), Graph::Apply(5, I));
    assert_eq!(r.len(), 7);
}

#[test]
fn church_zero_is_k_i() {
    let mut r = Runner::new();
    let c = r.push_church(0);
    assert_eq!(r.get(c), Graph::Apply(K, I));
    assert_eq!(r.len(), 6);
}

#[test]
fn church_successor_takes_five_nodes() {
    let mut r = Runner::new();
    let c = r.push_church(2);
    assert_eq!(r.len(), 5 + 5 + 5 + 1);
    assert_eq!(r.get(5), Graph::Apply(K, S));
    assert_eq!(r.get(6), Graph::Apply(S, 5));
    assert_eq!(r.get(7), Graph::Apply(6, K));
    assert_eq!(r.get(8), Graph::Apply(S, 7));
    assert_eq!(r.get(13), Graph::Apply(K, I));
    assert_eq!(r.get(14), Graph::Apply(12, 13));
    assert_eq!(c, 15);
    assert_eq!(r.get(c), Graph::Apply(8, 14));
}

#[test]
fn cons_takes_six_nodes() {
    let mut r = Runner::new();
    let c = r.push_cons(S, K);
    assert_eq!(r.get(5), Graph::Apply(K, S));
    assert_eq!(r.get(6), Graph::Apply(K, K));
    assert_eq!(r.get(7), Graph::Apply(S, I));
    assert_eq!(r.get(8), Graph::Apply(7, 5));
    assert_eq!(r.get(9), Graph::Apply(S, 8));
    assert_eq!(r.get(c), Graph::Apply(9, 6));
    assert_eq!(c, 10);
}

#[test]
fn follow_link_ends_at_a_node_that_is_no_link() {
    let mut r = Runner::new();
    let x = r.push(Graph::Link(K));
    let y = r.push(Graph::Link(x));
    let z = r.push(Graph::Link(y));
    assert_eq!(r.follow_link(z), K);
    assert_eq!(r.follow_link(K), K);
}

#[test]
fn spine_lists_the_left_chain() {
    let mut r = Runner::new();
    let x = r.push(Graph::Apply(S, K));
    let l = r.push(Graph::Link(x));
    let y = r.push(Graph::Apply(l, I));
    let mut stack = vec![99];
    r.spine(y, &mut stack);
    assert_eq!(stack, vec![99, y, x, S]);
    assert_eq!(r.get_rhs(y), I);
}

#[test]
fn identity_redex_becomes_a_link() {
    let mut r = Runner::new();
    let x = r.push(Graph::Apply(I, K));
    let (status, left) = r.reduce(x, 10);
    assert_eq!(status, Status::Whnf);
    assert_eq!(left, 9);
    assert_eq!(r.get(x), Graph::Link(K));
}

#[test]
fn k_redex_links_the_second_application() {
    let mut r = Runner::new();
    let kx = r.push(Graph::Apply(K, S));
    let kxy = r.push(Graph::Apply(kx, I));
    let (status, left) = r.reduce(kxy, 10);
    assert_eq!((status, left), (Status::Whnf, 9));
    assert_eq!(r.get(kxy), Graph::Link(S));
    assert_eq!(r.get(kx), Graph::Apply(K, S));
}

#[test]
fn s_redex_is_rewritten_in_place() {
    let mut r = Runner::new();
    let sx = r.push(Graph::Apply(S, K));
    let sxy = r.push(Graph::Apply(sx, K));
    let sxyz = r.push(Graph::Apply(sxy, ZERO));
    let (status, left) = r.reduce(sxyz, 1);
    assert_eq!((status, left), (Status::OutOfFuel, 0));
    assert_eq!(r.get(8), Graph::Apply(K, ZERO));
    assert_eq!(r.get(9), Graph::Apply(K, ZERO));
    assert_eq!(r.get(sxyz), Graph::Apply(8, 9));
    let (status, left) = r.reduce(sxyz, 10);
    assert_eq!((status, left), (Status::Whnf, 9));
    assert_eq!(value(&mut r, sxyz), Graph::Num(0));
}

#[test]
fn partial_applications_are_normal_forms() {
    let mut r = Runner::new();
    let sx = r.push(Graph::Apply(S, K));
    let sxy = r.push(Graph::Apply(sx, K));
    let before = r.len();
    assert_eq!(r.reduce(sxy, 10), (Status::Whnf, 10));
    assert_eq!(r.reduce(K, 0), (Status::Whnf, 0));
    assert_eq!(r.reduce(INC, 0), (Status::Whnf, 0));
    assert_eq!(r.len(), before);
    assert_eq!(r.get(sxy), Graph::Apply(sx, K));
}

#[test]
fn a_redex_without_fuel_is_left_alone() {
    let mut r = Runner::new();
    let x = r.push(Graph::Apply(I, K));
    assert_eq!(r.reduce(x, 0), (Status::OutOfFuel, 0));
    assert_eq!(r.get(x), Graph::Apply(I, K));
}

#[test]
fn inc_counts_up() {
    let mut r = Runner::new();
    let one = r.push(Graph::Apply(INC, ZERO));
    let two = r.push(Graph::Apply(INC, one));
    assert_eq!(r.reduce(two, 10), (Status::Whnf, 8));
    assert_eq!(r.get(one), Graph::Num(1));
    assert_eq!(r.get(two), Graph::Num(2));
}

#[test]
fn inc_of_no_number_is_reported() {
    let mut r = Runner::new();
    let x = r.push(Graph::Apply(INC, K));
    assert_eq!(r.reduce(x, 10), (Status::NotNumber(K), 10));
}

#[test]
fn inc_of_the_largest_number_is_reported() {
    let mut r = Runner::new();
    let big = r.push(Graph::Num(u16::MAX));
    let x = r.push(Graph::Apply(INC, big));
    assert_eq!(r.reduce(x, 10), (Status::Overflow(x), 10));
    assert_eq!(r.get(x), Graph::Apply(INC, big));
}

#[test]
fn unread_input_stops_reduction() {
    let mut r = Runner::new();
    let stdin = r.push(Graph::Stdin);
    let x = r.push(Graph::Apply(stdin, K));
    assert_eq!(r.reduce(x, 10), (Status::Input(stdin), 10));
    let inner = r.push(Graph::Apply(INC, x));
    assert_eq!(r.reduce(inner, 10), (Status::Input(stdin), 10));
}

#[test]
fn feed_links_the_input_to_a_pair() {
    let mut r = Runner::new();
    let stdin = r.push(Graph::Stdin);
    r.feed(stdin, 1);
    let pair = match r.get(stdin) {
        Graph::Link(pair) => pair,
        other => panic!("{:?}", other),
    };
    let (s_car, k_cdr) = match r.get(pair) {
        Graph::Apply(l, x) => (l, x),
        other => panic!("{:?}", other),
    };
    let tail = r.get_rhs(k_cdr);
    assert_eq!(r.get(tail), Graph::Stdin);
    let s_i_car = r.get_rhs(s_car);
    let k_car = r.get_rhs(s_i_car);
    let numeral = r.get_rhs(k_car);
    let probe = r.push(Graph::Apply(numeral, INC));
    let probe = r.push(Graph::Apply(probe, ZERO));
    assert_eq!(r.reduce(probe, 1000).0, Status::Whnf);
    assert_eq!(value(&mut r, probe), Graph::Num(1));
}

#[test]
fn church_numerals_decode_to_their_number() {
    for n in 0..=256u16 {
        let mut r = Runner::new();
        let c = r.push_church(n);
        let i = r.push(Graph::Apply(c, INC));
        let g = r.push(Graph::Apply(i, ZERO));
        let (status, _) = r.reduce(g, FUEL);
        assert_eq!(status, Status::Whnf);
        assert_eq!(value(&mut r, g), Graph::Num(n));
    }
}

#[test]
fn pair_selectors() {
    let mut r = Runner::new();
    let one = r.push(Graph::Apply(INC, ZERO));
    let car = r.push(Graph::Apply(INC, one));
    let cdr = r.push(Graph::Apply(I, S));
    let pair = r.push_cons(car, cdr);
    let first = r.push(Graph::Apply(pair, K));
    assert_eq!(r.reduce(first, FUEL).0, Status::Whnf);
    assert_eq!(value(&mut r, first), Graph::Num(2));
    assert_eq!(r.follow_link(first), r.follow_link(car));
    let ki = r.push(Graph::Apply(K, I));
    let second = r.push(Graph::Apply(pair, ki));
    assert_eq!(r.reduce(second, FUEL).0, Status::Whnf);
    assert_eq!(value(&mut r, second), Graph::S);
    assert_eq!(r.follow_link(second), r.follow_link(cdr));
}

#[test]
fn sweep_keeps_what_the_root_reaches() {
    let mut r = Runner::new();
    let junk = r.push(Graph::Apply(K, I));
    let x = r.push(Graph::Apply(S, K));
    let more_junk = r.push(Graph::Link(junk));
    let l = r.push(Graph::Link(x));
    let root = r.push(Graph::Apply(l, I));
    r.garbage_collect(root);
    assert_eq!(r.get(junk), Graph::Free);
    assert_eq!(r.get(more_junk), Graph::Free);
    assert_eq!(r.get(x), Graph::Apply(S, K));
    assert_eq!(r.get(l), Graph::Link(x));
    assert_eq!(r.get(root), Graph::Apply(l, I));
    assert_eq!(r.get(S), Graph::S);
    assert_eq!(r.get(ZERO), Graph::Num(0));
    assert_eq!(r.len(), 10);
}

#[test]
fn sweep_from_a_primitive_frees_the_rest() {
    let mut r = Runner::new();
    let x = r.push(Graph::Apply(S, K));
    r.garbage_collect(K);
    assert_eq!(r.get(x), Graph::Free);
    assert_eq!(r.get(K), Graph::K);
}

#[test]
fn graphs_as_text() {
    let mut r = Runner::new();
    let x = r.push(Graph::Apply(S, K));
    let l = r.push(Graph::Link(x));
    let n = r.push(Graph::Num(256));
    let y = r.push(Graph::Apply(l, n));
    let stdin = r.push(Graph::Stdin);
    let z = r.push(Graph::Apply(y, stdin));
    let w = r.push(Graph::Apply(INC, z));
    let v = r.push(Graph::Apply(w, I));
    let mut text = String::from("> ");
    r.print_expr(v, &mut text);
    assert_eq!(text, "> ``<increment>```sk<number:256><stdin>i");
    r.garbage_collect(K);
    let mut text = String::new();
    r.print_expr(v, &mut text);
    assert_eq!(text, "<runtime bug>");
    let mut text = String::new();
    r.print_expr(ZERO, &mut text);
    assert_eq!(text, "<number:0>");
}

#[test]
fn identity_echoes_hello() {
    let input = b"hello\n".to_vec();
    let (out, exit) = Runner::run(&parse("i").unwrap(), &input, FUEL);
    assert_eq!(out, b"hello\n".to_vec());
    assert_eq!(exit, Exit::Done);
}

#[test]
fn identity_echoes_every_byte() {
    let input: Vec<u8> = (0..=255).collect();
    let (out, exit) = Runner::run(&Expr::I, &input, FUEL);
    assert_eq!(out, input);
    assert_eq!(exit, Exit::Done);
}

#[test]
fn identity_on_empty_input_writes_nothing() {
    let (out, exit) = Runner::run(&Expr::I, &Vec::new(), FUEL);
    assert_eq!(out, Vec::<u8>::new());
    assert_eq!(exit, Exit::Done);
}

#[test]
fn jot_program_loads_and_is_s() {
    let program = parse("11111000").unwrap();
    // Applied to `K`, `K` and zero it gives zero, as `S` does.
    let mut r = Runner::new();
    let p = r.push_expr(&program);
    let x = r.push(Graph::Apply(p, K));
    let y = r.push(Graph::Apply(x, K));
    let z = r.push(Graph::Apply(y, ZERO));
    assert_eq!(r.reduce(z, FUEL).0, Status::Whnf);
    assert_eq!(value(&mut r, z), Graph::Num(0));
    // As a program its output list is `S input`, whose head hands `Inc` a
    // numeral that was never decoded.
    let (out, exit) = Runner::run(&program, &Vec::new(), FUEL);
    assert_eq!(out, Vec::<u8>::new());
    assert!(matches!(exit, Exit::Failed(Fault::CannotIncrement(_))));
}

#[test]
fn constant_program_writes_one_byte() {
    let program = a(
        Expr::K,
        cons(church(65), cons(church(256), Expr::I)),
    );
    let (out, exit) = Runner::run(&program, &b"ignored".to_vec(), FUEL);
    assert_eq!(out, b"A".to_vec());
    assert_eq!(exit, Exit::Done);
}

#[test]
fn a_numeral_past_256_ends_the_output() {
    let program = a(Expr::K, cons(church(66), cons(church(300), Expr::I)));
    let (out, exit) = Runner::run(&program, &Vec::new(), FUEL);
    assert_eq!(out, b"B".to_vec());
    assert_eq!(exit, Exit::Done);
}

#[test]
fn the_zero_byte_is_written() {
    let program = a(Expr::K, cons(church(0), cons(church(256), Expr::I)));
    let (out, exit) = Runner::run(&program, &Vec::new(), FUEL);
    assert_eq!(out, vec![0u8]);
    assert_eq!(exit, Exit::Done);
}

#[test]
fn composition_feeds_the_second_program_into_the_first() {
    let tail = parse("si(k(ki))").unwrap();
    let both = compose(&vec![Expr::I, tail.clone()]);
    let (out, exit) = Runner::run(&both, &b"abc".to_vec(), FUEL);
    assert_eq!((out, exit), (b"bc".to_vec(), Exit::Done));
    let twice = compose(&vec![tail.clone(), tail]);
    let (out, exit) = Runner::run(&twice, &b"abc".to_vec(), FUEL);
    assert_eq!((out, exit), (b"c".to_vec(), Exit::Done));
}

#[test]
fn a_head_that_is_no_numeral_is_a_fault() {
    let program = a(Expr::K, a(Expr::K, Expr::K));
    let (out, exit) = Runner::run(&program, &Vec::new(), FUEL);
    assert_eq!(out, Vec::<u8>::new());
    assert!(matches!(exit, Exit::Failed(Fault::NotNumeral(_))));
}

#[test]
fn a_numeral_of_no_number_is_a_fault() {
    // The head `S I I` applies `Inc` to itself.
    let head = a(a(Expr::S, Expr::I), Expr::I);
    let program = a(Expr::K, cons(head, Expr::I));
    let (_, exit) = Runner::run(&program, &Vec::new(), FUEL);
    assert!(matches!(exit, Exit::Failed(Fault::CannotIncrement(_))));
}

#[test]
fn a_loop_runs_out_of_fuel() {
    let sii = a(a(Expr::S, Expr::I), Expr::I);
    let omega = a(sii.clone(), sii);
    let (out, exit) = Runner::run(&a(Expr::K, omega), &Vec::new(), 10_000);
    assert_eq!(out, Vec::<u8>::new());
    assert_eq!(exit, Exit::OutOfFuel);
}

#[test]
fn no_fuel_no_output() {
    let (out, exit) = Runner::run(&Expr::I, &b"x".to_vec(), 0);
    assert_eq!((out, exit), (Vec::new(), Exit::OutOfFuel));
}

#[test]
fn polling_asks_for_input_and_emits() {
    let (mut r, start) = Runner::load(&Expr::I);
    let mut cur = r.open(start);
    assert_eq!(cur.root, start);
    assert_eq!(cur.pending, None);
    let (action, _) = r.poll(&mut cur, 1_000_000, FUEL);
    assert_eq!(action, Action::Read);
    assert!(cur.pending.is_some());
    r.supply(&mut cur, 'x' as u16);
    assert_eq!(cur.pending, None);
    let (action, _) = r.poll(&mut cur, 1_000_000, FUEL);
    assert_eq!(action, Action::Emit(b'x'));
    assert_ne!(cur.root, start);
    let (action, _) = r.poll(&mut cur, 1_000_000, FUEL);
    assert_eq!(action, Action::Read);
    r.supply(&mut cur, 256);
    let (action, _) = r.poll(&mut cur, 1_000_000, FUEL);
    assert_eq!(action, Action::Halt);
    let (action, _) = r.poll(&mut cur, 1_000_000, FUEL);
    assert_eq!(action, Action::Halt);
}

#[test]
fn polling_yields_and_resumes() {
    let (mut r, start) = Runner::load(&Expr::I);
    let mut cur = r.open(start);
    let mut rounds = 0;
    loop {
        let (action, left) = r.poll(&mut cur, 1_000_000, 3);
        match action {
            Action::Yield => {
                assert_eq!(left, 0);
                rounds += 1;
            }
            Action::Read => r.supply(&mut cur, 7),
            Action::Emit(b) => {
                assert_eq!(b, 7);
                break;
            }
            other => panic!("{:?}", other),
        }
    }
    assert!(rounds > 1);
}

#[test]
fn a_small_budget_sweeps_after_each_byte() {
    let (mut r, start) = Runner::load(&Expr::I);
    let mut cur = r.open(start);
    let mut out = Vec::new();
    let input = b"sweep me, please";
    let mut pos = 0;
    let mut high = 0;
    loop {
        match r.poll(&mut cur, 0, FUEL).0 {
            Action::Emit(b) => {
                out.push(b);
                high = high.max(r.len());
            }
            Action::Read => {
                let symbol = if pos < input.len() { input[pos] as u16 } else { 256 };
                pos += 1;
                r.supply(&mut cur, symbol);
            }
            Action::Halt => break,
            other => panic!("{:?}", other),
        }
    }
    assert_eq!(out, input.to_vec());
    assert!(high < 3000);
}

#[test]
fn after_a_sweep_no_application_has_a_free_part() {
    let (mut r, start) = Runner::load(&parse("s(sii)(k(ki))").unwrap());
    let mut cur = r.open(start);
    let _ = r.poll(&mut cur, 1_000_000, FUEL);
    let before: Vec<Graph> = (0..r.len()).map(|a| r.get(a)).collect();
    r.garbage_collect(cur.root);
    // What the root reaches, by a walk of our own.
    let mut seen = vec![false; r.len()];
    let mut todo = vec![cur.root];
    while let Some(a) = todo.pop() {
        if seen[a] {
            continue;
        }
        seen[a] = true;
        match before[a] {
            Graph::Apply(f, x) => {
                todo.push(f);
                todo.push(x);
            }
            Graph::Link(t) => todo.push(t),
            _ => {}
        }
    }
    for a in 0..r.len() {
        if seen[a] || a < PROGRAM_AREA_END {
            assert_eq!(r.get(a), before[a]);
        } else {
            assert_eq!(r.get(a), Graph::Free);
        }
        if let Graph::Apply(f, x) = r.get(a) {
            assert_ne!(r.get(f), Graph::Free);
            assert_ne!(r.get(x), Graph::Free);
        }
    }
}

#[test]
fn a_reduced_node_stands_for_no_link_and_no_free_slot() {
    for source in ["i", "`ki", "s(ki)k", "```skk`ki", "sii(sk)", "k"] {
        let mut r = Runner::new();
        let at = r.push_expr(&parse(source).unwrap());
        let (status, _) = r.reduce(at, FUEL);
        assert_eq!(status, Status::Whnf);
        let d = r.follow_link(at);
        assert!(!matches!(r.get(d), Graph::Link(_) | Graph::Free));
    }
}

#[test]
fn set_overwrites_one_node() {
    let mut r = Runner::new();
    let x = r.push(Graph::Apply(K, I));
    let y = r.push(Graph::Apply(S, x));
    r.set(x, Graph::Link(I));
    assert_eq!(r.get(x), Graph::Link(I));
    assert_eq!(r.get(y), Graph::Apply(S, x));
    assert_eq!(r.len(), 7);
}

#[test]
fn probe_and_advance_build_the_selectors() {
    let (mut r, start) = Runner::load(&Expr::K);
    assert_eq!(r.get(5), Graph::Stdin);
    assert_eq!(r.get(start), Graph::Apply(K, 5));
    let g = r.probe(start);
    assert_eq!(r.get(7), Graph::Apply(start, K));
    assert_eq!(r.get(8), Graph::Apply(7, INC));
    assert_eq!(r.get(g), Graph::Apply(8, ZERO));
    let tail = r.advance(start);
    assert_eq!(r.get(10), Graph::Apply(K, I));
    assert_eq!(r.get(tail), Graph::Apply(start, 10));
}

#[test]
fn trim_sweeps_only_past_the_budget() {
    let mut r = Runner::new();
    let junk = r.push(Graph::Apply(K, I));
    let root = r.push(Graph::Apply(S, K));
    r.trim(root, 7);
    assert_eq!(r.get(junk), Graph::Apply(K, I));
    r.trim(root, 6);
    assert_eq!(r.get(junk), Graph::Free);
    assert_eq!(r.get(root), Graph::Apply(S, K));
}

#[test]
fn the_budget_is_what_256_mib_hold() {
    assert_eq!(HEAP_BUDGET, 256 * 1024 * 1024 / 24);
}

#[test]
fn a_number_past_the_largest_is_a_fault() {
    let mut r = Runner::new();
    let big = r.push(Graph::Num(u16::MAX));
    // `S I (K big)` hands `big` to whatever it is applied to.
    let s_i = r.push(Graph::Apply(S, I));
    let k_big = r.push(Graph::Apply(K, big));
    let head = r.push(Graph::Apply(s_i, k_big));
    let list = r.push_cons(head, I);
    let (out, exit) = r.print_list(list, &Vec::new(), FUEL);
    assert_eq!(out, Vec::<u8>::new());
    assert!(matches!(exit, Exit::Failed(Fault::Overflow(_))));
}

#[test]
fn print_list_decodes_a_list_built_by_hand() {
    let mut r = Runner::new();
    let end = r.push_church(256);
    let last = r.push_cons(end, I);
    let b = r.push_church(98);
    let second = r.push_cons(b, last);
    let a = r.push_church(97);
    let first = r.push_cons(a, second);
    let (out, exit) = r.print_list(first, &Vec::new(), FUEL);
    assert_eq!((out, exit), (b"ab".to_vec(), Exit::Done));
}

#[test]
fn iota_program_is_k() {
    // `*ii` is `I`, `*i*ii` is `K I`, and `*i*i*ii` is `K`.
    let program = parse("*i*i*ii").unwrap();
    let mut r = Runner::new();
    let p = r.push_expr(&program);
    let x = r.push(Graph::Apply(p, ZERO));
    let y = r.push(Graph::Apply(x, S));
    assert_eq!(r.reduce(y, FUEL).0, Status::Whnf);
    assert_eq!(value(&mut r, y), Graph::Num(0));
}

#[test]
fn input_is_read_only_when_asked_for() {
    let program = Expr::K * cons(church(33), cons(church(256), Expr::I));
    let (mut r, start) = Runner::load(&program);
    let mut cur = r.open(start);
    assert_eq!(r.poll(&mut cur, HEAP_BUDGET, FUEL).0, Action::Emit(33));
    assert_eq!(r.poll(&mut cur, HEAP_BUDGET, FUEL).0, Action::Halt);
}
