use lazyk::expr::Expr;
use lazyk::program::{
    assemble, compose, location, next_request, parse_error, ArgCursor, Program, Request, Tag,
};

fn a(l: Expr, r: Expr) -> Expr {
    l * r
}

#[test]
fn locations() {
    assert_eq!(location(&Tag::FromArg(1)), "1st argument");
    assert_eq!(location(&Tag::FromArg(2)), "2nd argument");
    assert_eq!(location(&Tag::FromArg(3)), "3rd argument");
    assert_eq!(location(&Tag::FromArg(4)), "4th argument");
    assert_eq!(location(&Tag::FromArg(11)), "11th argument");
    assert_eq!(location(&Tag::FromArg(120)), "120th argument");
    assert_eq!(location(&Tag::FromArg(0)), "0th argument");
    assert_eq!(location(&Tag::FromFile("a.lazy".to_string())), "file a.lazy");
}

#[test]
fn parse_error_names_the_place() {
    assert_eq!(parse_error(&Tag::FromArg(2)), "parse error on 2nd argument");
}

#[test]
fn no_program_composes_to_the_identity() {
    assert_eq!(compose(&Vec::new()), Expr::I);
}

#[test]
fn two_programs_compose() {
    let first_program = a(Expr::K, Expr::I);
    let second_program = a(Expr::S, Expr::K);
    let first = a(a(Expr::S, a(Expr::K, Expr::I)), first_program.clone());
    let expected = a(a(Expr::S, a(Expr::K, first)), second_program.clone());
    assert_eq!(compose(&vec![first_program, second_program]), expected);
}

#[test]
fn assemble_parses_and_composes() {
    let programs = vec![
        Program { tag: Tag::FromArg(1), code: b"k".to_vec() },
        Program { tag: Tag::FromFile("f".to_string()), code: b"`si".to_vec() },
    ];
    let expected = compose(&vec![Expr::K, a(Expr::S, Expr::I)]);
    assert_eq!(assemble(&programs), Ok(expected));
}

#[test]
fn assemble_reports_the_first_failure() {
    let programs = vec![
        Program { tag: Tag::FromArg(1), code: b"k".to_vec() },
        Program { tag: Tag::FromFile("bad.lazy".to_string()), code: b"(".to_vec() },
        Program { tag: Tag::FromArg(2), code: b")".to_vec() },
    ];
    assert_eq!(assemble(&programs), Err("parse error on file bad.lazy".to_string()));
}

#[test]
fn requests_in_order() {
    let args: Vec<String> = ["", "-e", "sk", "prog.lazy", "", "-e", ""]
        .iter()
        .map(|s| s.to_string())
        .collect();
    let mut cur = ArgCursor::new();
    match next_request(&args, &mut cur) {
        Request::Inline(p) => {
            assert!(matches!(p.tag, Tag::FromArg(1)));
            assert_eq!(p.code, b"sk".to_vec());
        }
        _ => panic!(),
    }
    assert_eq!((cur.pos, cur.index), (3, 2));
    match next_request(&args, &mut cur) {
        Request::File(path) => assert_eq!(path, "prog.lazy"),
        _ => panic!(),
    }
    assert_eq!((cur.pos, cur.index), (4, 3));
    match next_request(&args, &mut cur) {
        Request::Inline(p) => {
            assert!(matches!(p.tag, Tag::FromArg(3)));
            assert_eq!(p.code, Vec::<u8>::new());
        }
        _ => panic!(),
    }
    assert!(matches!(next_request(&args, &mut cur), Request::Done));
    assert!(matches!(next_request(&args, &mut cur), Request::Done));
}

#[test]
fn a_flag_without_a_program_is_missing() {
    let args = vec!["x".to_string(), "-e".to_string()];
    let mut cur = ArgCursor::new();
    assert!(matches!(next_request(&args, &mut cur), Request::File(_)));
    assert!(matches!(next_request(&args, &mut cur), Request::Missing));
    assert!(matches!(next_request(&args, &mut cur), Request::Done));
}
