use lazyk::expr::Expr;
use lazyk::parse::{iota, is_space, parse, parse_expr, parse_jot, parse_source, strip};

fn a(l: Expr, r: Expr) -> Expr {
    l * r
}

#[test]
fn star_applies() {
    assert_eq!(Expr::S * Expr::K, Expr::A(Box::new(Expr::S), Box::new(Expr::K)));
    assert_eq!(Expr::S * Expr::K * Expr::I, a(a(Expr::S, Expr::K), Expr::I));
    assert_eq!(Expr::S * (Expr::K * Expr::I), a(Expr::S, a(Expr::K, Expr::I)));
}

#[test]
fn lazy_k_identity_parses() {
    assert_eq!(parse("i"), Some(Expr::I));
}

#[test]
fn letters_in_either_case() {
    assert_eq!(parse("SKI"), Some(a(a(Expr::S, Expr::K), Expr::I)));
    assert_eq!(parse("ski"), Some(a(a(Expr::S, Expr::K), Expr::I)));
}

#[test]
fn juxtaposition_is_left_associative() {
    assert_eq!(
        parse("skki"),
        Some(a(a(a(Expr::S, Expr::K), Expr::K), Expr::I))
    );
}

#[test]
fn parentheses_group() {
    assert_eq!(
        parse("s(ki)(k(ks))"),
        Some(a(
            a(Expr::S, a(Expr::K, Expr::I)),
            a(Expr::K, a(Expr::K, Expr::S))
        ))
    );
    assert_eq!(parse("((i))"), Some(Expr::I));
}

#[test]
fn unbalanced_parentheses_fail() {
    assert_eq!(parse("(sk"), None);
    assert_eq!(parse("sk)"), None);
    assert_eq!(parse("()"), None);
}

#[test]
fn white_space_and_comments_are_dropped() {
    assert_eq!(
        parse("s k # the rest of the line ( ` *\n i\t# trailing"),
        Some(a(a(Expr::S, Expr::K), Expr::I))
    );
    assert_eq!(strip(b"a #b\nc d\r\n"), b"acd".to_vec());
    assert_eq!(strip(b"# only\n"), Vec::<u8>::new());
    assert_eq!(strip(b"k\x85\xa0#x"), b"k".to_vec());
}

#[test]
fn space_bytes() {
    for b in 0u8..=255 {
        assert_eq!(is_space(&b), char::from(b).is_whitespace());
    }
}

#[test]
fn backtick_k_i_is_application() {
    assert_eq!(parse("`ki"), Some(a(Expr::K, Expr::I)));
}

#[test]
fn backtick_form_nests() {
    assert_eq!(
        parse("``s`kki"),
        Some(a(a(Expr::S, a(Expr::K, Expr::K)), Expr::I))
    );
    assert_eq!(parse("`k"), None);
    assert_eq!(parse("`ki i"), None);
}

#[test]
fn iota_source_parses() {
    let i = iota();
    let expected = a(i.clone(), a(i.clone(), a(i.clone(), i.clone())));
    assert_eq!(parse("*i*i*ii"), Some(expected));
    assert_eq!(parse("*ii"), Some(a(iota(), iota())));
    assert_eq!(parse("*i"), None);
}

#[test]
fn iota_combinator() {
    assert_eq!(
        iota(),
        a(
            a(Expr::S, a(a(Expr::S, Expr::I), a(Expr::K, Expr::S))),
            a(Expr::K, Expr::K)
        )
    );
}

#[test]
fn a_lone_i_is_the_identity() {
    assert_eq!(parse_expr(b"i"), Ok(Expr::I));
}

#[test]
fn jot_folds_from_the_left() {
    assert_eq!(parse_jot(b""), Ok(Expr::I));
    assert_eq!(parse_jot(b"0"), Ok(a(a(Expr::I, Expr::S), Expr::K)));
    assert_eq!(parse_jot(b"1"), Ok(a(Expr::S, a(Expr::K, Expr::I))));
    assert_eq!(
        parse_jot(b"10"),
        Ok(a(a(a(Expr::S, a(Expr::K, Expr::I)), Expr::S), Expr::K))
    );
    assert_eq!(parse_jot(b"012"), Err("unknown character"));
}

#[test]
fn jot_source_parses() {
    let mut e = Expr::I;
    for _ in 0..5 {
        e = a(Expr::S, a(Expr::K, e));
    }
    for _ in 0..3 {
        e = a(a(e, Expr::S), Expr::K);
    }
    assert_eq!(parse("11111000"), Some(e));
}

#[test]
fn empty_source_is_the_identity() {
    assert_eq!(parse(""), Some(Expr::I));
    assert_eq!(parse("  # nothing\n"), Some(Expr::I));
}

#[test]
fn unknown_bytes_fail() {
    assert_eq!(parse("x"), None);
    assert_eq!(parse("s2"), None);
    assert_eq!(parse("01s"), None);
    assert_eq!(parse_expr(b"01"), Err("parse error"));
    assert_eq!(parse_expr(b""), Err("parse error"));
}

#[test]
fn notations_do_not_mix() {
    assert_eq!(parse("`k(si)"), None);
    assert_eq!(parse("*is"), None);
    assert_eq!(parse("s`ki"), None);
}

#[test]
fn bytes_and_text_agree() {
    assert_eq!(parse_source(b"s(k i)"), parse("s(k i)"));
    assert_eq!(parse_source(b"\xff"), None);
}

#[test]
fn terms_as_text() {
    assert_eq!(parse("s(ki)k").unwrap().to_text(), "``s`kik");
    assert_eq!(Expr::I.to_text(), "i");
}

#[test]
fn reading_the_text_of_a_term_gives_it_back() {
    let terms = [
        Expr::I,
        Expr::K,
        Expr::S,
        a(Expr::S, Expr::K),
        a(a(Expr::S, a(Expr::K, Expr::I)), a(Expr::K, a(Expr::I, Expr::S))),
        iota(),
    ];
    for e in terms {
        assert_eq!(parse(&e.to_text()), Some(e));
    }
}

#[test]
fn clones_are_equal() {
    let e = a(a(Expr::S, Expr::K), a(Expr::K, Expr::I));
    assert_eq!(e.clone(), e);
}
