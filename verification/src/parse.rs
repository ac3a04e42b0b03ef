use crate::expr::Expr;
use vstd::prelude::*;
use vstd::string::StringSliceAdditionalSpecFns;

verus! {

/// The bytes that the notations are made of.
pub const NEWLINE: u8 = 10;

pub const HASH: u8 = 35;

pub const OPEN: u8 = 40;

pub const CLOSE: u8 = 41;

pub const STAR: u8 = 42;

pub const BIT_0: u8 = 48;

pub const BIT_1: u8 = 49;

pub const UPPER_I: u8 = 73;

pub const UPPER_K: u8 = 75;

pub const UPPER_S: u8 = 83;

pub const BACKTICK: u8 = 96;

pub const LOWER_I: u8 = 105;

pub const LOWER_K: u8 = 107;

pub const LOWER_S: u8 = 115;

/// The bytes that count as white space: the Unicode white space below 256.
pub open spec fn space(b: u8) -> bool {
    (9 <= b && b <= 13) || b == 32 || b == 0x85 || b == 0xA0
}

/// Whether `byte` is white space.
pub fn is_space(byte: &u8) -> (b: bool)
    ensures
        b == space(*byte),
{
    let c = *byte;
    (9 <= c && c <= 13) || c == 32 || c == 0x85 || c == 0xA0
}

/// The source from `i` on without its comments, which run from `#` to the
/// end of the line, and without white space. `comment` says whether `i`
/// lies in a comment.
pub open spec fn stripped_from(s: Seq<u8>, i: nat, comment: bool) -> Seq<u8>
    decreases s.len() - i,
{
    if i >= s.len() {
        Seq::empty()
    } else {
        let b = s[i as int];
        if b == NEWLINE {
            stripped_from(s, i + 1, false)
        } else if comment || b == HASH {
            stripped_from(s, i + 1, true)
        } else if space(b) {
            stripped_from(s, i + 1, false)
        } else {
            seq![b] + stripped_from(s, i + 1, false)
        }
    }
}

/// The source without comments and white space.
pub open spec fn stripped(s: Seq<u8>) -> Seq<u8> {
    stripped_from(s, 0, false)
}

/// Removes comments and white space.
pub fn strip(source: &[u8]) -> (code: Vec<u8>)
    ensures
        code@ == stripped(source@),
{
    let mut code: Vec<u8> = Vec::new();
    let mut comment = false;
    let mut i: usize = 0;
    while i < source.len()
        invariant
            i <= source.len(),
            stripped(source@) == code@ + stripped_from(source@, i as nat, comment),
        decreases source.len() - i,
    {
        let b = source[i];
        let ghost before = code@;
        if b == NEWLINE {
            comment = false;
        } else if comment || b == HASH {
            comment = true;
        } else if !is_space(&b) {
            code.push(b);
            proof {
                assert(before + (seq![b] + stripped_from(source@, (i + 1) as nat, false))
                    =~= code@ + stripped_from(source@, (i + 1) as nat, false));
            }
        }
        i += 1;
    }
    proof {
        assert(code@ + Seq::<u8>::empty() =~= code@);
    }
    code
}

/// The combinator that Iota writes `i`: `S (S I (K S)) (K K)`.
pub open spec fn iota_term() -> Expr {
    Expr::A(
        Box::new(
            Expr::A(
                Box::new(Expr::S),
                Box::new(
                    Expr::A(
                        Box::new(Expr::A(Box::new(Expr::S), Box::new(Expr::I))),
                        Box::new(Expr::A(Box::new(Expr::K), Box::new(Expr::S))),
                    ),
                ),
            ),
        ),
        Box::new(Expr::A(Box::new(Expr::K), Box::new(Expr::K))),
    )
}

/// The combinator that Iota writes `i`.
pub fn iota() -> (e: Expr)
    ensures
        e == iota_term(),
{
    Expr::S * (Expr::S * Expr::I * (Expr::K * Expr::S)) * (Expr::K * Expr::K)
}

/// The term of the first `n` bits of a Jot string: `I` for none; after a
/// `0` the term so far applied to `S` and then to `K`; after a `1` the
/// term `S (K t)` for the term `t` so far. `None` where a byte is no bit.
pub open spec fn jot_prefix(s: Seq<u8>, n: nat) -> Option<Expr>
    decreases n,
{
    if n == 0 {
        Some(Expr::I)
    } else {
        match jot_prefix(s, (n - 1) as nat) {
            Some(acc) => if s[n - 1] == BIT_0 {
                Some(
                    Expr::A(
                        Box::new(Expr::A(Box::new(acc), Box::new(Expr::S))),
                        Box::new(Expr::K),
                    ),
                )
            } else if s[n - 1] == BIT_1 {
                Some(
                    Expr::A(
                        Box::new(Expr::S),
                        Box::new(Expr::A(Box::new(Expr::K), Box::new(acc))),
                    ),
                )
            } else {
                None
            },
            None => None,
        }
    }
}

/// The term of a Jot string.
pub open spec fn jot(s: Seq<u8>) -> Option<Expr> {
    jot_prefix(s, s.len())
}

proof fn lemma_jot_fails(s: Seq<u8>, i: nat, n: nat)
    requires
        i <= n,
        jot_prefix(s, i) is None,
    ensures
        jot_prefix(s, n) is None,
    decreases n,
{
    if i < n {
        lemma_jot_fails(s, i, (n - 1) as nat);
    }
}

/// Reads a Jot string.
pub fn parse_jot(bytes: &[u8]) -> (r: Result<Expr, &'static str>)
    ensures
        match r {
            Ok(e) => jot(bytes@) == Some(e),
            Err(why) => jot(bytes@) is None && why@ == "unknown character"@,
        },
{
    let mut expr = Expr::I;
    let mut i: usize = 0;
    while i < bytes.len()
        invariant
            i <= bytes.len(),
            jot_prefix(bytes@, i as nat) == Some(expr),
        decreases bytes.len() - i,
    {
        let b = bytes[i];
        if b == BIT_0 {
            expr = expr * Expr::S * Expr::K;
        } else if b == BIT_1 {
            expr = Expr::S * (Expr::K * expr);
        } else {
            proof {
                lemma_jot_fails(bytes@, (i + 1) as nat, bytes@.len());
            }
            return Err("unknown character");
        }
        i += 1;
    }
    Ok(expr)
}

/// One term in backtick form at `pos`, with the position after it: `` ` ``
/// and two terms, or one of `s`, `S`, `k`, `K`, `i`.
pub open spec fn unlambda_at(s: Seq<u8>, pos: nat) -> Option<(Expr, nat)>
    decreases s.len() - pos,
{
    if pos >= s.len() {
        None
    } else {
        let b = s[pos as int];
        if b == LOWER_S || b == UPPER_S {
            Some((Expr::S, pos + 1))
        } else if b == LOWER_K || b == UPPER_K {
            Some((Expr::K, pos + 1))
        } else if b == LOWER_I {
            Some((Expr::I, pos + 1))
        } else if b == BACKTICK {
            match unlambda_at(s, pos + 1) {
                Some((f, p)) => if pos < p && p <= s.len() {
                    match unlambda_at(s, p) {
                        Some((g, q)) => Some((Expr::A(Box::new(f), Box::new(g)), q)),
                        None => None,
                    }
                } else {
                    None
                },
                None => None,
            }
        } else {
            None
        }
    }
}

/// A term in backtick form takes at least one byte and ends inside the
/// source.
pub proof fn lemma_unlambda_at(s: Seq<u8>, pos: nat)
    ensures
        unlambda_at(s, pos) matches Some((_, p)) ==> pos < p <= s.len(),
    decreases s.len() - pos,
{
    if pos < s.len() && s[pos as int] == BACKTICK {
        lemma_unlambda_at(s, pos + 1);
        match unlambda_at(s, pos + 1) {
            Some((_, p)) => {
                lemma_unlambda_at(s, p);
            },
            None => {},
        }
    }
}

/// The term that the whole of `s` is in backtick form, if it is one.
pub open spec fn unlambda(s: Seq<u8>) -> Option<Expr> {
    match unlambda_at(s, 0) {
        Some((e, p)) => if p == s.len() {
            Some(e)
        } else {
            None
        },
        None => None,
    }
}

fn parse_unlambda_at(s: &[u8], pos: usize) -> (r: Option<(Expr, usize)>)
    requires
        pos <= s.len(),
    ensures
        match r {
            Some((e, p)) => unlambda_at(s@, pos as nat) == Some((e, p as nat)) && pos < p
                <= s.len(),
            None => unlambda_at(s@, pos as nat) is None,
        },
    decreases s.len() - pos,
{
    if pos >= s.len() {
        return None;
    }
    let b = s[pos];
    if b == LOWER_S || b == UPPER_S {
        Some((Expr::S, pos + 1))
    } else if b == LOWER_K || b == UPPER_K {
        Some((Expr::K, pos + 1))
    } else if b == LOWER_I {
        Some((Expr::I, pos + 1))
    } else if b == BACKTICK {
        match parse_unlambda_at(s, pos + 1) {
            Some((f, p)) => match parse_unlambda_at(s, p) {
                Some((g, q)) => Some((f * g, q)),
                None => None,
            },
            None => None,
        }
    } else {
        None
    }
}

/// One Iota term at `pos`, with the position after it: `*` and two terms,
/// or `i`.
pub open spec fn iota_at(s: Seq<u8>, pos: nat) -> Option<(Expr, nat)>
    decreases s.len() - pos,
{
    if pos >= s.len() {
        None
    } else {
        let b = s[pos as int];
        if b == LOWER_I {
            Some((iota_term(), pos + 1))
        } else if b == STAR {
            match iota_at(s, pos + 1) {
                Some((f, p)) => if pos < p && p <= s.len() {
                    match iota_at(s, p) {
                        Some((g, q)) => Some((Expr::A(Box::new(f), Box::new(g)), q)),
                        None => None,
                    }
                } else {
                    None
                },
                None => None,
            }
        } else {
            None
        }
    }
}

/// The term that the whole of `s` is in Iota, if it is one.
pub open spec fn iota_source(s: Seq<u8>) -> Option<Expr> {
    match iota_at(s, 0) {
        Some((e, p)) => if p == s.len() {
            Some(e)
        } else {
            None
        },
        None => None,
    }
}

fn parse_iota_at(s: &[u8], pos: usize) -> (r: Option<(Expr, usize)>)
    requires
        pos <= s.len(),
    ensures
        match r {
            Some((e, p)) => iota_at(s@, pos as nat) == Some((e, p as nat)) && pos < p <= s.len(),
            None => iota_at(s@, pos as nat) is None,
        },
    decreases s.len() - pos,
{
    if pos >= s.len() {
        return None;
    }
    let b = s[pos];
    if b == LOWER_I {
        Some((iota(), pos + 1))
    } else if b == STAR {
        match parse_iota_at(s, pos + 1) {
            Some((f, p)) => match parse_iota_at(s, p) {
                Some((g, q)) => Some((f * g, q)),
                None => None,
            },
            None => None,
        }
    } else {
        None
    }
}

/// One operand of the combinator-calculus form at `pos`, with the position
/// after it: a letter `s`, `k` or `i` in either case, or a term in
/// parentheses.
pub open spec fn cc_atom_at(s: Seq<u8>, pos: nat) -> Option<(Expr, nat)>
    decreases s.len() - pos, 0nat,
{
    if pos >= s.len() {
        None
    } else {
        let b = s[pos as int];
        if b == LOWER_S || b == UPPER_S {
            Some((Expr::S, pos + 1))
        } else if b == LOWER_K || b == UPPER_K {
            Some((Expr::K, pos + 1))
        } else if b == LOWER_I || b == UPPER_I {
            Some((Expr::I, pos + 1))
        } else if b == OPEN {
            match cc_term_at(s, pos + 1) {
                Some((e, p)) => if p < s.len() && s[p as int] == CLOSE {
                    Some((e, p + 1))
                } else {
                    None
                },
                None => None,
            }
        } else {
            None
        }
    }
}

/// One term of the combinator-calculus form at `pos`, with the position
/// after it: one operand or more, applied from the left.
pub open spec fn cc_term_at(s: Seq<u8>, pos: nat) -> Option<(Expr, nat)>
    decreases s.len() - pos, 2nat,
{
    if pos >= s.len() {
        None
    } else {
        match cc_atom_at(s, pos) {
            Some((e, p)) => if pos < p && p <= s.len() {
                Some(cc_rest_at(s, p, e))
            } else {
                None
            },
            None => None,
        }
    }
}

/// The term `acc` applied to the operands that follow at `pos`, as far as
/// they go, with the position after them.
pub open spec fn cc_rest_at(s: Seq<u8>, pos: nat, acc: Expr) -> (Expr, nat)
    decreases s.len() - pos, 1nat,
{
    if pos >= s.len() {
        (acc, pos)
    } else {
        match cc_atom_at(s, pos) {
            Some((e, p)) => if pos < p && p <= s.len() {
                cc_rest_at(s, p, Expr::A(Box::new(acc), Box::new(e)))
            } else {
                (acc, pos)
            },
            None => (acc, pos),
        }
    }
}

/// The term that the whole of `s` is in combinator-calculus form, if it is
/// one.
pub open spec fn cc(s: Seq<u8>) -> Option<Expr> {
    match cc_term_at(s, 0) {
        Some((e, p)) => if p == s.len() {
            Some(e)
        } else {
            None
        },
        None => None,
    }
}

/// An operand takes at least one byte and ends inside the source, and so
/// does what follows it.
pub proof fn lemma_cc_at(s: Seq<u8>, pos: nat, acc: Expr, which: nat)
    requires
        which <= 2,
    ensures
        which == 0 ==> (cc_atom_at(s, pos) matches Some((_, p)) ==> pos < p <= s.len()),
        which == 2 ==> (cc_term_at(s, pos) matches Some((_, p)) ==> pos < p <= s.len()),
        which == 1 && pos <= s.len() ==> pos <= cc_rest_at(s, pos, acc).1 <= s.len(),
    decreases s.len() - pos, which,
{
    if pos < s.len() {
        if which == 0 {
            if s[pos as int] == OPEN {
                lemma_cc_at(s, pos + 1, acc, 2);
            }
        } else {
            lemma_cc_at(s, pos, acc, 0);
            match cc_atom_at(s, pos) {
                Some((e, p)) => {
                    if which == 2 {
                        lemma_cc_at(s, p, e, 1);
                    } else {
                        lemma_cc_at(s, p, Expr::A(Box::new(acc), Box::new(e)), 1);
                    }
                },
                None => {},
            }
        }
    }
}

fn parse_cc_atom_at(s: &[u8], pos: usize) -> (r: Option<(Expr, usize)>)
    requires
        pos <= s.len(),
    ensures
        match r {
            Some((e, p)) => cc_atom_at(s@, pos as nat) == Some((e, p as nat)) && pos < p
                <= s.len(),
            None => cc_atom_at(s@, pos as nat) is None,
        },
    decreases s.len() - pos, 0nat,
{
    if pos >= s.len() {
        return None;
    }
    let b = s[pos];
    if b == LOWER_S || b == UPPER_S {
        Some((Expr::S, pos + 1))
    } else if b == LOWER_K || b == UPPER_K {
        Some((Expr::K, pos + 1))
    } else if b == LOWER_I || b == UPPER_I {
        Some((Expr::I, pos + 1))
    } else if b == OPEN {
        match parse_cc_term_at(s, pos + 1) {
            Some((e, p)) => if p < s.len() && s[p] == CLOSE {
                Some((e, p + 1))
            } else {
                None
            },
            None => None,
        }
    } else {
        None
    }
}

fn parse_cc_term_at(s: &[u8], pos: usize) -> (r: Option<(Expr, usize)>)
    requires
        pos <= s.len(),
    ensures
        match r {
            Some((e, p)) => cc_term_at(s@, pos as nat) == Some((e, p as nat)) && pos < p
                <= s.len(),
            None => cc_term_at(s@, pos as nat) is None,
        },
    decreases s.len() - pos, 2nat,
{
    if pos >= s.len() {
        return None;
    }
    let (first, start) = match parse_cc_atom_at(s, pos) {
        Some(found) => found,
        None => {
            return None;
        },
    };
    let mut acc = first;
    let mut at = start;
    loop
        invariant
            pos < at <= s.len(),
            cc_term_at(s@, pos as nat) == Some(cc_rest_at(s@, at as nat, acc)),
        decreases s.len() - at,
    {
        match parse_cc_atom_at(s, at) {
            Some((e, p)) => {
                acc = acc * e;
                at = p;
            },
            None => {
                return Some((acc, at));
            },
        }
    }
}

/// The term of a source that is no Jot string: the first of its readings
/// as combinator calculus, in backtick form and as Iota that takes in the
/// whole of it.
pub open spec fn expr_of(s: Seq<u8>) -> Option<Expr> {
    if cc(s) is Some {
        cc(s)
    } else if unlambda(s) is Some {
        unlambda(s)
    } else {
        iota_source(s)
    }
}

/// The term of a source: its reading by `expr_of`, or else as a Jot string.
pub open spec fn term_of(s: Seq<u8>) -> Option<Expr> {
    if expr_of(s) is Some {
        expr_of(s)
    } else {
        jot(s)
    }
}

/// The term of a source with its comments and white space removed.
pub open spec fn parsed(source: Seq<u8>) -> Option<Expr> {
    term_of(stripped(source))
}

/// Reads code without comments and white space as combinator calculus, in
/// backtick form or as Iota.
pub fn parse_expr(str: &[u8]) -> (r: Result<Expr, &'static str>)
    ensures
        match r {
            Ok(e) => expr_of(str@) == Some(e),
            Err(why) => expr_of(str@) is None && why@ == "parse error"@,
        },
{
    match parse_cc_term_at(str, 0) {
        Some((e, p)) => if p == str.len() {
            return Ok(e);
        },
        None => {},
    }
    match parse_unlambda_at(str, 0) {
        Some((e, p)) => if p == str.len() {
            return Ok(e);
        },
        None => {},
    }
    match parse_iota_at(str, 0) {
        Some((e, p)) => if p == str.len() {
            return Ok(e);
        },
        None => {},
    }
    Err("parse error")
}

/// Reads a source in any of the four notations.
pub fn parse_source(source: &[u8]) -> (r: Option<Expr>)
    ensures
        r == parsed(source@),
{
    let code = strip(source);
    match parse_expr(code.as_slice()) {
        Ok(e) => Some(e),
        Err(_) => match parse_jot(code.as_slice()) {
            Ok(e) => Some(e),
            Err(_) => None,
        },
    }
}

/// Reads a source in any of the four notations.
pub fn parse(str: &str) -> (r: Option<Expr>)
    ensures
        r == parsed(str.spec_bytes()),
{
    parse_source(str.as_bytes())
}

} // verus!
