use crate::expr::Expr;
use crate::parse::{
    cc, cc_atom_at, cc_rest_at, cc_term_at, iota_at, iota_source, iota_term, jot, lemma_cc_at,
    lemma_unlambda_at, term_of, unlambda, unlambda_at, BACKTICK, CLOSE, LOWER_I, LOWER_K, LOWER_S,
    OPEN, STAR, UPPER_I, UPPER_K, UPPER_S,
};
use vstd::prelude::*;

verus! {

/// `k` cuts `s` after its first byte, or later.
pub open spec fn cut(s: Seq<u8>, k: int) -> bool {
    1 <= k <= s.len()
}

/// `s` writes the term `e` in backtick form: a letter for a primitive, and
/// for an application a backtick before the writings of its two parts.
pub open spec fn writes_backtick(s: Seq<u8>, e: Expr) -> bool
    decreases e,
{
    match e {
        Expr::I => s == seq![LOWER_I],
        Expr::K => s == seq![LOWER_K] || s == seq![UPPER_K],
        Expr::S => s == seq![LOWER_S] || s == seq![UPPER_S],
        Expr::A(x, y) => s.len() >= 1 && s[0] == BACKTICK && exists|k: int|
            #[trigger] cut(s, k) && writes_backtick(s.subrange(1, k), *x) && writes_backtick(
                s.subrange(k, s.len() as int),
                *y,
            ),
    }
}

/// What is read in backtick form is written there.
pub proof fn lemma_backtick_sound(s: Seq<u8>, pos: nat)
    requires
        unlambda_at(s, pos) is Some,
    ensures
        ({
            let (e, p) = unlambda_at(s, pos)->Some_0;
            pos < p <= s.len() && writes_backtick(s.subrange(pos as int, p as int), e)
        }),
    decreases s.len() - pos,
{
    let (e, p) = unlambda_at(s, pos)->Some_0;
    let b = s[pos as int];
    lemma_unlambda_at(s, pos);
    let part = s.subrange(pos as int, p as int);
    if b == LOWER_S || b == UPPER_S || b == LOWER_K || b == UPPER_K || b == LOWER_I {
        assert(part =~= seq![b]);
    } else {
        assert(b == BACKTICK);
        lemma_unlambda_at(s, pos + 1);
        lemma_backtick_sound(s, pos + 1);
        let (f, q) = unlambda_at(s, pos + 1)->Some_0;
        lemma_unlambda_at(s, q);
        lemma_backtick_sound(s, q);
        let (g, r) = unlambda_at(s, q)->Some_0;
        assert(r == p);
        assert(e == Expr::A(Box::new(f), Box::new(g)));
        let k = q - pos;
        assert(part.subrange(1, k) =~= s.subrange(pos as int + 1, q as int));
        assert(part.subrange(k, part.len() as int) =~= s.subrange(q as int, r as int));
        assert(part[0] == BACKTICK);
        assert(cut(part, k));
    }
}

/// What is written in backtick form is read.
pub proof fn lemma_backtick_complete(s: Seq<u8>, pos: nat, p: nat, e: Expr)
    requires
        pos <= p <= s.len(),
        writes_backtick(s.subrange(pos as int, p as int), e),
    ensures
        unlambda_at(s, pos) == Some((e, p)),
    decreases e,
{
    let part = s.subrange(pos as int, p as int);
    match e {
        Expr::A(x, y) => {
            let k = choose|k: int|
                #[trigger] cut(part, k) && writes_backtick(part.subrange(1, k), *x)
                    && writes_backtick(part.subrange(k, part.len() as int), *y);
            assert(part[0] == s[pos as int]);
            assert(part.subrange(1, k) =~= s.subrange(pos as int + 1, pos as int + k));
            assert(part.subrange(k, part.len() as int) =~= s.subrange(pos as int + k, p as int));
            lemma_backtick_complete(s, pos + 1, (pos + k) as nat, *x);
            lemma_backtick_complete(s, (pos + k) as nat, p, *y);
            lemma_written_backtick(s.subrange(pos as int + 1, pos as int + k), *x);
        },
        _ => {
            assert(part.len() == 1);
            assert(part[0] == s[pos as int]);
        },
    }
}

/// A writing in backtick form is not empty.
pub proof fn lemma_written_backtick(s: Seq<u8>, e: Expr)
    requires
        writes_backtick(s, e),
    ensures
        s.len() >= 1,
{
}

/// The backtick reading of a source is the term that the source writes,
/// and there is at most one.
pub proof fn lemma_backtick(s: Seq<u8>, e: Expr)
    ensures
        unlambda(s) == Some(e) <==> writes_backtick(s, e),
{
    assert(s.subrange(0, s.len() as int) =~= s);
    if unlambda(s) == Some(e) {
        lemma_backtick_sound(s, 0);
    }
    if writes_backtick(s, e) {
        lemma_backtick_complete(s, 0, s.len(), e);
    }
}

/// `s` writes the term `e` in Iota: `i` for the Iota combinator, and for
/// an application a star before the writings of its two parts.
pub open spec fn writes_iota(s: Seq<u8>, e: Expr) -> bool
    decreases e,
{
    ||| s == seq![LOWER_I] && e == iota_term()
    ||| e matches Expr::A(x, y) && s.len() >= 1 && s[0] == STAR && exists|k: int|
        #[trigger] cut(s, k) && writes_iota(s.subrange(1, k), *x) && writes_iota(
            s.subrange(k, s.len() as int),
            *y,
        )
}

/// What is read as Iota is written there.
pub proof fn lemma_iota_sound(s: Seq<u8>, pos: nat)
    requires
        iota_at(s, pos) is Some,
    ensures
        ({
            let (e, p) = iota_at(s, pos)->Some_0;
            pos < p <= s.len() && writes_iota(s.subrange(pos as int, p as int), e)
        }),
    decreases s.len() - pos,
{
    let (e, p) = iota_at(s, pos)->Some_0;
    let b = s[pos as int];
    let part = s.subrange(pos as int, p as int);
    if b == STAR {
        lemma_iota_sound(s, pos + 1);
        let (f, q) = iota_at(s, pos + 1)->Some_0;
        lemma_iota_sound(s, q);
        let (g, r) = iota_at(s, q)->Some_0;
        let k = q - pos;
        assert(part.subrange(1, k) =~= s.subrange(pos as int + 1, q as int));
        assert(part.subrange(k, part.len() as int) =~= s.subrange(q as int, r as int));
        assert(part[0] == STAR);
        assert(cut(part, k));
    } else {
        assert(part =~= seq![b]);
    }
}

/// What is written in Iota is read.
pub proof fn lemma_iota_complete(s: Seq<u8>, pos: nat, p: nat, e: Expr)
    requires
        pos <= p <= s.len(),
        writes_iota(s.subrange(pos as int, p as int), e),
    ensures
        iota_at(s, pos) == Some((e, p)),
    decreases e,
{
    let part = s.subrange(pos as int, p as int);
    if part == seq![LOWER_I] && e == iota_term() {
        assert(part.len() == 1);
        assert(part[0] == s[pos as int]);
    } else {
        match e {
            Expr::A(x, y) => {
                let k = choose|k: int|
                    #[trigger] cut(part, k) && writes_iota(part.subrange(1, k), *x) && writes_iota(
                        part.subrange(k, part.len() as int),
                        *y,
                    );
                assert(part[0] == s[pos as int]);
                assert(part.subrange(1, k) =~= s.subrange(pos as int + 1, pos as int + k));
                assert(part.subrange(k, part.len() as int) =~= s.subrange(pos as int + k, p as int));
                lemma_iota_complete(s, pos + 1, (pos + k) as nat, *x);
                lemma_iota_complete(s, (pos + k) as nat, p, *y);
                lemma_written_iota(s.subrange(pos as int + 1, pos as int + k), *x);
            },
            _ => {},
        }
    }
}

/// A writing in Iota is not empty.
pub proof fn lemma_written_iota(s: Seq<u8>, e: Expr)
    requires
        writes_iota(s, e),
    ensures
        s.len() >= 1,
{
}

/// The Iota reading of a source is the term that the source writes, and
/// there is at most one.
pub proof fn lemma_iota(s: Seq<u8>, e: Expr)
    ensures
        iota_source(s) == Some(e) <==> writes_iota(s, e),
{
    assert(s.subrange(0, s.len() as int) =~= s);
    if iota_source(s) == Some(e) {
        lemma_iota_sound(s, 0);
    }
    if writes_iota(s, e) {
        lemma_iota_complete(s, 0, s.len(), e);
    }
}

/// `s` writes `e` as an operand of the combinator-calculus form: a
/// letter for a primitive, in either case, or a term in parentheses.
pub open spec fn writes_operand(s: Seq<u8>, e: Expr) -> bool
    decreases s.len(), 0nat,
{
    ||| (s == seq![LOWER_S] || s == seq![UPPER_S]) && e == Expr::S
    ||| (s == seq![LOWER_K] || s == seq![UPPER_K]) && e == Expr::K
    ||| (s == seq![LOWER_I] || s == seq![UPPER_I]) && e == Expr::I
    ||| s.len() >= 2 && s[0] == OPEN && s[s.len() - 1] == CLOSE && writes_term(
        s.subrange(1, s.len() - 1),
        e,
    )
}

/// `s` writes `e` as a term of the combinator-calculus form: one operand,
/// or the writing of a term followed by the operand that it is applied
/// to.
pub open spec fn writes_term(s: Seq<u8>, e: Expr) -> bool
    decreases s.len(), 1nat,
{
    ||| writes_operand(s, e)
    ||| e matches Expr::A(f, x) && exists|k: int|
        #[trigger] cut(s, k) && k < s.len() && writes_term(s.subrange(0, k), *f) && writes_operand(
            s.subrange(k, s.len() as int),
            *x,
        )
}

/// An operand that is read is written where it was read.
pub proof fn lemma_operand_sound(s: Seq<u8>, pos: nat)
    requires
        cc_atom_at(s, pos) is Some,
    ensures
        ({
            let (e, p) = cc_atom_at(s, pos)->Some_0;
            pos < p <= s.len() && writes_operand(s.subrange(pos as int, p as int), e)
        }),
    decreases s.len() - pos, 0nat,
{
    let (e, p) = cc_atom_at(s, pos)->Some_0;
    let b = s[pos as int];
    lemma_cc_at(s, pos, e, 0);
    let part = s.subrange(pos as int, p as int);
    if b == OPEN {
        lemma_cc_at(s, pos + 1, e, 2);
        lemma_term_sound(s, pos + 1);
        let (inner, q) = cc_term_at(s, pos + 1)->Some_0;
        assert(part.subrange(1, part.len() - 1) =~= s.subrange(pos as int + 1, q as int));
        assert(part[0] == OPEN);
        assert(part[part.len() - 1] == s[q as int]);
    } else {
        assert(part =~= seq![b]);
    }
}

/// A term that is read is written where it was read.
pub proof fn lemma_term_sound(s: Seq<u8>, pos: nat)
    requires
        cc_term_at(s, pos) is Some,
    ensures
        ({
            let (e, p) = cc_term_at(s, pos)->Some_0;
            pos < p <= s.len() && writes_term(s.subrange(pos as int, p as int), e)
        }),
    decreases s.len() - pos, 2nat,
{
    lemma_operand_sound(s, pos);
    let (first, q) = cc_atom_at(s, pos)->Some_0;
    lemma_rest_sound(s, pos, q, first);
}

/// Operands that are read after a written term extend the writing.
pub proof fn lemma_rest_sound(s: Seq<u8>, pos: nat, q: nat, acc: Expr)
    requires
        pos < q <= s.len(),
        writes_term(s.subrange(pos as int, q as int), acc),
    ensures
        ({
            let (e, p) = cc_rest_at(s, q, acc);
            q <= p <= s.len() && writes_term(s.subrange(pos as int, p as int), e)
        }),
    decreases s.len() - q, 1nat,
{
    if q < s.len() && cc_atom_at(s, q) is Some {
        lemma_operand_sound(s, q);
        let (x, r) = cc_atom_at(s, q)->Some_0;
        let next = Expr::A(Box::new(acc), Box::new(x));
        let part = s.subrange(pos as int, r as int);
        let k = q - pos;
        assert(part.subrange(0, k) =~= s.subrange(pos as int, q as int));
        assert(part.subrange(k, part.len() as int) =~= s.subrange(q as int, r as int));
        assert(cut(part, k));
        assert(writes_term(part, next));
        lemma_rest_sound(s, pos, r, next);
    }
}

/// A writing of an operand is not empty.
pub proof fn lemma_written_operand(s: Seq<u8>, e: Expr)
    requires
        writes_operand(s, e),
    ensures
        s.len() >= 1,
{
}

/// An operand that is written is read where it is written.
pub proof fn lemma_operand_complete(s: Seq<u8>, pos: nat, p: nat, e: Expr)
    requires
        pos <= p <= s.len(),
        writes_operand(s.subrange(pos as int, p as int), e),
    ensures
        cc_atom_at(s, pos) == Some((e, p)),
    decreases p - pos, 0nat,
{
    let part = s.subrange(pos as int, p as int);
    lemma_written_operand(part, e);
    assert(part[0] == s[pos as int]);
    if part.len() >= 2 && part[0] == OPEN {
        assert(part[part.len() - 1] == s[p - 1]);
        assert(part.subrange(1, part.len() - 1) =~= s.subrange(pos as int + 1, p as int - 1));
        lemma_term_complete(s, pos + 1, (p - 1) as nat, e);
        assert(cc_atom_at(s, (p - 1) as nat) is None);
    } else {
        assert(part.len() == 1);
    }
}

/// A term that is written is read where it is written, and reading goes
/// on from its end.
pub proof fn lemma_term_complete(s: Seq<u8>, pos: nat, p: nat, e: Expr)
    requires
        pos <= p <= s.len(),
        writes_term(s.subrange(pos as int, p as int), e),
    ensures
        pos < p,
        cc_term_at(s, pos) == Some(cc_rest_at(s, p, e)),
    decreases p - pos, 1nat,
{
    let part = s.subrange(pos as int, p as int);
    if writes_operand(part, e) {
        lemma_written_operand(part, e);
        lemma_operand_complete(s, pos, p, e);
    } else {
        match e {
            Expr::A(f, x) => {
                let k = choose|k: int|
                    #[trigger] cut(part, k) && k < part.len() && writes_term(
                        part.subrange(0, k),
                        *f,
                    ) && writes_operand(part.subrange(k, part.len() as int), *x);
                let mid = (pos + k) as nat;
                assert(part.subrange(0, k) =~= s.subrange(pos as int, mid as int));
                assert(part.subrange(k, part.len() as int) =~= s.subrange(mid as int, p as int));
                lemma_term_complete(s, pos, mid, *f);
                lemma_operand_complete(s, mid, p, *x);
            },
            _ => {},
        }
    }
}

/// The reading of a source as combinator calculus is the term that the
/// source writes, and there is at most one.
pub proof fn lemma_combinator_calculus(s: Seq<u8>, e: Expr)
    ensures
        cc(s) == Some(e) <==> writes_term(s, e),
{
    assert(s.subrange(0, s.len() as int) =~= s);
    if cc(s) == Some(e) {
        lemma_term_sound(s, 0);
    }
    if writes_term(s, e) {
        lemma_term_complete(s, 0, s.len(), e);
    }
}

/// `s` writes `e` in the first of the four notations that it writes
/// any term in: combinator calculus, backtick form, Iota, Jot.
pub open spec fn writes(s: Seq<u8>, e: Expr) -> bool {
    if exists|t: Expr| writes_term(s, t) {
        writes_term(s, e)
    } else if exists|t: Expr| writes_backtick(s, t) {
        writes_backtick(s, e)
    } else if exists|t: Expr| writes_iota(s, t) {
        writes_iota(s, e)
    } else {
        jot(s) == Some(e)
    }
}

/// The term of a source is the term that the source writes.
pub proof fn lemma_term_of(s: Seq<u8>, e: Expr)
    ensures
        term_of(s) == Some(e) <==> writes(s, e),
{
    lemma_combinator_calculus(s, e);
    lemma_backtick(s, e);
    lemma_iota(s, e);
    if cc(s) is Some {
        lemma_combinator_calculus(s, cc(s)->Some_0);
    }
    if unlambda(s) is Some {
        lemma_backtick(s, unlambda(s)->Some_0);
    }
    if iota_source(s) is Some {
        lemma_iota(s, iota_source(s)->Some_0);
    }
    if exists|t: Expr| writes_term(s, t) {
        let t = choose|t: Expr| writes_term(s, t);
        lemma_combinator_calculus(s, t);
    }
    if exists|t: Expr| writes_backtick(s, t) {
        let t = choose|t: Expr| writes_backtick(s, t);
        lemma_backtick(s, t);
    }
    if exists|t: Expr| writes_iota(s, t) {
        let t = choose|t: Expr| writes_iota(s, t);
        lemma_iota(s, t);
    }
}

} // verus!
