use crate::expr::Expr;
use crate::parse::{
    cc, cc_atom_at, cc_rest_at, cc_term_at, expr_of, parsed, space, stripped_from, term_of,
    unlambda, unlambda_at, BACKTICK, HASH, LOWER_I, LOWER_K, LOWER_S, NEWLINE,
};
use crate::render::shown;
use vstd::prelude::*;
use vstd::utf8::{encode_utf8, is_ascii_chars, is_ascii_chars_encode_utf8};

verus! {

/// The term `e` in backtick form, as bytes.
pub open spec fn backtick(e: Expr) -> Seq<u8>
    decreases e,
{
    match e {
        Expr::I => seq![LOWER_I],
        Expr::K => seq![LOWER_K],
        Expr::S => seq![LOWER_S],
        Expr::A(x, y) => seq![BACKTICK] + backtick(*x) + backtick(*y),
    }
}

/// The backtick form is made of four bytes, none of them white space or
/// the start of a comment.
pub open spec fn plain(s: Seq<u8>) -> bool {
    forall|i: int|
        0 <= i < s.len() ==> {
            let b = #[trigger] s[i];
            b == BACKTICK || b == LOWER_I || b == LOWER_K || b == LOWER_S
        }
}

/// The backtick form of a term is plain and not empty.
pub proof fn lemma_backtick_plain(e: Expr)
    ensures
        plain(backtick(e)),
        backtick(e).len() >= 1,
    decreases e,
{
    match e {
        Expr::A(x, y) => {
            lemma_backtick_plain(*x);
            lemma_backtick_plain(*y);
        },
        _ => {},
    }
}

/// The text of a term, as `to_text` gives it, is its backtick form byte
/// for byte.
pub proof fn lemma_shown_bytes(e: Expr)
    ensures
        is_ascii_chars(shown(e)),
        encode_utf8(shown(e)) == backtick(e),
    decreases e,
{
    reveal_strlit("i");
    reveal_strlit("k");
    reveal_strlit("s");
    reveal_strlit("`");
    let text = shown(e);
    match e {
        Expr::A(x, y) => {
            lemma_shown_bytes(*x);
            lemma_shown_bytes(*y);
            let tx = shown(*x);
            let ty = shown(*y);
            is_ascii_chars_encode_utf8(tx);
            is_ascii_chars_encode_utf8(ty);
            assert(text == "`"@ + tx + ty);
            assert(is_ascii_chars(text)) by {
                assert forall|i: int| 0 <= i < text.len() implies '\0' <= #[trigger] text[i]
                    <= '\u{7f}' by {
                    if i >= 1 + tx.len() {
                        assert(text[i] == ty[i - 1 - tx.len()]);
                    } else if i >= 1 {
                        assert(text[i] == tx[i - 1]);
                    }
                }
            }
            is_ascii_chars_encode_utf8(text);
            let bytes = encode_utf8(text);
            let form = backtick(e);
            assert(form == seq![BACKTICK] + backtick(*x) + backtick(*y));
            assert forall|i: int| 0 <= i < bytes.len() implies bytes[i] == form[i] by {
                assert(bytes[i] == text[i] as u8);
                if i >= 1 + tx.len() {
                    assert(text[i] == ty[i - 1 - tx.len()]);
                    assert(form[i] == backtick(*y)[i - 1 - tx.len()]);
                } else if i >= 1 {
                    assert(text[i] == tx[i - 1]);
                    assert(form[i] == backtick(*x)[i - 1]);
                }
            }
            assert(bytes =~= form);
        },
        _ => {
            is_ascii_chars_encode_utf8(text);
            assert(encode_utf8(text) =~= backtick(e));
        },
    }
}

/// Where the backtick form of `e` stands at `pos`, that is what is read
/// there.
pub proof fn lemma_unlambda_reads(s: Seq<u8>, pos: nat, e: Expr)
    requires
        pos + backtick(e).len() <= s.len(),
        s.subrange(pos as int, pos as int + backtick(e).len()) == backtick(e),
    ensures
        unlambda_at(s, pos) == Some((e, pos + backtick(e).len())),
    decreases e,
{
    let form = backtick(e);
    let part = s.subrange(pos as int, pos as int + form.len());
    lemma_backtick_plain(e);
    assert(s[pos as int] == part[0]);
    match e {
        Expr::A(x, y) => {
            let fx = backtick(*x);
            let fy = backtick(*y);
            assert(form == seq![BACKTICK] + fx + fy);
            assert(form[0] == BACKTICK);
            assert(s.subrange(pos as int + 1, pos as int + 1 + fx.len()) =~= fx) by {
                assert forall|i: int| 0 <= i < fx.len() implies s[pos + 1 + i] == fx[i] by {
                    assert(s[pos + 1 + i] == part[1 + i]);
                    assert(form[1 + i] == fx[i]);
                }
            }
            lemma_unlambda_reads(s, pos + 1, *x);
            let mid = pos + 1 + fx.len();
            assert(s.subrange(mid as int, mid as int + fy.len()) =~= fy) by {
                assert forall|i: int| 0 <= i < fy.len() implies s[mid + i] == fy[i] by {
                    assert(s[mid + i] == part[1 + fx.len() + i]);
                    assert(form[1 + fx.len() + i] == fy[i]);
                }
            }
            lemma_unlambda_reads(s, mid as nat, *y);
            lemma_backtick_plain(*x);
        },
        _ => {},
    }
}

/// Nothing is removed from a source that holds neither white space nor a
/// comment.
pub proof fn lemma_stripped_plain(s: Seq<u8>, i: nat)
    requires
        plain(s),
        i <= s.len(),
    ensures
        stripped_from(s, i, false) == s.skip(i as int),
    decreases s.len() - i,
{
    if i < s.len() {
        lemma_stripped_plain(s, i + 1);
        let b = s[i as int];
        assert(b != NEWLINE && b != HASH && !space(b));
        assert(seq![b] + s.skip(i as int + 1) =~= s.skip(i as int));
    } else {
        assert(s.skip(i as int) =~= Seq::<u8>::empty());
    }
}

/// Reading the text of a term gives the term back: `parse` undoes
/// `to_text`.
pub proof fn lemma_round_trip(e: Expr)
    ensures
        parsed(backtick(e)) == Some(e),
        parsed(encode_utf8(shown(e))) == Some(e),
{
    let form = backtick(e);
    lemma_shown_bytes(e);
    lemma_backtick_plain(e);
    lemma_stripped_plain(form, 0);
    assert(form.skip(0) =~= form);
    assert(form.subrange(0, form.len() as int) =~= form);
    lemma_unlambda_reads(form, 0, e);
    assert(unlambda(form) == Some(e));
    match e {
        Expr::A(x, y) => {
            assert(form[0] == BACKTICK);
            assert(cc_atom_at(form, 0) is None);
            assert(cc(form) is None);
        },
        _ => {
            assert(form.len() == 1);
            assert(cc_atom_at(form, 0) == Some((e, 1nat)));
            assert(cc_rest_at(form, 1, e) == (e, 1nat));
            assert(cc_term_at(form, 0) == Some((e, 1nat)));
            assert(cc(form) == Some(e));
        },
    }
    assert(expr_of(form) == Some(e));
    assert(term_of(form) == Some(e));
}

} // verus!
