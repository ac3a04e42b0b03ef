use crate::expr::Expr;
use crate::parse::{parse, parse_source, parsed};
use crate::render::{decimal, push_decimal};
use vstd::prelude::*;
use vstd::string::{StrSliceExecFns, StringExecFns};
use vstd::utf8::encode_utf8;

verus! {

/// Where a program came from: the n-th program of the command line, given
/// inline, or a file.
pub enum Tag {
    FromArg(usize),
    FromFile(String),
}

/// A program's source and where it came from.
pub struct Program {
    pub tag: Tag,
    pub code: Vec<u8>,
}

/// How a tag reads in a message.
pub open spec fn location_text(tag: Tag) -> Seq<char> {
    match tag {
        Tag::FromArg(n) => if n == 1 {
            "1st argument"@
        } else if n == 2 {
            "2nd argument"@
        } else if n == 3 {
            "3rd argument"@
        } else {
            decimal(n as nat) + "th argument"@
        },
        Tag::FromFile(file) => "file "@ + file@,
    }
}

/// How `tag` reads in a message.
pub fn location(tag: &Tag) -> (text: String)
    ensures
        text@ == location_text(*tag),
{
    match tag {
        Tag::FromArg(n) => {
            if *n == 1 {
                String::from_str("1st argument")
            } else if *n == 2 {
                String::from_str("2nd argument")
            } else if *n == 3 {
                String::from_str("3rd argument")
            } else {
                let mut text = String::new();
                push_decimal(*n, &mut text);
                text.append("th argument");
                proof {
                    assert(Seq::<char>::empty() + decimal(*n as nat) =~= decimal(*n as nat));
                }
                text
            }
        },
        Tag::FromFile(file) => {
            let mut text = String::from_str("file ");
            text.append(file.as_str());
            text
        },
    }
}

/// The message for a program that is in none of the four notations.
pub fn parse_error(tag: &Tag) -> (text: String)
    ensures
        text@ == "parse error on "@ + location_text(*tag),
{
    let mut text = String::from_str("parse error on ");
    let place = location(tag);
    text.append(place.as_str());
    text
}

/// The programs `es` chained into one: from `I`, each program `g` in turn
/// makes `S (K f) g` of the chain `f` so far.
pub open spec fn composed(es: Seq<Expr>) -> Expr
    decreases es.len(),
{
    if es.len() == 0 {
        Expr::I
    } else {
        Expr::A(
            Box::new(
                Expr::A(
                    Box::new(Expr::S),
                    Box::new(Expr::A(Box::new(Expr::K), Box::new(composed(es.drop_last())))),
                ),
            ),
            Box::new(es.last()),
        )
    }
}

/// Two programs `f` and `g`, given in this order, are chained into
/// `S (K (S (K I) f)) g`.
pub proof fn lemma_composed_two(f: Expr, g: Expr)
    ensures
        composed(seq![f, g]) == Expr::A(
            Box::new(
                Expr::A(
                    Box::new(Expr::S),
                    Box::new(
                        Expr::A(
                            Box::new(Expr::K),
                            Box::new(
                                Expr::A(
                                    Box::new(
                                        Expr::A(
                                            Box::new(Expr::S),
                                            Box::new(
                                                Expr::A(Box::new(Expr::K), Box::new(Expr::I)),
                                            ),
                                        ),
                                    ),
                                    Box::new(f),
                                ),
                            ),
                        ),
                    ),
                ),
            ),
            Box::new(g),
        ),
{
    let both = seq![f, g];
    let one = seq![f];
    assert(both.drop_last() =~= one);
    assert(one.drop_last() =~= Seq::<Expr>::empty());
    assert(composed(one.drop_last()) == Expr::I);
    assert(composed(both.drop_last()) == composed(one));
    reveal_with_fuel(composed, 3);
}

/// Chains the programs into one term.
pub fn compose(programs: &Vec<Expr>) -> (e: Expr)
    ensures
        e == composed(programs@),
{
    let mut chain = Expr::I;
    let mut i: usize = 0;
    while i < programs.len()
        invariant
            i <= programs.len(),
            chain == composed(programs@.take(i as int)),
        decreases programs.len() - i,
    {
        proof {
            assert(programs@.take(i + 1).drop_last() =~= programs@.take(i as int));
        }
        chain = Expr::S * (Expr::K * chain) * programs[i].clone();
        i += 1;
    }
    proof {
        assert(programs@.take(programs.len() as int) =~= programs@);
    }
    chain
}

/// The terms of the first `n` programs, if each of them parses.
pub open spec fn all_parsed(programs: Seq<Program>, n: nat) -> Option<Seq<Expr>>
    decreases n,
{
    if n == 0 {
        Some(Seq::empty())
    } else {
        match all_parsed(programs, (n - 1) as nat) {
            Some(es) => match parsed(programs[n - 1].code@) {
                Some(e) => Some(es.push(e)),
                None => None,
            },
            None => None,
        }
    }
}

/// The first of the first `n` programs that does not parse.
pub open spec fn first_failure(programs: Seq<Program>, n: nat) -> Option<nat>
    decreases n,
{
    if n == 0 {
        None
    } else {
        match first_failure(programs, (n - 1) as nat) {
            Some(i) => Some(i),
            None => if parsed(programs[n - 1].code@) is None {
                Some((n - 1) as nat)
            } else {
                None
            },
        }
    }
}

proof fn lemma_failure_stays(programs: Seq<Program>, i: nat, n: nat)
    requires
        i < n,
        first_failure(programs, i) is None,
        parsed(programs[i as int].code@) is None,
    ensures
        first_failure(programs, n) == Some(i),
        all_parsed(programs, n) is None,
    decreases n,
{
    if i + 1 < n {
        lemma_failure_stays(programs, i, (n - 1) as nat);
    } else {
        lemma_no_failure(programs, i);
    }
}

proof fn lemma_no_failure(programs: Seq<Program>, n: nat)
    ensures
        first_failure(programs, n) is None <==> all_parsed(programs, n) is Some,
    decreases n,
{
    if n > 0 {
        lemma_no_failure(programs, (n - 1) as nat);
    }
}

/// Parses the programs in turn and chains them into one term; the message
/// for the first program that does not parse, if there is one.
pub fn assemble(programs: &Vec<Program>) -> (r: Result<Expr, String>)
    ensures
        match r {
            Ok(e) => all_parsed(programs@, programs@.len()) matches Some(es) && e == composed(es),
            Err(text) => first_failure(programs@, programs@.len()) matches Some(i) && text@
                == "parse error on "@ + location_text(programs@[i as int].tag),
        },
{
    let mut exprs: Vec<Expr> = Vec::new();
    let mut i: usize = 0;
    while i < programs.len()
        invariant
            i <= programs.len(),
            all_parsed(programs@, i as nat) == Some(exprs@),
            first_failure(programs@, i as nat) is None,
        decreases programs.len() - i,
    {
        match parse_source(programs[i].code.as_slice()) {
            Some(e) => {
                exprs.push(e);
            },
            None => {
                proof {
                    lemma_failure_stays(programs@, i as nat, programs@.len());
                }
                return Err(parse_error(&programs[i].tag));
            },
        }
        i += 1;
    }
    Ok(compose(&exprs))
}

/// How far the command line has been read: the next argument, and the
/// number that the next program gets.
#[derive(Clone, Copy, Debug, PartialEq, Eq, Structural)]
pub struct ArgCursor {
    pub pos: usize,
    pub index: usize,
}

/// What the command line asks for next.
pub enum Request {
    /// A program given inline, after `-e`.
    Inline(Program),
    /// A file to read a program from.
    File(String),
    /// `-e` was the last argument.
    Missing,
    /// The arguments have been used up.
    Done,
}

/// The first argument at or after `pos` that is not empty, or the number
/// of arguments.
pub open spec fn next_arg(args: Seq<String>, pos: nat) -> nat
    decreases args.len() - pos,
{
    if pos >= args.len() {
        args.len()
    } else if args[pos as int]@.len() == 0 {
        next_arg(args, pos + 1)
    } else {
        pos
    }
}

proof fn lemma_next_arg(args: Seq<String>, pos: nat)
    requires
        pos <= args.len(),
    ensures
        pos <= next_arg(args, pos) <= args.len(),
    decreases args.len() - pos,
{
    if pos < args.len() && args[pos as int]@.len() == 0 {
        lemma_next_arg(args, pos + 1);
    }
}

impl ArgCursor {
    /// The cursor before the first argument.
    pub fn new() -> (cur: ArgCursor)
        ensures
            cur.pos == 0,
            cur.index == 1,
    {
        ArgCursor { pos: 0, index: 1 }
    }
}

/// Reads the next request off the command line. Empty arguments are passed
/// over. `-e` takes the argument after it as a program and gives it the
/// next number; any other argument names a file. Each request moves the
/// number on by one.
pub fn next_request(args: &Vec<String>, cur: &mut ArgCursor) -> (r: Request)
    requires
        args.len() < usize::MAX,
        old(cur).pos <= args.len(),
        old(cur).index <= old(cur).pos + 1,
    ensures
        final(cur).pos <= args.len(),
        final(cur).index <= final(cur).pos + 1,
        ({
            let at = next_arg(args@, old(cur).pos as nat) as int;
            if at >= args.len() {
                r is Done && final(cur).pos == args.len() && final(cur).index == old(cur).index
            } else if args[at]@ == "-e"@ {
                if at + 1 >= args.len() {
                    r is Missing && final(cur).pos == args.len() && final(cur).index == old(
                        cur,
                    ).index
                } else {
                    &&& r matches Request::Inline(program) && program.tag == Tag::FromArg(
                        old(cur).index,
                    ) && program.code@ == encode_utf8(args[at as int + 1]@)
                    &&& final(cur).pos == at + 2
                    &&& final(cur).index == old(cur).index + 1
                }
            } else {
                &&& r matches Request::File(path) && path == args[at]
                &&& final(cur).pos == at + 1
                &&& final(cur).index == old(cur).index + 1
            }
        }),
{
    let flag = String::from_str("-e");
    let mut pos = cur.pos;
    while pos < args.len() && args[pos].as_str().is_empty()
        invariant
            cur.pos <= pos <= args.len(),
            next_arg(args@, cur.pos as nat) == next_arg(args@, pos as nat),
        decreases args.len() - pos,
    {
        pos += 1;
    }
    if pos >= args.len() {
        cur.pos = pos;
        return Request::Done;
    }
    if args[pos] == flag {
        if pos + 1 >= args.len() {
            cur.pos = args.len();
            return Request::Missing;
        }
        let code = args[pos + 1].as_str().as_bytes_vec();
        let program = Program { tag: Tag::FromArg(cur.index), code };
        cur.pos = pos + 2;
        cur.index = cur.index + 1;
        Request::Inline(program)
    } else {
        let path = args[pos].clone();
        cur.pos = pos + 1;
        cur.index = cur.index + 1;
        Request::File(path)
    }
}

} // verus!
