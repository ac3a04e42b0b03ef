use crate::expr::Expr;
use crate::graph::{acyclic, closed, height, lemma_height_edge, node_closed, Graph};
use crate::runner::Runner;
use vstd::prelude::*;
use vstd::string::StringExecFns;

verus! {

/// One decimal digit as text.
pub open spec fn digit(d: nat) -> Seq<char> {
    if d == 0 {
        "0"@
    } else if d == 1 {
        "1"@
    } else if d == 2 {
        "2"@
    } else if d == 3 {
        "3"@
    } else if d == 4 {
        "4"@
    } else if d == 5 {
        "5"@
    } else if d == 6 {
        "6"@
    } else if d == 7 {
        "7"@
    } else if d == 8 {
        "8"@
    } else {
        "9"@
    }
}

/// `n` in decimal, without leading zeros.
pub open spec fn decimal(n: nat) -> Seq<char>
    decreases n,
{
    if n < 10 {
        digit(n)
    } else {
        decimal(n / 10) + digit(n % 10)
    }
}

/// The graph at `a` as text: applications in backtick form, links looked
/// through, and a name in angle brackets for whatever is no combinator.
pub open spec fn rendered(h: Seq<Graph>, a: usize) -> Seq<char>
    decreases height(h, a),
{
    if !(closed(h) && acyclic(h) && a < h.len()) {
        Seq::empty()
    } else {
        match h[a as int] {
            Graph::Apply(x, y) => {
                proof {
                    lemma_height_edge(h, a, x);
                    lemma_height_edge(h, a, y);
                }
                "`"@ + rendered(h, x) + rendered(h, y)
            },
            Graph::S => "s"@,
            Graph::K => "k"@,
            Graph::I => "i"@,
            Graph::Link(x) => {
                proof {
                    lemma_height_edge(h, a, x);
                }
                rendered(h, x)
            },
            Graph::Inc => "<increment>"@,
            Graph::Num(n) => "<number:"@ + decimal(n as nat) + ">"@,
            Graph::Stdin => "<stdin>"@,
            Graph::Free => "<runtime bug>"@,
        }
    }
}

/// The term `e` as text, in backtick form.
pub open spec fn shown(e: Expr) -> Seq<char>
    decreases e,
{
    match e {
        Expr::I => "i"@,
        Expr::K => "k"@,
        Expr::S => "s"@,
        Expr::A(x, y) => "`"@ + shown(*x) + shown(*y),
    }
}

fn push_digit(d: usize, string: &mut String)
    requires
        d < 10,
    ensures
        final(string)@ == old(string)@ + digit(d as nat),
{
    if d == 0 {
        string.append("0");
    } else if d == 1 {
        string.append("1");
    } else if d == 2 {
        string.append("2");
    } else if d == 3 {
        string.append("3");
    } else if d == 4 {
        string.append("4");
    } else if d == 5 {
        string.append("5");
    } else if d == 6 {
        string.append("6");
    } else if d == 7 {
        string.append("7");
    } else if d == 8 {
        string.append("8");
    } else {
        string.append("9");
    }
}

/// Appends `n` in decimal to `string`.
pub fn push_decimal(n: usize, string: &mut String)
    ensures
        final(string)@ == old(string)@ + decimal(n as nat),
    decreases n,
{
    if n < 10 {
        push_digit(n, string);
    } else {
        push_decimal(n / 10, string);
        push_digit(n % 10, string);
        proof {
            assert(old(string)@ + decimal((n / 10) as nat) + digit((n % 10) as nat) =~= old(string)@
                + (decimal((n / 10) as nat) + digit((n % 10) as nat)));
        }
    }
}

impl Expr {
    /// Appends the term as text to `string`.
    pub fn print(&self, string: &mut String)
        ensures
            final(string)@ == old(string)@ + shown(*self),
        decreases self,
    {
        match self {
            Expr::I => string.append("i"),
            Expr::K => string.append("k"),
            Expr::S => string.append("s"),
            Expr::A(x, y) => {
                string.append("`");
                x.print(string);
                y.print(string);
                proof {
                    assert(old(string)@ + "`"@ + shown(**x) + shown(**y) =~= old(string)@ + ("`"@
                        + shown(**x) + shown(**y)));
                }
            },
        }
    }

    /// The term as text, in backtick form.
    pub fn to_text(&self) -> (text: String)
        ensures
            text@ == shown(*self),
    {
        let mut text = String::new();
        self.print(&mut text);
        proof {
            assert(Seq::<char>::empty() + shown(*self) =~= shown(*self));
        }
        text
    }
}

impl Runner {
    /// Appends the graph at `id` as text to `string`.
    pub fn print_expr(&self, id: usize, string: &mut String)
        requires
            self.wf(),
            id < self.heap().len(),
        ensures
            final(string)@ == old(string)@ + rendered(self.heap(), id),
        decreases height(self.heap(), id),
    {
        let ghost h = self.heap();
        proof {
            assert(node_closed(h, h[id as int]));
        }
        match self.get(id) {
            Graph::Apply(x, y) => {
                proof {
                    lemma_height_edge(h, id, x);
                    lemma_height_edge(h, id, y);
                }
                string.append("`");
                self.print_expr(x, string);
                self.print_expr(y, string);
                proof {
                    assert(old(string)@ + "`"@ + rendered(h, x) + rendered(h, y) =~= old(string)@ + (
                    "`"@ + rendered(h, x) + rendered(h, y)));
                }
            },
            Graph::S => string.append("s"),
            Graph::K => string.append("k"),
            Graph::I => string.append("i"),
            Graph::Link(x) => {
                proof {
                    lemma_height_edge(h, id, x);
                }
                self.print_expr(x, string);
            },
            Graph::Inc => string.append("<increment>"),
            Graph::Num(n) => {
                string.append("<number:");
                push_decimal(n as usize, string);
                string.append(">");
                proof {
                    assert(old(string)@ + "<number:"@ + decimal(n as nat) + ">"@ =~= old(string)@ + (
                    "<number:"@ + decimal(n as nat) + ">"@));
                }
            },
            Graph::Stdin => string.append("<stdin>"),
            Graph::Free => string.append("<runtime bug>"),
        }
    }
}

} // verus!
