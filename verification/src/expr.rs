//! The expression parser: a single left-to-right scan that splits flat
//! text at the leftmost operator of the lowest priority found outside
//! brackets and quotes.

use vstd::prelude::*;
use crate::error::Error;
use crate::parse::{LppStatus, QuoteStatus, spec_transfer, transfer};
use crate::text::{clearnull, covered_with, spec_clearnull, spec_covered, spec_uslice, ulen, uslice};

verus! {

/// A parsed expression: a leaf of plain text, or one binary split into
/// operator text, left operand text and right operand text.
#[derive(Debug)]
pub enum ExprValue {
    Expr((String, String, String)),
    Val(String),
}

/// The priority a token has as an operator, `front` saying whether it
/// stands in prefix position; lower numbers bind looser and are chosen
/// first as the top-level split; tokens outside the table get -1.
pub open spec fn spec_getprio(op: Seq<char>, front: bool) -> int {
    if op == seq![','] {
        0
    } else if op == seq!['='] || op == seq!['+', '='] || op == seq!['-', '='] || op == seq![
        '*',
        '=',
    ] || op == seq!['/', '='] || op == seq!['%', '='] || op == seq!['|', '='] || op == seq![
        '&',
        '=',
    ] || op == seq!['^', '='] || op == seq!['>', '>', '='] || op == seq!['<', '<', '='] {
        1
    } else if op == seq![':'] || op == seq!['?'] {
        2
    } else if op == seq!['|', '|'] {
        3
    } else if op == seq!['&', '&'] {
        4
    } else if op == seq!['|'] {
        5
    } else if op == seq!['^'] {
        6
    } else if op == seq!['&'] {
        7
    } else if op == seq!['=', '='] || op == seq!['!', '='] || op == seq!['=', '=', '='] || op
        == seq!['!', '=', '='] {
        8
    } else if op == seq!['<'] || op == seq!['<', '='] || op == seq!['>'] || op == seq!['>', '='] {
        9
    } else if op == seq!['<', '<'] || op == seq!['>', '>'] || op == seq!['>', '>', '>'] {
        10
    } else if (op == seq!['+'] || op == seq!['-']) && !front {
        11
    } else if op == seq!['*'] || op == seq!['/'] || op == seq!['%'] {
        12
    } else if op == seq!['~'] || op == seq!['!'] {
        13
    } else if (op == seq!['+', '+'] || op == seq!['-', '-'] || op == seq!['+'] || op == seq![
        '-',
    ]) && front {
        13
    } else if (op == seq!['+', '+'] || op == seq!['-', '-']) && !front {
        14
    } else {
        -1
    }
}

impl ExprValue {
    pub fn new() -> (r: Self)
        ensures
            r matches ExprValue::Val(t) && t@ == Seq::<char>::empty(),
    {
        ExprValue::Val(String::new())
    }

    /// The operator priority of a token.
    pub fn getprio(op: &str, front: bool) -> (r: i32)
        ensures
            r as int == spec_getprio(op@, front),
    {
        let l = ulen(op);
        if l == 1 {
            let c = op.get_char(0);
            proof {
                assert(op@ =~= seq![op@[0]]);
            }
            if c == ',' {
                0
            } else if c == '=' {
                1
            } else if c == ':' || c == '?' {
                2
            } else if c == '|' {
                5
            } else if c == '^' {
                6
            } else if c == '&' {
                7
            } else if c == '<' || c == '>' {
                9
            } else if c == '*' || c == '/' || c == '%' {
                12
            } else if c == '~' || c == '!' {
                13
            } else if c == '+' || c == '-' {
                if front {
                    13
                } else {
                    11
                }
            } else {
                -1
            }
        } else if l == 2 {
            let c0 = op.get_char(0);
            let c1 = op.get_char(1);
            proof {
                assert(op@ =~= seq![op@[0], op@[1]]);
            }
            if c1 == '=' && (c0 == '+' || c0 == '-' || c0 == '*' || c0 == '/' || c0 == '%' || c0
                == '|' || c0 == '&' || c0 == '^') {
                1
            } else if c0 == '|' && c1 == '|' {
                3
            } else if c0 == '&' && c1 == '&' {
                4
            } else if (c0 == '=' || c0 == '!') && c1 == '=' {
                8
            } else if (c0 == '<' || c0 == '>') && c1 == '=' {
                9
            } else if (c0 == '<' && c1 == '<') || (c0 == '>' && c1 == '>') {
                10
            } else if (c0 == '+' && c1 == '+') || (c0 == '-' && c1 == '-') {
                if front {
                    13
                } else {
                    14
                }
            } else {
                -1
            }
        } else if l == 3 {
            let c0 = op.get_char(0);
            let c1 = op.get_char(1);
            let c2 = op.get_char(2);
            proof {
                assert(op@ =~= seq![op@[0], op@[1], op@[2]]);
            }
            if (c0 == '>' && c1 == '>' && c2 == '=') || (c0 == '<' && c1 == '<' && c2 == '=') {
                1
            } else if (c0 == '=' || c0 == '!') && c1 == '=' && c2 == '=' {
                8
            } else if c0 == '>' && c1 == '>' && c2 == '>' {
                10
            } else {
                -1
            }
        } else {
            -1
        }
    }
}

/// The state of the precedence scan: the scan state machine, the operator
/// token being extended, whether the next token stands in prefix
/// position, and the best split found so far.
pub struct ExprScan {
    pub st: LppStatus,
    pub temp: Seq<char>,
    pub front: bool,
    pub minpr: int,
    pub opindex: int,
    pub opend: int,
}

/// The priority that stands for "no operator found yet".
pub open spec fn maxpr() -> int {
    0x7fffffff
}

/// The scan state at the start of an expression.
pub open spec fn expr_scan_init() -> ExprScan {
    ExprScan {
        st: LppStatus::init(),
        temp: Seq::empty(),
        front: true,
        minpr: maxpr(),
        opindex: 0,
        opend: 0,
    }
}

/// One step of the precedence scan at a character: at top level the
/// candidate token is extended while the table still knows it; when it no
/// longer does, a completed operator token is judged, recorded if its
/// priority is strictly the lowest so far, and the token starts afresh.
pub open spec fn expr_step(c: char, pos: int, s: ExprScan) -> ExprScan {
    let s1 = if s.st.brace == 0 && s.st.quote == QuoteStatus::NoQuote {
        let sa = if spec_getprio(s.temp.push(c), s.front) == -1 && spec_getprio(s.temp, s.front)
            != -1 {
            let cp = spec_getprio(s.temp, s.front);
            ExprScan {
                st: s.st,
                temp: Seq::empty(),
                front: true,
                minpr: if cp < s.minpr {
                    cp
                } else {
                    s.minpr
                },
                opindex: if cp < s.minpr {
                    pos - s.temp.len()
                } else {
                    s.opindex
                },
                opend: if cp < s.minpr {
                    pos
                } else {
                    s.opend
                },
            }
        } else {
            s
        };
        if spec_getprio(sa.temp.push(c), sa.front) != -1 {
            ExprScan {
                st: sa.st,
                temp: sa.temp.push(c),
                front: sa.front,
                minpr: sa.minpr,
                opindex: sa.opindex,
                opend: sa.opend,
            }
        } else {
            ExprScan {
                st: sa.st,
                temp: sa.temp,
                front: false,
                minpr: sa.minpr,
                opindex: sa.opindex,
                opend: sa.opend,
            }
        }
    } else {
        s
    };
    ExprScan {
        st: spec_transfer(c, s1.st),
        temp: s1.temp,
        front: s1.front,
        minpr: s1.minpr,
        opindex: s1.opindex,
        opend: s1.opend,
    }
}

/// The precedence scan folded over the text from a position on.
pub open spec fn expr_scan(s: Seq<char>, i: int, acc: ExprScan) -> ExprScan
    decreases s.len() - i,
{
    if i < 0 || i >= s.len() {
        acc
    } else {
        expr_scan(s, i + 1, expr_step(s[i], i, acc))
    }
}

/// The scan state after the whole text, the trailing token judged like
/// any other completed token.
pub open spec fn expr_final(s: Seq<char>) -> ExprScan {
    let sc = expr_scan(s, 0, expr_scan_init());
    let cp = spec_getprio(sc.temp, sc.front);
    if cp != -1 && cp < sc.minpr {
        ExprScan {
            st: sc.st,
            temp: sc.temp,
            front: sc.front,
            minpr: cp,
            opindex: s.len() - sc.temp.len(),
            opend: s.len() as int,
        }
    } else {
        sc
    }
}

/// Whether the text is rejected as an expression: its scan ends inside a
/// bracket or a quote.
pub open spec fn spec_expr_err(s: Seq<char>) -> bool {
    expr_final(s).st.brace != 0 || expr_final(s).st.quote != QuoteStatus::NoQuote
}

/// Whether some operator was found at top level.
pub open spec fn spec_expr_found(s: Seq<char>) -> bool {
    expr_final(s).minpr != maxpr()
}

/// The recorded operator text of the top-level split.
pub open spec fn spec_expr_op(s: Seq<char>) -> Seq<char> {
    s.subrange(expr_final(s).opindex, expr_final(s).opend)
}

/// The left operand text of the top-level split.
pub open spec fn spec_expr_left(s: Seq<char>) -> Seq<char> {
    s.take(expr_final(s).opindex)
}

/// The right operand text of the top-level split.
pub open spec fn spec_expr_right(s: Seq<char>) -> Seq<char> {
    s.skip(expr_final(s).opend)
}

impl ExprValue {
    /// Splits expression text at the leftmost operator of the lowest
    /// priority found at top level; text without one is a leaf. Text
    /// whose scan ends inside a bracket or a quote is rejected.
    #[verifier::loop_isolation(false)]
    #[verifier::rlimit(60)]
    pub fn parse(s: &str) -> (r: Result<Self, Error>)
        ensures
            r is Ok <==> !spec_expr_err(s@),
            r matches Ok(v) ==> (if spec_expr_found(s@) {
                v matches ExprValue::Expr(t) && t.0@ == spec_expr_op(s@) && t.1@ == spec_expr_left(
                    s@,
                ) && t.2@ == spec_expr_right(s@)
            } else {
                v matches ExprValue::Val(t) && t@ == s@
            }),
    {
        let n = ulen(s);
        let mut status = LppStatus::new();
        let mut temp = String::new();
        let mut front = true;
        let mut minpr: i32 = i32::MAX;
        let mut opindex: usize = 0;
        let mut opend: usize = 0;
        let mut i: usize = 0;
        proof {
            assert(expr_scan_init() == (ExprScan {
                st: status,
                temp: temp@,
                front: front,
                minpr: minpr as int,
                opindex: opindex as int,
                opend: opend as int,
            }));
        }
        while i < n
            invariant
                0 <= i <= n,
                temp@.len() <= i,
                opindex <= opend <= i,
                minpr == maxpr() ==> opindex == 0 && opend == 0,
                expr_scan(s@, 0, expr_scan_init()) == expr_scan(
                    s@,
                    i as int,
                    ExprScan {
                        st: status,
                        temp: temp@,
                        front: front,
                        minpr: minpr as int,
                        opindex: opindex as int,
                        opend: opend as int,
                    },
                ),
            decreases n - i,
        {
            let ghost acc = ExprScan {
                st: status,
                temp: temp@,
                front: front,
                minpr: minpr as int,
                opindex: opindex as int,
                opend: opend as int,
            };
            let c = s.get_char(i);
            if status.brace == 0 && status.quote == QuoteStatus::NoQuote {
                let mut cand = temp.clone();
                cand.push(c);
                let pc = Self::getprio(cand.as_str(), front);
                if pc == -1 {
                    let ct = Self::getprio(temp.as_str(), front);
                    if ct != -1 {
                        if ct < minpr {
                            minpr = ct;
                            opend = i;
                            opindex = i - ulen(temp.as_str());
                        }
                        temp = String::new();
                        front = true;
                    }
                }
                let mut cand2 = temp.clone();
                cand2.push(c);
                let pc2 = Self::getprio(cand2.as_str(), front);
                if pc2 != -1 {
                    temp = cand2;
                } else {
                    front = false;
                }
            }
            let ghost pre = status;
            transfer(c, &mut status);
            proof {
                assert(spec_transfer(s@[i as int], pre) == status);
                assert(expr_step(s@[i as int], i as int, acc) == (ExprScan {
                    st: status,
                    temp: temp@,
                    front: front,
                    minpr: minpr as int,
                    opindex: opindex as int,
                    opend: opend as int,
                }));
            }
            i = i + 1;
        }
        let ghost sc = expr_scan(s@, 0, expr_scan_init());
        proof {
            assert(sc == (ExprScan {
                st: status,
                temp: temp@,
                front: front,
                minpr: minpr as int,
                opindex: opindex as int,
                opend: opend as int,
            }));
        }
        let ct = Self::getprio(temp.as_str(), front);
        if ct != -1 && ct < minpr {
            minpr = ct;
            opend = n;
            opindex = n - ulen(temp.as_str());
        }
        proof {
            assert(expr_final(s@) == (ExprScan {
                st: status,
                temp: temp@,
                front: front,
                minpr: minpr as int,
                opindex: opindex as int,
                opend: opend as int,
            }));
        }
        if status.brace != 0 || status.quote != QuoteStatus::NoQuote {
            return Err(Error::from_str("Invalid expression"));
        }
        if minpr == i32::MAX {
            return Ok(ExprValue::Val(s.to_owned()));
        }
        let op = uslice(s, opindex, opend).to_owned();
        let left = uslice(s, 0, opindex).to_owned();
        let right = uslice(s, opend, n).to_owned();
        proof {
            assert(spec_uslice(s@, opindex as int, opend as int) =~= spec_expr_op(s@));
            assert(spec_uslice(s@, 0, opindex as int) =~= spec_expr_left(s@));
            assert(spec_uslice(s@, opend as int, n as int) =~= spec_expr_right(s@));
        }
        Ok(ExprValue::Expr((op, left, right)))
    }

    /// Whether the text reads as an expression: fully parenthesized, or
    /// splitting at some operator once cleared of insignificant
    /// whitespace.
    pub fn isexp(s: &str) -> (r: bool)
        ensures
            r == spec_isexp(s@),
    {
        if covered_with(s, '(', ')') {
            return true;
        }
        let cleared = clearnull(s);
        match Self::parse(cleared.as_str()) {
            Ok(p) => match p {
                ExprValue::Expr(_) => true,
                ExprValue::Val(_) => false,
            },
            Err(_) => false,
        }
    }
}

/// Whether the text reads as an expression.
pub open spec fn spec_isexp(s: Seq<char>) -> bool {
    spec_covered(s, '(', ')') || (!spec_expr_err(spec_clearnull(s)) && spec_expr_found(
        spec_clearnull(s),
    ))
}

} // verus!
