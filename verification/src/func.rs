//! Statement blocks, formal parameters and function values, with their
//! serialized forms.

use vstd::prelude::*;
use crate::error::Error;
use crate::parse::{LppStatus, QuoteStatus, spec_transfer};
use crate::text::{close_idx, find_char, lemma_find_char_at, lemma_find_char_missing, scan_char, spec_split, spec_uslice, split_by, ulen, uslice};

verus! {

/// A raw statement block: the text between its outer braces.
#[derive(Debug)]
pub struct StmtValue {
    pub value: String,
}

impl StmtValue {
    pub fn new() -> (r: Self)
        ensures
            r.value@ == Seq::<char>::empty(),
    {
        StmtValue { value: String::new() }
    }

    /// Wraps existing block text.
    pub fn of(value: String) -> (r: Self)
        ensures
            r.value@ == value@,
    {
        StmtValue { value }
    }

    /// Strips the outer delimiter pair from a serialized block.
    pub fn parse(s: &str) -> (r: Self)
        requires
            s@.len() >= 1,
        ensures
            r.value@ == spec_uslice(s@, 1, s@.len() - 1),
    {
        let n = ulen(s);
        StmtValue { value: uslice(s, 1, n - 1).to_owned() }
    }

    /// Serializes the block back between braces.
    pub fn to_string(&self) -> (r: String)
        ensures
            r@ == seq!['{'] + self.value@ + seq!['}'],
    {
        let mut out = String::new();
        out.push('{');
        out.append(self.value.as_str());
        out.push('}');
        proof {
            assert(out@ =~= seq!['{'] + self.value@ + seq!['}']);
        }
        out
    }
}

/// The name part of a serialized formal parameter: what stands before the
/// first top-level equals sign, or the whole text without one.
pub open spec fn spec_arg_name(s: Seq<char>) -> Seq<char> {
    match close_idx(s, '=', 0, LppStatus::init()) {
        Some(i) => s.take(i),
        None => s,
    }
}

/// The default part of a serialized formal parameter: what stands after
/// the first top-level equals sign, empty without one.
pub open spec fn spec_arg_value(s: Seq<char>) -> Seq<char> {
    match close_idx(s, '=', 0, LppStatus::init()) {
        Some(i) => s.skip(i + 1),
        None => Seq::empty(),
    }
}

/// One formal parameter: its name and its default text, empty when the
/// parameter has no default.
#[derive(Debug)]
pub struct ArgItem {
    pub name: String,
    pub value: String,
}

impl ArgItem {
    pub fn new() -> (r: Self)
        ensures
            r.name@ == Seq::<char>::empty(),
            r.value@ == Seq::<char>::empty(),
    {
        ArgItem { name: String::new(), value: String::new() }
    }

    /// Builds a parameter from its name and default text.
    pub fn of(name: String, value: String) -> (r: Self)
        ensures
            r.name@ == name@,
            r.value@ == value@,
    {
        ArgItem { name, value }
    }

    /// Splits a serialized parameter at its first top-level equals sign.
    pub fn parse(s: &str) -> (r: Self)
        ensures
            r.name@ == spec_arg_name(s@),
            r.value@ == spec_arg_value(s@),
    {
        let n = ulen(s);
        let mut status = LppStatus::new();
        let mut i: usize = 0;
        while i < n
            invariant
                0 <= i <= n,
                n == s@.len(),
                close_idx(s@, '=', 0, LppStatus::init()) == close_idx(s@, '=', i as int, status),
            decreases n - i,
        {
            let c = s.get_char(i);
            let ghost pre = status;
            crate::parse::transfer(c, &mut status);
            proof {
                assert(spec_transfer(s@[i as int], pre) == status);
            }
            if c == '=' && status.brace == 0 && status.quote == QuoteStatus::NoQuote {
                assert(close_idx(s@, '=', i as int, pre) == Some(i as int));
                let name = uslice(s, 0, i).to_owned();
                let value = uslice(s, i + 1, n).to_owned();
                proof {
                    assert(spec_uslice(s@, 0, i as int) =~= s@.take(i as int));
                    assert(spec_uslice(s@, i as int + 1, n as int) =~= s@.skip(i as int + 1));
                }
                return ArgItem { name, value };
            }
            i = i + 1;
        }
        ArgItem { name: s.to_owned(), value: String::new() }
    }

    /// Serializes the parameter, with an equals sign only when a default
    /// is present.
    pub fn to_string(&self) -> (r: String)
        ensures
            r@ == spec_arg_text(self.name@, self.value@),
    {
        if self.value.as_str().unicode_len() != 0 {
            let mut out = self.name.clone();
            out.push('=');
            out.append(self.value.as_str());
            proof {
                assert(out@ =~= self.name@ + seq!['='] + self.value@);
            }
            out
        } else {
            self.name.clone()
        }
    }
}

/// The serialized form of a formal parameter.
pub open spec fn spec_arg_text(name: Seq<char>, value: Seq<char>) -> Seq<char> {
    if value.len() != 0 {
        name + seq!['='] + value
    } else {
        name
    }
}

/// The message of a malformed serialized function.
pub open spec fn syntax_text() -> Seq<char> {
    seq!['S', 'y', 'n', 't', 'a', 'x', ' ', 'e', 'r', 'r', 'o', 'r']
}

/// The message of a parameter list in which a defaulted parameter is
/// followed by one without a default.
pub open spec fn syntax_cap_text() -> Seq<char> {
    seq!['S', 'y', 'n', 't', 'a', 'x', ' ', 'E', 'r', 'r', 'o', 'r']
}

/// Whether a list of parameter default texts is admissible: once one
/// parameter carries a default, every later one must carry one too.
pub open spec fn args_wf(vals: Seq<Seq<char>>) -> bool {
    forall|i: int, j: int|
        0 <= i < j < vals.len() && #[trigger] vals[i].len() != 0 ==> #[trigger] vals[j].len() != 0
}

/// The default texts of a parameter list.
pub open spec fn arg_values(args: Seq<ArgItem>) -> Seq<Seq<char>> {
    Seq::new(args.len(), |i: int| args[i].value@)
}

/// A function value: its formal parameters and its unparsed body block.
#[derive(Debug)]
pub struct FuncValue {
    pub args: Vec<ArgItem>,
    pub value: StmtValue,
}

impl FuncValue {
    pub fn new() -> (r: Self)
        ensures
            r.args@.len() == 0,
            r.value.value@ == Seq::<char>::empty(),
    {
        FuncValue { args: Vec::new(), value: StmtValue::new() }
    }

    /// Builds a function from parameters and body, refusing a parameter
    /// list in which a defaulted parameter is followed by one without a
    /// default.
    #[verifier::loop_isolation(false)]
    pub fn build(args: Vec<ArgItem>, value: StmtValue) -> (r: Result<Self, Error>)
        ensures
            r is Ok <==> args_wf(arg_values(args@)),
            r matches Ok(f) ==> f.args == args && f.value.value@ == value.value@,
            r matches Err(e) ==> e.err@ == syntax_cap_text(),
    {
        proof {
            reveal_strlit("Syntax Error");
            assert("Syntax Error"@ =~= syntax_cap_text());
        }
        let mut flag = false;
        let mut i: usize = 0;
        while i < args.len()
            invariant
                0 <= i <= args@.len(),
                flag <==> exists|k: int| 0 <= k < i && #[trigger] args@[k].value@.len() != 0,
                forall|p: int, q: int|
                    0 <= p < q < i && #[trigger] args@[p].value@.len() != 0
                        ==> #[trigger] args@[q].value@.len() != 0,
            decreases args@.len() - i,
        {
            let empty_val = args[i].value.as_str().unicode_len() == 0;
            if empty_val && flag {
                proof {
                    let k = choose|k: int| 0 <= k < i && #[trigger] args@[k].value@.len() != 0;
                    assert(arg_values(args@)[k].len() != 0);
                    assert(arg_values(args@)[i as int].len() == 0);
                    assert(!args_wf(arg_values(args@)));
                }
                return Err(Error::from_str("Syntax Error"));
            }
            if !empty_val {
                flag = true;
            }
            i = i + 1;
        }
        proof {
            assert forall|p: int, q: int|
                0 <= p < q < arg_values(args@).len() && #[trigger] arg_values(args@)[p].len() != 0
                implies #[trigger] arg_values(args@)[q].len() != 0 by {
                assert(args@[p].value@.len() != 0);
                assert(args@[q].value@.len() != 0);
            }
        }
        Ok(FuncValue { args, value })
    }
}

/// The serialized parameter list of a function, the items separated by
/// commas.
pub open spec fn fargs_text(args: Seq<ArgItem>, i: int) -> Seq<char>
    decreases args.len() - i,
{
    if i < 0 || i >= args.len() {
        Seq::empty()
    } else if i + 1 < args.len() {
        spec_arg_text(args[i].name@, args[i].value@) + seq![','] + fargs_text(args, i + 1)
    } else {
        spec_arg_text(args[i].name@, args[i].value@)
    }
}

/// The serialized form of a function value.
pub open spec fn spec_func_text(args: Seq<ArgItem>, body: Seq<char>) -> Seq<char> {
    seq!['f', 'u', 'n', 'c', '('] + fargs_text(args, 0) + seq![')'] + seq!['{'] + body + seq!['}']
}

impl FuncValue {
    /// Serializes the function as `func(` parameters `)` body.
    pub fn to_string(&self) -> (r: String)
        ensures
            r@ == spec_func_text(self.args@, self.value.value@),
    {
        let mut out = String::new();
        proof {
            reveal_strlit("func(");
        }
        out.append("func(");
        assert(out@ =~= seq!['f', 'u', 'n', 'c', '(']);
        let mut i: usize = 0;
        while i < self.args.len()
            invariant
                0 <= i <= self.args@.len(),
                seq!['f', 'u', 'n', 'c', '('] + fargs_text(self.args@, 0) == out@ + fargs_text(
                    self.args@,
                    i as int,
                ),
            decreases self.args@.len() - i,
        {
            let t = self.args[i].to_string();
            out.append(t.as_str());
            if i + 1 < self.args.len() {
                out.push(',');
            }
            i = i + 1;
        }
        out.push(')');
        out.push('{');
        out.append(self.value.value.as_str());
        out.push('}');
        proof {
            assert(fargs_text(self.args@, self.args@.len() as int) == Seq::<char>::empty());
            assert(out@ =~= spec_func_text(self.args@, self.value.value@));
        }
        out
    }
}

/// Where the parameter list of a serialized function stops: the first
/// closing parenthesis met at depth zero outside every quote, the state
/// taken before the character.
pub open spec fn fargs_stop(s: Seq<char>, i: int, st: LppStatus) -> Option<int>
    decreases s.len() - i,
{
    if i < 0 || i >= s.len() {
        None
    } else if s[i] == ')' && st.brace == 0 && st.quote == QuoteStatus::NoQuote {
        Some(i)
    } else {
        fargs_stop(s, i + 1, spec_transfer(s[i], st))
    }
}

/// The position of the opening parenthesis of a serialized function.
pub open spec fn spec_func_open(s: Seq<char>) -> Option<int> {
    find_char(s, '(', 0)
}

/// The position after the parameter list of a serialized function: one
/// past its closing parenthesis, or the text's end when that is missing.
pub open spec fn spec_func_after_args(s: Seq<char>) -> int {
    match spec_func_open(s) {
        Some(o) => match fargs_stop(s, o + 1, LppStatus::init()) {
            Some(t) => t + 1,
            None => s.len() as int,
        },
        None => s.len() as int,
    }
}

/// The serialized parameter segments of a function: the text between the
/// parentheses, split on top-level commas.
pub open spec fn spec_func_segs(s: Seq<char>) -> Seq<Seq<char>> {
    match spec_func_open(s) {
        Some(o) => spec_split(s.subrange(o + 1, spec_func_after_args(s) - 1), ','),
        None => Seq::empty(),
    }
}

/// Whether a serialized function has the right shape: an opening
/// parenthesis, a closing one, and an opening brace directly after the
/// parameter list.
pub open spec fn spec_func_shape_ok(s: Seq<char>) -> bool {
    &&& spec_func_open(s) is Some
    &&& fargs_stop(s, spec_func_open(s).unwrap() + 1, LppStatus::init()) is Some
    &&& spec_func_after_args(s) < s.len()
    &&& s[spec_func_after_args(s)] == '{'
}

/// Whether a serialized function is admissible: well-shaped, with no
/// defaulted parameter followed by one without a default.
pub open spec fn spec_func_ok(s: Seq<char>) -> bool {
    &&& spec_func_shape_ok(s)
    &&& args_wf(Seq::new(spec_func_segs(s).len(), |i: int| spec_arg_value(spec_func_segs(s)[i])))
}

/// The body block of a well-shaped serialized function: from its opening
/// brace up to and including the first brace that closes it, the inner
/// text only.
pub open spec fn spec_func_body(s: Seq<char>) -> Seq<char> {
    let b = spec_func_after_args(s);
    let t = match close_idx(s, '}', b, LppStatus::init()) {
        Some(e) => s.subrange(b, e + 1),
        None => s.subrange(b, s.len() as int),
    };
    spec_uslice(t, 1, t.len() - 1)
}

impl FuncValue {
    /// Parses a serialized function: the comma-separated parameters
    /// between the parentheses, then the brace-delimited body directly
    /// after them.
    pub fn parse(s: &str) -> (r: Result<Self, Error>)
        ensures
            r is Ok <==> spec_func_ok(s@),
            r matches Ok(f) ==> {
                &&& f.args@.len() == spec_func_segs(s@).len()
                &&& forall|i: int|
                    0 <= i < f.args@.len() ==> (#[trigger] f.args@[i]).name@ == spec_arg_name(
                        spec_func_segs(s@)[i],
                    ) && f.args@[i].value@ == spec_arg_value(spec_func_segs(s@)[i])
                &&& f.value.value@ == spec_func_body(s@)
            },
            r matches Err(e) ==> e.err@ == (if spec_func_shape_ok(s@) {
                syntax_cap_text()
            } else {
                syntax_text()
            }),
    {
        proof {
            reveal_strlit("Syntax error");
            assert("Syntax error"@ =~= syntax_text());
        }
        let n = ulen(s);
        let found = scan_char(s, 0, n, '(');
        proof {
            match found {
                Some(i) => {
                    lemma_find_char_at(s@, '(', 0, i as int);
                },
                None => {
                    lemma_find_char_missing(s@, '(', 0);
                },
            }
        }
        let o: usize = match found {
            Some(i) => i,
            None => {
                return Err(Error::from_str("Syntax error"));
            },
        };
        // find the closing parenthesis of the parameter list
        let mut status = LppStatus::new();
        let mut i: usize = o + 1;
        let mut stop: usize = n;
        let mut stopped = false;
        while i < n && !stopped
            invariant
                o + 1 <= i <= n,
                n == s@.len(),
                !stopped ==> stop == n && fargs_stop(s@, o + 1, LppStatus::init()) == fargs_stop(
                    s@,
                    i as int,
                    status,
                ),
                stopped ==> o + 1 <= stop < n && fargs_stop(s@, o + 1, LppStatus::init()) == Some(
                    stop as int,
                ),
            decreases n - i + (if stopped { 0int } else { 1int }),
        {
            let c = s.get_char(i);
            if c == ')' && status.brace == 0 && status.quote == QuoteStatus::NoQuote {
                stop = i;
                stopped = true;
            } else {
                let ghost pre = status;
                crate::parse::transfer(c, &mut status);
                proof {
                    assert(spec_transfer(s@[i as int], pre) == status);
                }
                i = i + 1;
            }
        }
        let after: usize = if stopped {
            stop + 1
        } else {
            n
        };
        assert(after == spec_func_after_args(s@));
        if after >= n || s.get_char(after) != '{' {
            return Err(Error::from_str("Syntax error"));
        }
        // parameters
        let section = uslice(s, o + 1, after - 1);
        proof {
            assert(section@ =~= s@.subrange(o as int + 1, after as int - 1));
        }
        let segs = split_by(section, ',');
        let mut args: Vec<ArgItem> = Vec::new();
        let ghost gsegs = spec_func_segs(s@);
        assert(segs.deep_view() == gsegs);
        let mut k: usize = 0;
        while k < segs.len()
            invariant
                0 <= k <= segs@.len(),
                segs.deep_view() == gsegs,
                args@.len() == k,
                forall|q: int|
                    0 <= q < k ==> (#[trigger] args@[q]).name@ == spec_arg_name(gsegs[q])
                        && args@[q].value@ == spec_arg_value(gsegs[q]),
            decreases segs@.len() - k,
        {
            let a = ArgItem::parse(segs[k].as_str());
            proof {
                assert(segs@[k as int]@ == gsegs[k as int]);
            }
            args.push(a);
            k = k + 1;
        }
        // body
        let mut status2 = LppStatus::new();
        let mut j: usize = after;
        let mut bend: usize = n;
        let mut bfound = false;
        while j < n && !bfound
            invariant
                after <= j <= n,
                n == s@.len(),
                !bfound ==> bend == n && close_idx(s@, '}', after as int, LppStatus::init())
                    == close_idx(s@, '}', j as int, status2),
                bfound ==> after <= bend < n && close_idx(s@, '}', after as int, LppStatus::init())
                    == Some(bend as int),
            decreases n - j + (if bfound { 0int } else { 1int }),
        {
            let c = s.get_char(j);
            let ghost pre = status2;
            crate::parse::transfer(c, &mut status2);
            proof {
                assert(spec_transfer(s@[j as int], pre) == status2);
            }
            if c == '}' && status2.brace == 0 && status2.quote == QuoteStatus::NoQuote {
                assert(close_idx(s@, '}', j as int, pre) == Some(j as int));
                bend = j;
                bfound = true;
            } else {
                j = j + 1;
            }
        }
        let temp = if bfound {
            uslice(s, after, bend + 1)
        } else {
            uslice(s, after, n)
        };
        proof {
            if bfound {
                assert(temp@ =~= s@.subrange(after as int, bend as int + 1));
            } else {
                assert(temp@ =~= s@.subrange(after as int, n as int));
            }
        }
        assert(temp@.len() >= 1);
        let body = StmtValue::parse(temp);
        assert(body.value@ == spec_func_body(s@));
        let ghost vals = Seq::new(gsegs.len(), |i: int| spec_arg_value(gsegs[i]));
        proof {
            assert(arg_values(args@) =~~= vals);
        }
        let r = FuncValue::build(args, body);
        match r {
            Ok(f) => Ok(f),
            Err(e) => Err(e),
        }
    }
}

} // verus!
