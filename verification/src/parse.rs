//! The scan state machine that every text-splitting routine shares, and
//! the statement splitter built on it.

use vstd::prelude::*;
use crate::text::{ulen, uslice, spec_uslice};

verus! {

/// Which kind of string literal the scanner is currently inside.
#[derive(Clone, Copy, PartialEq, Eq, Structural)]
pub enum QuoteStatus {
    NoQuote,
    Single,
    Double,
}

/// The scan state shared by every text-splitting routine: the current quote
/// kind, whether the previous character was an unconsumed backslash, and the
/// bracket nesting depth. The depth wraps around at the ends of the `usize`
/// range, so a closer with no matching opener drives it to `usize::MAX`
/// rather than stopping the scan; callers detect malformed input by checking
/// for depth zero and no open quote at the end of a scan.
#[derive(Clone, Copy, PartialEq, Eq, Structural)]
pub struct LppStatus {
    pub quote: QuoteStatus,
    pub splash: bool,
    pub brace: usize,
}

impl LppStatus {
    /// The state at the start of every independent scan.
    pub open spec fn init() -> Self {
        LppStatus { quote: QuoteStatus::NoQuote, splash: false, brace: 0 }
    }

    pub fn new() -> (s: Self)
        ensures
            s == Self::init(),
    {
        LppStatus { quote: QuoteStatus::NoQuote, splash: false, brace: 0 }
    }
}

/// One forward step of the scan state machine on a single character.
pub open spec fn spec_transfer(nowchar: char, st: LppStatus) -> LppStatus {
    let mid = if nowchar == '\\' {
        LppStatus { quote: st.quote, splash: !st.splash, brace: st.brace }
    } else if nowchar == '\'' && !st.splash {
        if st.quote == QuoteStatus::NoQuote {
            LppStatus { quote: QuoteStatus::Single, splash: st.splash, brace: st.brace }
        } else if st.quote == QuoteStatus::Single {
            LppStatus { quote: QuoteStatus::NoQuote, splash: st.splash, brace: st.brace }
        } else {
            st
        }
    } else if nowchar == '"' && !st.splash {
        if st.quote == QuoteStatus::NoQuote {
            LppStatus { quote: QuoteStatus::Double, splash: st.splash, brace: st.brace }
        } else if st.quote == QuoteStatus::Double {
            LppStatus { quote: QuoteStatus::NoQuote, splash: st.splash, brace: st.brace }
        } else {
            st
        }
    } else {
        LppStatus { quote: st.quote, splash: false, brace: st.brace }
    };
    if (nowchar == '(' || nowchar == '{' || nowchar == '[') && mid.quote == QuoteStatus::NoQuote {
        LppStatus { quote: mid.quote, splash: mid.splash, brace: depth_up(mid.brace) }
    } else if (nowchar == ')' || nowchar == '}' || nowchar == ']') && mid.quote
        == QuoteStatus::NoQuote {
        LppStatus { quote: mid.quote, splash: mid.splash, brace: depth_down(mid.brace) }
    } else {
        mid
    }
}

/// Depth increment, wrapping at the top of the `usize` range.
pub open spec fn depth_up(d: usize) -> usize {
    if d == usize::MAX {
        0
    } else {
        (d + 1) as usize
    }
}

/// Depth decrement, wrapping at the bottom of the `usize` range.
pub open spec fn depth_down(d: usize) -> usize {
    if d == 0 {
        usize::MAX
    } else {
        (d - 1) as usize
    }
}

/// Advances the scan state over one character of a forward scan.
pub fn transfer(nowchar: char, status: &mut LppStatus)
    ensures
        *final(status) == spec_transfer(nowchar, *old(status)),
{
    if nowchar == '\\' {
        status.splash = !status.splash;
    } else if nowchar == '\'' && !status.splash {
        if status.quote == QuoteStatus::NoQuote {
            status.quote = QuoteStatus::Single;
        } else if status.quote == QuoteStatus::Single {
            status.quote = QuoteStatus::NoQuote;
        }
    } else if nowchar == '"' && !status.splash {
        if status.quote == QuoteStatus::NoQuote {
            status.quote = QuoteStatus::Double;
        } else if status.quote == QuoteStatus::Double {
            status.quote = QuoteStatus::NoQuote;
        }
    } else {
        status.splash = false;
    }
    if (nowchar == '(' || nowchar == '{' || nowchar == '[') && status.quote
        == QuoteStatus::NoQuote {
        status.brace = if status.brace == usize::MAX {
            0
        } else {
            status.brace + 1
        };
    } else if (nowchar == ')' || nowchar == '}' || nowchar == ']') && status.quote
        == QuoteStatus::NoQuote {
        status.brace = if status.brace == 0 {
            usize::MAX
        } else {
            status.brace - 1
        };
    }
}

/// One step of the backward scan: the quote and escape logic reads the pair
/// of the current character and the character scanned just before it (the one
/// to its right in the text), and the depth polarity is swapped.
pub open spec fn spec_transfer_rev(nowchar: char, lastchar: char, st: LppStatus) -> LppStatus {
    let mid = if lastchar == '\\' {
        LppStatus { quote: st.quote, splash: !st.splash, brace: st.brace }
    } else if nowchar == '\'' && !st.splash {
        if st.quote == QuoteStatus::NoQuote {
            LppStatus { quote: QuoteStatus::Single, splash: st.splash, brace: st.brace }
        } else if st.quote == QuoteStatus::Single {
            LppStatus { quote: QuoteStatus::NoQuote, splash: st.splash, brace: st.brace }
        } else {
            st
        }
    } else if nowchar == '"' && !st.splash {
        if st.quote == QuoteStatus::NoQuote {
            LppStatus { quote: QuoteStatus::Double, splash: st.splash, brace: st.brace }
        } else if st.quote == QuoteStatus::Double {
            LppStatus { quote: QuoteStatus::NoQuote, splash: st.splash, brace: st.brace }
        } else {
            st
        }
    } else {
        LppStatus { quote: st.quote, splash: false, brace: st.brace }
    };
    if (nowchar == '(' || nowchar == '{' || nowchar == '[') && mid.quote == QuoteStatus::NoQuote {
        LppStatus { quote: mid.quote, splash: mid.splash, brace: depth_down(mid.brace) }
    } else if (nowchar == ')' || nowchar == '}' || nowchar == ']') && mid.quote
        == QuoteStatus::NoQuote {
        LppStatus { quote: mid.quote, splash: mid.splash, brace: depth_up(mid.brace) }
    } else {
        mid
    }
}

/// Advances the scan state over one character of a backward scan.
pub fn transfer_rev(nowchar: char, lastchar: char, status: &mut LppStatus)
    ensures
        *final(status) == spec_transfer_rev(nowchar, lastchar, *old(status)),
{
    if lastchar == '\\' {
        status.splash = !status.splash;
    } else if nowchar == '\'' && !status.splash {
        if status.quote == QuoteStatus::NoQuote {
            status.quote = QuoteStatus::Single;
        } else if status.quote == QuoteStatus::Single {
            status.quote = QuoteStatus::NoQuote;
        }
    } else if nowchar == '"' && !status.splash {
        if status.quote == QuoteStatus::NoQuote {
            status.quote = QuoteStatus::Double;
        } else if status.quote == QuoteStatus::Double {
            status.quote = QuoteStatus::NoQuote;
        }
    } else {
        status.splash = false;
    }
    if (nowchar == '(' || nowchar == '{' || nowchar == '[') && status.quote
        == QuoteStatus::NoQuote {
        status.brace = if status.brace == 0 {
            usize::MAX
        } else {
            status.brace - 1
        };
    } else if (nowchar == ')' || nowchar == '}' || nowchar == ']') && status.quote
        == QuoteStatus::NoQuote {
        status.brace = if status.brace == usize::MAX {
            0
        } else {
            status.brace + 1
        };
    }
}

/// The forward scan state reached after reading a whole text, left to right,
/// starting from a given state.
pub open spec fn scan_from(s: Seq<char>, st: LppStatus) -> LppStatus
    decreases s.len(),
{
    if s.len() == 0 {
        st
    } else {
        scan_from(s.drop_first(), spec_transfer(s.first(), st))
    }
}

/// The scan state after a whole text, from the initial state.
pub open spec fn scan(s: Seq<char>) -> LppStatus {
    scan_from(s, LppStatus::init())
}

/// Scanning a text one character longer means one more transition at the end.
pub proof fn lemma_scan_from_snoc(s: Seq<char>, c: char, st: LppStatus)
    ensures
        scan_from(s.push(c), st) == spec_transfer(c, scan_from(s, st)),
    decreases s.len(),
{
    let t = s.push(c);
    assert(t.len() == s.len() + 1);
    assert(scan_from(t, st) == scan_from(t.drop_first(), spec_transfer(t.first(), st)));
    if s.len() == 0 {
        assert(t.first() == c);
        assert(t.drop_first() =~= Seq::<char>::empty());
        assert(scan_from(s, st) == st);
    } else {
        assert(t.first() == s.first());
        assert(t.drop_first() =~= s.drop_first().push(c));
        lemma_scan_from_snoc(s.drop_first(), c, spec_transfer(s.first(), st));
        assert(scan_from(s, st) == scan_from(s.drop_first(), spec_transfer(s.first(), st)));
    }
}

/// The scan state composes over concatenation of texts.
pub proof fn lemma_scan_from_app(s1: Seq<char>, s2: Seq<char>, st: LppStatus)
    ensures
        scan_from(s1 + s2, st) == scan_from(s2, scan_from(s1, st)),
    decreases s1.len(),
{
    if s1.len() == 0 {
        assert(s1 + s2 =~= s2);
    } else {
        assert((s1 + s2).drop_first() =~= s1.drop_first() + s2);
        lemma_scan_from_app(s1.drop_first(), s2, spec_transfer(s1.first(), st));
    }
}

/// What the forward pass of the statement splitter finds: a splitting space,
/// an argument-list parenthesis that stops it, or nothing.
pub enum FwdRes {
    SpaceAt(int),
    ParenStop,
    Missing,
}

/// The forward pass: the first top-level space outside quotes, unless an
/// opening parenthesis at depth one is met first; literal line feeds and
/// tabs are scanned but never split.
pub open spec fn fwd_find(s: Seq<char>, i: int, st: LppStatus) -> FwdRes
    decreases s.len() - i,
{
    if i < 0 || i >= s.len() {
        FwdRes::Missing
    } else {
        let st2 = spec_transfer(s[i], st);
        if s[i] == '\n' || s[i] == '\t' {
            fwd_find(s, i + 1, st2)
        } else if s[i] == '(' && st2.quote == QuoteStatus::NoQuote && st2.brace == 1 {
            FwdRes::ParenStop
        } else if s[i] == ' ' && st2.quote == QuoteStatus::NoQuote && st2.brace == 0 {
            FwdRes::SpaceAt(i)
        } else {
            fwd_find(s, i + 1, st2)
        }
    }
}

/// The backward pass: scanning from the end, the last top-level opening
/// brace or parenthesis, except a brace directly preceded by a closing
/// parenthesis, which belongs to a parenthesized-then-braced construct.
pub open spec fn bwd_find(s: Seq<char>, j: int, st: LppStatus, lastchar: char) -> Option<int>
    decreases j + 1,
{
    if j < 0 || j >= s.len() {
        None
    } else {
        let st2 = spec_transfer_rev(s[j], lastchar, st);
        if s[j] == '\n' || s[j] == '\t' {
            bwd_find(s, j - 1, st2, lastchar)
        } else if (s[j] == '{' || s[j] == '(') && st2.quote == QuoteStatus::NoQuote && st2.brace
            == 0 && !(s[j] == '{' && j > 0 && s[j - 1] == ')') {
            Some(j)
        } else {
            bwd_find(s, j - 1, st2, s[j])
        }
    }
}

/// Where a statement text splits into its name and its arguments: at the
/// first top-level space, else at the last top-level opening delimiter,
/// else not at all (the whole text is the name).
pub open spec fn spec_stmt_split(s: Seq<char>) -> int {
    match fwd_find(s, 0, LppStatus::init()) {
        FwdRes::SpaceAt(i) => i,
        _ => match bwd_find(s, s.len() - 1, LppStatus::init(), '\0') {
            Some(j) => j,
            None => -1,
        },
    }
}

/// The name part of a split statement.
pub open spec fn spec_stmt_name(s: Seq<char>) -> Seq<char> {
    match fwd_find(s, 0, LppStatus::init()) {
        FwdRes::SpaceAt(i) => s.take(i),
        _ => match bwd_find(s, s.len() - 1, LppStatus::init(), '\0') {
            Some(j) => s.take(j),
            None => s,
        },
    }
}

/// The argument part of a split statement; the splitting space itself is
/// dropped, an opening delimiter is kept.
pub open spec fn spec_stmt_args(s: Seq<char>) -> Seq<char> {
    match fwd_find(s, 0, LppStatus::init()) {
        FwdRes::SpaceAt(i) => s.skip(i + 1),
        _ => match bwd_find(s, s.len() - 1, LppStatus::init(), '\0') {
            Some(j) => s.skip(j),
            None => Seq::empty(),
        },
    }
}

/// A statement split into its leading name and the remaining argument text.
pub struct Lpp {
    pub name: String,
    pub args: String,
}

/// The separator that serialization puts between name and arguments: a
/// single space only when both parts are present and the arguments do not
/// already begin with an opening parenthesis.
pub open spec fn spec_stmt_sep(name: Seq<char>, args: Seq<char>) -> Seq<char> {
    if (args.len() == 0 && name.len() != 0) || (args.len() != 0 && args[0] == '(') || name.len()
        == 0 {
        Seq::empty()
    } else {
        seq![' ']
    }
}

impl Lpp {
    pub fn new() -> (r: Self)
        ensures
            r.name@ == Seq::<char>::empty(),
            r.args@ == Seq::<char>::empty(),
    {
        Lpp { name: String::new(), args: String::new() }
    }

    /// Serializes the pair so that it reproduces the original text whenever
    /// the arguments are empty or already parenthesized.
    pub fn to_string(&self) -> (r: String)
        ensures
            r@ == self.name@ + spec_stmt_sep(self.name@, self.args@) + self.args@,
    {
        let mut out = self.name.clone();
        let args_len = ulen(self.args.as_str());
        let name_len = ulen(self.name.as_str());
        let no_sep = (args_len == 0 && name_len != 0) || (args_len != 0 && self.args.as_str()
            .get_char(0) == '(') || name_len == 0;
        if !no_sep {
            out.push(' ');
        }
        out.append(self.args.as_str());
        proof {
            if no_sep {
                assert(self.name@ + spec_stmt_sep(self.name@, self.args@) + self.args@ =~= self
                    .name@ + self.args@);
            } else {
                assert(self.name@ + spec_stmt_sep(self.name@, self.args@) + self.args@ =~= self
                    .name@.push(' ') + self.args@);
            }
        }
        out
    }

    /// Splits raw statement text into name and arguments: at the first
    /// top-level space; failing that, at the last top-level opening brace
    /// or parenthesis (a brace straight after a closing parenthesis is
    /// passed over); failing both, the whole text is the name.
    pub fn parse(s: &str) -> (r: Self)
        ensures
            r.name@ == spec_stmt_name(s@),
            r.args@ == spec_stmt_args(s@),
    {
        let n = ulen(s);
        let ghost fwd = fwd_find(s@, 0, LppStatus::init());
        let mut status = LppStatus::new();
        let mut i: usize = 0;
        while i < n
            invariant_except_break
                fwd == fwd_find(s@, i as int, status),
            invariant
                n == s@.len(),
                0 <= i <= n,
                fwd == fwd_find(s@, 0, LppStatus::init()),
            ensures
                n == s@.len(),
                fwd == FwdRes::ParenStop || fwd == FwdRes::Missing,
            decreases n - i,
        {
            let c = s.get_char(i);
            let ghost pre = status;
            transfer(c, &mut status);
            proof {
                assert(spec_transfer(s@[i as int], pre) == status);
            }
            if c == '\n' || c == '\t' {
                i = i + 1;
                continue;
            }
            if c == '(' && status.quote == QuoteStatus::NoQuote && status.brace == 1 {
                assert(fwd_find(s@, i as int, pre) == FwdRes::ParenStop);
                break;
            }
            if c == ' ' && status.quote == QuoteStatus::NoQuote && status.brace == 0 {
                assert(fwd_find(s@, i as int, pre) == FwdRes::SpaceAt(i as int));
                let name = uslice(s, 0, i).to_owned();
                let args = uslice(s, i + 1, n).to_owned();
                proof {
                    assert(spec_uslice(s@, 0, i as int) =~= s@.take(i as int));
                    assert(spec_uslice(s@, i as int + 1, n as int) =~= s@.skip(i as int + 1));
                }
                return Lpp { name, args };
            }
            i = i + 1;
        }
        assert(!(fwd is SpaceAt));
        let mut lastchar = '\0';
        status = LppStatus::new();
        let mut k: usize = 0;
        while k < n
            invariant
                n == s@.len(),
                0 <= k <= n,
                fwd == fwd_find(s@, 0, LppStatus::init()),
                fwd == FwdRes::ParenStop || fwd == FwdRes::Missing,
                bwd_find(s@, n - 1, LppStatus::init(), '\0') == bwd_find(
                    s@,
                    n - 1 - k,
                    status,
                    lastchar,
                ),
            decreases n - k,
        {
            let j = n - 1 - k;
            let c = s.get_char(j);
            let ghost pre = status;
            transfer_rev(c, lastchar, &mut status);
            proof {
                assert(spec_transfer_rev(s@[j as int], lastchar, pre) == status);
            }
            if c == '\n' || c == '\t' {
                k = k + 1;
                continue;
            }
            if (c == '{' || c == '(') && status.quote == QuoteStatus::NoQuote && status.brace
                == 0 {
                let skip_brace = c == '{' && j > 0 && s.get_char(j - 1) == ')';
                if !skip_brace {
                    assert(bwd_find(s@, j as int, pre, lastchar) == Some(j as int));
                    let name = uslice(s, 0, j).to_owned();
                    let args = uslice(s, j, n).to_owned();
                    proof {
                        assert(spec_uslice(s@, 0, j as int) =~= s@.take(j as int));
                        assert(spec_uslice(s@, j as int, n as int) =~= s@.skip(j as int));
                    }
                    return Lpp { name, args };
                }
            }
            lastchar = c;
            k = k + 1;
        }
        proof {
            if n == 0 {
                assert(bwd_find(s@, n - 1, LppStatus::init(), '\0') is None);
            }
            assert(s@.take(n as int) =~= s@);
        }
        let name = s.to_owned();
        let args = String::new();
        Lpp { name, args }
    }
}

/// The interface a statement parser offers to the dispatch layer.
pub trait ParserInterface: Sized {
    fn stmt_name(&self) -> &String;

    fn stmt_args(&self) -> &String;

    fn stmt_text(&self) -> String;

    fn stmt_parse(s: &str) -> Self;
}

impl ParserInterface for Lpp {
    fn stmt_name(&self) -> (r: &String)
        ensures
            r@ == self.name@,
    {
        &self.name
    }

    fn stmt_args(&self) -> (r: &String)
        ensures
            r@ == self.args@,
    {
        &self.args
    }

    fn stmt_text(&self) -> String {
        self.to_string()
    }

    fn stmt_parse(s: &str) -> Self {
        Lpp::parse(s)
    }
}

/// The interface that cuts raw source into statement texts.
pub trait CodeSplitInterface {
    fn code_split(s: &str) -> Vec<String>;
}


/// Scanning a single character is one transition.
proof fn lemma_scan_one(c: char, st: LppStatus)
    ensures
        scan_from(seq![c], st) == spec_transfer(c, st),
{
    assert(seq![c].len() == 1);
    assert(seq![c].first() == c);
    assert(seq![c].drop_first() =~= Seq::<char>::empty());
    assert(scan_from(seq![c], st) == scan_from(
        seq![c].drop_first(),
        spec_transfer(seq![c].first(), st),
    ));
}

/// Scanning an escape pair is two transitions.
proof fn lemma_scan_two(a: char, b: char, st: LppStatus)
    ensures
        scan_from(seq![a, b], st) == spec_transfer(b, spec_transfer(a, st)),
{
    assert(seq![a, b] =~= seq![a] + seq![b]);
    lemma_scan_from_app(seq![a], seq![b], st);
    lemma_scan_one(a, st);
    lemma_scan_one(b, spec_transfer(a, st));
}

/// One item inside a string literal: a plain character, or a backslash
/// escape pair.
pub enum QItem {
    Ch(char),
    Esc(char),
}

/// A balanced, correctly quoted and escaped fragment of source text: a
/// plain character, an escape pair, a quoted literal, or a bracketed group
/// of fragments.
pub enum Tok {
    Plain(char),
    Esc(char),
    SingleQ(Seq<QItem>),
    DoubleQ(Seq<QItem>),
    Par(Seq<Tok>),
    Brace(Seq<Tok>),
    Brack(Seq<Tok>),
}

/// Whether a quoted item is admissible: a plain character inside a literal
/// is no quote and no backslash; an escape pair takes any character.
pub open spec fn wf_qitem(q: QItem) -> bool {
    match q {
        QItem::Ch(c) => c != '\'' && c != '"' && c != '\\',
        QItem::Esc(_) => true,
    }
}

/// Whether every quoted item is admissible.
pub open spec fn wf_qitems(qs: Seq<QItem>) -> bool {
    forall|i: int| 0 <= i < qs.len() ==> wf_qitem(#[trigger] qs[i])
}

/// Whether a character may stand bare at top level: no quote, no
/// backslash, no bracket.
pub open spec fn plain_char(c: char) -> bool {
    c != '\'' && c != '"' && c != '\\' && c != '(' && c != ')' && c != '{' && c != '}' && c != '['
        && c != ']'
}

/// Whether a fragment is well formed.
pub open spec fn wf_tok(t: Tok) -> bool
    decreases t, 0int,
{
    match t {
        Tok::Plain(c) => plain_char(c),
        Tok::Esc(c) => c != '(' && c != ')' && c != '{' && c != '}' && c != '[' && c != ']',
        Tok::SingleQ(qs) => wf_qitems(qs),
        Tok::DoubleQ(qs) => wf_qitems(qs),
        Tok::Par(ts) => wf_toks(ts),
        Tok::Brace(ts) => wf_toks(ts),
        Tok::Brack(ts) => wf_toks(ts),
    }
}

/// Whether every fragment of a sequence is well formed.
pub open spec fn wf_toks(ts: Seq<Tok>) -> bool
    decreases ts, 1int,
{
    forall|i: int| 0 <= i < ts.len() ==> wf_tok(#[trigger] ts[i])
}

/// The text of one quoted item.
pub open spec fn dq(q: QItem) -> Seq<char> {
    match q {
        QItem::Ch(c) => seq![c],
        QItem::Esc(c) => seq!['\\', c],
    }
}

/// The text of a quoted literal's contents.
pub open spec fn dqs(qs: Seq<QItem>) -> Seq<char>
    decreases qs.len(),
{
    if qs.len() == 0 {
        Seq::empty()
    } else {
        dq(qs[0]) + dqs(qs.drop_first())
    }
}

/// The text of one fragment.
pub open spec fn dt(t: Tok) -> Seq<char>
    decreases t, 0int,
{
    match t {
        Tok::Plain(c) => seq![c],
        Tok::Esc(c) => seq!['\\', c],
        Tok::SingleQ(qs) => seq!['\''] + dqs(qs) + seq!['\''],
        Tok::DoubleQ(qs) => seq!['"'] + dqs(qs) + seq!['"'],
        Tok::Par(ts) => seq!['('] + dts(ts) + seq![')'],
        Tok::Brace(ts) => seq!['{'] + dts(ts) + seq!['}'],
        Tok::Brack(ts) => seq!['['] + dts(ts) + seq![']'],
    }
}

/// The text of a sequence of fragments.
pub open spec fn dts(ts: Seq<Tok>) -> Seq<char>
    decreases ts, 1int,
{
    if ts.len() == 0 {
        Seq::empty()
    } else {
        dt(ts[0]) + dts(ts.drop_first())
    }
}

/// Scanning the contents of a string literal, inside a quote with no
/// escape pending, ends where it began.
proof fn lemma_scan_qitems(qs: Seq<QItem>, st: LppStatus)
    requires
        wf_qitems(qs),
        st.quote != QuoteStatus::NoQuote,
        !st.splash,
    ensures
        scan_from(dqs(qs), st) == st,
    decreases qs.len(),
{
    if qs.len() == 0 {
    } else {
        let rest = dqs(qs.drop_first());
        assert(wf_qitem(qs[0]));
        assert(wf_qitems(qs.drop_first())) by {
            assert forall|i: int|
                0 <= i < qs.drop_first().len() implies wf_qitem(
                #[trigger] qs.drop_first()[i],
            ) by {
                assert(qs.drop_first()[i] == qs[i + 1]);
            }
        }
        match qs[0] {
            QItem::Ch(c) => {
                assert(dqs(qs) =~= seq![c] + rest);
                lemma_scan_from_app(seq![c], rest, st);
                lemma_scan_one(c, st);
                assert(spec_transfer(c, st) == st);
                lemma_scan_qitems(qs.drop_first(), st);
            },
            QItem::Esc(c) => {
                assert(dqs(qs) =~= seq!['\\', c] + rest);
                lemma_scan_from_app(seq!['\\', c], rest, st);
                lemma_scan_two('\\', c, st);
                assert(spec_transfer(c, spec_transfer('\\', st)) == st);
                lemma_scan_qitems(qs.drop_first(), st);
            },
        }
    }
}

/// Scanning one well-formed fragment at top level, with no escape
/// pending, ends where it began.
proof fn lemma_scan_tok(t: Tok, st: LppStatus)
    requires
        wf_tok(t),
        st.quote == QuoteStatus::NoQuote,
        !st.splash,
    ensures
        scan_from(dt(t), st) == st,
    decreases t, 0int,
{
    match t {
        Tok::Plain(c) => {
            lemma_scan_one(c, st);
            assert(spec_transfer(c, st) == st);
        },
        Tok::Esc(c) => {
            lemma_scan_two('\\', c, st);
            assert(spec_transfer(c, spec_transfer('\\', st)) == st);
        },
        Tok::SingleQ(qs) => {
            let stq = spec_transfer('\'', st);
            let inner = dqs(qs);
            assert(dt(t) =~= seq!['\''] + (inner + seq!['\'']));
            lemma_scan_from_app(seq!['\''], inner + seq!['\''], st);
            lemma_scan_one('\'', st);
            lemma_scan_from_app(inner, seq!['\''], stq);
            lemma_scan_qitems(qs, stq);
            lemma_scan_one('\'', stq);
            assert(spec_transfer('\'', stq) == st);
        },
        Tok::DoubleQ(qs) => {
            let stq = spec_transfer('"', st);
            let inner = dqs(qs);
            assert(dt(t) =~= seq!['"'] + (inner + seq!['"']));
            lemma_scan_from_app(seq!['"'], inner + seq!['"'], st);
            lemma_scan_one('"', st);
            lemma_scan_from_app(inner, seq!['"'], stq);
            lemma_scan_qitems(qs, stq);
            lemma_scan_one('"', stq);
            assert(spec_transfer('"', stq) == st);
        },
        Tok::Par(ts) => {
            lemma_scan_group(ts, st, '(', ')');
        },
        Tok::Brace(ts) => {
            lemma_scan_group(ts, st, '{', '}');
        },
        Tok::Brack(ts) => {
            lemma_scan_group(ts, st, '[', ']');
        },
    }
}

/// Scanning a bracketed group of well-formed fragments ends where it
/// began: the closer undoes exactly what the opener did.
proof fn lemma_scan_group(ts: Seq<Tok>, st: LppStatus, open: char, close: char)
    requires
        wf_toks(ts),
        st.quote == QuoteStatus::NoQuote,
        !st.splash,
        (open == '(' && close == ')') || (open == '{' && close == '}') || (open == '[' && close
            == ']'),
    ensures
        scan_from(seq![open] + dts(ts) + seq![close], st) == st,
    decreases ts, 2int,
{
    let sto = spec_transfer(open, st);
    assert(sto == (LppStatus {
        quote: QuoteStatus::NoQuote,
        splash: false,
        brace: depth_up(st.brace),
    }));
    let inner = dts(ts);
    assert(seq![open] + inner + seq![close] =~= seq![open] + (inner + seq![close]));
    lemma_scan_from_app(seq![open], inner + seq![close], st);
    lemma_scan_one(open, st);
    lemma_scan_from_app(inner, seq![close], sto);
    lemma_scan_toks(ts, sto);
    lemma_scan_one(close, sto);
    assert(depth_down(depth_up(st.brace)) == st.brace);
    assert(spec_transfer(close, sto) == st);
}

/// Scanning a sequence of well-formed fragments at top level ends where
/// it began.
proof fn lemma_scan_toks(ts: Seq<Tok>, st: LppStatus)
    requires
        wf_toks(ts),
        st.quote == QuoteStatus::NoQuote,
        !st.splash,
    ensures
        scan_from(dts(ts), st) == st,
    decreases ts, 1int,
{
    if ts.len() == 0 {
    } else {
        assert(wf_tok(ts[0]));
        assert(wf_toks(ts.drop_first())) by {
            assert forall|i: int|
                0 <= i < ts.drop_first().len() implies wf_tok(#[trigger] ts.drop_first()[i]) by {
                assert(ts.drop_first()[i] == ts[i + 1]);
            }
        }
        lemma_scan_from_app(dt(ts[0]), dts(ts.drop_first()), st);
        lemma_scan_tok(ts[0], st);
        lemma_scan_toks(ts.drop_first(), st);
    }
}

/// The scan-state invariant: over any text with balanced brackets and
/// correctly quoted and escaped literals -- any text a sequence of
/// well-formed fragments denotes -- the forward scan returns to its
/// initial state, so it ends at depth zero outside every quote.
pub proof fn lemma_scan_balanced(ts: Seq<Tok>)
    requires
        wf_toks(ts),
    ensures
        scan(dts(ts)) == LppStatus::init(),
        scan(dts(ts)).brace == 0,
        scan(dts(ts)).quote == QuoteStatus::NoQuote,
{
    lemma_scan_toks(ts, LppStatus::init());
}

} // verus!
