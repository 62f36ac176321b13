//! Text utilities over the scan state machine: slicing by character
//! index, delimiter-aware splitting, wrapping detection, and the
//! whitespace filter.

use vstd::prelude::*;
use crate::parse::{LppStatus, QuoteStatus, spec_transfer, transfer};

verus! {

/// Relies on String::push: appends one character at the end.
pub assume_specification[ std::string::String::push ](s: &mut std::string::String, c: char)
    ensures
        final(s)@ == old(s)@.push(c),
;

/// Whether a code point value names a Unicode scalar, i.e. a `char`.
pub open spec fn valid_scalar(v: u32) -> bool {
    v < 0xd800 || (0xe000 <= v && v < 0x110000)
}

/// Relies on char::from_u32: a character for every Unicode scalar value,
/// nothing for a surrogate or an out-of-range code point.
pub assume_specification[ char::from_u32 ](v: u32) -> (r: Option<char>)
    ensures
        r is Some <==> valid_scalar(v),
        r matches Some(c) ==> c as u32 == v,
;

/// The characters between two character indices, clamped to the text,
/// empty when the range is invalid.
pub open spec fn spec_uslice(s: Seq<char>, b: int, e: int) -> Seq<char> {
    if e < b || b < 0 || b >= s.len() {
        Seq::empty()
    } else if e >= s.len() {
        s.subrange(b, s.len() as int)
    } else {
        s.subrange(b, e)
    }
}

/// Relies on utf8_slice::slice: the substring between two character
/// indices, clamped to the text, empty when the range is invalid.
#[verifier::external_body]
pub fn uslice<'a>(s: &'a str, begin: usize, end: usize) -> (r: &'a str)
    ensures
        r@ == spec_uslice(s@, begin as int, end as int),
{
    utf8_slice::slice(s, begin, end)
}

/// Relies on utf8_slice::len: the number of characters in the text.
#[verifier::external_body]
pub fn ulen(s: &str) -> (r: usize)
    ensures
        r as nat == s@.len(),
{
    utf8_slice::len(s)
}

/// The index of the first character equal to `right` that the scan reaches
/// at depth zero outside every quote, the state taken after the character.
pub open spec fn close_idx(s: Seq<char>, right: char, i: int, st: LppStatus) -> Option<int>
    decreases s.len() - i,
{
    if i < 0 || i >= s.len() {
        None
    } else {
        let st2 = spec_transfer(s[i], st);
        if s[i] == right && st2.quote == QuoteStatus::NoQuote && st2.brace == 0 {
            Some(i)
        } else {
            close_idx(s, right, i + 1, st2)
        }
    }
}

/// Whether the text starts with `left`, ends with `right`, and that final
/// `right` is the first closer the scan meets at top level: the whole text
/// is one `left`..`right` group.
pub open spec fn spec_covered(s: Seq<char>, left: char, right: char) -> bool {
    &&& s.len() >= 2
    &&& s[0] == left
    &&& s[s.len() - 1] == right
    &&& close_idx(s, right, 0, LppStatus::init()) == Some(s.len() - 1)
}

/// Whether the whole text is a single group wrapped by the given pair of
/// delimiters, respecting quotes and nesting.
pub fn covered_with(s: &str, left: char, right: char) -> (r: bool)
    ensures
        r == spec_covered(s@, left, right),
{
    let n = ulen(s);
    if n < 2 || s.get_char(0) != left || s.get_char(n - 1) != right {
        return false;
    }
    let mut status = LppStatus::new();
    let mut i: usize = 0;
    while i < n
        invariant
            n == s@.len(),
            0 <= i <= n,
            s@[0] == left,
            s@[n - 1] == right,
            n >= 2,
            close_idx(s@, right, 0, LppStatus::init()) == close_idx(s@, right, i as int, status),
        decreases n - i,
    {
        let c = s.get_char(i);
        let ghost pre = status;
        transfer(c, &mut status);
        proof {
            assert(spec_transfer(s@[i as int], pre) == status);
        }
        if c == right && status.quote == QuoteStatus::NoQuote && status.brace == 0 {
            assert(close_idx(s@, right, i as int, pre) == Some(i as int));
            return i == n - 1;
        }
        i = i + 1;
    }
    false
}

/// One piece of a split, gathered left to right: pieces are separated by
/// the delimiter when it stands at depth zero outside every quote, and an
/// empty piece at the very end is not reported.
pub open spec fn split_rec(
    s: Seq<char>,
    d: char,
    i: int,
    st: LppStatus,
    cur: Seq<char>,
    acc: Seq<Seq<char>>,
) -> Seq<Seq<char>>
    decreases s.len() - i,
{
    if i < 0 || i >= s.len() {
        if cur.len() != 0 {
            acc.push(cur)
        } else {
            acc
        }
    } else {
        let st2 = spec_transfer(s[i], st);
        if s[i] == d && st2.quote == QuoteStatus::NoQuote && st2.brace == 0 {
            split_rec(s, d, i + 1, st2, Seq::empty(), acc.push(cur))
        } else {
            split_rec(s, d, i + 1, st2, cur.push(s[i]), acc)
        }
    }
}

/// The pieces of a text split on a delimiter at top level.
pub open spec fn spec_split(s: Seq<char>, d: char) -> Seq<Seq<char>> {
    split_rec(s, d, 0, LppStatus::init(), Seq::empty(), Seq::empty())
}

/// Every piece of a split is no longer than what remained plus what the
/// current piece already held, and pieces already gathered keep their bound.
pub proof fn lemma_split_rec_len(
    s: Seq<char>,
    d: char,
    i: int,
    st: LppStatus,
    cur: Seq<char>,
    acc: Seq<Seq<char>>,
    bound: int,
)
    requires
        forall|k: int| 0 <= k < acc.len() ==> #[trigger] acc[k].len() <= bound,
        cur.len() + (s.len() - i) <= bound,
        0 <= i <= s.len(),
    ensures
        forall|k: int|
            0 <= k < split_rec(s, d, i, st, cur, acc).len() ==> #[trigger] split_rec(
                s,
                d,
                i,
                st,
                cur,
                acc,
            )[k].len() <= bound,
    decreases s.len() - i,
{
    let res = split_rec(s, d, i, st, cur, acc);
    if i >= s.len() {
        assert forall|k: int| 0 <= k < res.len() implies #[trigger] res[k].len() <= bound by {
            if cur.len() != 0 {
                if k < acc.len() {
                    assert(res[k] == acc[k]);
                } else {
                    assert(res[k] == cur);
                }
            } else {
                assert(res[k] == acc[k]);
            }
        }
    } else {
        let st2 = spec_transfer(s[i], st);
        if s[i] == d && st2.quote == QuoteStatus::NoQuote && st2.brace == 0 {
            assert forall|k: int| 0 <= k < acc.push(cur).len() implies #[trigger] acc.push(
                cur,
            )[k].len() <= bound by {
                if k < acc.len() {
                    assert(acc.push(cur)[k] == acc[k]);
                } else {
                    assert(acc.push(cur)[k] == cur);
                }
            }
            lemma_split_rec_len(s, d, i + 1, st2, Seq::empty(), acc.push(cur), bound);
            assert forall|k: int| 0 <= k < res.len() implies #[trigger] res[k].len() <= bound by {
                assert(res == split_rec(s, d, i + 1, st2, Seq::empty(), acc.push(cur)));
                assert(split_rec(s, d, i + 1, st2, Seq::empty(), acc.push(cur))[k].len()
                    <= bound);
            }
        } else {
            lemma_split_rec_len(s, d, i + 1, st2, cur.push(s[i]), acc, bound);
            assert forall|k: int| 0 <= k < res.len() implies #[trigger] res[k].len() <= bound by {
                assert(res == split_rec(s, d, i + 1, st2, cur.push(s[i]), acc));
                assert(split_rec(s, d, i + 1, st2, cur.push(s[i]), acc)[k].len() <= bound);
            }
        }
    }
}

/// Every piece of a top-level split is no longer than the text itself.
pub proof fn lemma_split_len(s: Seq<char>, d: char)
    ensures
        forall|k: int|
            0 <= k < spec_split(s, d).len() ==> #[trigger] spec_split(s, d)[k].len() <= s.len(),
{
    lemma_split_rec_len(s, d, 0, LppStatus::init(), Seq::empty(), Seq::empty(), s.len() as int);
}

/// Splits a text on a delimiter, honouring quotes and bracket nesting; a
/// trailing empty piece is dropped.
pub fn split_by(s: &str, delim: char) -> (r: Vec<String>)
    ensures
        r.deep_view() == spec_split(s@, delim),
{
    let n = ulen(s);
    let mut ret: Vec<String> = Vec::new();
    let mut tmp = String::new();
    let mut status = LppStatus::new();
    let mut i: usize = 0;
    proof {
        assert(ret.deep_view() =~~= Seq::<Seq<char>>::empty());
    }
    while i < n
        invariant
            n == s@.len(),
            0 <= i <= n,
            spec_split(s@, delim) == split_rec(
                s@,
                delim,
                i as int,
                status,
                tmp@,
                ret.deep_view(),
            ),
        decreases n - i,
    {
        let c = s.get_char(i);
        let ghost pre = status;
        transfer(c, &mut status);
        assert(spec_transfer(s@[i as int], pre) == status);
        if c == delim && status.quote == QuoteStatus::NoQuote && status.brace == 0 {
            let ghost old_ret = ret.deep_view();
            let ghost old_tmp = tmp@;
            ret.push(tmp);
            tmp = String::new();
            assert(ret.deep_view() =~~= old_ret.push(old_tmp));
        } else {
            tmp.push(c);
        }
        i = i + 1;
    }
    if tmp.as_str().unicode_len() != 0 {
        let ghost old_ret = ret.deep_view();
        let ghost old_tmp = tmp@;
        ret.push(tmp);
        assert(ret.deep_view() =~~= old_ret.push(old_tmp));
    }
    ret
}

/// Whether a character is dropped by the whitespace filter, judged in the
/// state reached just after scanning it: a carriage return always, a tab
/// outside quotes, a line feed outside quotes at depth zero.
pub open spec fn cleared(c: char, st2: LppStatus) -> bool {
    ||| c == '\r'
    ||| (c == '\t' && st2.quote == QuoteStatus::NoQuote)
    ||| (c == '\n' && st2.quote == QuoteStatus::NoQuote && st2.brace == 0)
}

/// The text with insignificant whitespace removed, scanning from a state.
pub open spec fn cn(s: Seq<char>, st: LppStatus) -> Seq<char>
    decreases s.len(),
{
    if s.len() == 0 {
        Seq::empty()
    } else {
        let st2 = spec_transfer(s.first(), st);
        let rest = cn(s.drop_first(), st2);
        if cleared(s.first(), st2) {
            rest
        } else {
            seq![s.first()] + rest
        }
    }
}

/// The text with carriage returns, top-level line feeds and unquoted tabs
/// removed.
pub open spec fn spec_clearnull(s: Seq<char>) -> Seq<char> {
    cn(s, LppStatus::init())
}

/// Removes carriage returns, unquoted tabs and top-level line feeds.
pub fn clearnull(s: &str) -> (r: String)
    ensures
        r@ == spec_clearnull(s@),
{
    let n = ulen(s);
    let mut tmp = String::new();
    let mut status = LppStatus::new();
    let mut i: usize = 0;
    proof {
        assert(s@.skip(0) =~= s@);
        assert(tmp@ + cn(s@, LppStatus::init()) =~= cn(s@, LppStatus::init()));
    }
    while i < n
        invariant
            n == s@.len(),
            0 <= i <= n,
            spec_clearnull(s@) == tmp@ + cn(s@.skip(i as int), status),
        decreases n - i,
    {
        let c = s.get_char(i);
        let ghost pre = status;
        let ghost suf = s@.skip(i as int);
        transfer(c, &mut status);
        proof {
            assert(suf.len() > 0);
            assert(suf.first() == s@[i as int]);
            assert(suf.drop_first() =~= s@.skip(i as int + 1));
            assert(spec_transfer(c, pre) == status);
        }
        if c == '\r' {
        } else if c == '\t' && status.quote == QuoteStatus::NoQuote {
        } else if c == '\n' && status.quote == QuoteStatus::NoQuote && status.brace == 0 {
        } else {
            tmp.push(c);
            proof {
                assert(tmp@ + cn(s@.skip(i as int + 1), status) =~= (tmp@.drop_last() + (seq![c]
                    + cn(s@.skip(i as int + 1), status))));
            }
        }
        i = i + 1;
    }
    proof {
        assert(s@.skip(n as int) =~= Seq::<char>::empty());
        assert(tmp@ + Seq::<char>::empty() =~= tmp@);
    }
    tmp
}

/// Whether no whitespace character that the filter would drop stands in an
/// escaped position: before each such character the scan's escape flag is
/// clear.
pub open spec fn ws_unescaped(s: Seq<char>, st: LppStatus) -> bool
    decreases s.len(),
{
    if s.len() == 0 {
        true
    } else {
        let st2 = spec_transfer(s.first(), st);
        &&& (cleared(s.first(), st2) ==> !st.splash)
        &&& ws_unescaped(s.drop_first(), st2)
    }
}

proof fn lemma_cn_idempotent_rec(s: Seq<char>, st: LppStatus)
    requires
        ws_unescaped(s, st),
    ensures
        cn(cn(s, st), st) == cn(s, st),
    decreases s.len(),
{
    if s.len() == 0 {
    } else {
        let c = s.first();
        let rest = s.drop_first();
        let st2 = spec_transfer(c, st);
        if cleared(c, st2) {
            assert(!st.splash);
            assert(st2 == st);
            lemma_cn_idempotent_rec(rest, st);
        } else {
            lemma_cn_idempotent_rec(rest, st2);
            let x = cn(rest, st2);
            let whole = seq![c] + x;
            assert(whole.first() == c);
            assert(whole.drop_first() =~= x);
            assert(cn(whole, st) == if cleared(c, st2) {
                cn(x, st2)
            } else {
                seq![c] + cn(x, st2)
            });
        }
    }
}

/// The whitespace filter is idempotent: clearing an already cleared text
/// changes nothing, provided no dropped whitespace character stands in an
/// escaped position.
pub proof fn lemma_clearnull_idempotent(s: Seq<char>)
    requires
        ws_unescaped(s, LppStatus::init()),
    ensures
        spec_clearnull(spec_clearnull(s)) == spec_clearnull(s),
{
    lemma_cn_idempotent_rec(s, LppStatus::init());
}

/// The whitespace filter never lengthens a text.
pub proof fn lemma_cn_len(s: Seq<char>, st: LppStatus)
    ensures
        cn(s, st).len() <= s.len(),
    decreases s.len(),
{
    if s.len() > 0 {
        lemma_cn_len(s.drop_first(), spec_transfer(s.first(), st));
    }
}

/// The first position of a character in the text, from a given index on.
pub open spec fn find_char(s: Seq<char>, c: char, i: int) -> Option<int>
    decreases s.len() - i,
{
    if i < 0 || i >= s.len() {
        None
    } else if s[i] == c {
        Some(i)
    } else {
        find_char(s, c, i + 1)
    }
}

/// If a character occurs first at one position, the recursive search finds
/// exactly that position.
pub(crate) proof fn lemma_find_char_at(s: Seq<char>, c: char, j: int, i: int)
    requires
        0 <= j <= i < s.len(),
        s[i] == c,
        forall|k: int| j <= k < i ==> s[k] != c,
    ensures
        find_char(s, c, j) == Some(i),
    decreases i - j,
{
    if j < i {
        lemma_find_char_at(s, c, j + 1, i);
    }
}

/// If a character occurs nowhere in the text from a position on, the
/// recursive search finds nothing.
pub(crate) proof fn lemma_find_char_missing(s: Seq<char>, c: char, j: int)
    requires
        0 <= j,
        forall|k: int| j <= k < s.len() ==> s[k] != c,
    ensures
        find_char(s, c, j) is None,
    decreases s.len() - j,
{
    if j < s.len() {
        lemma_find_char_missing(s, c, j + 1);
    }
}

/// The first occurrence of a character in a range of the text.
pub(crate) fn scan_char(s: &str, from: usize, to: usize, c: char) -> (r: Option<usize>)
    requires
        from <= to <= s@.len(),
    ensures
        r matches Some(i) ==> from <= i < to && s@[i as int] == c && (forall|k: int|
            from <= k < i ==> s@[k] != c),
        r is None ==> forall|k: int| from <= k < to ==> s@[k] != c,
{
    let mut i: usize = from;
    while i < to
        invariant
            from <= i <= to <= s@.len(),
            forall|k: int| from <= k < i ==> s@[k] != c,
        decreases to - i,
    {
        if s.get_char(i) == c {
            return Some(i);
        }
        i = i + 1;
    }
    None
}


} // verus!
