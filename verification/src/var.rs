//! The value model: the dynamically typed variants, their text parser and
//! serializer, conversions, and the unary and binary operator semantics.

use vstd::prelude::*;
use crate::error::Error;
use crate::expr::ExprValue;
use crate::func::{ArgItem, FuncValue, StmtValue, spec_arg_text};
use crate::num::spec_num_text;
use crate::text::{covered_with, ulen, uslice};

verus! {

broadcast use vstd::std_specs::vec::group_vec_axioms;

/// A dynamically typed value: the closed set of variants the runtime
/// works with. A number carries the IEEE-754 bit pattern of a double; an
/// object keeps its fields sorted by key, each key held once.
#[derive(Debug)]
pub enum Var {
    Null,
    Boolean(bool),
    Number(u64),
    String(String),
    Array(Vec<Var>),
    Object(Vec<(String, Var)>),
    Function(FuncValue),
    Statement(StmtValue),
    Expression(ExprValue),
}

/// The type tag of a value, used to pick conversion targets and to filter
/// native-function overloads.
#[derive(PartialEq, Eq, Structural, Clone, Copy, Debug)]
pub enum ValueType {
    Null,
    Boolean,
    Number,
    String,
    Array,
    Object,
    Function,
    Statement,
    Expression,
}

/// The mathematical shadow of a value: the same tree over sequences.
pub enum VarT {
    Null,
    Boolean(bool),
    Number(u64),
    String(Seq<char>),
    Array(Seq<VarT>),
    Object(Seq<(Seq<char>, VarT)>),
    Function(Seq<(Seq<char>, Seq<char>)>, Seq<char>),
    Statement(Seq<char>),
    Expression(ExprT),
}

/// The mathematical shadow of a parsed expression.
pub enum ExprT {
    Expr(Seq<char>, Seq<char>, Seq<char>),
    Val(Seq<char>),
}

/// The shadow of a parsed expression value.
pub open spec fn eview(e: ExprValue) -> ExprT {
    match e {
        ExprValue::Expr(t) => ExprT::Expr(t.0@, t.1@, t.2@),
        ExprValue::Val(t) => ExprT::Val(t@),
    }
}

/// The shadows of a formal parameter list: each name with its default.
pub open spec fn aviews(args: Seq<ArgItem>) -> Seq<(Seq<char>, Seq<char>)> {
    Seq::new(args.len(), |i: int| (args[i].name@, args[i].value@))
}

/// The shadow of a value.
pub open spec fn vview(v: Var) -> VarT
    decreases v, 2int,
{
    match v {
        Var::Null => VarT::Null,
        Var::Boolean(b) => VarT::Boolean(b),
        Var::Number(n) => VarT::Number(n),
        Var::String(s) => VarT::String(s@),
        Var::Array(items) => VarT::Array(vviews(items, 0)),
        Var::Object(fields) => VarT::Object(fviews(fields, 0)),
        Var::Function(f) => VarT::Function(aviews(f.args@), f.value.value@),
        Var::Statement(st) => VarT::Statement(st.value@),
        Var::Expression(e) => VarT::Expression(eview(e)),
    }
}

/// The shadows of an array's elements, from a position on.
pub open spec fn vviews(items: Vec<Var>, i: int) -> Seq<VarT>
    decreases items, 1int, items@.len() - i,
{
    if i < 0 || i >= items@.len() {
        Seq::empty()
    } else {
        seq![vview(items@[i])] + vviews(items, i + 1)
    }
}

/// The shadow of one object field.
pub open spec fn pview(p: (String, Var)) -> (Seq<char>, VarT)
    decreases p, 3int,
{
    (p.0@, vview(p.1))
}

/// The shadows of an object's fields, from a position on.
pub open spec fn fviews(fields: Vec<(String, Var)>, i: int) -> Seq<(Seq<char>, VarT)>
    decreases fields, 4int, fields@.len() - i,
{
    if i < 0 || i >= fields@.len() {
        Seq::empty()
    } else {
        seq![pview(fields@[i])] + fviews(fields, i + 1)
    }
}

/// The element shadows line up with the elements.
pub proof fn lemma_vviews(items: Vec<Var>, j: int)
    requires
        0 <= j <= items@.len(),
    ensures
        vviews(items, j).len() == items@.len() - j,
        forall|k: int|
            0 <= k < items@.len() - j ==> #[trigger] vviews(items, j)[k] == vview(items@[j + k]),
    decreases items@.len() - j,
{
    if j < items@.len() {
        lemma_vviews(items, j + 1);
    }
}

/// The field shadows line up with the fields.
pub proof fn lemma_fviews(fields: Vec<(String, Var)>, j: int)
    requires
        0 <= j <= fields@.len(),
    ensures
        fviews(fields, j).len() == fields@.len() - j,
        forall|k: int|
            0 <= k < fields@.len() - j ==> #[trigger] fviews(fields, j)[k] == pview(
                fields@[j + k],
            ),
    decreases fields@.len() - j,
{
    if j < fields@.len() {
        lemma_fviews(fields, j + 1);
    }
}

/// The tag of a shadow; a function counts as object-like.
pub open spec fn spec_tp(t: VarT) -> ValueType {
    match t {
        VarT::Null => ValueType::Null,
        VarT::Boolean(_) => ValueType::Boolean,
        VarT::Number(_) => ValueType::Number,
        VarT::String(_) => ValueType::String,
        VarT::Array(_) => ValueType::Array,
        VarT::Object(_) => ValueType::Object,
        VarT::Function(_, _) => ValueType::Object,
        VarT::Statement(_) => ValueType::Statement,
        VarT::Expression(_) => ValueType::Expression,
    }
}

impl Var {
    pub fn new() -> (r: Self)
        ensures
            vview(r) == VarT::Null,
    {
        Var::Null
    }

    /// The type tag of this value.
    pub fn tp(&self) -> (r: ValueType)
        ensures
            r == spec_tp(vview(*self)),
    {
        match self {
            Var::Null => ValueType::Null,
            Var::Boolean(_) => ValueType::Boolean,
            Var::Number(_) => ValueType::Number,
            Var::String(_) => ValueType::String,
            Var::Array(_) => ValueType::Array,
            Var::Object(_) => ValueType::Object,
            Var::Function(_) => ValueType::Object,
            Var::Statement(_) => ValueType::Statement,
            Var::Expression(_) => ValueType::Expression,
        }
    }
}

/// Lexicographic order on texts by character value; for valid text this is
/// the order strings sort in.
pub open spec fn str_lt(a: Seq<char>, b: Seq<char>) -> bool
    decreases a.len(),
{
    if b.len() == 0 {
        false
    } else if a.len() == 0 {
        true
    } else if a[0] != b[0] {
        (a[0] as u32) < (b[0] as u32)
    } else {
        str_lt(a.drop_first(), b.drop_first())
    }
}

/// Lexicographic comparison of two texts.
pub fn str_less(a: &str, b: &str) -> (r: bool)
    ensures
        r == str_lt(a@, b@),
{
    let na = ulen(a);
    let nb = ulen(b);
    let mut i: usize = 0;
    proof {
        assert(a@.skip(0) =~= a@);
        assert(b@.skip(0) =~= b@);
    }
    loop
        invariant
            0 <= i <= na,
            i <= nb,
            na == a@.len(),
            nb == b@.len(),
            str_lt(a@, b@) == str_lt(a@.skip(i as int), b@.skip(i as int)),
        decreases na - i,
    {
        proof {
            assert(a@.skip(i as int).len() == na - i);
            assert(b@.skip(i as int).len() == nb - i);
        }
        if i >= nb {
            return false;
        }
        if i >= na {
            return true;
        }
        let ca = a.get_char(i);
        let cb = b.get_char(i);
        proof {
            let sa = a@.skip(i as int);
            let sb = b@.skip(i as int);
            assert(sa[0] == a@[i as int]);
            assert(sb[0] == b@[i as int]);
            assert(sa.drop_first() =~= a@.skip(i as int + 1));
            assert(sb.drop_first() =~= b@.skip(i as int + 1));
        }
        if ca != cb {
            return (ca as u32) < (cb as u32);
        }
        i = i + 1;
    }
}

/// Equality of two texts.
pub fn str_eq(a: &str, b: &str) -> (r: bool)
    ensures
        r == (a@ == b@),
{
    let na = ulen(a);
    let nb = ulen(b);
    if na != nb {
        return false;
    }
    let mut i: usize = 0;
    while i < na
        invariant
            0 <= i <= na,
            na == a@.len(),
            na == b@.len(),
            forall|k: int| 0 <= k < i ==> a@[k] == b@[k],
        decreases na - i,
    {
        if a.get_char(i) != b.get_char(i) {
            return false;
        }
        i = i + 1;
    }
    proof {
        assert(a@ =~= b@);
    }
    true
}

/// The shadow under a key in an object's fields: the first field with that
/// key, if any.
pub open spec fn tlookup(fields: Seq<(Seq<char>, VarT)>, key: Seq<char>) -> Option<VarT>
    decreases fields.len(),
{
    if fields.len() == 0 {
        None
    } else if fields[0].0 == key {
        Some(fields[0].1)
    } else {
        tlookup(fields.drop_first(), key)
    }
}

/// An object's fields after binding a key to a value: fields stay sorted
/// by key and each key is held once, the newest binding winning.
pub open spec fn tinsert(fields: Seq<(Seq<char>, VarT)>, key: Seq<char>, val: VarT) -> Seq<
    (Seq<char>, VarT),
>
    decreases fields.len(),
{
    if fields.len() == 0 {
        seq![(key, val)]
    } else if str_lt(key, fields[0].0) {
        seq![(key, val)] + fields
    } else if key == fields[0].0 {
        seq![(key, val)] + fields.drop_first()
    } else {
        seq![fields[0]] + tinsert(fields.drop_first(), key, val)
    }
}

/// Looks a key up in an object's field list.
pub fn obj_get<'a>(fields: &'a Vec<(String, Var)>, key: &str) -> (r: Option<&'a Var>)
    ensures
        r matches Some(v) ==> tlookup(fviews(*fields, 0), key@) == Some(vview(*v)),
        r is None ==> tlookup(fviews(*fields, 0), key@) is None,
{
    let ghost gf = fviews(*fields, 0);
    proof {
        lemma_fviews(*fields, 0);
        assert(gf.skip(0) =~= gf);
    }
    let mut i: usize = 0;
    while i < fields.len()
        invariant
            0 <= i <= fields@.len(),
            gf == fviews(*fields, 0),
            gf.len() == fields@.len(),
            forall|k: int| 0 <= k < gf.len() ==> #[trigger] gf[k] == pview(fields@[k]),
            tlookup(gf, key@) == tlookup(gf.skip(i as int), key@),
        decreases fields@.len() - i,
    {
        proof {
            assert(gf[i as int] == pview(fields@[i as int]));
            assert(gf.skip(i as int)[0] == gf[i as int]);
            assert(gf.skip(i as int).drop_first() =~= gf.skip(i as int + 1));
        }
        let hit = str_eq(fields[i].0.as_str(), key);
        if hit {
            proof {
                assert(tlookup(gf.skip(i as int), key@) == Some(gf[i as int].1));
            }
            return Some(&fields[i].1);
        }
        proof {
            assert(gf.skip(i as int)[0].0 != key@);
        }
        i = i + 1;
    }
    proof {
        assert(gf.skip(gf.len() as int) =~= Seq::<(Seq<char>, VarT)>::empty());
    }
    None
}

/// The lexicographic order is irreflexive.
pub proof fn lemma_str_lt_irrefl(a: Seq<char>)
    ensures
        !str_lt(a, a),
    decreases a.len(),
{
    if a.len() > 0 {
        lemma_str_lt_irrefl(a.drop_first());
    }
}

/// The lexicographic order is asymmetric.
pub proof fn lemma_str_lt_asym(a: Seq<char>, b: Seq<char>)
    requires
        str_lt(a, b),
    ensures
        !str_lt(b, a),
    decreases a.len(),
{
    if b.len() == 0 {
    } else if a.len() == 0 {
    } else if a[0] != b[0] {
    } else {
        lemma_str_lt_asym(a.drop_first(), b.drop_first());
    }
}

/// Two texts that neither precede one another are the same text.
pub proof fn lemma_str_lt_total(a: Seq<char>, b: Seq<char>)
    ensures
        str_lt(a, b) || str_lt(b, a) || a == b,
    decreases a.len(),
{
    if b.len() == 0 {
        if a.len() == 0 {
            assert(a =~= b);
        }
    } else if a.len() == 0 {
    } else if a[0] != b[0] {
        assert((a[0] as u32) != (b[0] as u32)) by {
            if (a[0] as u32) == (b[0] as u32) {
                vstd::utf8::char_u32_cast(a[0], a[0] as u32);
                vstd::utf8::char_u32_cast(b[0], b[0] as u32);
            }
        }
    } else {
        lemma_str_lt_total(a.drop_first(), b.drop_first());
        if !str_lt(a, b) && !str_lt(b, a) {
            assert(a.drop_first() == b.drop_first());
            assert(a =~= b) by {
                assert(a.len() == b.len());
                assert forall|k: int| 0 <= k < a.len() implies a[k] == b[k] by {
                    if k > 0 {
                        assert(a[k] == a.drop_first()[k - 1]);
                        assert(b[k] == b.drop_first()[k - 1]);
                    }
                }
            }
        }
    }
}

/// Splitting the recursive insertion at the position the scan found: when
/// every earlier key is smaller, the insertion rewrites exactly that spot.
proof fn lemma_tinsert_at(fields: Seq<(Seq<char>, VarT)>, key: Seq<char>, val: VarT, i: int)
    requires
        0 <= i <= fields.len(),
        forall|j: int| 0 <= j < i ==> str_lt((#[trigger] fields[j]).0, key),
        i < fields.len() ==> !str_lt(fields[i].0, key),
    ensures
        i < fields.len() && fields[i].0 == key ==> tinsert(fields, key, val) == fields.update(
            i,
            (key, val),
        ),
        !(i < fields.len() && fields[i].0 == key) ==> tinsert(fields, key, val) == fields.take(i)
            + seq![(key, val)] + fields.skip(i),
    decreases fields.len(),
{
    if fields.len() == 0 {
        assert(fields.take(0) + seq![(key, val)] + fields.skip(0) =~= seq![(key, val)]);
    } else if i == 0 {
        if fields[0].0 == key {
            assert(!str_lt(key, fields[0].0)) by {
                lemma_str_lt_irrefl(key);
            }
            assert(seq![(key, val)] + fields.drop_first() =~= fields.update(0, (key, val)));
        } else {
            assert(str_lt(key, fields[0].0)) by {
                lemma_str_lt_total(key, fields[0].0);
            }
            assert(fields.take(0) + seq![(key, val)] + fields.skip(0) =~= seq![(key, val)]
                + fields);
        }
    } else {
        assert(str_lt(fields[0].0, key));
        assert(!str_lt(key, fields[0].0)) by {
            lemma_str_lt_asym(fields[0].0, key);
        }
        assert(fields[0].0 != key) by {
            if fields[0].0 == key {
                lemma_str_lt_irrefl(key);
            }
        }
        let rest = fields.drop_first();
        assert forall|j: int| 0 <= j < i - 1 implies str_lt((#[trigger] rest[j]).0, key) by {
            assert(rest[j] == fields[j + 1]);
        }
        lemma_tinsert_at(rest, key, val, i - 1);
        if i < fields.len() && fields[i].0 == key {
            assert(rest[i - 1] == fields[i]);
            assert(seq![fields[0]] + rest.update(i - 1, (key, val)) =~= fields.update(
                i,
                (key, val),
            ));
        } else {
            assert(seq![fields[0]] + (rest.take(i - 1) + seq![(key, val)] + rest.skip(i - 1))
                =~= fields.take(i) + seq![(key, val)] + fields.skip(i));
        }
    }
}

/// Binds a key in an object's field list, keeping the list sorted and the
/// key unique.
pub fn obj_set(fields: &mut Vec<(String, Var)>, key: String, val: Var)
    ensures
        fviews(*final(fields), 0) == tinsert(fviews(*old(fields), 0), key@, vview(val)),
{
    let ghost gf = fviews(*old(fields), 0);
    proof {
        lemma_fviews(*old(fields), 0);
    }
    let mut i: usize = 0;
    let mut stop = false;
    while i < fields.len() && !stop
        invariant
            0 <= i <= fields@.len(),
            fields@ == old(fields)@,
            gf == fviews(*old(fields), 0),
            gf.len() == fields@.len(),
            forall|k: int| 0 <= k < gf.len() ==> #[trigger] gf[k] == pview(fields@[k]),
            forall|j: int| 0 <= j < i ==> str_lt((#[trigger] gf[j]).0, key@),
            stop ==> i < fields@.len() && !str_lt(gf[i as int].0, key@),
        decreases fields@.len() - i + (if stop { 0int } else { 1int }),
    {
        if !str_less(fields[i].0.as_str(), key.as_str()) {
            stop = true;
        } else {
            i = i + 1;
        }
    }
    proof {
        lemma_tinsert_at(gf, key@, vview(val), i as int);
    }
    let ghost gkv = (key@, vview(val));
    if i < fields.len() {
        let same = str_eq(fields[i].0.as_str(), key.as_str());
        if same {
            fields.set(i, (key, val));
            proof {
                lemma_fviews(*fields, 0);
                assert(fviews(*fields, 0) =~= gf.update(i as int, gkv));
            }
            return ;
        }
    }
    fields.insert(i, (key, val));
    proof {
        lemma_fviews(*fields, 0);
        assert(fviews(*fields, 0) =~= gf.take(i as int) + seq![gkv] + gf.skip(i as int));
    }
}

/// The escape sequence a character serializes to inside a string literal.
pub open spec fn esc_char(c: char) -> Seq<char> {
    if c == '\r' {
        seq!['\\', 'r']
    } else if c == '\t' {
        seq!['\\', 't']
    } else if c == '\u{0}' {
        seq!['\\', '0']
    } else if c == '\n' {
        seq!['\\', 'n']
    } else if c == '\\' || c == '\'' || c == '"' {
        seq!['\\', c]
    } else {
        seq![c]
    }
}

/// The escaped form of string contents, from a position on.
pub open spec fn esc_text(s: Seq<char>, i: int) -> Seq<char>
    decreases s.len() - i,
{
    if i < 0 || i >= s.len() {
        Seq::empty()
    } else {
        esc_char(s[i]) + esc_text(s, i + 1)
    }
}

/// The serialized text `<error-type>` of the variants that have no
/// faithful serialization.
pub open spec fn err_text() -> Seq<char> {
    seq!['<', 'e', 'r', 'r', 'o', 'r', '-', 't', 'y', 'p', 'e', '>']
}

/// The serialized parameter list of a function shadow.
pub open spec fn targs_text(args: Seq<(Seq<char>, Seq<char>)>, i: int) -> Seq<char>
    decreases args.len() - i,
{
    if i < 0 || i >= args.len() {
        Seq::empty()
    } else if i + 1 < args.len() {
        spec_arg_text(args[i].0, args[i].1) + seq![','] + targs_text(args, i + 1)
    } else {
        spec_arg_text(args[i].0, args[i].1)
    }
}

/// The serialized text of a function shadow.
pub open spec fn tfunc_text(args: Seq<(Seq<char>, Seq<char>)>, body: Seq<char>) -> Seq<char> {
    seq!['f', 'u', 'n', 'c', '('] + targs_text(args, 0) + seq![')'] + seq!['{'] + body + seq!['}']
}

/// The serialized text of a value shadow: `null`, a boolean word, the
/// decimal text of a number, a quoted and escaped string, a bracketed
/// array, a braced object with quoted keys, a function header with its
/// body, and `<error-type>` for a raw statement or expression.
pub open spec fn to_text(t: VarT) -> Seq<char>
    decreases t, 1int,
{
    match t {
        VarT::Null => seq!['n', 'u', 'l', 'l'],
        VarT::Boolean(b) => if b {
            seq!['t', 'r', 'u', 'e']
        } else {
            seq!['f', 'a', 'l', 's', 'e']
        },
        VarT::Number(n) => spec_num_text(n),
        VarT::String(s) => seq!['"'] + esc_text(s, 0) + seq!['"'],
        VarT::Array(ts) => seq!['['] + arr_text(ts, 0) + seq![']'],
        VarT::Object(fs) => seq!['{'] + obj_text(fs, 0) + seq!['}'],
        VarT::Function(args, body) => tfunc_text(args, body),
        VarT::Statement(_) => err_text(),
        VarT::Expression(_) => err_text(),
    }
}

/// The serialized elements of an array shadow, comma separated.
pub open spec fn arr_text(ts: Seq<VarT>, i: int) -> Seq<char>
    decreases ts, 0int, ts.len() - i,
{
    if i < 0 || i >= ts.len() {
        Seq::empty()
    } else if i + 1 < ts.len() {
        to_text(ts[i]) + seq![','] + arr_text(ts, i + 1)
    } else {
        to_text(ts[i])
    }
}

/// The serialized text of one object field: the quoted key and the value.
pub open spec fn field_text(p: (Seq<char>, VarT)) -> Seq<char>
    decreases p, 2int,
{
    seq!['"'] + esc_text(p.0, 0) + seq!['"', ':'] + to_text(p.1)
}

/// The serialized fields of an object shadow, comma separated.
pub open spec fn obj_text(fs: Seq<(Seq<char>, VarT)>, i: int) -> Seq<char>
    decreases fs, 3int, fs.len() - i,
{
    if i < 0 || i >= fs.len() {
        Seq::empty()
    } else if i + 1 < fs.len() {
        field_text(fs[i]) + seq![','] + obj_text(fs, i + 1)
    } else {
        field_text(fs[i])
    }
}

/// The two spellings of a parameter list text agree.
proof fn lemma_targs_text(args: Seq<ArgItem>, i: int)
    ensures
        targs_text(aviews(args), i) == crate::func::fargs_text(args, i),
    decreases args.len() - i,
{
    if 0 <= i < args.len() {
        lemma_targs_text(args, i + 1);
    }
}

/// Appends the escaped form of string contents.
fn push_escaped(out: &mut String, s: &str)
    ensures
        final(out)@ == old(out)@ + esc_text(s@, 0),
{
    let n = ulen(s);
    let mut i: usize = 0;
    while i < n
        invariant
            0 <= i <= n,
            n == s@.len(),
            old(out)@ + esc_text(s@, 0) == out@ + esc_text(s@, i as int),
        decreases n - i,
    {
        let c = s.get_char(i);
        let ghost pre = out@;
        if c == '\r' {
            out.push('\\');
            out.push('r');
        } else if c == '\t' {
            out.push('\\');
            out.push('t');
        } else if c == '\u{0}' {
            out.push('\\');
            out.push('0');
        } else if c == '\n' {
            out.push('\\');
            out.push('n');
        } else if c == '\\' || c == '\'' || c == '"' {
            out.push('\\');
            out.push(c);
        } else {
            out.push(c);
        }
        proof {
            assert(out@ =~= pre + esc_char(s@[i as int]));
            assert(pre + esc_char(s@[i as int]) + esc_text(s@, i as int + 1) =~= pre + (esc_char(
                s@[i as int],
            ) + esc_text(s@, i as int + 1)));
        }
        i = i + 1;
    }
}

impl Var {
    /// Serializes the value; raw statements and expressions have no
    /// faithful form and serialize as `<error-type>`.
    #[verifier::loop_isolation(false)]
    pub fn to_string(&self) -> (r: String)
        ensures
            r@ == to_text(vview(*self)),
        decreases *self,
    {
        match self {
            Var::Null => {
                let r = "null".to_owned();
                proof {
                    reveal_strlit("null");
                    assert(r@ =~= to_text(vview(*self)));
                }
                r
            },
            Var::Boolean(b) => {
                if *b {
                    let r = "true".to_owned();
                    proof {
                        reveal_strlit("true");
                        assert(r@ =~= to_text(vview(*self)));
                    }
                    r
                } else {
                    let r = "false".to_owned();
                    proof {
                        reveal_strlit("false");
                        assert(r@ =~= to_text(vview(*self)));
                    }
                    r
                }
            },
            Var::Number(n) => crate::num::num_to_text(*n),
            Var::String(s) => {
                let mut out = String::new();
                out.push('"');
                push_escaped(&mut out, s.as_str());
                out.push('"');
                proof {
                    assert(out@ =~= seq!['"'] + esc_text(s@, 0) + seq!['"']);
                }
                out
            },
            Var::Array(items) => {
                let ghost ts = vviews(*items, 0);
                proof {
                    lemma_vviews(*items, 0);
                }
                let mut out = String::new();
                out.push('[');
                let mut i: usize = 0;
                while i < items.len()
                    invariant
                        0 <= i <= items@.len(),
                        ts == vviews(*items, 0),
                        ts.len() == items@.len(),
                        forall|k: int| 0 <= k < ts.len() ==> #[trigger] ts[k] == vview(items@[k]),
                        seq!['['] + arr_text(ts, 0) == out@ + arr_text(ts, i as int),
                    decreases items@.len() - i,
                {
                    proof {
                        let vv = *self;
                        assert(vv is Array);
                        assert(vv->Array_0 == *items);
                        assert(decreases_to!(vv => vv->Array_0));
                        assert(decreases_to!(vv->Array_0 => vv->Array_0@));
                        assert(decreases_to!(vv->Array_0@ => vv->Array_0@[i as int]));
                        assert(vv->Array_0@[i as int] == items@[i as int]);
                    }
                    let t = items[i].to_string();
                    out.append(t.as_str());
                    if i + 1 < items.len() {
                        out.push(',');
                    }
                    i = i + 1;
                }
                out.push(']');
                proof {
                    assert(arr_text(ts, ts.len() as int) == Seq::<char>::empty());
                    assert(out@ =~= to_text(vview(*self)));
                }
                out
            },
            Var::Object(fields) => {
                let ghost fs = fviews(*fields, 0);
                proof {
                    lemma_fviews(*fields, 0);
                }
                let mut out = String::new();
                out.push('{');
                let mut i: usize = 0;
                while i < fields.len()
                    invariant
                        0 <= i <= fields@.len(),
                        fs == fviews(*fields, 0),
                        fs.len() == fields@.len(),
                        forall|k: int| 0 <= k < fs.len() ==> #[trigger] fs[k] == pview(fields@[k]),
                        seq!['{'] + obj_text(fs, 0) == out@ + obj_text(fs, i as int),
                    decreases fields@.len() - i,
                {
                    let ghost pre = out@;
                    out.push('"');
                    push_escaped(&mut out, fields[i].0.as_str());
                    out.push('"');
                    out.push(':');
                    proof {
                        let vv = *self;
                        assert(vv is Object);
                        assert(vv->Object_0 == *fields);
                        assert(decreases_to!(vv => vv->Object_0));
                        assert(decreases_to!(vv->Object_0 => vv->Object_0@));
                        assert(decreases_to!(vv->Object_0@ => vv->Object_0@[i as int]));
                        assert(decreases_to!(vv->Object_0@[i as int] => vv->Object_0@[i as int].1));
                        assert(vv->Object_0@[i as int].1 == fields@[i as int].1);
                    }
                    let t = fields[i].1.to_string();
                    out.append(t.as_str());
                    proof {
                        assert(out@ =~= pre + field_text(fs[i as int]));
                    }
                    if i + 1 < fields.len() {
                        out.push(',');
                    }
                    i = i + 1;
                }
                out.push('}');
                proof {
                    assert(obj_text(fs, fs.len() as int) == Seq::<char>::empty());
                    assert(out@ =~= to_text(vview(*self)));
                }
                out
            },
            Var::Function(f) => {
                let r = f.to_string();
                proof {
                    lemma_targs_text(f.args@, 0);
                    assert(r@ =~= to_text(vview(*self)));
                }
                r
            },
            Var::Statement(_) => {
                let r = "<error-type>".to_owned();
                proof {
                    reveal_strlit("<error-type>");
                    assert(r@ =~= err_text());
                }
                r
            },
            Var::Expression(_) => {
                let r = "<error-type>".to_owned();
                proof {
                    reveal_strlit("<error-type>");
                    assert(r@ =~= err_text());
                }
                r
            },
        }
    }

    /// A deep copy: the copy's shadow equals the original's.
    #[verifier::loop_isolation(false)]
    pub fn duplicate(&self) -> (r: Var)
        ensures
            vview(r) == vview(*self),
        decreases *self,
    {
        match self {
            Var::Null => Var::Null,
            Var::Boolean(b) => Var::Boolean(*b),
            Var::Number(n) => Var::Number(*n),
            Var::String(s) => Var::String(s.clone()),
            Var::Array(items) => {
                let mut out: Vec<Var> = Vec::new();
                let mut i: usize = 0;
                while i < items.len()
                    invariant
                        0 <= i <= items@.len(),
                        out@.len() == i,
                        forall|k: int|
                            0 <= k < i ==> vview(#[trigger] out@[k]) == vview(items@[k]),
                    decreases items@.len() - i,
                {
                    proof {
                        let vv = *self;
                        assert(vv is Array);
                        assert(vv->Array_0 == *items);
                        assert(decreases_to!(vv => vv->Array_0));
                        assert(decreases_to!(vv->Array_0 => vv->Array_0@));
                        assert(decreases_to!(vv->Array_0@ => vv->Array_0@[i as int]));
                        assert(vv->Array_0@[i as int] == items@[i as int]);
                    }
                    out.push(items[i].duplicate());
                    i = i + 1;
                }
                proof {
                    lemma_vviews(*items, 0);
                    lemma_vviews(out, 0);
                    assert(vviews(out, 0) =~= vviews(*items, 0));
                }
                Var::Array(out)
            },
            Var::Object(fields) => {
                let mut out: Vec<(String, Var)> = Vec::new();
                let mut i: usize = 0;
                while i < fields.len()
                    invariant
                        0 <= i <= fields@.len(),
                        out@.len() == i,
                        forall|k: int| 0 <= k < i ==> #[trigger] pview(out@[k]) == pview(
                            fields@[k],
                        ),
                    decreases fields@.len() - i,
                {
                    let k = fields[i].0.clone();
                    proof {
                        let vv = *self;
                        assert(vv is Object);
                        assert(vv->Object_0 == *fields);
                        assert(decreases_to!(vv => vv->Object_0));
                        assert(decreases_to!(vv->Object_0 => vv->Object_0@));
                        assert(decreases_to!(vv->Object_0@ => vv->Object_0@[i as int]));
                        assert(decreases_to!(vv->Object_0@[i as int] => vv->Object_0@[i as int].1));
                        assert(vv->Object_0@[i as int].1 == fields@[i as int].1);
                    }
                    let v = fields[i].1.duplicate();
                    out.push((k, v));
                    i = i + 1;
                }
                proof {
                    lemma_fviews(*fields, 0);
                    lemma_fviews(out, 0);
                    assert(fviews(out, 0) =~= fviews(*fields, 0));
                }
                Var::Object(out)
            },
            Var::Function(f) => {
                let mut args: Vec<ArgItem> = Vec::new();
                let mut i: usize = 0;
                while i < f.args.len()
                    invariant
                        0 <= i <= f.args@.len(),
                        args@.len() == i,
                        forall|k: int|
                            0 <= k < i ==> (#[trigger] args@[k]).name@ == f.args@[k].name@
                                && args@[k].value@ == f.args@[k].value@,
                    decreases f.args@.len() - i,
                {
                    args.push(
                        ArgItem { name: f.args[i].name.clone(), value: f.args[i].value.clone() },
                    );
                    i = i + 1;
                }
                proof {
                    assert(aviews(args@) =~~= aviews(f.args@));
                }
                Var::Function(FuncValue { args, value: StmtValue { value: f.value.value.clone() } })
            },
            Var::Statement(st) => Var::Statement(StmtValue { value: st.value.clone() }),
            Var::Expression(e) => match e {
                ExprValue::Expr(t) => Var::Expression(
                    ExprValue::Expr((t.0.clone(), t.1.clone(), t.2.clone())),
                ),
                ExprValue::Val(t) => Var::Expression(ExprValue::Val(t.clone())),
            },
        }
    }
}

/// Whether a shadow converts to true: a boolean itself, or a number other
/// than zero (a NaN counts as true).
pub open spec fn truthy(t: VarT) -> bool {
    match t {
        VarT::Boolean(b) => b,
        VarT::Number(n) => !crate::num::num_eq(n, crate::num::ZERO_BITS),
        _ => false,
    }
}

/// The numeric pattern a shadow converts to: a number itself, a boolean as
/// one or zero.
pub open spec fn numval(t: VarT) -> u64 {
    match t {
        VarT::Number(n) => n,
        VarT::Boolean(b) => if b {
            crate::num::ONE_BITS
        } else {
            crate::num::ZERO_BITS
        },
        _ => crate::num::ZERO_BITS,
    }
}

/// The text a shadow converts to: a string's own contents, anything else
/// its serialized text.
pub open spec fn conv_str(t: VarT) -> Seq<char> {
    match t {
        VarT::String(s) => s,
        _ => to_text(t),
    }
}

/// Whether a value of this shadow converts to the given target tag.
pub open spec fn convertible(t: VarT, tp: ValueType) -> bool {
    match tp {
        ValueType::Null => t is Null,
        ValueType::Boolean => t is Boolean || t is Number,
        ValueType::Number => t is Number || t is Boolean,
        ValueType::String => true,
        ValueType::Array => t is Array,
        ValueType::Object => t is Object,
        _ => false,
    }
}

/// How a converted value relates to its source: the unique result for
/// every admissible target tag.
pub open spec fn conv_rel(a: VarT, tp: ValueType, v: VarT) -> bool {
    match tp {
        ValueType::Null => v is Null,
        ValueType::Boolean => v == VarT::Boolean(truthy(a)),
        ValueType::Number => v == VarT::Number(numval(a)),
        ValueType::String => v == VarT::String(conv_str(a)),
        ValueType::Array => v == a,
        ValueType::Object => v == a,
        _ => false,
    }
}

/// Structural equality of two shadows without any coercion, at every
/// level: the identity comparison.
pub open spec fn eq_strict(a: VarT, b: VarT) -> bool
    decreases a, 1int,
{
    match a {
        VarT::Null => b is Null,
        VarT::Boolean(x) => b matches VarT::Boolean(y) && x == y,
        VarT::Number(x) => b matches VarT::Number(y) && crate::num::num_eq(x, y),
        VarT::String(x) => b matches VarT::String(y) && x == y,
        VarT::Array(xs) => b matches VarT::Array(ys) && xs.len() == ys.len() && arr_eq_strict(
            xs,
            ys,
        ),
        VarT::Object(xs) => b matches VarT::Object(ys) && xs.len() == ys.len() && obj_eq_strict(
            xs,
            ys,
        ),
        VarT::Function(fa, ba) => b matches VarT::Function(fb, bb) && fa == fb && ba == bb,
        VarT::Statement(_) => false,
        VarT::Expression(_) => false,
    }
}

/// Pairwise identity of two element sequences.
pub open spec fn arr_eq_strict(xs: Seq<VarT>, ys: Seq<VarT>) -> bool
    decreases xs, 0int,
{
    if xs.len() != ys.len() {
        false
    } else if xs.len() == 0 {
        true
    } else {
        eq_strict(xs[0], ys[0]) && arr_eq_strict(xs.drop_first(), ys.drop_first())
    }
}

/// One field found and identical in the other object.
pub open spec fn pair_eq_strict(p: (Seq<char>, VarT), ys: Seq<(Seq<char>, VarT)>) -> bool
    decreases p, 0int,
{
    match tlookup(ys, p.0) {
        Some(w) => eq_strict(p.1, w),
        None => false,
    }
}

/// Every field found and identical in the other object.
pub open spec fn obj_eq_strict(xs: Seq<(Seq<char>, VarT)>, ys: Seq<(Seq<char>, VarT)>) -> bool
    decreases xs, 1int,
{
    if xs.len() == 0 {
        true
    } else {
        pair_eq_strict(xs[0], ys) && obj_eq_strict(xs.drop_first(), ys)
    }
}

/// Coercing equality: the left side is first converted to the right
/// side's tag (a failed conversion compares as false), and elements of
/// arrays and objects are compared the same coercing way.
pub open spec fn eq_loose(a: VarT, b: VarT) -> bool
    decreases a, 1int,
{
    match spec_tp(b) {
        ValueType::Null => a is Null && b is Null,
        ValueType::Boolean => (a is Boolean || a is Number) && (b matches VarT::Boolean(y)
            && truthy(a) == y),
        ValueType::Number => (a is Number || a is Boolean) && (b matches VarT::Number(y)
            && crate::num::num_eq(numval(a), y)),
        ValueType::String => b matches VarT::String(y) && conv_str(a) == y,
        ValueType::Array => a matches VarT::Array(xs) && b matches VarT::Array(ys) && xs.len()
            == ys.len() && arr_eq_loose(xs, ys),
        ValueType::Object => a matches VarT::Object(xs) && b matches VarT::Object(ys) && xs.len()
            == ys.len() && obj_eq_loose(xs, ys),
        _ => false,
    }
}

/// Pairwise coercing equality of two element sequences.
pub open spec fn arr_eq_loose(xs: Seq<VarT>, ys: Seq<VarT>) -> bool
    decreases xs, 0int,
{
    if xs.len() != ys.len() {
        false
    } else if xs.len() == 0 {
        true
    } else {
        eq_loose(xs[0], ys[0]) && arr_eq_loose(xs.drop_first(), ys.drop_first())
    }
}

/// One field found and coercion-equal in the other object.
pub open spec fn pair_eq_loose(p: (Seq<char>, VarT), ys: Seq<(Seq<char>, VarT)>) -> bool
    decreases p, 0int,
{
    match tlookup(ys, p.0) {
        Some(w) => eq_loose(p.1, w),
        None => false,
    }
}

/// Every field found and coercion-equal in the other object.
pub open spec fn obj_eq_loose(xs: Seq<(Seq<char>, VarT)>, ys: Seq<(Seq<char>, VarT)>) -> bool
    decreases xs, 1int,
{
    if xs.len() == 0 {
        true
    } else {
        pair_eq_loose(xs[0], ys) && obj_eq_loose(xs.drop_first(), ys)
    }
}

/// The equality the structural comparison applies when both sides already
/// carry the same tag: scalars compare directly, elements the coercing
/// way, functions as whole values.
pub open spec fn eq_loose_at(a: VarT, b: VarT) -> bool {
    match a {
        VarT::Null => b is Null,
        VarT::Boolean(x) => b matches VarT::Boolean(y) && x == y,
        VarT::Number(x) => b matches VarT::Number(y) && crate::num::num_eq(x, y),
        VarT::String(x) => b matches VarT::String(y) && x == y,
        VarT::Array(xs) => b matches VarT::Array(ys) && xs.len() == ys.len() && arr_eq_loose(
            xs,
            ys,
        ),
        VarT::Object(xs) => b matches VarT::Object(ys) && xs.len() == ys.len() && obj_eq_loose(
            xs,
            ys,
        ),
        VarT::Function(fa, ba) => b matches VarT::Function(fb, bb) && fa == fb && ba == bb,
        VarT::Statement(_) => false,
        VarT::Expression(_) => false,
    }
}

/// Strict order at equal tags: numbers numerically, strings
/// lexicographically, anything else false.
pub open spec fn gt_at(a: VarT, b: VarT) -> bool {
    match a {
        VarT::Number(x) => b matches VarT::Number(y) && crate::num::num_lt(y, x),
        VarT::String(x) => b matches VarT::String(y) && str_lt(y, x),
        _ => false,
    }
}

/// Strict order at equal tags, the other way round.
pub open spec fn lt_at(a: VarT, b: VarT) -> bool {
    match a {
        VarT::Number(x) => b matches VarT::Number(y) && crate::num::num_lt(x, y),
        VarT::String(x) => b matches VarT::String(y) && str_lt(x, y),
        _ => false,
    }
}

/// The comparison operator tokens.
pub open spec fn cmp_op_known(op: Seq<char>) -> bool {
    ||| op == seq!['=', '=']
    ||| op == seq!['!', '=']
    ||| op == seq!['=', '=', '=']
    ||| op == seq!['!', '=', '=']
    ||| op == seq!['>']
    ||| op == seq!['<']
    ||| op == seq!['>', '=']
    ||| op == seq!['<', '=']
}

/// What the structural comparison answers for each operator, the left
/// side taken as already converted.
pub open spec fn cmp_eval(a: VarT, op: Seq<char>, b: VarT) -> bool {
    if op == seq!['=', '=', '='] {
        eq_strict(a, b)
    } else if op == seq!['=', '='] {
        eq_loose_at(a, b)
    } else if op == seq!['!', '='] {
        !eq_loose_at(a, b)
    } else if op == seq!['!', '=', '='] {
        !eq_strict(a, b)
    } else if op == seq!['>'] {
        gt_at(a, b)
    } else if op == seq!['<'] {
        lt_at(a, b)
    } else if op == seq!['>', '='] {
        !lt_at(a, b)
    } else if op == seq!['<', '='] {
        !gt_at(a, b)
    } else {
        false
    }
}

/// Pairwise coercing equality agrees with its pointwise reading.
proof fn lemma_arr_eq_loose(xs: Seq<VarT>, ys: Seq<VarT>)
    requires
        xs.len() == ys.len(),
    ensures
        arr_eq_loose(xs, ys) <==> (forall|i: int|
            0 <= i < xs.len() ==> eq_loose(#[trigger] xs[i], ys[i])),
    decreases xs.len(),
{
    if xs.len() > 0 {
        lemma_arr_eq_loose(xs.drop_first(), ys.drop_first());
        assert forall|i: int| 1 <= i < xs.len() implies xs[i] == xs.drop_first()[i - 1]
            && ys[i] == ys.drop_first()[i - 1] by {}
        if forall|i: int| 0 <= i < xs.len() ==> eq_loose(#[trigger] xs[i], ys[i]) {
            assert forall|i: int|
                0 <= i < xs.drop_first().len() implies eq_loose(
                #[trigger] xs.drop_first()[i],
                ys.drop_first()[i],
            ) by {
                assert(xs.drop_first()[i] == xs[i + 1]);
                assert(ys.drop_first()[i] == ys[i + 1]);
            }
        }
    }
}

/// Pairwise identity agrees with its pointwise reading.
proof fn lemma_arr_eq_strict(xs: Seq<VarT>, ys: Seq<VarT>)
    requires
        xs.len() == ys.len(),
    ensures
        arr_eq_strict(xs, ys) <==> (forall|i: int|
            0 <= i < xs.len() ==> eq_strict(#[trigger] xs[i], ys[i])),
    decreases xs.len(),
{
    if xs.len() > 0 {
        lemma_arr_eq_strict(xs.drop_first(), ys.drop_first());
        assert forall|i: int| 1 <= i < xs.len() implies xs[i] == xs.drop_first()[i - 1]
            && ys[i] == ys.drop_first()[i - 1] by {}
        if forall|i: int| 0 <= i < xs.len() ==> eq_strict(#[trigger] xs[i], ys[i]) {
            assert forall|i: int|
                0 <= i < xs.drop_first().len() implies eq_strict(
                #[trigger] xs.drop_first()[i],
                ys.drop_first()[i],
            ) by {
                assert(xs.drop_first()[i] == xs[i + 1]);
                assert(ys.drop_first()[i] == ys[i + 1]);
            }
        }
    }
}

/// Fieldwise coercing equality agrees with its pointwise reading.
proof fn lemma_obj_eq_loose(xs: Seq<(Seq<char>, VarT)>, ys: Seq<(Seq<char>, VarT)>)
    ensures
        obj_eq_loose(xs, ys) <==> (forall|i: int|
            0 <= i < xs.len() ==> pair_eq_loose(#[trigger] xs[i], ys)),
    decreases xs.len(),
{
    if xs.len() > 0 {
        lemma_obj_eq_loose(xs.drop_first(), ys);
        if forall|i: int| 0 <= i < xs.len() ==> pair_eq_loose(#[trigger] xs[i], ys) {
            assert forall|i: int|
                0 <= i < xs.drop_first().len() implies pair_eq_loose(
                #[trigger] xs.drop_first()[i],
                ys,
            ) by {
                assert(xs.drop_first()[i] == xs[i + 1]);
            }
        }
        if obj_eq_loose(xs, ys) {
            assert forall|i: int| 0 <= i < xs.len() implies pair_eq_loose(#[trigger] xs[i], ys) by {
                if i > 0 {
                    assert(xs[i] == xs.drop_first()[i - 1]);
                }
            }
        }
    }
}

/// Fieldwise identity agrees with its pointwise reading.
proof fn lemma_obj_eq_strict(xs: Seq<(Seq<char>, VarT)>, ys: Seq<(Seq<char>, VarT)>)
    ensures
        obj_eq_strict(xs, ys) <==> (forall|i: int|
            0 <= i < xs.len() ==> pair_eq_strict(#[trigger] xs[i], ys)),
    decreases xs.len(),
{
    if xs.len() > 0 {
        lemma_obj_eq_strict(xs.drop_first(), ys);
        if forall|i: int| 0 <= i < xs.len() ==> pair_eq_strict(#[trigger] xs[i], ys) {
            assert forall|i: int|
                0 <= i < xs.drop_first().len() implies pair_eq_strict(
                #[trigger] xs.drop_first()[i],
                ys,
            ) by {
                assert(xs.drop_first()[i] == xs[i + 1]);
            }
        }
        if obj_eq_strict(xs, ys) {
            assert forall|i: int|
                0 <= i < xs.len() implies pair_eq_strict(#[trigger] xs[i], ys) by {
                if i > 0 {
                    assert(xs[i] == xs.drop_first()[i - 1]);
                }
            }
        }
    }
}

/// Coercing equality of two values.
#[verifier::loop_isolation(false)]
fn eq_loose_exec(a: &Var, b: &Var) -> (r: bool)
    ensures
        r == eq_loose(vview(*a), vview(*b)),
    decreases *a,
{
    match b {
        Var::Null => match a {
            Var::Null => true,
            _ => false,
        },
        Var::Boolean(y) => match a {
            Var::Boolean(x) => *x == *y,
            Var::Number(n) => !crate::num::nums_equal(*n, crate::num::ZERO_BITS) == *y,
            _ => false,
        },
        Var::Number(y) => match a {
            Var::Number(n) => crate::num::nums_equal(*n, *y),
            Var::Boolean(x) => crate::num::nums_equal(
                if *x {
                    crate::num::ONE_BITS
                } else {
                    crate::num::ZERO_BITS
                },
                *y,
            ),
            _ => false,
        },
        Var::String(y) => {
            let sa = match a {
                Var::String(s) => s.clone(),
                _ => a.to_string(),
            };
            str_eq(sa.as_str(), y.as_str())
        },
        Var::Array(ys) => match a {
            Var::Array(xs) => {
                let ghost gx = vviews(*xs, 0);
                let ghost gy = vviews(*ys, 0);
                proof {
                    lemma_vviews(*xs, 0);
                    lemma_vviews(*ys, 0);
                }
                if xs.len() != ys.len() {
                    return false;
                }
                let mut i: usize = 0;
                let mut good = true;
                while i < xs.len()
                    invariant
                        0 <= i <= xs@.len(),
                        good ==> forall|k: int| 0 <= k < i ==> eq_loose(#[trigger] gx[k], gy[k]),
                        !good ==> !(forall|k: int|
                            0 <= k < gx.len() ==> eq_loose(#[trigger] gx[k], gy[k])),
                    decreases xs@.len() - i,
                {
                    proof {
                        let vv = *a;
                        assert(vv is Array);
                        assert(vv->Array_0 == *xs);
                        assert(decreases_to!(vv => vv->Array_0));
                        assert(decreases_to!(vv->Array_0 => vv->Array_0@));
                        assert(decreases_to!(vv->Array_0@ => vv->Array_0@[i as int]));
                        assert(vv->Array_0@[i as int] == xs@[i as int]);
                    }
                    let e = eq_loose_exec(&xs[i], &ys[i]);
                    if !e {
                        good = false;
                    }
                    proof {
                        if !e {
                            assert(gx[i as int] == vview(xs@[i as int]));
                            assert(gy[i as int] == vview(ys@[i as int]));
                        }
                    }
                    i = i + 1;
                }
                proof {
                    lemma_arr_eq_loose(gx, gy);
                }
                good
            },
            _ => false,
        },
        Var::Object(ys) => match a {
            Var::Object(xs) => {
                let ghost gx = fviews(*xs, 0);
                let ghost gy = fviews(*ys, 0);
                proof {
                    lemma_fviews(*xs, 0);
                    lemma_fviews(*ys, 0);
                }
                if xs.len() != ys.len() {
                    return false;
                }
                let mut i: usize = 0;
                let mut good = true;
                while i < xs.len()
                    invariant
                        0 <= i <= xs@.len(),
                        good ==> forall|k: int| 0 <= k < i ==> pair_eq_loose(#[trigger] gx[k], gy),
                        !good ==> !(forall|k: int|
                            0 <= k < gx.len() ==> pair_eq_loose(#[trigger] gx[k], gy)),
                    decreases xs@.len() - i,
                {
                    match obj_get(ys, xs[i].0.as_str()) {
                        Some(w) => {
                            proof {
                                let vv = *a;
                                assert(vv is Object);
                                assert(vv->Object_0 == *xs);
                                assert(decreases_to!(vv => vv->Object_0));
                                assert(decreases_to!(vv->Object_0 => vv->Object_0@));
                                assert(decreases_to!(vv->Object_0@ => vv->Object_0@[i as int]));
                                assert(decreases_to!(vv->Object_0@[i as int] => vv->Object_0@[i as int].1));
                                assert(vv->Object_0@[i as int].1 == xs@[i as int].1);
                            }
                            let e = eq_loose_exec(&xs[i].1, w);
                            if !e {
                                proof {
                                    assert(gx[i as int] == pview(xs@[i as int]));
                                    assert(!pair_eq_loose(gx[i as int], gy));
                                }
                                good = false;
                            } else {
                                proof {
                                    assert(gx[i as int] == pview(xs@[i as int]));
                                    assert(pair_eq_loose(gx[i as int], gy));
                                }
                            }
                        },
                        None => {
                            proof {
                                assert(gx[i as int] == pview(xs@[i as int]));
                                assert(!pair_eq_loose(gx[i as int], gy));
                            }
                            good = false;
                        },
                    }
                    i = i + 1;
                }
                proof {
                    lemma_obj_eq_loose(gx, gy);
                }
                good
            },
            _ => false,
        },
        Var::Function(_) => false,
        Var::Statement(_) => false,
        Var::Expression(_) => false,
    }
}

/// Identity comparison of two values.
#[verifier::loop_isolation(false)]
fn eq_strict_exec(a: &Var, b: &Var) -> (r: bool)
    ensures
        r == eq_strict(vview(*a), vview(*b)),
    decreases *a,
{
    match a {
        Var::Null => match b {
            Var::Null => true,
            _ => false,
        },
        Var::Boolean(x) => match b {
            Var::Boolean(y) => *x == *y,
            _ => false,
        },
        Var::Number(x) => match b {
            Var::Number(y) => crate::num::nums_equal(*x, *y),
            _ => false,
        },
        Var::String(x) => match b {
            Var::String(y) => str_eq(x.as_str(), y.as_str()),
            _ => false,
        },
        Var::Array(xs) => match b {
            Var::Array(ys) => {
                let ghost gx = vviews(*xs, 0);
                let ghost gy = vviews(*ys, 0);
                proof {
                    lemma_vviews(*xs, 0);
                    lemma_vviews(*ys, 0);
                }
                if xs.len() != ys.len() {
                    return false;
                }
                let mut i: usize = 0;
                let mut good = true;
                while i < xs.len()
                    invariant
                        0 <= i <= xs@.len(),
                        good ==> forall|k: int| 0 <= k < i ==> eq_strict(#[trigger] gx[k], gy[k]),
                        !good ==> !(forall|k: int|
                            0 <= k < gx.len() ==> eq_strict(#[trigger] gx[k], gy[k])),
                    decreases xs@.len() - i,
                {
                    proof {
                        let vv = *a;
                        assert(vv is Array);
                        assert(vv->Array_0 == *xs);
                        assert(decreases_to!(vv => vv->Array_0));
                        assert(decreases_to!(vv->Array_0 => vv->Array_0@));
                        assert(decreases_to!(vv->Array_0@ => vv->Array_0@[i as int]));
                        assert(vv->Array_0@[i as int] == xs@[i as int]);
                    }
                    let e = eq_strict_exec(&xs[i], &ys[i]);
                    if !e {
                        good = false;
                    }
                    proof {
                        if !e {
                            assert(gx[i as int] == vview(xs@[i as int]));
                            assert(gy[i as int] == vview(ys@[i as int]));
                        }
                    }
                    i = i + 1;
                }
                proof {
                    lemma_arr_eq_strict(gx, gy);
                }
                good
            },
            _ => false,
        },
        Var::Object(xs) => match b {
            Var::Object(ys) => {
                let ghost gx = fviews(*xs, 0);
                let ghost gy = fviews(*ys, 0);
                proof {
                    lemma_fviews(*xs, 0);
                    lemma_fviews(*ys, 0);
                }
                if xs.len() != ys.len() {
                    return false;
                }
                let mut i: usize = 0;
                let mut good = true;
                while i < xs.len()
                    invariant
                        0 <= i <= xs@.len(),
                        good ==> forall|k: int| 0 <= k < i ==> pair_eq_strict(#[trigger] gx[k], gy),
                        !good ==> !(forall|k: int|
                            0 <= k < gx.len() ==> pair_eq_strict(#[trigger] gx[k], gy)),
                    decreases xs@.len() - i,
                {
                    match obj_get(ys, xs[i].0.as_str()) {
                        Some(w) => {
                            proof {
                                let vv = *a;
                                assert(vv is Object);
                                assert(vv->Object_0 == *xs);
                                assert(decreases_to!(vv => vv->Object_0));
                                assert(decreases_to!(vv->Object_0 => vv->Object_0@));
                                assert(decreases_to!(vv->Object_0@ => vv->Object_0@[i as int]));
                                assert(decreases_to!(vv->Object_0@[i as int] => vv->Object_0@[i as int].1));
                                assert(vv->Object_0@[i as int].1 == xs@[i as int].1);
                            }
                            let e = eq_strict_exec(&xs[i].1, w);
                            if !e {
                                proof {
                                    assert(gx[i as int] == pview(xs@[i as int]));
                                    assert(!pair_eq_strict(gx[i as int], gy));
                                }
                                good = false;
                            } else {
                                proof {
                                    assert(gx[i as int] == pview(xs@[i as int]));
                                    assert(pair_eq_strict(gx[i as int], gy));
                                }
                            }
                        },
                        None => {
                            proof {
                                assert(gx[i as int] == pview(xs@[i as int]));
                                assert(!pair_eq_strict(gx[i as int], gy));
                            }
                            good = false;
                        },
                    }
                    i = i + 1;
                }
                proof {
                    lemma_obj_eq_strict(gx, gy);
                }
                good
            },
            _ => false,
        },
        Var::Function(f) => match b {
            Var::Function(g) => {
                if f.args.len() != g.args.len() {
                    proof {
                        assert(aviews(f.args@).len() != aviews(g.args@).len());
                    }
                    return false;
                }
                let mut i: usize = 0;
                while i < f.args.len()
                    invariant
                        0 <= i <= f.args@.len(),
                        f.args@.len() == g.args@.len(),
                        forall|k: int|
                            0 <= k < i ==> #[trigger] aviews(f.args@)[k] == aviews(g.args@)[k],
                    decreases f.args@.len() - i,
                {
                    let ne = str_eq(f.args[i].name.as_str(), g.args[i].name.as_str());
                    let ve = str_eq(f.args[i].value.as_str(), g.args[i].value.as_str());
                    if !ne || !ve {
                        proof {
                            assert(aviews(f.args@)[i as int] != aviews(g.args@)[i as int]);
                        }
                        return false;
                    }
                    i = i + 1;
                }
                let be = str_eq(f.value.value.as_str(), g.value.value.as_str());
                proof {
                    if be {
                        assert(aviews(f.args@) =~= aviews(g.args@));
                    }
                }
                be
            },
            _ => false,
        },
        Var::Statement(_) => false,
        Var::Expression(_) => false,
    }
}

impl Var {
    /// Converts the value to a target tag: the identity on its own tag
    /// family, boolean and number interchanging, anything serializing to a
    /// string; no rule yields a function, statement or expression.
    pub fn convert(self, tp: ValueType) -> (r: Result<Var, Error>)
        ensures
            r is Ok <==> convertible(vview(self), tp),
            r matches Ok(v) ==> conv_rel(vview(self), tp, vview(v)),
            r matches Err(e) ==> e.err@ == cfail_text(),
    {
        let ghost va = vview(self);
        proof {
            reveal_strlit("Conversion failed");
            assert("Conversion failed"@ =~= cfail_text());
        }
        match tp {
            ValueType::Null => match self {
                Var::Null => Ok(Var::Null),
                _ => Err(Error::from_str("Conversion failed")),
            },
            ValueType::Boolean => match self {
                Var::Boolean(b) => Ok(Var::Boolean(b)),
                Var::Number(n) => Ok(
                    Var::Boolean(!crate::num::nums_equal(n, crate::num::ZERO_BITS)),
                ),
                _ => Err(Error::from_str("Conversion failed")),
            },
            ValueType::Number => match self {
                Var::Number(n) => Ok(Var::Number(n)),
                Var::Boolean(b) => Ok(
                    Var::Number(
                        if b {
                            crate::num::ONE_BITS
                        } else {
                            crate::num::ZERO_BITS
                        },
                    ),
                ),
                _ => Err(Error::from_str("Conversion failed")),
            },
            ValueType::String => match self {
                Var::String(s) => Ok(Var::String(s)),
                other => Ok(Var::String(other.to_string())),
            },
            ValueType::Array => match self {
                Var::Array(items) => Ok(Var::Array(items)),
                _ => Err(Error::from_str("Conversion failed")),
            },
            ValueType::Object => match self {
                Var::Object(fields) => Ok(Var::Object(fields)),
                _ => Err(Error::from_str("Conversion failed")),
            },
            _ => Err(Error::from_str("Conversion failed")),
        }
    }
}

/// The message of a failed conversion.
pub open spec fn cfail_text() -> Seq<char> {
    seq!['C', 'o', 'n', 'v', 'e', 'r', 's', 'i', 'o', 'n', ' ', 'f', 'a', 'i', 'l', 'e', 'd']
}

/// The message of an operator applied to operands it does not support.
pub open spec fn calcfail_text() -> Seq<char> {
    seq!['C', 'a', 'l', 'c', 'u', 'l', 'a', 't', 'i', 'o', 'n', ' ', 'f', 'a', 'i', 'l', 'e', 'd']
}

/// The message of an operator token the evaluators do not know.
pub open spec fn unknown_text() -> Seq<char> {
    seq!['U', 'n', 'k', 'n', 'o', 'w', 'n', ' ', 'o', 'p', 'e', 'r', 'a', 'n', 'd']
}

impl Var {
    /// Applies a unary operator: `~` for bitwise not over the 32-bit
    /// truncation, `-` and `+` for numeric negation and identity, `!` for
    /// logical not; the operand must convert to a number (for `!`, a
    /// boolean).
    pub fn opcall_single(self, op: char) -> (r: Result<Var, Error>)
        ensures
            r is Ok <==> ((op == '~' || op == '-' || op == '+' || op == '!') && (vview(self)
                is Number || vview(self) is Boolean)),
            r matches Ok(v) ==> vview(v) == single_rel(vview(self), op),
            r matches Err(e) ==> e.err@ == (if op == '~' || op == '-' || op == '+' || op == '!' {
                cfail_text()
            } else {
                unknown_text()
            }),
    {
        let ghost va = vview(self);
        proof {
            reveal_strlit("Conversion failed");
            assert("Conversion failed"@ =~= cfail_text());
            reveal_strlit("Unknown operand");
            assert("Unknown operand"@ =~= unknown_text());
            crate::num::lemma_const_bits();
        }
        if op != '~' && op != '-' && op != '+' && op != '!' {
            return Err(Error::from_str("Unknown operand"));
        }
        let bits: u64 = match &self {
            Var::Number(n) => *n,
            Var::Boolean(b) => if *b {
                crate::num::ONE_BITS
            } else {
                crate::num::ZERO_BITS
            },
            _ => {
                return Err(Error::from_str("Conversion failed"));
            },
        };
        assert(bits == numval(va));
        if op == '~' {
            let t = crate::num::fl_to_i32(bits);
            Ok(Var::Number(crate::num::fl_of_i32(!t)))
        } else if op == '-' {
            Ok(Var::Number(crate::num::num_negate(bits)))
        } else if op == '+' {
            Ok(Var::Number(bits))
        } else {
            Ok(Var::Boolean(!(!crate::num::nums_equal(bits, crate::num::ZERO_BITS))))
        }
    }
}

/// The result of a unary operator on a numeric operand.
pub open spec fn single_rel(a: VarT, op: char) -> VarT {
    if op == '~' {
        VarT::Number(crate::num::num_of_i32(!crate::num::i32_of_num(numval(a))))
    } else if op == '-' {
        VarT::Number(crate::num::num_neg(numval(a)))
    } else if op == '+' {
        VarT::Number(numval(a))
    } else {
        VarT::Boolean(!truthy(a))
    }
}

impl Var {
    /// The structural comparison at equal tags: equality and identity with
    /// their negations, and the orderings on numbers and strings; any
    /// other operator token is unknown.
    pub fn opcmp(&self, op: &str, val: &Var) -> (r: Result<bool, Error>)
        ensures
            r is Ok <==> cmp_op_known(op@),
            r matches Ok(bv) ==> bv == cmp_eval(vview(*self), op@, vview(*val)),
            r matches Err(e) ==> e.err@ == unknown_text(),
    {
        proof {
            reveal_strlit("==");
            reveal_strlit("!=");
            reveal_strlit("===");
            reveal_strlit("!==");
            reveal_strlit(">");
            reveal_strlit("<");
            reveal_strlit(">=");
            reveal_strlit("<=");
            reveal_strlit("Unknown operand");
            assert("=="@ =~= seq!['=', '=']);
            assert("!="@ =~= seq!['!', '=']);
            assert("==="@ =~= seq!['=', '=', '=']);
            assert("!=="@ =~= seq!['!', '=', '=']);
            assert(">"@ =~= seq!['>']);
            assert("<"@ =~= seq!['<']);
            assert(">="@ =~= seq!['>', '=']);
            assert("<="@ =~= seq!['<', '=']);
            assert("Unknown operand"@ =~= unknown_text());
        }
        if str_eq(op, "===") {
            Ok(eq_strict_exec(self, val))
        } else if str_eq(op, "==") {
            Ok(self.cmp_same(val))
        } else if str_eq(op, "!=") {
            Ok(!self.cmp_same(val))
        } else if str_eq(op, "!==") {
            Ok(!eq_strict_exec(self, val))
        } else if str_eq(op, ">") {
            Ok(self.cmp_gt(val))
        } else if str_eq(op, "<") {
            Ok(self.cmp_lt(val))
        } else if str_eq(op, ">=") {
            Ok(!self.cmp_lt(val))
        } else if str_eq(op, "<=") {
            Ok(!self.cmp_gt(val))
        } else {
            Err(Error::from_str("Unknown operand"))
        }
    }

    /// The structural equality at equal tags.
    fn cmp_same(&self, val: &Var) -> (r: bool)
        ensures
            r == eq_loose_at(vview(*self), vview(*val)),
    {
        match self {
            Var::Null => match val {
                Var::Null => true,
                _ => false,
            },
            Var::Boolean(x) => match val {
                Var::Boolean(y) => *x == *y,
                _ => false,
            },
            Var::Number(x) => match val {
                Var::Number(y) => crate::num::nums_equal(*x, *y),
                _ => false,
            },
            Var::String(x) => match val {
                Var::String(y) => str_eq(x.as_str(), y.as_str()),
                _ => false,
            },
            Var::Array(_) => match val {
                Var::Array(_) => eq_loose_exec(self, val),
                _ => false,
            },
            Var::Object(_) => match val {
                Var::Object(_) => eq_loose_exec(self, val),
                _ => false,
            },
            Var::Function(_) => match val {
                Var::Function(_) => eq_strict_exec(self, val),
                _ => false,
            },
            Var::Statement(_) => false,
            Var::Expression(_) => false,
        }
    }

    /// The strict greater-than at equal tags.
    fn cmp_gt(&self, val: &Var) -> (r: bool)
        ensures
            r == gt_at(vview(*self), vview(*val)),
    {
        match self {
            Var::Number(x) => match val {
                Var::Number(y) => crate::num::nums_less(*y, *x),
                _ => false,
            },
            Var::String(x) => match val {
                Var::String(y) => str_less(y.as_str(), x.as_str()),
                _ => false,
            },
            _ => false,
        }
    }

    /// The strict less-than at equal tags.
    fn cmp_lt(&self, val: &Var) -> (r: bool)
        ensures
            r == lt_at(vview(*self), vview(*val)),
    {
        match self {
            Var::Number(x) => match val {
                Var::Number(y) => crate::num::nums_less(*x, *y),
                _ => false,
            },
            Var::String(x) => match val {
                Var::String(y) => str_less(x.as_str(), y.as_str()),
                _ => false,
            },
            _ => false,
        }
    }
}

/// The converted shadow, for an admissible target tag.
pub open spec fn conv_t(a: VarT, tp: ValueType) -> VarT {
    match tp {
        ValueType::Null => VarT::Null,
        ValueType::Boolean => VarT::Boolean(truthy(a)),
        ValueType::Number => VarT::Number(numval(a)),
        ValueType::String => VarT::String(conv_str(a)),
        _ => a,
    }
}

/// What a comparison operator answers: identity directly, the others
/// after converting the left side to the right side's tag, a failed
/// conversion answering false.
pub open spec fn cmp_loose(a: VarT, op: Seq<char>, b: VarT) -> bool {
    if op == seq!['=', '=', '='] {
        eq_strict(a, b)
    } else if op == seq!['!', '=', '='] {
        !eq_strict(a, b)
    } else if convertible(a, spec_tp(b)) {
        cmp_eval(conv_t(a, spec_tp(b)), op, b)
    } else {
        false
    }
}

/// The arithmetic and bitwise operator tokens.
pub open spec fn arith_op_known(op: Seq<char>) -> bool {
    ||| op == seq!['+']
    ||| op == seq!['-']
    ||| op == seq!['*']
    ||| op == seq!['/']
    ||| op == seq!['%']
    ||| op == seq!['&']
    ||| op == seq!['|']
    ||| op == seq!['^']
    ||| op == seq!['<', '<']
    ||| op == seq!['>', '>']
    ||| op == seq!['<', '<', '<']
    ||| op == seq!['>', '>', '>']
}

/// A signed 32-bit shift left, the amount masked to its width.
pub open spec fn shl32(x: i32, y: i32) -> i32 {
    x << (y & 31)
}

/// A signed 32-bit shift right, the amount masked to its width.
pub open spec fn shr32(x: i32, y: i32) -> i32 {
    x >> (y & 31)
}

/// An unsigned 32-bit shift left, the amount masked to its width.
pub open spec fn ushl32(x: u32, y: u32) -> u32 {
    x << (y & 31)
}

/// An unsigned 32-bit shift right, the amount masked to its width.
pub open spec fn ushr32(x: u32, y: u32) -> u32 {
    x >> (y & 31)
}

/// Whether a binary operator applies to these operands: comparisons
/// always, arithmetic only when the left side converts to the right
/// side's tag and the operator has a rule at that tag.
pub open spec fn opcall_ok(a: VarT, op: Seq<char>, b: VarT) -> bool {
    if cmp_op_known(op) {
        true
    } else if !convertible(a, spec_tp(b)) {
        false
    } else if op == seq!['+'] {
        spec_tp(b) == ValueType::Number || spec_tp(b) == ValueType::String || spec_tp(b)
            == ValueType::Array
    } else if arith_op_known(op) {
        spec_tp(b) == ValueType::Number
    } else {
        false
    }
}

/// The result of a binary operator on two shadows, assuming it applies.
pub open spec fn opcall_rel(a: VarT, op: Seq<char>, b: VarT, v: VarT) -> bool {
    if cmp_op_known(op) {
        v == VarT::Boolean(cmp_loose(a, op, b))
    } else if op == seq!['+'] {
        if spec_tp(b) == ValueType::Number {
            v == VarT::Number(crate::num::num_sum(numval(a), numval(b)))
        } else if spec_tp(b) == ValueType::String {
            v == VarT::String(conv_str(a) + conv_str(b))
        } else {
            a matches VarT::Array(xs) && b matches VarT::Array(ys) && v == VarT::Array(xs + ys)
        }
    } else if op == seq!['-'] {
        v == VarT::Number(crate::num::num_diff(numval(a), numval(b)))
    } else if op == seq!['*'] {
        v == VarT::Number(crate::num::num_prod(numval(a), numval(b)))
    } else if op == seq!['/'] {
        v == VarT::Number(
            if crate::num::num_eq(numval(b), crate::num::ZERO_BITS) {
                crate::num::NAN_BITS
            } else {
                crate::num::num_quot(numval(a), numval(b))
            },
        )
    } else if op == seq!['%'] {
        v == VarT::Number(
            if crate::num::num_eq(numval(b), crate::num::ZERO_BITS) {
                crate::num::NAN_BITS
            } else {
                crate::num::num_rem(numval(a), numval(b))
            },
        )
    } else if op == seq!['&'] {
        v == VarT::Number(
            crate::num::num_of_i32(
                crate::num::i32_of_num(numval(a)) & crate::num::i32_of_num(numval(b)),
            ),
        )
    } else if op == seq!['|'] {
        v == VarT::Number(
            crate::num::num_of_i32(
                crate::num::i32_of_num(numval(a)) | crate::num::i32_of_num(numval(b)),
            ),
        )
    } else if op == seq!['^'] {
        v == VarT::Number(
            crate::num::num_of_i32(
                crate::num::i32_of_num(numval(a)) ^ crate::num::i32_of_num(numval(b)),
            ),
        )
    } else if op == seq!['<', '<'] {
        v == VarT::Number(
            crate::num::num_of_i32(
                shl32(crate::num::i32_of_num(numval(a)), crate::num::i32_of_num(numval(b))),
            ),
        )
    } else if op == seq!['>', '>'] {
        v == VarT::Number(
            crate::num::num_of_i32(
                shr32(crate::num::i32_of_num(numval(a)), crate::num::i32_of_num(numval(b))),
            ),
        )
    } else if op == seq!['<', '<', '<'] {
        v == VarT::Number(
            crate::num::num_of_u32(
                ushl32(crate::num::u32_of_num(numval(a)), crate::num::u32_of_num(numval(b))),
            ),
        )
    } else if op == seq!['>', '>', '>'] {
        v == VarT::Number(
            crate::num::num_of_u32(
                ushr32(crate::num::u32_of_num(numval(a)), crate::num::u32_of_num(numval(b))),
            ),
        )
    } else {
        false
    }
}

/// Which failure a binary operator reports: a left side that does not
/// convert, an operator token nobody knows, or a rule missing at the
/// right side's tag.
pub open spec fn opcall_errmsg(a: VarT, op: Seq<char>, b: VarT) -> Seq<char> {
    if !convertible(a, spec_tp(b)) {
        cfail_text()
    } else if !arith_op_known(op) {
        unknown_text()
    } else {
        calcfail_text()
    }
}

impl Var {
    /// Applies a binary operator: the comparison family converts the left
    /// operand to the right operand's tag and compares (a failed
    /// conversion compares as false, identity never converts); the
    /// arithmetic, concatenation and bitwise family converts likewise and
    /// then computes, with division and modulo by zero yielding NaN.
    #[verifier::loop_isolation(false)]
    #[verifier::rlimit(60)]
    pub fn opcall(self, op: &str, val: &Var) -> (r: Result<Var, Error>)
        ensures
            r is Ok <==> opcall_ok(vview(self), op@, vview(*val)),
            r matches Ok(v) ==> opcall_rel(vview(self), op@, vview(*val), vview(v)),
            r matches Err(e) ==> e.err@ == opcall_errmsg(vview(self), op@, vview(*val)),
    {
        let ghost va = vview(self);
        let ghost vb = vview(*val);
        proof {
            reveal_strlit("==");
            reveal_strlit("!=");
            reveal_strlit("===");
            reveal_strlit("!==");
            reveal_strlit(">");
            reveal_strlit("<");
            reveal_strlit(">=");
            reveal_strlit("<=");
            reveal_strlit("+");
            reveal_strlit("-");
            reveal_strlit("*");
            reveal_strlit("/");
            reveal_strlit("%");
            reveal_strlit("&");
            reveal_strlit("|");
            reveal_strlit("^");
            reveal_strlit("<<");
            reveal_strlit(">>");
            reveal_strlit("<<<");
            reveal_strlit(">>>");
            reveal_strlit("Calculation failed");
            assert("=="@ =~= seq!['=', '=']);
            assert("!="@ =~= seq!['!', '=']);
            assert("==="@ =~= seq!['=', '=', '=']);
            assert("!=="@ =~= seq!['!', '=', '=']);
            assert(">"@ =~= seq!['>']);
            assert("<"@ =~= seq!['<']);
            assert(">="@ =~= seq!['>', '=']);
            assert("<="@ =~= seq!['<', '=']);
            assert("+"@ =~= seq!['+']);
            assert("-"@ =~= seq!['-']);
            assert("*"@ =~= seq!['*']);
            assert("/"@ =~= seq!['/']);
            assert("%"@ =~= seq!['%']);
            assert("&"@ =~= seq!['&']);
            assert("|"@ =~= seq!['|']);
            assert("^"@ =~= seq!['^']);
            assert("<<"@ =~= seq!['<', '<']);
            assert(">>"@ =~= seq!['>', '>']);
            assert("<<<"@ =~= seq!['<', '<', '<']);
            assert(">>>"@ =~= seq!['>', '>', '>']);
            assert("Calculation failed"@ =~= calcfail_text());
        }
        let is_cmp = str_eq(op, "==") || str_eq(op, "!=") || str_eq(op, ">=") || str_eq(op, "<=")
            || str_eq(op, ">") || str_eq(op, "<");
        if is_cmp {
            let conv = self.convert(val.tp());
            match conv {
                Ok(c) => {
                    proof {
                        assert(vview(c) == conv_t(va, spec_tp(vb)));
                    }
                    match c.opcmp(op, val) {
                        Ok(bv) => Ok(Var::Boolean(bv)),
                        Err(e) => Err(e),
                    }
                },
                Err(_) => Ok(Var::Boolean(false)),
            }
        } else if str_eq(op, "===") || str_eq(op, "!==") {
            match self.opcmp(op, val) {
                Ok(bv) => Ok(Var::Boolean(bv)),
                Err(e) => Err(e),
            }
        } else {
            let conv = match self.convert(val.tp()) {
                Ok(c) => c,
                Err(e) => {
                    return Err(e);
                },
            };
            proof {
                assert(vview(conv) == conv_t(va, spec_tp(vb)));
            }
            if str_eq(op, "+") {
                match conv {
                    Var::Number(x) => match val {
                        Var::Number(y) => Ok(Var::Number(crate::num::fl_add(x, *y))),
                        _ => Err(Error::from_str("Calculation failed")),
                    },
                    Var::String(x) => match val {
                        Var::String(y) => {
                            let mut out = x;
                            out.append(y.as_str());
                            Ok(Var::String(out))
                        },
                        _ => Err(Error::from_str("Calculation failed")),
                    },
                    Var::Array(xs) => match val {
                        Var::Array(ys) => {
                            let ghost gxs = vviews(xs, 0);
                            let ghost gys = vviews(*ys, 0);
                            proof {
                                lemma_vviews(xs, 0);
                                lemma_vviews(*ys, 0);
                            }
                            let mut out = xs;
                            let mut j: usize = 0;
                            while j < ys.len()
                                invariant
                                    0 <= j <= ys@.len(),
                                    out@.len() == gxs.len() + j,
                                    forall|k: int|
                                        0 <= k < gxs.len() ==> vview(#[trigger] out@[k]) == gxs[k],
                                    forall|k: int|
                                        0 <= k < j ==> vview(#[trigger] out@[gxs.len() + k])
                                            == gys[k],
                                decreases ys@.len() - j,
                            {
                                out.push(ys[j].duplicate());
                                j = j + 1;
                            }
                            proof {
                                lemma_vviews(out, 0);
                                assert forall|k: int|
                                    0 <= k < out@.len() implies #[trigger] vviews(out, 0)[k] == (
                                gxs + gys)[k] by {
                                    if k < gxs.len() {
                                    } else {
                                        assert(vview(out@[gxs.len() + (k - gxs.len())]) == gys[k
                                            - gxs.len()]);
                                    }
                                }
                                assert(vviews(out, 0) =~= gxs + gys);
                            }
                            Ok(Var::Array(out))
                        },
                        _ => Err(Error::from_str("Calculation failed")),
                    },
                    _ => Err(Error::from_str("Calculation failed")),
                }
            } else {
                let known = str_eq(op, "-") || str_eq(op, "*") || str_eq(op, "/") || str_eq(
                    op,
                    "%",
                ) || str_eq(op, "&") || str_eq(op, "|") || str_eq(op, "^") || str_eq(op, "<<")
                    || str_eq(op, ">>") || str_eq(op, "<<<") || str_eq(op, ">>>");
                if !known {
                    proof {
                        reveal_strlit("Unknown operand");
                        assert("Unknown operand"@ =~= unknown_text());
                    }
                    return Err(Error::from_str("Unknown operand"));
                }
                let (x, y): (u64, u64) = match (&conv, val) {
                    (Var::Number(x), Var::Number(y)) => (*x, *y),
                    _ => {
                        return Err(Error::from_str("Calculation failed"));
                    },
                };
                proof {
                    assert(x == numval(va));
                    assert(y == numval(vb));
                }
                if str_eq(op, "-") {
                    Ok(Var::Number(crate::num::fl_sub(x, y)))
                } else if str_eq(op, "*") {
                    Ok(Var::Number(crate::num::fl_mul(x, y)))
                } else if str_eq(op, "/") {
                    if !crate::num::nums_equal(y, crate::num::ZERO_BITS) {
                        Ok(Var::Number(crate::num::fl_div(x, y)))
                    } else {
                        Ok(Var::Number(crate::num::NAN_BITS))
                    }
                } else if str_eq(op, "%") {
                    if !crate::num::nums_equal(y, crate::num::ZERO_BITS) {
                        Ok(Var::Number(crate::num::fl_rem(x, y)))
                    } else {
                        Ok(Var::Number(crate::num::NAN_BITS))
                    }
                } else if str_eq(op, "&") {
                    let xi = crate::num::fl_to_i32(x);
                    let yi = crate::num::fl_to_i32(y);
                    Ok(Var::Number(crate::num::fl_of_i32(xi & yi)))
                } else if str_eq(op, "|") {
                    let xi = crate::num::fl_to_i32(x);
                    let yi = crate::num::fl_to_i32(y);
                    Ok(Var::Number(crate::num::fl_of_i32(xi | yi)))
                } else if str_eq(op, "^") {
                    let xi = crate::num::fl_to_i32(x);
                    let yi = crate::num::fl_to_i32(y);
                    Ok(Var::Number(crate::num::fl_of_i32(xi ^ yi)))
                } else if str_eq(op, "<<") {
                    let xi = crate::num::fl_to_i32(x);
                    let yi = crate::num::fl_to_i32(y);
                    let sh = yi & 31;
                    assert(0 <= yi & 31 < 32) by (bit_vector);
                    Ok(Var::Number(crate::num::fl_of_i32(xi << sh)))
                } else if str_eq(op, ">>") {
                    let xi = crate::num::fl_to_i32(x);
                    let yi = crate::num::fl_to_i32(y);
                    let sh = yi & 31;
                    assert(0 <= yi & 31 < 32) by (bit_vector);
                    Ok(Var::Number(crate::num::fl_of_i32(xi >> sh)))
                } else if str_eq(op, "<<<") {
                    let xu = crate::num::fl_to_u32(x);
                    let yu = crate::num::fl_to_u32(y);
                    let sh = yu & 31;
                    assert(yu & 31 < 32) by (bit_vector);
                    Ok(Var::Number(crate::num::fl_of_u32(xu << sh)))
                } else {
                    assert(op@ == seq!['>', '>', '>']);
                    let xu = crate::num::fl_to_u32(x);
                    let yu = crate::num::fl_to_u32(y);
                    let sh = yu & 31;
                    assert(yu & 31 < 32) by (bit_vector);
                    Ok(Var::Number(crate::num::fl_of_u32(xu >> sh)))
                }
            }
        }
    }
}

/// Whether a character can appear in a numeric literal: a decimal digit,
/// a hexadecimal letter, a radix marker, a point or an exponent mark.
pub open spec fn filter_char(c: char) -> bool {
    ||| ('0' <= c && c <= '9')
    ||| ('a' <= c && c <= 'f')
    ||| c == 'o'
    ||| c == 'b'
    ||| c == 'x'
    ||| c == '.'
    ||| c == 'e'
}

/// Whether the whole text passes the numeric-literal character filter.
pub open spec fn num_filter_ok(p: Seq<char>) -> bool {
    forall|i: int| 0 <= i < p.len() ==> filter_char(#[trigger] p[i])
}

/// Whether the text opens with a radix prefix: a zero followed by the
/// hexadecimal, octal or binary marker. Such a literal is read as an
/// integer first, whatever letters follow, so that `0xe` is a number and
/// not a float with an exponent.
pub open spec fn has_radix_prefix(p: Seq<char>) -> bool {
    p.len() >= 2 && p[0] == '0' && (p[1] == 'x' || p[1] == 'o' || p[1] == 'b')
}

/// Whether the text holds a decimal point or an exponent mark: such a
/// literal is read as a float, any other as an integer.
pub open spec fn has_dot_or_e(p: Seq<char>) -> bool {
    exists|i: int| 0 <= i < p.len() && (#[trigger] p[i] == '.' || p[i] == 'e')
}

/// Whether a character is a hexadecimal digit.
pub open spec fn hexd(c: char) -> bool {
    ('0' <= c && c <= '9') || ('a' <= c && c <= 'f') || ('A' <= c && c <= 'F')
}

/// The value of a hexadecimal digit.
pub open spec fn hexv(c: char) -> u32 {
    if '0' <= c && c <= '9' {
        (c as u32 - '0' as u32) as u32
    } else if 'a' <= c && c <= 'f' {
        (c as u32 - 'a' as u32 + 10) as u32
    } else {
        (c as u32 - 'A' as u32 + 10) as u32
    }
}

/// The code point of a four-digit hexadecimal escape.
pub open spec fn hex4(t: Seq<char>, i: int) -> u32 {
    (hexv(t[i]) * 0x1000 + hexv(t[i + 1]) * 0x100 + hexv(t[i + 2]) * 0x10 + hexv(t[i + 3])) as u32
}

/// The decoded contents of a string literal, from a position on: plain
/// line breaks vanish, a backslash escapes quotes, backslashes, the
/// letters for tab, return, newline and the nul character, a
/// backslash-newline continuation emits nothing, and a `u` escape reads
/// exactly four hexadecimal digits naming a Unicode scalar; anything
/// malformed fails.
pub open spec fn unesc(t: Seq<char>, i: int) -> Option<Seq<char>>
    decreases t.len() - i,
{
    if i < 0 {
        None
    } else if i >= t.len() {
        Some(Seq::empty())
    } else {
        let c = t[i];
        if c == '\n' || c == '\r' {
            unesc(t, i + 1)
        } else if c == '\\' {
            if i + 1 >= t.len() {
                None
            } else {
                let d = t[i + 1];
                if d == '\n' || d == '\r' {
                    unesc(t, i + 2)
                } else if d == 't' {
                    opt_prepend(seq!['\t'], unesc(t, i + 2))
                } else if d == 'r' {
                    opt_prepend(seq!['\r'], unesc(t, i + 2))
                } else if d == 'n' {
                    opt_prepend(seq!['\n'], unesc(t, i + 2))
                } else if d == '0' {
                    opt_prepend(seq!['\u{0}'], unesc(t, i + 2))
                } else if d == 'u' {
                    if i + 6 > t.len() {
                        None
                    } else if !(hexd(t[i + 2]) && hexd(t[i + 3]) && hexd(t[i + 4]) && hexd(
                        t[i + 5],
                    )) {
                        None
                    } else if !crate::text::valid_scalar(hex4(t, i + 2)) {
                        None
                    } else {
                        opt_prepend(seq![hex4(t, i + 2) as char], unesc(t, i + 6))
                    }
                } else {
                    opt_prepend(seq![d], unesc(t, i + 2))
                }
            }
        } else {
            opt_prepend(seq![c], unesc(t, i + 1))
        }
    }
}

/// A prefix glued onto a decoding that may have failed.
pub open spec fn opt_prepend(pre: Seq<char>, o: Option<Seq<char>>) -> Option<Seq<char>> {
    match o {
        Some(x) => Some(pre + x),
        None => None,
    }
}

/// The text with every fully wrapping layer of parentheses removed.
pub open spec fn strip_parens(p: Seq<char>) -> Seq<char>
    decreases p.len(),
{
    if crate::text::spec_covered(p, '(', ')') {
        strip_parens(p.subrange(1, p.len() - 1))
    } else {
        p
    }
}

/// The shadow the expression tail of the parser yields: the text is
/// stripped of wrapping parentheses and split at its weakest operator; a
/// scan that ends inside a bracket or quote is a syntax error.
pub open spec fn expr_tail(p: Seq<char>) -> Option<VarT> {
    let e = strip_parens(p);
    if crate::expr::spec_expr_err(e) {
        None
    } else if crate::expr::spec_expr_found(e) {
        Some(
            VarT::Expression(
                ExprT::Expr(
                    crate::expr::spec_expr_op(e),
                    crate::expr::spec_expr_left(e),
                    crate::expr::spec_expr_right(e),
                ),
            ),
        )
    } else {
        Some(VarT::Expression(ExprT::Val(e)))
    }
}

/// The parsed elements of an array literal: each cleared segment parsed in
/// turn, the first failure failing the whole literal.
pub open spec fn parse_elems(segs: Seq<Seq<char>>, i: int, n: int, acc: Seq<VarT>) -> Option<
    Seq<VarT>,
>
    decreases n, 0int, segs.len() - i,
{
    if i < 0 || i >= segs.len() {
        Some(acc)
    } else {
        let cs = crate::text::spec_clearnull(segs[i]);
        let v = if cs.len() < n {
            spec_parse(cs)
        } else {
            None
        };
        match v {
            Some(w) => parse_elems(segs, i + 1, n, acc.push(w)),
            None => None,
        }
    }
}

/// The parsed fields of an object literal: each segment split once at a
/// colon into a key that must read as a string literal and a value, bound
/// in key order; any breach makes the whole literal fall back to a raw
/// statement block.
pub open spec fn parse_fields(
    segs: Seq<Seq<char>>,
    i: int,
    n: int,
    acc: Seq<(Seq<char>, VarT)>,
) -> Option<Seq<(Seq<char>, VarT)>>
    decreases n, 0int, segs.len() - i,
{
    if i < 0 || i >= segs.len() {
        Some(acc)
    } else {
        let pair = crate::text::spec_split(segs[i], ':');
        if pair.len() != 2 {
            None
        } else {
            let ck = crate::text::spec_clearnull(pair[0]);
            let kv = if ck.len() < n {
                spec_parse(ck)
            } else {
                None
            };
            match kv {
                Some(VarT::String(k)) => {
                    let cv = crate::text::spec_clearnull(pair[1]);
                    let vv = if cv.len() < n {
                        spec_parse(cv)
                    } else {
                        None
                    };
                    match vv {
                        Some(w) => parse_fields(segs, i + 1, n, tinsert(acc, k, w)),
                        None => None,
                    }
                },
                _ => None,
            }
        }
    }
}

/// The shadow of a function literal.
pub open spec fn func_shadow(p: Seq<char>) -> VarT {
    VarT::Function(
        Seq::new(
            crate::func::spec_func_segs(p).len(),
            |i: int|
                (
                    crate::func::spec_arg_name(crate::func::spec_func_segs(p)[i]),
                    crate::func::spec_arg_value(crate::func::spec_func_segs(p)[i]),
                ),
        ),
        crate::func::spec_func_body(p),
    )
}

/// What cleared value text parses to: nothing for a malformed literal, a
/// shadow otherwise. Dispatch order: empty text is null; text that does
/// not read as an expression is tried as a numeric literal under the
/// character filter, as a word literal, as a quoted string, as a function
/// literal, as an array, and as an object falling back to a raw statement
/// block; everything else is read as an expression.
pub open spec fn spec_parse(p: Seq<char>) -> Option<VarT>
    decreases p.len(), 1int, 0int,
{
    if p.len() == 0 {
        Some(VarT::Null)
    } else if !crate::expr::spec_isexp(p) {
        let numres: Option<u64> = if num_filter_ok(p) {
            if has_radix_prefix(p) {
                match crate::num::int_text_val(p) {
                    Some(v) => Some(crate::num::num_of_i32(v)),
                    None => if has_dot_or_e(p) {
                        crate::num::num_of_text(p)
                    } else {
                        None
                    },
                }
            } else if has_dot_or_e(p) {
                crate::num::num_of_text(p)
            } else {
                match crate::num::int_text_val(p) {
                    Some(v) => Some(crate::num::num_of_i32(v)),
                    None => None,
                }
            }
        } else {
            None
        };
        match numres {
            Some(bits) => Some(VarT::Number(bits)),
            None => {
                if p == seq!['n', 'u', 'l', 'l'] {
                    Some(VarT::Null)
                } else if p == seq!['t', 'r', 'u', 'e'] {
                    Some(VarT::Boolean(true))
                } else if p == seq!['f', 'a', 'l', 's', 'e'] {
                    Some(VarT::Boolean(false))
                } else if crate::text::spec_covered(p, '\'', '\'') || crate::text::spec_covered(
                    p,
                    '"',
                    '"',
                ) {
                    match unesc(p.subrange(1, p.len() - 1), 0) {
                        Some(t) => Some(VarT::String(t)),
                        None => None,
                    }
                } else if p.len() >= 4 && p.take(4) == seq!['f', 'u', 'n', 'c'] && p.last()
                    == '}' {
                    if crate::func::spec_func_ok(p) {
                        Some(func_shadow(p))
                    } else {
                        None
                    }
                } else if crate::text::spec_covered(p, '[', ']') {
                    match parse_elems(
                        crate::text::spec_split(p.subrange(1, p.len() - 1), ','),
                        0,
                        p.len() as int,
                        Seq::empty(),
                    ) {
                        Some(elems) => Some(VarT::Array(elems)),
                        None => None,
                    }
                } else if crate::text::spec_covered(p, '{', '}') {
                    match parse_fields(
                        crate::text::spec_split(p.subrange(1, p.len() - 1), ','),
                        0,
                        p.len() as int,
                        Seq::empty(),
                    ) {
                        Some(fs) => Some(VarT::Object(fs)),
                        None => Some(VarT::Statement(p.subrange(1, p.len() - 1))),
                    }
                } else {
                    expr_tail(p)
                }
            },
        }
    } else {
        expr_tail(p)
    }
}

/// A prefix can be glued on in two steps or one.
proof fn lemma_prepend_assoc(a: Seq<char>, b: Seq<char>, o: Option<Seq<char>>)
    ensures
        opt_prepend(a, opt_prepend(b, o)) == opt_prepend(a + b, o),
{
    match o {
        Some(x) => {
            assert(a + (b + x) =~= (a + b) + x);
        },
        None => {},
    }
}

/// The value of one hexadecimal digit character.
fn hex_digit(c: char) -> (r: Option<u32>)
    ensures
        r is Some <==> hexd(c),
        r matches Some(v) ==> v == hexv(c),
{
    if c >= '0' && c <= '9' {
        Some(c as u32 - 48)
    } else if c >= 'a' && c <= 'f' {
        Some(c as u32 - 97 + 10)
    } else if c >= 'A' && c <= 'F' {
        Some(c as u32 - 65 + 10)
    } else {
        None
    }
}

/// Decodes the contents of a string literal.
#[verifier::loop_isolation(false)]
#[verifier::rlimit(100)]
fn unescape(s: &str) -> (r: Result<String, Error>)
    ensures
        r is Ok <==> unesc(s@, 0) is Some,
        r matches Ok(t) ==> Some(t@) == unesc(s@, 0),
{
    let n = ulen(s);
    let mut out = String::new();
    let mut i: usize = 0;
    proof {
        assert(Seq::<char>::empty() + unesc(s@, 0).unwrap() =~= unesc(s@, 0).unwrap());
        if unesc(s@, 0) is Some {
            assert(opt_prepend(out@, unesc(s@, 0)) == unesc(s@, 0));
        }
    }
    while i < n
        invariant
            0 <= i <= n,
            n == s@.len(),
            unesc(s@, 0) == opt_prepend(out@, unesc(s@, i as int)),
        decreases n - i,
    {
        let ghost pre = out@;
        let c = s.get_char(i);
        if c == '\n' || c == '\r' {
            i = i + 1;
        } else if c == '\\' {
            if i + 1 >= n {
                assert(unesc(s@, i as int) is None);
                return Err(Error::from_str("Unexpected end of string"));
            }
            let d = s.get_char(i + 1);
            if d == '\n' || d == '\r' {
                i = i + 2;
            } else if d == 't' {
                out.push('\t');
                proof {
                    lemma_prepend_assoc(pre, seq!['\t'], unesc(s@, i + 2));
                    assert(pre + seq!['\t'] =~= out@);
                }
                i = i + 2;
            } else if d == 'r' {
                out.push('\r');
                proof {
                    lemma_prepend_assoc(pre, seq!['\r'], unesc(s@, i + 2));
                    assert(pre + seq!['\r'] =~= out@);
                }
                i = i + 2;
            } else if d == 'n' {
                out.push('\n');
                proof {
                    lemma_prepend_assoc(pre, seq!['\n'], unesc(s@, i + 2));
                    assert(pre + seq!['\n'] =~= out@);
                }
                i = i + 2;
            } else if d == '0' {
                out.push('\u{0}');
                proof {
                    lemma_prepend_assoc(pre, seq!['\u{0}'], unesc(s@, i + 2));
                    assert(pre + seq!['\u{0}'] =~= out@);
                }
                i = i + 2;
            } else if d == 'u' {
                if n - i < 6 {
                    assert(unesc(s@, i as int) is None);
                    return Err(Error::from_str("Invalid unicode character"));
                }
                let h0 = hex_digit(s.get_char(i + 2));
                let h1 = hex_digit(s.get_char(i + 3));
                let h2 = hex_digit(s.get_char(i + 4));
                let h3 = hex_digit(s.get_char(i + 5));
                let (v0, v1, v2, v3): (u32, u32, u32, u32) = match (h0, h1, h2, h3) {
                    (Some(v0), Some(v1), Some(v2), Some(v3)) => (v0, v1, v2, v3),
                    _ => {
                        assert(unesc(s@, i as int) is None);
                        return Err(Error::from_str("Invalid unicode character"));
                    },
                };
                let code: u32 = v0 * 0x1000 + v1 * 0x100 + v2 * 0x10 + v3;
                assert(code == hex4(s@, i + 2));
                match char::from_u32(code) {
                    Some(ch) => {
                        proof {
                            vstd::utf8::char_u32_cast(ch, code);
                        }
                        out.push(ch);
                        proof {
                            lemma_prepend_assoc(pre, seq![ch], unesc(s@, i + 6));
                            assert(pre + seq![ch] =~= out@);
                        }
                        i = i + 6;
                    },
                    None => {
                        assert(!crate::text::valid_scalar(hex4(s@, i + 2)));
                        assert(unesc(s@, i as int) is None);
                        return Err(Error::from_str("Invalid unicode character"));
                    },
                }
            } else {
                out.push(d);
                proof {
                    lemma_prepend_assoc(pre, seq![d], unesc(s@, i + 2));
                    assert(pre + seq![d] =~= out@);
                }
                i = i + 2;
            }
        } else {
            out.push(c);
            proof {
                lemma_prepend_assoc(pre, seq![c], unesc(s@, i + 1));
                assert(pre + seq![c] =~= out@);
            }
            i = i + 1;
        }
    }
    proof {
        assert(unesc(s@, n as int) == Some(Seq::<char>::empty()));
        assert(out@ + Seq::<char>::empty() =~= out@);
    }
    Ok(out)
}

impl Var {
    /// Parses the elements of an array literal, failing on the first
    /// element that does not parse.
    #[verifier::loop_isolation(false)]
    fn parse_items(segs: Vec<String>, bound: usize) -> (r: Result<Vec<Var>, Error>)
        requires
            forall|k: int|
                0 <= k < segs.deep_view().len() ==> (#[trigger] segs.deep_view()[k]).len()
                    < bound,
        ensures
            r is Ok <==> parse_elems(segs.deep_view(), 0, bound as int, Seq::empty()) is Some,
            r matches Ok(out) ==> Some(vviews(out, 0)) == parse_elems(
                segs.deep_view(),
                0,
                bound as int,
                Seq::empty(),
            ),
        decreases bound, 0int, 0int,
    {
        let ghost gsegs = segs.deep_view();
        let mut out: Vec<Var> = Vec::new();
        let mut i: usize = 0;
        proof {
            lemma_vviews(out, 0);
            assert(vviews(out, 0) =~= Seq::<VarT>::empty());
        }
        while i < segs.len()
            invariant
                0 <= i <= segs@.len(),
                gsegs == segs.deep_view(),
                gsegs.len() == segs@.len(),
                parse_elems(gsegs, 0, bound as int, Seq::empty()) == parse_elems(
                    gsegs,
                    i as int,
                    bound as int,
                    vviews(out, 0),
                ),
            decreases segs@.len() - i,
        {
            let ghost acc = vviews(out, 0);
            proof {
                lemma_vviews(out, 0);
                assert(gsegs[i as int] == segs@[i as int]@);
                crate::text::lemma_cn_len(gsegs[i as int], crate::parse::LppStatus::init());
            }
            match Var::parse(segs[i].as_str()) {
                Ok(v) => {
                    let ghost w = vview(v);
                    let ghost old_out = out;
                    out.push(v);
                    proof {
                        lemma_vviews(old_out, 0);
                        lemma_vviews(out, 0);
                        assert(vviews(out, 0) =~= acc.push(w));
                    }
                },
                Err(e) => {
                    return Err(e);
                },
            }
            i = i + 1;
        }
        Ok(out)
    }

    /// Parses the fields of an object literal; a breach of the
    /// `"key":value` shape reports the fallback to a raw statement block.
    #[verifier::loop_isolation(false)]
    fn parse_obj_fields(segs: Vec<String>, bound: usize) -> (r: Option<Vec<(String, Var)>>)
        requires
            forall|k: int|
                0 <= k < segs.deep_view().len() ==> (#[trigger] segs.deep_view()[k]).len() + 2
                    <= bound,
        ensures
            r is Some <==> parse_fields(segs.deep_view(), 0, bound as int, Seq::empty()) is Some,
            r matches Some(out) ==> Some(fviews(out, 0)) == parse_fields(
                segs.deep_view(),
                0,
                bound as int,
                Seq::empty(),
            ),
        decreases bound, 0int, 0int,
    {
        let ghost gsegs = segs.deep_view();
        let mut fields: Vec<(String, Var)> = Vec::new();
        let mut i: usize = 0;
        proof {
            lemma_fviews(fields, 0);
            assert(fviews(fields, 0) =~= Seq::<(Seq<char>, VarT)>::empty());
        }
        while i < segs.len()
            invariant
                0 <= i <= segs@.len(),
                gsegs == segs.deep_view(),
                gsegs.len() == segs@.len(),
                parse_fields(gsegs, 0, bound as int, Seq::empty()) == parse_fields(
                    gsegs,
                    i as int,
                    bound as int,
                    fviews(fields, 0),
                ),
            decreases segs@.len() - i,
        {
            let ghost acc = fviews(fields, 0);
            proof {
                lemma_fviews(fields, 0);
                assert(gsegs[i as int] == segs@[i as int]@);
            }
            let pair = crate::text::split_by(segs[i].as_str(), ':');
            proof {
                assert(pair.deep_view() == crate::text::spec_split(gsegs[i as int], ':'));
            }
            if pair.len() != 2 {
                return None;
            }
            proof {
                crate::text::lemma_split_len(gsegs[i as int], ':');
                assert(pair.deep_view()[0].len() <= gsegs[i as int].len());
                assert(pair.deep_view()[1].len() <= gsegs[i as int].len());
                crate::text::lemma_cn_len(pair.deep_view()[0], crate::parse::LppStatus::init());
                crate::text::lemma_cn_len(pair.deep_view()[1], crate::parse::LppStatus::init());
                assert(pair.deep_view()[0] == pair@[0]@);
                assert(pair.deep_view()[1] == pair@[1]@);
            }
            let kres = Var::parse(pair[0].as_str());
            let key: String = match kres {
                Ok(Var::String(k)) => k,
                _ => {
                    return None;
                },
            };
            let vres = Var::parse(pair[1].as_str());
            let value: Var = match vres {
                Ok(v) => v,
                Err(_) => {
                    return None;
                },
            };
            let ghost gk = key@;
            let ghost gv = vview(value);
            obj_set(&mut fields, key, value);
            proof {
                assert(fviews(fields, 0) == tinsert(acc, gk, gv));
            }
            i = i + 1;
        }
        Some(fields)
    }

    /// Parses value text into a value: the whitespace filter runs first,
    /// and the cleared text is read as the dispatch order of the grammar
    /// says; a malformed literal is an error, but a braced text that is
    /// not an object falls back to a raw statement block.
    #[verifier::loop_isolation(false)]
    #[verifier::rlimit(100)]
    pub fn parse(s: &str) -> (r: Result<Var, Error>)
        ensures
            r is Ok <==> spec_parse(crate::text::spec_clearnull(s@)) is Some,
            r matches Ok(v) ==> Some(vview(v)) == spec_parse(crate::text::spec_clearnull(s@)),
        decreases s@.len(), 1int, 0int,
    {
        let cleared = crate::text::clearnull(s);
        let p = cleared.as_str();
        let ghost gp = crate::text::spec_clearnull(s@);
        proof {
            crate::text::lemma_cn_len(s@, crate::parse::LppStatus::init());
        }
        let n = ulen(p);
        if n == 0 {
            return Ok(Var::Null);
        }
        if !ExprValue::isexp(p) {
            // the numeric-literal filter and parse
            let mut okf = true;
            let mut i: usize = 0;
            while i < n
                invariant
                    0 <= i <= n,
                    okf == (forall|k: int| 0 <= k < i ==> filter_char(#[trigger] gp[k])),
                decreases n - i,
            {
                let c = p.get_char(i);
                let good = (c >= '0' && c <= '9') || (c >= 'a' && c <= 'f') || c == 'o' || c == 'b'
                    || c == 'x' || c == '.' || c == 'e';
                proof {
                    if !good {
                        assert(!filter_char(gp[i as int]));
                    }
                }
                okf = okf && good;
                i = i + 1;
            }
            if okf {
                let mut hasde = false;
                let mut j: usize = 0;
                while j < n
                    invariant
                        0 <= j <= n,
                        hasde == (exists|k: int|
                            0 <= k < j && (#[trigger] gp[k] == '.' || gp[k] == 'e')),
                    decreases n - j,
                {
                    let c = p.get_char(j);
                    if c == '.' || c == 'e' {
                        hasde = true;
                    }
                    j = j + 1;
                }
                assert(hasde == has_dot_or_e(gp));
                let prefixed = n >= 2 && p.get_char(0) == '0' && (p.get_char(1) == 'x'
                    || p.get_char(1) == 'o' || p.get_char(1) == 'b');
                assert(prefixed == has_radix_prefix(gp));
                if prefixed {
                    match crate::num::parse_i32(p) {
                        Some(v) => {
                            return Ok(Var::Number(crate::num::fl_of_i32(v)));
                        },
                        None => {
                            if hasde {
                                match crate::num::fl_parse(p) {
                                    Some(bits) => {
                                        return Ok(Var::Number(bits));
                                    },
                                    None => {},
                                }
                            }
                        },
                    }
                } else if hasde {
                    match crate::num::fl_parse(p) {
                        Some(bits) => {
                            return Ok(Var::Number(bits));
                        },
                        None => {},
                    }
                } else {
                    match crate::num::parse_i32(p) {
                        Some(v) => {
                            return Ok(Var::Number(crate::num::fl_of_i32(v)));
                        },
                        None => {},
                    }
                }
            }
            proof {
                reveal_strlit("null");
                reveal_strlit("true");
                reveal_strlit("false");
                assert("null"@ =~= seq!['n', 'u', 'l', 'l']);
                assert("true"@ =~= seq!['t', 'r', 'u', 'e']);
                assert("false"@ =~= seq!['f', 'a', 'l', 's', 'e']);
            }
            if str_eq(p, "null") {
                return Ok(Var::Null);
            }
            if str_eq(p, "true") {
                return Ok(Var::Boolean(true));
            }
            if str_eq(p, "false") {
                return Ok(Var::Boolean(false));
            }
            if covered_with(p, '\'', '\'') || covered_with(p, '"', '"') {
                let inner = uslice(p, 1, n - 1);
                proof {
                    assert(inner@ =~= gp.subrange(1, gp.len() - 1));
                }
                match unescape(inner) {
                    Ok(t) => {
                        return Ok(Var::String(t));
                    },
                    Err(e) => {
                        return Err(e);
                    },
                }
            }
            let isfunc = n >= 4 && p.get_char(0) == 'f' && p.get_char(1) == 'u' && p.get_char(2)
                == 'n' && p.get_char(3) == 'c' && p.get_char(n - 1) == '}';
            proof {
                if n >= 4 {
                    assert((gp.take(4) == seq!['f', 'u', 'n', 'c']) == (gp[0] == 'f' && gp[1]
                        == 'u' && gp[2] == 'n' && gp[3] == 'c')) by {
                        if gp[0] == 'f' && gp[1] == 'u' && gp[2] == 'n' && gp[3] == 'c' {
                            assert(gp.take(4) =~= seq!['f', 'u', 'n', 'c']);
                        }
                    }
                }
            }
            if isfunc {
                match FuncValue::parse(p) {
                    Ok(f) => {
                        proof {
                            let gsegs = crate::func::spec_func_segs(gp);
                            assert(aviews(f.args@) =~~= Seq::new(
                                gsegs.len(),
                                |i: int|
                                    (
                                        crate::func::spec_arg_name(gsegs[i]),
                                        crate::func::spec_arg_value(gsegs[i]),
                                    ),
                            ));
                        }
                        return Ok(Var::Function(f));
                    },
                    Err(e) => {
                        return Err(e);
                    },
                }
            }
            if covered_with(p, '[', ']') {
                let inner = uslice(p, 1, n - 1);
                proof {
                    assert(inner@ =~= gp.subrange(1, gp.len() - 1));
                }
                let segs = crate::text::split_by(inner, ',');
                proof {
                    crate::text::lemma_split_len(inner@, ',');
                    assert forall|k: int|
                        0 <= k < segs.deep_view().len() implies (
                    #[trigger] segs.deep_view()[k]).len() < n by {
                        assert(segs.deep_view()[k].len() <= inner@.len());
                    }
                }
                match Var::parse_items(segs, n) {
                    Ok(items) => {
                        return Ok(Var::Array(items));
                    },
                    Err(e) => {
                        return Err(e);
                    },
                }
            }
            if covered_with(p, '{', '}') {
                let inner = uslice(p, 1, n - 1);
                proof {
                    assert(inner@ =~= gp.subrange(1, gp.len() - 1));
                }
                let segs = crate::text::split_by(inner, ',');
                proof {
                    crate::text::lemma_split_len(inner@, ',');
                }
                match Var::parse_obj_fields(segs, n) {
                    Some(fields) => {
                        return Ok(Var::Object(fields));
                    },
                    None => {
                        let st = StmtValue::parse(p);
                        proof {
                            assert(st.value@ =~= gp.subrange(1, gp.len() - 1));
                        }
                        return Ok(Var::Statement(st));
                    },
                }
            }
        }
        // the expression tail
        let mut exp: String = cleared;
        while covered_with(exp.as_str(), '(', ')')
            invariant
                strip_parens(gp) == strip_parens(exp@),
            decreases exp@.len(),
        {
            let m = ulen(exp.as_str());
            let stripped = uslice(exp.as_str(), 1, m - 1).to_owned();
            proof {
                assert(stripped@ =~= exp@.subrange(1, exp@.len() - 1));
            }
            exp = stripped;
        }
        proof {
            assert(strip_parens(exp@) == exp@);
        }
        match ExprValue::parse(exp.as_str()) {
            Ok(ev) => Ok(Var::Expression(ev)),
            Err(e) => Err(e),
        }
    }
}


/// Decoding a text one position further along an appended suffix reads the
/// suffix alone.
proof fn lemma_unesc_shift(a: Seq<char>, b: Seq<char>, k: int)
    requires
        0 <= k <= b.len(),
    ensures
        unesc(a + b, a.len() + k) == unesc(b, k),
    decreases b.len() - k,
{
    let t = a + b;
    if k == b.len() {
        assert(unesc(t, a.len() + k) == Some(Seq::<char>::empty()));
        assert(unesc(b, k) == Some(Seq::<char>::empty()));
    } else {
        let c = b[k];
        assert(t[a.len() + k] == c);
        if c == '\n' || c == '\r' {
            lemma_unesc_shift(a, b, k + 1);
        } else if c == '\\' {
            if k + 1 >= b.len() {
                assert(a.len() + k + 1 >= t.len());
            } else {
                let d = b[k + 1];
                assert(t[a.len() + k + 1] == d);
                if d == '\n' || d == '\r' {
                    lemma_unesc_shift(a, b, k + 2);
                } else if d == 't' || d == 'r' || d == 'n' || d == '0' {
                    lemma_unesc_shift(a, b, k + 2);
                } else if d == 'u' {
                    if k + 6 > b.len() {
                        assert(a.len() + k + 6 > t.len());
                    } else {
                        assert(t[a.len() + k + 2] == b[k + 2]);
                        assert(t[a.len() + k + 3] == b[k + 3]);
                        assert(t[a.len() + k + 4] == b[k + 4]);
                        assert(t[a.len() + k + 5] == b[k + 5]);
                        assert(hex4(t, a.len() + k + 2) == hex4(b, k + 2));
                        lemma_unesc_shift(a, b, k + 6);
                    }
                } else {
                    lemma_unesc_shift(a, b, k + 2);
                }
            }
        } else {
            lemma_unesc_shift(a, b, k + 1);
        }
    }
}

/// Decoding inverts encoding, from a position on.
proof fn lemma_unesc_esc_at(s: Seq<char>, i: int)
    requires
        0 <= i <= s.len(),
    ensures
        unesc(esc_text(s, i), 0) == Some(s.skip(i)),
    decreases s.len() - i,
{
    if i == s.len() {
        assert(s.skip(i) =~= Seq::<char>::empty());
    } else {
        let c = s[i];
        let e = esc_char(c);
        let t = esc_text(s, i + 1);
        lemma_unesc_esc_at(s, i + 1);
        assert(esc_text(s, i) == e + t);
        lemma_unesc_shift(e, t, 0);
        assert(e.len() + 0 == e.len());
        if c == '\r' || c == '\t' || c == '\u{0}' || c == '\n' || c == '\\' || c == '\'' || c
            == '"' {
            assert(e.len() == 2);
            assert((e + t)[0] == '\\');
            assert((e + t)[1] == e[1]);
            assert(unesc(e + t, 0) == opt_prepend(seq![c], unesc(e + t, 2)));
            assert(unesc(e + t, 2) == unesc(t, 0));
        } else {
            assert(e.len() == 1);
            assert((e + t)[0] == c);
            assert(unesc(e + t, 0) == opt_prepend(seq![c], unesc(e + t, 1)));
            assert(unesc(e + t, 1) == unesc(t, 0));
        }
        assert(seq![c] + s.skip(i + 1) =~= s.skip(i));
    }
}

/// One direction of the literal round trip: decoding a string's escaped
/// serialized contents gives the string back, whatever characters it
/// holds.
pub proof fn lemma_unescape_inverts_escape(s: Seq<char>)
    ensures
        unesc(esc_text(s, 0), 0) == Some(s),
{
    lemma_unesc_esc_at(s, 0);
    assert(s.skip(0) =~= s);
}


/// A text without carriage returns, tabs and line feeds passes the
/// whitespace filter unchanged.
proof fn lemma_cn_id(s: Seq<char>, st: crate::parse::LppStatus)
    requires
        forall|i: int|
            0 <= i < s.len() ==> !(#[trigger] s[i] == '\r' || s[i] == '\t' || s[i] == '\n'),
    ensures
        crate::text::cn(s, st) == s,
    decreases s.len(),
{
    if s.len() > 0 {
        let st2 = crate::parse::spec_transfer(s.first(), st);
        assert(!crate::text::cleared(s.first(), st2));
        assert forall|i: int|
            0 <= i < s.drop_first().len() implies !(#[trigger] s.drop_first()[i] == '\r'
            || s.drop_first()[i] == '\t' || s.drop_first()[i] == '\n') by {
            assert(s.drop_first()[i] == s[i + 1]);
        }
        lemma_cn_id(s.drop_first(), st2);
        assert(seq![s.first()] + s.drop_first() =~= s);
    }
}

/// Whether a character is a lowercase letter.
spec fn lower_alpha(c: char) -> bool {
    'a' <= c && c <= 'z'
}

/// No run of lowercase letters is an operator token.
proof fn lemma_letters_no_op(op: Seq<char>, front: bool)
    requires
        op.len() > 0,
        lower_alpha(op[0]),
    ensures
        crate::expr::spec_getprio(op, front) == -1,
{
}

/// The precedence scan passes over lowercase letters without recording
/// anything: the candidate token stays empty and the state machine does
/// not move.
proof fn lemma_expr_scan_letters(s: Seq<char>, i: int, acc: crate::expr::ExprScan)
    requires
        0 <= i <= s.len(),
        acc.temp == Seq::<char>::empty(),
        acc.st.brace == 0,
        acc.st.quote == crate::parse::QuoteStatus::NoQuote,
        !acc.st.splash,
        forall|k: int| 0 <= k < s.len() ==> lower_alpha(#[trigger] s[k]),
    ensures
        ({
            let r = crate::expr::expr_scan(s, i, acc);
            &&& r.st == acc.st
            &&& r.temp == Seq::<char>::empty()
            &&& r.minpr == acc.minpr
            &&& r.opindex == acc.opindex
            &&& r.opend == acc.opend
        }),
    decreases s.len() - i,
{
    if i < s.len() {
        let c = s[i];
        assert(lower_alpha(c));
        lemma_letters_no_op(acc.temp.push(c), acc.front);
        assert(crate::expr::spec_getprio(acc.temp, acc.front) == -1);
        let stepped = crate::expr::expr_step(c, i, acc);
        assert(crate::parse::spec_transfer(c, acc.st) == acc.st);
        assert(stepped.temp == Seq::<char>::empty());
        assert(stepped.st == acc.st);
        lemma_expr_scan_letters(s, i + 1, stepped);
    }
}

/// A run of lowercase letters does not read as an expression.
proof fn lemma_letters_not_exp(s: Seq<char>)
    requires
        s.len() > 0,
        forall|k: int| 0 <= k < s.len() ==> lower_alpha(#[trigger] s[k]),
    ensures
        !crate::expr::spec_isexp(s),
    decreases 0int,
{
    assert(!crate::text::spec_covered(s, '(', ')'));
    lemma_cn_id(s, crate::parse::LppStatus::init());
    assert(crate::text::spec_clearnull(s) == s);
    lemma_expr_scan_letters(s, 0, crate::expr::expr_scan_init());
    let sc = crate::expr::expr_scan(s, 0, crate::expr::expr_scan_init());
    lemma_letters_no_op(sc.temp.push('x'), sc.front);
    assert(crate::expr::spec_getprio(sc.temp, sc.front) == -1);
    assert(crate::expr::expr_final(s).minpr == crate::expr::maxpr());
    assert(!crate::expr::spec_expr_found(s));
}

/// The word literals parse back to the values that serialized to them: the
/// atomic cases of the round-trip law.
pub proof fn lemma_parse_inverts_atoms(v: VarT)
    requires
        v is Null || v is Boolean,
    ensures
        spec_parse(crate::text::spec_clearnull(to_text(v))) == Some(v),
{
    let t = to_text(v);
    assert(forall|k: int| 0 <= k < t.len() ==> lower_alpha(#[trigger] t[k]));
    lemma_cn_id(t, crate::parse::LppStatus::init());
    assert(crate::text::spec_clearnull(t) == t);
    lemma_letters_not_exp(t);
    assert(!num_filter_ok(t)) by {
        match v {
            VarT::Null => {
                assert(t[0] == 'n');
                assert(!filter_char('n'));
            },
            VarT::Boolean(b) => {
                if b {
                    assert(t[0] == 't');
                    assert(!filter_char('t'));
                } else {
                    assert(t[2] == 'l');
                    assert(!filter_char('l'));
                }
            },
            _ => {},
        }
    }
    match v {
        VarT::Null => {
            assert(t == seq!['n', 'u', 'l', 'l']);
        },
        VarT::Boolean(b) => {
            if b {
                assert(t == seq!['t', 'r', 'u', 'e']);
                assert(t != seq!['n', 'u', 'l', 'l']);
            } else {
                assert(t == seq!['f', 'a', 'l', 's', 'e']);
                assert(t != seq!['n', 'u', 'l', 'l']);
                assert(t != seq!['t', 'r', 'u', 'e']);
            }
        },
        _ => {},
    }
}


/// No operator token begins with a bracket or a quote.
proof fn lemma_nonop_char(op: Seq<char>, front: bool)
    requires
        op.len() > 0,
        op[0] == '"' || op[0] == '[' || op[0] == ']' || op[0] == '{' || op[0] == '}',
    ensures
        crate::expr::spec_getprio(op, front) == -1,
{
}

/// The scan state inside a double-quoted literal, no escape pending.
spec fn dq_state() -> crate::parse::LppStatus {
    crate::parse::LppStatus {
        quote: crate::parse::QuoteStatus::Double,
        splash: false,
        brace: 0,
    }
}

/// Escaped string contents hold no raw whitespace that the filter drops.
proof fn lemma_esc_no_ws(s: Seq<char>, j: int)
    requires
        0 <= j <= s.len(),
    ensures
        forall|k: int|
            0 <= k < esc_text(s, j).len() ==> !(#[trigger] esc_text(s, j)[k] == '\r' || esc_text(
                s,
                j,
            )[k] == '\t' || esc_text(s, j)[k] == '\n'),
    decreases s.len() - j,
{
    if j < s.len() {
        lemma_esc_no_ws(s, j + 1);
        assert(esc_text(s, j) == esc_char(s[j]) + esc_text(s, j + 1));
        assert forall|k: int|
            0 <= k < esc_text(s, j).len() implies !(#[trigger] esc_text(s, j)[k] == '\r'
            || esc_text(s, j)[k] == '\t' || esc_text(s, j)[k] == '\n') by {
            let e = esc_char(s[j]);
            if k < e.len() {
                assert(esc_text(s, j)[k] == e[k]);
            } else {
                assert(esc_text(s, j)[k] == esc_text(s, j + 1)[k - e.len()]);
            }
        }
    }
}

/// Scanning escaped contents followed by the closing quote finds that
/// closer and nothing earlier.
proof fn lemma_close_esc(s: Seq<char>, j: int, t: Seq<char>, i: int)
    requires
        0 <= j <= s.len(),
        0 <= i <= t.len(),
        t.skip(i) == esc_text(s, j) + seq!['"'],
    ensures
        crate::text::close_idx(t, '"', i, dq_state()) == Some(t.len() - 1),
    decreases s.len() - j,
{
    if j == s.len() {
        assert(t.skip(i) =~= seq!['"']);
        assert(i == t.len() - 1);
        assert(t.skip(i)[0] == t[i + 0]);
        assert(t.skip(i)[0] == '"');
        let st2 = crate::parse::spec_transfer('"', dq_state());
        assert(st2.quote == crate::parse::QuoteStatus::NoQuote && st2.brace == 0);
    } else {
        let c = s[j];
        let e = esc_char(c);
        assert(t.skip(i) == e + (esc_text(s, j + 1) + seq!['"'])) by {
            assert(esc_text(s, j) == e + esc_text(s, j + 1));
            assert(e + (esc_text(s, j + 1) + seq!['"']) =~= (e + esc_text(s, j + 1))
                + seq!['"']);
        }
        assert(t.skip(i).len() == t.len() - i);
        assert(t.len() - i >= e.len() + 1);
        if c == '\r' || c == '\t' || c == '\u{0}' || c == '\n' || c == '\\' || c == '\'' || c
            == '"' {
            let x = e[1];
            assert(t.skip(i)[0] == t[i + 0]);
            assert(t.skip(i)[0] == (e + (esc_text(s, j + 1) + seq!['"']))[0]);
            assert(e[0] == '\\');
            assert(t[i] == '\\');
            assert(t.skip(i)[1] == t[i + 1]);
            assert(t.skip(i)[1] == (e + (esc_text(s, j + 1) + seq!['"']))[1]);
            assert(t[i + 1] == x);
            let st1 = crate::parse::spec_transfer('\\', dq_state());
            assert(crate::parse::spec_transfer(x, st1) == dq_state());
            assert(t[i] != '"');
            let st2 = crate::parse::spec_transfer(t[i + 1], st1);
            assert(st2.quote != crate::parse::QuoteStatus::NoQuote);
            assert(crate::text::close_idx(t, '"', i, dq_state()) == crate::text::close_idx(
                t,
                '"',
                i + 1,
                st1,
            ));
            assert(crate::text::close_idx(t, '"', i + 1, st1) == crate::text::close_idx(
                t,
                '"',
                i + 2,
                dq_state(),
            ));
            assert(t.skip(i + 2) =~= esc_text(s, j + 1) + seq!['"']) by {
                assert(t.skip(i).skip(2) =~= t.skip(i + 2));
            }
            lemma_close_esc(s, j + 1, t, i + 2);
        } else {
            assert(t.skip(i)[0] == t[i + 0]);
            assert(t.skip(i)[0] == (e + (esc_text(s, j + 1) + seq!['"']))[0]);
            assert(e[0] == c);
            assert(t[i] == c);
            assert(c != '"');
            assert(crate::parse::spec_transfer(c, dq_state()) == dq_state());
            assert(crate::text::close_idx(t, '"', i, dq_state()) == crate::text::close_idx(
                t,
                '"',
                i + 1,
                dq_state(),
            ));
            assert(t.skip(i + 1) =~= esc_text(s, j + 1) + seq!['"']) by {
                assert(t.skip(i).skip(1) =~= t.skip(i + 1));
            }
            lemma_close_esc(s, j + 1, t, i + 1);
        }
    }
}

/// The precedence scan passes over a quoted literal without recording
/// anything; the closing quote returns it to top level.
proof fn lemma_expr_esc(s: Seq<char>, j: int, t: Seq<char>, i: int, acc: crate::expr::ExprScan)
    requires
        0 <= j <= s.len(),
        0 <= i <= t.len(),
        t.skip(i) == esc_text(s, j) + seq!['"'],
        acc.st == dq_state(),
    ensures
        ({
            let r = crate::expr::expr_scan(t, i, acc);
            &&& r.st == crate::parse::LppStatus::init()
            &&& r.temp == acc.temp
            &&& r.front == acc.front
            &&& r.minpr == acc.minpr
            &&& r.opindex == acc.opindex
            &&& r.opend == acc.opend
        }),
    decreases s.len() - j,
{
    if j == s.len() {
        assert(t.skip(i) =~= seq!['"']);
        assert(i == t.len() - 1);
        assert(t.skip(i)[0] == t[i + 0]);
        assert(t.skip(i)[0] == '"');
        assert(t[i] == '"');
        let stepped = crate::expr::expr_step('"', i, acc);
        assert(crate::parse::spec_transfer('"', dq_state()) == crate::parse::LppStatus::init());
        assert(stepped.st == crate::parse::LppStatus::init());
        assert(crate::expr::expr_scan(t, i, acc) == crate::expr::expr_scan(t, i + 1, stepped));
        assert(crate::expr::expr_scan(t, i + 1, stepped) == stepped);
    } else {
        let c = s[j];
        let e = esc_char(c);
        assert(t.skip(i) == e + (esc_text(s, j + 1) + seq!['"'])) by {
            assert(esc_text(s, j) == e + esc_text(s, j + 1));
            assert(e + (esc_text(s, j + 1) + seq!['"']) =~= (e + esc_text(s, j + 1))
                + seq!['"']);
        }
        assert(t.skip(i).len() == t.len() - i);
        assert(t.len() - i >= e.len() + 1);
        if c == '\r' || c == '\t' || c == '\u{0}' || c == '\n' || c == '\\' || c == '\'' || c
            == '"' {
            let x = e[1];
            assert(t.skip(i)[0] == t[i + 0]);
            assert(t.skip(i)[0] == (e + (esc_text(s, j + 1) + seq!['"']))[0]);
            assert(e[0] == '\\');
            assert(t[i] == '\\');
            assert(t.skip(i)[1] == t[i + 1]);
            assert(t.skip(i)[1] == (e + (esc_text(s, j + 1) + seq!['"']))[1]);
            assert(t[i + 1] == x);
            let st1 = crate::parse::spec_transfer('\\', dq_state());
            let a1 = crate::expr::expr_step('\\', i, acc);
            assert(a1.st == st1 && a1.temp == acc.temp && a1.front == acc.front && a1.minpr
                == acc.minpr && a1.opindex == acc.opindex && a1.opend == acc.opend);
            let a2 = crate::expr::expr_step(x, i + 1, a1);
            assert(crate::parse::spec_transfer(x, st1) == dq_state());
            assert(a2.st == dq_state() && a2.temp == acc.temp && a2.front == acc.front && a2.minpr
                == acc.minpr && a2.opindex == acc.opindex && a2.opend == acc.opend);
            assert(crate::expr::expr_scan(t, i, acc) == crate::expr::expr_scan(t, i + 1, a1));
            assert(crate::expr::expr_scan(t, i + 1, a1) == crate::expr::expr_scan(
                t,
                i + 2,
                a2,
            ));
            assert(t.skip(i + 2) =~= esc_text(s, j + 1) + seq!['"']) by {
                assert(t.skip(i).skip(2) =~= t.skip(i + 2));
            }
            lemma_expr_esc(s, j + 1, t, i + 2, a2);
        } else {
            assert(t.skip(i)[0] == t[i + 0]);
            assert(t.skip(i)[0] == (e + (esc_text(s, j + 1) + seq!['"']))[0]);
            assert(e[0] == c);
            assert(t[i] == c);
            let a1 = crate::expr::expr_step(c, i, acc);
            assert(crate::parse::spec_transfer(c, dq_state()) == dq_state());
            assert(a1.st == dq_state() && a1.temp == acc.temp && a1.front == acc.front && a1.minpr
                == acc.minpr && a1.opindex == acc.opindex && a1.opend == acc.opend);
            assert(crate::expr::expr_scan(t, i, acc) == crate::expr::expr_scan(t, i + 1, a1));
            assert(t.skip(i + 1) =~= esc_text(s, j + 1) + seq!['"']) by {
                assert(t.skip(i).skip(1) =~= t.skip(i + 1));
            }
            lemma_expr_esc(s, j + 1, t, i + 1, a1);
        }
    }
}

/// A serialized string parses back to the string it came from: the string
/// case of the round-trip law, for every character sequence.
pub proof fn lemma_parse_inverts_string(s: Seq<char>)
    ensures
        spec_parse(crate::text::spec_clearnull(to_text(VarT::String(s)))) == Some(VarT::String(s)),
{
    let e = esc_text(s, 0);
    let t = to_text(VarT::String(s));
    assert(t == seq!['"'] + e + seq!['"']);
    assert(t.len() == e.len() + 2);
    assert(t[0] == '"');
    assert(t[t.len() - 1] == '"');
    // the whitespace filter leaves the serialized text alone
    lemma_esc_no_ws(s, 0);
    assert forall|k: int|
        0 <= k < t.len() implies !(#[trigger] t[k] == '\r' || t[k] == '\t' || t[k] == '\n') by {
        if 1 <= k < t.len() - 1 {
            assert(t[k] == e[k - 1]);
        }
    }
    lemma_cn_id(t, crate::parse::LppStatus::init());
    assert(crate::text::spec_clearnull(t) == t);
    // the text does not read as an expression: the scan spends it all
    // inside the quotes
    assert(!crate::text::spec_covered(t, '(', ')'));
    let init = crate::expr::expr_scan_init();
    let stepped = crate::expr::expr_step('"', 0, init);
    proof_expr_first_quote(t, init);
    assert(t.skip(1) =~= e + seq!['"']);
    lemma_expr_esc(s, 0, t, 1, stepped);
    let sc = crate::expr::expr_scan(t, 0, init);
    assert(sc == crate::expr::expr_scan(t, 1, stepped));
    assert(sc.temp == Seq::<char>::empty());
    assert(crate::expr::spec_getprio(sc.temp, sc.front) == -1);
    assert(crate::expr::expr_final(t).minpr == crate::expr::maxpr());
    assert(!crate::expr::spec_expr_found(t));
    assert(crate::expr::expr_final(t).st == crate::parse::LppStatus::init());
    assert(!crate::expr::spec_expr_err(t));
    assert(!crate::expr::spec_isexp(t));
    // not a numeric literal, not a word literal
    assert(!filter_char('"'));
    assert(!num_filter_ok(t));
    assert(t != seq!['n', 'u', 'l', 'l']);
    assert(t != seq!['t', 'r', 'u', 'e']);
    assert(t != seq!['f', 'a', 'l', 's', 'e']);
    // the whole text is one double-quoted literal
    assert(!crate::text::spec_covered(t, '\'', '\''));
    let st2 = crate::parse::spec_transfer('"', crate::parse::LppStatus::init());
    assert(st2 == dq_state());
    assert(crate::text::close_idx(t, '"', 0, crate::parse::LppStatus::init())
        == crate::text::close_idx(t, '"', 1, dq_state()));
    lemma_close_esc(s, 0, t, 1);
    assert(crate::text::spec_covered(t, '"', '"'));
    // and decoding its contents gives the string back
    assert(t.subrange(1, t.len() - 1) =~= e);
    lemma_unescape_inverts_escape(s);
    assert(spec_parse(t) == Some(VarT::String(s)));
}

/// The first step of the precedence scan on an opening quote only moves
/// the state machine into the quote.
proof fn proof_expr_first_quote(t: Seq<char>, init: crate::expr::ExprScan)
    requires
        t.len() > 0,
        t[0] == '"',
        init == crate::expr::expr_scan_init(),
    ensures
        crate::expr::expr_scan(t, 0, init) == crate::expr::expr_scan(
            t,
            1,
            crate::expr::expr_step('"', 0, init),
        ),
        crate::expr::expr_step('"', 0, init).st == dq_state(),
        crate::expr::expr_step('"', 0, init).temp == Seq::<char>::empty(),
        crate::expr::expr_step('"', 0, init).minpr == crate::expr::maxpr(),
{
    let stepped = crate::expr::expr_step('"', 0, init);
    let cand = Seq::<char>::empty().push('"');
    assert(cand.len() == 1 && cand[0] == '"');
    lemma_nonop_char(cand, true);
    assert(crate::expr::spec_getprio(Seq::<char>::empty(), true) == -1);
    assert(crate::parse::spec_transfer('"', crate::parse::LppStatus::init()) == dq_state());
}



/// The serialized empty array and empty object parse back to themselves:
/// the degenerate composite cases of the round-trip law.
pub proof fn lemma_parse_inverts_empty_composites(v: VarT)
    requires
        v == VarT::Array(Seq::<VarT>::empty()) || v == VarT::Object(
            Seq::<(Seq<char>, VarT)>::empty(),
        ),
    ensures
        spec_parse(crate::text::spec_clearnull(to_text(v))) == Some(v),
{
    let is_arr = v is Array;
    let open_c: char = if is_arr {
        '['
    } else {
        '{'
    };
    let close_c: char = if is_arr {
        ']'
    } else {
        '}'
    };
    let t = to_text(v);
    assert(t =~= seq![open_c, close_c]) by {
        if is_arr {
            assert(arr_text(Seq::<VarT>::empty(), 0) == Seq::<char>::empty());
            assert(seq!['['] + Seq::<char>::empty() + seq![']'] =~= seq!['[', ']']);
        } else {
            assert(obj_text(Seq::<(Seq<char>, VarT)>::empty(), 0) == Seq::<char>::empty());
            assert(seq!['{'] + Seq::<char>::empty() + seq!['}'] =~= seq!['{', '}']);
        }
    }
    lemma_cn_id(t, crate::parse::LppStatus::init());
    assert(crate::text::spec_clearnull(t) == t);
    // the two-character text does not read as an expression
    assert(!crate::text::spec_covered(t, '(', ')'));
    let init = crate::expr::expr_scan_init();
    let a1 = crate::expr::expr_step(open_c, 0, init);
    let st1 = crate::parse::spec_transfer(open_c, crate::parse::LppStatus::init());
    proof_two_char_scan(t, open_c, close_c, init, a1, st1);
    assert(!crate::expr::spec_isexp(t));
    // not a number, not a word literal, not a string, not a function
    assert(!filter_char(open_c));
    assert(!num_filter_ok(t));
    assert(t != seq!['n', 'u', 'l', 'l']);
    assert(t != seq!['t', 'r', 'u', 'e']);
    assert(t != seq!['f', 'a', 'l', 's', 'e']);
    assert(!crate::text::spec_covered(t, '\'', '\''));
    assert(!crate::text::spec_covered(t, '"', '"'));
    // the whole text is one bracket pair around empty contents
    assert(crate::text::close_idx(t, close_c, 0, crate::parse::LppStatus::init()) == Some(1int)) by {
        assert(st1.brace == 1 && st1.quote == crate::parse::QuoteStatus::NoQuote);
        let st2 = crate::parse::spec_transfer(close_c, st1);
        assert(st2.brace == 0 && st2.quote == crate::parse::QuoteStatus::NoQuote);
        assert(crate::text::close_idx(t, close_c, 0, crate::parse::LppStatus::init())
            == crate::text::close_idx(t, close_c, 1, st1));
    }
    assert(crate::text::spec_covered(t, open_c, close_c));
    if is_arr {
        assert(!crate::text::spec_covered(t, '[', ']') || t[0] == '[');
    } else {
        assert(t[0] == '{');
        assert(!crate::text::spec_covered(t, '[', ']'));
    }
    let inner = t.subrange(1, t.len() - 1);
    assert(inner =~= Seq::<char>::empty());
    assert(crate::text::spec_split(inner, ',') == Seq::<Seq<char>>::empty());
    if is_arr {
        assert(parse_elems(Seq::<Seq<char>>::empty(), 0, t.len() as int, Seq::empty()) == Some(
            Seq::<VarT>::empty(),
        ));
    } else {
        assert(parse_fields(Seq::<Seq<char>>::empty(), 0, t.len() as int, Seq::empty()) == Some(
            Seq::<(Seq<char>, VarT)>::empty(),
        ));
    }
}

/// A bare bracket pair scans to rest with nothing recorded.
proof fn proof_two_char_scan(
    t: Seq<char>,
    open_c: char,
    close_c: char,
    init: crate::expr::ExprScan,
    a1: crate::expr::ExprScan,
    st1: crate::parse::LppStatus,
)
    requires
        t == seq![open_c, close_c],
        (open_c == '[' && close_c == ']') || (open_c == '{' && close_c == '}'),
        init == crate::expr::expr_scan_init(),
        a1 == crate::expr::expr_step(open_c, 0, init),
        st1 == crate::parse::spec_transfer(open_c, crate::parse::LppStatus::init()),
    ensures
        !crate::expr::spec_expr_err(t),
        !crate::expr::spec_expr_found(t),
{
    let cand = Seq::<char>::empty().push(open_c);
    assert(cand.len() == 1 && cand[0] == open_c);
    lemma_nonop_char(cand, true);
    assert(crate::expr::spec_getprio(Seq::<char>::empty(), true) == -1);
    assert(st1.brace == 1 && st1.quote == crate::parse::QuoteStatus::NoQuote);
    assert(a1.st == st1 && a1.temp == Seq::<char>::empty() && a1.minpr == crate::expr::maxpr());
    let a2 = crate::expr::expr_step(close_c, 1, a1);
    let st2 = crate::parse::spec_transfer(close_c, st1);
    assert(st2.brace == 0 && st2.quote == crate::parse::QuoteStatus::NoQuote);
    assert(a2.st == st2 && a2.temp == Seq::<char>::empty() && a2.minpr == crate::expr::maxpr());
    assert(crate::expr::expr_scan(t, 0, init) == crate::expr::expr_scan(t, 1, a1));
    assert(crate::expr::expr_scan(t, 1, a1) == crate::expr::expr_scan(t, 2, a2));
    assert(crate::expr::expr_scan(t, 2, a2) == a2);
    assert(crate::expr::expr_final(t).minpr == crate::expr::maxpr());
    assert(crate::expr::expr_final(t).st == st2);
}

} // verus!
