//! The scope and reference model and the statement dispatcher: a shared
//! store of value cells, binding environments with constant flags, lazy
//! references that auto-vivify on demand, and the keyword, member and
//! call-binding resolution.

use vstd::prelude::*;
use crate::error::Error;
use crate::func::FuncValue;
use crate::var::{
    Var, VarT, ValueType, vview, fviews, tinsert, tlookup, lemma_fviews, obj_get, obj_set, str_eq,
    vviews, lemma_vviews,
};
use crate::text::{covered_with, ulen};

verus! {

broadcast use vstd::std_specs::vec::group_vec_axioms;

/// The shared store of the binding graph: value cells and scopes live
/// here, named by index. A cell models one reference-counted shared slot;
/// freeing it models dropping its last owning reference, and observers
/// that still name the index then resolve to absent.
pub struct Heap {
    pub cells: Vec<Option<Var>>,
    pub scopes: Vec<Option<Scope>>,
}

/// A binding environment: one object-valued cell in the heap, and the
/// per-name constant flags beside it.
pub struct Scope {
    pub val: usize,
    pub constant: Vec<(String, bool)>,
}

/// Whether a cell index names a live cell.
pub open spec fn cell_live(h: Heap, c: int) -> bool {
    0 <= c < h.cells@.len() && h.cells@[c] is Some
}

/// The shadow of a live cell's value.
pub open spec fn cell_view(h: Heap, c: int) -> VarT {
    vview(h.cells@[c]->0)
}

/// Whether a scope index names a live scope.
pub open spec fn scope_live(h: Heap, s: int) -> bool {
    0 <= s < h.scopes@.len() && h.scopes@[s] is Some
}

/// The scope under an index.
pub open spec fn scope_at(h: Heap, s: int) -> Scope {
    h.scopes@[s]->0
}

/// The internal contract of a scope: its cell is live and holds the
/// object variant. Any breach is a defect of this library, never a
/// consequence of input.
pub open spec fn scope_ok(h: Heap, s: Scope) -> bool {
    &&& cell_live(h, s.val as int)
    &&& h.cells@[s.val as int]->0 is Object
}

/// The bindings of a scope: the fields of its object cell.
pub open spec fn scope_fields(h: Heap, s: Scope) -> Seq<(Seq<char>, VarT)> {
    fviews(h.cells@[s.val as int]->0->Object_0, 0)
}

/// The name-and-flag pairs of a constant table.
pub open spec fn fpairs(flags: Seq<(String, bool)>) -> Seq<(Seq<char>, bool)> {
    Seq::new(flags.len(), |i: int| ((flags[i]).0@, (flags[i]).1))
}

/// The constant flags of a scope.
pub open spec fn cflags(s: Scope) -> Seq<(Seq<char>, bool)> {
    fpairs(s.constant@)
}

/// The first flag bound to a name.
pub open spec fn flookup(s: Seq<(Seq<char>, bool)>, key: Seq<char>) -> Option<bool>
    decreases s.len(),
{
    if s.len() == 0 {
        None
    } else if s[0].0 == key {
        Some(s[0].1)
    } else {
        flookup(s.drop_first(), key)
    }
}

/// The flags after binding a name: the first binding of that name is
/// rewritten, a fresh name appended.
pub open spec fn finsert(s: Seq<(Seq<char>, bool)>, key: Seq<char>, b: bool) -> Seq<
    (Seq<char>, bool),
>
    decreases s.len(),
{
    if s.len() == 0 {
        seq![(key, b)]
    } else if s[0].0 == key {
        seq![(key, b)] + s.drop_first()
    } else {
        seq![s[0]] + finsert(s.drop_first(), key, b)
    }
}

/// The flags after unbinding a name: the first binding of it is dropped.
pub open spec fn fremove(s: Seq<(Seq<char>, bool)>, key: Seq<char>) -> Seq<(Seq<char>, bool)>
    decreases s.len(),
{
    if s.len() == 0 {
        s
    } else if s[0].0 == key {
        s.drop_first()
    } else {
        seq![s[0]] + fremove(s.drop_first(), key)
    }
}

/// The fields after unbinding a key: the first field with it is dropped.
pub open spec fn tremove(fields: Seq<(Seq<char>, VarT)>, key: Seq<char>) -> Seq<(Seq<char>, VarT)>
    decreases fields.len(),
{
    if fields.len() == 0 {
        fields
    } else if fields[0].0 == key {
        fields.drop_first()
    } else {
        seq![fields[0]] + tremove(fields.drop_first(), key)
    }
}

/// Rewriting the first matching flag at the position a scan found it.
proof fn lemma_finsert_at(s: Seq<(Seq<char>, bool)>, key: Seq<char>, b: bool, i: int)
    requires
        0 <= i <= s.len(),
        forall|j: int| 0 <= j < i ==> (#[trigger] s[j]).0 != key,
        i < s.len() ==> s[i].0 == key,
    ensures
        i < s.len() ==> finsert(s, key, b) == s.update(i, (key, b)),
        i == s.len() ==> finsert(s, key, b) == s.push((key, b)),
    decreases s.len(),
{
    if s.len() == 0 {
        assert(s.push((key, b)) =~= seq![(key, b)]);
    } else if i == 0 {
        assert(seq![(key, b)] + s.drop_first() =~= s.update(0, (key, b)));
    } else {
        let rest = s.drop_first();
        assert forall|j: int| 0 <= j < i - 1 implies (#[trigger] rest[j]).0 != key by {
            assert(rest[j] == s[j + 1]);
        }
        lemma_finsert_at(rest, key, b, i - 1);
        if i < s.len() {
            assert(rest[i - 1] == s[i]);
            assert(seq![s[0]] + rest.update(i - 1, (key, b)) =~= s.update(i, (key, b)));
        } else {
            assert(seq![s[0]] + rest.push((key, b)) =~= s.push((key, b)));
        }
    }
}

/// Dropping the first matching flag at the position a scan found it.
proof fn lemma_fremove_at(s: Seq<(Seq<char>, bool)>, key: Seq<char>, i: int)
    requires
        0 <= i <= s.len(),
        forall|j: int| 0 <= j < i ==> (#[trigger] s[j]).0 != key,
        i < s.len() ==> s[i].0 == key,
    ensures
        i < s.len() ==> fremove(s, key) == s.take(i) + s.skip(i + 1) && flookup(s, key) == Some(
            s[i].1,
        ),
        i == s.len() ==> fremove(s, key) == s && flookup(s, key) is None,
    decreases s.len(),
{
    if s.len() == 0 {
    } else if i == 0 {
        assert(s.take(0) + s.skip(1) =~= s.drop_first());
    } else {
        let rest = s.drop_first();
        assert forall|j: int| 0 <= j < i - 1 implies (#[trigger] rest[j]).0 != key by {
            assert(rest[j] == s[j + 1]);
        }
        lemma_fremove_at(rest, key, i - 1);
        if i < s.len() {
            assert(rest[i - 1] == s[i]);
            assert(seq![s[0]] + (rest.take(i - 1) + rest.skip(i)) =~= s.take(i) + s.skip(i + 1));
        } else {
            assert(seq![s[0]] + rest =~= s);
        }
    }
}

/// Dropping the first matching field at the position a scan found it.
proof fn lemma_tremove_at(fields: Seq<(Seq<char>, VarT)>, key: Seq<char>, i: int)
    requires
        0 <= i <= fields.len(),
        forall|j: int| 0 <= j < i ==> (#[trigger] fields[j]).0 != key,
        i < fields.len() ==> fields[i].0 == key,
    ensures
        i < fields.len() ==> tremove(fields, key) == fields.take(i) + fields.skip(i + 1)
            && tlookup(fields, key) == Some(fields[i].1),
        i == fields.len() ==> tremove(fields, key) == fields && tlookup(fields, key) is None,
    decreases fields.len(),
{
    if fields.len() == 0 {
    } else if i == 0 {
        assert(fields.take(0) + fields.skip(1) =~= fields.drop_first());
    } else {
        let rest = fields.drop_first();
        assert forall|j: int| 0 <= j < i - 1 implies (#[trigger] rest[j]).0 != key by {
            assert(rest[j] == fields[j + 1]);
        }
        lemma_tremove_at(rest, key, i - 1);
        if i < fields.len() {
            assert(rest[i - 1] == fields[i]);
            assert(seq![fields[0]] + (rest.take(i - 1) + rest.skip(i)) =~= fields.take(i)
                + fields.skip(i + 1));
        } else {
            assert(seq![fields[0]] + rest =~= fields);
        }
    }
}

/// Rewrites the first flag bound to a name, or appends a fresh one.
#[verifier::loop_isolation(false)]
fn flag_set(flags: &mut Vec<(String, bool)>, key: String, b: bool)
    ensures
        fpairs(final(flags)@) == finsert(fpairs(old(flags)@), key@, b),
{
    let ghost gf = fpairs(old(flags)@);
    let mut i: usize = 0;
    while i < flags.len()
        invariant
            0 <= i <= flags@.len(),
            flags@ == old(flags)@,
            gf.len() == flags@.len(),
            forall|k: int| 0 <= k < gf.len() ==> #[trigger] gf[k] == (flags@[k].0@, flags@[k].1),
            forall|j: int| 0 <= j < i ==> (#[trigger] gf[j]).0 != key@,
        decreases flags@.len() - i,
    {
        if str_eq(flags[i].0.as_str(), key.as_str()) {
            proof {
                lemma_finsert_at(gf, key@, b, i as int);
            }
            flags.set(i, (key, b));
            proof {
                assert(fpairs(flags@) =~= gf.update(i as int, (key@, b)));
            }
            return ;
        }
        i = i + 1;
    }
    proof {
        lemma_finsert_at(gf, key@, b, gf.len() as int);
    }
    flags.push((key, b));
    proof {
        assert(fpairs(flags@) =~= gf.push((key@, b)));
    }
}

/// Drops the first flag bound to a name and reports it.
#[verifier::loop_isolation(false)]
fn flag_remove(flags: &mut Vec<(String, bool)>, key: &str) -> (r: bool)
    ensures
        fpairs(final(flags)@) == fremove(fpairs(old(flags)@), key@),
        r == (match flookup(fpairs(old(flags)@), key@) {
            Some(b) => b,
            None => false,
        }),
{
    let ghost gf = fpairs(old(flags)@);
    let mut i: usize = 0;
    while i < flags.len()
        invariant
            0 <= i <= flags@.len(),
            flags@ == old(flags)@,
            gf.len() == flags@.len(),
            forall|k: int| 0 <= k < gf.len() ==> #[trigger] gf[k] == (flags@[k].0@, flags@[k].1),
            forall|j: int| 0 <= j < i ==> (#[trigger] gf[j]).0 != key@,
        decreases flags@.len() - i,
    {
        if str_eq(flags[i].0.as_str(), key) {
            proof {
                lemma_fremove_at(gf, key@, i as int);
            }
            let item = flags.remove(i);
            proof {
                assert(fpairs(flags@) =~= gf.take(i as int) + gf.skip(i as int + 1));
            }
            return item.1;
        }
        i = i + 1;
    }
    proof {
        lemma_fremove_at(gf, key@, gf.len() as int);
        assert(fpairs(flags@) =~= gf);
    }
    false
}

/// Drops the first field bound to a key and hands it out.
#[verifier::loop_isolation(false)]
fn obj_remove(fields: &mut Vec<(String, Var)>, key: &str) -> (r: Option<Var>)
    ensures
        fviews(*final(fields), 0) == tremove(fviews(*old(fields), 0), key@),
        r matches Some(v) ==> tlookup(fviews(*old(fields), 0), key@) == Some(vview(v)),
        r is None ==> tlookup(fviews(*old(fields), 0), key@) is None,
{
    let ghost gf = fviews(*old(fields), 0);
    proof {
        lemma_fviews(*old(fields), 0);
    }
    let mut i: usize = 0;
    while i < fields.len()
        invariant
            0 <= i <= fields@.len(),
            fields@ == old(fields)@,
            gf == fviews(*old(fields), 0),
            gf.len() == fields@.len(),
            forall|k: int| 0 <= k < gf.len() ==> #[trigger] gf[k] == crate::var::pview(
                fields@[k],
            ),
            forall|j: int| 0 <= j < i ==> (#[trigger] gf[j]).0 != key@,
        decreases fields@.len() - i,
    {
        if str_eq(fields[i].0.as_str(), key) {
            proof {
                lemma_tremove_at(gf, key@, i as int);
            }
            let item = fields.remove(i);
            proof {
                lemma_fviews(*fields, 0);
                assert(fviews(*fields, 0) =~= gf.take(i as int) + gf.skip(i as int + 1));
            }
            return Some(item.1);
        }
        i = i + 1;
    }
    proof {
        lemma_tremove_at(gf, key@, gf.len() as int);
        lemma_fviews(*fields, 0);
        assert(fviews(*fields, 0) =~= gf);
    }
    None
}

impl Heap {
    /// An empty store.
    pub fn new() -> (h: Heap)
        ensures
            h.cells@.len() == 0,
            h.scopes@.len() == 0,
    {
        Heap { cells: Vec::new(), scopes: Vec::new() }
    }

    /// Shares a value in a fresh cell.
    pub fn cell_new(&mut self, v: Var) -> (c: usize)
        ensures
            final(self).cells@.len() == old(self).cells@.len() + 1,
            c == old(self).cells@.len(),
            final(self).cells@ == old(self).cells@.push(Some(v)),
            final(self).scopes@ == old(self).scopes@,
    {
        let c = self.cells.len();
        self.cells.push(Some(v));
        c
    }

    /// Drops the last owning reference of a cell: observers of the index
    /// then resolve to absent.
    pub fn free_cell(&mut self, c: usize)
        requires
            c < old(self).cells@.len(),
        ensures
            final(self).cells@ == old(self).cells@.update(c as int, Option::None),
            final(self).scopes@ == old(self).scopes@,
    {
        self.cells.set(c, Option::None);
    }

    /// Reads a cell: a copy of the shared value, or nothing once freed.
    pub fn cell_get(&self, c: usize) -> (r: Option<Var>)
        requires
            c < self.cells@.len(),
        ensures
            r matches Some(v) ==> cell_live(*self, c as int) && vview(v) == cell_view(
                *self,
                c as int,
            ),
            r is None ==> !cell_live(*self, c as int),
    {
        match &self.cells[c] {
            Some(v) => Some(v.duplicate()),
            None => None,
        }
    }

    /// Registers a scope in the store.
    pub fn scope_new(&mut self, s: Scope) -> (i: usize)
        ensures
            final(self).scopes@.len() == old(self).scopes@.len() + 1,
            i == old(self).scopes@.len(),
            final(self).scopes@ == old(self).scopes@.push(Some(s)),
            final(self).cells@ == old(self).cells@,
    {
        let i = self.scopes.len();
        self.scopes.push(Some(s));
        i
    }

    /// Destroys a scope; observers of the index then resolve to absent.
    pub fn free_scope(&mut self, i: usize)
        requires
            i < old(self).scopes@.len(),
        ensures
            final(self).scopes@ == old(self).scopes@.update(i as int, Option::None),
            final(self).cells@ == old(self).cells@,
    {
        self.scopes.set(i, Option::None);
    }
}

impl Scope {
    /// A fresh, empty binding environment over a fresh object cell.
    pub fn new(h: &mut Heap) -> (s: Scope)
        ensures
            scope_ok(*final(h), s),
            scope_fields(*final(h), s) == Seq::<(Seq<char>, VarT)>::empty(),
            cflags(s) == Seq::<(Seq<char>, bool)>::empty(),
            s.val == old(h).cells@.len(),
            final(h).cells@.len() == old(h).cells@.len() + 1,
            forall|c: int| 0 <= c < old(h).cells@.len() ==> final(h).cells@[c] == old(h).cells@[c],
            final(h).scopes@ == old(h).scopes@,
    {
        let fields: Vec<(String, Var)> = Vec::new();
        proof {
            lemma_fviews(fields, 0);
            assert(fviews(fields, 0) =~= Seq::<(Seq<char>, VarT)>::empty());
        }
        let c = h.cell_new(Var::Object(fields));
        let s = Scope { val: c, constant: Vec::new() };
        proof {
            assert(cflags(s) =~= Seq::<(Seq<char>, bool)>::empty());
        }
        s
    }

    /// The shared handle of the scope's underlying object cell; holding it
    /// does not keep the cell alive.
    pub fn raw(&self) -> (c: usize)
        ensures
            c == self.val,
    {
        self.val
    }

    /// Reads a binding: a copy of the value and its constant flag, or
    /// nothing with a clear flag when the name is unbound.
    pub fn get(&self, h: &Heap, key: &String) -> (r: (Option<Var>, bool))
        requires
            scope_ok(*h, *self),
        ensures
            r.0 matches Some(v) ==> tlookup(scope_fields(*h, *self), key@) == Some(vview(v)),
            r.0 is None ==> tlookup(scope_fields(*h, *self), key@) is None,
            r.1 == (tlookup(scope_fields(*h, *self), key@) is Some && flookup(cflags(*self), key@)
                == Some(true)),
    {
        let cell = &h.cells[self.val];
        let fields: &Vec<(String, Var)> = match cell {
            Some(Var::Object(fields)) => fields,
            _ => vstd::pervasive::unreached(),
        };
        match obj_get(fields, key.as_str()) {
            Some(v) => {
                let flag = self.flag_of(key.as_str());
                (Some(v.duplicate()), flag)
            },
            None => (None, false),
        }
    }

    /// The constant flag recorded for a name.
    #[verifier::loop_isolation(false)]
    fn flag_of(&self, key: &str) -> (r: bool)
        ensures
            r == (flookup(cflags(*self), key@) == Some(true)),
    {
        let ghost gf = cflags(*self);
        proof {
            assert(gf.skip(0) =~= gf);
        }
        let mut i: usize = 0;
        while i < self.constant.len()
            invariant
                0 <= i <= self.constant@.len(),
                gf == cflags(*self),
                gf.len() == self.constant@.len(),
                forall|k: int| 0 <= k < gf.len() ==> #[trigger] gf[k] == (
                    self.constant@[k].0@,
                    self.constant@[k].1,
                ),
                flookup(gf, key@) == flookup(gf.skip(i as int), key@),
            decreases self.constant@.len() - i,
        {
            proof {
                assert(gf.skip(i as int)[0] == gf[i as int]);
                assert(gf.skip(i as int).drop_first() =~= gf.skip(i as int + 1));
            }
            if str_eq(self.constant[i].0.as_str(), key) {
                return self.constant[i].1;
            }
            i = i + 1;
        }
        proof {
            assert(gf.skip(gf.len() as int) =~= Seq::<(Seq<char>, bool)>::empty());
        }
        false
    }

    /// Binds a name to a value and records its constant flag; an earlier
    /// binding of the name is replaced.
    pub fn set(&mut self, h: &mut Heap, key: String, value: (Var, bool))
        requires
            scope_ok(*old(h), *old(self)),
        ensures
            scope_ok(*final(h), *final(self)),
            final(self).val == old(self).val,
            scope_fields(*final(h), *final(self)) == tinsert(
                scope_fields(*old(h), *old(self)),
                key@,
                vview(value.0),
            ),
            cflags(*final(self)) == finsert(cflags(*old(self)), key@, value.1),
            final(h).cells@.len() == old(h).cells@.len(),
            final(h).scopes@ == old(h).scopes@,
            forall|c: int|
                0 <= c < old(h).cells@.len() && c != old(self).val ==> final(h).cells@[c] == old(
                    h,
                ).cells@[c],
    {
        let key_flag = key.clone();
        let mut taken = self.copy_fields(h);
        obj_set(&mut taken, key, value.0);
        self.put_fields(h, taken);
        flag_set(&mut self.constant, key_flag, value.1);
    }

    /// A copy of the field list in the scope's cell.
    fn copy_fields(&self, h: &Heap) -> (r: Vec<(String, Var)>)
        requires
            scope_ok(*h, *self),
        ensures
            fviews(r, 0) == scope_fields(*h, *self),
    {
        let fields: &Vec<(String, Var)> = match &h.cells[self.val] {
            Some(Var::Object(fields)) => fields,
            _ => vstd::pervasive::unreached(),
        };
        let mut out: Vec<(String, Var)> = Vec::new();
        let mut i: usize = 0;
        while i < fields.len()
            invariant
                0 <= i <= fields@.len(),
                out@.len() == i,
                forall|k: int|
                    0 <= k < i ==> #[trigger] crate::var::pview(out@[k]) == crate::var::pview(
                        fields@[k],
                    ),
            decreases fields@.len() - i,
        {
            let k = fields[i].0.clone();
            let v = fields[i].1.duplicate();
            out.push((k, v));
            i = i + 1;
        }
        proof {
            lemma_fviews(*fields, 0);
            lemma_fviews(out, 0);
            assert(fviews(out, 0) =~= fviews(*fields, 0));
        }
        out
    }

    /// Puts a field list into the scope's cell.
    fn put_fields(&self, h: &mut Heap, fields: Vec<(String, Var)>)
        requires
            self.val < old(h).cells@.len(),
        ensures
            final(h).cells@ == old(h).cells@.update(self.val as int, Some(Var::Object(fields))),
            final(h).scopes@ == old(h).scopes@,
            scope_fields(*final(h), *self) == fviews(fields, 0),
            scope_ok(*final(h), *self),
    {
        h.cells.set(self.val, Some(Var::Object(fields)));
    }

    /// Unbinds a name: the removed value and its recorded constant flag,
    /// or nothing with a clear flag.
    pub fn remove(&mut self, h: &mut Heap, key: &String) -> (r: (Option<Var>, bool))
        requires
            scope_ok(*old(h), *old(self)),
        ensures
            scope_ok(*final(h), *final(self)),
            final(self).val == old(self).val,
            scope_fields(*final(h), *final(self)) == tremove(
                scope_fields(*old(h), *old(self)),
                key@,
            ),
            cflags(*final(self)) == fremove(cflags(*old(self)), key@),
            r.0 matches Some(v) ==> tlookup(scope_fields(*old(h), *old(self)), key@) == Some(
                vview(v),
            ),
            r.0 is None ==> tlookup(scope_fields(*old(h), *old(self)), key@) is None,
            r.1 == (match flookup(cflags(*old(self)), key@) {
                Some(b) => b,
                None => false,
            }),
            final(h).cells@.len() == old(h).cells@.len(),
            final(h).scopes@ == old(h).scopes@,
            forall|c: int|
                0 <= c < old(h).cells@.len() && c != old(self).val ==> final(h).cells@[c] == old(
                    h,
                ).cells@[c],
    {
        let mut taken = self.copy_fields(h);
        let removed = obj_remove(&mut taken, key.as_str());
        self.put_fields(h, taken);
        let flag = flag_remove(&mut self.constant, key.as_str());
        (removed, flag)
    }
}


/// The evaluation context: the current scope, the global scope, and the
/// cell the `this` binding observes. All three are non-owning names into
/// the store: the context neither keeps alive nor outlives what it
/// observes.
pub struct Context {
    pub now: usize,
    pub global: usize,
    pub this: usize,
}

impl Context {
    /// A context rooted in one scope: it is current and global at once,
    /// and `this` observes that scope's own object cell.
    pub fn from_scope(h: &Heap, now: usize) -> (c: Context)
        requires
            scope_live(*h, now as int),
        ensures
            c.now == now,
            c.global == now,
            c.this == scope_at(*h, now as int).val,
    {
        let sc: &Scope = match &h.scopes[now] {
            Some(sc) => sc,
            None => vstd::pervasive::unreached(),
        };
        Context { now, global: now, this: sc.val }
    }

    /// A context assembled from its three parts.
    pub fn from_parts(now: usize, global: usize, this: usize) -> (c: Context)
        ensures
            c.now == now,
            c.global == global,
            c.this == this,
    {
        Context { now, global, this }
    }
}

/// A value carried by a control-flow signal: a return or a throw.
#[derive(Debug)]
pub enum RetVal {
    RetValue(Var),
    ThrowValue(Var),
}

/// What a handler reports upward: an unexpected control-flow signal, or an
/// ordinary error.
#[derive(Debug)]
pub enum LppError {
    UnexpectedReturn(RetVal),
    Error(Error),
}

/// The continuation slot: which statement keyword must come next, whether
/// that demand is mandatory, and a value carried across to it.
pub struct NextVal {
    pub cmd: String,
    pub limit: bool,
    pub value: Var,
}

impl NextVal {
    /// No continuation pending.
    pub fn new() -> (r: Self)
        ensures
            r.cmd@ == Seq::<char>::empty(),
            r.limit == false,
            vview(r.value) == VarT::Null,
    {
        NextVal { cmd: String::new(), limit: false, value: Var::Null }
    }
}

/// A registered native function: its name, the type tags it accepts (an
/// empty list accepts every tag), its implementation, and whether its
/// result is a computed value rather than an addressable slot.
pub struct NativeFunc {
    pub name: String,
    pub use_type: Vec<ValueType>,
    pub func: FuncValue,
    pub isval: bool,
}

/// A not-yet-dereferenced name for an assignment target: a bare cell, an
/// array slot, an object slot, a named scope variable, or a whole scope.
pub enum LazyRef {
    Value(usize),
    ArraySlot(usize, usize),
    ObjectSlot(usize, String),
    ScopeVar(usize, String),
    Scope(usize),
}

/// Whether a lazy reference may be dereferenced against a store: a slot
/// whose cell is still alive must hold the container variant the
/// reference assumes; a freed cell or scope is merely absent.
pub open spec fn lazy_ok(h: Heap, l: LazyRef) -> bool {
    match l {
        LazyRef::Value(c) => c < h.cells@.len(),
        LazyRef::ArraySlot(c, _) => c < h.cells@.len() && (cell_live(h, c as int) ==> h.cells@[
            c as int
        ]->0 is Array),
        LazyRef::ObjectSlot(c, _) => c < h.cells@.len() && (cell_live(h, c as int) ==> h.cells@[
            c as int
        ]->0 is Object),
        LazyRef::ScopeVar(s, _) => s < h.scopes@.len() && (scope_live(h, s as int) ==> scope_ok(
            h,
            scope_at(h, s as int),
        )),
        LazyRef::Scope(s) => s < h.scopes@.len(),
    }
}

/// What a lazy reference resolves to right now: a shadow, or absent.
pub open spec fn lazy_view(h: Heap, l: LazyRef) -> Option<VarT> {
    match l {
        LazyRef::Value(c) => if cell_live(h, c as int) {
            Some(cell_view(h, c as int))
        } else {
            None
        },
        LazyRef::ArraySlot(c, i) => if cell_live(h, c as int) {
            let ts = vviews(h.cells@[c as int]->0->Array_0, 0);
            if i < ts.len() {
                Some(ts[i as int])
            } else {
                None
            }
        } else {
            None
        },
        LazyRef::ObjectSlot(c, k) => if cell_live(h, c as int) {
            tlookup(fviews(h.cells@[c as int]->0->Object_0, 0), k@)
        } else {
            None
        },
        LazyRef::ScopeVar(s, k) => if scope_live(h, s as int) {
            tlookup(scope_fields(h, scope_at(h, s as int)), k@)
        } else {
            None
        },
        LazyRef::Scope(_) => None,
    }
}

/// An element sequence padded with nulls so that a slot index is in
/// range; a sequence already long enough is left alone.
pub open spec fn padded(ts: Seq<VarT>, i: int) -> Seq<VarT> {
    if i < ts.len() {
        ts
    } else {
        ts + Seq::new((i + 1 - ts.len()) as nat, |k: int| VarT::Null)
    }
}

impl LazyRef {
    /// Reads the target: a copy of the current shared value, or nothing
    /// when the target is absent or its owner has dropped it. Reads never
    /// create the target.
    pub fn get(&self, h: &Heap) -> (r: Option<Var>)
        requires
            lazy_ok(*h, *self),
        ensures
            r matches Some(v) ==> lazy_view(*h, *self) == Some(vview(v)),
            r is None ==> lazy_view(*h, *self) is None,
    {
        match self {
            LazyRef::Value(c) => h.cell_get(*c),
            LazyRef::ArraySlot(c, i) => match &h.cells[*c] {
                Some(Var::Array(items)) => {
                    proof {
                        lemma_vviews(*items, 0);
                    }
                    if *i < items.len() {
                        Some(items[*i].duplicate())
                    } else {
                        None
                    }
                },
                Some(_) => vstd::pervasive::unreached(),
                None => None,
            },
            LazyRef::ObjectSlot(c, k) => match &h.cells[*c] {
                Some(Var::Object(fields)) => match obj_get(fields, k.as_str()) {
                    Some(v) => Some(v.duplicate()),
                    None => None,
                },
                Some(_) => vstd::pervasive::unreached(),
                None => None,
            },
            LazyRef::ScopeVar(s, k) => match &h.scopes[*s] {
                Some(sc) => sc.get(h, k).0,
                None => None,
            },
            LazyRef::Scope(_) => None,
        }
    }

    /// Auto-vivifies the target if it is absent: an array is padded with
    /// nulls up to and including the slot, an object or scope gets a fresh
    /// null entry with a clear constant flag. A target that already exists,
    /// a bare value, a whole scope, and a dropped owner are left alone, and
    /// nothing else in the store moves: every other cell and scope, every
    /// existing element, field and flag stays exactly as it was. Only the
    /// assignment path calls this, right before a write.
    #[verifier::loop_isolation(false)]
    #[verifier::rlimit(60)]
    pub fn create(&self, h: &mut Heap)
        requires
            lazy_ok(*old(h), *self),
        ensures
            lazy_ok(*final(h), *self),
            final(h).cells@.len() == old(h).cells@.len(),
            final(h).scopes@.len() == old(h).scopes@.len(),
            match *self {
                LazyRef::ArraySlot(c, i) => cell_live(*old(h), c as int) ==> lazy_view(
                    *final(h),
                    *self,
                ) == (match lazy_view(*old(h), *self) {
                    Some(v) => Some(v),
                    None => Some(VarT::Null),
                }),
                LazyRef::ObjectSlot(c, k) => cell_live(*old(h), c as int) ==> lazy_view(
                    *final(h),
                    *self,
                ) == (match lazy_view(*old(h), *self) {
                    Some(v) => Some(v),
                    None => Some(VarT::Null),
                }),
                LazyRef::ScopeVar(s, k) => scope_live(*old(h), s as int) ==> lazy_view(
                    *final(h),
                    *self,
                ) == (match lazy_view(*old(h), *self) {
                    Some(v) => Some(v),
                    None => Some(VarT::Null),
                }),
                _ => *final(h) == *old(h),
            },
            match *self {
                LazyRef::Value(_) => *final(h) == *old(h),
                LazyRef::Scope(_) => *final(h) == *old(h),
                LazyRef::ArraySlot(c, i) => {
                    &&& final(h).scopes@ == old(h).scopes@
                    &&& forall|d: int|
                        0 <= d < old(h).cells@.len() && d != c ==> final(h).cells@[d]
                            == old(h).cells@[d]
                    &&& !cell_live(*old(h), c as int) ==> *final(h) == *old(h)
                    &&& cell_live(*old(h), c as int) ==> {
                        let olds = vviews(old(h).cells@[c as int]->0->Array_0, 0);
                        &&& cell_live(*final(h), c as int)
                        &&& final(h).cells@[c as int]->0 is Array
                        &&& vviews(final(h).cells@[c as int]->0->Array_0, 0) == padded(
                            olds,
                            i as int,
                        )
                        &&& (i < olds.len() ==> *final(h) == *old(h))
                    }
                },
                LazyRef::ObjectSlot(c, k) => {
                    &&& final(h).scopes@ == old(h).scopes@
                    &&& forall|d: int|
                        0 <= d < old(h).cells@.len() && d != c ==> final(h).cells@[d]
                            == old(h).cells@[d]
                    &&& !cell_live(*old(h), c as int) ==> *final(h) == *old(h)
                    &&& cell_live(*old(h), c as int) ==> {
                        let oldf = fviews(old(h).cells@[c as int]->0->Object_0, 0);
                        &&& cell_live(*final(h), c as int)
                        &&& final(h).cells@[c as int]->0 is Object
                        &&& (tlookup(oldf, k@) is Some ==> *final(h) == *old(h))
                        &&& (tlookup(oldf, k@) is None ==> fviews(
                            final(h).cells@[c as int]->0->Object_0,
                            0,
                        ) == tinsert(oldf, k@, VarT::Null))
                    }
                },
                LazyRef::ScopeVar(s, k) => {
                    &&& final(h).cells@.len() == old(h).cells@.len()
                    &&& forall|d: int|
                        0 <= d < old(h).scopes@.len() && d != s ==> final(h).scopes@[d]
                            == old(h).scopes@[d]
                    &&& !scope_live(*old(h), s as int) ==> *final(h) == *old(h)
                    &&& scope_live(*old(h), s as int) ==> {
                        let oldsc = scope_at(*old(h), s as int);
                        &&& scope_live(*final(h), s as int)
                        &&& scope_at(*final(h), s as int).val == oldsc.val
                        &&& forall|d: int|
                            0 <= d < old(h).cells@.len() && d != oldsc.val
                                ==> final(h).cells@[d] == old(h).cells@[d]
                        &&& (tlookup(scope_fields(*old(h), oldsc), k@) is Some ==> *final(h)
                            == *old(h))
                        &&& (tlookup(scope_fields(*old(h), oldsc), k@) is None ==> {
                            let newsc = scope_at(*final(h), s as int);
                            &&& scope_ok(*final(h), newsc)
                            &&& scope_fields(*final(h), newsc) == tinsert(
                                scope_fields(*old(h), oldsc),
                                k@,
                                VarT::Null,
                            )
                            &&& cflags(newsc) == finsert(cflags(oldsc), k@, false)
                        })
                    }
                },
            },
    {
        match self {
            LazyRef::Value(_) => {},
            LazyRef::ArraySlot(c, i) => {
                let idx = *i;
                let cell = &h.cells[*c];
                let grow = match cell {
                    Some(Var::Array(items)) => {
                        proof {
                            lemma_vviews(*items, 0);
                        }
                        idx >= items.len()
                    },
                    Some(_) => vstd::pervasive::unreached(),
                    None => false,
                };
                if grow {
                    let taken = self.take_cell(h, *c);
                    let mut items: Vec<Var> = match taken {
                        Var::Array(items) => items,
                        _ => vstd::pervasive::unreached(),
                    };
                    let ghost gi = vviews(items, 0);
                    proof {
                        lemma_vviews(items, 0);
                    }
                    while items.len() <= idx
                        invariant
                            items@.len() >= gi.len(),
                            items@.len() <= idx + 1,
                            forall|k: int|
                                0 <= k < gi.len() ==> vview(#[trigger] items@[k]) == gi[k],
                            forall|k: int|
                                gi.len() <= k < items@.len() ==> vview(#[trigger] items@[k])
                                    == VarT::Null,
                        decreases idx + 1 - items@.len(),
                    {
                        items.push(Var::Null);
                    }
                    let ghost gfull = items;
                    proof {
                        lemma_vviews(items, 0);
                        assert(vviews(gfull, 0)[idx as int] == VarT::Null);
                        assert(vviews(gfull, 0).len() == gfull@.len());
                    }
                    h.cells.set(*c, Some(Var::Array(items)));
                    proof {
                        assert(h.cells@[*c as int]->0 == Var::Array(gfull));
                        assert(cell_live(*h, *c as int));
                        assert(lazy_view(*h, *self) == Some(VarT::Null));
                        assert(lazy_view(*old(h), *self) is None);
                        assert(gfull@.len() == idx + 1);
                        assert(padded(gi, idx as int).len() == idx + 1);
                        assert forall|k: int|
                            0 <= k < idx + 1 implies #[trigger] vviews(gfull, 0)[k] == padded(
                            gi,
                            idx as int,
                        )[k] by {
                            if k < gi.len() {
                            } else {
                                assert(padded(gi, idx as int)[k] == VarT::Null);
                            }
                        }
                        assert(vviews(gfull, 0) =~= padded(gi, idx as int));
                    }
                }
            },
            LazyRef::ObjectSlot(c, k) => {
                let cell = &h.cells[*c];
                let missing = match cell {
                    Some(Var::Object(fields)) => obj_get(fields, k.as_str()).is_none(),
                    Some(_) => vstd::pervasive::unreached(),
                    None => false,
                };
                if missing {
                    let taken = self.take_cell(h, *c);
                    let mut fields: Vec<(String, Var)> = match taken {
                        Var::Object(fields) => fields,
                        _ => vstd::pervasive::unreached(),
                    };
                    let ghost gf = fviews(fields, 0);
                    obj_set(&mut fields, k.clone(), Var::Null);
                    proof {
                        lemma_tlookup_tinsert(gf, k@, VarT::Null);
                    }
                    h.cells.set(*c, Some(Var::Object(fields)));
                }
            },
            LazyRef::ScopeVar(s, k) => {
                let missing = match &h.scopes[*s] {
                    Some(sc) => sc.get(h, k).0.is_none(),
                    None => false,
                };
                if missing {
                    let mut sc: Scope = self.take_scope(h, *s);
                    let ghost gf = scope_fields(*h, sc);
                    sc.set(h, k.clone(), (Var::Null, false));
                    proof {
                        lemma_tlookup_tinsert(gf, k@, VarT::Null);
                    }
                    h.scopes.set(*s, Some(sc));
                }
            },
            LazyRef::Scope(_) => {},
        }
    }

    /// Takes a live cell's value out of the store, leaving the slot empty.
    fn take_cell(&self, h: &mut Heap, c: usize) -> (r: Var)
        requires
            cell_live(*old(h), c as int),
        ensures
            r == old(h).cells@[c as int]->0,
            final(h).cells@ == old(h).cells@.update(c as int, Option::None),
            final(h).scopes@ == old(h).scopes@,
    {
        let mut slot: Option<Var> = None;
        let taken = vstd::std_specs::vec::vec_index_mut(&mut h.cells, c);
        core::mem::swap(taken, &mut slot);
        match slot {
            Some(v) => v,
            None => vstd::pervasive::unreached(),
        }
    }

    /// Takes a live scope out of the store, leaving the slot empty.
    fn take_scope(&self, h: &mut Heap, s: usize) -> (r: Scope)
        requires
            scope_live(*old(h), s as int),
        ensures
            r == old(h).scopes@[s as int]->0,
            final(h).scopes@ == old(h).scopes@.update(s as int, Option::None),
            final(h).cells@ == old(h).cells@,
    {
        let mut slot: Option<Scope> = None;
        let taken = vstd::std_specs::vec::vec_index_mut(&mut h.scopes, s);
        core::mem::swap(taken, &mut slot);
        match slot {
            Some(v) => v,
            None => vstd::pervasive::unreached(),
        }
    }
}

/// Looking a key up right after binding it finds the new value; other
/// keys are untouched.
pub proof fn lemma_tlookup_tinsert(fields: Seq<(Seq<char>, VarT)>, key: Seq<char>, val: VarT)
    ensures
        tlookup(tinsert(fields, key, val), key) == Some(val),
        forall|k2: Seq<char>|
            k2 != key ==> #[trigger] tlookup(tinsert(fields, key, val), k2) == tlookup(fields, k2),
    decreases fields.len(),
{
    if fields.len() == 0 {
        let t = seq![(key, val)];
        assert forall|k2: Seq<char>|
            k2 != key implies #[trigger] tlookup(tinsert(fields, key, val), k2) == tlookup(
            fields,
            k2,
        ) by {
            assert(t.drop_first() =~= fields);
            assert(tlookup(t, k2) == tlookup(t.drop_first(), k2));
        }
    } else if crate::var::str_lt(key, fields[0].0) {
        let t = seq![(key, val)] + fields;
        assert(t[0] == (key, val));
        assert(t.drop_first() =~= fields);
        assert forall|k2: Seq<char>|
            k2 != key implies #[trigger] tlookup(tinsert(fields, key, val), k2) == tlookup(
            fields,
            k2,
        ) by {
            assert(tlookup(t, k2) == tlookup(t.drop_first(), k2));
        }
    } else if key == fields[0].0 {
        let t = seq![(key, val)] + fields.drop_first();
        assert(t[0] == (key, val));
        assert(t.drop_first() =~= fields.drop_first());
        assert forall|k2: Seq<char>|
            k2 != key implies #[trigger] tlookup(tinsert(fields, key, val), k2) == tlookup(
            fields,
            k2,
        ) by {
            assert(tlookup(fields, k2) == tlookup(fields.drop_first(), k2));
        }
    } else {
        lemma_tlookup_tinsert(fields.drop_first(), key, val);
        let t = seq![fields[0]] + tinsert(fields.drop_first(), key, val);
        assert(t[0] == fields[0]);
        assert(t.drop_first() =~= tinsert(fields.drop_first(), key, val));
        assert forall|k2: Seq<char>|
            k2 != key implies #[trigger] tlookup(tinsert(fields, key, val), k2) == tlookup(
            fields,
            k2,
        ) by {
            if k2 == fields[0].0 {
            } else {
                assert(tlookup(t, k2) == tlookup(t.drop_first(), k2));
            }
        }
    }
}

/// The resolved result of a name or path lookup: a detached value, an
/// addressable reference, or a computed value shadowing the reference it
/// overloads.
pub enum RefObj {
    Value(Var),
    Ref(LazyRef),
    Overloaded((Var, LazyRef)),
}

/// A resolution result: the value found, and the parent it was found in.
pub struct ResultObj {
    pub val: RefObj,
    pub pr: RefObj,
}

impl ResultObj {
    /// The value found.
    pub fn val(&self) -> (r: &RefObj)
        ensures
            r == &self.val,
    {
        &self.val
    }

    /// The parent it was found in.
    pub fn pr(&self) -> (r: &RefObj)
        ensures
            r == &self.pr,
    {
        &self.pr
    }
}


/// Whether one of the registered names is this text.
pub open spec fn name_in(cmds: Seq<String>, s: Seq<char>) -> bool {
    exists|i: int| 0 <= i < cmds.len() && (#[trigger] cmds[i])@ == s
}

/// Whether a character may appear in an identifier: a letter, an
/// underscore, a dollar sign, or (beyond the first position) a digit.
pub open spec fn ident_char(c: char) -> bool {
    ('a' <= c && c <= 'z') || ('A' <= c && c <= 'Z') || c == '_' || c == '$' || ('0' <= c && c
        <= '9')
}

/// The shape of an identifier: non-empty, made of identifier characters,
/// and not starting with a digit.
pub open spec fn ident_shape(s: Seq<char>) -> bool {
    &&& s.len() != 0
    &&& (forall|i: int| 0 <= i < s.len() ==> ident_char(#[trigger] s[i]))
    &&& !('0' <= s[0] && s[0] <= '9')
}

/// Which registered handler a statement is routed to.
#[derive(Debug)]
pub enum Dispatch {
    Keyword,
    Default,
}

/// How a member access resolves: the reserved `this` key handing the
/// object back, a registered native function to invoke, or an ordinary
/// miss.
pub enum MemberPlan {
    ThisRef,
    Native(usize, bool),
    Miss,
}

/// The first registered native function with a name.
pub open spec fn native_idx(native: Seq<NativeFunc>, name: Seq<char>, i: int) -> Option<int>
    decreases native.len() - i,
{
    if i < 0 || i >= native.len() {
        None
    } else if native[i].name@ == name {
        Some(i)
    } else {
        native_idx(native, name, i + 1)
    }
}

/// Whether a tag is among the accepted ones.
pub open spec fn tag_in(tags: Seq<ValueType>, t: ValueType) -> bool {
    exists|i: int| 0 <= i < tags.len() && tags[i] == t
}

/// The key a member access looks up: a string value directly, anything
/// else through its serialized text.
pub open spec fn member_key(iv: VarT) -> Seq<char> {
    match iv {
        VarT::String(s) => s,
        _ => crate::var::to_text(iv),
    }
}

/// The statement dispatcher: the registered keyword names (the empty name
/// standing for the default handler), the continuation slot, the native
/// function table, and the evaluation context.
pub struct Handler {
    pub context: Context,
    pub cmd: Vec<String>,
    pub next: NextVal,
    pub native: Vec<NativeFunc>,
}

impl Handler {
    /// A dispatcher with no registrations, rooted in a context.
    pub fn from_context(context: Context) -> (r: Handler)
        ensures
            r.context == context,
            r.cmd@.len() == 0,
            r.native@.len() == 0,
            r.next.cmd@ == Seq::<char>::empty(),
            r.next.limit == false,
    {
        Handler { context, cmd: Vec::new(), next: NextVal::new(), native: Vec::new() }
    }

    /// Registers a statement keyword; the empty name registers the
    /// default handler.
    pub fn register_keyword(&mut self, name: String)
        ensures
            final(self).cmd@ == old(self).cmd@.push(name),
            final(self).next == old(self).next,
            final(self).native == old(self).native,
            final(self).context == old(self).context,
    {
        self.cmd.push(name);
    }

    /// Registers a native function.
    pub fn register_native(&mut self, nf: NativeFunc)
        ensures
            final(self).native@ == old(self).native@.push(nf),
            final(self).cmd == old(self).cmd,
            final(self).next == old(self).next,
            final(self).context == old(self).context,
    {
        self.native.push(nf);
    }

    /// Whether a registered name equals this text.
    fn has_name(&self, s: &str) -> (r: bool)
        ensures
            r == name_in(self.cmd@, s@),
    {
        let mut i: usize = 0;
        while i < self.cmd.len()
            invariant
                0 <= i <= self.cmd@.len(),
                forall|k: int| 0 <= k < i ==> (#[trigger] self.cmd@[k])@ != s@,
            decreases self.cmd@.len() - i,
        {
            if crate::var::str_eq(self.cmd[i].as_str(), s) {
                return true;
            }
            i = i + 1;
        }
        false
    }

    /// Whether a token is a registered statement keyword.
    pub fn is_keyword(&self, s: &str) -> (r: bool)
        ensures
            r == (s@.len() != 0 && name_in(self.cmd@, s@)),
    {
        ulen(s) != 0 && self.has_name(s)
    }

    /// Whether a token is a plain identifier: not a keyword, non-empty,
    /// letters, digits, underscores and dollar signs, with no digit in
    /// front.
    pub fn is_identifier(&self, s: &str) -> (r: bool)
        ensures
            r == (s@.len() != 0 && !name_in(self.cmd@, s@) && ident_shape(s@)),
    {
        let n = ulen(s);
        if n == 0 || self.is_keyword(s) {
            return false;
        }
        let c0 = s.get_char(0);
        if c0 >= '0' && c0 <= '9' {
            return false;
        }
        let mut i: usize = 0;
        while i < n
            invariant
                0 <= i <= n,
                n == s@.len(),
                forall|k: int| 0 <= k < i ==> ident_char(#[trigger] s@[k]),
            decreases n - i,
        {
            let c = s.get_char(i);
            if !((c >= 'a' && c <= 'z') || (c >= 'A' && c <= 'Z') || c == '_' || c == '$' || (c
                >= '0' && c <= '9')) {
                return false;
            }
            i = i + 1;
        }
        true
    }

    /// Whether a parsed pair reads as a statement: its name is a keyword,
    /// or its serialized form is no expression while its arguments are
    /// fully parenthesized.
    pub fn is_statement(&self, st: &crate::parse::Lpp) -> (r: bool)
        ensures
            r == ((st.name@.len() != 0 && name_in(self.cmd@, st.name@)) || (
            !crate::expr::spec_isexp(
                st.name@ + crate::parse::spec_stmt_sep(st.name@, st.args@) + st.args@,
            ) && crate::text::spec_covered(st.args@, '(', ')'))),
    {
        if self.is_keyword(st.name.as_str()) {
            return true;
        }
        let whole = st.to_string();
        let e = crate::expr::ExprValue::isexp(whole.as_str());
        if e {
            return false;
        }
        covered_with(st.args.as_str(), '(', ')')
    }

    /// Routes a statement name to a handler, enforcing the continuation
    /// slot: a pending mandatory continuation rejects any other name as an
    /// invalid statement, and a pending non-matching continuation is
    /// cleared before dispatch. The caller runs the named handler.
    pub fn exec(&mut self, name: &str) -> (r: Result<Dispatch, Error>)
        ensures
            final(self).cmd == old(self).cmd,
            final(self).native == old(self).native,
            final(self).context == old(self).context,
            ({
                let kw = name@.len() != 0 && name_in(old(self).cmd@, name@);
                let dflt = name_in(old(self).cmd@, Seq::<char>::empty());
                if kw {
                    if old(self).next.cmd@ != name@ && old(self).next.limit {
                        r is Err && final(self).next == old(self).next
                    } else if old(self).next.cmd@ != name@ {
                        r matches Ok(d) && d == Dispatch::Keyword && final(self).next.cmd@ == Seq::<
                            char,
                        >::empty() && final(self).next.limit == false && vview(
                            final(self).next.value,
                        ) == VarT::Null
                    } else {
                        r matches Ok(d) && d == Dispatch::Keyword && final(self).next == old(self).next
                    }
                } else if dflt {
                    if old(self).next.cmd@.len() != 0 && old(self).next.limit {
                        r is Err && final(self).next == old(self).next
                    } else if old(self).next.cmd@ != name@ {
                        r matches Ok(d) && d == Dispatch::Default && final(self).next.cmd@ == Seq::<
                            char,
                        >::empty() && final(self).next.limit == false && vview(
                            final(self).next.value,
                        ) == VarT::Null
                    } else {
                        r matches Ok(d) && d == Dispatch::Default && final(self).next == old(self).next
                    }
                } else {
                    r is Err && final(self).next == old(self).next
                }
            }),
            r matches Err(e) ==> e.err@ == invalid_text(),
    {
        proof {
            reveal_strlit("Invalid statement");
            assert("Invalid statement"@ =~= invalid_text());
        }
        if self.is_keyword(name) {
            if !crate::var::str_eq(self.next.cmd.as_str(), name) && self.next.limit {
                return Err(Error::from_str("Invalid statement"));
            }
            if !crate::var::str_eq(self.next.cmd.as_str(), name) {
                self.next = NextVal::new();
            }
            Ok(Dispatch::Keyword)
        } else {
            proof {
                reveal_strlit("");
                assert(""@ =~= Seq::<char>::empty());
            }
            if self.has_name("") {
                if ulen(self.next.cmd.as_str()) != 0 && self.next.limit {
                    return Err(Error::from_str("Invalid statement"));
                }
                if !crate::var::str_eq(self.next.cmd.as_str(), name) {
                    self.next = NextVal::new();
                }
                Ok(Dispatch::Default)
            } else {
                Err(Error::from_str("Invalid statement"))
            }
        }
    }

    /// Resolves a member access: the reserved `this` key hands the object
    /// back; otherwise the first registered native function under the key
    /// is chosen when its accepted tags are empty or include the tag of
    /// the referenced value; everything else is an ordinary miss.
    #[verifier::loop_isolation(false)]
    pub fn get_member(&self, h: &Heap, obj: &RefObj, index: &Var) -> (r: MemberPlan)
        requires
            obj matches RefObj::Ref(lr) ==> lazy_ok(*h, *lr),
        ensures
            ({
                let key = member_key(vview(*index));
                if key == this_text() {
                    r == MemberPlan::ThisRef
                } else {
                    match native_idx(self.native@, key, 0) {
                        Some(i) => {
                            let nf = self.native@[i];
                            let hit = obj matches RefObj::Ref(lr) && (nf.use_type@.len() == 0 || (
                            lazy_view(*h, *lr) matches Some(tv) && tag_in(
                                nf.use_type@,
                                crate::var::spec_tp(tv),
                            )));
                            if hit {
                                r matches MemberPlan::Native(j, b) && j == i && b == nf.isval
                            } else {
                                r == MemberPlan::Miss
                            }
                        },
                        None => r == MemberPlan::Miss,
                    }
                }
            }),
    {
        proof {
            reveal_strlit("this");
            assert("this"@ =~= this_text());
        }
        let key: String = match index {
            Var::String(s) => s.clone(),
            _ => index.to_string(),
        };
        if crate::var::str_eq(key.as_str(), "this") {
            return MemberPlan::ThisRef;
        }
        let ghost gkey = member_key(vview(*index));
        let mut i: usize = 0;
        while i < self.native.len()
            invariant
                0 <= i <= self.native@.len(),
                native_idx(self.native@, gkey, 0) == native_idx(self.native@, gkey, i as int),
            decreases self.native@.len() - i,
        {
            if crate::var::str_eq(self.native[i].name.as_str(), key.as_str()) {
                proof {
                    assert(native_idx(self.native@, gkey, i as int) == Some(i as int));
                }
                let nf = &self.native[i];
                if nf.use_type.len() == 0 {
                    match obj {
                        RefObj::Ref(_) => {
                            return MemberPlan::Native(i, nf.isval);
                        },
                        _ => {
                            return MemberPlan::Miss;
                        },
                    }
                }
                match obj {
                    RefObj::Ref(lr) => match lr.get(h) {
                        Some(v) => {
                            let t = v.tp();
                            let mut j: usize = 0;
                            while j < nf.use_type.len()
                                invariant
                                    0 <= j <= nf.use_type@.len(),
                                    forall|k: int| 0 <= k < j ==> nf.use_type@[k] != t,
                                decreases nf.use_type@.len() - j,
                            {
                                if nf.use_type[j] == t {
                                    return MemberPlan::Native(i, nf.isval);
                                }
                                j = j + 1;
                            }
                            return MemberPlan::Miss;
                        },
                        None => {
                            return MemberPlan::Miss;
                        },
                    },
                    _ => {
                        return MemberPlan::Miss;
                    },
                }
            }
            i = i + 1;
        }
        MemberPlan::Miss
    }
}

/// The text of the reserved member key that hands the object itself back.
pub open spec fn this_text() -> Seq<char> {
    seq!['t', 'h', 'i', 's']
}

/// The message of a statement no handler accepts.
pub open spec fn invalid_text() -> Seq<char> {
    seq!['I', 'n', 'v', 'a', 'l', 'i', 'd', ' ', 's', 't', 'a', 't', 'e', 'm', 'e', 'n', 't']
}


/// The leading name of an access path: everything before the first
/// top-level dot; a bracket at top level also ends it, except an opening
/// bracket that begins the path (an index on the result of nothing), which
/// is kept.
pub open spec fn fname_rec(
    s: Seq<char>,
    i: int,
    st: crate::parse::LppStatus,
    temp: Seq<char>,
    lastchar: char,
) -> Seq<char>
    decreases s.len() - i,
{
    if i < 0 || i >= s.len() {
        temp
    } else {
        let st2 = crate::parse::spec_transfer(s[i], st);
        if s[i] == '.' && st2.quote == crate::parse::QuoteStatus::NoQuote && st2.brace == 0 {
            temp
        } else if s[i] == '[' && st2.quote == crate::parse::QuoteStatus::NoQuote && st2.brace
            == 1 {
            if temp.len() == 0 && lastchar != ']' {
                fname_rec(s, i + 1, st2, temp.push('['), '[')
            } else {
                temp
            }
        } else {
            fname_rec(s, i + 1, st2, temp.push(s[i]), s[i])
        }
    }
}

/// The leading name of an access path.
pub open spec fn spec_firstname(s: Seq<char>) -> Seq<char> {
    fname_rec(s, 0, crate::parse::LppStatus::init(), Seq::empty(), '\u{0}')
}

/// One segment of a decomposed access path, quoted when it came from a
/// dotted step so that `a.x` and `a["x"]` read the same.
pub open spec fn seg_wrap(t: Seq<char>, quoted: bool) -> Seq<char> {
    if quoted {
        seq!['"'] + t + seq!['"']
    } else {
        t
    }
}

/// The decomposition of an access path into plain keys (bracket segments,
/// taken verbatim) and quoted keys (dotted segments).
pub open spec fn ns_rec(
    s: Seq<char>,
    i: int,
    st: crate::parse::LppStatus,
    temp: Seq<char>,
    quoted: bool,
    acc: Seq<Seq<char>>,
) -> Seq<Seq<char>>
    decreases s.len() - i,
{
    if i < 0 || i >= s.len() {
        if temp.len() != 0 {
            acc.push(seg_wrap(temp, quoted))
        } else {
            acc
        }
    } else {
        let st2 = crate::parse::spec_transfer(s[i], st);
        let top = st2.quote == crate::parse::QuoteStatus::NoQuote;
        if (s[i] == '[' && top && st2.brace == 1) || (s[i] == ']' && top && st2.brace == 0) {
            ns_rec(
                s,
                i + 1,
                st2,
                Seq::empty(),
                false,
                if temp.len() != 0 {
                    acc.push(seg_wrap(temp, quoted))
                } else {
                    acc
                },
            )
        } else if s[i] == '.' && top && st2.brace == 0 {
            ns_rec(
                s,
                i + 1,
                st2,
                Seq::empty(),
                true,
                if temp.len() != 0 {
                    acc.push(seg_wrap(temp, quoted))
                } else {
                    acc
                },
            )
        } else {
            ns_rec(s, i + 1, st2, temp.push(s[i]), quoted, acc)
        }
    }
}

/// The decomposition of an access path.
pub open spec fn spec_name_split(s: Seq<char>) -> Seq<Seq<char>> {
    ns_rec(s, 0, crate::parse::LppStatus::init(), Seq::empty(), false, Seq::empty())
}

/// Whether every formal parameter beyond the given arguments carries a
/// default that parses.
pub open spec fn defaults_ok(formals: Seq<(Seq<char>, Seq<char>)>, nargs: int) -> bool {
    forall|i: int|
        nargs <= i < formals.len() ==> (#[trigger] formals[i]).1.len() != 0 && crate::var::spec_parse(
            crate::text::spec_clearnull(formals[i].1),
        ) is Some
}

/// The value a formal parameter is bound to: the given argument, or its
/// parsed default.
pub open spec fn bound_val(formals: Seq<(Seq<char>, Seq<char>)>, given: Seq<VarT>, i: int) -> VarT {
    if i < given.len() {
        given[i]
    } else {
        crate::var::spec_parse(crate::text::spec_clearnull(formals[i].1)).unwrap()
    }
}

/// The bindings a call builds up, parameter by parameter.
pub open spec fn bind_fields(
    formals: Seq<(Seq<char>, Seq<char>)>,
    given: Seq<VarT>,
    i: int,
    acc: Seq<(Seq<char>, VarT)>,
) -> Seq<(Seq<char>, VarT)>
    decreases formals.len() - i,
{
    if i < 0 || i >= formals.len() {
        acc
    } else {
        bind_fields(formals, given, i + 1, tinsert(acc, formals[i].0, bound_val(formals, given, i)))
    }
}

/// The name of the implicit array of all bound arguments.
pub open spec fn arguments_text() -> Seq<char> {
    seq!['a', 'r', 'g', 'u', 'm', 'e', 'n', 't', 's']
}

impl Handler {
    /// The leading name of an access path.
    #[verifier::loop_isolation(false)]
    pub fn firstname(s: &str) -> (r: String)
        ensures
            r@ == spec_firstname(s@),
    {
        let n = ulen(s);
        let mut status = crate::parse::LppStatus::new();
        let mut temp = String::new();
        let mut lastchar = '\u{0}';
        let mut i: usize = 0;
        while i < n
            invariant
                0 <= i <= n,
                spec_firstname(s@) == fname_rec(s@, i as int, status, temp@, lastchar),
            decreases n - i,
        {
            let c = s.get_char(i);
            let ghost pre = status;
            crate::parse::transfer(c, &mut status);
            proof {
                assert(crate::parse::spec_transfer(s@[i as int], pre) == status);
            }
            if c == '.' && status.quote == crate::parse::QuoteStatus::NoQuote && status.brace
                == 0 {
                return temp;
            } else if c == '[' && status.quote == crate::parse::QuoteStatus::NoQuote
                && status.brace == 1 {
                if temp.as_str().unicode_len() == 0 && lastchar != ']' {
                    temp.push('[');
                    lastchar = '[';
                } else {
                    return temp;
                }
            } else {
                temp.push(c);
                lastchar = c;
            }
            i = i + 1;
        }
        temp
    }

    /// Decomposes an access path into plain and quoted keys: bracket
    /// segments pass verbatim, dotted segments are wrapped in quotes, so
    /// that both spellings of a member access normalize identically.
    #[verifier::loop_isolation(false)]
    pub fn name_split(s: &str) -> (r: Vec<String>)
        ensures
            r.deep_view() == spec_name_split(s@),
    {
        let n = ulen(s);
        let mut status = crate::parse::LppStatus::new();
        let mut temp = String::new();
        let mut quoted = false;
        let mut ret: Vec<String> = Vec::new();
        let mut i: usize = 0;
        proof {
            assert(ret.deep_view() =~~= Seq::<Seq<char>>::empty());
        }
        while i < n
            invariant
                0 <= i <= n,
                spec_name_split(s@) == ns_rec(s@, i as int, status, temp@, quoted, ret.deep_view()),
            decreases n - i,
        {
            let c = s.get_char(i);
            let ghost pre = status;
            crate::parse::transfer(c, &mut status);
            proof {
                assert(crate::parse::spec_transfer(s@[i as int], pre) == status);
            }
            let top = status.quote == crate::parse::QuoteStatus::NoQuote;
            let is_open = c == '[' && top && status.brace == 1;
            let is_close = c == ']' && top && status.brace == 0;
            let is_dot = c == '.' && top && status.brace == 0;
            if is_open || is_close || is_dot {
                if temp.as_str().unicode_len() != 0 {
                    let ghost old_ret = ret.deep_view();
                    let ghost seg = seg_wrap(temp@, quoted);
                    let mut out = String::new();
                    if quoted {
                        out.push('"');
                        out.append(temp.as_str());
                        out.push('"');
                    } else {
                        out = temp;
                    }
                    proof {
                        assert(out@ =~= seg);
                    }
                    ret.push(out);
                    proof {
                        assert(ret.deep_view() =~~= old_ret.push(seg));
                    }
                    temp = String::new();
                } else {
                    temp = String::new();
                }
                quoted = is_dot;
            } else {
                temp.push(c);
            }
            i = i + 1;
        }
        if temp.as_str().unicode_len() != 0 {
            let ghost old_ret = ret.deep_view();
            let ghost seg = seg_wrap(temp@, quoted);
            let mut out = String::new();
            if quoted {
                out.push('"');
                out.append(temp.as_str());
                out.push('"');
            } else {
                out = temp;
            }
            proof {
                assert(out@ =~= seg);
            }
            ret.push(out);
            proof {
                assert(ret.deep_view() =~~= old_ret.push(seg));
            }
        }
        ret
    }

    /// Builds the scope of a function call: positional arguments first,
    /// then parsed defaults for the rest (a missing default is an error),
    /// and finally the implicit `arguments` array of everything bound.
    /// Running the body against the scope is the statement collaborator's
    /// work, as is evaluating a default that parses to an expression.
    #[verifier::loop_isolation(false)]
    #[verifier::rlimit(60)]
    pub fn runfunc(h: &mut Heap, func: &FuncValue, args: &Vec<Var>) -> (r: Result<Scope, LppError>)
        ensures
            r is Ok <==> defaults_ok(crate::var::aviews(func.args@), args@.len() as int),
            r matches Ok(sc) ==> {
                &&& scope_ok(*final(h), sc)
                &&& scope_fields(*final(h), sc) == tinsert(
                    bind_fields(
                        crate::var::aviews(func.args@),
                        vviews(*args, 0),
                        0,
                        Seq::empty(),
                    ),
                    arguments_text(),
                    VarT::Array(
                        Seq::new(
                            func.args@.len(),
                            |i: int|
                                bound_val(crate::var::aviews(func.args@), vviews(*args, 0), i),
                        ),
                    ),
                )
                &&& forall|k: int| 0 <= k < cflags(sc).len() ==> (#[trigger] cflags(sc)[k]).1
                    == false
            },
            final(h).scopes@ == old(h).scopes@,
            forall|c: int|
                0 <= c < old(h).cells@.len() ==> final(h).cells@[c] == old(h).cells@[c],
    {
        proof {
            reveal_strlit("Too few arguments given");
            reveal_strlit("arguments");
            assert("arguments"@ =~= arguments_text());
            crate::var::lemma_vviews(*args, 0);
        }
        let ghost formals = crate::var::aviews(func.args@);
        let ghost given = vviews(*args, 0);
        let mut scope = Scope::new(h);
        let mut arguments: Vec<Var> = Vec::new();
        let mut i: usize = 0;
        while i < func.args.len()
            invariant
                0 <= i <= func.args@.len(),
                scope_ok(*h, scope),
                scope.val == old(h).cells@.len(),
                h.cells@.len() == old(h).cells@.len() + 1,
                h.scopes@ == old(h).scopes@,
                forall|c: int| 0 <= c < old(h).cells@.len() ==> h.cells@[c] == old(h).cells@[c],
                arguments@.len() == i,
                forall|k: int|
                    0 <= k < i ==> vview(#[trigger] arguments@[k]) == bound_val(formals, given, k),
                forall|k: int| 0 <= k < cflags(scope).len() ==> (#[trigger] cflags(scope)[k]).1
                    == false,
                bind_fields(formals, given, 0, Seq::empty()) == bind_fields(
                    formals,
                    given,
                    i as int,
                    scope_fields(*h, scope),
                ),
                forall|k: int|
                    0 <= k < formals.len() ==> #[trigger] formals[k] == (
                        func.args@[k].name@,
                        func.args@[k].value@,
                    ),
                given.len() == args@.len(),
                forall|k: int|
                    args@.len() <= k < i ==> (#[trigger] formals[k]).1.len() != 0
                        && crate::var::spec_parse(crate::text::spec_clearnull(formals[k].1))
                        is Some,
            decreases func.args@.len() - i,
        {
            let ghost pre_flags = cflags(scope);
            let ghost pre_fields = scope_fields(*h, scope);
            if i < args.len() {
                let v1 = args[i].duplicate();
                let v2 = args[i].duplicate();
                arguments.push(v1);
                scope.set(h, func.args[i].name.clone(), (v2, false));
            } else {
                if func.args[i].value.as_str().unicode_len() == 0 {
                    proof {
                        assert(formals[i as int].1.len() == 0);
                        assert(!defaults_ok(formals, given.len() as int));
                    }
                    return Err(LppError::Error(Error::from_str("Too few arguments given")));
                }
                match Var::parse(func.args[i].value.as_str()) {
                    Ok(v) => {
                        let v1 = v.duplicate();
                        arguments.push(v1);
                        scope.set(h, func.args[i].name.clone(), (v, false));
                    },
                    Err(_) => {
                        proof {
                            assert(crate::var::spec_parse(
                                crate::text::spec_clearnull(formals[i as int].1),
                            ) is None);
                            assert(!defaults_ok(formals, given.len() as int));
                        }
                        return Err(
                            LppError::Error(Error::from_str("Too few arguments given")),
                        );
                    },
                }
            }
            proof {
                lemma_flags_false(pre_flags, cflags(scope), func.args@[i as int].name@);
            }
            i = i + 1;
        }
        let ghost bound = Seq::new(formals.len(), |k: int| bound_val(formals, given, k));
        proof {
            crate::var::lemma_vviews(arguments, 0);
            assert(vviews(arguments, 0) =~= bound);
        }
        let args_name = "arguments".to_owned();
        let ghost pre_flags2 = cflags(scope);
        let ghost pre_fields2 = scope_fields(*h, scope);
        scope.set(h, args_name, (Var::Array(arguments), false));
        proof {
            assert(defaults_ok(formals, given.len() as int));
            lemma_flags_false(pre_flags2, cflags(scope), arguments_text());
            assert(bound =~= Seq::new(
                func.args@.len(),
                |i: int| bound_val(crate::var::aviews(func.args@), vviews(*args, 0), i),
            ));
            assert(pre_fields2 == bind_fields(
                crate::var::aviews(func.args@),
                vviews(*args, 0),
                0,
                Seq::empty(),
            ));
        }
        Ok(scope)
    }
}

/// Binding one more name with a clear flag keeps every flag clear.
proof fn lemma_flags_false(pre: Seq<(Seq<char>, bool)>, post: Seq<(Seq<char>, bool)>, name: Seq<char>)
    requires
        post == finsert(pre, name, false),
        forall|k: int| 0 <= k < pre.len() ==> (#[trigger] pre[k]).1 == false,
    ensures
        forall|k: int| 0 <= k < post.len() ==> (#[trigger] post[k]).1 == false,
    decreases pre.len(),
{
    if pre.len() == 0 {
    } else if pre[0].0 == name {
        assert forall|k: int| 0 <= k < post.len() implies (#[trigger] post[k]).1 == false by {
            if k == 0 {
            } else {
                assert(post[k] == pre.drop_first()[k - 1]);
                assert(pre.drop_first()[k - 1] == pre[k]);
            }
        }
    } else {
        lemma_flags_false(pre.drop_first(), finsert(pre.drop_first(), name, false), name);
        assert forall|k: int| 0 <= k < post.len() implies (#[trigger] post[k]).1 == false by {
            if k == 0 {
                assert(post[0] == pre[0]);
            } else {
                assert(post[k] == finsert(pre.drop_first(), name, false)[k - 1]);
            }
        }
    }
}

} // verus!
