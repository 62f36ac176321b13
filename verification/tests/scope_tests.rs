use lpp::lpp::{Context, Dispatch, Handler, Heap, LazyRef, MemberPlan, NativeFunc, RefObj, Scope};
use lpp::func::FuncValue;
use lpp::var::{Var, ValueType};

fn num(x: f64) -> Var {
    Var::Number(x.to_bits())
}

fn num_val(v: &Var) -> f64 {
    match v {
        Var::Number(b) => f64::from_bits(*b),
        _ => panic!("expected a number"),
    }
}

#[test]
fn scope_set_get_remove() {
    let mut h = Heap::new();
    let mut scope = Scope::new(&mut h);
    scope.set(&mut h, String::from("x"), (num(1.0), false));
    let (got, flag) = scope.get(&h, &String::from("x"));
    assert_eq!(num_val(&got.unwrap()), 1.0);
    assert_eq!(flag, false);
    let (removed, was_const) = scope.remove(&mut h, &String::from("x"));
    assert_eq!(num_val(&removed.unwrap()), 1.0);
    assert_eq!(was_const, false);
    let (gone, flag2) = scope.get(&h, &String::from("x"));
    assert!(gone.is_none());
    assert_eq!(flag2, false);
}

#[test]
fn scope_constant_flag_and_replacement() {
    let mut h = Heap::new();
    let mut scope = Scope::new(&mut h);
    scope.set(&mut h, String::from("k"), (num(1.0), true));
    let (_, flag) = scope.get(&h, &String::from("k"));
    assert!(flag);
    scope.set(&mut h, String::from("k"), (num(2.0), false));
    let (v, flag2) = scope.get(&h, &String::from("k"));
    assert_eq!(num_val(&v.unwrap()), 2.0);
    assert!(!flag2);
}

#[test]
fn lazyref_object_slot_reads_and_creates() {
    let mut h = Heap::new();
    let cell = h.cell_new(Var::parse("{\"a\":1}").unwrap());
    let r = LazyRef::ObjectSlot(cell, String::from("a"));
    assert_eq!(num_val(&r.get(&h).unwrap()), 1.0);
    let missing = LazyRef::ObjectSlot(cell, String::from("b"));
    assert!(missing.get(&h).is_none());
    missing.create(&mut h);
    assert!(matches!(missing.get(&h).unwrap(), Var::Null));
    // reads never create
    let other = LazyRef::ObjectSlot(cell, String::from("c"));
    assert!(other.get(&h).is_none());
    assert!(other.get(&h).is_none());
}

#[test]
fn lazyref_array_slot_pads_with_null() {
    let mut h = Heap::new();
    let cell = h.cell_new(Var::parse("[1]").unwrap());
    let slot = LazyRef::ArraySlot(cell, 3);
    assert!(slot.get(&h).is_none());
    slot.create(&mut h);
    assert!(matches!(slot.get(&h).unwrap(), Var::Null));
    // existing elements survive the resize, the new length is the index
    // plus one, and every padding slot is null
    let first = LazyRef::ArraySlot(cell, 0);
    assert_eq!(num_val(&first.get(&h).unwrap()), 1.0);
    let whole = LazyRef::Value(cell);
    assert_eq!(whole.get(&h).unwrap().to_string(), "[1,null,null,null]");
}

#[test]
fn lazyref_create_twice_changes_nothing() {
    let mut h = Heap::new();
    let cell = h.cell_new(Var::parse("[1]").unwrap());
    let slot = LazyRef::ArraySlot(cell, 2);
    slot.create(&mut h);
    slot.create(&mut h);
    let whole = LazyRef::Value(cell);
    assert_eq!(whole.get(&h).unwrap().to_string(), "[1,null,null]");
    let obj = h.cell_new(Var::parse("{\"a\":1}").unwrap());
    let entry = LazyRef::ObjectSlot(obj, String::from("b"));
    entry.create(&mut h);
    entry.create(&mut h);
    let oref = LazyRef::Value(obj);
    assert_eq!(oref.get(&h).unwrap().to_string(), "{\"a\":1,\"b\":null}");
    // an existing entry is never replaced
    let present = LazyRef::ObjectSlot(obj, String::from("a"));
    present.create(&mut h);
    assert_eq!(num_val(&present.get(&h).unwrap()), 1.0);
}

#[test]
fn non_owning_this_resolves_absent_after_drop() {
    let mut h = Heap::new();
    let mut scope = Scope::new(&mut h);
    scope.set(&mut h, String::from("x"), (num(1.0), false));
    let this_cell = scope.raw();
    let observer = LazyRef::ObjectSlot(this_cell, String::from("x"));
    assert_eq!(num_val(&observer.get(&h).unwrap()), 1.0);
    // mutating the bound object is seen through the observer
    scope.set(&mut h, String::from("x"), (num(2.0), false));
    assert_eq!(num_val(&observer.get(&h).unwrap()), 2.0);
    // the owner removes the slot: the observer resolves to absent
    scope.remove(&mut h, &String::from("x"));
    assert!(observer.get(&h).is_none());
    // the owner itself is dropped: still absent, never a stale copy
    h.free_cell(this_cell);
    let whole = LazyRef::Value(this_cell);
    assert!(whole.get(&h).is_none());
}

#[test]
fn context_from_scope_shares_now_and_global() {
    let mut h = Heap::new();
    let scope = Scope::new(&mut h);
    let raw = scope.raw();
    let sid = h.scope_new(scope);
    let ctx = Context::from_scope(&h, sid);
    assert_eq!(ctx.now, sid);
    assert_eq!(ctx.global, sid);
    assert_eq!(ctx.this, raw);
}

#[test]
fn dispatch_keyword_and_default() {
    let mut h = Heap::new();
    let scope = Scope::new(&mut h);
    let sid = h.scope_new(scope);
    let ctx = Context::from_scope(&h, sid);
    let mut handler = Handler::from_context(ctx);
    handler.register_keyword(String::from("if"));
    assert!(handler.is_keyword("if"));
    assert!(!handler.is_keyword(""));
    assert!(!handler.is_keyword("while"));
    let r = handler.exec("if");
    assert!(matches!(r, Ok(Dispatch::Keyword)));
    // no default handler: an unknown statement is invalid
    let e = handler.exec("foo").unwrap_err();
    assert_eq!(e.err.as_str(), "Invalid statement");
    handler.register_keyword(String::new());
    let r2 = handler.exec("foo");
    assert!(matches!(r2, Ok(Dispatch::Default)));
}

#[test]
fn dispatch_enforces_continuation() {
    let mut h = Heap::new();
    let scope = Scope::new(&mut h);
    let sid = h.scope_new(scope);
    let ctx = Context::from_scope(&h, sid);
    let mut handler = Handler::from_context(ctx);
    handler.register_keyword(String::from("if"));
    handler.register_keyword(String::from("else"));
    handler.next.cmd = String::from("else");
    handler.next.limit = true;
    let e = handler.exec("if").unwrap_err();
    assert_eq!(e.err.as_str(), "Invalid statement");
    let r = handler.exec("else");
    assert!(matches!(r, Ok(Dispatch::Keyword)));
}

#[test]
fn is_identifier_shape() {
    let mut h = Heap::new();
    let scope = Scope::new(&mut h);
    let sid = h.scope_new(scope);
    let ctx = Context::from_scope(&h, sid);
    let mut handler = Handler::from_context(ctx);
    assert!(handler.is_identifier("abc"));
    assert!(handler.is_identifier("a9_$"));
    assert!(!handler.is_identifier("9a"));
    assert!(!handler.is_identifier(""));
    assert!(!handler.is_identifier("a-b"));
    handler.register_keyword(String::from("abc"));
    assert!(!handler.is_identifier("abc"));
}

#[test]
fn is_statement_by_keyword_or_shape() {
    let mut h = Heap::new();
    let scope = Scope::new(&mut h);
    let sid = h.scope_new(scope);
    let ctx = Context::from_scope(&h, sid);
    let mut handler = Handler::from_context(ctx);
    handler.register_keyword(String::from("if"));
    let st = lpp::parse::Lpp::parse("if a<b");
    assert!(handler.is_statement(&st));
    let call = lpp::parse::Lpp::parse("foo(1)");
    assert!(handler.is_statement(&call));
    let expr = lpp::parse::Lpp::parse("a+b");
    assert!(!handler.is_statement(&expr));
}

#[test]
fn firstname_and_name_split() {
    assert_eq!(Handler::firstname("this.a[b].c").as_str(), "this");
    assert_eq!(Handler::firstname("plain").as_str(), "plain");
    let parts = Handler::name_split("this.a[b].c");
    let texts: Vec<&str> = parts.iter().map(|s| s.as_str()).collect();
    assert_eq!(texts, vec!["this", "\"a\"", "b", "\"c\""]);
    let parts2 = Handler::name_split("a[\"x\"]");
    let texts2: Vec<&str> = parts2.iter().map(|s| s.as_str()).collect();
    assert_eq!(texts2, vec!["a", "\"x\""]);
    let parts3 = Handler::name_split("a.x");
    let texts3: Vec<&str> = parts3.iter().map(|s| s.as_str()).collect();
    assert_eq!(texts3, vec!["a", "\"x\""]);
}

#[test]
fn get_member_this_native_and_miss() {
    let mut h = Heap::new();
    let scope = Scope::new(&mut h);
    let sid = h.scope_new(scope);
    let ctx = Context::from_scope(&h, sid);
    let mut handler = Handler::from_context(ctx);
    let cell = h.cell_new(Var::parse("[1]").unwrap());
    let obj = RefObj::Ref(LazyRef::Value(cell));
    // the reserved key hands the object back
    let plan = handler.get_member(&h, &obj, &Var::parse("\"this\"").unwrap());
    assert!(matches!(plan, MemberPlan::ThisRef));
    // a registered native accepting arrays is found
    handler.register_native(NativeFunc {
        name: String::from("size"),
        use_type: vec![ValueType::Array],
        func: FuncValue::new(),
        isval: true,
    });
    let plan = handler.get_member(&h, &obj, &Var::parse("\"size\"").unwrap());
    assert!(matches!(plan, MemberPlan::Native(0, true)));
    // the type filter rejects a number target
    let ncell = h.cell_new(num(1.0));
    let nobj = RefObj::Ref(LazyRef::Value(ncell));
    let plan = handler.get_member(&h, &nobj, &Var::parse("\"size\"").unwrap());
    assert!(matches!(plan, MemberPlan::Miss));
    // an unregistered key is an ordinary miss
    let plan = handler.get_member(&h, &obj, &Var::parse("\"nope\"").unwrap());
    assert!(matches!(plan, MemberPlan::Miss));
}

#[test]
fn runfunc_binds_arguments_and_defaults() {
    let mut h = Heap::new();
    let f = FuncValue::parse("func(a,b=2){x}").unwrap();
    let args = vec![num(5.0)];
    let scope = Handler::runfunc(&mut h, &f, &args).unwrap();
    let (a, _) = scope.get(&h, &String::from("a"));
    assert_eq!(num_val(&a.unwrap()), 5.0);
    let (b, _) = scope.get(&h, &String::from("b"));
    assert_eq!(num_val(&b.unwrap()), 2.0);
    let (arr, _) = scope.get(&h, &String::from("arguments"));
    match arr.unwrap() {
        Var::Array(items) => {
            assert_eq!(items.len(), 2);
            assert_eq!(num_val(&items[0]), 5.0);
            assert_eq!(num_val(&items[1]), 2.0);
        },
        _ => panic!("expected the arguments array"),
    }
}

#[test]
fn runfunc_rejects_missing_argument() {
    let mut h = Heap::new();
    let f = FuncValue::parse("func(a){x}").unwrap();
    let args: Vec<Var> = vec![];
    let r = Handler::runfunc(&mut h, &f, &args);
    match r {
        Err(lpp::lpp::LppError::Error(e)) => assert_eq!(e.err.as_str(), "Too few arguments given"),
        _ => panic!("expected an error"),
    }
}

#[test]
fn lazyref_scope_var_reads_and_creates() {
    let mut h = Heap::new();
    let scope = Scope::new(&mut h);
    let sid = h.scope_new(scope);
    let r = LazyRef::ScopeVar(sid, String::from("x"));
    assert!(r.get(&h).is_none());
    r.create(&mut h);
    assert!(matches!(r.get(&h).unwrap(), Var::Null));
    // a whole-scope reference never yields a value
    let s = LazyRef::Scope(sid);
    assert!(s.get(&h).is_none());
    // a destroyed scope resolves to absent
    h.free_scope(sid);
    assert!(r.get(&h).is_none());
}
