use avm1_scope::{Attributes, Heap, Object, ObjectRef, Scope, ScopeClass, ScopeRef, Value};

fn frames(heap: &Heap, r: ScopeRef) -> Vec<(ScopeClass, ObjectRef)> {
    let mut out = Vec::new();
    let mut node = Some(heap.scope(r));
    while let Some(n) = node {
        out.push((n.class(), n.locals_cell()));
        node = n.parent(heap);
    }
    out
}

fn bag_with(heap: &mut Heap, props: &[(&str, Value, bool)]) -> ObjectRef {
    let mut o = Object::bare_object();
    for (name, value, dont_delete) in props {
        let attributes = Attributes { dont_delete: *dont_delete, read_only: false };
        o.force_set(name, *value, attributes);
    }
    heap.allocate_object(o)
}

fn global(heap: &mut Heap, props: &[(&str, Value, bool)]) -> ScopeRef {
    let g = bag_with(heap, props);
    heap.allocate_scope(Scope::from_global_object(g))
}

fn child(heap: &mut Heap, parent: ScopeRef, class: ScopeClass, props: &[(&str, Value, bool)]) -> ScopeRef {
    let b = bag_with(heap, props);
    heap.allocate_scope(Scope::new(parent, class, b))
}

#[test]
fn innermost_definition_shadows_outer() {
    let mut heap = Heap::new();
    let b = global(&mut heap, &[("x", Value::Int(2), false)]);
    let a = child(&mut heap, b, ScopeClass::Local, &[("x", Value::Int(1), false)]);
    assert_eq!(heap.scope(a).resolve("x", &heap), Value::Int(1));
}

#[test]
fn lookup_falls_through_to_parent() {
    let mut heap = Heap::new();
    let b = global(&mut heap, &[("x", Value::Int(2), false)]);
    let a = child(&mut heap, b, ScopeClass::Local, &[]);
    assert_eq!(heap.scope(a).resolve("x", &heap), Value::Int(2));
    assert!(heap.scope(a).is_defined("x", &heap));
}

#[test]
fn lookup_of_unbound_name_is_undefined() {
    let mut heap = Heap::new();
    let b = global(&mut heap, &[]);
    let a = child(&mut heap, b, ScopeClass::Local, &[]);
    assert_eq!(heap.scope(a).resolve("x", &heap), Value::Undefined);
    assert!(!heap.scope(a).is_defined("x", &heap));
}

#[test]
fn closure_capture_drops_with_scopes() {
    let mut heap = Heap::new();
    let g = global(&mut heap, &[]);
    let l = child(&mut heap, g, ScopeClass::Local, &[("a", Value::Int(1), false)]);
    let w = child(&mut heap, l, ScopeClass::With, &[("only_w", Value::Int(9), false)]);
    let c = Scope::new_closure_scope(w, &mut heap);
    let gb = heap.scope(g).locals_cell();
    let lb = heap.scope(l).locals_cell();
    assert_eq!(frames(&heap, c), vec![(ScopeClass::Local, lb), (ScopeClass::Global, gb)]);
    assert_ne!(c, l);
    assert_eq!(heap.scope(c).resolve("only_w", &heap), Value::Undefined);
    assert_eq!(heap.scope(w).resolve("only_w", &heap), Value::Int(9));
    assert_eq!(heap.scope(c).resolve("a", &heap), Value::Int(1));
}

#[test]
fn closure_capture_of_a_capture_is_the_same_chain() {
    let mut heap = Heap::new();
    let g = global(&mut heap, &[]);
    let t = child(&mut heap, g, ScopeClass::Target, &[]);
    let w1 = child(&mut heap, t, ScopeClass::With, &[]);
    let l = child(&mut heap, w1, ScopeClass::Local, &[]);
    let w2 = child(&mut heap, l, ScopeClass::With, &[]);
    let c1 = Scope::new_closure_scope(w2, &mut heap);
    let c2 = Scope::new_closure_scope(c1, &mut heap);
    let expected = vec![
        (ScopeClass::Local, heap.scope(l).locals_cell()),
        (ScopeClass::Target, heap.scope(t).locals_cell()),
        (ScopeClass::Global, heap.scope(g).locals_cell()),
    ];
    assert_eq!(frames(&heap, c1), expected);
    assert_eq!(frames(&heap, c2), expected);
}

#[test]
fn closure_capture_sees_later_writes_to_shared_bags() {
    let mut heap = Heap::new();
    let g = global(&mut heap, &[]);
    let l = child(&mut heap, g, ScopeClass::Local, &[]);
    let c = Scope::new_closure_scope(l, &mut heap);
    heap.scope(l).define("late", Value::Bool(true), &mut heap);
    assert_eq!(heap.scope(c).resolve("late", &heap), Value::Bool(true));
}

#[test]
fn closure_capture_of_only_with_scopes_gives_fresh_global() {
    let mut heap = Heap::new();
    let g = global(&mut heap, &[("x", Value::Int(1), false)]);
    let w_bag = bag_with(&mut heap, &[("y", Value::Int(2), false)]);
    let head = Scope::new_with_scope(g, w_bag, &mut heap);
    let with_node = heap.scope(head).parent_cell().unwrap();
    assert_eq!(heap.scope(with_node).class(), ScopeClass::With);
    assert_eq!(heap.scope(with_node).parent_cell(), None);
    let c = Scope::new_closure_scope(with_node, &mut heap);
    let f = frames(&heap, c);
    assert_eq!(f.len(), 1);
    assert_eq!(f[0].0, ScopeClass::Global);
    assert_ne!(f[0].1, w_bag);
    assert_ne!(f[0].1, heap.scope(g).locals_cell());
    assert_eq!(heap.scope(c).resolve("x", &heap), Value::Undefined);
    assert_eq!(heap.scope(c).resolve("y", &heap), Value::Undefined);
}

#[test]
fn target_splice_replaces_target_bag_only() {
    let mut heap = Heap::new();
    let g = global(&mut heap, &[]);
    let t1 = child(&mut heap, g, ScopeClass::Target, &[("clip_var", Value::Int(5), false)]);
    let l = child(&mut heap, t1, ScopeClass::Local, &[]);
    let t2 = bag_with(&mut heap, &[]);
    let r = Scope::new_target_scope(l, t2, &mut heap);
    let gb = heap.scope(g).locals_cell();
    let lb = heap.scope(l).locals_cell();
    let t1b = heap.scope(t1).locals_cell();
    assert_eq!(
        frames(&heap, r),
        vec![(ScopeClass::Local, lb), (ScopeClass::Target, t2), (ScopeClass::Global, gb)]
    );
    assert_eq!(heap.scope(r).resolve("clip_var", &heap), Value::Undefined);
    assert_eq!(heap.scope(l).resolve("clip_var", &heap), Value::Int(5));
    assert_eq!(
        frames(&heap, l),
        vec![(ScopeClass::Local, lb), (ScopeClass::Target, t1b), (ScopeClass::Global, gb)]
    );
}

#[test]
fn target_splice_rewrites_every_target_and_keeps_with() {
    let mut heap = Heap::new();
    let g = global(&mut heap, &[]);
    let t1 = child(&mut heap, g, ScopeClass::Target, &[]);
    let w = child(&mut heap, t1, ScopeClass::With, &[]);
    let t2 = child(&mut heap, w, ScopeClass::Target, &[]);
    let clip = bag_with(&mut heap, &[]);
    let r = Scope::new_target_scope(t2, clip, &mut heap);
    let gb = heap.scope(g).locals_cell();
    let wb = heap.scope(w).locals_cell();
    assert_eq!(
        frames(&heap, r),
        vec![
            (ScopeClass::Target, clip),
            (ScopeClass::With, wb),
            (ScopeClass::Target, clip),
            (ScopeClass::Global, gb),
        ]
    );
}

#[test]
fn with_scope_reuses_local_bag() {
    let mut heap = Heap::new();
    let g = global(&mut heap, &[("x", Value::Int(1), false)]);
    let locals = child(&mut heap, g, ScopeClass::Local, &[("x", Value::Int(2), false)]);
    let w = bag_with(&mut heap, &[("x", Value::Int(3), false), ("wv", Value::Int(4), false)]);
    let head = Scope::new_with_scope(locals, w, &mut heap);
    let lb = heap.scope(locals).locals_cell();
    let gb = heap.scope(g).locals_cell();
    assert_eq!(
        frames(&heap, head),
        vec![(ScopeClass::Local, lb), (ScopeClass::With, w), (ScopeClass::Global, gb)]
    );
    heap.scope(head).define("y", Value::Int(7), &mut heap);
    assert_eq!(heap.scope(locals).resolve("y", &heap), Value::Int(7));
    assert_eq!(heap.scope(head).resolve("y", &heap), Value::Int(7));
    assert_eq!(heap.scope(head).resolve("x", &heap), Value::Int(2));
    assert_eq!(heap.scope(head).resolve("wv", &heap), Value::Int(4));
}

#[test]
fn overwrite_of_unbound_name_hands_value_back() {
    let mut heap = Heap::new();
    let g = global(&mut heap, &[]);
    let local = Scope::new_local_scope(g, &mut heap);
    let v = Value::Int(42);
    assert_eq!(local.overwrite("z", v, &mut heap), Some(v));
    assert!(!local.is_defined("z", &heap));
    local.define("z", v, &mut heap);
    assert_eq!(local.resolve("z", &heap), v);
}

#[test]
fn overwrite_sets_innermost_owner() {
    let mut heap = Heap::new();
    let g = global(&mut heap, &[("x", Value::Int(1), false)]);
    let m = child(&mut heap, g, ScopeClass::Local, &[("x", Value::Int(2), false)]);
    let a = child(&mut heap, m, ScopeClass::Local, &[]);
    assert_eq!(heap.scope(a).overwrite("x", Value::Int(10), &mut heap), None);
    assert_eq!(heap.scope(m).locals(&heap).force_get("x"), Value::Int(10));
    assert_eq!(heap.scope(g).locals(&heap).force_get("x"), Value::Int(1));
    assert!(!heap.scope(a).locals(&heap).has_property("x"));
}

#[test]
fn overwrite_leaves_read_only_property() {
    let mut heap = Heap::new();
    let mut o = Object::bare_object();
    o.force_set("k", Value::Int(1), Attributes { dont_delete: false, read_only: true });
    let gb = heap.allocate_object(o);
    let g = heap.allocate_scope(Scope::from_global_object(gb));
    let a = child(&mut heap, g, ScopeClass::Local, &[]);
    assert_eq!(heap.scope(a).overwrite("k", Value::Int(2), &mut heap), None);
    assert_eq!(heap.scope(a).resolve("k", &heap), Value::Int(1));
}

#[test]
fn define_writes_only_innermost_bag() {
    let mut heap = Heap::new();
    let g = global(&mut heap, &[("x", Value::Int(1), false)]);
    let a = child(&mut heap, g, ScopeClass::Local, &[]);
    heap.scope(a).define("x", Value::Null, &mut heap);
    assert_eq!(heap.scope(a).resolve("x", &heap), Value::Null);
    assert_eq!(heap.scope(g).resolve("x", &heap), Value::Int(1));
}

#[test]
fn delete_stops_at_first_owner() {
    let mut heap = Heap::new();
    let b = global(&mut heap, &[("x", Value::Int(2), false)]);
    let a = child(&mut heap, b, ScopeClass::Local, &[("x", Value::Int(1), true)]);
    assert!(!heap.scope(a).delete("x", &mut heap));
    assert_eq!(heap.scope(b).resolve("x", &heap), Value::Int(2));
    assert_eq!(heap.scope(a).resolve("x", &heap), Value::Int(1));
}

#[test]
fn delete_removes_from_owner() {
    let mut heap = Heap::new();
    let b = global(&mut heap, &[("x", Value::Int(2), false)]);
    let a = child(&mut heap, b, ScopeClass::Local, &[("x", Value::Int(1), false)]);
    assert!(heap.scope(a).delete("x", &mut heap));
    assert_eq!(heap.scope(a).resolve("x", &heap), Value::Int(2));
    assert!(heap.scope(a).delete("x", &mut heap));
    assert!(!heap.scope(a).is_defined("x", &heap));
    assert!(!heap.scope(a).delete("x", &mut heap));
}

#[test]
fn new_local_scope_has_fresh_empty_bag() {
    let mut heap = Heap::new();
    let g = global(&mut heap, &[("x", Value::Int(1), false)]);
    let local = Scope::new_local_scope(g, &mut heap);
    assert_eq!(local.class(), ScopeClass::Local);
    assert_eq!(local.parent_cell(), Some(g));
    assert_ne!(local.locals_cell(), heap.scope(g).locals_cell());
    assert!(!local.locals(&heap).has_property("x"));
    assert_eq!(local.resolve("x", &heap), Value::Int(1));
}

#[test]
fn locals_mut_changes_the_shared_bag() {
    let mut heap = Heap::new();
    let g = global(&mut heap, &[]);
    let a = child(&mut heap, g, ScopeClass::Local, &[]);
    let node = heap.scope(g);
    node.locals_mut(&mut heap).force_set("v", Value::Int(3), Attributes::empty());
    assert_eq!(heap.scope(a).resolve("v", &heap), Value::Int(3));
    assert_eq!(node.parent(&heap).is_none(), true);
    assert_eq!(heap.scope(a).parent(&heap).unwrap().class(), ScopeClass::Global);
}

#[test]
fn object_set_and_delete_follow_flags() {
    let mut o = Object::bare_object();
    o.set("a", Value::Int(1));
    assert_eq!(o.force_get("a"), Value::Int(1));
    o.force_set("b", Value::Int(2), Attributes { dont_delete: true, read_only: false });
    o.set("b", Value::Int(5));
    assert_eq!(o.force_get("b"), Value::Int(5));
    assert!(!o.delete("b"));
    assert!(o.delete("a"));
    assert!(!o.has_property("a"));
    assert_eq!(o.force_get("a"), Value::Undefined);
    assert!(o.has_property("b"));
}
