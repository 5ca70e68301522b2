use vstd::prelude::*;

use crate::heap::{Heap, ObjectRef, ScopeRef};
use crate::object::{Bag, bag_assign, bag_deletes, Attributes, Property, Value};
use crate::scope::{
    lemma_chain_kept, lemma_chain_step, owner, parent_chain, resolved, retarget, without_with,
    Frame, Scope, ScopeClass,
};

verus! {

/// Where a node and its parent both hold `name`, resolution from the node
/// yields the node's own value.
pub proof fn law_innermost_shadows(heap: &Heap, a: Scope, name: Seq<char>)
    requires
        heap.wf(),
        a.valid_in(heap),
        a.spec_parent() matches Some(b) && heap.bags()[heap.scope_seq()[b.0 as int].spec_values().0 as int].contains_key(name),
        heap.bags()[a.spec_values().0 as int].contains_key(name),
    ensures
        resolved(heap.bags(), a.chain(heap), name) == heap.bags()[a.spec_values().0 as int][name].value,
{
}

/// Where only the parent of a node holds `name`, resolution from the node
/// yields the parent's value; in a two-node chain where neither holds it,
/// resolution yields `Undefined`.
pub proof fn law_fallthrough(heap: &Heap, a: Scope, b: ScopeRef, name: Seq<char>)
    requires
        heap.wf(),
        a.valid_in(heap),
        a.spec_parent() == Some(b),
        !heap.bags()[a.spec_values().0 as int].contains_key(name),
    ensures
        heap.bags()[heap.scope_seq()[b.0 as int].spec_values().0 as int].contains_key(name)
            ==> resolved(heap.bags(), a.chain(heap), name) == heap.bags()[heap.scope_seq()[b.0 as int].spec_values().0 as int][name].value,
        (heap.scope_seq()[b.0 as int].spec_parent() is None && !heap.bags()[heap.scope_seq()[b.0 as int].spec_values().0 as int].contains_key(name))
            ==> resolved(heap.bags(), a.chain(heap), name) == Value::Undefined,
{
    let c = a.chain(heap);
    let bs = heap.scope_seq()[b.0 as int];
    assert(bs.fits(b.0 as int, heap.bags().len()));
    lemma_chain_step(heap, b);
    let d = c.drop_first();
    assert(d =~= bs.chain(heap));
    assert(d[0] == bs.frame());
    assert(owner(heap.bags(), c, name) == owner(heap.bags(), d, name));
    if bs.spec_parent() is None {
        assert(d.drop_first() =~= Seq::<Frame>::empty());
        assert(owner(heap.bags(), d.drop_first(), name) == None::<ObjectRef>);
    }
}

/// Capturing a chain drops its `With` frames and keeps the others in
/// order; a capture of a captured chain changes nothing more.
pub proof fn law_capture_idempotent(chain: Seq<Frame>)
    ensures
        without_with(without_with(chain)) == without_with(chain),
        forall|i: int| 0 <= i < without_with(chain).len() ==> (#[trigger] without_with(chain)[i]).0 != ScopeClass::With,
    decreases chain.len(),
{
    if chain.len() > 0 {
        law_capture_idempotent(chain.drop_first());
        let rest = without_with(chain.drop_first());
        if chain[0].0 != ScopeClass::With {
            let w = seq![chain[0]] + rest;
            assert(w.drop_first() =~= rest);
            assert forall|i: int| 0 <= i < w.len() implies (#[trigger] w[i]).0 != ScopeClass::With by {
                if i > 0 {
                    assert(w[i] == rest[i - 1]);
                }
            }
        }
    }
}

/// Capturing `Global <- Local(l) <- With(w)` gives `Global <- Local(l)`,
/// sharing the same bags, and a name held only by `w` does not resolve
/// along the captured chain. `heap` to `h2` is `new_closure_scope(start)`
/// returning `r`, as its contract describes it.
pub proof fn law_capture_drops_with(
    heap: &Heap,
    h2: &Heap,
    start: ScopeRef,
    r: ScopeRef,
    g: ObjectRef,
    l: ObjectRef,
    w: ObjectRef,
    name: Seq<char>,
)
    requires
        heap.wf(),
        start.0 < heap.scope_seq().len(),
        heap.chain_of(start) == seq![(ScopeClass::With, w), (ScopeClass::Local, l), (ScopeClass::Global, g)],
        g.0 < heap.bags().len(),
        l.0 < heap.bags().len(),
        w.0 < heap.bags().len(),
        heap.bags()[w.0 as int].contains_key(name),
        !heap.bags()[l.0 as int].contains_key(name),
        !heap.bags()[g.0 as int].contains_key(name),
        h2.wf(),
        h2.extends(heap),
        without_with(heap.chain_of(start)).len() > 0 ==> {
            &&& h2.bags() == heap.bags()
            &&& h2.chain_of(r) == without_with(heap.chain_of(start))
        },
        without_with(heap.chain_of(start)).len() == 0 ==> {
            &&& h2.bags() == heap.bags().push(Bag::empty())
            &&& h2.chain_of(r) == seq![
                (ScopeClass::Global, ObjectRef(heap.bags().len() as usize)),
            ]
        },
    ensures
        h2.chain_of(r) == seq![(ScopeClass::Local, l), (ScopeClass::Global, g)],
        h2.bags() == heap.bags(),
        resolved(h2.bags(), h2.chain_of(r), name) == Value::Undefined,
        resolved(h2.bags(), h2.chain_of(start), name) == heap.bags()[w.0 as int][name].value,
{
    let c = heap.chain_of(start);
    let e = Seq::<Frame>::empty();
    let s3 = seq![(ScopeClass::Global, g)];
    let s2 = seq![(ScopeClass::Local, l), (ScopeClass::Global, g)];
    assert(c.drop_first() =~= s2);
    assert(s2.drop_first() =~= s3);
    assert(s3.drop_first() =~= e);
    assert(without_with(e) == e);
    assert(without_with(s3) =~= s3);
    assert(without_with(s2) =~= s2);
    assert(owner(heap.bags(), e, name) == None::<ObjectRef>);
    assert(owner(heap.bags(), s3, name) == None::<ObjectRef>);
    assert(owner(heap.bags(), s2, name) == None::<ObjectRef>);
    lemma_chain_kept(heap, h2, start.0 as int);
}

/// Retargeting `Global <- Target(t1) <- Local(l)` at `t2` gives
/// `Global <- Target(t2) <- Local(l)`; a name held only by `t1` does not
/// resolve there, while the original chain, unchanged in the heap after
/// the splice, still resolves it. `h1` to `h2` is
/// `new_target_scope(start, t2)` returning `r`, as its contract describes it.
pub proof fn law_target_splice_is_local(
    h1: &Heap,
    h2: &Heap,
    start: ScopeRef,
    r: ScopeRef,
    g: ObjectRef,
    t1: ObjectRef,
    t2: ObjectRef,
    l: ObjectRef,
    name: Seq<char>,
)
    requires
        h1.wf(),
        start.0 < h1.scope_seq().len(),
        h1.chain_of(start) == seq![(ScopeClass::Local, l), (ScopeClass::Target, t1), (ScopeClass::Global, g)],
        g.0 < h1.bags().len(),
        l.0 < h1.bags().len(),
        t1.0 < h1.bags().len(),
        t2.0 < h1.bags().len(),
        h2.extends(h1),
        h2.bags() == h1.bags(),
        h2.chain_of(r) == retarget(h1.chain_of(start), t2),
        h1.bags()[t1.0 as int].contains_key(name),
        !h1.bags()[t2.0 as int].contains_key(name),
        !h1.bags()[l.0 as int].contains_key(name),
        !h1.bags()[g.0 as int].contains_key(name),
    ensures
        h2.chain_of(r) == seq![(ScopeClass::Local, l), (ScopeClass::Target, t2), (ScopeClass::Global, g)],
        resolved(h2.bags(), h2.chain_of(r), name) == Value::Undefined,
        h2.chain_of(start) == h1.chain_of(start),
        resolved(h2.bags(), h2.chain_of(start), name) == h1.bags()[t1.0 as int][name].value,
{
    let c = h1.chain_of(start);
    let e = Seq::<Frame>::empty();
    let s3 = seq![(ScopeClass::Global, g)];
    let s2 = seq![(ScopeClass::Target, t1), (ScopeClass::Global, g)];
    let r2 = seq![(ScopeClass::Target, t2), (ScopeClass::Global, g)];
    let rs = seq![(ScopeClass::Local, l), (ScopeClass::Target, t2), (ScopeClass::Global, g)];
    assert(c.drop_first() =~= s2);
    assert(s2.drop_first() =~= s3);
    assert(rs.drop_first() =~= r2);
    assert(r2.drop_first() =~= s3);
    assert(s3.drop_first() =~= e);
    assert(retarget(e, t2) == e);
    assert(retarget(s3, t2) =~= s3);
    assert(retarget(s2, t2) =~= r2);
    assert(retarget(c, t2) =~= rs);
    assert(owner(h2.bags(), e, name) == None::<ObjectRef>);
    assert(owner(h2.bags(), s3, name) == None::<ObjectRef>);
    assert(owner(h2.bags(), r2, name) == None::<ObjectRef>);
    assert(owner(h2.bags(), rs, name) == None::<ObjectRef>);
    assert(owner(h2.bags(), s2, name) == Some(t1));
    lemma_chain_kept(h1, h2, start.0 as int);
    assert(c.drop_first()[0] == (ScopeClass::Target, t1));
}

/// After `new_with_scope(locals, w)` returns `head` and `define(name, v)`
/// runs on `head`, `name` resolves to `v` from `locals` too: the head
/// writes into the same bag.
pub proof fn law_with_keeps_local_bag(
    h1: &Heap,
    h2: &Heap,
    h3: &Heap,
    locals: ScopeRef,
    w: ObjectRef,
    head: ScopeRef,
    name: Seq<char>,
    v: Value,
)
    requires
        h1.wf(),
        locals.0 < h1.scope_seq().len(),
        w.0 < h1.bags().len(),
        h2.wf(),
        h2.extends(h1),
        h2.bags() == h1.bags(),
        head.0 < h2.scope_seq().len(),
        h2.chain_of(head) == seq![
            (ScopeClass::Local, h1.scope_seq()[locals.0 as int].spec_values()),
            (ScopeClass::With, w),
        ] + parent_chain(h1.scope_seq(), h1.scope_seq()[locals.0 as int].spec_parent()),
        h3.scope_seq() == h2.scope_seq(),
        h3.bags() == h2.bags().update(
            h2.scope_seq()[head.0 as int].spec_values().0 as int,
            h2.bags()[h2.scope_seq()[head.0 as int].spec_values().0 as int].insert(
                name,
                Property { value: v, attributes: Attributes::none() },
            ),
        ),
    ensures
        h2.scope_seq()[head.0 as int].spec_values() == h1.scope_seq()[locals.0 as int].spec_values(),
        resolved(h3.bags(), h3.chain_of(locals), name) == v,
{
    lemma_chain_step(h2, head);
    assert(h2.chain_of(head)[0] == h2.scope_seq()[head.0 as int].frame());
    lemma_chain_step(h1, locals);
    assert(h1.scope_seq()[locals.0 as int].fits(locals.0 as int, h1.bags().len()));
    assert(h3.extends(h1));
    lemma_chain_kept(h1, h3, locals.0 as int);
    assert(h3.chain_of(locals)[0] == h1.scope_seq()[locals.0 as int].frame());
}

/// Where no node holds `name`, `overwrite` hands the value back and leaves
/// every bag alone; a `define` of it afterwards makes it resolve to that
/// value. `h0` to `h1` is the `overwrite`, `h1` to `h2` the `define`, each
/// as its contract describes it.
pub proof fn law_overwrite_then_define(
    h0: &Heap,
    h1: &Heap,
    h2: &Heap,
    s: Scope,
    name: Seq<char>,
    v: Value,
    r: Option<Value>,
)
    requires
        h0.wf(),
        s.valid_in(h0),
        owner(h0.bags(), s.chain(h0), name) is None,
        h1.wf(),
        h1.scope_seq() == h0.scope_seq(),
        match owner(h0.bags(), s.chain(h0), name) {
            Some(b) => r == None::<Value> && h1.bags() == h0.bags().update(
                b.0 as int,
                bag_assign(h0.bags()[b.0 as int], name, v),
            ),
            None => r == Some(v) && h1.bags() == h0.bags(),
        },
        h2.scope_seq() == h1.scope_seq(),
        h2.bags() == h1.bags().update(
            s.spec_values().0 as int,
            h1.bags()[s.spec_values().0 as int].insert(
                name,
                Property { value: v, attributes: Attributes::none() },
            ),
        ),
    ensures
        r == Some(v),
        h1.bags() == h0.bags(),
        s.chain(h1) == s.chain(h0),
        resolved(h2.bags(), s.chain(h2), name) == v,
{
    assert(s.chain(h2)[0] == s.frame());
}

/// Where a node holds `name` undeletably and its parent holds it too,
/// `delete` from the node stops there: it returns `false` and the parent's
/// property is left in place. `h0` to `h1` is the `delete`, as its
/// contract describes it.
pub proof fn law_delete_stops_at_owner(h0: &Heap, h1: &Heap, a: Scope, b: ScopeRef, name: Seq<char>, r: bool)
    requires
        h0.wf(),
        a.valid_in(h0),
        a.spec_parent() == Some(b),
        h0.bags()[h0.scope_seq()[b.0 as int].spec_values().0 as int].contains_key(name),
        h0.bags()[a.spec_values().0 as int].contains_key(name),
        h0.bags()[a.spec_values().0 as int][name].attributes.dont_delete,
        h1.wf(),
        h1.scope_seq() == h0.scope_seq(),
        match owner(h0.bags(), a.chain(h0), name) {
            Some(o) => {
                &&& r == bag_deletes(h0.bags()[o.0 as int], name)
                &&& h1.bags() == if r {
                    h0.bags().update(o.0 as int, h0.bags()[o.0 as int].remove(name))
                } else {
                    h0.bags()
                }
            },
            None => !r && h1.bags() == h0.bags(),
        },
    ensures
        owner(h0.bags(), a.chain(h0), name) == Some(a.spec_values()),
        !r,
        h1.bags() == h0.bags(),
        h1.bags()[h1.scope_seq()[b.0 as int].spec_values().0 as int][name]
            == h0.bags()[h0.scope_seq()[b.0 as int].spec_values().0 as int][name],
{
}

} // verus!
