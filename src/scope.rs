use vstd::prelude::*;

use crate::heap::{Heap, ObjectRef, ScopeRef};
use crate::object::{bag_assign, bag_deletes, Attributes, Bag, Object, Property, Value};

verus! {

/// What role a scope node plays in its chain.
#[derive(Clone, Copy, Debug, PartialEq, Eq, Structural)]
pub enum ScopeClass {
    /// The outermost scope: the global object.
    Global,
    /// The timeline scope: the current clip, replaceable by `tellTarget`.
    Target,
    /// A function activation; kept when a closure captures its chain.
    Local,
    /// An object pushed by `with`; dropped when a closure captures its chain.
    With,
}

/// One node of a chain as resolution sees it: its class and its bag.
pub type Frame = (ScopeClass, ObjectRef);

/// A node of a scope chain.
#[derive(Clone, Copy, Debug)]
pub struct Scope {
    parent: Option<ScopeRef>,
    class: ScopeClass,
    values: ObjectRef,
}

/// The chain that starts at index `i` of `scopes`, innermost frame first.
/// A parent link that does not point below its node ends the chain.
pub open spec fn chain_at(scopes: Seq<Scope>, i: int) -> Seq<Frame>
    decreases i,
{
    if 0 <= i < scopes.len() {
        let s = scopes[i];
        seq![s.frame()] + match s.spec_parent() {
            Some(p) => if p.0 < i {
                chain_at(scopes, p.0 as int)
            } else {
                Seq::<Frame>::empty()
            },
            None => Seq::<Frame>::empty(),
        }
    } else {
        Seq::<Frame>::empty()
    }
}

/// The chain that starts at the optional node `p`.
pub open spec fn parent_chain(scopes: Seq<Scope>, p: Option<ScopeRef>) -> Seq<Frame> {
    match p {
        Some(r) => chain_at(scopes, r.0 as int),
        None => Seq::<Frame>::empty(),
    }
}

/// The bag of the innermost frame of `chain` whose bag holds `name`.
pub open spec fn owner(bags: Seq<Bag>, chain: Seq<Frame>, name: Seq<char>) -> Option<ObjectRef>
    decreases chain.len(),
{
    if chain.len() == 0 {
        None
    } else if bags[chain[0].1.0 as int].contains_key(name) {
        Some(chain[0].1)
    } else {
        owner(bags, chain.drop_first(), name)
    }
}

/// What `name` resolves to along `chain`: the value in its innermost
/// owner, or `Undefined` where no frame holds it.
pub open spec fn resolved(bags: Seq<Bag>, chain: Seq<Frame>, name: Seq<char>) -> Value {
    match owner(bags, chain, name) {
        Some(b) => bags[b.0 as int][name].value,
        None => Value::Undefined,
    }
}

/// The owner of a name holds it.
pub proof fn lemma_owner_holds(bags: Seq<Bag>, chain: Seq<Frame>, name: Seq<char>)
    ensures
        owner(bags, chain, name) matches Some(b) ==> bags[b.0 as int].contains_key(name),
    decreases chain.len(),
{
    if chain.len() > 0 && !bags[chain[0].1.0 as int].contains_key(name) {
        lemma_owner_holds(bags, chain.drop_first(), name);
    }
}

/// `chain` without its `With` frames, in the same order.
pub open spec fn without_with(chain: Seq<Frame>) -> Seq<Frame>
    decreases chain.len(),
{
    if chain.len() == 0 {
        Seq::<Frame>::empty()
    } else if chain[0].0 == ScopeClass::With {
        without_with(chain.drop_first())
    } else {
        seq![chain[0]] + without_with(chain.drop_first())
    }
}

/// `chain` with the bag of every `Target` frame replaced by `clip`.
pub open spec fn retarget(chain: Seq<Frame>, clip: ObjectRef) -> Seq<Frame>
    decreases chain.len(),
{
    if chain.len() == 0 {
        Seq::<Frame>::empty()
    } else {
        let f = if chain[0].0 == ScopeClass::Target {
            (ScopeClass::Target, clip)
        } else {
            chain[0]
        };
        seq![f] + retarget(chain.drop_first(), clip)
    }
}

/// Every frame of `chain` refers to an allocated bag.
pub open spec fn frames_valid(chain: Seq<Frame>, n_objects: nat) -> bool {
    forall|i: int| 0 <= i < chain.len() ==> (#[trigger] chain[i]).1.0 < n_objects
}

/// Under a well-formed heap, the chain at a node is its frame followed by
/// the chain at its parent.
pub proof fn lemma_chain_step(heap: &Heap, r: ScopeRef)
    requires
        heap.wf(),
        r.0 < heap.scope_seq().len(),
    ensures
        heap.chain_of(r) == heap.scope_seq()[r.0 as int].chain(heap),
{
    assert(heap.scope_seq()[r.0 as int].fits(r.0 as int, heap.bags().len()));
}

/// Chains that start at a node of `h1` are the same in any heap that
/// extends it.
pub proof fn lemma_chain_kept(h1: &Heap, h2: &Heap, i: int)
    requires
        h2.extends(h1),
    ensures
        0 <= i < h1.scope_seq().len() ==> chain_at(h2.scope_seq(), i) == chain_at(
            h1.scope_seq(),
            i,
        ),
    decreases i,
{
    if 0 <= i < h1.scope_seq().len() {
        let s = h1.scope_seq()[i];
        assert(h2.scope_seq()[i] == s);
        match s.spec_parent() {
            Some(p) => {
                if p.0 < i {
                    lemma_chain_kept(h1, h2, p.0 as int);
                }
            },
            None => {},
        }
    }
}

/// The frames of a chain in a well-formed heap refer to allocated bags.
pub proof fn lemma_chain_valid(heap: &Heap, i: int)
    requires
        heap.wf(),
    ensures
        frames_valid(chain_at(heap.scope_seq(), i), heap.bags().len()),
    decreases i,
{
    if 0 <= i < heap.scope_seq().len() {
        let s = heap.scope_seq()[i];
        assert(s.fits(i, heap.bags().len()));
        match s.spec_parent() {
            Some(p) => {
                lemma_chain_valid(heap, p.0 as int);
            },
            None => {},
        }
        let c = chain_at(heap.scope_seq(), i);
        assert forall|k: int| 0 <= k < c.len() implies (#[trigger] c[k]).1.0 < heap.bags().len() by {
            if k > 0 {
                assert(c[k] == parent_chain(heap.scope_seq(), s.spec_parent())[k - 1]);
            }
        }
    }
}

impl Scope {
    pub closed spec fn spec_parent(&self) -> Option<ScopeRef> {
        self.parent
    }

    pub closed spec fn spec_class(&self) -> ScopeClass {
        self.class
    }

    pub closed spec fn spec_values(&self) -> ObjectRef {
        self.values
    }

    pub open spec fn frame(&self) -> Frame {
        (self.spec_class(), self.spec_values())
    }

    /// The parent lies below `bound` and the bag is allocated.
    pub open spec fn fits(&self, bound: int, n_objects: nat) -> bool {
        &&& match self.spec_parent() {
            Some(p) => p.0 < bound,
            None => true,
        }
        &&& self.spec_values().0 < n_objects
    }

    /// Every handle the node holds is allocated in `heap`.
    pub open spec fn valid_in(&self, heap: &Heap) -> bool {
        self.fits(heap.scope_seq().len() as int, heap.bags().len())
    }

    /// The chain that starts at this node, innermost frame first.
    pub open spec fn chain(&self, heap: &Heap) -> Seq<Frame> {
        seq![self.frame()] + parent_chain(heap.scope_seq(), self.spec_parent())
    }

    /// The measure that a walk along parent links decreases.
    spec fn depth(&self) -> nat {
        match self.parent {
            Some(p) => p.0 as nat + 1,
            None => 0,
        }
    }

    /// A global scope over `globals`, with no parent.
    pub fn from_global_object(globals: ObjectRef) -> (r: Scope)
        ensures
            r.spec_parent() == None::<ScopeRef>,
            r.spec_class() == ScopeClass::Global,
            r.spec_values() == globals,
    {
        Scope { parent: None, class: ScopeClass::Global, values: globals }
    }

    /// A node of the given class over `with_object`, below `parent`.
    pub fn new(parent: ScopeRef, class: ScopeClass, with_object: ObjectRef) -> (r: Scope)
        ensures
            r.spec_parent() == Some(parent),
            r.spec_class() == class,
            r.spec_values() == with_object,
    {
        Scope { parent: Some(parent), class, values: with_object }
    }

    pub fn class(&self) -> (r: ScopeClass)
        ensures
            r == self.spec_class(),
    {
        self.class
    }

    /// The handle of this node's bag.
    pub fn locals_cell(&self) -> (r: ObjectRef)
        ensures
            r == self.spec_values(),
    {
        self.values
    }

    /// The handle of the parent node, if any.
    pub fn parent_cell(&self) -> (r: Option<ScopeRef>)
        ensures
            r == self.spec_parent(),
    {
        self.parent
    }

    /// This node's bag.
    pub fn locals<'a>(&self, heap: &'a Heap) -> (r: &'a Object)
        requires
            heap.wf(),
            self.valid_in(heap),
        ensures
            r.wf(),
            r@ == heap.bags()[self.spec_values().0 as int],
    {
        heap.object(self.values)
    }

    /// This node's bag, for change in place.
    pub fn locals_mut<'a>(&self, heap: &'a mut Heap) -> (r: &'a mut Object)
        requires
            old(heap).wf(),
            self.valid_in(old(heap)),
        ensures
            r.wf(),
            r@ == old(heap).bags()[self.spec_values().0 as int],
            final(heap).scope_seq() == old(heap).scope_seq(),
            final(heap).bags() == old(heap).bags().update(
                self.spec_values().0 as int,
                final(r)@,
            ),
            final(r).wf() ==> final(heap).wf(),
    {
        heap.object_mut(self.values)
    }

    /// The parent node, if any.
    pub fn parent(&self, heap: &Heap) -> (r: Option<Scope>)
        requires
            heap.wf(),
            self.valid_in(heap),
        ensures
            r == match self.spec_parent() {
                Some(p) => Some(heap.scope_seq()[p.0 as int]),
                None => None::<Scope>,
            },
            r matches Some(s) ==> s.valid_in(heap),
    {
        match self.parent {
            Some(p) => Some(heap.scope(p)),
            None => None,
        }
    }

    /// The bag of the innermost node of this chain that holds `name`.
    fn find_owner(&self, name: &str, heap: &Heap) -> (r: Option<ObjectRef>)
        requires
            heap.wf(),
            self.valid_in(heap),
        ensures
            r == owner(heap.bags(), self.chain(heap), name@),
            r matches Some(b) ==> b.0 < heap.bags().len(),
    {
        let mut cur = *self;
        loop
            invariant
                heap.wf(),
                cur.valid_in(heap),
                owner(heap.bags(), self.chain(heap), name@) == owner(
                    heap.bags(),
                    cur.chain(heap),
                    name@,
                ),
            decreases cur.depth(),
        {
            let ghost c = cur.chain(heap);
            assert(c[0] == cur.frame());
            if heap.object(cur.values).has_property(name) {
                return Some(cur.values);
            }
            match cur.parent {
                Some(p) => {
                    let next = heap.scope(p);
                    proof {
                        lemma_chain_step(heap, p);
                        assert(c.drop_first() =~= next.chain(heap));
                    }
                    cur = next;
                },
                None => {
                    assert(c.drop_first() =~= Seq::<Frame>::empty());
                    assert(owner(heap.bags(), c.drop_first(), name@) == None::<ObjectRef>);
                    return None;
                },
            }
        }
    }

    /// The value that `name` resolves to, innermost node first;
    /// `Undefined` where no node holds it.
    pub fn resolve(&self, name: &str, heap: &Heap) -> (r: Value)
        requires
            heap.wf(),
            self.valid_in(heap),
        ensures
            r == resolved(heap.bags(), self.chain(heap), name@),
    {
        proof {
            lemma_owner_holds(heap.bags(), self.chain(heap), name@);
        }
        match self.find_owner(name, heap) {
            Some(b) => heap.object(b).force_get(name),
            None => Value::Undefined,
        }
    }

    /// Whether some node of the chain holds `name`.
    pub fn is_defined(&self, name: &str, heap: &Heap) -> (r: bool)
        requires
            heap.wf(),
            self.valid_in(heap),
        ensures
            r == owner(heap.bags(), self.chain(heap), name@).is_some(),
    {
        self.find_owner(name, heap).is_some()
    }

    /// Assigns `value` to `name` in the innermost node that holds it and
    /// returns `None`; where no node holds it, changes nothing and hands
    /// `value` back for the caller to define.
    pub fn overwrite(&self, name: &str, value: Value, heap: &mut Heap) -> (r: Option<Value>)
        requires
            old(heap).wf(),
            self.valid_in(old(heap)),
        ensures
            final(heap).wf(),
            final(heap).scope_seq() == old(heap).scope_seq(),
            match owner(old(heap).bags(), self.chain(old(heap)), name@) {
                Some(b) => r == None::<Value> && final(heap).bags() == old(heap).bags().update(
                    b.0 as int,
                    bag_assign(old(heap).bags()[b.0 as int], name@, value),
                ),
                None => r == Some(value) && final(heap).bags() == old(heap).bags(),
            },
    {
        match self.find_owner(name, heap) {
            Some(b) => {
                heap.object_mut(b).set(name, value);
                None
            },
            None => Some(value),
        }
    }

    /// Stores `value` under `name` in this node's own bag, with the empty
    /// flag set, without looking further along the chain.
    pub fn define(&self, name: &str, value: Value, heap: &mut Heap)
        requires
            old(heap).wf(),
            self.valid_in(old(heap)),
        ensures
            final(heap).wf(),
            final(heap).scope_seq() == old(heap).scope_seq(),
            final(heap).bags() == old(heap).bags().update(
                self.spec_values().0 as int,
                old(heap).bags()[self.spec_values().0 as int].insert(
                    name@,
                    Property { value, attributes: Attributes::none() },
                ),
            ),
    {
        self.locals_mut(heap).force_set(name, value, Attributes::empty());
    }

    /// Deletes `name` from the innermost node that holds it and returns
    /// whether that succeeded; the walk stops there either way. Returns
    /// `false` where no node holds it.
    pub fn delete(&self, name: &str, heap: &mut Heap) -> (r: bool)
        requires
            old(heap).wf(),
            self.valid_in(old(heap)),
        ensures
            final(heap).wf(),
            final(heap).scope_seq() == old(heap).scope_seq(),
            match owner(old(heap).bags(), self.chain(old(heap)), name@) {
                Some(b) => {
                    &&& r == bag_deletes(old(heap).bags()[b.0 as int], name@)
                    &&& final(heap).bags() == if r {
                        old(heap).bags().update(
                            b.0 as int,
                            old(heap).bags()[b.0 as int].remove(name@),
                        )
                    } else {
                        old(heap).bags()
                    }
                },
                None => !r && final(heap).bags() == old(heap).bags(),
            },
    {
        match self.find_owner(name, heap) {
            Some(b) => {
                let ghost before = heap.bags();
                let r = heap.object_mut(b).delete(name);
                proof {
                    if !r {
                        assert(heap.bags() =~= before);
                    }
                }
                r
            },
            None => false,
        }
    }

    /// A new `Local` node below `parent`, over a freshly allocated empty bag.
    /// The node itself is returned, not yet allocated.
    pub fn new_local_scope(parent: ScopeRef, heap: &mut Heap) -> (r: Scope)
        requires
            old(heap).wf(),
            parent.0 < old(heap).scope_seq().len(),
        ensures
            final(heap).wf(),
            final(heap).scope_seq() == old(heap).scope_seq(),
            final(heap).bags() == old(heap).bags().push(Bag::empty()),
            r.spec_parent() == Some(parent),
            r.spec_class() == ScopeClass::Local,
            r.spec_values() == ObjectRef(old(heap).bags().len() as usize),
            r.valid_in(final(heap)),
    {
        let values = heap.allocate_object(Object::bare_object());
        Scope { parent: Some(parent), class: ScopeClass::Local, values }
    }

    /// Allocates one node per frame, outermost first, so that the chain at
    /// the returned node is `frames`; `None` for no frames.
    fn build_chain(frames: &Vec<Frame>, heap: &mut Heap) -> (r: Option<ScopeRef>)
        requires
            old(heap).wf(),
            frames_valid(frames@, old(heap).bags().len()),
        ensures
            final(heap).wf(),
            final(heap).extends(old(heap)),
            final(heap).bags() == old(heap).bags(),
            match r {
                Some(s) => s.0 < final(heap).scope_seq().len() && final(heap).chain_of(s)
                    == frames@,
                None => frames@.len() == 0,
            },
    {
        let mut parent: Option<ScopeRef> = None;
        let mut i: usize = frames.len();
        while i > 0
            invariant
                i <= frames@.len(),
                heap.wf(),
                heap.extends(old(heap)),
                heap.bags() == old(heap).bags(),
                frames_valid(frames@, old(heap).bags().len()),
                parent is None <==> i == frames@.len(),
                parent matches Some(p) ==> p.0 < heap.scope_seq().len(),
                parent_chain(heap.scope_seq(), parent) == frames@.subrange(
                    i as int,
                    frames@.len() as int,
                ),
            decreases i,
        {
            i = i - 1;
            let (class, values) = frames[i];
            assert(frames@[i as int].1.0 < heap.bags().len());
            let node = Scope { parent, class, values };
            let ghost h0 = *heap;
            let r = heap.allocate_scope(node);
            proof {
                match parent {
                    Some(p) => lemma_chain_kept(&h0, heap, p.0 as int),
                    None => {},
                }
                lemma_chain_step(heap, r);
                assert(heap.chain_of(r) =~= frames@.subrange(i as int, frames@.len() as int));
            }
            parent = Some(r);
        }
        assert(frames@.subrange(0, frames@.len() as int) =~= frames@);
        parent
    }

    /// The frames of the chain at `start`, innermost first: without the
    /// `With` frames when `drop_with`; otherwise with every `Target` frame
    /// pointed at `clip`, where one is given.
    fn collect_frames(start: ScopeRef, heap: &Heap, drop_with: bool, clip: Option<ObjectRef>) -> (r: Vec<Frame>)
        requires
            heap.wf(),
            start.0 < heap.scope_seq().len(),
            clip matches Some(c) ==> c.0 < heap.bags().len(),
        ensures
            frames_valid(r@, heap.bags().len()),
            drop_with ==> r@ == without_with(heap.chain_of(start)),
            (!drop_with && clip is Some) ==> r@ == retarget(heap.chain_of(start), clip->0),
    {
        let mut list: Vec<Frame> = Vec::new();
        let mut at: Option<ScopeRef> = Some(start);
        proof {
            lemma_chain_valid(heap, start.0 as int);
        }
        loop
            invariant
                heap.wf(),
                at matches Some(p) ==> p.0 < heap.scope_seq().len(),
                clip matches Some(c) ==> c.0 < heap.bags().len(),
                frames_valid(list@, heap.bags().len()),
                frames_valid(heap.chain_of(start), heap.bags().len()),
                drop_with ==> list@ + without_with(parent_chain(heap.scope_seq(), at))
                    == without_with(heap.chain_of(start)),
                (!drop_with && clip is Some) ==> list@ + retarget(
                    parent_chain(heap.scope_seq(), at),
                    clip->0,
                ) == retarget(heap.chain_of(start), clip->0),
            ensures
                frames_valid(list@, heap.bags().len()),
                drop_with ==> list@ == without_with(heap.chain_of(start)),
                (!drop_with && clip is Some) ==> list@ == retarget(heap.chain_of(start), clip->0),
            decreases match at {
                Some(p) => p.0 as int + 1,
                None => 0,
            },
        {
            match at {
                None => {
                    assert(list@ + without_with(Seq::<Frame>::empty()) =~= list@);
                    assert(list@ + retarget(Seq::<Frame>::empty(), clip->0) =~= list@);
                    break;
                },
                Some(p) => {
                    let node = heap.scope(p);
                    let ghost c = heap.chain_of(p);
                    let ghost before = list@;
                    proof {
                        lemma_chain_step(heap, p);
                        lemma_chain_valid(heap, p.0 as int);
                        assert(c[0] == node.frame());
                        assert(c.drop_first() =~= parent_chain(heap.scope_seq(), node.parent));
                    }
                    if node.class == ScopeClass::With && drop_with {
                    } else if node.class == ScopeClass::Target && !drop_with && clip.is_some() {
                        let c = match clip {
                            Some(c) => c,
                            None => node.values,
                        };
                        list.push((ScopeClass::Target, c));
                    } else {
                        list.push((node.class, node.values));
                    }
                    proof {
                        assert(node.values.0 < heap.bags().len());
                        assert forall|k: int| 0 <= k < list@.len() implies (#[trigger] list@[k]).1.0
                            < heap.bags().len() by {
                            if k < before.len() {
                                assert(list@[k] == before[k]);
                            }
                        }
                        if drop_with {
                            if node.class == ScopeClass::With {
                                assert(list@ =~= before);
                            } else {
                                assert(before + without_with(c) =~= list@ + without_with(c.drop_first()));
                            }
                        }
                        if !drop_with && clip is Some {
                            assert(before + retarget(c, clip->0) =~= list@ + retarget(
                                c.drop_first(),
                                clip->0,
                            ));
                        }
                    }
                    at = node.parent;
                },
            }
        }
        list
    }

    /// The chain a closure keeps: a fresh copy of the chain at `parent`
    /// without its `With` nodes, sharing their bags. Where nothing is left,
    /// a single `Global` node over a fresh empty bag.
    pub fn new_closure_scope(parent: ScopeRef, heap: &mut Heap) -> (r: ScopeRef)
        requires
            old(heap).wf(),
            parent.0 < old(heap).scope_seq().len(),
        ensures
            final(heap).wf(),
            final(heap).extends(old(heap)),
            r.0 < final(heap).scope_seq().len(),
            without_with(old(heap).chain_of(parent)).len() > 0 ==> {
                &&& final(heap).bags() == old(heap).bags()
                &&& final(heap).chain_of(r) == without_with(old(heap).chain_of(parent))
            },
            without_with(old(heap).chain_of(parent)).len() == 0 ==> {
                &&& final(heap).bags() == old(heap).bags().push(Bag::empty())
                &&& final(heap).chain_of(r) == seq![
                    (ScopeClass::Global, ObjectRef(old(heap).bags().len() as usize)),
                ]
            },
    {
        let frames = Scope::collect_frames(parent, heap, true, None);
        match Scope::build_chain(&frames, heap) {
            Some(r) => r,
            None => {
                let ghost h0 = *heap;
                let values = heap.allocate_object(Object::bare_object());
                let r = heap.allocate_scope(
                    Scope { parent: None, class: ScopeClass::Global, values },
                );
                proof {
                    lemma_chain_step(heap, r);
                    assert(heap.chain_of(r) =~= seq![(ScopeClass::Global, values)]);
                }
                r
            },
        }
    }

    /// The chain for `tellTarget`: a fresh copy of the chain at `parent`
    /// in which every `Target` node refers to `clip` instead.
    pub fn new_target_scope(parent: ScopeRef, clip: ObjectRef, heap: &mut Heap) -> (r: ScopeRef)
        requires
            old(heap).wf(),
            parent.0 < old(heap).scope_seq().len(),
            clip.0 < old(heap).bags().len(),
        ensures
            final(heap).wf(),
            final(heap).extends(old(heap)),
            final(heap).bags() == old(heap).bags(),
            r.0 < final(heap).scope_seq().len(),
            final(heap).chain_of(r) == retarget(old(heap).chain_of(parent), clip),
    {
        let frames = Scope::collect_frames(parent, heap, false, Some(clip));
        proof {
            lemma_chain_step(heap, parent);
            assert(frames@.len() > 0);
        }
        match Scope::build_chain(&frames, heap) {
            Some(r) => r,
            None => {
                // The chain at `parent` holds at least `parent`'s own frame,
                // so there is never an empty chain to fall back from.
                assert(false);
                parent
            },
        }
    }

    /// The chain for a `with` block: a `Local` node over the bag of
    /// `locals`, above a `With` node over `with_object`, above the parent
    /// of `locals`.
    pub fn new_with_scope(locals: ScopeRef, with_object: ObjectRef, heap: &mut Heap) -> (r: ScopeRef)
        requires
            old(heap).wf(),
            locals.0 < old(heap).scope_seq().len(),
            with_object.0 < old(heap).bags().len(),
        ensures
            final(heap).wf(),
            final(heap).extends(old(heap)),
            final(heap).bags() == old(heap).bags(),
            r.0 < final(heap).scope_seq().len(),
            final(heap).chain_of(r) == seq![
                (ScopeClass::Local, old(heap).scope_seq()[locals.0 as int].spec_values()),
                (ScopeClass::With, with_object),
            ] + parent_chain(
                old(heap).scope_seq(),
                old(heap).scope_seq()[locals.0 as int].spec_parent(),
            ),
    {
        let node = heap.scope(locals);
        let ghost h0 = *heap;
        let with_scope = heap.allocate_scope(
            Scope { parent: node.parent, class: ScopeClass::With, values: with_object },
        );
        let ghost h1 = *heap;
        let r = heap.allocate_scope(
            Scope { parent: Some(with_scope), class: ScopeClass::Local, values: node.values },
        );
        proof {
            match node.parent {
                Some(p) => {
                    lemma_chain_kept(&h0, &h1, p.0 as int);
                    lemma_chain_kept(&h0, heap, p.0 as int);
                },
                None => {},
            }
            lemma_chain_step(heap, r);
            lemma_chain_step(heap, with_scope);
            assert(heap.chain_of(r) =~= seq![
                (ScopeClass::Local, node.values),
                (ScopeClass::With, with_object),
            ] + parent_chain(h0.scope_seq(), node.parent));
        }
        r
    }
}

} // verus!
