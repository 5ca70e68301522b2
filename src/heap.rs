use vstd::prelude::*;

use crate::object::{Bag, Object};
use crate::scope::{chain_at, Frame, Scope};

verus! {

/// Handle of a property bag allocated in a [`Heap`].
#[derive(Clone, Copy, Debug, PartialEq, Eq, Structural)]
pub struct ObjectRef(pub usize);

/// Handle of a scope node allocated in a [`Heap`].
#[derive(Clone, Copy, Debug, PartialEq, Eq, Structural)]
pub struct ScopeRef(pub usize);

/// Whether every node's parent sits below the node and every node's bag
/// is allocated.
pub open spec fn scopes_ordered(scopes: Seq<Scope>, n_objects: nat) -> bool {
    forall|i: int| 0 <= i < scopes.len() ==> #[trigger] scopes[i].fits(i, n_objects)
}

/// The arena that owns every scope node and property bag.
///
/// Scope nodes are never changed once allocated; bags are changed in place
/// and every node that refers to a bag sees the change.
#[derive(Debug)]
pub struct Heap {
    scopes: Vec<Scope>,
    objects: Vec<Object>,
}

impl Heap {
    /// The allocated scope nodes, by handle.
    pub closed spec fn scope_seq(&self) -> Seq<Scope> {
        self.scopes@
    }

    /// The contents of the allocated bags, by handle.
    pub closed spec fn bags(&self) -> Seq<Bag> {
        self.objects@.map_values(|o: Object| o@)
    }

    pub closed spec fn objects_wf(&self) -> bool {
        forall|i: int| 0 <= i < self.objects@.len() ==> (#[trigger] self.objects@[i]).wf()
    }

    pub open spec fn wf(&self) -> bool {
        &&& self.objects_wf()
        &&& scopes_ordered(self.scope_seq(), self.bags().len())
    }

    /// The chain that starts at the node `r`, innermost frame first.
    pub open spec fn chain_of(&self, r: ScopeRef) -> Seq<Frame> {
        chain_at(self.scope_seq(), r.0 as int)
    }

    /// `self` holds every node of `earlier` unchanged, at the same handle.
    pub open spec fn extends(&self, earlier: &Heap) -> bool {
        &&& earlier.scope_seq().len() <= self.scope_seq().len()
        &&& forall|i: int|
            0 <= i < earlier.scope_seq().len() ==> #[trigger] self.scope_seq()[i]
                == earlier.scope_seq()[i]
    }

    pub fn new() -> (r: Heap)
        ensures
            r.wf(),
            r.scope_seq() == Seq::<Scope>::empty(),
            r.bags() == Seq::<Bag>::empty(),
    {
        let r = Heap { scopes: Vec::new(), objects: Vec::new() };
        assert(r.bags() =~= Seq::<Bag>::empty());
        r
    }

    /// Moves `o` into the arena and returns its handle.
    pub fn allocate_object(&mut self, o: Object) -> (r: ObjectRef)
        requires
            old(self).wf(),
            o.wf(),
        ensures
            final(self).wf(),
            r.0 == old(self).bags().len(),
            final(self).bags() == old(self).bags().push(o@),
            final(self).scope_seq() == old(self).scope_seq(),
    {
        let r = ObjectRef(self.objects.len());
        let ghost view = o@;
        self.objects.push(o);
        proof {
            assert(self.bags() =~= old(self).bags().push(view));
            assert forall|i: int| 0 <= i < self.scope_seq().len() implies #[trigger] self.scope_seq()[i].fits(
                i,
                self.bags().len(),
            ) by {
                assert(old(self).scope_seq()[i].fits(i, old(self).bags().len()));
            }
        }
        r
    }

    /// Moves the node `s` into the arena and returns its handle.
    pub fn allocate_scope(&mut self, s: Scope) -> (r: ScopeRef)
        requires
            old(self).wf(),
            s.valid_in(old(self)),
        ensures
            final(self).wf(),
            final(self).extends(old(self)),
            r.0 == old(self).scope_seq().len(),
            final(self).scope_seq() == old(self).scope_seq().push(s),
            final(self).bags() == old(self).bags(),
    {
        let r = ScopeRef(self.scopes.len());
        self.scopes.push(s);
        proof {
            assert(self.bags() =~= old(self).bags());
            assert forall|i: int| 0 <= i < self.scope_seq().len() implies #[trigger] self.scope_seq()[i].fits(
                i,
                self.bags().len(),
            ) by {
                if i < old(self).scope_seq().len() {
                    assert(old(self).scope_seq()[i].fits(i, old(self).bags().len()));
                }
            }
        }
        r
    }

    /// The node with handle `r`.
    pub fn scope(&self, r: ScopeRef) -> (s: Scope)
        requires
            self.wf(),
            r.0 < self.scope_seq().len(),
        ensures
            s == self.scope_seq()[r.0 as int],
            s.valid_in(self),
            s.fits(r.0 as int, self.bags().len()),
    {
        proof {
            assert(self.scope_seq()[r.0 as int].fits(r.0 as int, self.bags().len()));
        }
        self.scopes[r.0]
    }

    /// The bag with handle `r`.
    pub fn object(&self, r: ObjectRef) -> (o: &Object)
        requires
            self.wf(),
            r.0 < self.bags().len(),
        ensures
            o.wf(),
            o@ == self.bags()[r.0 as int],
    {
        &self.objects[r.0]
    }

    /// The bag with handle `r`, for change in place.
    pub fn object_mut(&mut self, r: ObjectRef) -> (o: &mut Object)
        requires
            old(self).wf(),
            r.0 < old(self).bags().len(),
        ensures
            o.wf(),
            o@ == old(self).bags()[r.0 as int],
            final(self).scope_seq() == old(self).scope_seq(),
            final(self).bags() == old(self).bags().update(r.0 as int, final(o)@),
            final(o).wf() ==> final(self).wf(),
    {
        &mut self.objects[r.0]
    }
}

} // verus!
