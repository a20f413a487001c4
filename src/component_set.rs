use vstd::prelude::*;

verus! {

/// Identifies a component type at run time. A client gives each of its
/// component types a distinct kind.
pub type ComponentKind = u64;

/// What the registry needs of every typed storage without knowing its
/// element type: the component type it holds, and growth by one empty slot.
pub trait ComponentSet {
    type Item;

    /// The component type that this storage holds.
    spec fn kind_tag(&self) -> ComponentKind;

    /// Slot `i` is `Some(v)` when entity `i` has component `v`, `None` when it
    /// has no component of this type.
    spec fn cells(&self) -> Seq<Option<Self::Item>>;

    fn component_kind(&self) -> (k: ComponentKind)
        ensures
            k == self.kind_tag(),
    ;

    /// Appends one empty slot, for an entity that has just been created.
    fn push_none(&mut self)
        ensures
            final(self).kind_tag() == old(self).kind_tag(),
            final(self).cells() == old(self).cells().push(None),
    ;
}

/// A dense sequence of optional components of one type, indexed by entity.
/// The registry holds one per component type and lends it out for reading;
/// only the registry changes it.
#[derive(Debug)]
pub struct ComponentVec<C> {
    kind: ComponentKind,
    slots: Vec<Option<C>>,
}

impl<C> ComponentSet for ComponentVec<C> {
    type Item = C;

    closed spec fn kind_tag(&self) -> ComponentKind {
        self.kind
    }

    closed spec fn cells(&self) -> Seq<Option<C>> {
        self.slots@
    }

    fn component_kind(&self) -> (k: ComponentKind) {
        self.kind
    }

    fn push_none(&mut self) {
        self.slots.push(None);
    }
}

/// `n` empty slots.
pub open spec fn empty_cells<C>(n: nat) -> Seq<Option<C>> {
    Seq::new(n, |i: int| None::<C>)
}

impl<C> ComponentVec<C> {
    /// A storage for `kind` with `len` empty slots.
    pub(crate) fn with_empty_slots(kind: ComponentKind, len: usize) -> (r: Self)
        ensures
            r.kind_tag() == kind,
            r.cells() == empty_cells::<C>(len as nat),
    {
        let mut slots: Vec<Option<C>> = Vec::with_capacity(len);
        let mut i: usize = 0;
        while i < len
            invariant
                i <= len,
                slots@ == empty_cells::<C>(i as nat),
            decreases len - i,
        {
            slots.push(None);
            i = i + 1;
            assert(slots@ =~= empty_cells::<C>(i as nat));
        }
        ComponentVec { kind, slots }
    }

    /// The number of slots, which is the number of entities the storage covers.
    pub fn len(&self) -> (n: usize)
        ensures
            n == self.cells().len(),
    {
        self.slots.len()
    }

    /// Whether `entity` has a component in this storage.
    pub fn has(&self, entity: usize) -> (r: bool)
        ensures
            r == (entity < self.cells().len() && self.cells()[entity as int] is Some),
    {
        entity < self.slots.len() && self.slots[entity].is_some()
    }

    /// The component of `entity`, if it has one.
    pub fn get(&self, entity: usize) -> (r: Option<&C>)
        ensures
            r is Some == (entity < self.cells().len() && self.cells()[entity as int] is Some),
            r is Some ==> self.cells()[entity as int] == Some(*r->0),
    {
        if entity < self.slots.len() {
            match &self.slots[entity] {
                Some(c) => Some(c),
                None => None,
            }
        } else {
            None
        }
    }

    /// Gives `entity` the component `value`, replacing any it had.
    pub(crate) fn set(&mut self, entity: usize, value: C)
        requires
            entity < old(self).cells().len(),
        ensures
            final(self).kind_tag() == old(self).kind_tag(),
            final(self).cells() == old(self).cells().update(entity as int, Some(value)),
    {
        self.slots.set(entity, Some(value));
    }
}

} // verus!
