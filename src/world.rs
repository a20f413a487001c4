use crate::component_set::{empty_cells, ComponentKind, ComponentSet, ComponentVec};
use vstd::prelude::*;

verus! {

/// The registry as a value: the number of entities, and the slots of each
/// registered component type.
pub struct WorldModel<C> {
    pub entities_count: nat,
    pub storages: Map<ComponentKind, Seq<Option<C>>>,
}

impl<C> WorldModel<C> {
    /// Every storage has exactly one slot per entity.
    pub open spec fn aligned(self) -> bool {
        forall|k: ComponentKind| #[trigger]
            self.storages.contains_key(k) ==> self.storages[k].len() == self.entities_count
    }
}

/// The registry that `World::new` makes.
pub open spec fn empty_world<C>() -> WorldModel<C> {
    WorldModel { entities_count: 0, storages: Map::empty() }
}

/// A call that changes a registry.
pub enum Op<C> {
    /// Creates one entity.
    NewEntity,
    /// Gives `entity` the component `value` of type `kind`.
    Attach { entity: usize, kind: ComponentKind, value: C },
}

/// What the call's contract asks of the registry beforehand.
pub open spec fn allowed<C>(w: WorldModel<C>, op: Op<C>) -> bool {
    match op {
        Op::NewEntity => true,
        Op::Attach { entity, .. } => entity < w.entities_count,
    }
}

/// The registry after `op`. A new entity gets an empty slot in every
/// storage. An attachment writes one slot of the storage of its kind, which
/// starts with an empty slot per entity when the kind is new.
pub open spec fn step<C>(w: WorldModel<C>, op: Op<C>) -> WorldModel<C> {
    match op {
        Op::NewEntity => WorldModel {
            entities_count: w.entities_count + 1,
            storages: Map::new(
                |k: ComponentKind| w.storages.contains_key(k),
                |k: ComponentKind| w.storages[k].push(None),
            ),
        },
        Op::Attach { entity, kind, value } => {
            let cells = if w.storages.contains_key(kind) {
                w.storages[kind]
            } else {
                empty_cells::<C>(w.entities_count)
            };
            WorldModel {
                entities_count: w.entities_count,
                storages: w.storages.insert(kind, cells.update(entity as int, Some(value))),
            }
        },
    }
}

/// Entity `i` exists and has a component of every one of `kinds`, of which
/// there is at least one.
pub open spec fn in_all<C>(w: WorldModel<C>, kinds: Seq<ComponentKind>, i: int) -> bool {
    &&& kinds.len() > 0
    &&& 0 <= i < w.entities_count
    &&& forall|m: int|
        0 <= m < kinds.len() ==> w.storages.contains_key(#[trigger] kinds[m])
            && w.storages[kinds[m]][i] is Some
}

/// `rows` are the rows of a query over `kinds`: in ascending order, exactly
/// the entities that have a component of every one of `kinds`.
pub open spec fn is_join<C>(w: WorldModel<C>, kinds: Seq<ComponentKind>, rows: Seq<usize>) -> bool {
    &&& forall|a: int, b: int| 0 <= a < b < rows.len() ==> rows[a] < rows[b]
    &&& forall|a: int| 0 <= a < rows.len() ==> in_all(w, kinds, #[trigger] rows[a] as int)
    &&& forall|i: int| in_all(w, kinds, i) ==> exists|a: int| 0 <= a < rows.len() && rows[a] == i
    &&& rows.len() <= w.entities_count
}

/// Some kind occurs twice in `kinds`.
pub open spec fn has_duplicate(kinds: Seq<ComponentKind>) -> bool {
    exists|a: int, b: int| 0 <= a < b < kinds.len() && kinds[a] == kinds[b]
}

/// Why a query cannot be served.
#[derive(Debug, PartialEq, Eq, Structural)]
pub enum BorrowError {
    /// The query names one storage twice, and so asks for two exclusive
    /// views of it at once.
    AlreadyBorrowed,
}

/// The registry: the entity counter and one storage per component type.
pub struct World<C> {
    entities_count: usize,
    component_sets: Vec<ComponentVec<C>>,
}

impl<C> World<C> {
    spec fn len(&self) -> int {
        self.component_sets@.len() as int
    }

    spec fn kind_at(&self, i: int) -> ComponentKind {
        self.component_sets@[i].kind_tag()
    }

    spec fn registered(&self, k: ComponentKind) -> bool {
        exists|i: int| 0 <= i < self.len() && self.kind_at(i) == k
    }

    spec fn index_of(&self, k: ComponentKind) -> int {
        choose|i: int| 0 <= i < self.len() && self.kind_at(i) == k
    }

    spec fn kinds_unique(&self) -> bool {
        forall|i: int, j: int|
            0 <= i < self.len() && 0 <= j < self.len() && self.kind_at(i) == self.kind_at(j) ==> i == j
    }

    /// Well-formed: one storage per component type, each with one slot per
    /// entity.
    pub closed spec fn wf(&self) -> bool {
        &&& self.kinds_unique()
        &&& forall|i: int|
            0 <= i < self.len() ==> (#[trigger] self.component_sets@[i]).cells().len()
                == self.entities_count
    }

    proof fn lemma_entry(&self, i: int)
        requires
            self.kinds_unique(),
            0 <= i < self.len(),
        ensures
            self@.storages.contains_key(self.kind_at(i)),
            self@.storages[self.kind_at(i)] == self.component_sets@[i].cells(),
    {
        let k = self.kind_at(i);
        assert(self.registered(k));
        let j = self.index_of(k);
        assert(self.kind_at(j) == k);
    }

    proof fn lemma_absent(&self, k: ComponentKind)
        requires
            forall|i: int| 0 <= i < self.len() ==> self.kind_at(i) != k,
        ensures
            !self@.storages.contains_key(k),
    {
    }

    /// `after` keeps the storages of `self` in their places, each of its kind,
    /// and may add more after them: it registers the kinds of `self` and those
    /// added, and a storage that is unchanged has the same slots in the model.
    proof fn lemma_kinds_kept(&self, after: &Self)
        requires
            self.kinds_unique(),
            after.kinds_unique(),
            self.len() <= after.len(),
            forall|i: int| 0 <= i < self.len() ==> after.kind_at(i) == self.kind_at(i),
        ensures
            forall|k: ComponentKind|
                after@.storages.contains_key(k) <==> (self@.storages.contains_key(k) || exists|i: int|
                    self.len() <= i < after.len() && after.kind_at(i) == k),
            forall|i: int|
                0 <= i < self.len() && after.component_sets@[i] == self.component_sets@[i]
                    ==> after@.storages[self.kind_at(i)] == #[trigger] self@.storages[self.kind_at(i)],
    {
        assert forall|k: ComponentKind|
            after@.storages.contains_key(k) <==> (self@.storages.contains_key(k) || exists|i: int|
                self.len() <= i < after.len() && after.kind_at(i) == k) by {
            if after.registered(k) {
                let j = after.index_of(k);
                if j < self.len() {
                    assert(self.kind_at(j) == k);
                }
            }
            if self.registered(k) {
                let j = self.index_of(k);
                assert(after.kind_at(j) == k);
            }
        }
        assert forall|i: int|
            0 <= i < self.len() && after.component_sets@[i] == self.component_sets@[i]
                implies after@.storages[self.kind_at(i)] == #[trigger] self@.storages[self.kind_at(i)] by {
            self.lemma_entry(i);
            after.lemma_entry(i);
        }
    }

    /// `self` is `before` with the storage at `i` changed, its kind and
    /// length kept: it is well-formed, and only the slots of that kind changed.
    proof fn lemma_replaced(&self, before: &Self, i: int)
        requires
            before.wf(),
            0 <= i < before.len(),
            self.len() == before.len(),
            self.entities_count == before.entities_count,
            self.kind_at(i) == before.kind_at(i),
            self.component_sets@[i].cells().len() == before.entities_count,
            forall|j: int|
                0 <= j < self.len() && j != i ==> self.component_sets@[j] == before.component_sets@[j],
        ensures
            self.wf(),
            self@.entities_count == before@.entities_count,
            self@.storages == before@.storages.insert(before.kind_at(i), self.component_sets@[i].cells()),
    {
        assert forall|a: int, b: int|
            0 <= a < self.len() && 0 <= b < self.len() && self.kind_at(a) == self.kind_at(b) implies a
            == b by {
            assert(before.kind_at(a) == self.kind_at(a));
            assert(before.kind_at(b) == self.kind_at(b));
        }
        assert forall|j: int| 0 <= j < self.len() implies (#[trigger] self.component_sets@[j]).cells().len()
            == self.entities_count by {
            if j != i {
                assert(self.component_sets@[j] == before.component_sets@[j]);
            }
        }
        before.lemma_kinds_kept(self);
        self.lemma_entry(i);
        let kind = before.kind_at(i);
        assert forall|k: ComponentKind| #[trigger]
            before@.storages.contains_key(k) && k != kind implies self@.storages[k]
            == before@.storages[k] by {
            let j = before.index_of(k);
            assert(before.kind_at(j) == k);
        }
        assert(self@.storages =~= before@.storages.insert(kind, self.component_sets@[i].cells()));
    }

    /// Alignment: in every registry that the methods of `World` build, each
    /// storage has one slot per entity.
    pub proof fn lemma_aligned(&self)
        requires
            self.wf(),
        ensures
            self@.aligned(),
    {
        assert forall|k: ComponentKind| #[trigger] self@.storages.contains_key(k) implies self@.storages[k].len()
            == self@.entities_count by {
            self.lemma_entry(self.index_of(k));
        }
    }
}

impl<C> World<C> {
    /// An empty registry: no entities and no storages.
    pub fn new() -> (r: Self)
        ensures
            r.wf(),
            r@ == empty_world::<C>(),
    {
        let r = World { entities_count: 0, component_sets: Vec::new() };
        assert(r@.storages =~= Map::<ComponentKind, Seq<Option<C>>>::empty());
        r
    }

    /// The number of entities created so far.
    pub fn entities_count(&self) -> (n: usize)
        ensures
            n == self@.entities_count,
    {
        self.entities_count
    }

    /// The position of the storage of `kind`, if one is registered.
    fn find(&self, kind: ComponentKind) -> (r: Option<usize>)
        ensures
            match r {
                Some(i) => i < self.len() && self.kind_at(i as int) == kind,
                None => forall|i: int| 0 <= i < self.len() ==> self.kind_at(i) != kind,
            },
    {
        let mut i: usize = 0;
        while i < self.component_sets.len()
            invariant
                i <= self.len(),
                forall|j: int| 0 <= j < i ==> self.kind_at(j) != kind,
            decreases self.len() - i,
        {
            if self.component_sets[i].component_kind() == kind {
                return Some(i);
            }
            i = i + 1;
        }
        None
    }

    /// Creates an entity and returns its id, the next index: every storage
    /// gets one empty slot for it.
    pub fn new_entity(&mut self) -> (id: usize)
        requires
            old(self).wf(),
            old(self)@.entities_count < usize::MAX,
        ensures
            final(self).wf(),
            id == old(self)@.entities_count,
            final(self)@ == step(old(self)@, Op::NewEntity),
    {
        let entity_id = self.entities_count;
        let ghost before = *self;
        let n = self.component_sets.len();
        let mut i: usize = 0;
        while i < n
            invariant
                n == self.len(),
                n == before.len(),
                i <= n,
                self.entities_count == before.entities_count,
                forall|j: int| 0 <= j < n ==> self.kind_at(j) == before.kind_at(j),
                forall|j: int|
                    0 <= j < i ==> (#[trigger] self.component_sets@[j]).cells()
                        == before.component_sets@[j].cells().push(None),
                forall|j: int|
                    i <= j < n ==> (#[trigger] self.component_sets@[j]) == before.component_sets@[j],
            decreases n - i,
        {
            self.component_sets[i].push_none();
            i = i + 1;
        }
        self.entities_count = self.entities_count + 1;
        proof {
            assert forall|a: int, b: int|
                0 <= a < n && 0 <= b < n && self.kind_at(a) == self.kind_at(b) implies a == b by {
                assert(before.kind_at(a) == self.kind_at(a));
                assert(before.kind_at(b) == self.kind_at(b));
            }
            assert forall|j: int| 0 <= j < n implies (#[trigger] self.component_sets@[j]).cells().len()
                == self.entities_count by {
                assert(before.component_sets@[j].cells().len() == before.entities_count);
            }
            before.lemma_kinds_kept(self);
            assert forall|k: ComponentKind| #[trigger]
                before@.storages.contains_key(k) implies self@.storages[k]
                == before@.storages[k].push(None) by {
                let j = before.index_of(k);
                before.lemma_entry(j);
                self.lemma_entry(j);
            }
            assert(self@.storages =~= step(before@, Op::NewEntity).storages);
        }
        entity_id
    }

    /// Gives `entity` the component `component` of type `kind`, replacing any
    /// it had of that type. The first component of a type registers a storage
    /// for it, with an empty slot for every existing entity.
    pub fn add_component_to_entity(&mut self, entity: usize, kind: ComponentKind, component: C)
        requires
            old(self).wf(),
            entity < old(self)@.entities_count,
        ensures
            final(self).wf(),
            final(self)@ == step(old(self)@, Op::Attach { entity, kind, value: component }),
    {
        let ghost before = *self;
        let n = self.component_sets.len();
        match self.find(kind) {
            Some(i) => {
                proof {
                    before.lemma_entry(i as int);
                }
                self.component_sets[i].set(entity, component);
                proof {
                    self.lemma_replaced(&before, i as int);
                    assert(self@.storages =~= step(
                        before@,
                        Op::Attach { entity, kind, value: component },
                    ).storages);
                }
            },
            None => {
                let mut set = ComponentVec::with_empty_slots(kind, self.entities_count);
                set.set(entity, component);
                self.component_sets.push(set);
                proof {
                    before.lemma_absent(kind);
                    assert forall|a: int, b: int|
                        0 <= a < n + 1 && 0 <= b < n + 1 && self.kind_at(a) == self.kind_at(b)
                        implies a == b by {
                        if a < n {
                            assert(before.kind_at(a) == self.kind_at(a));
                        }
                        if b < n {
                            assert(before.kind_at(b) == self.kind_at(b));
                        }
                    }
                    assert forall|j: int| 0 <= j < n + 1 implies (#[trigger] self.component_sets@[j]).cells().len()
                        == self.entities_count by {
                        if j < n {
                            assert(self.component_sets@[j] == before.component_sets@[j]);
                        }
                    }
                    before.lemma_kinds_kept(self);
                    self.lemma_entry(n as int);
                    assert forall|k: ComponentKind| #[trigger]
                        before@.storages.contains_key(k) implies self@.storages[k]
                        == before@.storages[k] by {
                        let j = before.index_of(k);
                        assert(before.kind_at(j) == k);
                    }
                    assert(self@.storages =~= step(
                        before@,
                        Op::Attach { entity, kind, value: component },
                    ).storages);
                }
            },
        }
    }

    /// A view of the storage of `kind`, or `None` when no component of that
    /// type was ever attached. The view borrows the registry exclusively, so
    /// nothing else reaches the registry until its use ends.
    pub fn borrow_component_vec(&mut self, kind: ComponentKind) -> (r: Option<&ComponentVec<C>>)
        requires
            old(self).wf(),
        ensures
            final(self).wf(),
            final(self)@ == old(self)@,
            r is None <==> !old(self)@.storages.contains_key(kind),
            r matches Some(v) ==> v.kind_tag() == kind && v.cells() == old(self)@.storages[kind],
    {
        match self.find(kind) {
            None => {
                proof {
                    self.lemma_absent(kind);
                }
                None
            },
            Some(i) => {
                proof {
                    self.lemma_entry(i as int);
                }
                Some(&self.component_sets[i])
            },
        }
    }
}

impl<C> World<C> {
    /// `idx[m]` is the position of the storage of `kinds[m]`.
    spec fn locates(&self, kinds: Seq<ComponentKind>, idx: Seq<usize>, m: int) -> bool {
        &&& 0 <= idx[m] < self.len()
        &&& self.kind_at(idx[m] as int) == kinds[m]
        &&& self@.storages.contains_key(kinds[m])
        &&& self@.storages[kinds[m]] == self.component_sets@[idx[m] as int].cells()
    }

    /// The positions of the storages of `kinds`, in order, or `None` when
    /// one of them is not registered.
    fn find_all(&self, kinds: &Vec<ComponentKind>) -> (r: Option<Vec<usize>>)
        requires
            self.wf(),
        ensures
            r is None ==> exists|m: int| 0 <= m < kinds@.len() && !self@.storages.contains_key(#[trigger] kinds@[m]),
            r matches Some(idx) ==> {
                &&& idx@.len() == kinds@.len()
                &&& forall|m: int| 0 <= m < kinds@.len() ==> self.locates(kinds@, idx@, m)
            },
    {
        let mut idx: Vec<usize> = Vec::new();
        let mut m: usize = 0;
        while m < kinds.len()
            invariant
                self.wf(),
                m <= kinds@.len(),
                idx@.len() == m,
                forall|t: int| 0 <= t < m ==> self.locates(kinds@, idx@, t),
            decreases kinds@.len() - m,
        {
            match self.find(kinds[m]) {
                None => {
                    proof {
                        self.lemma_absent(kinds@[m as int]);
                    }
                    return None;
                },
                Some(i) => {
                    proof {
                        self.lemma_entry(i as int);
                    }
                    let ghost prev = idx@;
                    idx.push(i);
                    assert forall|t: int| 0 <= t < m + 1 implies self.locates(kinds@, idx@, t) by {
                        if t < m {
                            assert(idx@[t] == prev[t]);
                            assert(self.locates(kinds@, prev, t));
                        }
                    }
                },
            }
            m = m + 1;
        }
        Some(idx)
    }

    /// The entities that have a component of every one of `kinds`, in
    /// ascending order: the rows of a query over those component types. No
    /// kinds, no rows. A query that names a kind twice would hold two
    /// exclusive views of one storage, and is refused.
    pub fn join(&self, kinds: &Vec<ComponentKind>) -> (r: Result<Vec<usize>, BorrowError>)
        requires
            self.wf(),
        ensures
            r is Err <==> has_duplicate(kinds@),
            r is Err ==> r == Err::<Vec<usize>, BorrowError>(BorrowError::AlreadyBorrowed),
            r matches Ok(rows) ==> is_join(self@, kinds@, rows@),
    {
        let mut a: usize = 0;
        while a < kinds.len()
            invariant
                a <= kinds@.len(),
                forall|x: int, y: int| 0 <= x < y < a ==> kinds@[x] != kinds@[y],
            decreases kinds@.len() - a,
        {
            let mut b: usize = 0;
            while b < a
                invariant
                    a < kinds@.len(),
                    b <= a,
                    forall|y: int| 0 <= y < b ==> kinds@[y] != kinds@[a as int],
                decreases a - b,
            {
                if kinds[b] == kinds[a] {
                    return Err(BorrowError::AlreadyBorrowed);
                }
                b = b + 1;
            }
            a = a + 1;
        }
        let mut rows: Vec<usize> = Vec::new();
        if kinds.len() == 0 {
            assert(forall|j: int| !in_all(self@, kinds@, j));
            assert(is_join(self@, kinds@, rows@));
            return Ok(rows);
        }
        let idx = match self.find_all(kinds) {
            None => {
                proof {
                    let m = choose|m: int|
                        0 <= m < kinds@.len() && !self@.storages.contains_key(#[trigger] kinds@[m]);
                    assert forall|j: int| !in_all(self@, kinds@, j) by {
                        assert(!self@.storages.contains_key(kinds@[m]));
                    }
                    assert(is_join(self@, kinds@, rows@));
                }
                return Ok(rows);
            },
            Some(idx) => idx,
        };
        let n = self.entities_count;
        let mut i: usize = 0;
        while i < n
            invariant
                self.wf(),
                n == self@.entities_count,
                i <= n,
                kinds@.len() > 0,
                idx@.len() == kinds@.len(),
                forall|m: int| 0 <= m < kinds@.len() ==> self.locates(kinds@, idx@, m),
                rows@.len() <= i,
                forall|x: int, y: int| 0 <= x < y < rows@.len() ==> rows@[x] < rows@[y],
                forall|x: int| 0 <= x < rows@.len() ==> rows@[x] < i,
                forall|x: int| 0 <= x < rows@.len() ==> in_all(self@, kinds@, #[trigger] rows@[x] as int),
                forall|j: int|
                    0 <= j < i && in_all(self@, kinds@, j) ==> exists|x: int| 0 <= x < rows@.len() && rows@[x] == j,
            decreases n - i,
        {
            let mut m: usize = 0;
            let mut present = true;
            while m < idx.len()
                invariant
                    self.wf(),
                    i < n,
                    n == self@.entities_count,
                    m <= idx@.len(),
                    idx@.len() == kinds@.len(),
                    forall|t: int| 0 <= t < kinds@.len() ==> self.locates(kinds@, idx@, t),
                    present == forall|t: int| 0 <= t < m ==> (#[trigger] self@.storages[kinds@[t]])[i as int] is Some,
                decreases idx@.len() - m,
            {
                proof {
                    assert(self.locates(kinds@, idx@, m as int));
                    assert(self.component_sets@[idx@[m as int] as int].cells().len() == n);
                }
                if !self.component_sets[idx[m]].has(i) {
                    present = false;
                }
                m = m + 1;
            }
            let ghost prev = rows@;
            if present {
                rows.push(i);
            }
            proof {
                assert(present == in_all(self@, kinds@, i as int)) by {
                    assert forall|t: int| 0 <= t < kinds@.len() implies self@.storages.contains_key(
                        #[trigger] kinds@[t],
                    ) by {
                        assert(self.locates(kinds@, idx@, t));
                    }
                }
                assert forall|j: int| 0 <= j < i + 1 && in_all(self@, kinds@, j) implies exists|x: int|
                    0 <= x < rows@.len() && rows@[x] == j by {
                    if j < i {
                        let x = choose|x: int| 0 <= x < prev.len() && prev[x] == j;
                        assert(rows@[x] == j);
                    } else {
                        assert(rows@[rows@.len() - 1] == j);
                    }
                }
            }
            i = i + 1;
        }
        proof {
            assert forall|j: int| in_all(self@, kinds@, j) implies exists|x: int|
                0 <= x < rows@.len() && rows@[x] == j by {}
        }
        assert(is_join(self@, kinds@, rows@));
        Ok(rows)
    }
}

impl<C> View for World<C> {
    type V = WorldModel<C>;

    closed spec fn view(&self) -> WorldModel<C> {
        WorldModel {
            entities_count: self.entities_count as nat,
            storages: Map::new(
                |k: ComponentKind| self.registered(k),
                |k: ComponentKind| self.component_sets@[self.index_of(k)].cells(),
            ),
        }
    }
}

} // verus!
