//! Positioned objects of a level, and the registry that owns them.

use vstd::prelude::*;

verus! {

/// A positioned object. `P` is the type of its position, which the registry
/// only stores.
pub enum Entity<P> {
    Start { id: usize, position: P },
    End { id: usize, position: P },
    Rat { id: usize, position: P },
    OpenGL { id: usize, position: P },
    Dodecahedron { id: usize, position: P },
}

impl<P: Copy> Entity<P> {
    pub open spec fn spec_id(&self) -> usize {
        match self {
            Entity::Start { id, .. } => *id,
            Entity::End { id, .. } => *id,
            Entity::Rat { id, .. } => *id,
            Entity::OpenGL { id, .. } => *id,
            Entity::Dodecahedron { id, .. } => *id,
        }
    }

    pub open spec fn spec_position(&self) -> P {
        match self {
            Entity::Start { position, .. } => *position,
            Entity::End { position, .. } => *position,
            Entity::Rat { position, .. } => *position,
            Entity::OpenGL { position, .. } => *position,
            Entity::Dodecahedron { position, .. } => *position,
        }
    }

    pub fn id(&self) -> (r: usize)
        ensures
            r == self.spec_id(),
    {
        match self {
            Entity::Start { id, .. } => *id,
            Entity::End { id, .. } => *id,
            Entity::Rat { id, .. } => *id,
            Entity::OpenGL { id, .. } => *id,
            Entity::Dodecahedron { id, .. } => *id,
        }
    }

    pub fn position(&self) -> (r: P)
        ensures
            r == self.spec_position(),
    {
        match self {
            Entity::Start { position, .. } => *position,
            Entity::End { position, .. } => *position,
            Entity::Rat { position, .. } => *position,
            Entity::OpenGL { position, .. } => *position,
            Entity::Dodecahedron { position, .. } => *position,
        }
    }

    /// Radius of the entity's footprint, in tenths of a world unit; 0 where the
    /// entity cannot be touched.
    pub fn collision_radius(&self) -> (r: u32)
        ensures
            r == (if self is End || self is Dodecahedron {
                12u32
            } else {
                0u32
            }),
    {
        match self {
            Entity::End { .. } => 12,
            Entity::Dodecahedron { .. } => 12,
            _ => 0,
        }
    }
}

/// A storage index after the entry at `removed` is taken out.
pub open spec fn shift_down(x: usize, removed: usize) -> usize {
    if x > removed {
        (x - 1) as usize
    } else {
        x
    }
}

/// `order` with `removed` dropped and every larger index moved down by one.
pub open spec fn reindexed(order: Seq<usize>, removed: usize) -> Seq<usize>
    decreases order.len(),
{
    if order.len() == 0 {
        order
    } else {
        let rest = reindexed(order.drop_last(), removed);
        if order.last() == removed {
            rest
        } else {
            rest.push(shift_down(order.last(), removed))
        }
    }
}

/// `order` holds each index below `n` exactly once.
pub open spec fn is_index_permutation(order: Seq<usize>, n: nat) -> bool {
    &&& order.len() == n
    &&& order.no_duplicates()
    &&& forall|i: int| 0 <= i < order.len() ==> #[trigger] order[i] < n
    &&& forall|k: usize| k < n ==> #[trigger] order.contains(k)
}

fn update_index_after_removal(vec: &mut Vec<usize>, removed_index: usize)
    ensures
        final(vec)@ == reindexed(old(vec)@, removed_index),
{
    let ghost orig = vec@;
    let mut i: usize = 0;
    let ghost mut j: int = 0;
    proof {
        assert(orig.subrange(0, 0) =~= Seq::<usize>::empty());
        assert(vec@ =~= reindexed(orig.subrange(0, 0), removed_index) + orig.subrange(0, orig.len() as int));
    }
    while i < vec.len()
        invariant
            0 <= j <= orig.len(),
            i == reindexed(orig.subrange(0, j), removed_index).len(),
            vec@ == reindexed(orig.subrange(0, j), removed_index) + orig.subrange(j, orig.len() as int),
        decreases vec.len() - i,
    {
        let ghost done = reindexed(orig.subrange(0, j), removed_index);
        proof {
            assert(orig.subrange(0, j + 1).drop_last() =~= orig.subrange(0, j));
            assert(orig.subrange(0, j + 1).last() == orig[j]);
            assert(vec@[i as int] == orig[j]);
        }
        if vec[i] == removed_index {
            vec.remove(i);
            proof {
                assert(vec@ =~= done + orig.subrange(j + 1, orig.len() as int));
            }
        } else if vec[i] > removed_index {
            vec.set(i, vec[i] - 1);
            i += 1;
            proof {
                assert(vec@ =~= done.push(shift_down(orig[j], removed_index)) + orig.subrange(
                    j + 1,
                    orig.len() as int,
                ));
            }
        } else {
            i += 1;
            proof {
                assert(vec@ =~= done.push(shift_down(orig[j], removed_index)) + orig.subrange(
                    j + 1,
                    orig.len() as int,
                ));
            }
        }
        proof {
            j = j + 1;
        }
    }
    proof {
        assert(j == orig.len()) by {
            if j < orig.len() {
                assert(vec@.len() > i);
            }
        }
        assert(orig.subrange(0, j) =~= orig);
        assert(vec@ =~= reindexed(orig, removed_index));
    }
}


/// An index survives the removal exactly when some other entry maps to it.
proof fn lemma_reindexed_contains(order: Seq<usize>, removed: usize, y: usize)
    ensures
        reindexed(order, removed).contains(y) <==> exists|i: int|
            0 <= i < order.len() && order[i] != removed && #[trigger] shift_down(order[i], removed) == y,
    decreases order.len(),
{
    if order.len() > 0 {
        let t = order.drop_last();
        let rest = reindexed(t, removed);
        lemma_reindexed_contains(t, removed, y);
        if reindexed(order, removed).contains(y) {
            if !rest.contains(y) {
                let k = reindexed(order, removed).len() - 1;
                assert(reindexed(order, removed)[k] == y);
                assert(shift_down(order[order.len() - 1], removed) == y);
            } else {
                let i = choose|i: int|
                    0 <= i < t.len() && t[i] != removed && #[trigger] shift_down(t[i], removed) == y;
                assert(order[i] == t[i]);
            }
        }
        if exists|i: int|
            0 <= i < order.len() && order[i] != removed && #[trigger] shift_down(order[i], removed) == y {
            let i = choose|i: int|
                0 <= i < order.len() && order[i] != removed && #[trigger] shift_down(order[i], removed) == y;
            if i < t.len() {
                assert(t[i] == order[i]);
                assert(rest.contains(y));
                let k = choose|k: int| 0 <= k < rest.len() && rest[k] == y;
                if order.last() != removed {
                    assert(rest.push(shift_down(order.last(), removed))[k] == y);
                }
            } else {
                assert(reindexed(order, removed) == rest.push(y));
                assert(reindexed(order, removed)[rest.len() as int] == y);
            }
        }
    }
}

/// Without duplicates, removal takes out the one occurrence of `removed` and keeps
/// the rest distinct.
proof fn lemma_reindexed_distinct(order: Seq<usize>, removed: usize)
    requires
        order.no_duplicates(),
    ensures
        reindexed(order, removed).no_duplicates(),
        reindexed(order, removed).len() == if order.contains(removed) {
            order.len() - 1
        } else {
            order.len() as int
        },
    decreases order.len(),
{
    if order.len() > 0 {
        let t = order.drop_last();
        let x = order.last();
        assert(t.no_duplicates());
        lemma_reindexed_distinct(t, removed);
        let rest = reindexed(t, removed);
        assert(order.contains(removed) <==> (t.contains(removed) || x == removed)) by {
            if order.contains(removed) {
                let i = choose|i: int| 0 <= i < order.len() && order[i] == removed;
                if i < t.len() {
                    assert(t[i] == removed);
                }
            }
            if t.contains(removed) {
                let i = choose|i: int| 0 <= i < t.len() && t[i] == removed;
                assert(order[i] == removed);
            }
        }
        if x == removed {
            assert(!t.contains(removed)) by {
                if t.contains(removed) {
                    let i = choose|i: int| 0 <= i < t.len() && t[i] == removed;
                    assert(order[i] == order[order.len() - 1]);
                }
            }
        } else {
            let y = shift_down(x, removed);
            lemma_reindexed_contains(t, removed, y);
            assert(!rest.contains(y)) by {
                if rest.contains(y) {
                    let i = choose|i: int|
                        0 <= i < t.len() && t[i] != removed && #[trigger] shift_down(t[i], removed) == y;
                    assert(order[i] == t[i]);
                    assert(order[i] != order[order.len() - 1]);
                }
            }
            let n = rest.push(y);
            assert forall|i: int, j: int| 0 <= i < n.len() && 0 <= j < n.len() && i != j implies n[i] != n[j] by {
                if i < rest.len() && j < rest.len() {
                } else if i < rest.len() {
                    assert(rest.contains(n[i]));
                } else {
                    assert(rest.contains(n[j]));
                }
            }
        }
    }
}

/// Taking one index out of a permutation of `0..n` leaves a permutation of `0..n-1`.
pub proof fn lemma_reindexed_permutation(order: Seq<usize>, n: nat, removed: usize)
    requires
        is_index_permutation(order, n),
        removed < n,
        n <= usize::MAX,
    ensures
        is_index_permutation(reindexed(order, removed), (n - 1) as nat),
{
    assert(order.contains(removed));
    lemma_reindexed_distinct(order, removed);
    let r = reindexed(order, removed);
    assert forall|i: int| 0 <= i < r.len() implies #[trigger] r[i] < n - 1 by {
        lemma_reindexed_contains(order, removed, r[i]);
        assert(r.contains(r[i]));
        let j = choose|j: int|
            0 <= j < order.len() && order[j] != removed && #[trigger] shift_down(order[j], removed) == r[i];
        assert(order[j] < n);
    }
    assert forall|k: usize| k < n - 1 implies #[trigger] r.contains(k) by {
        lemma_reindexed_contains(order, removed, k);
        let x: usize = if k < removed {
            k
        } else {
            (k + 1) as usize
        };
        assert(order.contains(x));
        let j = choose|j: int| 0 <= j < order.len() && order[j] == x;
        assert(order[j] != removed);
        assert(shift_down(order[j], removed) == k);
    }
}

/// Two sequences with the same elements, counted with multiplicity, are both
/// permutations of `0..n` or neither is.
proof fn lemma_permutation_by_multiset(a: Seq<usize>, b: Seq<usize>, n: nat)
    requires
        is_index_permutation(a, n),
        a.to_multiset() == b.to_multiset(),
    ensures
        is_index_permutation(b, n),
{
    a.to_multiset_ensures();
    b.to_multiset_ensures();
    a.lemma_multiset_has_no_duplicates();
    assert forall|x: usize| b.to_multiset().contains(x) implies b.to_multiset().count(x) == 1 by {}
    b.lemma_multiset_has_no_duplicates_conv();
    assert forall|i: int| 0 <= i < b.len() implies #[trigger] b[i] < n by {
        assert(b.contains(b[i]));
        assert(b.to_multiset().count(b[i]) > 0);
        assert(a.to_multiset().count(b[i]) > 0);
        assert(a.contains(b[i]));
        let j = choose|j: int| 0 <= j < a.len() && a[j] == b[i];
    }
    assert forall|k: usize| k < n implies #[trigger] b.contains(k) by {
        assert(a.contains(k));
        assert(a.to_multiset().count(k) > 0);
        assert(b.to_multiset().count(k) > 0);
    }
}

/// Owner of all entities: storage sorted by identity, plus a separate draw order.
pub struct EntityManager<P> {
    entities: Vec<Entity<P>>,
    id_sequence: usize,
    draw_order: Vec<usize>,
}

/// Identities that strictly increase along the storage.
pub open spec fn ids_increasing<P: Copy>(entities: Seq<Entity<P>>) -> bool {
    forall|i: int, j: int|
        0 <= i < j < entities.len() ==> #[trigger] entities[i].spec_id() < #[trigger] entities[j].spec_id()
}

impl<P: Copy> EntityManager<P> {
    /// The stored entities, in storage order.
    pub closed spec fn spec_entities(&self) -> Seq<Entity<P>> {
        self.entities@
    }

    /// Storage indices in the order the entities are drawn.
    pub closed spec fn spec_draw_order(&self) -> Seq<usize> {
        self.draw_order@
    }

    /// The identity that `generate_id` hands out next.
    pub closed spec fn next_id(&self) -> nat {
        self.id_sequence as nat
    }

    pub open spec fn ids(&self) -> Seq<usize> {
        self.spec_entities().map_values(|e: Entity<P>| e.spec_id())
    }

    /// Identities are sorted, unique and all handed out already; the draw order is
    /// a permutation of the storage indices.
    pub open spec fn wf(&self) -> bool {
        &&& ids_increasing(self.spec_entities())
        &&& forall|i: int|
            0 <= i < self.spec_entities().len() ==> #[trigger] self.spec_entities()[i].spec_id()
                < self.next_id()
        &&& is_index_permutation(self.spec_draw_order(), self.spec_entities().len())
    }

    pub fn new() -> (r: Self)
        ensures
            r.wf(),
            r.spec_entities() == Seq::<Entity<P>>::empty(),
            r.spec_draw_order() == Seq::<usize>::empty(),
            r.next_id() == 0,
    {
        EntityManager { entities: Vec::new(), id_sequence: 0, draw_order: Vec::new() }
    }

    /// A fresh identity, larger than every one handed out before.
    pub fn generate_id(&mut self) -> (r: usize)
        requires
            old(self).next_id() < usize::MAX,
        ensures
            r == old(self).next_id(),
            final(self).next_id() == old(self).next_id() + 1,
            final(self).spec_entities() == old(self).spec_entities(),
            final(self).spec_draw_order() == old(self).spec_draw_order(),
            old(self).wf() ==> final(self).wf(),
    {
        let result = self.id_sequence;
        self.id_sequence = self.id_sequence + 1;
        result
    }

    pub fn len(&self) -> (r: usize)
        ensures
            r == self.spec_entities().len(),
    {
        self.entities.len()
    }

    /// Appends an entity whose identity was handed out after every stored one's;
    /// it is drawn last.
    pub fn add(&mut self, entity: Entity<P>)
        requires
            old(self).wf(),
            entity.spec_id() < old(self).next_id(),
            old(self).spec_entities().len() > 0 ==> old(self).spec_entities().last().spec_id()
                < entity.spec_id(),
            old(self).spec_entities().len() < usize::MAX,
        ensures
            final(self).wf(),
            final(self).spec_entities() == old(self).spec_entities().push(entity),
            final(self).spec_draw_order() == old(self).spec_draw_order().push(
                old(self).spec_entities().len() as usize,
            ),
            final(self).next_id() == old(self).next_id(),
    {
        let ghost n = self.entities@.len();
        self.draw_order.push(self.entities.len());
        self.entities.push(entity);
        proof {
            let d = self.draw_order@;
            assert forall|i: int, j: int|
                0 <= i < j < self.entities@.len() implies #[trigger] self.entities@[i].spec_id()
                < #[trigger] self.entities@[j].spec_id() by {
                if j == n {
                    if i < n - 1 {
                        assert(old(self).entities@[i].spec_id() < old(self).entities@[n - 1].spec_id());
                    }
                } else {
                    assert(old(self).entities@[i].spec_id() < old(self).entities@[j].spec_id());
                }
            }
            assert forall|i: int, j: int| 0 <= i < d.len() && 0 <= j < d.len() && i != j implies d[i]
                != d[j] by {
                if i < n && j < n {
                    assert(old(self).draw_order@[i] != old(self).draw_order@[j]);
                } else if i < n {
                    assert(old(self).draw_order@[i] < n);
                } else {
                    assert(old(self).draw_order@[j] < n);
                }
            }
            assert forall|i: int| 0 <= i < d.len() implies #[trigger] d[i] < n + 1 by {
                if i < n {
                    assert(old(self).draw_order@[i] < n);
                }
            }
            assert forall|k: usize| k < n + 1 implies #[trigger] d.contains(k) by {
                if k < n {
                    assert(old(self).draw_order@.contains(k));
                    let i = choose|i: int| 0 <= i < n && old(self).draw_order@[i] == k;
                    assert(d[i] == k);
                } else {
                    assert(d[n as int] == k);
                }
            }
        }
    }

    /// Removes the entity at a storage index; the draw order keeps pointing at the
    /// same entities.
    pub fn remove_by_index(&mut self, index: usize)
        requires
            old(self).wf(),
            index < old(self).spec_entities().len(),
        ensures
            final(self).wf(),
            final(self).spec_entities() == old(self).spec_entities().remove(index as int),
            final(self).spec_draw_order() == reindexed(old(self).spec_draw_order(), index),
            final(self).next_id() == old(self).next_id(),
    {
        proof {
            assert(self.entities.len() == self.entities@.len());
        }
        self.entities.remove(index);
        update_index_after_removal(&mut self.draw_order, index);
        proof {
            lemma_reindexed_permutation(old(self).draw_order@, old(self).entities@.len(), index);
            assert forall|i: int, j: int|
                0 <= i < j < self.entities@.len() implies #[trigger] self.entities@[i].spec_id()
                < #[trigger] self.entities@[j].spec_id() by {
                let oi = if i < index { i } else { i + 1 };
                let oj = if j < index { j } else { j + 1 };
                assert(old(self).entities@[oi].spec_id() < old(self).entities@[oj].spec_id());
            }
            assert forall|i: int| 0 <= i < self.entities@.len() implies #[trigger] self.entities@[i].spec_id()
                < self.id_sequence by {
                let oi = if i < index { i } else { i + 1 };
                assert(old(self).entities@[oi].spec_id() < self.id_sequence);
            }
        }
    }

    /// Storage index of the entity with identity `id`, found by binary search.
    fn find_index(&self, id: usize) -> (r: Option<usize>)
        requires
            self.wf(),
        ensures
            r matches Some(i) ==> i < self.spec_entities().len() && self.spec_entities()[i as int].spec_id()
                == id,
            r is None ==> !self.ids().contains(id),
    {
        let mut lo: usize = 0;
        let mut hi: usize = self.entities.len();
        while lo < hi
            invariant
                self.wf(),
                0 <= lo <= hi <= self.entities@.len(),
                forall|i: int| 0 <= i < lo ==> #[trigger] self.entities@[i].spec_id() < id,
                forall|i: int| hi <= i < self.entities@.len() ==> #[trigger] self.entities@[i].spec_id() > id,
            decreases hi - lo,
        {
            let mid = lo + (hi - lo) / 2;
            let mid_id = self.entities[mid].id();
            if mid_id == id {
                return Some(mid);
            } else if mid_id < id {
                proof {
                    assert forall|i: int| 0 <= i < mid + 1 implies #[trigger] self.entities@[i].spec_id() < id by {
                        if i < mid {
                            assert(self.entities@[i].spec_id() < self.entities@[mid as int].spec_id());
                        }
                    }
                }
                lo = mid + 1;
            } else {
                proof {
                    assert forall|i: int| mid <= i < self.entities@.len() implies #[trigger] self.entities@[i].spec_id() > id by {
                        if i > mid {
                            assert(self.entities@[mid as int].spec_id() < self.entities@[i].spec_id());
                        }
                    }
                }
                hi = mid;
            }
        }
        proof {
            if self.ids().contains(id) {
                let k = choose|k: int| 0 <= k < self.ids().len() && self.ids()[k] == id;
                assert(self.entities@[k].spec_id() == id);
            }
        }
        None
    }

    /// Removes the entity with identity `id`, if it is stored; says whether it was.
    pub fn remove_by_id(&mut self, id: usize) -> (r: bool)
        requires
            old(self).wf(),
        ensures
            final(self).wf(),
            r == old(self).ids().contains(id),
            r ==> exists|i: int|
                0 <= i < old(self).spec_entities().len() && #[trigger] old(self).spec_entities()[i].spec_id()
                    == id && final(self).spec_entities() == old(self).spec_entities().remove(i)
                    && final(self).spec_draw_order() == reindexed(
                    old(self).spec_draw_order(),
                    i as usize,
                ),
            !r ==> *final(self) == *old(self),
            final(self).next_id() == old(self).next_id(),
    {
        match self.find_index(id) {
            Some(i) => {
                proof {
                    assert(self.ids()[i as int] == id);
                }
                self.remove_by_index(i);
                true
            },
            None => false,
        }
    }

    /// The entity at a storage index, to change in place. Changing its identity
    /// breaks the registry's order.
    pub fn get_mut_by_index(&mut self, index: usize) -> (r: &mut Entity<P>)
        requires
            index < old(self).spec_entities().len(),
        ensures
            *r == old(self).spec_entities()[index as int],
            final(self).spec_entities() == old(self).spec_entities().update(index as int, *final(r)),
            final(self).spec_draw_order() == old(self).spec_draw_order(),
            final(self).next_id() == old(self).next_id(),
    {
        &mut self.entities[index]
    }

    /// The entity with identity `id`, to change in place, if it is stored.
    pub fn get_mut_by_id(&mut self, id: usize) -> (r: Option<&mut Entity<P>>)
        requires
            old(self).wf(),
        ensures
            r is Some <==> old(self).ids().contains(id),
            r matches Some(e) ==> exists|i: int|
                0 <= i < old(self).spec_entities().len() && #[trigger] old(self).spec_entities()[i].spec_id()
                    == id && *e == old(self).spec_entities()[i] && final(self).spec_entities()
                    == old(self).spec_entities().update(i, *final(e)),
            final(self).spec_draw_order() == old(self).spec_draw_order(),
            final(self).next_id() == old(self).next_id(),
            r is None ==> *final(self) == *old(self),
    {
        match self.find_index(id) {
            Some(i) => {
                proof {
                    assert(self.ids()[i as int] == id);
                }
                Some(self.get_mut_by_index(i))
            },
            None => None,
        }
    }

    /// Reorders the draw order by ascending `keys[i]`, the key of the entity at
    /// storage index `i`; entities with equal keys keep their relative order. The
    /// storage is untouched.
    pub fn sort_drawables_by(&mut self, keys: &Vec<u64>)
        requires
            old(self).wf(),
            keys@.len() == old(self).spec_entities().len(),
        ensures
            final(self).wf(),
            final(self).spec_entities() == old(self).spec_entities(),
            final(self).next_id() == old(self).next_id(),
            final(self).spec_draw_order().to_multiset() == old(self).spec_draw_order().to_multiset(),
            forall|i: int, j: int|
                0 <= i < j < final(self).spec_draw_order().len() ==> keys@[final(self).spec_draw_order()[i] as int]
                    <= keys@[final(self).spec_draw_order()[j] as int],
    {
        let ghost n = self.entities@.len();
        let mut sorted: Vec<usize> = Vec::new();
        let mut k: usize = 0;
        proof {
            assert(self.draw_order@.subrange(0, 0) =~= sorted@);
        }
        while k < self.draw_order.len()
            invariant
                self.wf(),
                keys@.len() == n,
                n == self.entities@.len(),
                0 <= k <= self.draw_order@.len(),
                sorted@.to_multiset() == self.draw_order@.subrange(0, k as int).to_multiset(),
                forall|i: int| 0 <= i < sorted@.len() ==> #[trigger] sorted@[i] < n,
                forall|i: int, j: int|
                    0 <= i < j < sorted@.len() ==> keys@[sorted@[i] as int] <= keys@[sorted@[j] as int],
            decreases self.draw_order@.len() - k,
        {
            let x = self.draw_order[k];
            let key = keys[x];
            // insert after every entry whose key is not larger
            let mut pos: usize = sorted.len();
            while pos > 0 && keys[sorted[pos - 1]] > key
                invariant
                    0 <= pos <= sorted@.len(),
                    keys@.len() == n,
                    forall|i: int| 0 <= i < sorted@.len() ==> #[trigger] sorted@[i] < n,
                    forall|i: int| pos <= i < sorted@.len() ==> keys@[#[trigger] sorted@[i] as int] > key,
                decreases pos,
            {
                pos -= 1;
            }
            let ghost before = sorted@;
            sorted.insert(pos, x);
            proof {
                assert(self.draw_order@.subrange(0, k + 1) =~= self.draw_order@.subrange(0, k as int).push(x));
                vstd::seq_lib::to_multiset_insert(before, pos as int, x);
                before.to_multiset_ensures();
                self.draw_order@.subrange(0, k as int).to_multiset_ensures();
                assert(sorted@ == before.insert(pos as int, x));
                assert forall|i: int, j: int|
                    0 <= i < j < sorted@.len() implies keys@[sorted@[i] as int] <= keys@[sorted@[j] as int] by {
                    if j < pos {
                        assert(sorted@[i] == before[i] && sorted@[j] == before[j]);
                    } else if j == pos {
                        assert(sorted@[i] == before[i]);
                        if i < pos - 1 {
                            assert(keys@[before[i] as int] <= keys@[before[pos - 1] as int]);
                        }
                    } else if i == pos {
                        assert(sorted@[j] == before[j - 1]);
                    } else if i < pos {
                        assert(sorted@[i] == before[i] && sorted@[j] == before[j - 1]);
                        if i < pos - 1 || j - 1 >= pos {
                        }
                    } else {
                        assert(sorted@[i] == before[i - 1] && sorted@[j] == before[j - 1]);
                    }
                }
            }
            k += 1;
        }
        proof {
            assert(self.draw_order@.subrange(0, self.draw_order@.len() as int) =~= self.draw_order@);
            lemma_permutation_by_multiset(self.draw_order@, sorted@, n);
        }
        self.draw_order = sorted;
    }

    /// The entities in storage order.
    pub fn iter(&self) -> (r: &Vec<Entity<P>>)
        ensures
            r@ == self.spec_entities(),
    {
        &self.entities
    }

    /// The entities in draw order.
    pub fn draw_iter(&self) -> (r: Vec<&Entity<P>>)
        requires
            self.wf(),
        ensures
            r@.len() == self.spec_draw_order().len(),
            forall|i: int|
                0 <= i < r@.len() ==> *#[trigger] r@[i] == self.spec_entities()[self.spec_draw_order()[i] as int],
    {
        let mut r: Vec<&Entity<P>> = Vec::new();
        let mut k: usize = 0;
        while k < self.draw_order.len()
            invariant
                self.wf(),
                0 <= k <= self.draw_order@.len(),
                r@.len() == k,
                forall|i: int|
                    0 <= i < k ==> *#[trigger] r@[i] == self.entities@[self.draw_order@[i] as int],
            decreases self.draw_order@.len() - k,
        {
            let i = self.draw_order[k];
            r.push(&self.entities[i]);
            k += 1;
        }
        r
    }
}


/// In a well-formed registry an identity names at most one storage index.
pub proof fn lemma_id_unique<P: Copy>(reg: EntityManager<P>, id: usize, i: int, j: int)
    requires
        reg.wf(),
        0 <= i < reg.spec_entities().len(),
        0 <= j < reg.spec_entities().len(),
        reg.spec_entities()[i].spec_id() == id,
        reg.spec_entities()[j].spec_id() == id,
    ensures
        i == j,
{
    if i < j {
        assert(reg.spec_entities()[i].spec_id() < reg.spec_entities()[j].spec_id());
    } else if j < i {
        assert(reg.spec_entities()[j].spec_id() < reg.spec_entities()[i].spec_id());
    }
}

} // verus!
