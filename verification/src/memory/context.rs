//! Memory contexts: named allocation counters arranged in a tree under a
//! root context `Top`.

use vstd::prelude::*;

verus! {

/// Identifier of a memory context.
#[derive(Debug, Clone, Copy, PartialEq, Eq, Hash, Structural)]
pub struct MemoryContextId(u64);

impl MemoryContextId {
    pub closed spec fn value(self) -> u64 {
        self.0
    }
}

/// A named counter of the bytes allocated on behalf of one component.
/// Allocations and deallocations wrap around, as an atomic counter does.
#[derive(Debug)]
pub struct MemoryContext {
    id: MemoryContextId,
    name: String,
    _parent: Option<MemoryContextId>,
    allocated: u64,
}

impl MemoryContext {
    pub closed spec fn spec_id(&self) -> MemoryContextId {
        self.id
    }

    pub closed spec fn spec_name(&self) -> Seq<char> {
        self.name@
    }

    pub closed spec fn spec_parent(&self) -> Option<MemoryContextId> {
        self._parent
    }

    pub closed spec fn spec_allocated(&self) -> u64 {
        self.allocated
    }

    /// A context with the identifier `id` and nothing allocated.
    pub fn new(id: u64, name: String, parent: Option<MemoryContextId>) -> (c: Self)
        ensures
            c.spec_id().value() == id,
            c.spec_name() == name@,
            c.spec_parent() == parent,
            c.spec_allocated() == 0,
    {
        MemoryContext { id: MemoryContextId(id), name, _parent: parent, allocated: 0 }
    }

    pub fn id(&self) -> (i: MemoryContextId)
        ensures
            i == self.spec_id(),
    {
        self.id
    }

    pub fn name(&self) -> (s: &str)
        ensures
            s@ == self.spec_name(),
    {
        self.name.as_str()
    }

    pub fn allocated(&self) -> (n: u64)
        ensures
            n == self.spec_allocated(),
    {
        self.allocated
    }

    pub fn record_alloc(&mut self, size: u64)
        ensures
            final(self).spec_allocated() == (old(self).spec_allocated() + size) % 0x1_0000_0000_0000_0000,
            final(self).spec_id() == old(self).spec_id(),
            final(self).spec_name() == old(self).spec_name(),
            final(self).spec_parent() == old(self).spec_parent(),
    {
        self.allocated = self.allocated.wrapping_add(size);
    }

    pub fn record_dealloc(&mut self, size: u64)
        ensures
            final(self).spec_allocated() == (old(self).spec_allocated() - size) % 0x1_0000_0000_0000_0000,
            final(self).spec_id() == old(self).spec_id(),
            final(self).spec_name() == old(self).spec_name(),
            final(self).spec_parent() == old(self).spec_parent(),
    {
        self.allocated = self.allocated.wrapping_sub(size);
    }

    pub fn reset(&mut self)
        ensures
            final(self).spec_allocated() == 0,
            final(self).spec_id() == old(self).spec_id(),
            final(self).spec_name() == old(self).spec_name(),
            final(self).spec_parent() == old(self).spec_parent(),
    {
        self.allocated = 0;
    }
}

/// Sum of the allocation counters of `cs`.
pub open spec fn sum_allocated(cs: Seq<MemoryContext>) -> nat
    decreases cs.len(),
{
    if cs.len() == 0 {
        0
    } else {
        sum_allocated(cs.drop_last()) + cs.last().spec_allocated() as nat
    }
}

/// Index of the first context in `cs` with identifier `id`, if any.
pub open spec fn find_context(cs: Seq<MemoryContext>, id: MemoryContextId) -> Option<int>
    decreases cs.len(),
{
    if cs.len() == 0 {
        None
    } else if cs[0].spec_id() == id {
        Some(0)
    } else {
        match find_context(cs.drop_first(), id) {
            Some(i) => Some(i + 1),
            None => None,
        }
    }
}

proof fn lemma_find_context(cs: Seq<MemoryContext>, id: MemoryContextId)
    ensures
        find_context(cs, id) matches Some(i) ==> 0 <= i < cs.len() && cs[i].spec_id() == id && forall|j: int| 0 <= j < i ==> cs[j].spec_id() != id,
        find_context(cs, id) is None ==> forall|j: int| 0 <= j < cs.len() ==> cs[j].spec_id() != id,
    decreases cs.len(),
{
    if cs.len() > 0 {
        lemma_find_context(cs.drop_first(), id);
        if cs[0].spec_id() != id {
            assert forall|j: int| 1 <= j < cs.len() implies cs[j] == cs.drop_first()[j - 1] by {}
        }
    }
}

/// All memory contexts of a node, starting with the root `Top`. New
/// contexts get identifiers from a counter; the root's is 1.
pub struct MemoryContextTree {
    contexts: Vec<MemoryContext>,
    next_id: u64,
}

impl MemoryContextTree {
    pub closed spec fn contexts(&self) -> Seq<MemoryContext> {
        self.contexts@
    }

    pub closed spec fn spec_next_id(&self) -> u64 {
        self.next_id
    }

    /// The tree always holds its root; identifiers increase in creation
    /// order and stay below the counter, so no two contexts share one.
    pub closed spec fn wf(&self) -> bool {
        &&& self.contexts@.len() >= 1
        &&& forall|i: int|
            0 <= i < self.contexts@.len() ==> (#[trigger] self.contexts@[i]).spec_id().value()
                < self.next_id
        &&& forall|i: int, j: int|
            0 <= i < j < self.contexts@.len() ==> (#[trigger] self.contexts@[i]).spec_id().value()
                < (#[trigger] self.contexts@[j]).spec_id().value()
    }

    /// No two contexts of a tree share an identifier, so `get` finds each
    /// context by its own identifier.
    pub proof fn lemma_ids_unique(&self)
        requires
            self.wf(),
        ensures
            forall|i: int, j: int|
                0 <= i < self.contexts().len() && 0 <= j < self.contexts().len() && i != j
                    ==> (#[trigger] self.contexts()[i]).spec_id() != (#[trigger] self.contexts()[j]).spec_id(),
            forall|i: int|
                0 <= i < self.contexts().len() ==> find_context(
                    self.contexts(),
                    (#[trigger] self.contexts()[i]).spec_id(),
                ) == Some(i),
    {
        let cs = self.contexts@;
        assert forall|i: int| 0 <= i < cs.len() implies find_context(
            cs,
            (#[trigger] cs[i]).spec_id(),
        ) == Some(i) by {
            lemma_find_context(cs, cs[i].spec_id());
            if let Some(k) = find_context(cs, cs[i].spec_id()) {
                if k < i {
                    assert(cs[k].spec_id().value() < cs[i].spec_id().value());
                } else if k > i {
                    assert(cs[i].spec_id().value() < cs[k].spec_id().value());
                }
            }
        }
    }

    /// A tree holding only the root context `Top`.
    pub fn new() -> (t: Self)
        ensures
            t.wf(),
            t.contexts().len() == 1,
            t.contexts()[0].spec_id().value() == 1,
            t.contexts()[0].spec_name() == "Top"@,
            t.contexts()[0].spec_parent() is None,
            t.contexts()[0].spec_allocated() == 0,
            t.spec_next_id() == 2,
    {
        let root = MemoryContext::new(1, "Top".to_owned(), None);
        let mut contexts: Vec<MemoryContext> = Vec::new();
        contexts.push(root);
        MemoryContextTree { contexts, next_id: 2 }
    }

    pub fn root(&self) -> (r: &MemoryContext)
        requires
            self.wf(),
        ensures
            *r == self.contexts()[0],
    {
        &self.contexts[0]
    }

    fn position(&self, id: MemoryContextId) -> (r: Option<usize>)
        ensures
            r matches Some(i) ==> i < self.contexts().len() && Some(i as int) == find_context(
                self.contexts(),
                id,
            ),
            r is None ==> find_context(self.contexts(), id) is None,
    {
        let mut i: usize = 0;
        proof {
            lemma_find_context(self.contexts@, id);
        }
        while i < self.contexts.len()
            invariant
                i <= self.contexts@.len(),
                forall|j: int| 0 <= j < i ==> self.contexts@[j].spec_id() != id,
                find_context(self.contexts@, id) matches Some(k) ==> 0 <= k < self.contexts@.len() && self.contexts@[k].spec_id() == id && forall|j: int| 0 <= j < k ==> self.contexts@[j].spec_id() != id,
                find_context(self.contexts@, id) is None ==> forall|j: int| 0 <= j < self.contexts@.len() ==> self.contexts@[j].spec_id() != id,
            decreases self.contexts@.len() - i,
        {
            if self.contexts[i].id == id {
                return Some(i);
            }
            i = i + 1;
        }
        None
    }

    /// Adds a child of `parent` named `name`, or returns `None` when no
    /// context has the identifier `parent`. The new context's identifier
    /// is fresh: no context of the tree had it. Identifiers are `u64`, so
    /// the counter must not have reached `u64::MAX`.
    pub fn create_child(&mut self, name: String, parent: MemoryContextId) -> (r: Option<MemoryContextId>)
        requires
            old(self).wf(),
            old(self).spec_next_id() < u64::MAX,
        ensures
            final(self).wf(),
            find_context(old(self).contexts(), parent) is None ==> r is None && *final(self) == *old(self),
            find_context(old(self).contexts(), parent) is Some ==> {
                &&& r == Some(final(self).contexts().last().spec_id())
                &&& final(self).contexts().drop_last() == old(self).contexts()
                &&& final(self).contexts().last().spec_id().value() == old(self).spec_next_id()
                &&& final(self).contexts().last().spec_name() == name@
                &&& final(self).contexts().last().spec_parent() == Some(parent)
                &&& final(self).contexts().last().spec_allocated() == 0
                &&& final(self).spec_next_id() == old(self).spec_next_id() + 1
                &&& forall|i: int|
                    0 <= i < old(self).contexts().len() ==> (#[trigger] old(self).contexts()[i]).spec_id()
                        != r->0
                &&& find_context(final(self).contexts(), r->0) == Some(
                    final(self).contexts().len() - 1,
                )
            },
    {
        if self.position(parent).is_none() {
            return None;
        }
        let ctx = MemoryContext::new(self.next_id, name, Some(parent));
        let id = ctx.id();
        self.next_id = self.next_id + 1;
        self.contexts.push(ctx);
        assert(self.contexts@.drop_last() =~= old(self).contexts@);
        proof {
            let cs = self.contexts@;
            assert forall|i: int| 0 <= i < cs.len() implies (#[trigger] cs[i]).spec_id().value()
                < self.next_id by {
                if i < cs.len() - 1 {
                    assert(cs[i] == old(self).contexts@[i]);
                }
            }
            assert forall|i: int, j: int| 0 <= i < j < cs.len() implies (#[trigger] cs[i]).spec_id().value()
                < (#[trigger] cs[j]).spec_id().value() by {
                assert(cs[i] == old(self).contexts@[i]);
                if j < cs.len() - 1 {
                    assert(cs[j] == old(self).contexts@[j]);
                }
            }
            self.lemma_ids_unique();
            assert(cs[cs.len() - 1].spec_id() == id);
        }
        Some(id)
    }

    /// The first context with identifier `id`, if any.
    pub fn get(&self, id: MemoryContextId) -> (r: Option<&MemoryContext>)
        ensures
            find_context(self.contexts(), id) matches Some(i) ==> r == Some(&self.contexts()[i]),
            find_context(self.contexts(), id) is None ==> r is None,
    {
        match self.position(id) {
            Some(i) => Some(&self.contexts[i]),
            None => None,
        }
    }

    /// Total bytes recorded by all contexts. The sum must fit in a `u64`.
    pub fn total_allocated(&self) -> (n: u64)
        requires
            sum_allocated(self.contexts()) <= u64::MAX,
        ensures
            n == sum_allocated(self.contexts()),
    {
        let mut total: u64 = 0;
        let mut i: usize = 0;
        while i < self.contexts.len()
            invariant
                i <= self.contexts@.len(),
                total == sum_allocated(self.contexts@.take(i as int)),
                sum_allocated(self.contexts@) <= u64::MAX,
            decreases self.contexts@.len() - i,
        {
            proof {
                assert(self.contexts@.take(i + 1).drop_last() =~= self.contexts@.take(i as int));
                lemma_sum_prefix(self.contexts@, i + 1);
            }
            total = total + self.contexts[i].allocated();
            i = i + 1;
        }
        assert(self.contexts@.take(i as int) =~= self.contexts@);
        total
    }

    /// Records `size` bytes allocated in the context `id` (wrapping around
    /// as the context's counter does); `false`, with nothing changed, when no
    /// context has that identifier.
    pub fn record_alloc(&mut self, id: MemoryContextId, size: u64) -> (found: bool)
        requires
            old(self).wf(),
        ensures
            final(self).wf(),
            found == (find_context(old(self).contexts(), id) is Some),
            final(self).spec_next_id() == old(self).spec_next_id(),
            final(self).contexts().len() == old(self).contexts().len(),
            forall|j: int|
                0 <= j < old(self).contexts().len() && Some(j) != find_context(old(self).contexts(), id)
                    ==> #[trigger] final(self).contexts()[j] == old(self).contexts()[j],
            find_context(old(self).contexts(), id) matches Some(i) ==> {
                let c = final(self).contexts()[i];
                let o = old(self).contexts()[i];
                &&& c.spec_allocated() == (o.spec_allocated() + size) % 0x1_0000_0000_0000_0000
                &&& c.spec_id() == o.spec_id()
                &&& c.spec_name() == o.spec_name()
                &&& c.spec_parent() == o.spec_parent()
            },
    {
        match self.position(id) {
            Some(i) => {
                let ghost before = self.contexts@;
                self.contexts[i].record_alloc(size);
                proof {
                    self.lemma_same_ids(before);
                }
                true
            },
            None => false,
        }
    }

    /// Records `size` bytes released in the context `id` (wrapping around
    /// as the context's counter does); `false`, with nothing changed, when no
    /// context has that identifier.
    pub fn record_dealloc(&mut self, id: MemoryContextId, size: u64) -> (found: bool)
        requires
            old(self).wf(),
        ensures
            final(self).wf(),
            found == (find_context(old(self).contexts(), id) is Some),
            final(self).spec_next_id() == old(self).spec_next_id(),
            final(self).contexts().len() == old(self).contexts().len(),
            forall|j: int|
                0 <= j < old(self).contexts().len() && Some(j) != find_context(old(self).contexts(), id)
                    ==> #[trigger] final(self).contexts()[j] == old(self).contexts()[j],
            find_context(old(self).contexts(), id) matches Some(i) ==> {
                let c = final(self).contexts()[i];
                let o = old(self).contexts()[i];
                &&& c.spec_allocated() == (o.spec_allocated() - size) % 0x1_0000_0000_0000_0000
                &&& c.spec_id() == o.spec_id()
                &&& c.spec_name() == o.spec_name()
                &&& c.spec_parent() == o.spec_parent()
            },
    {
        match self.position(id) {
            Some(i) => {
                let ghost before = self.contexts@;
                self.contexts[i].record_dealloc(size);
                proof {
                    self.lemma_same_ids(before);
                }
                true
            },
            None => false,
        }
    }

    /// Contexts with the same identifiers as a well-formed tree's, under the
    /// same counter, form a well-formed tree.
    proof fn lemma_same_ids(&self, before: Seq<MemoryContext>)
        requires
            before.len() == self.contexts@.len(),
            before.len() >= 1,
            forall|k: int| 0 <= k < before.len() ==> (#[trigger] before[k]).spec_id().value() < self.next_id,
            forall|a: int, b: int|
                0 <= a < b < before.len() ==> (#[trigger] before[a]).spec_id().value()
                    < (#[trigger] before[b]).spec_id().value(),
            forall|k: int| 0 <= k < before.len() ==> (#[trigger] self.contexts@[k]).spec_id() == before[k].spec_id(),
        ensures
            self.wf(),
    {
        let cs = self.contexts@;
        assert forall|k: int| 0 <= k < cs.len() implies (#[trigger] cs[k]).spec_id().value() < self.next_id by {
            assert(cs[k].spec_id() == before[k].spec_id());
        }
        assert forall|a: int, b: int| 0 <= a < b < cs.len() implies (#[trigger] cs[a]).spec_id().value()
            < (#[trigger] cs[b]).spec_id().value() by {
            assert(cs[a].spec_id() == before[a].spec_id());
            assert(cs[b].spec_id() == before[b].spec_id());
        }
    }

    /// Clears the counter of every context.
    pub fn reset_all(&mut self)
        ensures
            old(self).wf() ==> final(self).wf(),
            final(self).contexts().len() == old(self).contexts().len(),
            final(self).spec_next_id() == old(self).spec_next_id(),
            forall|i: int| 0 <= i < old(self).contexts().len() ==> {
                &&& #[trigger] final(self).contexts()[i].spec_allocated() == 0
                &&& final(self).contexts()[i].spec_id() == old(self).contexts()[i].spec_id()
                &&& final(self).contexts()[i].spec_name() == old(self).contexts()[i].spec_name()
                &&& final(self).contexts()[i].spec_parent() == old(self).contexts()[i].spec_parent()
            },
    {
        let mut i: usize = 0;
        while i < self.contexts.len()
            invariant
                i <= self.contexts@.len(),
                self.contexts@.len() == old(self).contexts@.len(),
                self.next_id == old(self).next_id,
                forall|j: int|
                    #![trigger self.contexts@[j]]
                    0 <= j < self.contexts@.len() ==> {
                        &&& (j < i ==> self.contexts@[j].spec_allocated() == 0)
                        &&& self.contexts@[j].spec_id() == old(self).contexts@[j].spec_id()
                        &&& self.contexts@[j].spec_name() == old(self).contexts@[j].spec_name()
                        &&& self.contexts@[j].spec_parent() == old(self).contexts@[j].spec_parent()
                    },
            decreases self.contexts@.len() - i,
        {
            let ghost before = self.contexts@;
            self.contexts[i].reset();
            assert forall|j: int| 0 <= j < self.contexts@.len() && j != i implies self.contexts@[j]
                == before[j] by {}
            i = i + 1;
        }
        proof {
            if old(self).wf() {
                let cs = self.contexts@;
                let os = old(self).contexts@;
                assert forall|k: int| 0 <= k < cs.len() implies (#[trigger] cs[k]).spec_id().value()
                    < self.next_id by {
                    assert(cs[k].spec_id() == os[k].spec_id());
                }
                assert forall|a: int, b: int| 0 <= a < b < cs.len() implies (#[trigger] cs[a]).spec_id().value()
                    < (#[trigger] cs[b]).spec_id().value() by {
                    assert(cs[a].spec_id() == os[a].spec_id());
                    assert(cs[b].spec_id() == os[b].spec_id());
                }
            }
        }
    }
}

/// A prefix's sum is at most the whole sum.
proof fn lemma_sum_prefix(cs: Seq<MemoryContext>, k: int)
    requires
        0 <= k <= cs.len(),
    ensures
        sum_allocated(cs.take(k)) <= sum_allocated(cs),
    decreases cs.len() - k,
{
    if k < cs.len() {
        lemma_sum_prefix(cs, k + 1);
        assert(cs.take(k + 1).drop_last() =~= cs.take(k));
    } else {
        assert(cs.take(k) =~= cs);
    }
}

impl Default for MemoryContextTree {
    fn default() -> (t: Self)
        ensures
            t.wf(),
            t.contexts().len() == 1,
            t.contexts()[0].spec_id().value() == 1,
            t.contexts()[0].spec_name() == "Top"@,
            t.spec_next_id() == 2,
    {
        Self::new()
    }
}

} // verus!
