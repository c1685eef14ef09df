use vstd::prelude::*;
use crate::error::RyndError;
use crate::owned::NDArrayOwned;
use crate::view::ViewDesc;
use crate::value::Value;
use crate::NDArrayType;

verus! {

// The Lifetime Manager: a registry mapping opaque handles to reference
// counts and to the view-to-array dependency graph. A handle is an index
// into an arena of slots; a freed slot is never reused, so a stale handle
// can only name an absent entry, never a different live one. Storage is
// deallocated exactly when an Owned array's count reaches zero and no View
// aliases it any longer, in whatever order the releases arrive.

/// A View registered with the manager: the handle of the single Owned array
/// whose buffer it aliases, plus its window into that buffer.
pub struct NDArrayView {
    pub backing: usize,
    pub desc: ViewDesc,
}

/// The single polymorphic value a handle names.
pub enum NDArray {
    Owned(NDArrayOwned),
    View(NDArrayView),
}

pub struct Entry {
    pub value: NDArray,
    pub refcount: usize,
    /// For an Owned entry: the handles of the live Views aliasing it.
    pub views: Vec<usize>,
}

pub struct MemoryManager {
    pub slots: Vec<Option<Entry>>,
}

impl MemoryManager {
    /// A handle names a live entry.
    pub open spec fn live(&self, h: int) -> bool {
        0 <= h < self.slots@.len() && self.slots@[h] is Some
    }

    pub open spec fn entry(&self, h: int) -> Entry {
        self.slots@[h]->Some_0
    }

    pub open spec fn is_owned(&self, h: int) -> bool {
        self.live(h) && self.entry(h).value is Owned
    }

    pub open spec fn is_view(&self, h: int) -> bool {
        self.live(h) && self.entry(h).value is View
    }

    pub open spec fn owned_of(&self, h: int) -> NDArrayOwned {
        self.entry(h).value->Owned_0
    }

    pub open spec fn view_of(&self, h: int) -> NDArrayView {
        self.entry(h).value->View_0
    }

    pub open spec fn refcount(&self, h: int) -> int {
        self.entry(h).refcount as int
    }

    /// The handle of the Owned array whose storage `h` reads: itself when
    /// Owned, its backing when a View.
    pub open spec fn root_of(&self, h: int) -> int {
        if self.is_view(h) {
            self.view_of(h).backing as int
        } else {
            h
        }
    }

    /// The elements a handle denotes, in iteration order.
    pub open spec fn handle_elems(&self, h: int) -> Seq<Value> {
        if self.is_view(h) {
            self.view_of(h).desc.view_seq(self.owned_of(self.root_of(h)).elems())
        } else {
            self.owned_of(h).elems()
        }
    }

    pub open spec fn handle_shape(&self, h: int) -> Seq<usize> {
        if self.is_view(h) {
            self.view_of(h).desc.shape@
        } else {
            self.owned_of(h).shape@
        }
    }

    pub open spec fn handle_tp(&self, h: int) -> NDArrayType {
        self.owned_of(self.root_of(h)).tp()
    }

    /// Whether buffer position `p` of `h`'s backing array is aliased by
    /// `h`: a View covers exactly its window, an Owned handle all its cells.
    pub open spec fn handle_covers(&self, h: int, p: int) -> bool {
        if self.is_view(h) {
            self.view_of(h).desc.covers(p)
        } else {
            true
        }
    }

    /// What every write through handle `h` leaves intact: the registry keeps
    /// its length and every entry but the backing array of `h`; every handle
    /// stays live with its count, shape, type and root; handles rooted in
    /// other arrays keep their elements; and of the backing buffer itself
    /// only cells aliased by `h` may change.
    pub open spec fn write_frame(pre: MemoryManager, post: MemoryManager, h: int) -> bool {
        let root = pre.root_of(h);
        &&& post.slots@.len() == pre.slots@.len()
        &&& forall|h2: int|
            0 <= h2 < pre.slots@.len() && h2 != root ==> post.slots@[h2] == pre.slots@[h2]
        &&& post.is_owned(root)
        &&& post.refcount(root) == pre.refcount(root)
        &&& post.entry(root).views@ == pre.entry(root).views@
        &&& post.owned_of(root).tp() == pre.owned_of(root).tp()
        &&& post.owned_of(root).shape@ == pre.owned_of(root).shape@
        &&& post.owned_of(root).elems().len() == pre.owned_of(root).elems().len()
        &&& forall|p: int|
            0 <= p < pre.owned_of(root).elems().len() && !pre.handle_covers(h, p)
                ==> post.owned_of(root).elems()[p] == pre.owned_of(root).elems()[p]
        &&& forall|h2: int|
            #![trigger pre.live(h2)]
            pre.live(h2) ==> {
                &&& post.live(h2)
                &&& post.handle_shape(h2) == pre.handle_shape(h2)
                &&& post.handle_tp(h2) == pre.handle_tp(h2)
                &&& post.refcount(h2) == pre.refcount(h2)
                &&& post.root_of(h2) == pre.root_of(h2)
                &&& (pre.is_view(h2) ==> post.view_of(h2).desc == pre.view_of(h2).desc)
                &&& (pre.root_of(h2) != root ==> post.handle_elems(h2) == pre.handle_elems(h2))
            }
    }

    /// Whether the views list of Owned entry `a` records view handle `w`.
    pub open spec fn edge(&self, a: int, w: int) -> bool {
        exists|k: int| 0 <= k < self.entry(a).views@.len() && self.entry(a).views@[k] == w
    }

    /// The invariants of the dependency graph: every View's backing is a live
    /// Owned array it is registered with and its window fits that array's
    /// buffer; every recorded view handle is a live View backed by its
    /// recorder; views lists have no duplicates and Views record none.
    pub open spec fn wf(&self) -> bool {
        &&& forall|h: int|
            #[trigger] self.is_view(h) ==> {
                let b = self.view_of(h).backing as int;
                &&& self.is_owned(b)
                &&& self.view_of(h).desc.wf(self.owned_of(b).elems().len() as int)
                &&& self.edge(b, h)
                &&& self.entry(h).views@.len() == 0
            }
        &&& forall|h: int| #[trigger] self.is_owned(h) ==> self.owned_of(h).wf()
        &&& forall|h: int, k: int|
            self.is_owned(h) && 0 <= k < self.entry(h).views@.len() ==> {
                let w = #[trigger] self.entry(h).views@[k] as int;
                &&& self.is_view(w)
                &&& self.view_of(w).backing == h
            }
        &&& forall|h: int, k1: int, k2: int|
            #![trigger self.entry(h).views@[k1], self.entry(h).views@[k2]]
            self.is_owned(h) && 0 <= k1 < k2 < self.entry(h).views@.len() ==> self.entry(
                h,
            ).views@[k1] != self.entry(h).views@[k2]
    }

    /// An empty registry, the state the embedder constructs at startup.
    pub fn new() -> (m: MemoryManager)
        ensures
            m.wf(),
            m.slots@.len() == 0,
    {
        MemoryManager { slots: Vec::new() }
    }

    /// Registers a fresh Owned array with refcount 1 and hands out its
    /// handle. Every other entry is untouched.
    pub fn register_and_leak(&mut self, a: NDArrayOwned) -> (h: usize)
        requires
            old(self).wf(),
            a.wf(),
            old(self).slots@.len() < usize::MAX,
        ensures
            final(self).wf(),
            h as int == old(self).slots@.len(),
            final(self).is_owned(h as int),
            final(self).refcount(h as int) == 1,
            final(self).owned_of(h as int) == a,
            final(self).handle_elems(h as int) =~= a.elems(),
            final(self).handle_shape(h as int) == a.shape@,
            final(self).handle_tp(h as int) == a.tp(),
            final(self).entry(h as int).views@.len() == 0,
            final(self).slots@.len() == old(self).slots@.len() + 1,
            forall|h2: int| 0 <= h2 < old(self).slots@.len() ==> final(self).slots@[h2] == old(
                self,
            ).slots@[h2],
    {
        let h = self.slots.len();
        let entry = Entry { value: NDArray::Owned(a), refcount: 1, views: Vec::new() };
        self.slots.push(Some(entry));
        proof {
            lemma_frame_wf(old(self), self);
        }
        h
    }

    /// Registers a fresh View of the Owned array at `root` with refcount 1,
    /// records the `view -> array` and `array -> views` edges, and hands out
    /// the view's handle.
    pub fn register_view(&mut self, root: usize, desc: ViewDesc) -> (h: usize)
        requires
            old(self).wf(),
            old(self).is_owned(root as int),
            desc.wf(old(self).owned_of(root as int).elems().len() as int),
            old(self).slots@.len() < usize::MAX,
            old(self).entry(root as int).views@.len() < usize::MAX,
        ensures
            final(self).wf(),
            h as int == old(self).slots@.len(),
            final(self).is_view(h as int),
            final(self).refcount(h as int) == 1,
            final(self).view_of(h as int).backing == root,
            final(self).view_of(h as int).desc == desc,
            final(self).handle_elems(h as int) =~= desc.view_seq(
                old(self).owned_of(root as int).elems(),
            ),
            final(self).handle_shape(h as int) == desc.shape@,
            final(self).handle_tp(h as int) == old(self).handle_tp(root as int),
            final(self).slots@.len() == old(self).slots@.len() + 1,
            // the only change to an old entry is the new edge on the root
            forall|h2: int|
                0 <= h2 < old(self).slots@.len() && h2 != root ==> final(self).slots@[h2] == old(
                    self,
                ).slots@[h2],
            final(self).is_owned(root as int),
            final(self).owned_of(root as int).tp() == old(self).owned_of(root as int).tp(),
            final(self).owned_of(root as int).shape@ == old(self).owned_of(root as int).shape@,
            final(self).owned_of(root as int).elems() == old(self).owned_of(root as int).elems(),
            final(self).refcount(root as int) == old(self).refcount(root as int),
            final(self).entry(root as int).views@ == old(self).entry(root as int).views@.push(h),
            forall|h2: int|
                old(self).live(h2) ==> final(self).live(h2) && final(self).handle_elems(h2) == old(
                    self,
                ).handle_elems(h2) && final(self).handle_shape(h2) == old(self).handle_shape(h2),
    {
        let h = self.slots.len();
        let entry = Entry {
            value: NDArray::View(NDArrayView { backing: root, desc }),
            refcount: 1,
            views: Vec::new(),
        };
        self.slots.push(Some(entry));
        // record the edge on the root
        let root_entry = match &self.slots[root] {
            Some(e) => e,
            None => {
                proof {
                    assert(false);
                }
                return h;  // unreachable
            },
        };
        let mut new_views = clone_usize_vec(&root_entry.views);
        new_views.push(h);
        let value = copy_owned_value(root_entry);
        let rc = root_entry.refcount;
        self.slots.set(root, Some(Entry { value, refcount: rc, views: new_views }));
        proof {
            let oldm = old(self);
            let newm = self;
            assert forall|h2: int| #[trigger] newm.is_view(h2) implies {
                let b = newm.view_of(h2).backing as int;
                &&& newm.is_owned(b)
                &&& newm.view_of(h2).desc.wf(newm.owned_of(b).elems().len() as int)
                &&& newm.edge(b, h2)
                &&& newm.entry(h2).views@.len() == 0
            } by {
                if h2 == h {
                    assert(newm.entry(root as int).views@.last() == h);
                    assert(newm.edge(root as int, h2));
                } else {
                    assert(oldm.is_view(h2));
                    let b = oldm.view_of(h2).backing as int;
                    assert(oldm.edge(b, h2));
                    if b == root {
                        let k = choose|k: int|
                            0 <= k < oldm.entry(b).views@.len() && oldm.entry(b).views@[k] == h2;
                        assert(newm.entry(b).views@[k] == h2);
                    }
                }
            }
            assert forall|h2: int| #[trigger] newm.is_owned(h2) implies newm.owned_of(
                h2,
            ).wf() by {
                if h2 != root as int {
                    assert(oldm.is_owned(h2));
                }
            }
            assert forall|h2: int, k: int|
                newm.is_owned(h2) && 0 <= k < newm.entry(h2).views@.len() implies {
                let w = #[trigger] newm.entry(h2).views@[k] as int;
                &&& newm.is_view(w)
                &&& newm.view_of(w).backing == h2
            } by {
                if h2 == root && k == newm.entry(h2).views@.len() - 1 {
                } else {
                    assert(oldm.is_owned(h2) && oldm.entry(h2).views@[k] == newm.entry(
                        h2,
                    ).views@[k]);
                }
            }
            assert forall|h2: int, k1: int, k2: int|
                #![trigger newm.entry(h2).views@[k1], newm.entry(h2).views@[k2]]
                newm.is_owned(h2) && 0 <= k1 < k2 < newm.entry(h2).views@.len() implies newm.entry(
                h2,
            ).views@[k1] != newm.entry(h2).views@[k2] by {
                if h2 == root && k2 == newm.entry(h2).views@.len() - 1 {
                    // the new handle is fresh, so it is not an old edge
                    assert(oldm.is_view(newm.entry(h2).views@[k1] as int) || newm.entry(
                        h2,
                    ).views@[k1] as int == h || true);
                    let w1 = newm.entry(h2).views@[k1] as int;
                    assert(oldm.is_owned(root as int));
                    assert(oldm.entry(root as int).views@[k1] == w1);
                    assert(oldm.is_view(w1));
                    assert(w1 < oldm.slots@.len());
                } else {
                    assert(oldm.is_owned(h2));
                }
            }
        }
        h
    }
}

impl MemoryManager {
    /// The use-after-free guard: a handle absent from the registry is a
    /// fatal, typed error; a live handle resolves to its value.
    pub fn resolve(&self, h: usize) -> (r: Result<&NDArray, RyndError>)
        ensures
            self.live(h as int) ==> r is Ok && *r.unwrap() == self.entry(h as int).value,
            !self.live(h as int) ==> r == Err::<&NDArray, RyndError>(RyndError::DeletedHandle),
    {
        if h < self.slots.len() {
            match &self.slots[h] {
                Some(e) => Ok(&e.value),
                None => Err(RyndError::DeletedHandle),
            }
        } else {
            Err(RyndError::DeletedHandle)
        }
    }

    pub fn get_refcount(&self, h: usize) -> (r: Option<usize>)
        ensures
            self.live(h as int) ==> r == Some(self.entry(h as int).refcount),
            !self.live(h as int) ==> r is None,
    {
        if h < self.slots.len() {
            match &self.slots[h] {
                Some(e) => Some(e.refcount),
                None => None,
            }
        } else {
            None
        }
    }

    /// Decrements a live handle's refcount without offering it for removal.
    pub fn remove_ref(&mut self, h: usize) -> (r: Result<(), RyndError>)
        requires
            old(self).wf(),
        ensures
            final(self).wf(),
            !(old(self).live(h as int) && old(self).refcount(h as int) >= 1) ==> r == Err::<
                (),
                RyndError,
            >(RyndError::DeletedHandle) && final(self).slots@ == old(self).slots@,
            old(self).live(h as int) && old(self).refcount(h as int) >= 1 ==> {
                &&& r is Ok
                &&& final(self).live(h as int)
                &&& final(self).refcount(h as int) == old(self).refcount(h as int) - 1
                &&& final(self).entry(h as int).value == old(self).entry(h as int).value
                &&& final(self).entry(h as int).views@ == old(self).entry(h as int).views@
                &&& forall|h2: int|
                    0 <= h2 < old(self).slots@.len() && h2 != h ==> final(self).slots@[h2] == old(
                        self,
                    ).slots@[h2]
                &&& final(self).slots@.len() == old(self).slots@.len()
            },
    {
        if h >= self.slots.len() {
            return Err(RyndError::DeletedHandle);
        }
        let is_live = match &self.slots[h] {
            Some(e) => e.refcount >= 1,
            None => false,
        };
        if !is_live {
            return Err(RyndError::DeletedHandle);
        }
        let entry = self.take_entry(h);
        let rc = entry.refcount;
        self.slots.set(h, Some(Entry { value: entry.value, refcount: rc - 1, views: entry.views }));
        proof {
            lemma_same_graph_wf(old(self), self);
        }
        Ok(())
    }

    /// Whether an Owned array's storage would be deallocated now: no
    /// references left and no view aliasing it.
    pub fn can_remove_array(&self, h: usize) -> (r: bool)
        ensures
            r == (self.live(h as int) && self.refcount(h as int) == 0 && self.entry(
                h as int,
            ).views@.len() == 0),
    {
        if h >= self.slots.len() {
            return false;
        }
        match &self.slots[h] {
            Some(e) => e.refcount == 0 && e.views.len() == 0,
            None => false,
        }
    }

    /// Whether a View would be dropped now: no references left.
    pub fn can_remove_view(&self, h: usize) -> (r: bool)
        ensures
            r == (self.live(h as int) && self.refcount(h as int) == 0),
    {
        if h >= self.slots.len() {
            return false;
        }
        match &self.slots[h] {
            Some(e) => e.refcount == 0,
            None => false,
        }
    }

    /// Increments the refcount of a live handle: one more holder of it.
    pub fn register_ref(&mut self, h: usize) -> (r: Result<(), RyndError>)
        requires
            old(self).wf(),
            old(self).live(h as int) ==> old(self).refcount(h as int) < usize::MAX,
        ensures
            final(self).wf(),
            !old(self).live(h as int) ==> r == Err::<(), RyndError>(RyndError::DeletedHandle)
                && final(self).slots@ == old(self).slots@,
            old(self).live(h as int) ==> {
                &&& r is Ok
                &&& final(self).live(h as int)
                &&& final(self).refcount(h as int) == old(self).refcount(h as int) + 1
                &&& final(self).entry(h as int).value == old(self).entry(h as int).value
                &&& final(self).entry(h as int).views@ == old(self).entry(h as int).views@
                &&& forall|h2: int|
                    0 <= h2 < old(self).slots@.len() && h2 != h ==> final(self).slots@[h2] == old(
                        self,
                    ).slots@[h2]
                &&& final(self).slots@.len() == old(self).slots@.len()
            },
    {
        if h >= self.slots.len() {
            return Err(RyndError::DeletedHandle);
        }
        let is_live = match &self.slots[h] {
            Some(_) => true,
            None => false,
        };
        if !is_live {
            return Err(RyndError::DeletedHandle);
        }
        let entry = self.take_entry(h);
        let rc = entry.refcount;
        self.slots.set(h, Some(Entry { value: entry.value, refcount: rc + 1, views: entry.views }));
        proof {
            lemma_same_graph_wf(old(self), self);
        }
        Ok(())
    }

    /// Removes and returns a live entry, leaving the slot empty.
    pub(crate) fn take_entry(&mut self, h: usize) -> (e: Entry)
        requires
            old(self).live(h as int),
        ensures
            e == old(self).entry(h as int),
            final(self).slots@ == old(self).slots@.update(h as int, None),
    {
        let mut taken: Option<Entry> = None;
        let slot = &mut self.slots[h];
        core::mem::swap(slot, &mut taken);
        match taken {
            Some(e) => e,
            None => {
                proof {
                    assert(false);
                }
                vstd::pervasive::unreached()
            },
        }
    }

    /// Releases one reference to `h`. A View whose count reaches zero is
    /// dropped and gives up its reference to its backing array, which is
    /// deallocated once its own count is zero and no view remains; an Owned
    /// array whose count reaches zero survives while any View aliases it.
    /// Releasing an absent or exhausted handle is a DeletedHandle error and
    /// changes nothing, so a double free cannot deallocate twice.
    pub fn free_array_ptr(&mut self, h: usize) -> (r: Result<(), RyndError>)
        requires
            old(self).wf(),
        ensures
            final(self).wf(),
            !(old(self).live(h as int) && old(self).refcount(h as int) >= 1) ==> r == Err::<
                (),
                RyndError,
            >(RyndError::DeletedHandle) && final(self).slots@ == old(self).slots@,
            old(self).is_owned(h as int) && old(self).refcount(h as int) >= 1 ==> {
                &&& r is Ok
                &&& (old(self).refcount(h as int) > 1 || old(self).entry(h as int).views@.len()
                    > 0) ==> {
                    // storage survives: still referenced, or views still alias it
                    &&& final(self).is_owned(h as int)
                    &&& final(self).refcount(h as int) == old(self).refcount(h as int) - 1
                    &&& final(self).entry(h as int).value == old(self).entry(h as int).value
                    &&& final(self).entry(h as int).views@ == old(self).entry(h as int).views@
                    &&& forall|h2: int|
                        0 <= h2 < old(self).slots@.len() && h2 != h ==> final(self).slots@[h2]
                            == old(self).slots@[h2]
                }
                &&& (old(self).refcount(h as int) == 1 && old(self).entry(h as int).views@.len()
                    == 0) ==> {
                    // the last reference and no views: deallocated now
                    final(self).slots@ == old(self).slots@.update(h as int, None)
                }
                &&& final(self).slots@.len() == old(self).slots@.len()
            },
            old(self).is_view(h as int) && old(self).refcount(h as int) >= 1 ==> {
                let b = old(self).view_of(h as int).backing as int;
                &&& r is Ok
                &&& old(self).refcount(h as int) > 1 ==> {
                    &&& final(self).is_view(h as int)
                    &&& final(self).refcount(h as int) == old(self).refcount(h as int) - 1
                    &&& final(self).entry(h as int).value == old(self).entry(h as int).value
                    &&& forall|h2: int|
                        0 <= h2 < old(self).slots@.len() && h2 != h ==> final(self).slots@[h2]
                            == old(self).slots@[h2]
                }
                &&& old(self).refcount(h as int) == 1 ==> {
                    // the view is dropped and its edge removed
                    &&& !final(self).live(h as int)
                    &&& (old(self).refcount(b) == 0 && old(self).entry(b).views@.len() == 1)
                        ==> !final(self).live(b)  // cascade: the backing goes too
                    &&& (old(self).refcount(b) > 0 || old(self).entry(b).views@.len() > 1) ==> {
                        &&& final(self).is_owned(b)
                        &&& final(self).refcount(b) == old(self).refcount(b)
                        &&& final(self).owned_of(b).tp() == old(self).owned_of(b).tp()
                        &&& final(self).owned_of(b).shape@ == old(self).owned_of(b).shape@
                        &&& final(self).owned_of(b).elems() == old(self).owned_of(b).elems()
                        &&& final(self).entry(b).views@.len() == old(self).entry(b).views@.len()
                            - 1
                        &&& forall|w: int|
                            final(self).edge(b, w) <==> (old(self).edge(b, w) && w != h)
                    }
                    &&& forall|h2: int|
                        0 <= h2 < old(self).slots@.len() && h2 != h && h2 != b
                            ==> final(self).slots@[h2] == old(self).slots@[h2]
                }
                &&& final(self).slots@.len() == old(self).slots@.len()
            },
    {
        if h >= self.slots.len() {
            return Err(RyndError::DeletedHandle);
        }
        let (is_live, rc, is_view, backing) = match &self.slots[h] {
            Some(e) => match &e.value {
                NDArray::Owned(_) => (true, e.refcount, false, 0usize),
                NDArray::View(v) => (true, e.refcount, true, v.backing),
            },
            None => (false, 0usize, false, 0usize),
        };
        if !is_live || rc == 0 {
            return Err(RyndError::DeletedHandle);
        }
        if !is_view {
            let entry = self.take_entry(h);
            let nviews = entry.views.len();
            if rc == 1 && nviews == 0 {
                // deallocate: the slot stays empty
                proof {
                    lemma_drop_owned_wf(old(self), self, h as int);
                }
                Ok(())
            } else {
                self.slots.set(
                    h,
                    Some(Entry { value: entry.value, refcount: rc - 1, views: entry.views }),
                );
                proof {
                    lemma_same_graph_wf(old(self), self);
                }
                Ok(())
            }
        } else {
            if rc > 1 {
                let entry = self.take_entry(h);
                self.slots.set(
                    h,
                    Some(Entry { value: entry.value, refcount: rc - 1, views: entry.views }),
                );
                proof {
                    lemma_same_graph_wf(old(self), self);
                }
                return Ok(());
            }
            // the view's last reference: drop it and its edge, then offer the
            // backing array to the same logic
            proof {
                assert(old(self).is_view(h as int));
                assert(old(self).is_owned(backing as int));
                assert(backing != h);
                assert(old(self).edge(backing as int, h as int));
            }
            let _dropped = self.take_entry(h);
            let bentry = self.take_entry(backing);
            let ghost bviews_old = bentry.views@;
            proof {
                assert(bviews_old == old(self).entry(backing as int).views@);
                assert forall|k1: int, k2: int|
                    #![trigger bviews_old[k1], bviews_old[k2]]
                    0 <= k1 < k2 < bviews_old.len() implies bviews_old[k1] != bviews_old[k2] by {
                    assert(old(self).entry(backing as int).views@[k1] != old(self).entry(
                        backing as int,
                    ).views@[k2]);
                }
            }
            let mut new_views: Vec<usize> = Vec::new();
            let nv = bentry.views.len();
            let mut k: usize = 0;
            while k < nv
                invariant
                    0 <= k <= nv,
                    nv == bviews_old.len(),
                    bentry.views@ == bviews_old,
                    forall|k1: int, k2: int|
                        #![trigger bviews_old[k1], bviews_old[k2]]
                        0 <= k1 < k2 < nv ==> bviews_old[k1] != bviews_old[k2],
                    forall|j: int|
                        0 <= j < new_views@.len() ==> exists|j2: int|
                            0 <= j2 < k && bviews_old[j2] == #[trigger] new_views@[j]
                                && new_views@[j] != h,
                    forall|j2: int|
                        0 <= j2 < k && (#[trigger] bviews_old[j2]) != h ==> new_views@.contains(
                            bviews_old[j2],
                        ),
                    forall|j1: int, j2: int|
                        #![trigger new_views@[j1], new_views@[j2]]
                        0 <= j1 < j2 < new_views@.len() ==> new_views@[j1] != new_views@[j2],
                    new_views@.len() == (if bviews_old.take(k as int).contains(h) {
                        k - 1
                    } else {
                        k as int
                    }),
                decreases nv - k,
            {
                let w = bentry.views[k];
                proof {
                    assert(bviews_old.take(k + 1).drop_last() =~= bviews_old.take(k as int));
                    assert(bviews_old.take(k + 1).last() == bviews_old[k as int]);
                    if bviews_old.take(k as int).contains(h) {
                        let j0 = choose|j0: int|
                            0 <= j0 < k && bviews_old.take(k as int)[j0] == h;
                        assert(bviews_old[j0] == h);
                        assert(bviews_old.take(k + 1)[j0] == h);
                        if bviews_old[k as int] == h {
                            assert(false);
                        }
                    }
                    if bviews_old[k as int] == h {
                        assert(bviews_old.take(k + 1)[k as int] == h);
                    }
                }
                if w != h {
                    let ghost prev_views = new_views@;
                    proof {
                        if new_views@.contains(w) {
                            let j = choose|j: int|
                                0 <= j < new_views@.len() && new_views@[j] == w;
                            let j2 = choose|j2: int|
                                0 <= j2 < k && bviews_old[j2] == new_views@[j] && new_views@[j]
                                    != h;
                            assert(bviews_old[j2] == bviews_old[k as int]);
                            assert(false);
                        }
                    }
                    new_views.push(w);
                    proof {
                        assert forall|j2: int|
                            0 <= j2 < k + 1 && (#[trigger] bviews_old[j2])
                                != h implies new_views@.contains(bviews_old[j2]) by {
                            if j2 < k {
                                let jj = choose|jj: int|
                                    0 <= jj < prev_views.len() && prev_views[jj] == bviews_old[j2];
                                assert(new_views@[jj] == bviews_old[j2]);
                            } else {
                                assert(new_views@.last() == bviews_old[j2]);
                            }
                        }
                    }
                } else {
                    proof {
                        assert forall|j2: int|
                            0 <= j2 < k + 1 && (#[trigger] bviews_old[j2])
                                != h implies new_views@.contains(bviews_old[j2]) by {
                            if j2 < k {
                            }
                        }
                    }
                }
                k += 1;
            }
            proof {
                assert(bviews_old.take(nv as int) =~= bviews_old);
                assert(bviews_old.contains(h)) by {
                    let kk = choose|kk: int|
                        0 <= kk < bviews_old.len() && bviews_old[kk] == h as int;
                    assert(bviews_old[kk] == h);
                }
            }
            let brc = bentry.refcount;
            let bnv = new_views.len();
            if brc == 0 && bnv == 0 {
                // cascade: the backing array had no references and this was
                // its last view; its storage is deallocated now
                proof {
                    lemma_release_view_wf(old(self), self, h as int, backing as int, bviews_old);
                }
                Ok(())
            } else {
                self.slots.set(
                    backing,
                    Some(Entry { value: bentry.value, refcount: brc, views: new_views }),
                );
                proof {
                    assert(self.is_owned(backing as int));
                    assert(self.entry(backing as int).value == old(self).entry(
                        backing as int,
                    ).value);
                    lemma_release_view_keep_wf(
                        old(self),
                        self,
                        h as int,
                        backing as int,
                        bviews_old,
                    );
                }
                Ok(())
            }
        }
    }
}

/// Changing only refcounts preserves the graph invariants.
proof fn lemma_same_graph_wf(oldm: &MemoryManager, newm: &MemoryManager)
    requires
        oldm.wf(),
        newm.slots@.len() == oldm.slots@.len(),
        forall|h: int|
            0 <= h < oldm.slots@.len() ==> (oldm.live(h) <==> newm.live(h)),
        forall|h: int|
            #![trigger newm.entry(h)]
            0 <= h < oldm.slots@.len() && oldm.live(h) ==> newm.entry(h).value == oldm.entry(
                h,
            ).value && newm.entry(h).views@ == oldm.entry(h).views@,
    ensures
        newm.wf(),
{
    assert forall|h: int| #[trigger] newm.is_view(h) implies {
        let b = newm.view_of(h).backing as int;
        &&& newm.is_owned(b)
        &&& newm.view_of(h).desc.wf(newm.owned_of(b).elems().len() as int)
        &&& newm.edge(b, h)
        &&& newm.entry(h).views@.len() == 0
    } by {
        assert(oldm.is_view(h));
        let b = oldm.view_of(h).backing as int;
        assert(oldm.edge(b, h));
        let k = choose|k: int| 0 <= k < oldm.entry(b).views@.len() && oldm.entry(b).views@[k] == h;
        assert(newm.entry(b).views@[k] == h);
    }
    assert forall|h: int| #[trigger] newm.is_owned(h) implies newm.owned_of(h).wf() by {
        assert(oldm.is_owned(h));
    }
    assert forall|h: int, k: int|
        newm.is_owned(h) && 0 <= k < newm.entry(h).views@.len() implies {
        let w = #[trigger] newm.entry(h).views@[k] as int;
        &&& newm.is_view(w)
        &&& newm.view_of(w).backing == h
    } by {
        assert(oldm.is_owned(h));
        assert(oldm.entry(h).views@[k] == newm.entry(h).views@[k]);
    }
    assert forall|h: int, k1: int, k2: int|
        #![trigger newm.entry(h).views@[k1], newm.entry(h).views@[k2]]
        newm.is_owned(h) && 0 <= k1 < k2 < newm.entry(h).views@.len() implies newm.entry(
        h,
    ).views@[k1] != newm.entry(h).views@[k2] by {
        assert(oldm.is_owned(h));
        assert(oldm.entry(h).views@[k1] != oldm.entry(h).views@[k2]);
    }
}

/// Dropping an Owned entry that no view aliases preserves the invariants.
proof fn lemma_drop_owned_wf(oldm: &MemoryManager, newm: &MemoryManager, h: int)
    requires
        oldm.wf(),
        oldm.is_owned(h),
        oldm.entry(h).views@.len() == 0,
        newm.slots@ == oldm.slots@.update(h, None::<Entry>),
    ensures
        newm.wf(),
{
    assert forall|h2: int| #[trigger] newm.is_view(h2) implies {
        let b = newm.view_of(h2).backing as int;
        &&& newm.is_owned(b)
        &&& newm.view_of(h2).desc.wf(newm.owned_of(b).elems().len() as int)
        &&& newm.edge(b, h2)
        &&& newm.entry(h2).views@.len() == 0
    } by {
        assert(h2 != h);
        assert(oldm.is_view(h2));
        let b = oldm.view_of(h2).backing as int;
        assert(oldm.edge(b, h2));
        // the dropped entry has no views, so no view is backed by it
        assert(b != h) by {
            if b == h {
                let k = choose|k: int|
                    0 <= k < oldm.entry(b).views@.len() && oldm.entry(b).views@[k] == h2;
            }
        }
        let k = choose|k: int| 0 <= k < oldm.entry(b).views@.len() && oldm.entry(b).views@[k] == h2;
        assert(newm.entry(b).views@[k] == h2);
    }
    assert forall|h2: int| #[trigger] newm.is_owned(h2) implies newm.owned_of(h2).wf() by {
        assert(oldm.is_owned(h2));
    }
    assert forall|h2: int, k: int|
        newm.is_owned(h2) && 0 <= k < newm.entry(h2).views@.len() implies {
        let w = #[trigger] newm.entry(h2).views@[k] as int;
        &&& newm.is_view(w)
        &&& newm.view_of(w).backing == h2
    } by {
        assert(h2 != h);
        assert(oldm.is_owned(h2));
        assert(oldm.entry(h2).views@[k] == newm.entry(h2).views@[k]);
        let w = oldm.entry(h2).views@[k] as int;
        assert(oldm.is_view(w));
        assert(w != h);
    }
    assert forall|h2: int, k1: int, k2: int|
        #![trigger newm.entry(h2).views@[k1], newm.entry(h2).views@[k2]]
        newm.is_owned(h2) && 0 <= k1 < k2 < newm.entry(h2).views@.len() implies newm.entry(
        h2,
    ).views@[k1] != newm.entry(h2).views@[k2] by {
        assert(oldm.is_owned(h2));
        assert(oldm.entry(h2).views@[k1] != oldm.entry(h2).views@[k2]);
    }
}

/// What the view-removal loop established about the rebuilt views list.
pub open spec fn views_minus(newv: Seq<usize>, oldv: Seq<usize>, h: int) -> bool {
    &&& forall|j: int|
        0 <= j < newv.len() ==> exists|j2: int|
            0 <= j2 < oldv.len() && oldv[j2] == #[trigger] newv[j] && newv[j] != h
    &&& forall|j2: int|
        0 <= j2 < oldv.len() && (#[trigger] oldv[j2]) != h ==> newv.contains(oldv[j2])
    &&& forall|j1: int, j2: int|
        #![trigger newv[j1], newv[j2]]
        0 <= j1 < j2 < newv.len() ==> newv[j1] != newv[j2]
}

/// Dropping a View and the now-unreferenced, view-free Owned array behind it
/// preserves the invariants.
proof fn lemma_release_view_wf(
    oldm: &MemoryManager,
    newm: &MemoryManager,
    h: int,
    b: int,
    bviews_old: Seq<usize>,
)
    requires
        oldm.wf(),
        oldm.is_view(h),
        oldm.view_of(h).backing == b,
        bviews_old == oldm.entry(b).views@,
        bviews_old.len() == 1,
        newm.slots@ == oldm.slots@.update(h, None::<Entry>).update(b, None::<Entry>),
    ensures
        newm.wf(),
{
    assert(oldm.is_owned(b));
    assert forall|h2: int| #[trigger] newm.is_view(h2) implies {
        let b2 = newm.view_of(h2).backing as int;
        &&& newm.is_owned(b2)
        &&& newm.view_of(h2).desc.wf(newm.owned_of(b2).elems().len() as int)
        &&& newm.edge(b2, h2)
        &&& newm.entry(h2).views@.len() == 0
    } by {
        assert(h2 != h && h2 != b);
        assert(oldm.is_view(h2));
        let b2 = oldm.view_of(h2).backing as int;
        assert(oldm.edge(b2, h2));
        let k = choose|k: int|
            0 <= k < oldm.entry(b2).views@.len() && oldm.entry(b2).views@[k] == h2;
        // a second view of b would be a second element of its length-1 list
        assert(b2 != b) by {
            if b2 == b {
                assert(oldm.entry(b).views@[k] == h2);
                assert(oldm.edge(b, h));
                let k3 = choose|k3: int|
                    0 <= k3 < oldm.entry(b).views@.len() && oldm.entry(b).views@[k3] == h;
                assert(k == 0 && k3 == 0);
            }
        }
        assert(newm.entry(b2).views@[k] == h2);
    }
    assert forall|h2: int| #[trigger] newm.is_owned(h2) implies newm.owned_of(h2).wf() by {
        assert(oldm.is_owned(h2));
    }
    assert forall|h2: int, k: int|
        newm.is_owned(h2) && 0 <= k < newm.entry(h2).views@.len() implies {
        let w = #[trigger] newm.entry(h2).views@[k] as int;
        &&& newm.is_view(w)
        &&& newm.view_of(w).backing == h2
    } by {
        assert(h2 != h && h2 != b);
        assert(oldm.is_owned(h2));
        assert(oldm.entry(h2).views@[k] == newm.entry(h2).views@[k]);
        let w = oldm.entry(h2).views@[k] as int;
        assert(oldm.is_view(w));
        assert(oldm.view_of(w).backing == h2);
        assert(w != h);
        assert(w != b);
    }
    assert forall|h2: int, k1: int, k2: int|
        #![trigger newm.entry(h2).views@[k1], newm.entry(h2).views@[k2]]
        newm.is_owned(h2) && 0 <= k1 < k2 < newm.entry(h2).views@.len() implies newm.entry(
        h2,
    ).views@[k1] != newm.entry(h2).views@[k2] by {
        assert(oldm.is_owned(h2));
        assert(oldm.entry(h2).views@[k1] != oldm.entry(h2).views@[k2]);
    }
}

/// Dropping a View while its backing array stays preserves the invariants,
/// given the rebuilt views list of the backing.
proof fn lemma_release_view_keep_wf(
    oldm: &MemoryManager,
    newm: &MemoryManager,
    h: int,
    b: int,
    bviews_old: Seq<usize>,
)
    requires
        oldm.wf(),
        oldm.is_view(h),
        oldm.view_of(h).backing == b,
        bviews_old == oldm.entry(b).views@,
        newm.slots@.len() == oldm.slots@.len(),
        !newm.live(h),
        newm.is_owned(b),
        newm.entry(b).value == oldm.entry(b).value,
        views_minus(newm.entry(b).views@, bviews_old, h),
        forall|h2: int|
            0 <= h2 < oldm.slots@.len() && h2 != h && h2 != b ==> newm.slots@[h2]
                == oldm.slots@[h2],
    ensures
        newm.wf(),
{
    assert(oldm.is_owned(b));
    assert forall|h2: int| #[trigger] newm.is_view(h2) implies {
        let b2 = newm.view_of(h2).backing as int;
        &&& newm.is_owned(b2)
        &&& newm.view_of(h2).desc.wf(newm.owned_of(b2).elems().len() as int)
        &&& newm.edge(b2, h2)
        &&& newm.entry(h2).views@.len() == 0
    } by {
        assert(h2 != h);
        assert(h2 != b);
        assert(oldm.is_view(h2));
        let b2 = oldm.view_of(h2).backing as int;
        assert(oldm.edge(b2, h2));
        let k = choose|k: int|
            0 <= k < oldm.entry(b2).views@.len() && oldm.entry(b2).views@[k] == h2;
        if b2 == b {
            assert(bviews_old[k] == h2);
            assert(h2 != h);
            assert(newm.entry(b).views@.contains(bviews_old[k]));
            let k2 = choose|k2: int|
                0 <= k2 < newm.entry(b).views@.len() && newm.entry(b).views@[k2] == bviews_old[k];
            assert(newm.edge(b, h2));
        } else {
            assert(newm.entry(b2).views@[k] == h2);
        }
    }
    assert forall|h2: int| #[trigger] newm.is_owned(h2) implies newm.owned_of(h2).wf() by {
        if h2 != b {
            assert(oldm.is_owned(h2));
        }
    }
    assert forall|h2: int, k: int|
        newm.is_owned(h2) && 0 <= k < newm.entry(h2).views@.len() implies {
        let w = #[trigger] newm.entry(h2).views@[k] as int;
        &&& newm.is_view(w)
        &&& newm.view_of(w).backing == h2
    } by {
        if h2 == b {
            let w = newm.entry(b).views@[k];
            let j2 = choose|j2: int|
                0 <= j2 < bviews_old.len() && bviews_old[j2] == w && w != h;
            assert(oldm.entry(b).views@[j2] == w);
            assert(oldm.is_view(w as int));
            assert(oldm.view_of(w as int).backing == b);
            assert(w as int != h && w as int != b);
        } else {
            assert(oldm.is_owned(h2));
            assert(oldm.entry(h2).views@[k] == newm.entry(h2).views@[k]);
            let w = oldm.entry(h2).views@[k] as int;
            assert(oldm.is_view(w));
            assert(oldm.view_of(w).backing == h2);
            assert(w != h);
            assert(w != b) by {
                if w == b {
                    assert(oldm.is_owned(b));
                }
            }
        }
    }
    assert forall|h2: int, k1: int, k2: int|
        #![trigger newm.entry(h2).views@[k1], newm.entry(h2).views@[k2]]
        newm.is_owned(h2) && 0 <= k1 < k2 < newm.entry(h2).views@.len() implies newm.entry(
        h2,
    ).views@[k1] != newm.entry(h2).views@[k2] by {
        if h2 != b {
            assert(oldm.is_owned(h2));
            assert(oldm.entry(h2).views@[k1] != oldm.entry(h2).views@[k2]);
        }
    }
}

/// Clones a vector of handles.
fn clone_usize_vec(v: &Vec<usize>) -> (r: Vec<usize>)
    ensures
        r@ == v@,
{
    let mut r: Vec<usize> = Vec::new();
    let n = v.len();
    let mut i: usize = 0;
    while i < n
        invariant
            0 <= i <= n,
            n == v@.len(),
            r@.len() == i,
            forall|k: int| 0 <= k < i ==> r@[k] == v@[k],
        decreases n - i,
    {
        r.push(v[i]);
        i += 1;
    }
    proof {
        assert(r@ =~= v@);
    }
    r
}

/// Rebuilds the Owned value of an entry, element for element.
fn copy_owned_value(e: &Entry) -> (r: NDArray)
    requires
        e.value is Owned,
        e.value->Owned_0.wf(),
    ensures
        r is Owned,
        r->Owned_0.wf(),
        r->Owned_0.tp() == e.value->Owned_0.tp(),
        r->Owned_0.shape@ == e.value->Owned_0.shape@,
        r->Owned_0.elems() =~= e.value->Owned_0.elems(),
    // a fresh deep copy: the registry never shares buffers between entries
{
    match &e.value {
        NDArray::Owned(a) => NDArray::Owned(a.copy()),
        NDArray::View(_) => {
            proof {
                assert(false);
            }
            NDArray::Owned(NDArrayOwned::new(NDArrayType::Int, Vec::new()))
        },
    }
}

/// Pushing a fresh slot or rewriting nothing keeps well-formedness: all old
/// entries are untouched and the new entry is a view-free Owned array.
proof fn lemma_frame_wf(oldm: &MemoryManager, newm: &MemoryManager)
    requires
        oldm.wf(),
        newm.slots@.len() == oldm.slots@.len() + 1,
        forall|h: int| 0 <= h < oldm.slots@.len() ==> newm.slots@[h] == oldm.slots@[h],
        newm.slots@.last() is Some,
        newm.entry(oldm.slots@.len() as int).value is Owned,
        newm.entry(oldm.slots@.len() as int).value->Owned_0.wf(),
        newm.entry(oldm.slots@.len() as int).views@.len() == 0,
    ensures
        newm.wf(),
{
    let fresh = oldm.slots@.len() as int;
    assert forall|h: int| #[trigger] newm.is_view(h) implies {
        let b = newm.view_of(h).backing as int;
        &&& newm.is_owned(b)
        &&& newm.view_of(h).desc.wf(newm.owned_of(b).elems().len() as int)
        &&& newm.edge(b, h)
        &&& newm.entry(h).views@.len() == 0
    } by {
        assert(h != fresh);
        assert(oldm.is_view(h));
        let b = oldm.view_of(h).backing as int;
        assert(oldm.edge(b, h));
        let k = choose|k: int| 0 <= k < oldm.entry(b).views@.len() && oldm.entry(b).views@[k] == h;
        assert(newm.entry(b).views@[k] == h);
    }
    assert forall|h: int| #[trigger] newm.is_owned(h) implies newm.owned_of(h).wf() by {
        if h != fresh {
            assert(oldm.is_owned(h));
        }
    }
    assert forall|h: int, k: int|
        newm.is_owned(h) && 0 <= k < newm.entry(h).views@.len() implies {
        let w = #[trigger] newm.entry(h).views@[k] as int;
        &&& newm.is_view(w)
        &&& newm.view_of(w).backing == h
    } by {
        if h != fresh {
            assert(oldm.is_owned(h));
            assert(oldm.entry(h).views@[k] == newm.entry(h).views@[k]);
        }
    }
    assert forall|h: int, k1: int, k2: int|
        #![trigger newm.entry(h).views@[k1], newm.entry(h).views@[k2]]
        newm.is_owned(h) && 0 <= k1 < k2 < newm.entry(h).views@.len() implies newm.entry(
        h,
    ).views@[k1] != newm.entry(h).views@[k2] by {
        if h != fresh {
            assert(oldm.is_owned(h));
            assert(oldm.entry(h).views@[k1] != oldm.entry(h).views@[k2]);
        }
    }
}

} // verus!
