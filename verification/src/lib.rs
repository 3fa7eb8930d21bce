//! A map-like container that assigns a stable, copyable integer handle to
//! each stored value and reuses the handles of removed entries.
//!
//! Values are inserted with [`HandleBox::add`], which returns a fresh
//! [`Handle`], and are looked up, mutated and removed through that handle.
//! Handles freed by [`HandleBox::remove`] are kept in a discard pool and
//! reused in last-freed-first order; when the pool is empty, the next handle
//! equals the current number of live entries. Under this discipline no two
//! live entries ever share a handle.

use std::collections::BTreeMap;
use vstd::prelude::*;

verus! {

/// The keys used in a `HandleBox`. A typedef for `u32`.
pub type Handle = u32;

/// A map-like collection that reuses the keys of removed entries.
pub struct HandleBox<V> {
    /// The backing map from handle to value, exposed read-only in spirit:
    /// callers may iterate and inspect it, but must never remove entries from
    /// it directly, or the freed handles can never be reused. All deletions
    /// must go through `HandleBox::remove`.
    pub map: BTreeMap<Handle, V>,
    /// Handles that were issued and later vacated, in removal order; the most
    /// recently freed handle is reused first.
    discarded_handles: Vec<Handle>,
}

impl<V> HandleBox<V> {
    /// The live entries: the current contents of the backing map.
    pub closed spec fn live(self) -> Map<Handle, V> {
        self.map@
    }

    /// The discard pool: handles freed by removal, in removal order.
    pub closed spec fn discarded(self) -> Seq<Handle> {
        self.discarded_handles@
    }

    /// How many distinct handles have been issued so far: every issued handle
    /// is either live or sitting in the discard pool.
    pub open spec fn issued(self) -> int {
        self.live().len() + self.discarded().len() as int
    }

    /// The handle-allocation invariant. Established by `new` and preserved by
    /// every method; a caller who deletes entries from `map` directly voids
    /// it, and with it the reuse guarantee.
    ///
    /// The issued handles are exactly `0 .. issued()`, each one either a live
    /// key or a pool entry but never both, and the pool holds no duplicates.
    pub open spec fn wf(self) -> bool {
        &&& self.discarded().no_duplicates()
        &&& (forall|i: int|
            0 <= i < self.discarded().len() ==> !self.live().contains_key(
                #[trigger] self.discarded()[i],
            ))
        &&& (forall|h: Handle|
            #![trigger self.live().contains_key(h)]
            #![trigger self.discarded().contains(h)]
            self.live().contains_key(h) || self.discarded().contains(h) <==> (h as int)
                < self.issued())
    }

    /// The handle the next insertion will assign: the most recently freed
    /// handle if the discard pool is non-empty, else the current live count.
    pub open spec fn next_handle(self) -> Handle {
        if self.discarded().len() > 0 {
            self.discarded().last()
        } else {
            self.live().len() as Handle
        }
    }

    /// Create an empty `HandleBox`.
    pub fn new() -> (b: HandleBox<V>)
        ensures
            b.wf(),
            b.live() == Map::<Handle, V>::empty(),
            b.live().len() == 0,
            b.discarded() == Seq::<Handle>::empty(),
    {
        proof {
            assert(Map::<Handle, V>::empty().dom() =~= Set::<Handle>::empty());
        }
        HandleBox { map: BTreeMap::new(), discarded_handles: Vec::new() }
    }

    /// Pick the handle for the next insertion: pop the most recently freed
    /// handle from the discard pool, or mint a fresh one equal to the live
    /// count when the pool is empty. The result is never a live key.
    fn new_handle(&mut self) -> (h: Handle)
        requires
            old(self).wf(),
            old(self).discarded().len() == 0 ==> old(self).live().len() < 0x1_0000_0000,
        ensures
            h == old(self).next_handle(),
            !old(self).live().contains_key(h),
            final(self).live() == old(self).live(),
            old(self).discarded().len() > 0 ==> final(self).discarded() == old(
                self,
            ).discarded().drop_last(),
            old(self).discarded().len() == 0 ==> final(self).discarded() == old(self).discarded(),
    {
        proof {
            lemma_next_handle_fresh(*old(self));
        }
        match self.discarded_handles.pop() {
            Some(h) => h,
            None => self.map.len() as Handle,
        }
    }

    /// Add a new value to the `HandleBox`. An associated `Handle` for this
    /// value is automatically created and returned; it was not live before
    /// the call. Duplicate insertions are possible: inserting equal values
    /// twice yields two independent entries under distinct handles.
    ///
    /// The handle is the most recently freed one if any handle is free, else
    /// the previous live count; the precondition only rules out exhausting
    /// the `u32` handle space.
    pub fn add(&mut self, value: V) -> (h: Handle)
        requires
            old(self).wf(),
            old(self).discarded().len() == 0 ==> old(self).live().len() < 0x1_0000_0000,
        ensures
            final(self).wf(),
            h == old(self).next_handle(),
            !old(self).live().contains_key(h),
            final(self).live() == old(self).live().insert(h, value),
            old(self).discarded().len() > 0 ==> final(self).discarded() == old(
                self,
            ).discarded().drop_last(),
            old(self).discarded().len() == 0 ==> final(self).discarded() == old(self).discarded(),
    {
        let h = self.new_handle();
        self.map.insert(h, value);
        proof {
            lemma_add_preserves_wf(*old(self), *self, h, value);
        }
        h
    }

    /// Remove the value associated with this `Handle`. If the handle is live,
    /// its entry is deleted, the handle is pushed onto the discard pool, and
    /// the value is returned. If not, nothing changes and `None` is returned;
    /// in particular a second removal of the same handle is a no-op.
    pub fn remove(&mut self, handle: &Handle) -> (r: Option<V>)
        requires
            old(self).wf(),
        ensures
            final(self).wf(),
            old(self).live().contains_key(*handle) ==> {
                &&& r == Some(old(self).live()[*handle])
                &&& final(self).live() == old(self).live().remove(*handle)
                &&& final(self).discarded() == old(self).discarded().push(*handle)
            },
            !old(self).live().contains_key(*handle) ==> {
                &&& r is None
                &&& final(self).live() == old(self).live()
                &&& final(self).discarded() == old(self).discarded()
            },
    {
        let result = self.map.remove(handle);
        if result.is_some() {
            self.discarded_handles.push(*handle);
            proof {
                lemma_remove_preserves_wf(*old(self), *self, *handle);
            }
        } else {
            proof {
                assert(self.map@ =~= old(self).map@);
                assert((*self).live() == old(self).live());
                assert((*self).discarded() == old(self).discarded());
            }
        }
        result
    }

    /// Get a shared reference to the value with this `Handle`, or `None` if
    /// the handle is not live.
    pub fn get(&self, handle: &Handle) -> (r: Option<&V>)
        ensures
            match r {
                Some(v) => self.live().contains_key(*handle) && *v == self.live()[*handle],
                None => !self.live().contains_key(*handle),
            },
    {
        self.map.get(handle)
    }

    /// Get a mutable reference to the value with this `Handle`, or `None` if
    /// the handle is not live. The caller may mutate the referenced value in
    /// place; doing so changes neither the set of live handles nor the
    /// discard pool, so the handle stays valid.
    pub fn get_mut(&mut self, handle: &Handle) -> (r: Option<&mut V>)
        ensures
            old(self).live().contains_key(*handle) ==> {
                &&& r is Some
                &&& *r.unwrap() == old(self).live()[*handle]
                &&& final(self).live() == old(self).live().insert(*handle, *final(r.unwrap()))
                &&& final(self).discarded() == old(self).discarded()
            },
            !old(self).live().contains_key(*handle) ==> {
                &&& r is None
                &&& final(self).live() == old(self).live()
                &&& final(self).discarded() == old(self).discarded()
            },
            old(self).wf() ==> final(self).wf(),
    {
        proof {
            assert forall|pre: HandleBox<V>, post: HandleBox<V>, h: Handle, v: V|
                #![trigger post.live(), pre.live().insert(h, v)]
                pre.wf() && pre.live().contains_key(h) && post.live() == pre.live().insert(h, v)
                    && post.discarded() == pre.discarded() implies post.wf() by {
                lemma_value_update_preserves_wf(pre, post, h, v);
            }
            assert forall|pre: HandleBox<V>, post: HandleBox<V>|
                #![trigger post.live(), pre.wf()]
                pre.wf() && post.live() == pre.live() && post.discarded() == pre.discarded()
                    implies post.wf() by {
                assert(post.issued() == pre.issued());
            }
        }
        map_get_mut(&mut self.map, *handle)
    }
}

impl<V> Default for HandleBox<V> {
    /// An empty `HandleBox`, the same as `HandleBox::new()`.
    fn default() -> (b: Self)
        ensures
            b.wf(),
            b.live() == Map::<Handle, V>::empty(),
            b.live().len() == 0,
            b.discarded() == Seq::<Handle>::empty(),
    {
        HandleBox::new()
    }
}

/// Relies on `BTreeMap::get_mut`: it returns a mutable reference to the value
/// at the given key, or `None` when the key is absent, and in either case
/// leaves every entry of the map in place.
#[verifier::external_body]
fn map_get_mut<'a, V>(m: &'a mut BTreeMap<Handle, V>, handle: Handle) -> (r: Option<&'a mut V>)
    ensures
        old(m)@.contains_key(handle) ==> {
            &&& r is Some
            &&& *r.unwrap() == old(m)@[handle]
            &&& final(m)@ == old(m)@.insert(handle, *final(r.unwrap()))
        },
        !old(m)@.contains_key(handle) ==> r is None && final(m)@ == old(m)@,
{
    m.get_mut(&handle)
}

/// The handle an insertion will assign is never one that is already live:
/// since every live entry was keyed this way, no two live entries ever share
/// a handle. The precondition only rules out exhausting the `u32` handle
/// space.
pub proof fn lemma_next_handle_fresh<V>(b: HandleBox<V>)
    requires
        b.wf(),
        b.discarded().len() == 0 ==> b.live().len() < 0x1_0000_0000,
    ensures
        !b.live().contains_key(b.next_handle()),
{
    if b.discarded().len() > 0 {
        assert(!b.live().contains_key(b.discarded()[b.discarded().len() - 1]));
    } else {
        let h = b.next_handle();
        assert(h as int == b.live().len());
        if b.live().contains_key(h) {
            assert((h as int) < b.issued());
        }
    }
}

/// An insertion under the stated handle policy preserves the allocation
/// invariant: the handle moves from the discard pool (or from the fresh
/// range) into the live keys, so the issued handles stay exactly
/// `0 .. issued()`.
proof fn lemma_add_preserves_wf<V>(pre: HandleBox<V>, post: HandleBox<V>, h: Handle, value: V)
    requires
        pre.wf(),
        pre.discarded().len() == 0 ==> pre.live().len() < 0x1_0000_0000,
        h == pre.next_handle(),
        post.live() == pre.live().insert(h, value),
        pre.discarded().len() > 0 ==> post.discarded() == pre.discarded().drop_last(),
        pre.discarded().len() == 0 ==> post.discarded() == pre.discarded(),
    ensures
        post.wf(),
{
    lemma_next_handle_fresh(pre);
    assert(pre.map@.dom().finite());
    assert(post.live().len() == pre.live().len() + 1);
    if pre.discarded().len() > 0 {
        let n = pre.discarded().len() - 1;
        assert(pre.discarded().contains(pre.discarded()[n]));
        assert forall|g: Handle| #[trigger] post.discarded().contains(g) implies pre.discarded().contains(g) && g != h by {
            let i = choose|i: int| 0 <= i < post.discarded().len() && post.discarded()[i] == g;
            assert(pre.discarded()[i] == g);
        }
        assert forall|g: Handle| post.live().contains_key(g) || post.discarded().contains(g) implies (g as int) < post.issued() by {
            if g == h || pre.live().contains_key(g) || pre.discarded().contains(g) {
                assert((g as int) < pre.issued());
            }
        }
        assert forall|g: Handle| (g as int) < post.issued() implies post.live().contains_key(g) || post.discarded().contains(g) by {
            assert((g as int) < pre.issued());
            if pre.discarded().contains(g) {
                let i = choose|i: int| 0 <= i < pre.discarded().len() && pre.discarded()[i] == g;
                if i == n {
                    assert(g == h);
                } else {
                    assert(post.discarded()[i] == g);
                    assert(post.discarded().contains(g));
                }
            }
        }
    } else {
        assert(post.discarded() == pre.discarded());
        assert forall|g: Handle| post.live().contains_key(g) || post.discarded().contains(g) implies (g as int) < post.issued() by {
            if g != h {
                assert((g as int) < pre.issued());
            } else {
                assert(g as int == pre.live().len());
            }
        }
        assert forall|g: Handle| (g as int) < post.issued() implies post.live().contains_key(g) || post.discarded().contains(g) by {
            if (g as int) < pre.issued() {
                assert(pre.live().contains_key(g) || pre.discarded().contains(g));
            } else {
                assert(g as int == pre.live().len());
                assert(g == h);
            }
        }
    }
}

/// Overwriting the value of a live entry in place preserves the allocation
/// invariant: mutation through `get_mut` changes neither the set of live
/// handles nor the discard pool, so it never disturbs handle reuse.
pub proof fn lemma_value_update_preserves_wf<V>(
    pre: HandleBox<V>,
    post: HandleBox<V>,
    h: Handle,
    v: V,
)
    requires
        pre.wf(),
        pre.live().contains_key(h),
        post.live() == pre.live().insert(h, v),
        post.discarded() == pre.discarded(),
    ensures
        post.wf(),
{
    assert(pre.map@.dom().finite());
    assert(post.live().len() == pre.live().len());
    assert forall|i: int| 0 <= i < post.discarded().len() implies !post.live().contains_key(
        post.discarded()[i],
    ) by {
        assert(!pre.live().contains_key(pre.discarded()[i]));
    }
    assert forall|g: Handle| post.live().contains_key(g) || post.discarded().contains(g) implies (
    g as int) < post.issued() by {
        if post.live().contains_key(g) && g != h {
            assert(pre.live().contains_key(g));
        }
        assert((g as int) < pre.issued());
    }
    assert forall|g: Handle| (g as int) < post.issued() implies post.live().contains_key(g)
        || post.discarded().contains(g) by {
        assert(pre.live().contains_key(g) || pre.discarded().contains(g));
    }
}

/// A successful removal preserves the allocation invariant: the removed
/// handle moves from the live keys onto the discard pool, and nothing else
/// changes.
proof fn lemma_remove_preserves_wf<V>(pre: HandleBox<V>, post: HandleBox<V>, h: Handle)
    requires
        pre.wf(),
        pre.live().contains_key(h),
        post.live() == pre.live().remove(h),
        post.discarded() == pre.discarded().push(h),
    ensures
        post.wf(),
{
    assert(pre.map@.dom().finite());
    assert(post.live().len() == pre.live().len() - 1);
    assert forall|i: int| 0 <= i < pre.discarded().len() implies pre.discarded()[i] != h by {
        assert(!pre.live().contains_key(pre.discarded()[i]));
    }
    assert(post.discarded().no_duplicates());
    assert forall|i: int| 0 <= i < post.discarded().len() implies !post.live().contains_key(
        post.discarded()[i],
    ) by {
        if i < pre.discarded().len() {
            assert(!pre.live().contains_key(pre.discarded()[i]));
        }
    }
    assert forall|g: Handle| post.live().contains_key(g) || post.discarded().contains(g) implies (
    g as int) < post.issued() by {
        broadcast use vstd::seq_lib::lemma_seq_contains_after_push;

        assert((g as int) < pre.issued());
    }
    assert forall|g: Handle| (g as int) < post.issued() implies post.live().contains_key(g)
        || post.discarded().contains(g) by {
        broadcast use vstd::seq_lib::lemma_seq_contains_after_push;

        assert(pre.live().contains_key(g) || pre.discarded().contains(g));
    }
}

/// Round trip: immediately after an insertion of `v` that returned handle
/// `h` (per `add`, the new live entries are the old ones plus `h -> v`),
/// looking `h` up yields exactly `v`.
pub proof fn lemma_round_trip<V>(pre: HandleBox<V>, post: HandleBox<V>, h: Handle, v: V)
    requires
        post.live() == pre.live().insert(h, v),
    ensures
        post.live().contains_key(h),
        post.live()[h] == v,
{
}

/// Removal clears liveness: once a removal has succeeded (per `remove`, the
/// new live entries are the old ones without `h`), the handle is no longer
/// live, so `get` and `get_mut` signal absence and a second `remove` is a
/// no-op.
pub proof fn lemma_removal_clears_liveness<V>(pre: HandleBox<V>, post: HandleBox<V>, h: Handle)
    requires
        post.live() == pre.live().remove(h),
    ensures
        !post.live().contains_key(h),
{
}

/// Stack-ordered reuse: `b1` is the container after a removal freed `h1`,
/// `b2` the same container after a second removal freed `h2`, and `b3` the
/// container after one insertion (per the discard-pool clauses of `remove`
/// and `add`). Then that insertion reused `h2`, and the next one reuses `h1`:
/// the most recently freed handle is always reused first.
pub proof fn lemma_reuse_stack_order<V>(
    b0: HandleBox<V>,
    b1: HandleBox<V>,
    b2: HandleBox<V>,
    b3: HandleBox<V>,
    h1: Handle,
    h2: Handle,
)
    requires
        b1.discarded() == b0.discarded().push(h1),
        b2.discarded() == b1.discarded().push(h2),
        b3.discarded() == b2.discarded().drop_last(),
    ensures
        b2.next_handle() == h2,
        b3.discarded() == b1.discarded(),
        b3.next_handle() == h1,
{
    assert(b2.discarded().drop_last() =~= b1.discarded());
}

/// Fresh growth: starting from an empty container, insertions with no
/// intervening removals are assigned the dense handles 0, 1, 2, ...; in
/// particular three of them receive three distinct handles.
pub proof fn lemma_fresh_growth<V>(
    b0: HandleBox<V>,
    b1: HandleBox<V>,
    b2: HandleBox<V>,
    v0: V,
    v1: V,
)
    requires
        b0.live() == Map::<Handle, V>::empty(),
        b0.discarded() == Seq::<Handle>::empty(),
        b1.live() == b0.live().insert(b0.next_handle(), v0),
        b1.discarded() == b0.discarded(),
        b2.live() == b1.live().insert(b1.next_handle(), v1),
        b2.discarded() == b1.discarded(),
    ensures
        b0.next_handle() == 0,
        b1.next_handle() == 1,
        b2.next_handle() == 2,
{
    assert(b0.live().dom() =~= Set::<Handle>::empty());
    assert(b0.live().len() == 0);
    assert(b1.live().len() == 1);
    assert(b2.live().len() == 2);
}

} // verus!
