//! The frame arena: a growable table of slots, each holding an immutable
//! frame together with its reference count, plus a free list of reclaimable
//! slot indices.
//!
//! The arena carries two pieces of ghost state that make the manual
//! reference-counting discipline provable:
//! - `handles`: the multiset of reference units currently owned by stack
//!   handles (one unit per non-empty handle; a leaked handle keeps its unit).
//! - `depths`: a depth for every slot; a live frame's back-link always points
//!   to a slot of strictly smaller depth, which makes every chain acyclic.
//!
//! The central invariant (`counts_ok`) states that every slot's reference
//! count equals the number of handle units on it plus the number of live
//! frames whose back-link points to it.

use vstd::multiset::Multiset;
use vstd::prelude::*;

verus! {

broadcast use vstd::multiset::group_multiset_axioms;

/// The closed set of data-kind tags a frame can carry.
#[derive(Clone, Copy, Debug, PartialEq, Eq, Structural)]
pub enum DataType {
    Int,
    Ptr,
    Bool,
}

/// A stable slot index; index identity is the only handle to a frame.
pub type FrameIndex = usize;

/// One immutable stack element: a payload tag plus an optional back-link to
/// the previous frame of the same logical stack.
#[derive(Clone, Copy, Debug, PartialEq, Eq)]
pub struct Frame {
    pub data_type: DataType,
    pub previous: Option<FrameIndex>,
}

/// The arena. `frames[i]` is the pair (frame, reference count) stored in
/// slot `i`; `free` lists the indices whose count has dropped to zero and
/// that are available for reuse.
pub struct FrameAtor {
    pub frames: Vec<(Frame, usize)>,
    pub free: Vec<FrameIndex>,
    /// Ghost: reference units owned by stack handles (not by back-links).
    pub handles: Ghost<Multiset<FrameIndex>>,
    /// Ghost: a depth per slot; back-links strictly decrease it.
    pub depths: Ghost<Seq<nat>>,
}

/// How many link units one slot contributes to the count of `target`:
/// one if the slot is live and its frame's back-link is `target`.
pub open spec fn slot_links(slot: (Frame, usize), target: FrameIndex) -> nat {
    if slot.1 >= 1 && slot.0.previous == Some(target) {
        1nat
    } else {
        0nat
    }
}

/// Number of live frames among the first `n` slots whose back-link is `target`.
pub open spec fn links_up_to(slots: Seq<(Frame, usize)>, target: FrameIndex, n: int) -> nat
    decreases n,
{
    if n <= 0 {
        0nat
    } else {
        links_up_to(slots, target, n - 1) + slot_links(slots[n - 1], target)
    }
}

impl FrameAtor {
    /// The multiset of reference units owned by stack handles.
    pub open spec fn units(self) -> Multiset<FrameIndex> {
        self.handles@
    }

    /// Slot `i` holds live data: it is in bounds and its count is positive.
    pub open spec fn live(self, i: int) -> bool {
        0 <= i < self.frames@.len() && self.frames@[i].1 >= 1
    }

    /// Number of live frames whose back-link points to `target`.
    pub open spec fn links_to(self, target: FrameIndex) -> nat {
        links_up_to(self.frames@, target, self.frames@.len() as int)
    }

    /// Back-links of live frames point to live slots of strictly smaller depth.
    pub open spec fn links_ok(self) -> bool {
        &&& self.depths@.len() == self.frames@.len()
        &&& forall|i: int|
            self.live(i) && (#[trigger] self.frames@[i]).0.previous is Some ==> {
                let p = self.frames@[i].0.previous.unwrap() as int;
                &&& p < self.frames@.len()
                &&& self.frames@[p].1 >= 1
                &&& self.depths@[p] < self.depths@[i]
            }
    }

    /// The free list holds exactly the in-bounds indices whose count is zero,
    /// each at most once.
    pub open spec fn free_ok(self) -> bool {
        &&& forall|k: int|
            0 <= k < self.free@.len() ==> (#[trigger] self.free@[k]) < self.frames@.len()
        &&& forall|k1: int, k2: int|
            0 <= k1 < k2 < self.free@.len() ==> self.free@[k1] != self.free@[k2]
        &&& forall|i: int|
            0 <= i < self.frames@.len() ==> ((#[trigger] self.frames@[i]).1 == 0 <==> self.free@.contains(
                i as FrameIndex,
            ))
    }

    /// Every slot's count equals the handle units on it plus the live
    /// back-links to it, and handle units only rest on in-bounds slots.
    pub open spec fn counts_ok(self) -> bool {
        &&& forall|i: int|
            0 <= i < self.frames@.len() ==> (#[trigger] self.frames@[i]).1 == self.units().count(
                i as FrameIndex,
            ) + self.links_to(i as FrameIndex)
        &&& forall|u: FrameIndex| #[trigger] self.units().count(u) > 0 ==> u < self.frames@.len()
    }

    /// The arena's well-formedness invariant.
    pub open spec fn wf(self) -> bool {
        &&& self.links_ok()
        &&& self.free_ok()
        &&& self.counts_ok()
    }

    /// Room for one more reference unit without overflowing any count.
    pub open spec fn headroom(self) -> bool {
        self.units().len() + self.frames@.len() < usize::MAX
    }

    /// Termination measure for walking a chain from an optional top index.
    pub open spec fn opt_depth(self, top: Option<FrameIndex>) -> nat {
        match top {
            Some(i) => self.depths@[i as int] + 1,
            None => 0nat,
        }
    }

    /// The top-to-bottom sequence of data-kind tags of the chain starting at
    /// `top` and following back-links until the bottom.
    pub open spec fn chain_from(self, top: Option<FrameIndex>) -> Seq<DataType>
        decreases self.opt_depth(top),
        when self.links_ok() && (top matches Some(i) ==> self.live(i as int))
    {
        match top {
            None => Seq::empty(),
            Some(i) => seq![self.frames@[i as int].0.data_type] + self.chain_from(
                self.frames@[i as int].0.previous,
            ),
        }
    }
}

/// `links_up_to` counts at most one unit per slot.
pub proof fn lemma_links_up_to_le(slots: Seq<(Frame, usize)>, target: FrameIndex, n: int)
    requires
        0 <= n <= slots.len(),
    ensures
        links_up_to(slots, target, n) <= n,
    decreases n,
{
    if n > 0 {
        lemma_links_up_to_le(slots, target, n - 1);
    }
}

/// `links_up_to` depends only on the first `n` slots.
pub proof fn lemma_links_up_to_agree(
    s1: Seq<(Frame, usize)>,
    s2: Seq<(Frame, usize)>,
    target: FrameIndex,
    n: int,
)
    requires
        n <= s1.len(),
        n <= s2.len(),
        forall|j: int| 0 <= j < n ==> s1[j] == s2[j],
    ensures
        links_up_to(s1, target, n) == links_up_to(s2, target, n),
    decreases n,
{
    if n > 0 {
        lemma_links_up_to_agree(s1, s2, target, n - 1);
    }
}

/// Changing the slot at `k` changes the link count by exactly the change in
/// that slot's own contribution.
pub proof fn lemma_links_up_to_update(
    slots: Seq<(Frame, usize)>,
    target: FrameIndex,
    k: int,
    x: (Frame, usize),
    n: int,
)
    requires
        0 <= k < n <= slots.len(),
    ensures
        links_up_to(slots.update(k, x), target, n) + slot_links(slots[k], target) == links_up_to(
            slots,
            target,
            n,
        ) + slot_links(x, target),
    decreases n,
{
    if n - 1 == k {
        lemma_links_up_to_agree(slots.update(k, x), slots, target, n - 1);
    } else {
        lemma_links_up_to_update(slots, target, k, x, n - 1);
    }
}

/// Appending a slot leaves the link counts of the existing prefix unchanged
/// and adds the new slot's contribution at the end.
pub proof fn lemma_links_up_to_push(slots: Seq<(Frame, usize)>, target: FrameIndex, x: (Frame, usize))
    ensures
        links_up_to(slots.push(x), target, slots.len() as int + 1) == links_up_to(
            slots,
            target,
            slots.len() as int,
        ) + slot_links(x, target),
{
    lemma_links_up_to_agree(slots.push(x), slots, target, slots.len() as int);
}

/// A single linking slot makes the link count positive.
pub proof fn lemma_links_positive(slots: Seq<(Frame, usize)>, target: FrameIndex, j: int, n: int)
    requires
        0 <= j < n,
        slot_links(slots[j], target) == 1,
    ensures
        links_up_to(slots, target, n) >= 1,
    decreases n,
{
    if j < n - 1 {
        lemma_links_positive(slots, target, j, n - 1);
    }
}

/// Chains only read the payloads, back-links and depths of live slots, so any
/// change that keeps every pre-live slot live and untouched keeps every chain
/// rooted in a pre-live slot (growth direction: allocation, acquire).
pub proof fn lemma_chain_grow(pre: FrameAtor, post: FrameAtor, top: Option<FrameIndex>)
    requires
        pre.links_ok(),
        post.links_ok(),
        top matches Some(i) ==> pre.live(i as int),
        forall|j: int|
            pre.live(j) ==> post.live(j) && post.frames@[j].0 == pre.frames@[j].0
                && post.depths@[j] == pre.depths@[j],
    ensures
        post.chain_from(top) == pre.chain_from(top),
    decreases pre.opt_depth(top),
{
    match top {
        None => {},
        Some(i) => {
            lemma_chain_grow(pre, post, pre.frames@[i as int].0.previous);
        },
    }
}

/// The shrink direction (release): any change that leaves every post-live
/// slot equal to its pre state keeps every chain rooted in a post-live slot.
pub proof fn lemma_chain_shrink(pre: FrameAtor, post: FrameAtor, top: Option<FrameIndex>)
    requires
        pre.links_ok(),
        post.links_ok(),
        top matches Some(i) ==> post.live(i as int),
        forall|j: int|
            post.live(j) ==> pre.live(j) && post.frames@[j].0 == pre.frames@[j].0
                && post.depths@[j] == pre.depths@[j],
    ensures
        post.chain_from(top) == pre.chain_from(top),
    decreases post.opt_depth(top),
{
    match top {
        None => {},
        Some(i) => {
            lemma_chain_shrink(pre, post, post.frames@[i as int].0.previous);
        },
    }
}

impl FrameAtor {
    /// Inserts a frame with initial reference count 1, reusing the most
    /// recently freed slot if any, else appending a new one. The returned
    /// index was not live before the call. When the frame carries a
    /// back-link, the one unit of ownership on that previous top moves from
    /// the caller's handle into the new frame's back-link; the caller's
    /// handle instead gains the unit on the returned index.
    pub fn allocate(&mut self, init: Frame) -> (result: FrameIndex)
        requires
            old(self).wf(),
            init.previous matches Some(p) ==> old(self).units().count(p) >= 1,
        ensures
            final(self).wf(),
            !old(self).live(result as int),
            final(self).live(result as int),
            final(self).frames@[result as int] == (init, 1usize),
            old(self).frames@.len() <= final(self).frames@.len() <= old(self).frames@.len() + 1,
            forall|j: int|
                0 <= j < old(self).frames@.len() && j != result ==> #[trigger] final(self).frames@[j]
                    == old(self).frames@[j] && final(self).depths@[j] == old(self).depths@[j],
            old(self).free@.len() > 0 ==> result == old(self).free@[old(self).free@.len() - 1]
                && final(self).frames@.len() == old(self).frames@.len()
                && final(self).free@ == old(self).free@.subrange(0, old(self).free@.len() - 1),
            old(self).free@.len() == 0 ==> result == old(self).frames@.len()
                && final(self).frames@.len() == old(self).frames@.len() + 1
                && final(self).free@ == old(self).free@,
            final(self).units() == (match init.previous {
                Some(p) => old(self).units().remove(p),
                None => old(self).units(),
            }).insert(result),
            forall|u: FrameIndex|
                old(self).live(u as int) ==> final(self).live(u as int) && #[trigger] final(self).chain_from(
                    Some(u),
                ) == old(self).chain_from(Some(u)),
            final(self).chain_from(Some(result)) == seq![init.data_type] + old(self).chain_from(
                init.previous,
            ),
    {
        let ghost pre = *self;
        let ghost new_units = (match init.previous {
            Some(p) => pre.handles@.remove(p),
            None => pre.handles@,
        });
        proof {
            // A back-link target is live, hence in bounds.
            if init.previous is Some {
                let p = init.previous.unwrap();
                assert(pre.units().count(p) > 0);
                assert((p as int) < pre.frames@.len());
                assert(pre.frames@[p as int].1 >= 1);
            }
        }
        let opt = self.free.pop();
        let result: FrameIndex;
        match opt {
            Some(r) => {
                result = r;
                proof {
                    assert(pre.free@[pre.free@.len() - 1] == r);
                    assert(pre.free@.contains(r));
                    assert((r as int) < pre.frames@.len());
                    assert(pre.frames@[r as int].1 == 0);
                }
                self.frames[r] = (init, 1);
                self.handles = Ghost(new_units.insert(r));
                let ghost d: nat = (match init.previous {
                    Some(p) => pre.depths@[p as int] + 1,
                    None => 0nat,
                });
                self.depths = Ghost(pre.depths@.update(r as int, d));
                proof {
                    self.lemma_allocate_reuse(pre, init, r);
                }
            },
            None => {
                result = self.frames.len();
                self.frames.push((init, 1));
                self.handles = Ghost(new_units.insert(result));
                let ghost d: nat = (match init.previous {
                    Some(p) => pre.depths@[p as int] + 1,
                    None => 0nat,
                });
                self.depths = Ghost(pre.depths@.push(d));
                proof {
                    self.lemma_allocate_grow(pre, init, result);
                }
            },
        }
        proof {
            assert(self.chain_from(Some(result)) == seq![init.data_type] + self.chain_from(
                init.previous,
            ));
            lemma_chain_grow(pre, *self, init.previous);
            assert forall|u: FrameIndex| pre.live(u as int) implies self.live(u as int)
                && #[trigger] self.chain_from(Some(u)) == pre.chain_from(Some(u)) by {
                lemma_chain_grow(pre, *self, Some(u));
            }
        }
        result
    }

    /// Shared proof for the slot-reuse branch of `allocate`: the arena is again
    /// well formed and only the reused slot changed.
    #[verifier::rlimit(100)]
    proof fn lemma_allocate_reuse(self, pre: FrameAtor, init: Frame, r: FrameIndex)
        requires
            pre.wf(),
            init.previous matches Some(p) ==> pre.units().count(p) >= 1,
            (r as int) < pre.frames@.len(),
            pre.frames@[r as int].1 == 0,
            pre.free@.len() > 0,
            pre.free@[pre.free@.len() - 1] == r,
            self.frames@ == pre.frames@.update(r as int, (init, 1usize)),
            self.free@ == pre.free@.subrange(0, pre.free@.len() - 1),
            self.handles@ == (match init.previous {
                Some(p) => pre.handles@.remove(p),
                None => pre.handles@,
            }).insert(r),
            self.depths@ == pre.depths@.update(
                r as int,
                match init.previous {
                    Some(p) => pre.depths@[p as int] + 1,
                    None => 0nat,
                },
            ),
        ensures
            self.wf(),
    {
        vstd::std_specs::vec::axiom_spec_len(&pre.frames);
        let n = pre.frames@.len() as int;
        // The reused slot was dead, so it linked to nothing and held no units.
        assert(pre.frames@[r as int].1 == pre.units().count(r) + pre.links_to(r));
        if init.previous is Some {
            let p = init.previous.unwrap();
            assert(pre.frames@[p as int].1 >= 1);
            assert(p != r);
        }
        // Link counts change only by the new slot's contribution.
        assert forall|t: FrameIndex| self.links_to(t) == pre.links_to(t) + slot_links(
            (init, 1usize),
            t,
        ) by {
            lemma_links_up_to_update(pre.frames@, t, r as int, (init, 1usize), n);
            assert(slot_links(pre.frames@[r as int], t) == 0);
        }
        // counts_ok
        assert forall|i: int| 0 <= i < n implies (#[trigger] self.frames@[i]).1
            == self.units().count(i as FrameIndex) + self.links_to(i as FrameIndex) by {
            let u = i as FrameIndex;
            assert(pre.frames@[i].1 == pre.units().count(u) + pre.links_to(u));
            assert(self.links_to(u) == pre.links_to(u) + slot_links((init, 1usize), u));
            if i == r {
                assert(pre.units().count(u) == 0);
                assert(pre.links_to(u) == 0);
                assert(slot_links((init, 1usize), u) == 0);
                assert(self.units().count(u) == 1);
            } else {
                match init.previous {
                    Some(p) => {
                        if u == p {
                            assert(slot_links((init, 1usize), u) == 1);
                            assert(self.units().count(u) == pre.units().count(u) - 1);
                        } else {
                            assert(slot_links((init, 1usize), u) == 0);
                            assert(self.units().count(u) == pre.units().count(u));
                        }
                    },
                    None => {
                        assert(slot_links((init, 1usize), u) == 0);
                        assert(self.units().count(u) == pre.units().count(u));
                    },
                }
            }
        }
        // free_ok: the reused index leaves the free list; the rest stays.
        assert forall|i: int| 0 <= i < n implies ((#[trigger] self.frames@[i]).1 == 0
            <==> self.free@.contains(i as FrameIndex)) by {
            if self.free@.contains(i as FrameIndex) {
                let k = choose|k: int|
                    0 <= k < self.free@.len() && self.free@[k] == i as FrameIndex;
                assert(pre.free@[k] == i as FrameIndex);
                assert(pre.free@.contains(i as FrameIndex));
                assert(i != r);
            }
            if i != r && self.frames@[i].1 == 0 {
                assert(pre.free@.contains(i as FrameIndex));
                let k = choose|k: int|
                    0 <= k < pre.free@.len() && pre.free@[k] == i as FrameIndex;
                assert(k != pre.free@.len() - 1);
                assert(self.free@[k] == i as FrameIndex);
                assert(self.free@.contains(i as FrameIndex));
            }
        }
        // links_ok
        assert forall|i: int|
            self.live(i) && (#[trigger] self.frames@[i]).0.previous is Some implies {
            let p = self.frames@[i].0.previous.unwrap() as int;
            &&& p < self.frames@.len()
            &&& self.frames@[p].1 >= 1
            &&& self.depths@[p] < self.depths@[i]
        } by {
            let p = self.frames@[i].0.previous.unwrap() as int;
            if i == r {
                assert(pre.frames@[p].1 >= 1);
                assert(p != r);
            } else {
                assert(pre.live(i));
                assert(pre.frames@[p].1 >= 1);
                assert(p != r);
            }
        }
    }

    /// Shared proof for the append branch of `allocate`.
    #[verifier::rlimit(100)]
    proof fn lemma_allocate_grow(self, pre: FrameAtor, init: Frame, r: FrameIndex)
        requires
            pre.wf(),
            init.previous matches Some(p) ==> pre.units().count(p) >= 1,
            r == pre.frames@.len(),
            pre.free@.len() == 0,
            self.frames@ == pre.frames@.push((init, 1usize)),
            self.free@ == pre.free@,
            self.handles@ == (match init.previous {
                Some(p) => pre.handles@.remove(p),
                None => pre.handles@,
            }).insert(r),
            self.depths@ == pre.depths@.push(
                match init.previous {
                    Some(p) => pre.depths@[p as int] + 1,
                    None => 0nat,
                },
            ),
        ensures
            self.wf(),
    {
        vstd::std_specs::vec::axiom_spec_len(&pre.frames);
        let n = pre.frames@.len() as int;
        assert(pre.units().count(r) == 0);
        if init.previous is Some {
            let p = init.previous.unwrap();
            assert(pre.frames@[p as int].1 >= 1);
            assert(p != r);
        }
        assert forall|t: FrameIndex| self.links_to(t) == pre.links_to(t) + slot_links(
            (init, 1usize),
            t,
        ) by {
            lemma_links_up_to_push(pre.frames@, t, (init, 1usize));
        }
        assert(pre.links_to(r) <= 0) by {
            lemma_links_up_to_le(pre.frames@, r, n);
            assert forall|j: int| 0 <= j < n implies slot_links(
                #[trigger] pre.frames@[j],
                r,
            ) == 0 by {
                if pre.frames@[j].1 >= 1 && pre.frames@[j].0.previous == Some(r) {
                    assert((r as int) < pre.frames@.len());
                }
            }
            lemma_links_sum_zero(pre.frames@, r, n);
        }
        assert forall|i: int| 0 <= i < n + 1 implies (#[trigger] self.frames@[i]).1
            == self.units().count(i as FrameIndex) + self.links_to(i as FrameIndex) by {
            let u = i as FrameIndex;
            assert(self.links_to(u) == pre.links_to(u) + slot_links((init, 1usize), u));
            if i < n {
                assert(pre.frames@[i].1 == pre.units().count(u) + pre.links_to(u));
                match init.previous {
                    Some(p) => {
                        if u == p {
                            assert(slot_links((init, 1usize), u) == 1);
                            assert(self.units().count(u) == pre.units().count(u) - 1);
                        } else {
                            assert(slot_links((init, 1usize), u) == 0);
                            assert(self.units().count(u) == pre.units().count(u));
                        }
                    },
                    None => {
                        assert(slot_links((init, 1usize), u) == 0);
                        assert(self.units().count(u) == pre.units().count(u));
                    },
                }
            } else {
                assert(u == r);
                assert(pre.units().count(r) == 0);
                assert(pre.links_to(r) == 0);
                assert(slot_links((init, 1usize), r) == 0);
                assert(self.units().count(r) == 1);
            }
        }
        assert forall|i: int| 0 <= i < n + 1 implies ((#[trigger] self.frames@[i]).1 == 0
            <==> self.free@.contains(i as FrameIndex)) by {
            assert(!pre.free@.contains(i as FrameIndex));
        }
        assert forall|i: int|
            self.live(i) && (#[trigger] self.frames@[i]).0.previous is Some implies {
            let p = self.frames@[i].0.previous.unwrap() as int;
            &&& p < self.frames@.len()
            &&& self.frames@[p].1 >= 1
            &&& self.depths@[p] < self.depths@[i]
        } by {
            let p = self.frames@[i].0.previous.unwrap() as int;
            if i < n {
                assert(pre.live(i));
                assert(pre.frames@[p].1 >= 1);
            } else {
                assert(pre.frames@[p].1 >= 1);
            }
        }
    }

    /// Increments the reference count of a live slot: one more handle unit
    /// rests on it. Payloads, back-links and every chain are unchanged.
    pub fn acquire(&mut self, index: FrameIndex)
        requires
            old(self).wf(),
            old(self).live(index as int),
            old(self).headroom(),
        ensures
            final(self).wf(),
            final(self).units() == old(self).units().insert(index),
            final(self).frames@ == old(self).frames@.update(
                index as int,
                (old(self).frames@[index as int].0, (old(self).frames@[index as int].1 + 1) as usize),
            ),
            final(self).free@ == old(self).free@,
            final(self).depths@ == old(self).depths@,
            final(self).frames@[index as int].1 == old(self).frames@[index as int].1 + 1,
            forall|u: FrameIndex|
                old(self).live(u as int) ==> final(self).live(u as int) && #[trigger] final(self).chain_from(
                    Some(u),
                ) == old(self).chain_from(Some(u)),
    {
        let ghost pre = *self;
        proof {
            lemma_links_up_to_le(pre.frames@, index, pre.frames@.len() as int);
            assert(pre.units().count(index) <= pre.units().len());
            assert(pre.frames@[index as int].1 < usize::MAX);
        }
        let slot = self.frames[index];
        self.frames[index] = (slot.0, slot.1 + 1);
        self.handles = Ghost(self.handles@.insert(index));
        proof {
            self.lemma_acquire_wf(pre, index);
            assert forall|u: FrameIndex| pre.live(u as int) implies self.live(u as int)
                && #[trigger] self.chain_from(Some(u)) == pre.chain_from(Some(u)) by {
                lemma_chain_grow(pre, *self, Some(u));
            }
        }
    }

    /// Shared proof for `acquire`: bumping one live slot's count together
    /// with one more handle unit on it keeps the arena well formed.
    #[verifier::rlimit(100)]
    proof fn lemma_acquire_wf(self, pre: FrameAtor, index: FrameIndex)
        requires
            pre.wf(),
            pre.live(index as int),
            pre.frames@[index as int].1 < usize::MAX,
            self.frames@ == pre.frames@.update(
                index as int,
                (pre.frames@[index as int].0, (pre.frames@[index as int].1 + 1) as usize),
            ),
            self.free@ == pre.free@,
            self.handles@ == pre.handles@.insert(index),
            self.depths@ == pre.depths@,
        ensures
            self.wf(),
    {
        vstd::std_specs::vec::axiom_spec_len(&pre.frames);
        let n = pre.frames@.len() as int;
        let x = (pre.frames@[index as int].0, (pre.frames@[index as int].1 + 1) as usize);
        assert forall|t: FrameIndex| self.links_to(t) == pre.links_to(t) by {
            lemma_links_up_to_update(pre.frames@, t, index as int, x, n);
            assert(slot_links(pre.frames@[index as int], t) == slot_links(x, t));
        }
        assert forall|i: int| 0 <= i < n implies (#[trigger] self.frames@[i]).1
            == self.units().count(i as FrameIndex) + self.links_to(i as FrameIndex) by {
            let u = i as FrameIndex;
            assert(pre.frames@[i].1 == pre.units().count(u) + pre.links_to(u));
            assert(self.links_to(u) == pre.links_to(u));
            if u == index {
                assert(self.units().count(u) == pre.units().count(u) + 1);
            } else {
                assert(self.units().count(u) == pre.units().count(u));
            }
        }
        assert forall|i: int| 0 <= i < n implies ((#[trigger] self.frames@[i]).1 == 0
            <==> self.free@.contains(i as FrameIndex)) by {
            assert(pre.frames@[i].1 == 0 <==> pre.free@.contains(i as FrameIndex));
        }
        assert forall|i: int|
            self.live(i) && (#[trigger] self.frames@[i]).0.previous is Some implies {
            let p = self.frames@[i].0.previous.unwrap() as int;
            &&& p < self.frames@.len()
            &&& self.frames@[p].1 >= 1
            &&& self.depths@[p] < self.depths@[i]
        } by {
            assert(pre.live(i));
            assert(pre.frames@[i].0 == self.frames@[i].0);
        }
    }
}

impl FrameAtor {
    /// Counts with one pending decrement: every slot's count equals its
    /// handle units plus its live back-links, except that the slot named by
    /// `pending` still carries one unit that is about to be taken away.
    pub open spec fn counts_pending(self, pending: Option<FrameIndex>) -> bool {
        forall|i: int|
            0 <= i < self.frames@.len() ==> (#[trigger] self.frames@[i]).1 == self.units().count(
                i as FrameIndex,
            ) + self.links_to(i as FrameIndex) + (if pending == Some(i as FrameIndex) {
                1int
            } else {
                0int
            })
    }

    /// Handle units only rest on in-bounds slots.
    pub open spec fn units_in_bounds(self) -> bool {
        forall|u: FrameIndex| #[trigger] self.units().count(u) > 0 ==> u < self.frames@.len()
    }

    /// One cascade step where the decremented slot survives: its count was at
    /// least two, so it keeps the data and the walk stops.
    #[verifier::rlimit(100)]
    proof fn lemma_release_step_keep(self, s0: FrameAtor, cur: FrameIndex)
        requires
            s0.links_ok(),
            s0.free_ok(),
            s0.counts_pending(Some(cur)),
            s0.units_in_bounds(),
            (cur as int) < s0.frames@.len(),
            s0.frames@[cur as int].1 >= 2,
            self.frames@ == s0.frames@.update(
                cur as int,
                (s0.frames@[cur as int].0, (s0.frames@[cur as int].1 - 1) as usize),
            ),
            self.free@ == s0.free@,
            self.handles@ == s0.handles@,
            self.depths@ == s0.depths@,
        ensures
            self.links_ok(),
            self.free_ok(),
            self.counts_pending(None),
            self.units_in_bounds(),
            forall|j: int|
                self.live(j) ==> s0.live(j) && (#[trigger] self.frames@[j]).0 == s0.frames@[j].0
                    && self.frames@[j].1 <= s0.frames@[j].1,
    {
        vstd::std_specs::vec::axiom_spec_len(&s0.frames);
        let n = s0.frames@.len() as int;
        let x = (s0.frames@[cur as int].0, (s0.frames@[cur as int].1 - 1) as usize);
        assert forall|t: FrameIndex| self.links_to(t) == s0.links_to(t) by {
            lemma_links_up_to_update(s0.frames@, t, cur as int, x, n);
            assert(slot_links(s0.frames@[cur as int], t) == slot_links(x, t));
        }
        assert forall|i: int| 0 <= i < n implies (#[trigger] self.frames@[i]).1
            == self.units().count(i as FrameIndex) + self.links_to(i as FrameIndex) + 0int by {
            let u = i as FrameIndex;
            assert(s0.frames@[i].1 == s0.units().count(u) + s0.links_to(u) + (if u == cur {
                1int
            } else {
                0int
            }));
            assert(self.links_to(u) == s0.links_to(u));
        }
        assert forall|i: int| 0 <= i < n implies ((#[trigger] self.frames@[i]).1 == 0
            <==> self.free@.contains(i as FrameIndex)) by {
            assert(s0.frames@[i].1 == 0 <==> s0.free@.contains(i as FrameIndex));
        }
        assert forall|i: int|
            self.live(i) && (#[trigger] self.frames@[i]).0.previous is Some implies {
            let p = self.frames@[i].0.previous.unwrap() as int;
            &&& p < self.frames@.len()
            &&& self.frames@[p].1 >= 1
            &&& self.depths@[p] < self.depths@[i]
        } by {
            assert(s0.live(i));
            assert(s0.frames@[i].0 == self.frames@[i].0);
        }
    }

    /// One cascade step where the decremented slot dies: its count was
    /// exactly one, so its slot joins the free list and the walk moves to its
    /// back-link, which now carries the pending decrement.
    #[verifier::rlimit(100)]
    proof fn lemma_release_step_free(self, s0: FrameAtor, cur: FrameIndex, next: Option<FrameIndex>)
        requires
            s0.links_ok(),
            s0.free_ok(),
            s0.counts_pending(Some(cur)),
            s0.units_in_bounds(),
            (cur as int) < s0.frames@.len(),
            s0.frames@[cur as int].1 == 1,
            next == s0.frames@[cur as int].0.previous,
            self.frames@ == s0.frames@.update(
                cur as int,
                (s0.frames@[cur as int].0, 0usize),
            ),
            self.free@ == s0.free@.push(cur),
            self.handles@ == s0.handles@,
            self.depths@ == s0.depths@,
        ensures
            self.links_ok(),
            self.free_ok(),
            self.counts_pending(next),
            self.units_in_bounds(),
            next matches Some(c) ==> (c as int) < self.frames@.len() && self.frames@[c as int].1
                >= 1 && self.depths@[c as int] < s0.depths@[cur as int],
            forall|j: int|
                self.live(j) ==> s0.live(j) && (#[trigger] self.frames@[j]).0 == s0.frames@[j].0
                    && self.frames@[j].1 <= s0.frames@[j].1,
    {
        vstd::std_specs::vec::axiom_spec_len(&s0.frames);
        let n = s0.frames@.len() as int;
        let x = (s0.frames@[cur as int].0, 0usize);
        // The dying slot held no units and no live frame linked to it.
        assert(s0.units().count(cur) == 0 && s0.links_to(cur) == 0);
        // Back-links of live frames never form a cycle, so `cur` is not its
        // own back-link.
        if next is Some {
            let p = next.unwrap();
            assert(s0.frames@[p as int].1 >= 1 && s0.depths@[p as int] < s0.depths@[cur as int]);
            assert(p != cur);
        }
        assert forall|t: FrameIndex| self.links_to(t) + slot_links(s0.frames@[cur as int], t)
            == s0.links_to(t) by {
            lemma_links_up_to_update(s0.frames@, t, cur as int, x, n);
            assert(slot_links(x, t) == 0);
        }
        // No live frame links to the dying slot.
        assert forall|j: int| 0 <= j < n && j != cur implies slot_links(
            #[trigger] s0.frames@[j],
            cur,
        ) == 0 by {
            if slot_links(s0.frames@[j], cur) == 1 {
                lemma_links_positive(s0.frames@, cur, j, n);
            }
        }
        // counts with the pending decrement moved to `next`
        assert forall|i: int| 0 <= i < n implies (#[trigger] self.frames@[i]).1
            == self.units().count(i as FrameIndex) + self.links_to(i as FrameIndex) + (if next
            == Some(i as FrameIndex) {
            1int
        } else {
            0int
        }) by {
            let u = i as FrameIndex;
            assert(s0.frames@[i].1 == s0.units().count(u) + s0.links_to(u) + (if u == cur {
                1int
            } else {
                0int
            }));
            assert(self.links_to(u) + slot_links(s0.frames@[cur as int], u) == s0.links_to(u));
            if u == cur {
                assert(slot_links(s0.frames@[cur as int], cur) == 0);
            }
        }
        // free list: the dying slot joins it, everything else is unchanged
        assert forall|i: int| 0 <= i < n implies ((#[trigger] self.frames@[i]).1 == 0
            <==> self.free@.contains(i as FrameIndex)) by {
            let u = i as FrameIndex;
            assert(s0.frames@[i].1 == 0 <==> s0.free@.contains(u));
            if i == cur {
                assert(self.free@[self.free@.len() - 1] == cur);
                assert(self.free@.contains(u));
            } else {
                if self.free@.contains(u) {
                    let k = choose|k: int| 0 <= k < self.free@.len() && self.free@[k] == u;
                    assert(k < s0.free@.len());
                    assert(s0.free@.contains(u));
                }
                if s0.free@.contains(u) {
                    let k = choose|k: int| 0 <= k < s0.free@.len() && s0.free@[k] == u;
                    assert(self.free@[k] == u);
                    assert(self.free@.contains(u));
                }
            }
        }
        assert forall|k1: int, k2: int| 0 <= k1 < k2 < self.free@.len() implies self.free@[k1]
            != self.free@[k2] by {
            if k2 == self.free@.len() - 1 {
                assert(self.free@[k2] == cur);
                assert(s0.free@.contains(self.free@[k1]) || self.free@[k1] == cur);
                if self.free@[k1] == cur {
                    assert(s0.free@[k1] == cur);
                    assert(s0.free@.contains(cur));
                    assert(s0.frames@[cur as int].1 == 0);
                }
            }
        }
        // links_ok: the dying slot is no longer live; nothing pointed to it
        assert forall|i: int|
            self.live(i) && (#[trigger] self.frames@[i]).0.previous is Some implies {
            let p = self.frames@[i].0.previous.unwrap() as int;
            &&& p < self.frames@.len()
            &&& self.frames@[p].1 >= 1
            &&& self.depths@[p] < self.depths@[i]
        } by {
            assert(i != cur);
            assert(s0.live(i));
            assert(s0.frames@[i].0 == self.frames@[i].0);
            let p = self.frames@[i].0.previous.unwrap() as int;
            assert(slot_links(s0.frames@[i], p as FrameIndex) == 1);
            assert(p != cur);
        }
    }

    /// Decrements the reference count of the slot holding one of the
    /// caller's handle units. When a count reaches zero the slot's frame is
    /// dead: its back-link gives up its unit in turn (the cascade walks on),
    /// and the slot joins the free list. Every chain still rooted in a
    /// remaining handle unit is untouched: no slot reachable from another
    /// holder is freed.
    #[verifier::rlimit(100)]
    pub fn release(&mut self, index: FrameIndex)
        requires
            old(self).wf(),
            old(self).units().count(index) >= 1,
        ensures
            final(self).wf(),
            final(self).units() == old(self).units().remove(index),
            final(self).frames@.len() == old(self).frames@.len(),
            final(self).depths@ == old(self).depths@,
            forall|j: int|
                final(self).live(j) ==> old(self).live(j) && (#[trigger] final(self).frames@[j]).0
                    == old(self).frames@[j].0 && final(self).frames@[j].1 <= old(self).frames@[j].1,
            forall|u: FrameIndex|
                old(self).units().remove(index).count(u) >= 1 ==> final(self).live(u as int)
                    && #[trigger] final(self).chain_from(Some(u)) == old(self).chain_from(
                    Some(u),
                ),
    {
        let ghost pre = *self;
        self.handles = Ghost(self.handles@.remove(index));
        let mut cur_opt: Option<FrameIndex> = Some(index);
        proof {
            assert(pre.units().count(index) > 0);
            assert((index as int) < pre.frames@.len());
            assert(self.counts_pending(cur_opt));
        }
        while cur_opt.is_some()
            invariant
                self.frames@.len() == pre.frames@.len(),
                self.depths@ == pre.depths@,
                self.handles@ == pre.handles@.remove(index),
                self.links_ok(),
                self.free_ok(),
                self.counts_pending(cur_opt),
                self.units_in_bounds(),
                cur_opt matches Some(c) ==> (c as int) < self.frames@.len()
                    && self.frames@[c as int].1 >= 1,
                forall|j: int|
                    self.live(j) ==> pre.live(j) && (#[trigger] self.frames@[j]).0
                        == pre.frames@[j].0 && self.frames@[j].1 <= pre.frames@[j].1,
            decreases self.opt_depth(cur_opt),
        {
            let ghost s0 = *self;
            let cur = cur_opt.unwrap();
            let slot = self.frames[cur];
            let newc = slot.1 - 1;
            self.frames[cur] = (slot.0, newc);
            if newc == 0 {
                cur_opt = slot.0.previous;
                self.free.push(cur);
                proof {
                    self.lemma_release_step_free(s0, cur, cur_opt);
                    assert forall|j: int|
                        self.live(j) implies pre.live(j) && (#[trigger] self.frames@[j]).0
                        == pre.frames@[j].0 && self.frames@[j].1 <= pre.frames@[j].1 by {
                        assert(s0.live(j));
                    }
                }
            } else {
                cur_opt = None;
                proof {
                    self.lemma_release_step_keep(s0, cur);
                    assert forall|j: int|
                        self.live(j) implies pre.live(j) && (#[trigger] self.frames@[j]).0
                        == pre.frames@[j].0 && self.frames@[j].1 <= pre.frames@[j].1 by {
                        assert(s0.live(j));
                    }
                }
            }
        }
        proof {
            assert(self.counts_pending(None));
            assert forall|i: int| 0 <= i < self.frames@.len() implies (#[trigger] self.frames@[i]).1
                == self.units().count(i as FrameIndex) + self.links_to(i as FrameIndex) by {
                assert(self.frames@[i].1 == self.units().count(i as FrameIndex) + self.links_to(
                    i as FrameIndex,
                ) + 0int);
            }
            assert forall|u: FrameIndex| pre.units().remove(index).count(u) >= 1 implies self.live(
                u as int,
            ) && #[trigger] self.chain_from(Some(u)) == pre.chain_from(Some(u)) by {
                assert(self.units().count(u) >= 1);
                assert(self.frames@[u as int].1 >= 1);
                lemma_chain_shrink(pre, *self, Some(u));
            }
        }
    }
}

impl FrameAtor {
    /// A read view of the frame stored at `index`, or `None` when the index
    /// is outside the table's current bounds. Liveness is not checked here:
    /// callers holding a valid stack handle are live by construction.
    pub fn deref(&self, index: FrameIndex) -> (r: Option<Frame>)
        ensures
            r == (if (index as int) < self.frames@.len() {
                Some(self.frames@[index as int].0)
            } else {
                None::<Frame>
            }),
    {
        if index < self.frames.len() {
            Some(self.frames[index].0)
        } else {
            None
        }
    }

    /// A write view of the frame payload at `index`: replaces the data-kind
    /// tag and hands back the one it replaced, or `None` when the index is
    /// out of bounds. The back-link and the reference count are untouched,
    /// so the arena stays well formed.
    pub fn deref_mut(&mut self, index: FrameIndex, data_type: DataType) -> (r: Option<DataType>)
        requires
            old(self).wf(),
        ensures
            final(self).wf(),
            r == (if (index as int) < old(self).frames@.len() {
                Some(old(self).frames@[index as int].0.data_type)
            } else {
                None::<DataType>
            }),
            (index as int) < old(self).frames@.len() ==> final(self).frames@ == old(
                self,
            ).frames@.update(
                index as int,
                (
                    Frame { data_type, previous: old(self).frames@[index as int].0.previous },
                    old(self).frames@[index as int].1,
                ),
            ),
            (index as int) >= old(self).frames@.len() ==> *final(self) == *old(self),
            final(self).free@ == old(self).free@,
            final(self).handles@ == old(self).handles@,
            final(self).depths@ == old(self).depths@,
            final(self).frames@.len() == old(self).frames@.len(),
    {
        let ghost pre = *self;
        if index < self.frames.len() {
            let slot = self.frames[index];
            self.frames[index] = (Frame { data_type, previous: slot.0.previous }, slot.1);
            proof {
                vstd::std_specs::vec::axiom_spec_len(&pre.frames);
                let n = pre.frames@.len() as int;
                let x = (Frame { data_type, previous: slot.0.previous }, slot.1);
                assert forall|t: FrameIndex| self.links_to(t) == pre.links_to(t) by {
                    lemma_links_up_to_update(pre.frames@, t, index as int, x, n);
                    assert(slot_links(pre.frames@[index as int], t) == slot_links(x, t));
                }
                assert forall|i: int| 0 <= i < n implies (#[trigger] self.frames@[i]).1
                    == self.units().count(i as FrameIndex) + self.links_to(i as FrameIndex) by {
                    assert(pre.frames@[i].1 == pre.units().count(i as FrameIndex) + pre.links_to(
                        i as FrameIndex,
                    ));
                }
                assert forall|i: int| 0 <= i < n implies ((#[trigger] self.frames@[i]).1 == 0
                    <==> self.free@.contains(i as FrameIndex)) by {
                    assert(pre.frames@[i].1 == 0 <==> pre.free@.contains(i as FrameIndex));
                }
                assert forall|i: int|
                    self.live(i) && (#[trigger] self.frames@[i]).0.previous is Some implies {
                    let p = self.frames@[i].0.previous.unwrap() as int;
                    &&& p < self.frames@.len()
                    &&& self.frames@[p].1 >= 1
                    &&& self.depths@[p] < self.depths@[i]
                } by {
                    assert(pre.live(i));
                    assert(pre.frames@[i].0.previous == self.frames@[i].0.previous);
                }
            }
            Some(slot.0.data_type)
        } else {
            None
        }
    }

    /// The reference count currently stored at `index`, or `None` when the
    /// index is out of bounds. Purely observational.
    pub fn ref_count(&self, index: FrameIndex) -> (r: Option<usize>)
        ensures
            r == (if (index as int) < self.frames@.len() {
                Some(self.frames@[index as int].1)
            } else {
                None::<usize>
            }),
    {
        if index < self.frames.len() {
            Some(self.frames[index].1)
        } else {
            None
        }
    }
}

/// Reclamation: in a well-formed arena, a slot whose reference count has
/// dropped to zero sits on the free list — eligible for reuse by a later
/// allocation — no handle unit rests on it, and no live frame links back to
/// it, so it can never appear in a dump of live slots.
pub proof fn lemma_reclaimed(a: FrameAtor, index: FrameIndex)
    requires
        a.wf(),
        (index as int) < a.frames@.len(),
        a.frames@[index as int].1 == 0,
    ensures
        a.free@.contains(index),
        !a.live(index as int),
        a.units().count(index) == 0,
        forall|j: int| a.live(j) ==> (#[trigger] a.frames@[j]).0.previous != Some(index),
{
    assert(a.units().count(index) + a.links_to(index) == 0);
    assert forall|j: int| a.live(j) implies (#[trigger] a.frames@[j]).0.previous != Some(index) by {
        if a.frames@[j].0.previous == Some(index) {
            lemma_links_positive(a.frames@, index, j, a.frames@.len() as int);
        }
    }
}

/// If every slot among the first `n` contributes zero links to `target`, the
/// total is zero.
pub proof fn lemma_links_sum_zero(slots: Seq<(Frame, usize)>, target: FrameIndex, n: int)
    requires
        forall|j: int| 0 <= j < n ==> slot_links(#[trigger] slots[j], target) == 0,
    ensures
        links_up_to(slots, target, n) == 0,
    decreases n,
{
    if n > 0 {
        lemma_links_sum_zero(slots, target, n - 1);
    }
}

impl Default for FrameAtor {
    /// An empty arena: no slots, no free indices, no handle units.
    fn default() -> (a: Self)
        ensures
            a.wf(),
            a.frames@.len() == 0,
            a.free@.len() == 0,
            a.units() == Multiset::<FrameIndex>::empty(),
    {
        FrameAtor {
            frames: Vec::new(),
            free: Vec::new(),
            handles: Ghost(Multiset::empty()),
            depths: Ghost(Seq::empty()),
        }
    }
}

} // verus!
