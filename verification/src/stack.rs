//! Persistent stacks over the frame arena. A stack handle is at most one
//! index into the arena: its top frame. Pushing allocates a new top whose
//! back-link is the old top; popping releases the top and exposes the
//! previous frame; cloning is an O(1) branch that shares the whole chain and
//! only increments the top's reference count.

use crate::arena::DataType;
use crate::arena::Frame;
use crate::arena::FrameAtor;
use crate::arena::FrameIndex;
use vstd::prelude::*;

verus! {

/// A stack handle: `None` is the empty stack, `Some(i)` a stack whose top
/// frame sits in arena slot `i`.
#[derive(Debug, PartialEq, Eq)]
pub struct TypeStack {
    pub top: Option<FrameIndex>,
}

impl TypeStack {
    /// The handle owns one reference unit on its top frame, which is live.
    pub open spec fn valid(self, ator: FrameAtor) -> bool {
        self.top matches Some(t) ==> ator.live(t as int) && ator.units().count(t) >= 1
    }

    /// The top-to-bottom sequence of data-kind tags this handle observes.
    pub open spec fn tags(self, ator: FrameAtor) -> Seq<DataType> {
        ator.chain_from(self.top)
    }

    /// Allocates a new top frame carrying `data_type`, back-linked to the
    /// old top. The observed sequence gains `data_type` in front; every
    /// chain a pre-live slot roots is untouched, so all other handles still
    /// observe exactly what they observed before.
    pub fn push(&mut self, ator: &mut FrameAtor, data_type: DataType)
        requires
            old(ator).wf(),
            old(self).valid(*old(ator)),
        ensures
            final(ator).wf(),
            final(self).valid(*final(ator)),
            final(self).top is Some,
            final(self).tags(*final(ator)) == seq![data_type] + old(self).tags(*old(ator)),
            old(ator).frames@.len() <= final(ator).frames@.len() <= old(ator).frames@.len() + 1,
            forall|j: int|
                old(ator).live(j) ==> final(ator).live(j) && #[trigger] final(ator).frames@[j]
                    == old(ator).frames@[j],
            forall|u: FrameIndex|
                old(ator).live(u as int) ==> #[trigger] final(ator).chain_from(Some(u))
                    == old(ator).chain_from(Some(u)),
            final(self).top matches Some(n) ==> !old(ator).live(n as int)
                && final(ator).frames@[n as int] == (
                Frame { data_type, previous: old(self).top },
                1usize,
            ) && final(ator).units() == (match old(self).top {
                Some(t) => old(ator).units().remove(t),
                None => old(ator).units(),
            }).insert(n),
    {
        let ghost pre = *ator;
        let new_top = ator.allocate(Frame { data_type, previous: self.top });
        self.top = Some(new_top);
        proof {
            assert forall|j: int| pre.live(j) implies ator.live(j) && #[trigger] ator.frames@[j]
                == pre.frames@[j] by {
                assert(!pre.live(new_top as int));
            }
        }
    }

    /// Pops the top frame, if any: the handle's unit moves to the previous
    /// frame (acquired first, so that releasing the old top can never free
    /// the new top in passing), then the old top is released. Popping an
    /// empty stack is a no-op that leaves the arena untouched. Every chain
    /// rooted in any other handle unit is unaffected — shared suffixes are
    /// never freed while another holder remains.
    pub fn pop(&mut self, ator: &mut FrameAtor)
        requires
            old(ator).wf(),
            old(self).valid(*old(ator)),
            old(ator).headroom(),
        ensures
            final(ator).wf(),
            final(self).valid(*final(ator)),
            old(self).top is None ==> final(self).top is None && *final(ator) == *old(ator),
            old(self).top matches Some(t) ==> {
                &&& final(self).top == old(ator).frames@[t as int].0.previous
                &&& final(self).tags(*final(ator)) == old(self).tags(*old(ator)).drop_first()
                &&& final(ator).units() == (match old(ator).frames@[t as int].0.previous {
                    Some(p) => old(ator).units().insert(p),
                    None => old(ator).units(),
                }).remove(t)
            },
            final(ator).frames@.len() == old(ator).frames@.len(),
            forall|j: int|
                final(ator).live(j) ==> old(ator).live(j) && (#[trigger] final(ator).frames@[j]).0
                    == old(ator).frames@[j].0,
            forall|u: FrameIndex|
                (match old(self).top {
                    Some(t) => old(ator).units().remove(t),
                    None => old(ator).units(),
                }).count(u) >= 1 ==> final(ator).live(u as int) && #[trigger] final(ator).chain_from(
                    Some(u),
                ) == old(ator).chain_from(Some(u)),
    {
        let ghost pre = *ator;
        if let Some(top_index) = self.top {
            let frame = ator.deref(top_index).unwrap();
            let prev = frame.previous;
            proof {
                // The top frame is live, so its back-link target is live too.
                assert(pre.live(top_index as int));
                if prev is Some {
                    let p = prev.unwrap();
                    assert(pre.live(p as int));
                    assert(pre.depths@[p as int] < pre.depths@[top_index as int]);
                    assert(p != top_index);
                }
            }
            if let Some(prev_index) = prev {
                ator.acquire(prev_index);
            }
            let ghost mid = *ator;
            proof {
                assert(mid.units().count(top_index) >= 1);
            }
            ator.release(top_index);
            self.top = prev;
            proof {
                // The chain observed before the pop was the top tag followed
                // by the previous frame's chain.
                assert(pre.chain_from(Some(top_index)) == seq![pre.frames@[top_index as int].0.data_type]
                    + pre.chain_from(prev));
                // The previous frame kept its unit through the release, so
                // its chain survived unchanged; the same holds for every
                // other handle unit.
                assert forall|u: FrameIndex| pre.units().remove(top_index).count(u) >= 1 implies
                    ator.live(u as int) && #[trigger] ator.chain_from(Some(u)) == pre.chain_from(
                    Some(u),
                ) by {
                    assert(mid.units().remove(top_index).count(u) >= 1);
                    assert(mid.chain_from(Some(u)) == pre.chain_from(Some(u)));
                }
                if prev is Some {
                    let p = prev.unwrap();
                    assert(mid.units().remove(top_index).count(p) >= 1);
                    assert(ator.chain_from(Some(p)) == mid.chain_from(Some(p)));
                    assert(mid.chain_from(Some(p)) == pre.chain_from(Some(p)));
                }
                assert(ator.chain_from(self.top) == pre.chain_from(prev));
                assert(pre.chain_from(Some(top_index)).drop_first() =~= pre.chain_from(prev));
            }
        }
    }

    /// An O(1) branch: the new handle shares this handle's top (and with it
    /// the whole chain), so the top's reference count rises by exactly one
    /// and both handles observe the same top-to-bottom sequence.
    pub fn clone(&self, ator: &mut FrameAtor) -> (other: Self)
        requires
            old(ator).wf(),
            self.valid(*old(ator)),
            old(ator).headroom(),
        ensures
            final(ator).wf(),
            other.top == self.top,
            self.valid(*final(ator)),
            other.valid(*final(ator)),
            other.tags(*final(ator)) == self.tags(*final(ator)),
            self.tags(*final(ator)) == self.tags(*old(ator)),
            final(ator).frames@.len() == old(ator).frames@.len(),
            self.top matches Some(t) ==> final(ator).units() == old(ator).units().insert(t)
                && final(ator).frames@[t as int].1 == old(ator).frames@[t as int].1 + 1,
            self.top is None ==> *final(ator) == *old(ator),
            forall|j: int|
                old(ator).live(j) ==> final(ator).live(j) && (#[trigger] final(ator).frames@[j]).0
                    == old(ator).frames@[j].0,
            forall|u: FrameIndex|
                old(ator).live(u as int) ==> #[trigger] final(ator).chain_from(Some(u))
                    == old(ator).chain_from(Some(u)),
    {
        if let Some(top_index) = self.top {
            ator.acquire(top_index);
        }
        TypeStack { top: self.top }
    }

    /// The top-to-bottom sequence of data-kind tags, materialized by walking
    /// back-links from the top. Takes the arena by shared reference and
    /// returns a pure function of (handle, arena): repeating the call on an
    /// unmodified stack yields an identical sequence.
    pub fn dump(&self, ator: &FrameAtor) -> (tags: Vec<DataType>)
        requires
            ator.wf(),
            self.valid(*ator),
        ensures
            tags@ == self.tags(*ator),
    {
        let mut tags: Vec<DataType> = Vec::new();
        let mut cur: Option<FrameIndex> = self.top;
        proof {
            assert(self.tags(*ator) == tags@ + ator.chain_from(cur));
        }
        while cur.is_some()
            invariant
                ator.wf(),
                cur matches Some(c) ==> ator.live(c as int),
                self.tags(*ator) == tags@ + ator.chain_from(cur),
            decreases ator.opt_depth(cur),
        {
            let i = cur.unwrap();
            let frame = ator.deref(i).unwrap();
            let ghost prev_tags = tags@;
            tags.push(frame.data_type);
            cur = frame.previous;
            proof {
                assert(ator.chain_from(Some(i)) == seq![frame.data_type] + ator.chain_from(
                    frame.previous,
                ));
                assert(prev_tags + ator.chain_from(Some(i)) =~= tags@ + ator.chain_from(cur));
            }
        }
        proof {
            assert(ator.chain_from(cur) =~= Seq::<DataType>::empty());
            assert(self.tags(*ator) =~= tags@);
        }
        tags
    }
}

/// Dumping is idempotent: `dump` takes both the handle and the arena by
/// shared reference and pins its result to `tags`, a pure function of the
/// two, so any two dumps of an unmodified stack yield the same sequence.
pub proof fn lemma_dump_idempotent(
    stack: TypeStack,
    ator: FrameAtor,
    first: Seq<DataType>,
    second: Seq<DataType>,
)
    requires
        first == stack.tags(ator),
        second == stack.tags(ator),
    ensures
        first == second,
{
}

impl Default for TypeStack {
    /// The empty stack: no top, valid for any arena.
    fn default() -> (s: Self)
        ensures
            s.top is None,
            forall|a: FrameAtor| s.valid(a),
    {
        TypeStack { top: None }
    }
}

} // verus!

