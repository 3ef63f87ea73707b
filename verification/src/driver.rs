//! The demonstration driver: a small deterministic linear-congruential
//! generator, a tag picker, and the recursive routine that grows a random
//! ternary tree of structurally shared stacks.

use crate::arena::FrameAtor;
use crate::arena::FrameIndex;
use crate::arena::DataType;
use crate::stack::TypeStack;
use vstd::multiset::Multiset;
use vstd::prelude::*;

verus! {

broadcast use vstd::multiset::group_multiset_axioms;

/// Multiplier of the linear-congruential step.
pub const RAND_A: u64 = 6364136223846793005;

/// Increment of the linear-congruential step.
pub const RAND_C: u64 = 1442695040888963407;

/// The seed after one linear-congruential step.
pub open spec fn next_seed(seed: u64) -> u64 {
    vstd::wrapping::u64_specs::wrapping_add(
        vstd::wrapping::u64_specs::wrapping_mul(RAND_A, seed),
        RAND_C,
    )
}

/// The value the generator hands out for a given pre-step seed.
pub open spec fn rand_value(seed: u64) -> u32 {
    (next_seed(seed) >> 32) as u32
}

/// The tag picked for a drawn value.
pub open spec fn tag_for(r: u32) -> DataType {
    if r % 3 == 0 {
        DataType::Int
    } else if r % 3 == 1 {
        DataType::Ptr
    } else {
        DataType::Bool
    }
}

/// A deterministic linear-congruential generator driving the demonstration.
pub struct Rand {
    pub seed: u64,
}

impl Rand {
    /// One step: advance the seed, hand out its upper half.
    pub fn rand(&mut self) -> (r: u32)
        ensures
            final(self).seed == next_seed(old(self).seed),
            r == rand_value(old(self).seed),
    {
        self.seed = RAND_A.wrapping_mul(self.seed).wrapping_add(RAND_C);
        (self.seed >> 32) as u32
    }
}

/// Draws one of the three data-kind tags, uniformly over the drawn value's
/// residue.
pub fn rand_type(rand: &mut Rand) -> (data_type: DataType)
    ensures
        final(rand).seed == next_seed(old(rand).seed),
        data_type == tag_for(rand_value(old(rand).seed)),
{
    let r = rand.rand();
    match r % 3 {
        0 => DataType::Int,
        1 => DataType::Ptr,
        _ => DataType::Bool,
    }
}

/// The arena only grew: every slot live before is still live with the same
/// frame, and every chain rooted in such a slot reads the same.
pub open spec fn arena_extends(pre: FrameAtor, post: FrameAtor) -> bool {
    &&& post.wf()
    &&& forall|j: int|
        #[trigger] pre.live(j) ==> post.live(j) && post.frames@[j].0 == pre.frames@[j].0
    &&& forall|u: FrameIndex|
        pre.live(u as int) ==> #[trigger] post.chain_from(Some(u)) == pre.chain_from(Some(u))
}

proof fn lemma_extends_trans(a: FrameAtor, b: FrameAtor, c: FrameAtor)
    requires
        arena_extends(a, b),
        arena_extends(b, c),
    ensures
        arena_extends(a, c),
{
    assert forall|j: int| #[trigger] a.live(j) implies c.live(j) && c.frames@[j].0
        == a.frames@[j].0 by {
        assert(b.live(j));
    }
    assert forall|u: FrameIndex| a.live(u as int) implies #[trigger] c.chain_from(Some(u))
        == a.chain_from(Some(u)) by {
        assert(b.live(u as int));
        assert(b.chain_from(Some(u)) == a.chain_from(Some(u)));
    }
}

/// Removing one present element shrinks a multiset by exactly one.
proof fn lemma_remove_len(m: Multiset<FrameIndex>, x: FrameIndex)
    requires
        m.count(x) >= 1,
    ensures
        m.remove(x).len() == m.len() - 1,
{
    assert(Multiset::singleton(x).subset_of(m)) by {
        assert forall|v: FrameIndex| Multiset::singleton(x).count(v) <= m.count(v) by {
            if v != x {
                assert(Multiset::singleton(x).count(v) == 0);
            }
        }
    }
    assert(Multiset::singleton(x).len() == 1);
}

/// Growth budget of `generate_tree` at a given level: three pushes (each may
/// add one slot and one handle unit), two clones (one unit each), and three
/// recursive calls one level down.
pub open spec fn touched(level: nat) -> nat
    decreases level,
{
    if level == 0 {
        0
    } else {
        8 + 3 * touched((level - 1) as nat)
    }
}

/// Grows a random ternary tree of stacks: pushes three random frames onto
/// `stack`, branches twice by cloning, and recurses on all three handles one
/// level down. The two branch handles are dropped on return without being
/// popped: their reference units are leaked on purpose, exactly as any
/// dropped handle leaks its unit — the frames they reach stay live. Nothing
/// is ever released here, so every chain observable before the call is
/// observable, unchanged, after it.
#[verifier::rlimit(100)]
pub fn generate_tree(ator: &mut FrameAtor, rand: &mut Rand, stack: &mut TypeStack, level: usize)
    requires
        old(ator).wf(),
        old(stack).valid(*old(ator)),
        old(ator).units().len() + old(ator).frames@.len() + touched(level as nat) <= usize::MAX,
    ensures
        arena_extends(*old(ator), *final(ator)),
        final(stack).valid(*final(ator)),
        final(ator).units().len() + final(ator).frames@.len() <= old(ator).units().len() + old(
            ator,
        ).frames@.len() + touched(level as nat),
        forall|u: FrameIndex|
            #[trigger] final(ator).units().count(u) >= old(ator).units().count(u) - (
            if old(stack).top == Some(u) {
                1int
            } else {
                0int
            }),
        level == 0 ==> *final(ator) == *old(ator) && *final(stack) == *old(stack),
        level >= 1 ==> (final(stack).top matches Some(tf) && !old(ator).live(tf as int)),
    decreases level,
{
    if level == 0 {
        return;
    }
    let ghost g0 = *ator;
    let ghost top0 = stack.top;
    proof {
        assert(touched(level as nat) == 8 + 3 * touched((level - 1) as nat));
    }

    let tag_a = rand_type(rand);
    stack.push(ator, tag_a);
    let ghost g1 = *ator;
    let ghost n1 = stack.top.unwrap();
    proof {
        assert(g0.units().count(n1) == 0) by {
            if (n1 as int) < g0.frames@.len() {
                assert(g0.frames@[n1 as int].1 == g0.units().count(n1) + g0.links_to(n1));
            }
        }
        if top0 is Some {
            lemma_remove_len(g0.units(), top0.unwrap());
        }
        assert(g1.units().len() <= g0.units().len() + 1);
    }

    let tag_b = rand_type(rand);
    stack.push(ator, tag_b);
    let ghost g2 = *ator;
    let ghost n2 = stack.top.unwrap();
    proof {
        assert(g0.units().count(n2) == 0) by {
            assert(!g0.live(n2 as int));
            if (n2 as int) < g0.frames@.len() {
                assert(g0.frames@[n2 as int].1 == g0.units().count(n2) + g0.links_to(n2));
            }
        }
        lemma_remove_len(g1.units(), n1);
        assert(g2.units().len() <= g1.units().len());
        lemma_extends_trans(g0, g1, g2);
    }

    let tag_c = rand_type(rand);
    stack.push(ator, tag_c);
    let ghost g3 = *ator;
    let ghost n3 = stack.top.unwrap();
    proof {
        assert(g0.units().count(n3) == 0) by {
            assert(!g0.live(n3 as int));
            if (n3 as int) < g0.frames@.len() {
                assert(g0.frames@[n3 as int].1 == g0.units().count(n3) + g0.links_to(n3));
            }
        }
        lemma_remove_len(g2.units(), n2);
        assert(g3.units().len() <= g2.units().len());
        lemma_extends_trans(g0, g2, g3);
        assert(g3.units().len() + g3.frames@.len() <= g0.units().len() + g0.frames@.len() + 6);
        assert(g3.units().count(n3) == 1);
    }

    let stack0 = stack.clone(ator);
    let ghost g4 = *ator;
    let stack1 = stack.clone(ator);
    let ghost g5 = *ator;
    proof {
        lemma_extends_trans(g0, g3, g4);
        lemma_extends_trans(g0, g4, g5);
        assert(g5.units().count(n3) == 3);
        assert(g5.units().len() + g5.frames@.len() <= g0.units().len() + g0.frames@.len() + 8);
    }

    let mut stack0 = stack0;
    let mut stack1 = stack1;
    generate_tree(ator, rand, stack, level - 1);
    let ghost g6 = *ator;
    proof {
        lemma_extends_trans(g0, g5, g6);
        assert(g6.units().count(n3) >= 2);
        assert(stack0.valid(g6));
        assert(stack1.valid(g6));
    }
    generate_tree(ator, rand, &mut stack0, level - 1);
    let ghost g7 = *ator;
    proof {
        lemma_extends_trans(g0, g6, g7);
        assert(g7.units().count(n3) >= 1);
        assert(stack1.valid(g7));
        // The main handle's top survived the branch's recursion: either the
        // level below was the last (nothing moved at all), or its top is a
        // frame the branch's walk knew nothing about.
        if level >= 2 {
            assert(stack.top.unwrap() != n3);
        }
        assert(stack.valid(g7));
    }
    generate_tree(ator, rand, &mut stack1, level - 1);
    let ghost g8 = *ator;
    proof {
        lemma_extends_trans(g0, g7, g8);
        if level >= 2 {
            assert(stack.top.unwrap() != n3);
        }
        assert(stack.valid(g8));
        // budget
        assert(g8.units().len() + g8.frames@.len() <= g0.units().len() + g0.frames@.len()
            + touched(level as nat));
        // per-slot unit bound: only the handle's own unit on the old top was
        // consumed; the three fresh frames held no units at entry.
        assert forall|u: FrameIndex| #[trigger] g8.units().count(u) >= g0.units().count(u) - (
        if top0 == Some(u) {
            1int
        } else {
            0int
        }) by {
            if u == n1 || u == n2 || u == n3 {
                assert(g0.units().count(u) == 0);
            } else {
                assert(g1.units().count(u) >= g0.units().count(u) - (if top0 == Some(u) {
                    1int
                } else {
                    0int
                }));
                assert(g2.units().count(u) == g1.units().count(u));
                assert(g3.units().count(u) == g2.units().count(u));
                assert(g4.units().count(u) == g3.units().count(u));
                assert(g5.units().count(u) == g4.units().count(u));
                assert(g6.units().count(u) >= g5.units().count(u));
                assert(g7.units().count(u) >= g6.units().count(u));
                assert(g8.units().count(u) >= g7.units().count(u));
            }
        }
    }
}

} // verus!
