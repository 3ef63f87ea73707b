use frame_arena::arena::DataType;
use frame_arena::arena::FrameAtor;
use frame_arena::driver::generate_tree;
use frame_arena::driver::rand_type;
use frame_arena::driver::Rand;
use frame_arena::driver::RAND_A;
use frame_arena::driver::RAND_C;
use frame_arena::stack::TypeStack;

#[test]
fn rand_follows_the_linear_congruential_step() {
    let mut rand = Rand { seed: 69 };
    assert_eq!(rand.rand(), 3793505204);
    assert_eq!(rand.rand(), 1003295163);
    assert_eq!(rand.rand(), 2468799793);
    let expected_seed = RAND_A
        .wrapping_mul(RAND_A.wrapping_mul(RAND_A.wrapping_mul(69).wrapping_add(RAND_C)).wrapping_add(RAND_C))
        .wrapping_add(RAND_C);
    assert_eq!(rand.seed, expected_seed);
}

#[test]
fn rand_type_picks_by_residue() {
    // The drawn values for seed 69 have residues 2, 0, 1, 1, 2, 1 modulo 3.
    let mut rand = Rand { seed: 69 };
    assert_eq!(rand_type(&mut rand), DataType::Bool);
    assert_eq!(rand_type(&mut rand), DataType::Int);
    assert_eq!(rand_type(&mut rand), DataType::Ptr);
    assert_eq!(rand_type(&mut rand), DataType::Ptr);
    assert_eq!(rand_type(&mut rand), DataType::Bool);
    assert_eq!(rand_type(&mut rand), DataType::Ptr);
}

#[test]
fn generate_tree_level_zero_changes_nothing() {
    let mut ator = FrameAtor::default();
    let mut rand = Rand { seed: 7 };
    let mut stack = TypeStack::default();
    generate_tree(&mut ator, &mut rand, &mut stack, 0);
    assert_eq!(stack.top, None);
    assert_eq!(ator.dump_dot(), b"digraph Stacks {\n}\n".to_vec());
    assert_eq!(rand.seed, 7);
}

#[test]
fn generate_tree_grows_three_frames_per_level_on_the_main_path() {
    let mut ator = FrameAtor::default();
    let mut rand = Rand { seed: 69 };
    let mut stack = TypeStack::default();
    generate_tree(&mut ator, &mut rand, &mut stack, 1);
    assert_eq!(stack.dump(&ator).len(), 3);

    let mut ator2 = FrameAtor::default();
    let mut rand2 = Rand { seed: 69 };
    let mut stack2 = TypeStack::default();
    generate_tree(&mut ator2, &mut rand2, &mut stack2, 2);
    assert_eq!(stack2.dump(&ator2).len(), 6);
}

#[test]
fn generate_tree_shares_the_level_suffix() {
    let mut ator = FrameAtor::default();
    let mut rand = Rand { seed: 69 };
    let mut stack = TypeStack::default();
    generate_tree(&mut ator, &mut rand, &mut stack, 1);
    // One level: three pushes, then two clones of the same top, whose
    // handles were dropped without popping — their units are leaked, so the
    // top frame still counts three holders.
    let top = stack.top.unwrap();
    assert_eq!(ator.ref_count(top), Some(3));
}

#[test]
fn generate_tree_level_one_matches_the_drawn_tags() {
    let mut ator = FrameAtor::default();
    let mut rand = Rand { seed: 69 };
    let mut stack = TypeStack::default();
    generate_tree(&mut ator, &mut rand, &mut stack, 1);
    // Top to bottom: the third, second, first drawn tags.
    assert_eq!(
        stack.dump(&ator),
        vec![DataType::Ptr, DataType::Int, DataType::Bool],
    );
}
