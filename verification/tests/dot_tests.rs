use frame_arena::arena::DataType;
use frame_arena::arena::FrameAtor;
use frame_arena::stack::TypeStack;

#[test]
fn dump_dot_of_empty_arena() {
    let ator = FrameAtor::default();
    assert_eq!(ator.dump_dot(), b"digraph Stacks {\n}\n".to_vec());
}

#[test]
fn dump_dot_single_node() {
    let mut ator = FrameAtor::default();
    let mut s = TypeStack::default();
    s.push(&mut ator, DataType::Int);
    let expected = "digraph Stacks {\n    Node_0 [label=\"Int (1)\"]\n}\n";
    assert_eq!(String::from_utf8(ator.dump_dot()).unwrap(), expected);
}

#[test]
fn dump_dot_chain_with_edges_and_counts() {
    let mut ator = FrameAtor::default();
    let mut s = TypeStack::default();
    s.push(&mut ator, DataType::Int);
    s.push(&mut ator, DataType::Ptr);
    let _t = s.clone(&mut ator);
    let expected = "digraph Stacks {\n    Node_0 [label=\"Int (1)\"]\n    Node_1 [label=\"Ptr (2)\"]\n    Node_1 -> Node_0\n}\n";
    assert_eq!(String::from_utf8(ator.dump_dot()).unwrap(), expected);
}

#[test]
fn dump_dot_spells_every_tag() {
    let mut ator = FrameAtor::default();
    let mut s = TypeStack::default();
    s.push(&mut ator, DataType::Bool);
    let mut t = TypeStack::default();
    t.push(&mut ator, DataType::Ptr);
    let text = String::from_utf8(ator.dump_dot()).unwrap();
    assert!(text.contains("[label=\"Bool (1)\"]"));
    assert!(text.contains("[label=\"Ptr (1)\"]"));
}

#[test]
fn dump_dot_prints_multi_digit_indices_and_counts() {
    let mut ator = FrameAtor::default();
    let mut s = TypeStack::default();
    for _ in 0..12 {
        s.push(&mut ator, DataType::Int);
    }
    let top = s.top.unwrap();
    for _ in 0..12 {
        ator.acquire(top);
    }
    let text = String::from_utf8(ator.dump_dot()).unwrap();
    assert!(text.contains("    Node_11 [label=\"Int (13)\"]\n"));
    assert!(text.contains("    Node_11 -> Node_10\n"));
}
