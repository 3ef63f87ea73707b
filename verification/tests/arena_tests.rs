use frame_arena::arena::DataType;
use frame_arena::arena::Frame;
use frame_arena::arena::FrameAtor;
use frame_arena::stack::TypeStack;

#[test]
fn allocate_assigns_fresh_indices_in_order() {
    let mut ator = FrameAtor::default();
    let i0 = ator.allocate(Frame { data_type: DataType::Int, previous: None });
    let mut s = TypeStack { top: Some(i0) };
    s.push(&mut ator, DataType::Ptr);
    let i1 = s.top.unwrap();
    assert_eq!(i0, 0);
    assert_eq!(i1, 1);
    assert_eq!(ator.ref_count(i0), Some(1));
    assert_eq!(ator.ref_count(i1), Some(1));
}

#[test]
fn deref_reads_frames_and_rejects_out_of_bounds() {
    let mut ator = FrameAtor::default();
    let mut s = TypeStack::default();
    s.push(&mut ator, DataType::Bool);
    let top = s.top.unwrap();
    let frame = ator.deref(top).unwrap();
    assert_eq!(frame.data_type, DataType::Bool);
    assert_eq!(frame.previous, None);
    assert!(ator.deref(top + 1).is_none());
    assert!(ator.ref_count(top + 1).is_none());
}

#[test]
fn deref_mut_replaces_the_payload_only() {
    let mut ator = FrameAtor::default();
    let mut s = TypeStack::default();
    s.push(&mut ator, DataType::Int);
    s.push(&mut ator, DataType::Ptr);
    let top = s.top.unwrap();
    let replaced = ator.deref_mut(top, DataType::Bool);
    assert_eq!(replaced, Some(DataType::Ptr));
    let frame = ator.deref(top).unwrap();
    assert_eq!(frame.data_type, DataType::Bool);
    assert!(frame.previous.is_some());
    assert_eq!(ator.ref_count(top), Some(1));
    assert_eq!(s.dump(&ator), vec![DataType::Bool, DataType::Int]);
    assert_eq!(ator.deref_mut(77, DataType::Int), None);
}

#[test]
fn acquire_and_release_balance_the_count() {
    let mut ator = FrameAtor::default();
    let mut s = TypeStack::default();
    s.push(&mut ator, DataType::Int);
    let top = s.top.unwrap();
    ator.acquire(top);
    ator.acquire(top);
    assert_eq!(ator.ref_count(top), Some(3));
    ator.release(top);
    assert_eq!(ator.ref_count(top), Some(2));
    ator.release(top);
    assert_eq!(ator.ref_count(top), Some(1));
}

#[test]
fn release_cascades_down_the_whole_chain() {
    let mut ator = FrameAtor::default();
    let mut s = TypeStack::default();
    s.push(&mut ator, DataType::Int);
    s.push(&mut ator, DataType::Ptr);
    s.push(&mut ator, DataType::Bool);
    let top = s.top.unwrap();

    // Give the whole chain up in one stroke: every count drops to zero.
    ator.release(top);
    assert_eq!(ator.ref_count(0), Some(0));
    assert_eq!(ator.ref_count(1), Some(0));
    assert_eq!(ator.ref_count(2), Some(0));
    assert_eq!(ator.dump_dot(), b"digraph Stacks {\n}\n".to_vec());

    // The cascade freed top-first, so the bottom slot is reused first.
    let mut fresh = TypeStack::default();
    fresh.push(&mut ator, DataType::Ptr);
    assert_eq!(fresh.top, Some(0));
}

#[test]
fn reclaimed_slots_leave_the_dump_and_are_reused() {
    let mut ator = FrameAtor::default();
    let mut s = TypeStack::default();
    s.push(&mut ator, DataType::Int);
    s.push(&mut ator, DataType::Ptr);
    s.pop(&mut ator);
    let i_freed = 1;
    assert_eq!(ator.ref_count(i_freed), Some(0));
    let dump = ator.dump_dot();
    let text = String::from_utf8(dump).unwrap();
    assert!(!text.contains("Node_1"));
    assert!(text.contains("Node_0"));

    s.push(&mut ator, DataType::Bool);
    assert_eq!(s.top, Some(i_freed));
}
