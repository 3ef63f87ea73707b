use frame_arena::arena::DataType;
use frame_arena::arena::FrameAtor;
use frame_arena::stack::TypeStack;

#[test]
fn scenario_shared_suffix() {
    let mut ator = FrameAtor::default();
    let mut s = TypeStack::default();
    s.push(&mut ator, DataType::Int);
    s.push(&mut ator, DataType::Ptr);
    s.push(&mut ator, DataType::Bool);
    assert_eq!(s.dump(&ator), vec![DataType::Bool, DataType::Ptr, DataType::Int]);

    let mut t = s.clone(&mut ator);
    t.pop(&mut ator);
    t.pop(&mut ator);
    assert_eq!(t.dump(&ator), vec![DataType::Int]);
    assert_eq!(s.dump(&ator), vec![DataType::Bool, DataType::Ptr, DataType::Int]);

    // The Bool and Ptr frames are held only through s's chain; the Int frame
    // is held by both s's chain and t's handle.
    let i_bool = s.top.unwrap();
    let i_ptr = ator.deref(i_bool).unwrap().previous.unwrap();
    let i_int = ator.deref(i_ptr).unwrap().previous.unwrap();
    assert_eq!(ator.ref_count(i_bool), Some(1));
    assert_eq!(ator.ref_count(i_ptr), Some(1));
    assert_eq!(ator.ref_count(i_int), Some(2));
    assert_eq!(t.top, Some(i_int));
}

#[test]
fn clone_shares_top_and_sequence() {
    let mut ator = FrameAtor::default();
    let mut a = TypeStack::default();
    a.push(&mut ator, DataType::Ptr);
    a.push(&mut ator, DataType::Bool);
    let top = a.top.unwrap();
    assert_eq!(ator.ref_count(top), Some(1));

    let b = a.clone(&mut ator);
    assert_eq!(b.top, a.top);
    assert_eq!(ator.ref_count(top), Some(2));
    assert_eq!(a.dump(&ator), b.dump(&ator));

    // A third holder raises the shared count once more.
    let c = a.clone(&mut ator);
    assert_eq!(ator.ref_count(top), Some(3));
    assert_eq!(c.dump(&ator), a.dump(&ator));
}

#[test]
fn clone_of_empty_is_empty() {
    let mut ator = FrameAtor::default();
    let a = TypeStack::default();
    let b = a.clone(&mut ator);
    assert_eq!(b.top, None);
    assert_eq!(b.dump(&ator), Vec::<DataType>::new());
}

#[test]
fn pop_of_empty_is_noop() {
    let mut ator = FrameAtor::default();
    let mut s = TypeStack::default();
    s.push(&mut ator, DataType::Int);
    s.pop(&mut ator);
    let before = ator.dump_dot();
    s.pop(&mut ator);
    s.pop(&mut ator);
    assert_eq!(s.top, None);
    assert_eq!(ator.dump_dot(), before);
}

#[test]
fn dump_is_idempotent() {
    let mut ator = FrameAtor::default();
    let mut s = TypeStack::default();
    s.push(&mut ator, DataType::Bool);
    s.push(&mut ator, DataType::Int);
    let first = s.dump(&ator);
    let second = s.dump(&ator);
    assert_eq!(first, second);
    assert_eq!(ator.dump_dot(), ator.dump_dot());
}

#[test]
fn popping_one_branch_leaves_the_other_untouched() {
    let mut ator = FrameAtor::default();
    let mut s = TypeStack::default();
    s.push(&mut ator, DataType::Int);
    s.push(&mut ator, DataType::Ptr);
    let mut t = s.clone(&mut ator);
    t.push(&mut ator, DataType::Bool);

    let expected = s.dump(&ator);
    while t.top.is_some() {
        t.pop(&mut ator);
    }
    assert_eq!(t.top, None);
    assert_eq!(s.dump(&ator), expected);
    assert_eq!(s.dump(&ator), vec![DataType::Ptr, DataType::Int]);
}

#[test]
fn push_after_pop_reuses_last_freed_slot() {
    let mut ator = FrameAtor::default();
    let mut s = TypeStack::default();
    s.push(&mut ator, DataType::Int);
    s.push(&mut ator, DataType::Ptr);
    let i_ptr = s.top.unwrap();
    let i_int = ator.deref(i_ptr).unwrap().previous.unwrap();
    s.pop(&mut ator);
    s.pop(&mut ator);
    assert_eq!(ator.ref_count(i_ptr), Some(0));
    assert_eq!(ator.ref_count(i_int), Some(0));

    // Reuse is last-freed-first: the slot of the Int frame was freed last.
    s.push(&mut ator, DataType::Bool);
    assert_eq!(s.top, Some(i_int));
    assert_eq!(ator.ref_count(i_int), Some(1));
}
