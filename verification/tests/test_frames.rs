use toycc::shared::definitions::CellId;
use toycc::shared::tables::{ChunkLayout, LayoutKind};
use toycc::shared::typing::{ConcreteType, PrimType};
use toycc::stages::lir::{LIRPlace, StackFrame};

fn layout(size: usize) -> ChunkLayout {
    ChunkLayout { size, typ: ConcreteType::Prim(PrimType::Integer), kind: LayoutKind::Atomic }
}

#[test]
fn frame_offsets_follow_the_layout_order() {
    let frame = StackFrame::from_layouts(&vec![(CellId(3), layout(8)), (CellId(1), layout(24)), (CellId(7), layout(16))]);
    assert_eq!(frame.size(), 48);
    assert_eq!(frame.get_offset(&CellId(3)), Some(8));
    assert_eq!(frame.get_offset(&CellId(1)), Some(16));
    assert_eq!(frame.get_offset(&CellId(7)), Some(40));
    assert_eq!(frame.get_offset(&CellId(2)), None);
}

#[test]
fn frame_chunks_do_not_overlap() {
    let frame = StackFrame::from_layouts(&vec![(CellId(0), layout(16)), (CellId(1), layout(8))]);
    let a = frame.get_offset(&CellId(0)).unwrap();
    let b = frame.get_offset(&CellId(1)).unwrap();
    assert!(a + 16 <= b);
    assert!(b + 8 <= 8 + frame.size());
}

#[test]
fn empty_frame() {
    let frame = StackFrame::from_layouts(&Vec::new());
    assert_eq!(frame.size(), 0);
    assert_eq!(frame.get_offset(&CellId(0)), None);
}

#[test]
fn increment_offset_keeps_the_base() {
    let p = LIRPlace::Local { base: CellId(4), offset: 8 };
    assert_eq!(p.increment_offset(16), LIRPlace::Local { base: CellId(4), offset: 24 });
    let q = LIRPlace::Deref { pointer: CellId(2), offset: 0 };
    assert_eq!(q.increment_offset(8), LIRPlace::Deref { pointer: CellId(2), offset: 8 });
}
