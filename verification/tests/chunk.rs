use rox::chunk::{Chunk, Constant};
use rox::op::Op;
use rox::rle::Rle;
use rox::span::Span;

#[test]
fn rle_push_and_index() {
    let mut rle: Rle<u32> = Rle::new();
    assert!(rle.is_empty());
    rle.push(1);
    rle.push(1);
    rle.push(2);
    rle.extend(3, 3);
    rle.extend(3, 2);
    assert_eq!(rle.len(), 8);
    let expected = [1, 1, 2, 3, 3, 3, 3, 3];
    for (i, value) in expected.iter().enumerate() {
        assert_eq!(rle.index(i), value);
    }
}

#[test]
fn rle_extend_by_zero() {
    let mut rle: Rle<u32> = Rle::default();
    rle.extend(9, 0);
    rle.push(4);
    assert_eq!(rle.len(), 1);
    assert_eq!(*rle.index(0), 4);
}

#[test]
fn chunk_records_spans() {
    let mut chunk = Chunk::new();
    chunk.encode(Op::Nil, Span::new(0, 3));
    chunk.encode(Op::Constant { constant_index: 1 }, Span::new(4, 6));
    chunk.encode(Op::Return, Span::new(4, 6));
    assert_eq!(chunk.bytes(), &[1, 4, 1, 0][..]);
    assert_eq!(chunk.span(0), Span::new(0, 3));
    assert_eq!(chunk.span(1), Span::new(4, 6));
    assert_eq!(chunk.span(2), Span::new(4, 6));
    assert_eq!(chunk.span(3), Span::new(4, 6));
    assert_eq!(chunk.current(), 4);
}

#[test]
fn chunk_constants() {
    let mut chunk = Chunk::default();
    assert_eq!(chunk.add_constant(Constant::String(b"hi".to_vec())), 0);
    assert_eq!(chunk.add_constant(Constant::Function(3)), 1);
    assert_eq!(chunk.constants().len(), 2);
    assert!(matches!(&chunk.constants()[1], Constant::Function(3)));
}

#[test]
fn chunk_patches_jumps() {
    let mut chunk = Chunk::new();
    let target = chunk.encode_jump(Op::JumpIfFalse { distance: 0 }, Span::new(0, 2));
    assert_eq!(target, 3);
    chunk.encode(Op::Pop, Span::new(0, 2));
    chunk.encode(Op::Nil, Span::new(0, 2));
    chunk.patch_jump(target);
    assert_eq!(chunk.bytes(), &[27, 2, 0, 16, 1][..]);
}

#[test]
fn chunk_encodes_loops() {
    let mut chunk = Chunk::new();
    chunk.encode(Op::True, Span::new(0, 1));
    chunk.encode(Op::Pop, Span::new(0, 1));
    chunk.encode_loop(0, Span::new(0, 1));
    assert_eq!(chunk.bytes(), &[2, 16, 29, 5, 0][..]);
    assert_eq!(chunk.span(4), Span::new(0, 1));
}
