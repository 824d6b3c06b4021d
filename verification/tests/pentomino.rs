use puzzles::solver::pentomino::{Block, TargetBlock, TargetType};

/// Block tests
#[test]
fn pentomino_block_test() {
    let block = Block::new("110111", 3, 2);
    assert_eq!(block.flip(), Block::new("011111", 3, 2));
    assert_eq!(block.rotate(0), Block::new("110111", 3, 2));
    assert_eq!(block.rotate(1), Block::new("111110", 2, 3));
    assert_eq!(block.rotate(2), Block::new("111011", 3, 2));
    assert_eq!(block.rotate(3), Block::new("011111", 2, 3));
    assert_eq!(block.rotate(4), Block::new("110111", 3, 2));
}

#[test]
fn pentomino_targetblock_test() {
    let targetblock = TargetBlock::new("010111010", 3, 3, 100, &TargetType::ROTATEFLIP);
    println!("{:?}", targetblock);
}

#[test]
fn block_turns_and_mirror_are_exact() {
    let block = Block::new("110111", 3, 2);
    assert_eq!(block.cells(), vec![(1, 0), (0, 1), (1, 1), (2, 1)]);
    assert_eq!(block.flip().cells(), vec![(1, 0), (1, 1), (0, 1), (-1, 1)]);
    assert_eq!(Block::new("011111", 3, 2).cells(), vec![(1, 0), (-1, 1), (0, 1), (1, 1)]);
    assert!(!block.flip().same_squares(&Block::new("011111", 3, 2)));
    assert_eq!(block.rotate(1).cells(), vec![(1, 0), (1, 1), (0, 1), (0, 2)]);
    assert!(block.rotate(0).same_squares(&block));
    assert!(block.rotate(4).same_squares(&block));
    assert!(!block.rotate(1).same_squares(&block));
    assert!(block.flip().flip().same_squares(&block));
}

#[test]
fn block_equality_looks_at_the_first_square() {
    let a = Block::new("110111", 3, 2);
    let b = Block::new("111111", 3, 2);
    assert!(a == b);
    let c = Block::new("101111", 3, 2);
    assert!(a != c);
    let single = Block::new("1", 1, 1);
    assert!(single == a);
}

fn shapes_of(t: &TargetBlock) -> Vec<Vec<(i32, i32)>> {
    (0..t.shape_count()).map(|i| t.shape(i)).collect()
}

fn without_repeats(all: Vec<Vec<(i32, i32)>>) -> Vec<Vec<(i32, i32)>> {
    let mut out: Vec<Vec<(i32, i32)>> = vec![];
    for shape in all {
        if !out.contains(&shape) {
            out.push(shape);
        }
    }
    out
}

#[test]
fn target_block_holds_each_placing_once() {
    let picture = "110111";
    let block = Block::new(picture, 3, 2);

    let t = TargetBlock::new(picture, 3, 2, 100, &TargetType::ROTATE);
    assert_eq!(t.mark(), 'd');
    assert!(!t.is_used());
    let all = (0..4).map(|i| block.rotate(i).cells()).collect();
    assert_eq!(shapes_of(&t), without_repeats(all));
    assert_eq!(t.shape_count(), 4);

    let t = TargetBlock::new(picture, 3, 2, 65, &TargetType::FLIP);
    assert_eq!(t.mark(), 'A');
    assert_eq!(shapes_of(&t), vec![block.flip().cells(), block.cells()]);

    let t = TargetBlock::new(picture, 3, 2, 0x3042, &TargetType::ROTATEFLIP);
    assert_eq!(t.mark(), '\u{3042}');
    let mut all = vec![];
    for i in 0..4 {
        all.push(block.rotate(i).cells());
        all.push(block.flip().rotate(i).cells());
    }
    assert_eq!(shapes_of(&t), without_repeats(all));
    assert_eq!(t.shape_count(), 8);

    let bar = TargetBlock::new("11111", 5, 1, 101, &TargetType::FLIP);
    assert_eq!(
        shapes_of(&bar),
        vec![
            vec![(4, 0), (3, 0), (2, 0), (1, 0)],
            vec![(1, 0), (2, 0), (3, 0), (4, 0)]
        ]
    );
    let dot = TargetBlock::new("1", 1, 1, 102, &TargetType::ROTATEFLIP);
    assert_eq!(shapes_of(&dot), vec![vec![]]);
}
