use trashsim::world::{Block, Chunk, ChunkPos, InChunkPos, UpdateCommand, World, WorldPos};

#[test]
fn generate_is_pure() {
    let a = Chunk::generate(ChunkPos(3, 0));
    let b = Chunk::generate(ChunkPos(3, 0));
    for x in 0..16 {
        for y in 0..16 {
            assert_eq!(
                a.get_block(InChunkPos(x, y)),
                b.get_block(InChunkPos(x, y))
            );
        }
    }
}

#[test]
fn generate_stratifies() {
    let below = Chunk::generate(ChunkPos(5, -1));
    let origin = Chunk::generate(ChunkPos(5, 0));
    let above = Chunk::generate(ChunkPos(5, 1));
    for x in 0..16 {
        for y in 0..16 {
            assert_eq!(below.get_block(InChunkPos(x, y)), Block::Ground);
            let expected = if y < 6 { Block::Trash } else { Block::Air };
            assert_eq!(origin.get_block(InChunkPos(x, y)), expected);
            assert_eq!(above.get_block(InChunkPos(x, y)), Block::Air);
        }
    }
}

#[test]
fn ensure_chunk_is_idempotent() {
    let mut world = World::new();
    world.set_block(WorldPos(3, 8), Block::Ground);
    world.ensure_chunk(ChunkPos(0, 0));
    world.ensure_block(WorldPos(3, 8));
    assert_eq!(world.get_block(WorldPos(3, 8)), Some(Block::Ground));
}

#[test]
fn fresh_world_scene() {
    let world = World::new();
    // the carve hollows the wedge around x = 0 down to row 0
    assert_eq!(world.get_block(WorldPos(0, 0)), Some(Block::Air));
    assert_eq!(world.get_block(WorldPos(4, 0)), Some(Block::Air));
    assert_eq!(world.get_block(WorldPos(-5, 0)), Some(Block::Air));
    assert_eq!(world.get_block(WorldPos(9, 5)), Some(Block::Air));
    // ground below row 0, trash outside the wedge in rows [0, 6)
    assert_eq!(world.get_block(WorldPos(0, -1)), Some(Block::Ground));
    assert_eq!(world.get_block(WorldPos(10, 5)), Some(Block::Trash));
    assert_eq!(world.get_block(WorldPos(-11, 0)), Some(Block::Trash));
    // plain reads never materialize; far chunks stay absent
    assert_eq!(world.get_block(WorldPos(40, 0)), None);
    // an unmaterialized column reports the fallback height
    let top = world.get_highest_block(100);
    assert_eq!(top, WorldPos(100, 5));
}

#[test]
fn highest_block_tracks_mutations() {
    let mut world = World::new();
    assert_eq!(world.get_highest_block(0), WorldPos(0, -1));
    world.set_block(WorldPos(0, 9), Block::Compacted);
    assert_eq!(world.get_highest_block(0), WorldPos(0, 9));
    world.set_block(WorldPos(0, 9), Block::Air);
    assert_eq!(world.get_highest_block(0), WorldPos(0, -1));
}

#[test]
fn isolated_trash_falls_one_diagonal() {
    let mut world = World::new();
    world.set_block(WorldPos(0, 10), Block::Trash);
    assert_eq!(world.get_block(WorldPos(-1, 9)), Some(Block::Air));
    assert_eq!(world.get_block(WorldPos(1, 9)), Some(Block::Air));
    world.update();
    assert_eq!(world.get_block(WorldPos(0, 10)), Some(Block::Air));
    let left = world.get_block(WorldPos(-1, 9)) == Some(Block::Trash);
    let right = world.get_block(WorldPos(1, 9)) == Some(Block::Trash);
    assert!(left != right, "the trash lands in exactly one diagonal");
    // the down-left proposal is emitted and applied first
    assert_eq!(world.get_block(WorldPos(-1, 9)), Some(Block::Trash));
    assert_eq!(world.get_block(WorldPos(1, 9)), Some(Block::Air));
}

#[test]
fn boundary_gates_until_neighbor_materializes() {
    let mut world = World::new();
    // a trash cell on the chunk's right edge, solid to its lower left
    world.set_block(WorldPos(15, 8), Block::Trash);
    world.set_block(WorldPos(14, 7), Block::Ground);
    // the chunk across the boundary is absent: treated as solid
    assert_eq!(world.get_block(WorldPos(16, 7)), None);
    world.update();
    assert_eq!(world.get_block(WorldPos(15, 8)), Some(Block::Trash));
    // once the neighbor exists, the fall crosses on the next tick
    world.ensure_block(WorldPos(16, 7));
    assert_eq!(world.get_block(WorldPos(16, 7)), Some(Block::Air));
    world.update();
    assert_eq!(world.get_block(WorldPos(15, 8)), Some(Block::Air));
    assert_eq!(world.get_block(WorldPos(16, 7)), Some(Block::Trash));
}

#[test]
fn chunk_update_proposes_both_diagonals() {
    let mut world = World::new();
    world.set_block(WorldPos(0, 10), Block::Trash);
    let chunk = Chunk::generate(ChunkPos(0, 0));
    let commands = chunk.update(ChunkPos(0, 0), &world);
    let mut to_left: i32 = 0;
    let mut to_right: i32 = 0;
    for c in commands.iter() {
        let UpdateCommand::Move(from, to) = c;
        if from.0 == 0 && from.1 == 10 {
            if to.0 == -1 && to.1 == 9 {
                to_left += 1;
            }
            if to.0 == 1 && to.1 == 9 {
                to_right += 1;
            }
        }
    }
    assert_eq!(to_left, 1);
    assert_eq!(to_right, 1);
}

#[test]
fn ensure_rect_materializes_footprint() {
    let mut world = World::new();
    world.ensure_rect(WorldPos(30, 40), WorldPos(45, 33));
    assert_eq!(world.get_block(WorldPos(33, 35)), Some(Block::Air));
    assert_eq!(world.get_block(WorldPos(40, 2)), None);
    let mut found = false;
    for i in 0..world.chunk_count() {
        if world.chunk_pos_at(i) == ChunkPos(2, 2) {
            found = true;
        }
    }
    assert!(found);
}
