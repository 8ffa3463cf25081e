use trashsim::player::{Player, CAPACITY};
use trashsim::world::{Block, World, WorldPos};

#[test]
fn collects_trash_below() {
    let mut world = World::new();
    let mut player = Player::new(WorldPos(0, 10));
    world.set_block(WorldPos(0, 9), Block::Trash);
    player.next_move(&mut world);
    assert_eq!(player.load, 1);
    assert_eq!(player.pos, WorldPos(0, 9));
    assert_eq!(world.get_block(WorldPos(0, 9)), Some(Block::Air));
    assert!(player.current_target.is_none());
}

#[test]
fn full_player_deposits_at_own_column() {
    let mut world = World::new();
    let mut player = Player {
        pos: WorldPos(0, 10),
        load: CAPACITY,
        current_target: None,
    };
    // trash below must not tempt a full player into collecting
    world.set_block(WorldPos(0, 9), Block::Trash);
    player.next_move(&mut world);
    assert_eq!(player.load, 0);
    assert_eq!(player.pos, WorldPos(0, 11));
    assert_eq!(world.get_block(WorldPos(0, 10)), Some(Block::Compacted));
    assert_eq!(world.get_block(WorldPos(0, 9)), Some(Block::Trash));
}

#[test]
fn load_never_exceeds_capacity() {
    let mut world = World::new();
    let mut player = Player::new(WorldPos(0, 0));
    for _ in 0..200 {
        world.update();
        player.next_move(&mut world);
        assert!(0 <= player.load && player.load <= CAPACITY);
    }
}

#[test]
fn unload_target_on_flat_profile_is_column_zero() {
    let world = World::new();
    // columns 4 down to 0 are hollowed to ground level: a flat profile
    let player = Player {
        pos: WorldPos(4, 0),
        load: CAPACITY,
        current_target: None,
    };
    assert_eq!(player.find_unload_target(&world), WorldPos(0, -1));
}

#[test]
fn unload_target_stops_before_tall_ledge() {
    let mut world = World::new();
    world.set_block(WorldPos(2, 3), Block::Ground);
    let player = Player {
        pos: WorldPos(4, 0),
        load: CAPACITY,
        current_target: None,
    };
    // the jump from height -1 to 3 exceeds 3: stop one column before it
    assert_eq!(player.find_unload_target(&world), WorldPos(3, -1));
}

#[test]
fn walks_toward_target_on_level_ground() {
    let world = World::new();
    let mut player = Player {
        pos: WorldPos(0, 0),
        load: 0,
        current_target: Some(WorldPos(3, 0)),
    };
    player.move_towards_target(&world);
    assert_eq!(player.pos, WorldPos(1, 0));
    assert_eq!(player.current_target, Some(WorldPos(3, 0)));
}

#[test]
fn target_in_own_column_is_dropped() {
    let world = World::new();
    let mut player = Player {
        pos: WorldPos(2, 0),
        load: 0,
        current_target: Some(WorldPos(2, 5)),
    };
    player.move_towards_target(&world);
    assert_eq!(player.pos, WorldPos(2, 0));
    assert!(player.current_target.is_none());
}

#[test]
fn climbs_single_step_up() {
    let mut world = World::new();
    world.set_block(WorldPos(1, 0), Block::Ground);
    let mut player = Player {
        pos: WorldPos(0, 0),
        load: 0,
        current_target: Some(WorldPos(3, 0)),
    };
    player.move_towards_target(&world);
    assert_eq!(player.pos, WorldPos(1, 1));
}

#[test]
fn full_player_walks_to_deposit_column() {
    let mut world = World::new();
    let mut player = Player {
        pos: WorldPos(4, 0),
        load: CAPACITY,
        current_target: None,
    };
    // tick 1 picks column 0 as the target and walks; three more walks reach
    // it, one tick drops the target, and the last tick deposits
    for _ in 0..6 {
        player.next_move(&mut world);
    }
    assert_eq!(player.load, 0);
    assert_eq!(player.pos, WorldPos(0, 1));
    assert_eq!(world.get_block(WorldPos(0, 0)), Some(Block::Compacted));
}

#[test]
fn finds_nearest_trash_to_the_right_first() {
    let mut world = World::new();
    let player = Player::new(WorldPos(0, 0));
    let found = player.find_nearest_trash(&mut world);
    // the nearest trash column on either side of the wedge is x = 5 at row 0,
    // and the right side is probed first
    assert_eq!(found, Some(WorldPos(5, 0)));
    assert_eq!(world.get_block(WorldPos(5, 0)), Some(Block::Trash));
}
