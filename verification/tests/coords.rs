use trashsim::coords::{negative_int_div, negative_mod};
use trashsim::world::{ChunkPos, InChunkPos, WorldPos};

#[test]
fn world_to_chunk() {
    let data = vec![
        (WorldPos(0, 0), ChunkPos(0, 0)),
        (WorldPos(15, 15), ChunkPos(0, 0)),
        (WorldPos(16, 16), ChunkPos(1, 1)),
        (WorldPos(-1, -1), ChunkPos(-1, -1)),
        (WorldPos(-16, -16), ChunkPos(-1, -1)),
        (WorldPos(-17, -17), ChunkPos(-2, -2)),
    ];
    for (input, expected) in data {
        let chunk: ChunkPos = input.into();
        assert_eq!(chunk, expected);
    }
}

#[test]
fn world_to_in_chunk() {
    let data = vec![
        (WorldPos(0, 0), InChunkPos(0, 0)),
        (WorldPos(15, 15), InChunkPos(15, 15)),
        (WorldPos(16, 16), InChunkPos(0, 0)),
        (WorldPos(-1, -1), InChunkPos(15, 15)),
        (WorldPos(-16, -16), InChunkPos(0, 0)),
        (WorldPos(-17, -17), InChunkPos(15, 15)),
    ];
    for (input, expected) in data {
        let chunk: InChunkPos = input.into();
        assert_eq!(chunk, expected);
    }
}

#[test]
fn floor_division_rounds_toward_negative_infinity() {
    assert_eq!(negative_int_div(-1, 16), -1);
    assert_eq!(negative_mod(-1, 16), 15);
    assert_eq!(negative_int_div(-16, 16), -1);
    assert_eq!(negative_mod(-16, 16), 0);
    assert_eq!(negative_int_div(-17, 16), -2);
    assert_eq!(negative_mod(-17, 16), 15);
}

#[test]
fn floor_division_recombines() {
    let samples = [
        i32::MIN,
        i32::MIN + 1,
        -257,
        -256,
        -255,
        -17,
        -16,
        -15,
        -1,
        0,
        1,
        15,
        16,
        17,
        255,
        256,
        i32::MAX - 1,
        i32::MAX,
    ];
    for &x in samples.iter() {
        let q = negative_int_div(x, 16);
        let m = negative_mod(x, 16);
        assert!(0 <= m && m < 16);
        assert_eq!(q as i64 * 16 + m as i64, x as i64);
    }
}
