//! The sparse chunked world: a mapping from chunk positions to 16x16 chunks
//! of blocks, materialized lazily and generated deterministically, with
//! global block queries, a per-column highest-block query, and the two-phase
//! (collect, then apply) falling-trash update tick.

use vstd::prelude::*;

use crate::coords::{floor_div, floor_mod, lemma_floor_div_mod, negative_int_div, negative_mod};

verus! {

/// One cell of world state. `Air` is passable; every other kind is solid.
#[derive(Clone, Copy, PartialEq, Eq, Structural, Debug)]
pub enum Block {
    Air,
    Ground,
    Trash,
    Compacted,
}

/// A position in world space, one unit per block.
#[derive(Clone, Copy, PartialEq, Eq, Structural, Debug)]
pub struct WorldPos(pub i32, pub i32);

impl WorldPos {
    /// The position `i` columns to the right (left for negative `i`).
    pub fn add_x(&self, i: i32) -> (r: WorldPos)
        requires
            -0x8000_0000 <= self.0 + i <= 0x7fff_ffff,
        ensures
            r.0 == self.0 + i,
            r.1 == self.1,
    {
        WorldPos(self.0 + i, self.1)
    }

    /// The position `i` rows up (down for negative `i`).
    pub fn add_y(&self, i: i32) -> (r: WorldPos)
        requires
            -0x8000_0000 <= self.1 + i <= 0x7fff_ffff,
        ensures
            r.0 == self.0,
            r.1 == self.1 + i,
    {
        WorldPos(self.0, self.1 + i)
    }
}

/// The position of a 16x16 chunk: world coordinates floor-divided by 16.
#[derive(Clone, Copy, PartialEq, Eq, Structural, Debug)]
pub struct ChunkPos(pub i32, pub i32);

impl From<WorldPos> for ChunkPos {
    fn from(value: WorldPos) -> (r: Self) {
        ChunkPos(negative_int_div(value.0, 16), negative_int_div(value.1, 16))
    }
}

impl vstd::std_specs::convert::FromSpecImpl<WorldPos> for ChunkPos {
    open spec fn obeys_from_spec() -> bool {
        true
    }

    open spec fn from_spec(v: WorldPos) -> ChunkPos {
        ChunkPos(floor_div(v.0 as int, 16) as i32, floor_div(v.1 as int, 16) as i32)
    }
}

/// An offset inside a chunk: world coordinates floor-modulo 16, so both
/// components lie in `[0, 16)`.
#[derive(Clone, Copy, PartialEq, Eq, Structural, Debug)]
pub struct InChunkPos(pub i32, pub i32);

impl From<WorldPos> for InChunkPos {
    fn from(value: WorldPos) -> (r: Self) {
        InChunkPos(negative_mod(value.0, 16), negative_mod(value.1, 16))
    }
}

impl vstd::std_specs::convert::FromSpecImpl<WorldPos> for InChunkPos {
    open spec fn obeys_from_spec() -> bool {
        true
    }

    open spec fn from_spec(v: WorldPos) -> InChunkPos {
        InChunkPos(floor_mod(v.0 as int, 16) as i32, floor_mod(v.1 as int, 16) as i32)
    }
}

/// The block that deterministic generation puts at local row `ly` of a chunk
/// at chunk row `cy`: ground strictly below world row 0, trash in world rows
/// `[0, 6)`, air above. The column has no effect.
pub open spec fn generated_block(cy: int, ly: int) -> Block {
    if cy * 16 + ly < 0 {
        Block::Ground
    } else if cy * 16 + ly < 6 {
        Block::Trash
    } else {
        Block::Air
    }
}

/// The in-chunk cell index used by the backing array, with its inverse.
proof fn lemma_cell_index(x: int, y: int)
    requires
        0 <= x < 16,
        0 <= y < 16,
    ensures
        0 <= x * 16 + y < 256,
        (x * 16 + y) % 16 == y,
        (x * 16 + y) / 16 == x,
{
    vstd::arithmetic::div_mod::lemma_fundamental_div_mod_converse(x * 16 + y, 16, x, y);
}

/// A 16x16 block of cells; the unit of lazy materialization.
pub struct Chunk {
    blocks: Vec<Block>,
}

impl Chunk {
    /// The cells as a flat sequence of length 256, indexed by `x * 16 + y`.
    pub closed spec fn cells(self) -> Seq<Block> {
        self.blocks@
    }

    pub open spec fn wf(self) -> bool {
        self.cells().len() == 256
    }

    /// The cell at local offset `(x, y)`.
    pub open spec fn spec_at(self, x: int, y: int) -> Block {
        self.cells()[x * 16 + y]
    }

    /// Deterministically generates the chunk at `pos`: pure in `pos`, so two
    /// chunks generated for the same position have identical content.
    pub fn generate(pos: ChunkPos) -> (c: Chunk)
        requires
            -0x0800_0000 <= pos.1 < 0x0800_0000,
        ensures
            c.wf(),
            forall|x: int, y: int|
                0 <= x < 16 && 0 <= y < 16 ==> c.spec_at(x, y) == generated_block(
                    pos.1 as int,
                    y,
                ),
    {
        let mut blocks: Vec<Block> = Vec::new();
        for x in 0..16i32
            invariant
                -0x0800_0000 <= pos.1 < 0x0800_0000,
                blocks@.len() == 16 * x,
                forall|k: int|
                    0 <= k < blocks@.len() ==> blocks@[k] == generated_block(pos.1 as int, k % 16),
        {
            for y in 0..16i32
                invariant
                    -0x0800_0000 <= pos.1 < 0x0800_0000,
                    0 <= x < 16,
                    blocks@.len() == 16 * x + y,
                    forall|k: int|
                        0 <= k < blocks@.len() ==> blocks@[k] == generated_block(
                            pos.1 as int,
                            k % 16,
                        ),
            {
                let world_y: i32 = pos.1 * 16 + y;
                let block = if world_y < 0 {
                    Block::Ground
                } else if world_y < 6 {
                    Block::Trash
                } else {
                    Block::Air
                };
                proof {
                    lemma_cell_index(x as int, y as int);
                }
                blocks.push(block);
            }
        }
        let c = Chunk { blocks };
        proof {
            assert forall|x: int, y: int| 0 <= x < 16 && 0 <= y < 16 implies c.spec_at(x, y)
                == generated_block(pos.1 as int, y) by {
                lemma_cell_index(x, y);
            }
        }
        c
    }

    /// Generation is pure: two chunks generated for the same position, as
    /// `generate`'s contract describes them, hold identical content in every
    /// cell.
    pub proof fn lemma_generate_deterministic(a: Chunk, b: Chunk, pos: ChunkPos)
        requires
            forall|x: int, y: int|
                0 <= x < 16 && 0 <= y < 16 ==> a.spec_at(x, y) == generated_block(
                    pos.1 as int,
                    y,
                ),
            forall|x: int, y: int|
                0 <= x < 16 && 0 <= y < 16 ==> b.spec_at(x, y) == generated_block(
                    pos.1 as int,
                    y,
                ),
        ensures
            forall|x: int, y: int| 0 <= x < 16 && 0 <= y < 16 ==> a.spec_at(x, y) == b.spec_at(
                x,
                y,
            ),
    {
    }

    /// Writes one cell; every other cell keeps its value.
    pub fn set_block(&mut self, pos: InChunkPos, block: Block)
        requires
            old(self).wf(),
            0 <= pos.0 < 16,
            0 <= pos.1 < 16,
        ensures
            final(self).wf(),
            final(self).spec_at(pos.0 as int, pos.1 as int) == block,
            forall|x: int, y: int|
                0 <= x < 16 && 0 <= y < 16 && !(x == pos.0 && y == pos.1) ==> final(self).spec_at(
                    x,
                    y,
                ) == old(self).spec_at(x, y),
    {
        proof {
            lemma_cell_index(pos.0 as int, pos.1 as int);
        }
        let idx: usize = (pos.0 * 16 + pos.1) as usize;
        let slot = &mut self.blocks[idx];
        *slot = block;
        proof {
            assert forall|x: int, y: int|
                0 <= x < 16 && 0 <= y < 16 && !(x == pos.0 && y == pos.1) implies self.spec_at(x, y)
                == old(self).spec_at(x, y) by {
                lemma_cell_index(x, y);
                lemma_cell_index(pos.0 as int, pos.1 as int);
            }
        }
    }

    /// Reads one cell.
    pub fn get_block(&self, pos: InChunkPos) -> (r: Block)
        requires
            self.wf(),
            0 <= pos.0 < 16,
            0 <= pos.1 < 16,
        ensures
            r == self.spec_at(pos.0 as int, pos.1 as int),
    {
        proof {
            lemma_cell_index(pos.0 as int, pos.1 as int);
        }
        let idx: usize = (pos.0 * 16 + pos.1) as usize;
        self.blocks[idx]
    }

    /// The proposal pass of one tick for the chunk at `pos`: reading the
    /// world only, it returns exactly the legal falls whose source lies in
    /// this chunk, scanning rows from the top down, without duplicates.
    /// Both diagonals of one trash cell may be proposed in the same pass.
    pub fn update(&self, pos: ChunkPos, world: &World) -> (r: Vec<UpdateCommand>)
        requires
            world.wf(),
            chunk_pos_ok(pos),
            world.has_chunk(pos.0 as int, pos.1 as int),
        ensures
            forall|k: int| 0 <= k < r@.len() ==> cmd_valid(*world, pos, #[trigger] r@[k]),
            forall|fx: int, fy: int, tx: int, ty: int|
                #[trigger] world.fall_move(fx, fy, tx, ty) && floor_div(fx, 16) == pos.0
                    && floor_div(fy, 16) == pos.1 ==> r@.contains(
                    UpdateCommand::Move(
                        WorldPos(fx as i32, fy as i32),
                        WorldPos(tx as i32, ty as i32),
                    ),
                ),
            forall|k1: int, k2: int| 0 <= k1 < k2 < r@.len() ==> r@[k1] != r@[k2],
            forall|k1: int, k2: int|
                0 <= k1 < k2 < r@.len() ==> cmd_rank(r@[k1]) < cmd_rank(r@[k2]),
    {
        let mut commands: Vec<UpdateCommand> = Vec::new();
        let base_x: i32 = pos.0 * 16;
        let base_y: i32 = pos.1 * 16;
        let mut yy: i32 = 0;
        while yy < 16
            invariant
                world.wf(),
                chunk_pos_ok(pos),
                world.has_chunk(pos.0 as int, pos.1 as int),
                base_x == pos.0 * 16,
                base_y == pos.1 * 16,
                0 <= yy <= 16,
                forall|k: int|
                    0 <= k < commands@.len() ==> cmd_valid(*world, pos, #[trigger] commands@[k]),
                forall|k: int|
                    0 <= k < commands@.len() ==> cell_before(
                        floor_mod(cmd_from(#[trigger] commands@[k]).0 as int, 16),
                        floor_mod(cmd_from(commands@[k]).1 as int, 16),
                        0,
                        15 - yy,
                    ),
                forall|fx: int, fy: int, tx: int, ty: int|
                    #[trigger] world.fall_move(fx, fy, tx, ty) && floor_div(fx, 16) == pos.0
                        && floor_div(fy, 16) == pos.1 && cell_before(
                        floor_mod(fx, 16),
                        floor_mod(fy, 16),
                        0,
                        15 - yy,
                    ) ==> commands@.contains(
                        UpdateCommand::Move(
                            WorldPos(fx as i32, fy as i32),
                            WorldPos(tx as i32, ty as i32),
                        ),
                    ),
                forall|k1: int, k2: int|
                    0 <= k1 < k2 < commands@.len() ==> commands@[k1] != commands@[k2],
                forall|k: int|
                    0 <= k < commands@.len() ==> cmd_rank(#[trigger] commands@[k]) < 2 * (yy
                        * 16),
                forall|k1: int, k2: int|
                    0 <= k1 < k2 < commands@.len() ==> cmd_rank(commands@[k1]) < cmd_rank(
                        commands@[k2],
                    ),
            decreases 16 - yy,
        {
            let y: i32 = 15 - yy;
            let mut x: i32 = 0;
            while x < 16
                invariant
                    world.wf(),
                    chunk_pos_ok(pos),
                    world.has_chunk(pos.0 as int, pos.1 as int),
                    base_x == pos.0 * 16,
                    base_y == pos.1 * 16,
                    0 <= yy < 16,
                    y == 15 - yy,
                    0 <= x <= 16,
                    forall|k: int|
                        0 <= k < commands@.len() ==> cmd_valid(
                            *world,
                            pos,
                            #[trigger] commands@[k],
                        ),
                    forall|k: int|
                        0 <= k < commands@.len() ==> cell_before(
                            floor_mod(cmd_from(#[trigger] commands@[k]).0 as int, 16),
                            floor_mod(cmd_from(commands@[k]).1 as int, 16),
                            x as int,
                            y as int,
                        ),
                    forall|fx: int, fy: int, tx: int, ty: int|
                        #[trigger] world.fall_move(fx, fy, tx, ty) && floor_div(fx, 16) == pos.0
                            && floor_div(fy, 16) == pos.1 && cell_before(
                            floor_mod(fx, 16),
                            floor_mod(fy, 16),
                            x as int,
                            y as int,
                        ) ==> commands@.contains(
                            UpdateCommand::Move(
                                WorldPos(fx as i32, fy as i32),
                                WorldPos(tx as i32, ty as i32),
                            ),
                        ),
                    forall|k1: int, k2: int|
                        0 <= k1 < k2 < commands@.len() ==> commands@[k1] != commands@[k2],
                    forall|k: int|
                        0 <= k < commands@.len() ==> cmd_rank(#[trigger] commands@[k]) < 2 * ((15
                            - y) * 16 + x),
                    forall|k1: int, k2: int|
                        0 <= k1 < k2 < commands@.len() ==> cmd_rank(commands@[k1]) < cmd_rank(
                            commands@[k2],
                        ),
                decreases 16 - x,
            {
                let this = WorldPos(base_x + x, base_y + y);
                proof {
                    vstd::arithmetic::div_mod::lemma_fundamental_div_mod_converse(
                        this.0 as int,
                        16,
                        pos.0 as int,
                        x as int,
                    );
                    vstd::arithmetic::div_mod::lemma_fundamental_div_mod_converse(
                        this.1 as int,
                        16,
                        pos.1 as int,
                        y as int,
                    );
                }
                let b = match world.get_block(this) {
                    Some(bb) => bb,
                    None => {
                        proof {
                            assert(false);
                        }
                        Block::Air
                    },
                };
                let ghost at_entry = commands@;
                if b == Block::Trash {
                    let bottom_left = WorldPos(this.0 - 1, this.1 - 1);
                    match world.get_block(bottom_left) {
                        Some(Block::Air) => {
                            proof {
                                lemma_push_contains(
                                    commands@,
                                    UpdateCommand::Move(this, bottom_left),
                                );
                                assert(cmd_rank(UpdateCommand::Move(this, bottom_left)) == 2 * ((15
                                    - y) * 16 + x));
                                assert forall|k: int| 0 <= k < commands@.len() implies commands@[k]
                                    != UpdateCommand::Move(this, bottom_left) by {
                                    lemma_floor_div_mod(cmd_from(commands@[k]).0 as int, 16);
                                    lemma_floor_div_mod(cmd_from(commands@[k]).1 as int, 16);
                                }
                            }
                            commands.push(UpdateCommand::Move(this, bottom_left));
                        },
                        _ => {},
                    }
                    if this.0 < 0x7fff_ffff {
                        let bottom_right = WorldPos(this.0 + 1, this.1 - 1);
                        match world.get_block(bottom_right) {
                            Some(Block::Air) => {
                                proof {
                                    lemma_push_contains(
                                        commands@,
                                        UpdateCommand::Move(this, bottom_right),
                                    );
                                    assert(cmd_rank(UpdateCommand::Move(this, bottom_right)) == 2
                                        * ((15 - y) * 16 + x) + 1);
                                    assert forall|k: int|
                                        0 <= k < commands@.len() implies commands@[k]
                                        != UpdateCommand::Move(this, bottom_right) by {
                                        lemma_floor_div_mod(cmd_from(commands@[k]).0 as int, 16);
                                        lemma_floor_div_mod(cmd_from(commands@[k]).1 as int, 16);
                                    }
                                }
                                commands.push(UpdateCommand::Move(this, bottom_right));
                            },
                            _ => {},
                        }
                    }
                }
                proof {
                    assert forall|k: int| 0 <= k < at_entry.len() implies commands@.contains(
                        at_entry[k],
                    ) by {
                        assert(commands@[k] == at_entry[k]);
                    }
                    assert forall|fx: int, fy: int, tx: int, ty: int|
                        #[trigger] world.fall_move(fx, fy, tx, ty) && floor_div(fx, 16) == pos.0
                            && floor_div(fy, 16) == pos.1 && cell_before(
                            floor_mod(fx, 16),
                            floor_mod(fy, 16),
                            x as int + 1,
                            y as int,
                        ) implies commands@.contains(
                        UpdateCommand::Move(
                            WorldPos(fx as i32, fy as i32),
                            WorldPos(tx as i32, ty as i32),
                        ),
                    ) by {
                        lemma_floor_div_mod(fx, 16);
                        lemma_floor_div_mod(fy, 16);
                        if floor_mod(fx, 16) == x as int && floor_mod(fy, 16) == y as int {
                            assert(fx == this.0 as int && fy == this.1 as int);
                            if tx == fx + 1 && this.0 == 0x7fff_ffff {
                                lemma_covered_pos_ok(*world, tx, ty);
                            }
                        }
                    }
                }
                x = x + 1;
            }
            yy = yy + 1;
        }
        commands
    }
}

/// Membership in a concatenation: an element of either part.
proof fn lemma_add_contains(s1: Seq<UpdateCommand>, s2: Seq<UpdateCommand>)
    ensures
        forall|w: UpdateCommand| #[trigger] (s1 + s2).contains(w) <==> (s1.contains(w)
            || s2.contains(w)),
{
    assert forall|w: UpdateCommand| #[trigger] (s1 + s2).contains(w) <==> (s1.contains(w)
        || s2.contains(w)) by {
        if s1.contains(w) {
            let i = choose|i: int| 0 <= i < s1.len() && s1[i] == w;
            assert((s1 + s2)[i] == w);
        }
        if s2.contains(w) {
            let i = choose|i: int| 0 <= i < s2.len() && s2[i] == w;
            assert((s1 + s2)[s1.len() + i] == w);
        }
        if (s1 + s2).contains(w) {
            let i = choose|i: int| 0 <= i < (s1 + s2).len() && (s1 + s2)[i] == w;
            if i < s1.len() {
                assert(s1[i] == w);
            } else {
                assert(s2[i - s1.len()] == w);
            }
        }
    }
}

/// Membership in a sequence after a push: the old elements and the new one.
proof fn lemma_push_contains(s: Seq<UpdateCommand>, v: UpdateCommand)
    ensures
        forall|w: UpdateCommand| #[trigger] s.push(v).contains(w) <==> (s.contains(w) || w == v),
{
    assert forall|w: UpdateCommand| #[trigger] s.push(v).contains(w) <==> (s.contains(w) || w
        == v) by {
        assert(s.push(v)[s.len() as int] == v);
        if s.contains(w) {
            let i = choose|i: int| 0 <= i < s.len() && s[i] == w;
            assert(s.push(v)[i] == w);
        }
        if s.push(v).contains(w) {
            let i = choose|i: int| 0 <= i < s.push(v).len() && s.push(v)[i] == w;
            if i < s.len() {
                assert(s[i] == w);
            }
        }
    }
}

/// Chunk positions reachable by the library: one step inside the extreme
/// chunk row and column, so that every cell coordinate and its immediate
/// neighbors fit in an `i32`.
pub open spec fn chunk_pos_ok(c: ChunkPos) -> bool {
    &&& -0x0800_0000 < c.0 < 0x0800_0000
    &&& -0x0800_0000 < c.1 < 0x0800_0000
}

/// World positions accepted by the materializing operations: far enough from
/// the lower edge of `i32` space that their chunk position is `chunk_pos_ok`.
pub open spec fn pos_ok(p: WorldPos) -> bool {
    &&& -0x7fff_fff0 <= p.0
    &&& -0x7fff_fff0 <= p.1
}

/// The chunk stored for `(cx, cy)` in an entry list, scanning from the most
/// recently inserted entry.
pub open spec fn find_from(s: Seq<(ChunkPos, Chunk)>, cx: int, cy: int) -> Option<Chunk>
    decreases s.len(),
{
    if s.len() == 0 {
        None
    } else if s.last().0.0 == cx && s.last().0.1 == cy {
        Some(s.last().1)
    } else {
        find_from(s.drop_last(), cx, cy)
    }
}

/// `find_from` finds an entry exactly when one with that key is present.
proof fn lemma_find_from_index(s: Seq<(ChunkPos, Chunk)>, cx: int, cy: int)
    ensures
        (find_from(s, cx, cy) is None) <==> (forall|i: int|
            0 <= i < s.len() ==> !((#[trigger] s[i]).0.0 == cx && s[i].0.1 == cy)),
        (find_from(s, cx, cy) is Some) ==> exists|i: int|
            0 <= i < s.len() && (#[trigger] s[i]).0.0 == cx && s[i].0.1 == cy && Some(s[i].1)
                == find_from(s, cx, cy),
    decreases s.len(),
{
    if s.len() > 0 {
        lemma_find_from_index(s.drop_last(), cx, cy);
        assert(s.last() == s[s.len() - 1]);
        assert(forall|i: int| 0 <= i < s.len() - 1 ==> s.drop_last()[i] == s[i]);
    }
}

/// Under key uniqueness, `find_from` returns the chunk of the entry whose
/// key matches, whichever index it sits at.
proof fn lemma_find_from_unique(s: Seq<(ChunkPos, Chunk)>, j: int)
    requires
        forall|i1: int, i2: int|
            0 <= i1 < i2 < s.len() ==> (#[trigger] s[i1]).0 != (#[trigger] s[i2]).0,
        0 <= j < s.len(),
    ensures
        find_from(s, s[j].0.0 as int, s[j].0.1 as int) == Some(s[j].1),
    decreases s.len(),
{
    assert(s.last() == s[s.len() - 1]);
    if j == s.len() - 1 {
    } else {
        assert(s[j].0 != s[s.len() - 1].0);
        assert(forall|i: int| 0 <= i < s.len() - 1 ==> s.drop_last()[i] == s[i]);
        lemma_find_from_unique(s.drop_last(), j);
    }
}

/// One step of a forward scan: cutting the scan off after `i + 1` entries
/// either hits entry `i` or reduces to the first `i` entries.
proof fn lemma_find_take_step(s: Seq<(ChunkPos, Chunk)>, cx: int, cy: int, i: int)
    requires
        0 <= i < s.len(),
    ensures
        find_from(s.take(i + 1), cx, cy) == if s[i].0.0 == cx && s[i].0.1 == cy {
            Some(s[i].1)
        } else {
            find_from(s.take(i), cx, cy)
        },
{
    let t = s.take(i + 1);
    assert(t.last() == s[i]);
    assert(t.drop_last() =~= s.take(i));
}

/// The sparse world: the set of materialized chunks, keyed by chunk position.
pub struct World {
    chunks: Vec<(ChunkPos, Chunk)>,
}

impl World {
    /// The materialized chunks, oldest first.
    pub closed spec fn entries(self) -> Seq<(ChunkPos, Chunk)> {
        self.chunks@
    }

    /// Well-formedness: chunk keys are unique, every chunk holds exactly 256
    /// cells, and every chunk position is safely inside `i32` space.
    pub open spec fn wf(self) -> bool {
        &&& forall|i1: int, i2: int|
            0 <= i1 < i2 < self.entries().len() ==> (#[trigger] self.entries()[i1]).0 != (
            #[trigger] self.entries()[i2]).0
        &&& forall|i: int|
            0 <= i < self.entries().len() ==> (#[trigger] self.entries()[i]).1.wf()
        &&& forall|i: int|
            0 <= i < self.entries().len() ==> chunk_pos_ok((#[trigger] self.entries()[i]).0)
    }

    /// Whether the chunk at chunk coordinates `(cx, cy)` is materialized.
    pub open spec fn has_chunk(self, cx: int, cy: int) -> bool {
        find_from(self.entries(), cx, cy) is Some
    }

    /// The materialized chunk at `(cx, cy)`.
    pub open spec fn chunk_at(self, cx: int, cy: int) -> Chunk {
        find_from(self.entries(), cx, cy)->0
    }

    /// The cell at world position `(x, y)`: `None` while its chunk is not
    /// materialized.
    pub open spec fn block_at(self, x: int, y: int) -> Option<Block> {
        if self.has_chunk(floor_div(x, 16), floor_div(y, 16)) {
            Some(
                self.chunk_at(floor_div(x, 16), floor_div(y, 16)).spec_at(
                    floor_mod(x, 16),
                    floor_mod(y, 16),
                ),
            )
        } else {
            None
        }
    }

    /// Whether the chunk holding world position `p` is materialized.
    pub open spec fn covers(self, x: int, y: int) -> bool {
        self.has_chunk(floor_div(x, 16), floor_div(y, 16))
    }

    /// Finds the index of the entry for `cpos`, if the chunk is materialized.
    fn chunk_index(&self, cpos: ChunkPos) -> (r: Option<usize>)
        ensures
            match r {
                Some(i) => i < self.entries().len() && self.entries()[i as int].0 == cpos
                    && find_from(self.entries(), cpos.0 as int, cpos.1 as int) == Some(
                    self.entries()[i as int].1,
                ),
                None => find_from(self.entries(), cpos.0 as int, cpos.1 as int) is None,
            },
    {
        let mut i: usize = self.chunks.len();
        proof {
            assert(self.entries().take(i as int) =~= self.entries());
        }
        while i > 0
            invariant
                i <= self.entries().len(),
                find_from(self.entries(), cpos.0 as int, cpos.1 as int) == find_from(
                    self.entries().take(i as int),
                    cpos.0 as int,
                    cpos.1 as int,
                ),
            decreases i,
        {
            i = i - 1;
            proof {
                lemma_find_take_step(self.entries(), cpos.0 as int, cpos.1 as int, i as int);
            }
            let e = &self.chunks[i];
            if e.0.0 == cpos.0 && e.0.1 == cpos.1 {
                return Some(i);
            }
        }
        proof {
            assert(self.entries().take(0) =~= Seq::<(ChunkPos, Chunk)>::empty());
        }
        None
    }

    /// How many chunks are materialized; with `chunk_pos_at`, the iteration
    /// surface that a renderer walks.
    pub fn chunk_count(&self) -> (n: usize)
        ensures
            n == self.entries().len(),
    {
        self.chunks.len()
    }

    /// The position of the materialized chunk at index `i`.
    pub fn chunk_pos_at(&self, i: usize) -> (c: ChunkPos)
        requires
            i < self.entries().len(),
        ensures
            c == self.entries()[i as int].0,
    {
        self.chunks[i].0
    }

    /// An empty world plus the opening scene: the four chunks around the
    /// origin are materialized, and a wedge of the trash strata around
    /// `x = 0` is carved down to air, leaving ground below row 0 and trash
    /// in rows `[0, 6)` elsewhere.
    pub fn new() -> (w: World)
        ensures
            w.wf(),
            forall|cx: int, cy: int|
                w.has_chunk(cx, cy) <==> (-1 <= cx <= 0 && -1 <= cy <= 0),
            forall|x: int, y: int|
                #![trigger w.block_at(x, y)]
                w.block_at(x, y) == if -16 <= x <= 15 && -16 <= y <= 15 {
                    Some(
                        if carved(x, y) {
                            Block::Air
                        } else {
                            generated_block(floor_div(y, 16), floor_mod(y, 16))
                        },
                    )
                } else {
                    None
                },
    {
        let mut world = World { chunks: Vec::new() };
        proof {
            assert(world.entries() =~= Seq::<(ChunkPos, Chunk)>::empty());
        }
        world.ensure_block(WorldPos(0, 0));
        world.ensure_block(WorldPos(0, -1));
        world.ensure_block(WorldPos(-1, 0));
        world.ensure_block(WorldPos(-1, -1));
        proof {
            assert forall|x: int, y: int| true implies #[trigger] world.block_at(x, y) == (if -16
                <= x <= 15 && -16 <= y <= 15 {
                Some(generated_block(floor_div(y, 16), floor_mod(y, 16)))
            } else {
                None
            }) by {
                lemma_floor_div_mod(x, 16);
                lemma_floor_div_mod(y, 16);
            }
        }
        let mut y: i32 = 0;
        while y < 6
            invariant
                world.wf(),
                0 <= y <= 6,
                forall|cx: int, cy: int|
                    world.has_chunk(cx, cy) <==> (-1 <= cx <= 0 && -1 <= cy <= 0),
                forall|x: int, yy: int|
                    #![trigger world.block_at(x, yy)]
                    world.block_at(x, yy) == if -16 <= x <= 15 && -16 <= yy <= 15 {
                        Some(
                            if carved(x, yy) && yy < y {
                                Block::Air
                            } else {
                                generated_block(floor_div(yy, 16), floor_mod(yy, 16))
                            },
                        )
                    } else {
                        None
                    },
            decreases 6 - y,
        {
            let mut x: i32 = 0;
            while x < 5 + y
                invariant
                    world.wf(),
                    0 <= y < 6,
                    0 <= x <= 5 + y,
                    forall|cx: int, cy: int|
                        world.has_chunk(cx, cy) <==> (-1 <= cx <= 0 && -1 <= cy <= 0),
                    forall|a: int, b: int|
                        #![trigger world.block_at(a, b)]
                        world.block_at(a, b) == if -16 <= a <= 15 && -16 <= b <= 15 {
                            Some(
                                if carved(a, b) && (b < y || (b == y && -x <= a < x)) {
                                    Block::Air
                                } else {
                                    generated_block(floor_div(b, 16), floor_mod(b, 16))
                                },
                            )
                        } else {
                            None
                        },
                decreases 5 + y - x,
            {
                world.set_block(WorldPos(x, y), Block::Air);
                world.set_block(WorldPos(-x - 1, y), Block::Air);
                x = x + 1;
            }
            y = y + 1;
        }
        world
    }

    /// Materializes the chunk at `cpos` if it is absent; an already
    /// materialized chunk, mutated or not, is left exactly as it is.
    pub fn ensure_chunk(&mut self, cpos: ChunkPos)
        requires
            old(self).wf(),
            chunk_pos_ok(cpos),
        ensures
            final(self).wf(),
            old(self).has_chunk(cpos.0 as int, cpos.1 as int) ==> *final(self) == *old(self),
            forall|cx: int, cy: int|
                final(self).has_chunk(cx, cy) <==> (old(self).has_chunk(cx, cy) || (cx == cpos.0
                    && cy == cpos.1)),
            forall|x: int, y: int|
                #![trigger final(self).block_at(x, y)]
                final(self).block_at(x, y) == if old(self).covers(x, y) {
                    old(self).block_at(x, y)
                } else if floor_div(x, 16) == cpos.0 && floor_div(y, 16) == cpos.1 {
                    Some(generated_block(cpos.1 as int, floor_mod(y, 16)))
                } else {
                    None
                },
    {
        match self.chunk_index(cpos) {
            Some(_) => {},
            None => {
                let ghost pre = self.entries();
                let chunk = Chunk::generate(cpos);
                let ghost newc = chunk;
                self.chunks.push((cpos, chunk));
                proof {
                    let post = self.entries();
                    assert(post.drop_last() =~= pre);
                    assert(post.last() == (cpos, newc));
                    lemma_find_from_index(pre, cpos.0 as int, cpos.1 as int);
                    assert forall|i1: int, i2: int| 0 <= i1 < i2 < post.len() implies (
                    #[trigger] post[i1]).0 != (#[trigger] post[i2]).0 by {
                        if i2 == post.len() - 1 {
                            assert(post[i1] == pre[i1]);
                        } else {
                            assert(post[i1] == pre[i1] && post[i2] == pre[i2]);
                        }
                    }
                    assert forall|cx: int, cy: int| true implies (find_from(post, cx, cy)
                        == if cx == cpos.0 && cy == cpos.1 {
                        Some(newc)
                    } else {
                        find_from(pre, cx, cy)
                    }) by {
                        if !(cx == cpos.0 && cy == cpos.1) {
                            assert(find_from(post, cx, cy) == find_from(post.drop_last(), cx, cy));
                        }
                    }
                    assert forall|x: int, y: int|
                        !old(self).covers(x, y) && floor_div(x, 16) == cpos.0 && floor_div(y, 16)
                            == cpos.1 implies self.block_at(x, y) == Some(
                        generated_block(cpos.1 as int, floor_mod(y, 16)),
                    ) by {
                        lemma_floor_div_mod(x, 16);
                        lemma_floor_div_mod(y, 16);
                    }
                }
            },
        }
    }

    /// Materializes every chunk overlapping the rectangle spanned by the two
    /// corners (`top_right` names the lesser x and greater y, as the view
    /// hands it over), and nothing else; already materialized chunks keep
    /// their content.
    pub fn ensure_rect(&mut self, top_right: WorldPos, bottom_left: WorldPos)
        requires
            old(self).wf(),
            pos_ok(top_right),
            pos_ok(bottom_left),
        ensures
            final(self).wf(),
            forall|cx: int, cy: int|
                old(self).has_chunk(cx, cy) ==> final(self).has_chunk(cx, cy),
            forall|cx: int, cy: int|
                floor_div(top_right.0 as int, 16) <= cx <= floor_div(bottom_left.0 as int, 16)
                    && floor_div(bottom_left.1 as int, 16) <= cy <= floor_div(
                    top_right.1 as int,
                    16,
                ) ==> final(self).has_chunk(cx, cy),
            forall|cx: int, cy: int|
                final(self).has_chunk(cx, cy) ==> old(self).has_chunk(cx, cy) || (floor_div(
                    top_right.0 as int,
                    16,
                ) <= cx <= floor_div(bottom_left.0 as int, 16) && floor_div(
                    bottom_left.1 as int,
                    16,
                ) <= cy <= floor_div(top_right.1 as int, 16)),
            forall|x: int, y: int|
                #![trigger final(self).block_at(x, y)]
                old(self).covers(x, y) ==> final(self).block_at(x, y) == old(self).block_at(x, y),
            forall|x: int, y: int|
                #![trigger final(self).block_at(x, y)]
                !old(self).covers(x, y) && final(self).covers(x, y) ==> final(self).block_at(x, y)
                    == Some(generated_block(floor_div(y, 16), floor_mod(y, 16))),
    {
        let ghost w0 = *self;
        let trcx = negative_int_div(top_right.0, 16);
        let trcy = negative_int_div(top_right.1, 16);
        let blcx = negative_int_div(bottom_left.0, 16);
        let blcy = negative_int_div(bottom_left.1, 16);
        proof {
            lemma_div16_bounds(top_right.0 as int);
            lemma_div16_bounds(top_right.1 as int);
            lemma_div16_bounds(bottom_left.0 as int);
            lemma_div16_bounds(bottom_left.1 as int);
        }
        let mut cx: i32 = trcx;
        while cx <= blcx
            invariant
                self.wf(),
                w0.wf(),
                trcx == floor_div(top_right.0 as int, 16),
                trcy == floor_div(top_right.1 as int, 16),
                blcx == floor_div(bottom_left.0 as int, 16),
                blcy == floor_div(bottom_left.1 as int, 16),
                -0x0800_0000 < trcx < 0x0800_0000,
                -0x0800_0000 < trcy < 0x0800_0000,
                -0x0800_0000 < blcx < 0x0800_0000,
                -0x0800_0000 < blcy < 0x0800_0000,
                trcx <= cx <= blcx + 1 || cx == trcx,
                forall|c: int, cy: int| w0.has_chunk(c, cy) ==> self.has_chunk(c, cy),
                forall|c: int, cy: int|
                    trcx <= c < cx && blcy <= cy <= trcy ==> self.has_chunk(c, cy),
                forall|c: int, cy: int|
                    self.has_chunk(c, cy) ==> w0.has_chunk(c, cy) || (trcx <= c <= blcx && blcy
                        <= cy <= trcy),
                forall|x: int, y: int|
                    #![trigger self.block_at(x, y)]
                    w0.covers(x, y) ==> self.block_at(x, y) == w0.block_at(x, y),
                forall|x: int, y: int|
                    #![trigger self.block_at(x, y)]
                    !w0.covers(x, y) && self.covers(x, y) ==> self.block_at(x, y) == Some(
                        generated_block(floor_div(y, 16), floor_mod(y, 16)),
                    ),
            decreases blcx + 1 - cx,
        {
            let mut cy: i32 = blcy;
            while cy <= trcy
                invariant
                    self.wf(),
                    w0.wf(),
                    trcx <= cx <= blcx,
                    blcy <= cy <= trcy + 1 || cy == blcy,
                    -0x0800_0000 < trcx < 0x0800_0000,
                    -0x0800_0000 < trcy < 0x0800_0000,
                    -0x0800_0000 < blcx < 0x0800_0000,
                    -0x0800_0000 < blcy < 0x0800_0000,
                    forall|c: int, cyy: int| w0.has_chunk(c, cyy) ==> self.has_chunk(c, cyy),
                    forall|c: int, cyy: int|
                        trcx <= c < cx && blcy <= cyy <= trcy ==> self.has_chunk(c, cyy),
                    forall|cyy: int| blcy <= cyy < cy ==> self.has_chunk(cx as int, cyy),
                    forall|c: int, cyy: int|
                        self.has_chunk(c, cyy) ==> w0.has_chunk(c, cyy) || (trcx <= c <= blcx
                            && blcy <= cyy <= trcy),
                    forall|x: int, y: int|
                        #![trigger self.block_at(x, y)]
                        w0.covers(x, y) ==> self.block_at(x, y) == w0.block_at(x, y),
                    forall|x: int, y: int|
                        #![trigger self.block_at(x, y)]
                        !w0.covers(x, y) && self.covers(x, y) ==> self.block_at(x, y) == Some(
                            generated_block(floor_div(y, 16), floor_mod(y, 16)),
                        ),
                decreases trcy + 1 - cy,
            {
                let ghost mid = *self;
                self.ensure_chunk(ChunkPos(cx, cy));
                proof {
                    assert forall|x: int, y: int|
                        #![trigger self.block_at(x, y)]
                        !w0.covers(x, y) && self.covers(x, y) implies self.block_at(x, y) == Some(
                        generated_block(floor_div(y, 16), floor_mod(y, 16)),
                    ) by {
                        if mid.covers(x, y) {
                            assert(self.block_at(x, y) == mid.block_at(x, y));
                        }
                    }
                }
                cy = cy + 1;
            }
            cx = cx + 1;
        }
    }

    /// Materializes the chunk holding `pos` if it is absent.
    pub fn ensure_block(&mut self, pos: WorldPos)
        requires
            old(self).wf(),
            pos_ok(pos),
        ensures
            final(self).wf(),
            old(self).covers(pos.0 as int, pos.1 as int) ==> *final(self) == *old(self),
            forall|cx: int, cy: int|
                final(self).has_chunk(cx, cy) <==> (old(self).has_chunk(cx, cy) || (cx == floor_div(
                    pos.0 as int,
                    16,
                ) && cy == floor_div(pos.1 as int, 16))),
            forall|x: int, y: int|
                #![trigger final(self).block_at(x, y)]
                final(self).block_at(x, y) == if old(self).covers(x, y) {
                    old(self).block_at(x, y)
                } else if floor_div(x, 16) == floor_div(pos.0 as int, 16) && floor_div(y, 16)
                    == floor_div(pos.1 as int, 16) {
                    Some(generated_block(floor_div(pos.1 as int, 16), floor_mod(y, 16)))
                } else {
                    None
                },
    {
        proof {
            lemma_floor_div_mod(pos.0 as int, 16);
            lemma_floor_div_mod(pos.1 as int, 16);
        }
        let cpos = ChunkPos(negative_int_div(pos.0, 16), negative_int_div(pos.1, 16));
        proof {
            assert(chunk_pos_ok(cpos)) by {
                lemma_div16_bounds(pos.0 as int);
                lemma_div16_bounds(pos.1 as int);
            }
        }
        self.ensure_chunk(cpos);
    }

    /// Reads the cell at `pos` without materializing anything: `None` while
    /// the chunk holding `pos` is absent.
    pub fn get_block(&self, pos: WorldPos) -> (r: Option<Block>)
        requires
            self.wf(),
        ensures
            r == self.block_at(pos.0 as int, pos.1 as int),
    {
        let cpos = ChunkPos(negative_int_div(pos.0, 16), negative_int_div(pos.1, 16));
        match self.chunk_index(cpos) {
            None => None,
            Some(i) => {
                proof {
                    lemma_floor_div_mod(pos.0 as int, 16);
                    lemma_floor_div_mod(pos.1 as int, 16);
                }
                let lp = InChunkPos(negative_mod(pos.0, 16), negative_mod(pos.1, 16));
                let e = &self.chunks[i];
                Some(e.1.get_block(lp))
            },
        }
    }

    /// Writes the cell at `pos`, materializing its chunk first; all other
    /// cells keep their value and no chunk is forgotten.
    pub fn set_block(&mut self, pos: WorldPos, block: Block)
        requires
            old(self).wf(),
            pos_ok(pos),
        ensures
            final(self).wf(),
            final(self).block_at(pos.0 as int, pos.1 as int) == Some(block),
            forall|cx: int, cy: int|
                final(self).has_chunk(cx, cy) <==> (old(self).has_chunk(cx, cy) || (cx == floor_div(
                    pos.0 as int,
                    16,
                ) && cy == floor_div(pos.1 as int, 16))),
            forall|x: int, y: int|
                #![trigger final(self).block_at(x, y)]
                !(x == pos.0 && y == pos.1) ==> final(self).block_at(x, y) == if old(self).covers(
                    x,
                    y,
                ) {
                    old(self).block_at(x, y)
                } else if floor_div(x, 16) == floor_div(pos.0 as int, 16) && floor_div(y, 16)
                    == floor_div(pos.1 as int, 16) {
                    Some(generated_block(floor_div(pos.1 as int, 16), floor_mod(y, 16)))
                } else {
                    None
                },
    {
        self.ensure_block(pos);
        let ghost mid = *self;
        let cpos = ChunkPos(negative_int_div(pos.0, 16), negative_int_div(pos.1, 16));
        proof {
            lemma_floor_div_mod(pos.0 as int, 16);
            lemma_floor_div_mod(pos.1 as int, 16);
        }
        match self.chunk_index(cpos) {
            None => {
                proof {
                    assert(false);
                }
            },
            Some(i) => {
                let lp = InChunkPos(negative_mod(pos.0, 16), negative_mod(pos.1, 16));
                let ghost pre = self.entries();
                let entry = &mut self.chunks[i];
                entry.1.set_block(lp, block);
                proof {
                    let post = self.entries();
                    assert(post == pre.update(i as int, (cpos, final(entry).1)));
                    lemma_update_entry(pre, post, i as int, mid, *self);
                    assert(self.block_at(pos.0 as int, pos.1 as int) == Some(block));
                    assert forall|x: int, y: int|
                        #![trigger self.block_at(x, y)]
                        !(x == pos.0 && y == pos.1) implies self.block_at(x, y) == (if old(
                        self,
                    ).covers(x, y) {
                        old(self).block_at(x, y)
                    } else if floor_div(x, 16) == floor_div(pos.0 as int, 16) && floor_div(y, 16)
                        == floor_div(pos.1 as int, 16) {
                        Some(generated_block(floor_div(pos.1 as int, 16), floor_mod(y, 16)))
                    } else {
                        None
                    }) by {
                        if floor_div(x, 16) == cpos.0 as int && floor_div(y, 16) == cpos.1 as int {
                            lemma_floor_div_mod(x, 16);
                            lemma_floor_div_mod(y, 16);
                        }
                        assert(self.block_at(x, y) == mid.block_at(x, y));
                        assert(mid.block_at(x, y) == if old(self).covers(x, y) {
                            old(self).block_at(x, y)
                        } else if floor_div(x, 16) == floor_div(pos.0 as int, 16) && floor_div(
                            y,
                            16,
                        ) == floor_div(pos.1 as int, 16) {
                            Some(generated_block(floor_div(pos.1 as int, 16), floor_mod(y, 16)))
                        } else {
                            None
                        });
                    }
                }
            },
        }
    }

    /// Reads the cell at `pos`, materializing its chunk first, so a block is
    /// always returned.
    pub fn force_block(&mut self, pos: WorldPos) -> (r: Block)
        requires
            old(self).wf(),
            pos_ok(pos),
        ensures
            final(self).wf(),
            Some(r) == final(self).block_at(pos.0 as int, pos.1 as int),
            forall|cx: int, cy: int|
                final(self).has_chunk(cx, cy) <==> (old(self).has_chunk(cx, cy) || (cx == floor_div(
                    pos.0 as int,
                    16,
                ) && cy == floor_div(pos.1 as int, 16))),
            forall|x: int, y: int|
                #![trigger final(self).block_at(x, y)]
                final(self).block_at(x, y) == if old(self).covers(x, y) {
                    old(self).block_at(x, y)
                } else if floor_div(x, 16) == floor_div(pos.0 as int, 16) && floor_div(y, 16)
                    == floor_div(pos.1 as int, 16) {
                    Some(generated_block(floor_div(pos.1 as int, 16), floor_mod(y, 16)))
                } else {
                    None
                },
            old(self).covers(pos.0 as int, pos.1 as int) ==> Some(r) == old(self).block_at(
                pos.0 as int,
                pos.1 as int,
            ),
            r == old(self).forced_at(pos.0 as int, pos.1 as int),
            old(self).covers(pos.0 as int, pos.1 as int) ==> *final(self) == *old(self),
    {
        self.ensure_block(pos);
        match self.get_block(pos) {
            Some(b) => b,
            None => {
                proof {
                    assert(false);
                }
                Block::Air
            },
        }
    }

    /// Whether column `x` holds a materialized, non-air cell at row `y`.
    pub open spec fn col_nonair(self, x: int, y: int) -> bool {
        match self.block_at(x, y) {
            Some(b) => b != Block::Air,
            None => false,
        }
    }

    /// `y` is the row reported for column `x`: the topmost materialized
    /// non-air cell, or the fixed fallback row 5 if the column has none.
    pub open spec fn is_highest(self, x: int, y: int) -> bool {
        if exists|yy: int| self.col_nonair(x, yy) {
            &&& self.col_nonair(x, y)
            &&& forall|yy: int| yy > y ==> !self.col_nonair(x, yy)
        } else {
            y == 5
        }
    }

    /// A legal single fall in this world state: a materialized trash cell at
    /// `(fx, fy)` whose down-left or down-right diagonal neighbor is
    /// materialized air. An unmaterialized neighbor is treated as solid, so
    /// trash never falls into unknown space.
    pub open spec fn fall_move(self, fx: int, fy: int, tx: int, ty: int) -> bool {
        &&& self.block_at(fx, fy) == Some(Block::Trash)
        &&& ty == fy - 1
        &&& (tx == fx - 1 || tx == fx + 1)
        &&& self.block_at(tx, ty) == Some(Block::Air)
    }

    /// Whether the cell at `(x, y)` is the source of some legal fall.
    pub open spec fn is_fall_source(self, x: int, y: int) -> bool {
        exists|tx: int, ty: int| self.fall_move(x, y, tx, ty)
    }

    /// Whether the cell at `(x, y)` is the destination of some legal fall.
    pub open spec fn is_fall_target(self, x: int, y: int) -> bool {
        exists|fx: int, fy: int| self.fall_move(fx, fy, x, y)
    }

    /// Whether the cell at `(x, y)` takes part in some legal fall, as its
    /// source or its destination.
    pub open spec fn involved(self, x: int, y: int) -> bool {
        self.is_fall_source(x, y) || self.is_fall_target(x, y)
    }

    /// A legal fall that shares neither its source with another legal fall
    /// from the same cell nor its destination with a fall from elsewhere.
    /// Such a move is applied without interference from any other move.
    pub open spec fn lone_move(self, fx: int, fy: int, tx: int, ty: int) -> bool {
        &&& self.fall_move(fx, fy, tx, ty)
        &&& forall|a: int, b: int| self.fall_move(fx, fy, a, b) ==> a == tx && b == ty
        &&& forall|a: int, b: int| self.fall_move(a, b, tx, ty) ==> a == fx && b == fy
    }

    /// The cell at `(fx, fy)` is the only source proposing a fall into
    /// `(tx, ty)`.
    pub open spec fn sole_source(self, tx: int, ty: int, fx: int, fy: int) -> bool {
        forall|a: int, b: int| #[trigger] self.fall_move(a, b, tx, ty) ==> a == fx && b == fy
    }

    /// A trash cell whose two diagonal destinations are both open and are
    /// proposed by no other source. Its down-left move is emitted first, so
    /// the trash lands down-left and the down-right cell keeps its air.
    pub open spec fn double_fall(self, fx: int, fy: int) -> bool {
        &&& self.fall_move(fx, fy, fx - 1, fy - 1)
        &&& self.fall_move(fx, fy, fx + 1, fy - 1)
        &&& self.sole_source(fx - 1, fy - 1, fx, fy)
        &&& self.sole_source(fx + 1, fy - 1, fx, fy)
    }

    /// If `pos` sits on a chunk's horizontal edge, materializes the adjacent
    /// chunk in that direction, so cross-boundary flow can continue on a
    /// later tick. At the extreme edge of `i32` space nothing lies beyond,
    /// so nothing is materialized there.
    fn ensure_around(&mut self, pos: WorldPos)
        requires
            old(self).wf(),
            pos_ok(pos),
        ensures
            final(self).wf(),
            forall|cx: int, cy: int|
                old(self).has_chunk(cx, cy) ==> final(self).has_chunk(cx, cy),
            forall|x: int, y: int|
                #![trigger final(self).block_at(x, y)]
                old(self).covers(x, y) ==> final(self).block_at(x, y) == old(self).block_at(x, y),
            floor_mod(pos.0 as int, 16) == 0 && pos.0 > -0x7fff_fff0 ==> final(self).covers(
                pos.0 - 1,
                pos.1 as int,
            ),
            floor_mod(pos.0 as int, 16) == 15 && pos.0 < 0x7fff_ffff ==> final(self).covers(
                pos.0 + 1,
                pos.1 as int,
            ),
    {
        let lx = negative_mod(pos.0, 16);
        if lx == 0 && pos.0 > -0x7fff_fff0 {
            self.ensure_block(WorldPos(pos.0 - 1, pos.1));
        }
        let ghost mid = *self;
        if lx == 15 && pos.0 < 0x7fff_ffff {
            self.ensure_block(WorldPos(pos.0 + 1, pos.1));
        }
        proof {
            assert forall|x: int, y: int| old(self).covers(x, y) implies self.block_at(x, y) == old(
                self,
            ).block_at(x, y) by {
                assert(mid.block_at(x, y) == old(self).block_at(x, y));
            }
        }
    }

    /// One physics tick: collect every chunk's fall proposals against the
    /// unmutated pre-tick world, then apply them in collection order, each
    /// apply reading its source, writing the destination, clearing the
    /// source and materializing chunks adjacent to touched chunk edges.
    /// Two falls may share a destination; the later apply then overwrites
    /// the earlier one. A move that shares nothing with another is promised
    /// to land, and a cell whose two open diagonals nobody else proposes
    /// lands its trash down-left, since that proposal is emitted first.
    #[verifier::rlimit(100)]
    pub fn update(&mut self)
        requires
            old(self).wf(),
        ensures
            final(self).wf(),
            forall|cx: int, cy: int|
                old(self).has_chunk(cx, cy) ==> final(self).has_chunk(cx, cy),
            forall|x: int, y: int|
                #![trigger final(self).block_at(x, y)]
                old(self).covers(x, y) && !old(self).involved(x, y) ==> final(self).block_at(x, y)
                    == old(self).block_at(x, y),
            forall|x: int, y: int|
                old(self).is_fall_source(x, y) ==> final(self).block_at(x, y) == Some(Block::Air),
            forall|fx: int, fy: int, tx: int, ty: int|
                #[trigger] old(self).lone_move(fx, fy, tx, ty) ==> final(self).block_at(tx, ty)
                    == Some(Block::Trash),
            forall|x: int, y: int|
                old(self).is_fall_target(x, y) ==> final(self).block_at(x, y) == Some(Block::Air)
                    || final(self).block_at(x, y) == Some(Block::Trash),
            forall|fx: int, fy: int, tx: int, ty: int|
                #[trigger] old(self).fall_move(fx, fy, tx, ty) ==> edge_covered(
                    *final(self),
                    fx,
                    fy,
                ) && edge_covered(*final(self), tx, ty),
            forall|fx: int, fy: int|
                #[trigger] old(self).double_fall(fx, fy) ==> final(self).block_at(fx - 1, fy - 1)
                    == Some(Block::Trash) && final(self).block_at(fx + 1, fy - 1) == Some(
                    Block::Air,
                ),
    {
        let ghost w0 = *self;
        let mut commands: Vec<UpdateCommand> = Vec::new();
        let mut i: usize = 0;
        while i < self.chunks.len()
            invariant
                self.wf(),
                *self == w0,
                i <= self.entries().len(),
                forall|k: int|
                    0 <= k < commands@.len() ==> w0.fall_move(
                        cmd_from(#[trigger] commands@[k]).0 as int,
                        cmd_from(commands@[k]).1 as int,
                        cmd_to(commands@[k]).0 as int,
                        cmd_to(commands@[k]).1 as int,
                    ),
                forall|k: int|
                    0 <= k < commands@.len() ==> exists|j: int|
                        0 <= j < i && chunk_cell(
                            (#[trigger] self.entries()[j]).0,
                            cmd_from(#[trigger] commands@[k]),
                        ),
                forall|j: int, fx: int, fy: int, tx: int, ty: int|
                    0 <= j < i && #[trigger] w0.fall_move(fx, fy, tx, ty) && floor_div(fx, 16) == (
                    #[trigger] self.entries()[j]).0.0 && floor_div(fy, 16) == self.entries()[j].0.1
                        ==> commands@.contains(
                        UpdateCommand::Move(
                            WorldPos(fx as i32, fy as i32),
                            WorldPos(tx as i32, ty as i32),
                        ),
                    ),
                forall|k1: int, k2: int|
                    0 <= k1 < k2 < commands@.len() ==> commands@[k1] != commands@[k2],
                forall|k1: int, k2: int|
                    0 <= k1 < k2 < commands@.len() && floor_div(
                        cmd_from(#[trigger] commands@[k1]).0 as int,
                        16,
                    ) == floor_div(cmd_from(#[trigger] commands@[k2]).0 as int, 16) && floor_div(
                        cmd_from(commands@[k1]).1 as int,
                        16,
                    ) == floor_div(cmd_from(commands@[k2]).1 as int, 16) ==> cmd_rank(
                        commands@[k1],
                    ) < cmd_rank(commands@[k2]),
            decreases self.entries().len() - i,
        {
            proof {
                lemma_find_from_unique(self.entries(), i as int);
            }
            let e = &self.chunks[i];
            let mut cs = e.1.update(e.0, self);
            let ghost pre_cmds = commands@;
            let ghost new_cmds = cs@;
            commands.append(&mut cs);
            proof {
                lemma_add_contains(pre_cmds, new_cmds);
                assert(commands@ == pre_cmds + new_cmds);
                assert forall|k1: int, k2: int|
                    0 <= k1 < k2 < commands@.len() implies commands@[k1] != commands@[k2] by {
                    if k1 < pre_cmds.len() && k2 >= pre_cmds.len() {
                        let c1 = commands@[k1];
                        let c2 = commands@[k2];
                        assert(c1 == pre_cmds[k1]);
                        assert(c2 == new_cmds[k2 - pre_cmds.len()]);
                        let j1 = choose|j: int|
                            0 <= j < i && chunk_cell((#[trigger] self.entries()[j]).0, cmd_from(c1));
                        assert(self.entries()[j1].0 != self.entries()[i as int].0);
                        assert(chunk_cell(self.entries()[i as int].0, cmd_from(c2)));
                    }
                }
                assert forall|k1: int, k2: int|
                    0 <= k1 < k2 < commands@.len() && floor_div(
                        cmd_from(#[trigger] commands@[k1]).0 as int,
                        16,
                    ) == floor_div(cmd_from(#[trigger] commands@[k2]).0 as int, 16) && floor_div(
                        cmd_from(commands@[k1]).1 as int,
                        16,
                    ) == floor_div(cmd_from(commands@[k2]).1 as int, 16) implies cmd_rank(
                    commands@[k1],
                ) < cmd_rank(commands@[k2]) by {
                    if k1 < pre_cmds.len() && k2 >= pre_cmds.len() {
                        let c1 = commands@[k1];
                        let c2 = commands@[k2];
                        assert(c1 == pre_cmds[k1]);
                        assert(c2 == new_cmds[k2 - pre_cmds.len()]);
                        let j1 = choose|j: int|
                            0 <= j < i && chunk_cell((#[trigger] self.entries()[j]).0, cmd_from(c1));
                        assert(self.entries()[j1].0 != self.entries()[i as int].0);
                        assert(chunk_cell(self.entries()[i as int].0, cmd_from(c2)));
                    }
                    if k1 >= pre_cmds.len() {
                        assert(commands@[k1] == new_cmds[k1 - pre_cmds.len()]);
                        assert(commands@[k2] == new_cmds[k2 - pre_cmds.len()]);
                    }
                }
                assert forall|k: int| 0 <= k < commands@.len() implies exists|j: int|
                    0 <= j < i + 1 && chunk_cell(
                        (#[trigger] self.entries()[j]).0,
                        cmd_from(#[trigger] commands@[k]),
                    ) by {
                    if k < pre_cmds.len() {
                        let j1 = choose|j: int|
                            0 <= j < i && chunk_cell(
                                (#[trigger] self.entries()[j]).0,
                                cmd_from(pre_cmds[k]),
                            );
                        assert(0 <= j1 < i + 1 && chunk_cell(
                            self.entries()[j1].0,
                            cmd_from(commands@[k]),
                        ));
                    } else {
                        assert(commands@[k] == new_cmds[k - pre_cmds.len()]);
                        assert(chunk_cell(self.entries()[i as int].0, cmd_from(commands@[k])));
                    }
                }
            }
            i = i + 1;
        }
        proof {
            assert forall|fx: int, fy: int, tx: int, ty: int|
                #[trigger] w0.fall_move(fx, fy, tx, ty) implies commands@.contains(
                UpdateCommand::Move(WorldPos(fx as i32, fy as i32), WorldPos(tx as i32, ty as i32)),
            ) by {
                lemma_block_at_index(w0, fx, fy);
                let j = choose|j: int|
                    0 <= j < w0.entries().len() && (#[trigger] w0.entries()[j]).0.0 == floor_div(
                        fx,
                        16,
                    ) && w0.entries()[j].0.1 == floor_div(fy, 16) && w0.block_at(fx, fy) == Some(
                        w0.entries()[j].1.spec_at(floor_mod(fx, 16), floor_mod(fy, 16)),
                    );
                assert(0 <= j < w0.entries().len());
            }
            assert forall|fx: int, fy: int| #[trigger] w0.double_fall(fx, fy) implies exists|
                j1: int,
                j2: int,
            |
                0 <= j1 < j2 < commands@.len() && commands@[j1] == left_move(fx, fy)
                    && commands@[j2] == right_move(fx, fy) by {
                lemma_covered_pos_ok(w0, fx, fy);
                lemma_covered_pos_ok(w0, fx - 1, fy - 1);
                lemma_covered_pos_ok(w0, fx + 1, fy - 1);
                assert(commands@.contains(left_move(fx, fy)));
                assert(commands@.contains(right_move(fx, fy)));
                let j1 = choose|j: int|
                    0 <= j < commands@.len() && commands@[j] == left_move(fx, fy);
                let j2 = choose|j: int|
                    0 <= j < commands@.len() && commands@[j] == right_move(fx, fy);
                assert(cmd_rank(left_move(fx, fy)) < cmd_rank(right_move(fx, fy)));
                assert(j1 < j2);
                assert(0 <= j1 < j2 < commands@.len() && commands@[j1] == left_move(fx, fy)
                    && commands@[j2] == right_move(fx, fy));
            }
        }
        let ghost cmds = commands@;
        let n = commands.len();
        proof {
            assert forall|fx: int, fy: int| #[trigger] w0.double_fall(fx, fy) implies unapplied(
                cmds,
                0,
                left_move(fx, fy),
            ) by {
                let (j1, j2) = choose|j1: int, j2: int|
                    0 <= j1 < j2 < cmds.len() && cmds[j1] == left_move(fx, fy) && cmds[j2]
                        == right_move(fx, fy);
                assert(0 <= j1 < cmds.len() && cmds[j1] == left_move(fx, fy));
            }
        }
        let mut k: usize = 0;
        while k < n
            invariant
                self.wf(),
                w0.wf(),
                k <= n,
                n == cmds.len(),
                commands@ == cmds,
                forall|j: int|
                    0 <= j < n ==> w0.fall_move(
                        cmd_from(#[trigger] cmds[j]).0 as int,
                        cmd_from(cmds[j]).1 as int,
                        cmd_to(cmds[j]).0 as int,
                        cmd_to(cmds[j]).1 as int,
                    ),
                forall|fx: int, fy: int, tx: int, ty: int|
                    #[trigger] w0.fall_move(fx, fy, tx, ty) ==> cmds.contains(
                        UpdateCommand::Move(
                            WorldPos(fx as i32, fy as i32),
                            WorldPos(tx as i32, ty as i32),
                        ),
                    ),
                forall|k1: int, k2: int| 0 <= k1 < k2 < n ==> cmds[k1] != cmds[k2],
                forall|cx: int, cy: int| w0.has_chunk(cx, cy) ==> self.has_chunk(cx, cy),
                forall|x: int, y: int|
                    #![trigger self.block_at(x, y)]
                    w0.covers(x, y) && !w0.involved(x, y) ==> self.block_at(x, y) == w0.block_at(
                        x,
                        y,
                    ),
                forall|j: int|
                    0 <= j < k ==> self.block_at(
                        cmd_from(#[trigger] cmds[j]).0 as int,
                        cmd_from(cmds[j]).1 as int,
                    ) == Some(Block::Air),
                forall|j: int|
                    0 <= j < k && w0.lone_move(
                        cmd_from(#[trigger] cmds[j]).0 as int,
                        cmd_from(cmds[j]).1 as int,
                        cmd_to(cmds[j]).0 as int,
                        cmd_to(cmds[j]).1 as int,
                    ) ==> self.block_at(cmd_to(cmds[j]).0 as int, cmd_to(cmds[j]).1 as int) == Some(
                        Block::Trash,
                    ),
                forall|j: int|
                    0 <= j < n ==> (self.block_at(
                        cmd_from(#[trigger] cmds[j]).0 as int,
                        cmd_from(cmds[j]).1 as int,
                    ) == Some(Block::Trash) || self.block_at(
                        cmd_from(cmds[j]).0 as int,
                        cmd_from(cmds[j]).1 as int,
                    ) == Some(Block::Air)) && (self.block_at(
                        cmd_to(cmds[j]).0 as int,
                        cmd_to(cmds[j]).1 as int,
                    ) == Some(Block::Trash) || self.block_at(
                        cmd_to(cmds[j]).0 as int,
                        cmd_to(cmds[j]).1 as int,
                    ) == Some(Block::Air)),
                forall|fx: int, fy: int|
                    #[trigger] w0.double_fall(fx, fy) ==> exists|j1: int, j2: int|
                        0 <= j1 < j2 < n && cmds[j1] == left_move(fx, fy) && cmds[j2] == right_move(
                            fx,
                            fy,
                        ),
                forall|fx: int, fy: int|
                    #[trigger] w0.double_fall(fx, fy) ==> self.block_at(fx + 1, fy - 1) == Some(
                        Block::Air,
                    ) && (unapplied(cmds, k as int, left_move(fx, fy)) ==> self.block_at(fx, fy)
                        == Some(Block::Trash) && self.block_at(fx - 1, fy - 1) == Some(Block::Air))
                        && (!unapplied(cmds, k as int, left_move(fx, fy)) ==> self.block_at(
                        fx - 1,
                        fy - 1,
                    ) == Some(Block::Trash)),
                forall|j: int|
                    0 <= j < k ==> edge_covered(
                        *self,
                        cmd_from(#[trigger] cmds[j]).0 as int,
                        cmd_from(cmds[j]).1 as int,
                    ) && edge_covered(*self, cmd_to(cmds[j]).0 as int, cmd_to(cmds[j]).1 as int),
                forall|j: int|
                    k <= j < n && w0.lone_move(
                        cmd_from(#[trigger] cmds[j]).0 as int,
                        cmd_from(cmds[j]).1 as int,
                        cmd_to(cmds[j]).0 as int,
                        cmd_to(cmds[j]).1 as int,
                    ) ==> self.block_at(cmd_from(cmds[j]).0 as int, cmd_from(cmds[j]).1 as int)
                        == Some(Block::Trash) && self.block_at(
                        cmd_to(cmds[j]).0 as int,
                        cmd_to(cmds[j]).1 as int,
                    ) == Some(Block::Air),
            decreases n - k,
        {
            let c = commands[k];
            let (from, to) = match c {
                UpdateCommand::Move(f, t) => (f, t),
            };
            proof {
                assert(w0.fall_move(from.0 as int, from.1 as int, to.0 as int, to.1 as int));
                lemma_covered_pos_ok(w0, from.0 as int, from.1 as int);
                lemma_covered_pos_ok(w0, to.0 as int, to.1 as int);
            }
            let ghost s0 = *self;
            let from_block = self.force_block(from);
            self.set_block(to, from_block);
            self.set_block(from, Block::Air);
            self.ensure_around(from);
            self.ensure_around(to);
            proof {
                let fxi = from.0 as int;
                let fyi = from.1 as int;
                let txi = to.0 as int;
                let tyi = to.1 as int;
                assert(w0.block_at(fxi, fyi) == Some(Block::Trash));
                assert(w0.block_at(txi, tyi) == Some(Block::Air));
                assert forall|x: int, y: int|
                    #![trigger self.block_at(x, y)]
                    s0.covers(x, y) && !(x == fxi && y == fyi) && !(x == txi && y
                    == tyi) implies self.block_at(x, y) == s0.block_at(x, y) by {}
                assert(forall|cx: int, cy: int|
                    s0.has_chunk(cx, cy) ==> self.has_chunk(cx, cy));
                assert(self.block_at(txi, tyi) == Some(from_block));
                assert(self.block_at(fxi, fyi) == Some(Block::Air));
                assert(from_block == s0.block_at(fxi, fyi)->0);
                lemma_apply_step(w0, cmds, k as int, s0, *self, from, to, from_block);
                assert forall|j: int| 0 <= j < k + 1 implies edge_covered(
                    *self,
                    cmd_from(#[trigger] cmds[j]).0 as int,
                    cmd_from(cmds[j]).1 as int,
                ) && edge_covered(*self, cmd_to(cmds[j]).0 as int, cmd_to(cmds[j]).1 as int) by {
                    assert(forall|cx: int, cy: int|
                        s0.has_chunk(cx, cy) ==> self.has_chunk(cx, cy));
                }
            }
            k = k + 1;
        }
        proof {
            assert forall|x: int, y: int| w0.is_fall_source(x, y) implies self.block_at(x, y)
                == Some(Block::Air) by {
                let (tx, ty) = choose|tx: int, ty: int| w0.fall_move(x, y, tx, ty);
                lemma_covered_pos_ok(w0, x, y);
                lemma_covered_pos_ok(w0, tx, ty);
                let c = UpdateCommand::Move(WorldPos(x as i32, y as i32), WorldPos(tx as i32, ty as i32));
                assert(cmds.contains(c));
                let j = choose|j: int| 0 <= j < cmds.len() && cmds[j] == c;
                assert(self.block_at(cmd_from(cmds[j]).0 as int, cmd_from(cmds[j]).1 as int)
                    == Some(Block::Air));
            }
            assert forall|x: int, y: int| w0.is_fall_target(x, y) implies self.block_at(x, y)
                == Some(Block::Air) || self.block_at(x, y) == Some(Block::Trash) by {
                let (fx, fy) = choose|fx: int, fy: int| w0.fall_move(fx, fy, x, y);
                lemma_covered_pos_ok(w0, fx, fy);
                lemma_covered_pos_ok(w0, x, y);
                let c = UpdateCommand::Move(
                    WorldPos(fx as i32, fy as i32),
                    WorldPos(x as i32, y as i32),
                );
                assert(cmds.contains(c));
                let j = choose|j: int| 0 <= j < cmds.len() && cmds[j] == c;
                assert(0 <= j < cmds.len());
            }
            assert forall|fx: int, fy: int, tx: int, ty: int|
                #[trigger] w0.fall_move(fx, fy, tx, ty) implies edge_covered(*self, fx, fy)
                && edge_covered(*self, tx, ty) by {
                lemma_covered_pos_ok(w0, fx, fy);
                lemma_covered_pos_ok(w0, tx, ty);
                let c = UpdateCommand::Move(
                    WorldPos(fx as i32, fy as i32),
                    WorldPos(tx as i32, ty as i32),
                );
                assert(cmds.contains(c));
                let j = choose|j: int| 0 <= j < cmds.len() && cmds[j] == c;
                assert(0 <= j < cmds.len());
            }
            assert forall|fx: int, fy: int| #[trigger] w0.double_fall(fx, fy) implies self.block_at(
                fx - 1,
                fy - 1,
            ) == Some(Block::Trash) && self.block_at(fx + 1, fy - 1) == Some(Block::Air) by {
                assert(!unapplied(cmds, n as int, left_move(fx, fy)));
            }
            assert forall|fx: int, fy: int, tx: int, ty: int|
                #[trigger] w0.lone_move(fx, fy, tx, ty) implies self.block_at(tx, ty) == Some(
                Block::Trash,
            ) by {
                lemma_covered_pos_ok(w0, fx, fy);
                lemma_covered_pos_ok(w0, tx, ty);
                let c = UpdateCommand::Move(
                    WorldPos(fx as i32, fy as i32),
                    WorldPos(tx as i32, ty as i32),
                );
                assert(cmds.contains(c));
                let j = choose|j: int| 0 <= j < cmds.len() && cmds[j] == c;
                assert(w0.lone_move(
                    cmd_from(cmds[j]).0 as int,
                    cmd_from(cmds[j]).1 as int,
                    cmd_to(cmds[j]).0 as int,
                    cmd_to(cmds[j]).1 as int,
                ));
            }
        }
    }

    /// The row that `is_highest` characterizes for column `x`. Meaningful
    /// wherever some row satisfies `is_highest`, which `get_highest_block`
    /// always establishes.
    pub open spec fn highest_y(self, x: int) -> int {
        choose|h: int| self.is_highest(x, h)
    }

    /// At most one row is the highest of a column.
    pub proof fn lemma_highest_unique(self, x: int, h1: int, h2: int)
        requires
            self.is_highest(x, h1),
            self.is_highest(x, h2),
        ensures
            h1 == h2,
    {
    }

    /// A row known to be the highest of its column is what `highest_y` names.
    pub proof fn lemma_highest_y_is(self, x: int, h: int)
        requires
            self.is_highest(x, h),
        ensures
            self.highest_y(x) == h,
    {
        let h2 = self.highest_y(x);
        assert(self.is_highest(x, h2));
        self.lemma_highest_unique(x, h, h2);
    }

    /// The block that `force_block` returns: the stored cell where the chunk
    /// is materialized, the generated cell where forcing will materialize it.
    pub open spec fn forced_at(self, x: int, y: int) -> Block {
        if self.covers(x, y) {
            self.block_at(x, y)->0
        } else {
            generated_block(floor_div(y, 16), floor_mod(y, 16))
        }
    }

    /// Reports the highest block of column `x` among materialized chunks,
    /// scanning nothing into existence; a column with no materialized
    /// non-air cell reports the fallback row 5.
    pub fn get_highest_block(&self, x: i32) -> (r: WorldPos)
        requires
            self.wf(),
        ensures
            r.0 == x,
            self.is_highest(x as int, r.1 as int),
    {
        proof {
            lemma_floor_div_mod(x as int, 16);
        }
        let chunk_x = negative_int_div(x, 16);
        let in_chunk_x = negative_mod(x, 16);
        let mut best: Option<i32> = None;
        let mut i: usize = 0;
        while i < self.chunks.len()
            invariant
                self.wf(),
                i <= self.entries().len(),
                chunk_x as int == floor_div(x as int, 16),
                in_chunk_x as int == floor_mod(x as int, 16),
                0 <= in_chunk_x < 16,
                match best {
                    Some(b) => self.col_nonair(x as int, b as int) && forall|j: int, ly: int|
                        #![trigger self.entries()[j].1.spec_at(in_chunk_x as int, ly)]
                        0 <= j < i && 0 <= ly < 16 && self.entries()[j].0.0 == chunk_x
                            && self.entries()[j].0.1 * 16 + ly > b ==> self.entries()[j].1.spec_at(
                            in_chunk_x as int,
                            ly,
                        ) == Block::Air,
                    None => forall|j: int, ly: int|
                        #![trigger self.entries()[j].1.spec_at(in_chunk_x as int, ly)]
                        0 <= j < i && 0 <= ly < 16 && self.entries()[j].0.0 == chunk_x
                            ==> self.entries()[j].1.spec_at(in_chunk_x as int, ly) == Block::Air,
                },
            decreases self.entries().len() - i,
        {
            let e = &self.chunks[i];
            if e.0.0 == chunk_x {
                let mut top: Option<i32> = None;
                let mut ly: i32 = 0;
                while ly < 16
                    invariant
                        0 <= ly <= 16,
                        0 <= in_chunk_x < 16,
                        e.1.wf(),
                        match top {
                            Some(t) => 0 <= t < ly && e.1.spec_at(in_chunk_x as int, t as int)
                                != Block::Air && forall|l2: int|
                                t < l2 < ly ==> e.1.spec_at(in_chunk_x as int, l2) == Block::Air,
                            None => forall|l2: int|
                                0 <= l2 < ly ==> e.1.spec_at(in_chunk_x as int, l2) == Block::Air,
                        },
                    decreases 16 - ly,
                {
                    if e.1.get_block(InChunkPos(in_chunk_x, ly)) != Block::Air {
                        top = Some(ly);
                    }
                    ly = ly + 1;
                }
                match top {
                    Some(t) => {
                        let cand: i32 = e.0.1 * 16 + t;
                        proof {
                            lemma_block_at_entry(*self, i as int, in_chunk_x as int, t as int);
                        }
                        let new_best: i32 = match best {
                            Some(b) => if cand > b {
                                cand
                            } else {
                                b
                            },
                            None => cand,
                        };
                        proof {
                            assert forall|j: int, l2: int|
                                #![trigger self.entries()[j].1.spec_at(in_chunk_x as int, l2)]
                                0 <= j < i + 1 && 0 <= l2 < 16 && self.entries()[j].0.0
                                    == chunk_x && self.entries()[j].0.1 * 16 + l2
                                    > new_best implies self.entries()[j].1.spec_at(
                                in_chunk_x as int,
                                l2,
                            ) == Block::Air by {
                                if j == i {
                                    assert(self.entries()[j].0.1 * 16 + l2 > e.0.1 as int * 16
                                        + t as int);
                                }
                            }
                        }
                        best = Some(new_best);
                    },
                    None => {
                        proof {
                            assert forall|j: int, l2: int|
                                #![trigger self.entries()[j].1.spec_at(in_chunk_x as int, l2)]
                                0 <= j < i + 1 && 0 <= l2 < 16 && self.entries()[j].0.0
                                    == chunk_x && j == i implies self.entries()[j].1.spec_at(
                                in_chunk_x as int,
                                l2,
                            ) == Block::Air by {}
                        }
                    },
                }
            }
            i = i + 1;
        }
        proof {
            assert forall|yy: int| self.col_nonair(x as int, yy) implies (match best {
                Some(b) => yy <= b,
                None => false,
            }) by {
                lemma_block_at_index(*self, x as int, yy);
                lemma_floor_div_mod(yy, 16);
                let j = choose|j: int|
                    0 <= j < self.entries().len() && (#[trigger] self.entries()[j]).0.0
                        == floor_div(x as int, 16) && self.entries()[j].0.1 == floor_div(yy, 16)
                        && self.block_at(x as int, yy) == Some(
                        self.entries()[j].1.spec_at(floor_mod(x as int, 16), floor_mod(yy, 16)),
                    );
                assert(self.entries()[j].0.1 * 16 + floor_mod(yy, 16) == yy);
            }
        }
        match best {
            Some(b) => WorldPos(x, b),
            None => WorldPos(x, 5),
        }
    }
}

/// A single physics move: the source cell is read, written to the
/// destination, and cleared, during the apply phase of a tick.
#[derive(Clone, Copy, PartialEq, Eq, Structural, Debug)]
pub enum UpdateCommand {
    Move(WorldPos, WorldPos),
}

/// The source cell of a move command.
pub open spec fn cmd_from(c: UpdateCommand) -> WorldPos {
    match c {
        UpdateCommand::Move(f, t) => f,
    }
}

/// The destination cell of a move command.
pub open spec fn cmd_to(c: UpdateCommand) -> WorldPos {
    match c {
        UpdateCommand::Move(f, t) => t,
    }
}

/// A command is valid for the chunk at `cpos` in world `w`: it is a legal
/// fall whose source cell lies inside that chunk.
pub open spec fn cmd_valid(w: World, cpos: ChunkPos, c: UpdateCommand) -> bool {
    &&& w.fall_move(
        cmd_from(c).0 as int,
        cmd_from(c).1 as int,
        cmd_to(c).0 as int,
        cmd_to(c).1 as int,
    )
    &&& chunk_cell(cpos, cmd_from(c))
}

/// The wedge that a fresh world hollows out around `x = 0`: in each trash
/// row `y` of `[0, 6)`, the columns from `-(5 + y)` up to but not including
/// `5 + y`.
pub open spec fn carved(x: int, y: int) -> bool {
    0 <= y < 6 && -(5 + y) <= x < 5 + y
}

/// The scan rank of a proposed move inside its chunk: rows are scanned from
/// the top down, columns left to right, and a cell's down-left proposal
/// comes before its down-right one. Commands are emitted in strictly
/// increasing rank.
pub open spec fn cmd_rank(c: UpdateCommand) -> int {
    let lfx = floor_mod(cmd_from(c).0 as int, 16);
    let lfy = floor_mod(cmd_from(c).1 as int, 16);
    let d: int = if cmd_to(c).0 == cmd_from(c).0 - 1 {
        0
    } else {
        1
    };
    ((15 - lfy) * 16 + lfx) * 2 + d
}

/// Whether `c` still waits to be applied: it sits at or after position `k`
/// of the command list.
pub open spec fn unapplied(cmds: Seq<UpdateCommand>, k: int, c: UpdateCommand) -> bool {
    exists|j: int| k <= j < cmds.len() && cmds[j] == c
}

/// The down-left move of the cell at `(fx, fy)`.
pub open spec fn left_move(fx: int, fy: int) -> UpdateCommand {
    UpdateCommand::Move(
        WorldPos(fx as i32, fy as i32),
        WorldPos((fx - 1) as i32, (fy - 1) as i32),
    )
}

/// The down-right move of the cell at `(fx, fy)`.
pub open spec fn right_move(fx: int, fy: int) -> UpdateCommand {
    UpdateCommand::Move(
        WorldPos(fx as i32, fy as i32),
        WorldPos((fx + 1) as i32, (fy - 1) as i32),
    )
}

/// Whether world position `p` lies inside the chunk at `cpos`.
pub open spec fn chunk_cell(cpos: ChunkPos, p: WorldPos) -> bool {
    floor_div(p.0 as int, 16) == cpos.0 && floor_div(p.1 as int, 16) == cpos.1
}

/// Scan order of the proposal pass inside a chunk: rows from the top down,
/// columns left to right. `(lx, ly)` has already been visited when the scan
/// stands at `(x, y)`.
pub open spec fn cell_before(lx: int, ly: int, x: int, y: int) -> bool {
    ly > y || (ly == y && lx < x)
}

/// One apply step of a tick: given the loop facts for the first `k`
/// commands over state `s0`, and the pointwise effect of applying command
/// `k` (destination written, source cleared, everything else kept), the
/// loop facts hold for the first `k + 1` commands over the new state `s1`.
proof fn lemma_apply_step(
    w0: World,
    cmds: Seq<UpdateCommand>,
    k: int,
    s0: World,
    s1: World,
    from: WorldPos,
    to: WorldPos,
    v: Block,
)
    requires
        w0.wf(),
        0 <= k < cmds.len(),
        cmds[k] == UpdateCommand::Move(from, to),
        forall|j: int|
            0 <= j < cmds.len() ==> w0.fall_move(
                cmd_from(#[trigger] cmds[j]).0 as int,
                cmd_from(cmds[j]).1 as int,
                cmd_to(cmds[j]).0 as int,
                cmd_to(cmds[j]).1 as int,
            ),
        forall|k1: int, k2: int| 0 <= k1 < k2 < cmds.len() ==> cmds[k1] != cmds[k2],
        forall|cx: int, cy: int| w0.has_chunk(cx, cy) ==> s0.has_chunk(cx, cy),
        forall|x: int, y: int|
            #![trigger s0.block_at(x, y)]
            w0.covers(x, y) && !w0.involved(x, y) ==> s0.block_at(x, y) == w0.block_at(x, y),
        forall|j: int|
            0 <= j < k ==> s0.block_at(
                cmd_from(#[trigger] cmds[j]).0 as int,
                cmd_from(cmds[j]).1 as int,
            ) == Some(Block::Air),
        forall|j: int|
            0 <= j < k && w0.lone_move(
                cmd_from(#[trigger] cmds[j]).0 as int,
                cmd_from(cmds[j]).1 as int,
                cmd_to(cmds[j]).0 as int,
                cmd_to(cmds[j]).1 as int,
            ) ==> s0.block_at(cmd_to(cmds[j]).0 as int, cmd_to(cmds[j]).1 as int) == Some(
                Block::Trash,
            ),
        forall|j: int|
            k <= j < cmds.len() && w0.lone_move(
                cmd_from(#[trigger] cmds[j]).0 as int,
                cmd_from(cmds[j]).1 as int,
                cmd_to(cmds[j]).0 as int,
                cmd_to(cmds[j]).1 as int,
            ) ==> s0.block_at(cmd_from(cmds[j]).0 as int, cmd_from(cmds[j]).1 as int) == Some(
                Block::Trash,
            ) && s0.block_at(cmd_to(cmds[j]).0 as int, cmd_to(cmds[j]).1 as int) == Some(
                Block::Air,
            ),
        forall|fx: int, fy: int|
            #[trigger] w0.double_fall(fx, fy) ==> exists|j1: int, j2: int|
                0 <= j1 < j2 < cmds.len() && cmds[j1] == left_move(fx, fy) && cmds[j2]
                    == right_move(fx, fy),
        forall|fx: int, fy: int|
            #[trigger] w0.double_fall(fx, fy) ==> s0.block_at(fx + 1, fy - 1) == Some(Block::Air)
                && (unapplied(cmds, k, left_move(fx, fy)) ==> s0.block_at(fx, fy) == Some(
                Block::Trash,
            ) && s0.block_at(fx - 1, fy - 1) == Some(Block::Air)) && (!unapplied(
                cmds,
                k,
                left_move(fx, fy),
            ) ==> s0.block_at(fx - 1, fy - 1) == Some(Block::Trash)),
        forall|cx: int, cy: int| s0.has_chunk(cx, cy) ==> s1.has_chunk(cx, cy),
        forall|x: int, y: int|
            #![trigger s1.block_at(x, y)]
            s0.covers(x, y) && !(x == from.0 && y == from.1) && !(x == to.0 && y == to.1)
                ==> s1.block_at(x, y) == s0.block_at(x, y),
        s1.block_at(to.0 as int, to.1 as int) == Some(v),
        s1.block_at(from.0 as int, from.1 as int) == Some(Block::Air),
        v == s0.block_at(from.0 as int, from.1 as int)->0,
    ensures
        forall|cx: int, cy: int| w0.has_chunk(cx, cy) ==> s1.has_chunk(cx, cy),
        forall|x: int, y: int|
            #![trigger s1.block_at(x, y)]
            w0.covers(x, y) && !w0.involved(x, y) ==> s1.block_at(x, y) == w0.block_at(x, y),
        forall|j: int|
            0 <= j < k + 1 ==> s1.block_at(
                cmd_from(#[trigger] cmds[j]).0 as int,
                cmd_from(cmds[j]).1 as int,
            ) == Some(Block::Air),
        forall|j: int|
            0 <= j < k + 1 && w0.lone_move(
                cmd_from(#[trigger] cmds[j]).0 as int,
                cmd_from(cmds[j]).1 as int,
                cmd_to(cmds[j]).0 as int,
                cmd_to(cmds[j]).1 as int,
            ) ==> s1.block_at(cmd_to(cmds[j]).0 as int, cmd_to(cmds[j]).1 as int) == Some(
                Block::Trash,
            ),
        forall|j: int|
            k + 1 <= j < cmds.len() && w0.lone_move(
                cmd_from(#[trigger] cmds[j]).0 as int,
                cmd_from(cmds[j]).1 as int,
                cmd_to(cmds[j]).0 as int,
                cmd_to(cmds[j]).1 as int,
            ) ==> s1.block_at(cmd_from(cmds[j]).0 as int, cmd_from(cmds[j]).1 as int) == Some(
                Block::Trash,
            ) && s1.block_at(cmd_to(cmds[j]).0 as int, cmd_to(cmds[j]).1 as int) == Some(
                Block::Air,
            ),
        forall|fx: int, fy: int|
            #[trigger] w0.double_fall(fx, fy) ==> s1.block_at(fx + 1, fy - 1) == Some(Block::Air)
                && (unapplied(cmds, k + 1, left_move(fx, fy)) ==> s1.block_at(fx, fy) == Some(
                Block::Trash,
            ) && s1.block_at(fx - 1, fy - 1) == Some(Block::Air)) && (!unapplied(
                cmds,
                k + 1,
                left_move(fx, fy),
            ) ==> s1.block_at(fx - 1, fy - 1) == Some(Block::Trash)),
{
    let fxi = from.0 as int;
    let fyi = from.1 as int;
    let txi = to.0 as int;
    let tyi = to.1 as int;
    assert(w0.fall_move(fxi, fyi, txi, tyi));
    assert(w0.block_at(fxi, fyi) == Some(Block::Trash));
    assert(w0.block_at(txi, tyi) == Some(Block::Air));
    assert(w0.is_fall_source(fxi, fyi));
    assert(w0.is_fall_target(txi, tyi));
    assert forall|x: int, y: int|
        #![trigger s1.block_at(x, y)]
        w0.covers(x, y) && !w0.involved(x, y) implies s1.block_at(x, y) == w0.block_at(x, y) by {
        assert(!(x == fxi && y == fyi));
        assert(!(x == txi && y == tyi));
    }
    assert forall|j: int| 0 <= j < k + 1 implies s1.block_at(
        cmd_from(#[trigger] cmds[j]).0 as int,
        cmd_from(cmds[j]).1 as int,
    ) == Some(Block::Air) by {
        if j < k {
            let cfx = cmd_from(cmds[j]).0 as int;
            let cfy = cmd_from(cmds[j]).1 as int;
            assert(w0.block_at(cfx, cfy) == Some(Block::Trash));
            assert(!(cfx == txi && cfy == tyi));
        }
    }
    assert forall|j: int|
        0 <= j < k + 1 && w0.lone_move(
            cmd_from(#[trigger] cmds[j]).0 as int,
            cmd_from(cmds[j]).1 as int,
            cmd_to(cmds[j]).0 as int,
            cmd_to(cmds[j]).1 as int,
        ) implies s1.block_at(cmd_to(cmds[j]).0 as int, cmd_to(cmds[j]).1 as int) == Some(
        Block::Trash,
    ) by {
        let cfx = cmd_from(cmds[j]).0 as int;
        let cfy = cmd_from(cmds[j]).1 as int;
        let ctx = cmd_to(cmds[j]).0 as int;
        let cty = cmd_to(cmds[j]).1 as int;
        assert(w0.block_at(cfx, cfy) == Some(Block::Trash));
        assert(w0.block_at(ctx, cty) == Some(Block::Air));
        if j < k {
            if ctx == txi && cty == tyi {
                assert(fxi == cfx && fyi == cfy);
                assert(cmds[j] == cmds[k]);
                assert(false);
            }
            assert(!(ctx == fxi && cty == fyi));
        } else {
            assert(s0.block_at(fxi, fyi) == Some(Block::Trash));
        }
    }
    assert forall|j: int|
        k + 1 <= j < cmds.len() && w0.lone_move(
            cmd_from(#[trigger] cmds[j]).0 as int,
            cmd_from(cmds[j]).1 as int,
            cmd_to(cmds[j]).0 as int,
            cmd_to(cmds[j]).1 as int,
        ) implies s1.block_at(cmd_from(cmds[j]).0 as int, cmd_from(cmds[j]).1 as int) == Some(
        Block::Trash,
    ) && s1.block_at(cmd_to(cmds[j]).0 as int, cmd_to(cmds[j]).1 as int) == Some(Block::Air) by {
        let cfx = cmd_from(cmds[j]).0 as int;
        let cfy = cmd_from(cmds[j]).1 as int;
        let ctx = cmd_to(cmds[j]).0 as int;
        let cty = cmd_to(cmds[j]).1 as int;
        assert(w0.block_at(cfx, cfy) == Some(Block::Trash));
        assert(w0.block_at(ctx, cty) == Some(Block::Air));
        if cfx == fxi && cfy == fyi {
            assert(w0.fall_move(cfx, cfy, txi, tyi));
            assert(txi == ctx && tyi == cty);
            assert(cmds[j] == cmds[k]);
            assert(false);
        }
        if ctx == txi && cty == tyi {
            assert(w0.fall_move(fxi, fyi, ctx, cty));
            assert(fxi == cfx && fyi == cfy);
            assert(cmds[j] == cmds[k]);
            assert(false);
        }
        assert(!(cfx == txi && cfy == tyi));
        assert(!(ctx == fxi && cty == fyi));
    }
    assert forall|fx: int, fy: int| #[trigger] w0.double_fall(fx, fy) implies s1.block_at(
        fx + 1,
        fy - 1,
    ) == Some(Block::Air) && (unapplied(cmds, k + 1, left_move(fx, fy)) ==> s1.block_at(fx, fy)
        == Some(Block::Trash) && s1.block_at(fx - 1, fy - 1) == Some(Block::Air)) && (!unapplied(
        cmds,
        k + 1,
        left_move(fx, fy),
    ) ==> s1.block_at(fx - 1, fy - 1) == Some(Block::Trash)) by {
        lemma_covered_pos_ok(w0, fx, fy);
        lemma_covered_pos_ok(w0, fx - 1, fy - 1);
        lemma_covered_pos_ok(w0, fx + 1, fy - 1);
        let cbl = left_move(fx, fy);
        let cbr = right_move(fx, fy);
        assert(w0.block_at(fx, fy) == Some(Block::Trash));
        assert(w0.block_at(fx - 1, fy - 1) == Some(Block::Air));
        assert(w0.block_at(fx + 1, fy - 1) == Some(Block::Air));
        let (j1, j2) = choose|j1: int, j2: int|
            0 <= j1 < j2 < cmds.len() && cmds[j1] == cbl && cmds[j2] == cbr;
        if cmds[k] == cbl {
            assert(unapplied(cmds, k, cbl));
            assert(Some(v) == s0.block_at(fxi, fyi));
            assert(s1.block_at(fx - 1, fy - 1) == Some(Block::Trash));
            assert(s1.block_at(fx + 1, fy - 1) == s0.block_at(fx + 1, fy - 1));
            assert forall|j: int| k + 1 <= j < cmds.len() implies cmds[j] != cbl by {}
        } else if cmds[k] == cbr {
            assert(k == j2);
            assert(!unapplied(cmds, k, cbl)) by {
                if unapplied(cmds, k, cbl) {
                    let j = choose|j: int| k <= j < cmds.len() && cmds[j] == cbl;
                    assert(j == j1);
                }
            }
            assert(s0.block_at(cmd_from(cmds[j1]).0 as int, cmd_from(cmds[j1]).1 as int) == Some(
                Block::Air,
            ));
            assert(Some(v) == s0.block_at(fxi, fyi));
            assert(s1.block_at(fx + 1, fy - 1) == Some(Block::Air));
            assert(s1.block_at(fx - 1, fy - 1) == s0.block_at(fx - 1, fy - 1));
        } else {
            assert(!(txi == fx - 1 && tyi == fy - 1)) by {
                if txi == fx - 1 && tyi == fy - 1 {
                    assert(w0.fall_move(fxi, fyi, txi, tyi));
                    assert(fxi == fx && fyi == fy);
                    assert(cmds[k] == cbl);
                }
            }
            assert(!(txi == fx + 1 && tyi == fy - 1)) by {
                if txi == fx + 1 && tyi == fy - 1 {
                    assert(w0.fall_move(fxi, fyi, txi, tyi));
                    assert(fxi == fx && fyi == fy);
                    assert(cmds[k] == cbr);
                }
            }
            assert(!(fxi == fx && fyi == fy)) by {
                if fxi == fx && fyi == fy {
                    assert(txi == fx - 1 || txi == fx + 1);
                    assert(tyi == fy - 1);
                }
            }
            assert(s1.block_at(fx, fy) == s0.block_at(fx, fy));
            assert(s1.block_at(fx - 1, fy - 1) == s0.block_at(fx - 1, fy - 1));
            assert(s1.block_at(fx + 1, fy - 1) == s0.block_at(fx + 1, fy - 1));
            assert(unapplied(cmds, k + 1, cbl) ==> unapplied(cmds, k, cbl)) by {
                if unapplied(cmds, k + 1, cbl) {
                    let j = choose|j: int| k + 1 <= j < cmds.len() && cmds[j] == cbl;
                    assert(k <= j < cmds.len() && cmds[j] == cbl);
                }
            }
            assert(unapplied(cmds, k, cbl) ==> unapplied(cmds, k + 1, cbl)) by {
                if unapplied(cmds, k, cbl) {
                    let j = choose|j: int| k <= j < cmds.len() && cmds[j] == cbl;
                    assert(j != k);
                    assert(k + 1 <= j < cmds.len() && cmds[j] == cbl);
                }
            }
        }
    }
}

/// The cross-boundary guarantee for a touched cell: if it sits on its
/// chunk's horizontal edge, the adjacent chunk in that direction is
/// materialized (nothing lies beyond the extreme edge of `i32` space).
pub open spec fn edge_covered(w: World, x: int, y: int) -> bool {
    &&& (floor_mod(x, 16) == 0 && x > -0x7fff_fff0 ==> w.covers(x - 1, y))
    &&& (floor_mod(x, 16) == 15 && x < 0x7fff_ffff ==> w.covers(x + 1, y))
}

/// A materialized cell read through an entry of the chunk list agrees with
/// the global `block_at` view.
proof fn lemma_block_at_entry(w: World, j: int, lx: int, ly: int)
    requires
        w.wf(),
        0 <= j < w.entries().len(),
        0 <= lx < 16,
        0 <= ly < 16,
    ensures
        w.block_at(
            w.entries()[j].0.0 * 16 + lx,
            w.entries()[j].0.1 * 16 + ly,
        ) == Some(w.entries()[j].1.spec_at(lx, ly)),
{
    let cx = w.entries()[j].0.0 as int;
    let cy = w.entries()[j].0.1 as int;
    lemma_find_from_unique(w.entries(), j);
    vstd::arithmetic::div_mod::lemma_fundamental_div_mod_converse(cx * 16 + lx, 16, cx, lx);
    vstd::arithmetic::div_mod::lemma_fundamental_div_mod_converse(cy * 16 + ly, 16, cy, ly);
}

/// Every materialized cell belongs to exactly one entry of the chunk list.
proof fn lemma_block_at_index(w: World, x: int, y: int)
    requires
        w.wf(),
        w.covers(x, y),
    ensures
        exists|j: int|
            0 <= j < w.entries().len() && (#[trigger] w.entries()[j]).0.0 == floor_div(x, 16)
                && w.entries()[j].0.1 == floor_div(y, 16) && w.block_at(x, y) == Some(
                w.entries()[j].1.spec_at(floor_mod(x, 16), floor_mod(y, 16)),
            ),
{
    lemma_find_from_index(w.entries(), floor_div(x, 16), floor_div(y, 16));
}

/// Any materialized cell has coordinates accepted by the materializing
/// operations: its chunk is `chunk_pos_ok`, so the cell sits safely inside
/// `i32` space.
proof fn lemma_covered_pos_ok(w: World, x: int, y: int)
    requires
        w.wf(),
        w.covers(x, y),
    ensures
        -0x7fff_fff0 <= x <= 0x7fff_ffff,
        -0x7fff_fff0 <= y <= 0x7fff_ffff,
{
    lemma_find_from_index(w.entries(), floor_div(x, 16), floor_div(y, 16));
    let j = choose|j: int|
        0 <= j < w.entries().len() && (#[trigger] w.entries()[j]).0.0 == floor_div(x, 16)
            && w.entries()[j].0.1 == floor_div(y, 16) && Some(w.entries()[j].1) == find_from(
            w.entries(),
            floor_div(x, 16),
            floor_div(y, 16),
        );
    assert(chunk_pos_ok(w.entries()[j].0));
    lemma_floor_div_mod(x, 16);
    lemma_floor_div_mod(y, 16);
}

/// A reported highest row whose cell is not materialized can only be the
/// fallback row 5 of a column with no materialized non-air cell, and the
/// cell that forcing it would generate is trash.
pub proof fn lemma_uncovered_top_is_trash(w: World, x: int, h: int)
    requires
        w.wf(),
        w.is_highest(x, h),
        !w.covers(x, h),
    ensures
        h == 5,
        w.forced_at(x, h) == Block::Trash,
{
    if exists|yy: int| w.col_nonair(x, yy) {
        assert(w.covers(x, h));
    }
    vstd::arithmetic::div_mod::lemma_fundamental_div_mod_converse(5, 16, 0, 5);
}

/// The highest row of a column is the row of a materialized cell, or the
/// fallback row 5, so it always fits the materializing operations.
pub proof fn lemma_highest_in_range(w: World, x: int, h: int)
    requires
        w.wf(),
        w.is_highest(x, h),
    ensures
        -0x7fff_fff0 <= h <= 0x7fff_ffff,
{
    if exists|yy: int| w.col_nonair(x, yy) {
        lemma_covered_pos_ok(w, x, h);
    }
}

/// The floor quotient by 16 of any `i32` lies strictly inside the range that
/// `chunk_pos_ok` demands, as long as the coordinate is `pos_ok`.
proof fn lemma_div16_bounds(a: int)
    requires
        -0x7fff_fff0 <= a <= 0x7fff_ffff,
    ensures
        -0x0800_0000 < floor_div(a, 16) < 0x0800_0000,
{
    lemma_floor_div_mod(a, 16);
    assert(-0x0800_0000 < a / 16 < 0x0800_0000) by (nonlinear_arith)
        requires
            -0x7fff_fff0 <= a <= 0x7fff_ffff,
            (a / 16) * 16 + (a % 16) == a,
            0 <= a % 16 < 16,
    {
    }
}

/// Replacing the chunk of one entry, key and well-formedness kept, leaves
/// lookup on every other key unchanged.
proof fn lemma_update_entry(
    pre: Seq<(ChunkPos, Chunk)>,
    post: Seq<(ChunkPos, Chunk)>,
    j: int,
    w0: World,
    w1: World,
)
    requires
        w0.entries() == pre,
        w1.entries() == post,
        0 <= j < pre.len(),
        post == pre.update(j, (pre[j].0, post[j].1)),
        w0.wf(),
        post[j].1.wf(),
    ensures
        w1.wf(),
        forall|cx: int, cy: int|
            w1.has_chunk(cx, cy) <==> w0.has_chunk(cx, cy),
        find_from(post, post[j].0.0 as int, post[j].0.1 as int) == Some(post[j].1),
        forall|cx: int, cy: int|
            !(cx == pre[j].0.0 && cy == pre[j].0.1) ==> find_from(post, cx, cy) == find_from(
                pre,
                cx,
                cy,
            ),
{
    assert(post.len() == pre.len());
    assert(forall|i: int| 0 <= i < post.len() ==> (#[trigger] post[i]).0 == pre[i].0);
    assert(w1.wf()) by {
        assert(forall|i: int|
            0 <= i < post.len() ==> (#[trigger] post[i]).1.wf() && chunk_pos_ok(post[i].0));
    }
    lemma_find_from_unique(post, j);
    assert forall|cx: int, cy: int|
        !(cx == pre[j].0.0 && cy == pre[j].0.1) implies find_from(post, cx, cy) == find_from(
        pre,
        cx,
        cy,
    ) by {
        lemma_find_skip_entry(pre, post, j, cx, cy);
    }
    assert forall|cx: int, cy: int| true implies (w1.has_chunk(cx, cy) <==> w0.has_chunk(
        cx,
        cy,
    )) by {
        if cx == pre[j].0.0 && cy == pre[j].0.1 {
            lemma_find_from_unique(pre, j);
        } else {
            lemma_find_skip_entry(pre, post, j, cx, cy);
        }
    }
}

/// Lookup for a key different from the replaced entry's key walks past the
/// replacement untouched.
proof fn lemma_find_skip_entry(
    pre: Seq<(ChunkPos, Chunk)>,
    post: Seq<(ChunkPos, Chunk)>,
    j: int,
    cx: int,
    cy: int,
)
    requires
        0 <= j < pre.len(),
        post.len() == pre.len(),
        forall|i: int| 0 <= i < pre.len() ==> (#[trigger] post[i]).0 == pre[i].0,
        forall|i: int| 0 <= i < pre.len() && i != j ==> #[trigger] post[i] == pre[i],
        !(cx == pre[j].0.0 && cy == pre[j].0.1),
    ensures
        find_from(post, cx, cy) == find_from(pre, cx, cy),
    decreases pre.len(),
{
    assert(pre.last() == pre[pre.len() - 1]);
    assert(post.last() == post[pre.len() - 1]);
    if pre.len() - 1 == j {
        assert(forall|i: int|
            0 <= i < pre.len() - 1 ==> #[trigger] post.drop_last()[i] == pre.drop_last()[i]);
        assert(post.drop_last() =~= pre.drop_last());
    } else if pre.last().0.0 == cx && pre.last().0.1 == cy {
    } else {
        assert(forall|i: int|
            0 <= i < pre.len() - 1 ==> (#[trigger] post.drop_last()[i]).0 == pre.drop_last()[i].0);
        assert(forall|i: int|
            0 <= i < pre.len() - 1 && i != j ==> #[trigger] post.drop_last()[i]
                == pre.drop_last()[i]);
        lemma_find_skip_entry(pre.drop_last(), post.drop_last(), j, cx, cy);
    }
}

} // verus!

