//! The trash-collecting player: position, carried load and an optional
//! navigation target, with a per-tick decision phase (collect, deposit or
//! pick a target) and a one-step-per-tick movement phase that walks, climbs
//! and falls toward the target using the world's height queries.

use vstd::prelude::*;

use crate::world::{pos_ok, Block, World, WorldPos};

verus! {

/// How much trash the player can carry before it has to deposit.
pub const CAPACITY: i32 = 2;

/// How far to each side the player probes for trash before giving up for
/// the tick. The probe is bounded so that a tick always terminates; a world
/// with no trash within the radius simply leaves the player idle.
pub const TRASH_SEARCH_RADIUS: i32 = 1000;

/// The sign of an integer: `-1`, `0` or `1`.
pub open spec fn spec_sign(a: int) -> int {
    if a > 0 {
        1
    } else if a < 0 {
        -1
    } else {
        0
    }
}

/// The deposit scan: from column `x`, walking by `inc` toward column 0 and
/// carrying the previous column's height `cur`, stop just before the first
/// height jump greater than 3 (a safe ledge at the prior height), or at
/// column 0 with that column's own height.
pub open spec fn unload_scan(w: World, x: int, cur: int, inc: int) -> (int, int)
    decreases (if x >= 0 { x } else { -x }) when (inc == 1 && x <= 0) || (inc == -1 && x >= 0)
{
    let h = w.highest_y(x);
    if h - cur > 3 {
        (x - inc, cur)
    } else if x == 0 {
        (0, h)
    } else {
        unload_scan(w, x + inc, h, inc)
    }
}

/// On a flat height profile — every column from the start to column 0 has
/// highest row `h` — the deposit scan never sees a jump greater than 3 once
/// the first comparison passes, so it reaches column 0 at that row's height.
pub proof fn lemma_unload_scan_flat(w: World, x: int, cur: int, inc: int, h: int)
    requires
        x != 0,
        inc == spec_sign(0 - x),
        forall|c: int| (0 <= c <= x || x <= c <= 0) ==> w.is_highest(c, h),
        h - cur <= 3,
    ensures
        unload_scan(w, x, cur, inc) == (0int, h),
    decreases (if x >= 0 { x } else { -x }),
{
    w.lemma_highest_y_is(x, h);
    if x + inc == 0 {
        w.lemma_highest_y_is(0, h);
        assert(unload_scan(w, x + inc, h, inc) == (0int, h));
    } else {
        lemma_unload_scan_flat(w, x + inc, h, inc, h);
    }
}

/// On any profile whose column-to-column height jumps toward column 0 stay
/// within 3, starting with the jump from the player's footing, the deposit
/// scan reaches column 0 and returns that column's own height.
pub proof fn lemma_unload_scan_no_jump(w: World, x: int, cur: int, inc: int)
    requires
        x != 0,
        inc == spec_sign(0 - x),
        forall|c: int|
            (0 <= c <= x || x <= c <= 0) ==> w.is_highest(c, #[trigger] w.highest_y(c)),
        w.highest_y(x) - cur <= 3,
        forall|c: int|
            ((0 <= c <= x || x <= c <= 0) && c != 0) ==> w.highest_y(c + inc) - #[trigger] w.highest_y(c) <= 3,
    ensures
        unload_scan(w, x, cur, inc) == (0int, w.highest_y(0)),
    decreases (if x >= 0 { x } else { -x }),
{
    if x + inc == 0 {
        assert(unload_scan(w, x + inc, w.highest_y(x), inc) == (0int, w.highest_y(0)));
    } else {
        lemma_unload_scan_no_jump(w, x + inc, w.highest_y(x), inc);
    }
}

/// Whether a probe of column `x` turns up trash: the probe reads the
/// column's reported highest cell through `force_block`, so an absent chunk
/// counts with its generated content.
pub open spec fn trash_at_top(w: World, x: int) -> bool {
    w.forced_at(x, w.highest_y(x)) == Block::Trash
}

/// The outward trash probe: at each radius `i` the right column first, then
/// the left, out to `TRASH_SEARCH_RADIUS`; the first column whose top is
/// trash wins, with its reported row. A probe that misses leaves the world
/// exactly as it was, so the whole scan reads one world state.
pub open spec fn trash_scan(w: World, x0: int, i: int) -> Option<(int, int)>
    decreases TRASH_SEARCH_RADIUS + 1 - i,
{
    if i < 1 || i > TRASH_SEARCH_RADIUS {
        None
    } else if trash_at_top(w, x0 + i) {
        Some((x0 + i, w.highest_y(x0 + i)))
    } else if trash_at_top(w, x0 - i) {
        Some((x0 - i, w.highest_y(x0 - i)))
    } else {
        trash_scan(w, x0, i + 1)
    }
}

/// A hit of the trash probe lies within the search radius and off the
/// starting column.
pub proof fn lemma_trash_scan_bounds(w: World, x0: int, i: int)
    requires
        1 <= i,
    ensures
        trash_scan(w, x0, i) matches Some(t) ==> x0 - TRASH_SEARCH_RADIUS <= t.0 <= x0
            + TRASH_SEARCH_RADIUS && t.0 != x0,
    decreases TRASH_SEARCH_RADIUS + 1 - i,
{
    if 1 <= i <= TRASH_SEARCH_RADIUS {
        lemma_trash_scan_bounds(w, x0, i + 1);
    }
}

/// The column a full player deposits in: its own column if it stands at
/// column 0, otherwise the column the deposit scan stops at.
pub open spec fn unload_x(w: World, p: Player) -> int {
    if p.pos.0 == 0 {
        0
    } else {
        unload_scan(w, p.pos.0 as int, p.pos.1 - 1, spec_sign(0 - p.pos.0)).0
    }
}

/// The autonomous agent that collects trash and compacts it into towers.
pub struct Player {
    pub pos: WorldPos,
    pub load: i32,
    pub current_target: Option<WorldPos>,
}

impl Player {
    /// The player's internal invariant: the load stays within capacity.
    pub open spec fn wf(self) -> bool {
        0 <= self.load <= CAPACITY
    }

    /// A fresh player at `pos`, carrying nothing and going nowhere.
    pub fn new(pos: WorldPos) -> (p: Player)
        ensures
            p.wf(),
            p.pos == pos,
            p.load == 0,
            p.current_target is None,
    {
        Player { pos, load: 0, current_target: None }
    }

    /// Collects the trash cell directly below: clears it, steps down into
    /// it, and takes one unit of load. Only called while under capacity.
    pub fn load(&mut self, world: &mut World)
        requires
            old(world).wf(),
            0 <= old(self).load < CAPACITY,
            pos_ok(old(self).pos),
            old(self).pos.1 - 1 >= -0x7fff_fff0,
        ensures
            final(self).wf(),
            final(world).wf(),
            final(self).load == old(self).load + 1,
            final(self).pos.0 == old(self).pos.0,
            final(self).pos.1 == old(self).pos.1 - 1,
            final(self).current_target == old(self).current_target,
            final(world).block_at(old(self).pos.0 as int, old(self).pos.1 - 1) == Some(Block::Air),
            forall|cx: int, cy: int|
                old(world).has_chunk(cx, cy) ==> final(world).has_chunk(cx, cy),
            forall|x: int, y: int|
                #![trigger final(world).block_at(x, y)]
                old(world).covers(x, y) && !(x == old(self).pos.0 && y == old(self).pos.1 - 1)
                    ==> final(world).block_at(x, y) == old(world).block_at(x, y),
    {
        world.set_block(WorldPos(self.pos.0, self.pos.1 - 1), Block::Air);
        self.pos = WorldPos(self.pos.0, self.pos.1 - 1);
        self.load = self.load + 1;
    }

    /// Deposits the carried trash: the cell the player stands in becomes
    /// compacted, the player steps up on top of it, and the load resets.
    pub fn unload(&mut self, world: &mut World)
        requires
            old(world).wf(),
            pos_ok(old(self).pos),
            old(self).pos.1 + 1 <= 0x7fff_ffff,
        ensures
            final(self).wf(),
            final(world).wf(),
            final(self).load == 0,
            final(self).pos.0 == old(self).pos.0,
            final(self).pos.1 == old(self).pos.1 + 1,
            final(self).current_target == old(self).current_target,
            final(world).block_at(old(self).pos.0 as int, old(self).pos.1 as int) == Some(
                Block::Compacted,
            ),
            forall|cx: int, cy: int|
                old(world).has_chunk(cx, cy) ==> final(world).has_chunk(cx, cy),
            forall|x: int, y: int|
                #![trigger final(world).block_at(x, y)]
                old(world).covers(x, y) && !(x == old(self).pos.0 && y == old(self).pos.1)
                    ==> final(world).block_at(x, y) == old(world).block_at(x, y),
    {
        world.set_block(self.pos, Block::Compacted);
        self.pos = WorldPos(self.pos.0, self.pos.1 + 1);
        self.load = 0;
    }

    /// One movement step toward the current target, if any: walk, climb or
    /// fall, as decided by the height of the next column. A target in the
    /// player's own column is dropped. At the extreme upper edge of `i32`
    /// space no step fits; the target is dropped there too.
    pub fn move_towards_target(&mut self, world: &World)
        requires
            old(self).wf(),
            world.wf(),
            -0x7fff_ffff <= old(self).pos.0 <= 0x7fff_fffe,
            -0x7fff_ffff <= old(self).pos.1 <= 0x7fff_fffe,
        ensures
            final(self).wf(),
            final(self).load == old(self).load,
            -1 <= final(self).pos.0 - old(self).pos.0 <= 1,
            -1 <= final(self).pos.1 - old(self).pos.1 <= 1,
            final(self).current_target == old(self).current_target || final(self).current_target
                is None,
            old(self).current_target is Some && (old(self).current_target->0).0 != old(self).pos.0 && final(self).current_target is None ==> world.is_highest(
                old(self).pos.0 + spec_sign((old(self).current_target->0).0 - old(self).pos.0),
                0x7fff_ffff,
            ),
            old(self).current_target is None ==> *final(self) == *old(self),
            old(self).current_target matches Some(t) && t.0 == old(self).pos.0 ==> final(self).pos
                == old(self).pos && final(self).current_target is None,
            forall|h: int, hw: int|
                old(self).current_target is Some && (old(self).current_target->0).0 != old(self).pos.0 && #[trigger] world.is_highest(
                    old(self).pos.0 + spec_sign((old(self).current_target->0).0 - old(self).pos.0),
                    h,
                ) && #[trigger] world.is_highest(old(self).pos.0 as int, hw) ==> {
                    let dir = spec_sign((old(self).current_target->0).0 - old(self).pos.0);
                    if h == 0x7fff_ffff {
                        final(self).pos == old(self).pos && final(self).current_target is None
                    } else {
                        final(self).current_target == old(self).current_target && final(self).pos.0
                            == old(self).pos.0 + (if h + 1 == old(self).pos.1 || h == old(self).pos.1 || (h + 1 < old(self).pos.1 && hw == old(self).pos.1 - 1) {
                            dir
                        } else {
                            0int
                        }) && final(self).pos.1 == (if h + 1 == old(self).pos.1 {
                            old(self).pos.1 as int
                        } else if h + 1 < old(self).pos.1 {
                            old(self).pos.1 - 1
                        } else {
                            old(self).pos.1 + 1
                        })
                    }
                },
    {
        let t = match self.current_target {
            Some(t) => t,
            None => {
                return ;
            },
        };
        let inc: i32 = if t.0 > self.pos.0 {
            1
        } else if t.0 < self.pos.0 {
            -1
        } else {
            0
        };
        if inc == 0 {
            self.current_target = None;
            return ;
        }
        let next = world.get_highest_block(self.pos.0 + inc);
        proof {
            assert(inc as int == spec_sign(t.0 as int - old(self).pos.0 as int));
            assert forall|h: int| #[trigger] world.is_highest(
                old(self).pos.0 + spec_sign(t.0 - old(self).pos.0),
                h,
            ) implies h == next.1 as int by {
                world.lemma_highest_unique(
                    old(self).pos.0 + spec_sign(t.0 - old(self).pos.0),
                    h,
                    next.1 as int,
                );
            }
        }
        if next.1 == 0x7fff_ffff {
            self.current_target = None;
            return ;
        }
        let step = WorldPos(next.0, next.1 + 1);
        if step.1 == self.pos.1 {
            self.pos = step;
        } else if step.1 < self.pos.1 {
            let own = world.get_highest_block(self.pos.0);
            proof {
                assert forall|hw: int| #[trigger] world.is_highest(
                    old(self).pos.0 as int,
                    hw,
                ) implies hw == own.1 as int by {
                    world.lemma_highest_unique(old(self).pos.0 as int, hw, own.1 as int);
                }
            }
            if own.1 == self.pos.1 - 1 {
                self.pos = WorldPos(self.pos.0 + inc, self.pos.1 - 1);
            } else {
                self.pos = WorldPos(self.pos.0, self.pos.1 - 1);
            }
        } else if step.1 == self.pos.1 + 1 {
            self.pos = step;
        } else {
            self.pos = WorldPos(self.pos.0, self.pos.1 + 1);
        }
    }

    /// Finds the column to deposit in: step from the player's column toward
    /// column 0, and stop just before the first height jump greater than 3,
    /// or at column 0 itself. A player already in column 0 deposits right
    /// where it stands.
    pub fn find_unload_target(&self, world: &World) -> (r: WorldPos)
        requires
            self.wf(),
            world.wf(),
            -0x7fff_fffe <= self.pos.0 <= 0x7fff_fffe,
            -0x7fff_ffff <= self.pos.1,
        ensures
            self.pos.0 == 0 ==> r.0 == 0 && r.1 == self.pos.1 - 1,
            self.pos.0 != 0 ==> (r.0 as int, r.1 as int) == unload_scan(
                *world,
                self.pos.0 as int,
                self.pos.1 - 1,
                spec_sign(0 - self.pos.0),
            ),
    {
        let inc: i32 = if self.pos.0 > 0 {
            -1
        } else if self.pos.0 < 0 {
            1
        } else {
            return WorldPos(self.pos.0, self.pos.1 - 1);
        };
        let mut new_x: i32 = self.pos.0;
        let mut current_height: i32 = self.pos.1 - 1;
        let ghost goal = unload_scan(*world, self.pos.0 as int, self.pos.1 - 1, inc as int);
        loop
            invariant
                world.wf(),
                self.pos.0 != 0,
                -0x7fff_fffe <= self.pos.0 <= 0x7fff_fffe,
                -0x7fff_ffff <= self.pos.1,
                inc as int == spec_sign(0 - self.pos.0 as int),
                (inc == 1 && -0x7fff_fffe <= new_x <= 0) || (inc == -1 && 0 <= new_x
                    <= 0x7fff_fffe),
                unload_scan(*world, new_x as int, current_height as int, inc as int) == goal,
                goal == unload_scan(*world, self.pos.0 as int, self.pos.1 - 1, inc as int),
            decreases (if new_x >= 0 { new_x as int } else { -(new_x as int) }),
        {
            let nh = world.get_highest_block(new_x).1;
            proof {
                world.lemma_highest_y_is(new_x as int, nh as int);
            }
            if (nh as i64) - (current_height as i64) > 3 {
                return WorldPos(new_x - inc, current_height);
            }
            if new_x == 0 {
                return WorldPos(0, nh);
            }
            current_height = nh;
            new_x = new_x + inc;
        }
    }

    /// Probes outward for the nearest column whose highest block is trash,
    /// right side first at each radius, out to `TRASH_SEARCH_RADIUS`: the
    /// result is exactly the first hit of `trash_scan`. Probing forces the
    /// probed cell, so an untouched column materializes and its generated
    /// trash stratum is found; a probe that misses leaves the world
    /// unchanged. Returns `None` when no trash turns up within the radius.
    pub fn find_nearest_trash(&self, world: &mut World) -> (r: Option<WorldPos>)
        requires
            self.wf(),
            old(world).wf(),
            -0x7fff_f000 <= self.pos.0 <= 0x7fff_f000,
        ensures
            final(world).wf(),
            forall|cx: int, cy: int|
                old(world).has_chunk(cx, cy) ==> final(world).has_chunk(cx, cy),
            forall|x: int, y: int|
                #![trigger final(world).block_at(x, y)]
                old(world).covers(x, y) ==> final(world).block_at(x, y) == old(world).block_at(
                    x,
                    y,
                ),
            match trash_scan(*old(world), self.pos.0 as int, 1) {
                None => r is None,
                Some(t) => r == Some(WorldPos(t.0 as i32, t.1 as i32)),
            },
            r matches Some(p) ==> final(world).block_at(p.0 as int, p.1 as int) == Some(
                Block::Trash,
            ) && p.0 != self.pos.0 && self.pos.0 - TRASH_SEARCH_RADIUS <= p.0 <= self.pos.0
                + TRASH_SEARCH_RADIUS,
    {
        let ghost w0 = *world;
        let mut i: i32 = 1;
        while i <= TRASH_SEARCH_RADIUS
            invariant
                world.wf(),
                *world == w0,
                w0 == *old(world),
                1 <= i <= TRASH_SEARCH_RADIUS + 1,
                -0x7fff_f000 <= self.pos.0 <= 0x7fff_f000,
                trash_scan(w0, self.pos.0 as int, 1) == trash_scan(w0, self.pos.0 as int, i as int),
            decreases TRASH_SEARCH_RADIUS + 1 - i,
        {
            let right_block = world.get_highest_block(self.pos.0 + i);
            proof {
                crate::world::lemma_highest_in_range(
                    *world,
                    (self.pos.0 + i) as int,
                    right_block.1 as int,
                );
                world.lemma_highest_y_is((self.pos.0 + i) as int, right_block.1 as int);
            }
            if world.force_block(right_block) == Block::Trash {
                proof {
                    assert(trash_at_top(w0, self.pos.0 + i));
                }
                return Some(right_block);
            }
            proof {
                if !w0.covers(right_block.0 as int, right_block.1 as int) {
                    crate::world::lemma_uncovered_top_is_trash(
                        w0,
                        right_block.0 as int,
                        right_block.1 as int,
                    );
                    assert(false);
                }
                assert(!trash_at_top(w0, self.pos.0 + i));
            }
            let left_block = world.get_highest_block(self.pos.0 - i);
            proof {
                crate::world::lemma_highest_in_range(
                    *world,
                    (self.pos.0 - i) as int,
                    left_block.1 as int,
                );
                world.lemma_highest_y_is((self.pos.0 - i) as int, left_block.1 as int);
            }
            if world.force_block(left_block) == Block::Trash {
                proof {
                    assert(trash_at_top(w0, self.pos.0 - i));
                }
                return Some(left_block);
            }
            proof {
                if !w0.covers(left_block.0 as int, left_block.1 as int) {
                    crate::world::lemma_uncovered_top_is_trash(
                        w0,
                        left_block.0 as int,
                        left_block.1 as int,
                    );
                    assert(false);
                }
                assert(!trash_at_top(w0, self.pos.0 - i));
            }
            i = i + 1;
        }
        None
    }

    /// One tick of the player: when it has no target, collect the trash
    /// below, or deposit a full load at the deposit column, or pick a new
    /// target (the deposit column, or the nearest trash); then take one
    /// movement step toward the target, if one is set.
    pub fn next_move(&mut self, world: &mut World)
        requires
            old(self).wf(),
            old(world).wf(),
            -0x7fff_f000 <= old(self).pos.0 <= 0x7fff_f000,
            -0x7fff_f000 <= old(self).pos.1 <= 0x7fff_f000,
        ensures
            final(self).wf(),
            final(world).wf(),
            final(self).load <= CAPACITY,
            final(self).load > old(self).load ==> old(self).load < CAPACITY && final(self).load
                == old(self).load + 1,
            final(self).load > old(self).load ==> old(self).current_target is None && old(world).forced_at(old(self).pos.0 as int, old(self).pos.1 - 1) == Block::Trash,
            old(self).load == CAPACITY ==> final(self).load == CAPACITY || final(self).load == 0,
            old(self).current_target is Some ==> final(self).load == old(self).load && *final(world) == *old(world),
            -1 <= final(self).pos.0 - old(self).pos.0 <= 1,
            -1 <= final(self).pos.1 - old(self).pos.1 <= 1,
            forall|cx: int, cy: int|
                old(world).has_chunk(cx, cy) ==> final(world).has_chunk(cx, cy),
            old(self).current_target is None && old(self).load < CAPACITY && old(world).forced_at(
                old(self).pos.0 as int,
                old(self).pos.1 - 1,
            ) == Block::Trash ==> final(self).load == old(self).load + 1 && final(self).pos.0 == old(self).pos.0 && final(self).pos.1 == old(self).pos.1 - 1 && final(world).block_at(
                old(self).pos.0 as int,
                old(self).pos.1 - 1,
            ) == Some(Block::Air) && final(self).current_target is None && (forall|x: int, y: int|
                #![trigger final(world).block_at(x, y)]
                old(world).covers(x, y) && !(x == old(self).pos.0 && y == old(self).pos.1 - 1)
                    ==> final(world).block_at(x, y) == old(world).block_at(x, y)),
            old(self).current_target is None && old(self).load == CAPACITY && old(self).pos.0
                as int == unload_x(*old(world), *old(self)) ==> final(self).load == 0 && final(self).pos.0 == old(self).pos.0 && final(self).pos.1 == old(self).pos.1 + 1 && final(world).block_at(old(self).pos.0 as int, old(self).pos.1 as int) == Some(Block::Compacted)
                && (forall|x: int, y: int|
                #![trigger final(world).block_at(x, y)]
                old(world).covers(x, y) && !(x == old(self).pos.0 && y == old(self).pos.1)
                    ==> final(world).block_at(x, y) == old(world).block_at(x, y)),
            old(self).current_target is None && old(self).load == CAPACITY && old(self).pos.0
                as int != unload_x(*old(world), *old(self)) ==> final(self).load == CAPACITY && (
            final(self).current_target is None || ((final(self).current_target->0).0 as int, (
            final(self).current_target->0).1 as int) == unload_scan(
                *old(world),
                old(self).pos.0 as int,
                old(self).pos.1 - 1,
                spec_sign(0 - old(self).pos.0),
            )) && *final(world) == *old(world),
            old(self).current_target is None && old(self).load < CAPACITY && old(world).forced_at(
                old(self).pos.0 as int,
                old(self).pos.1 - 1,
            ) != Block::Trash ==> final(self).load == old(self).load && (final(self).current_target matches Some(p) ==> final(world).block_at(p.0 as int, p.1 as int)
                == Some(Block::Trash)) && (forall|x: int, y: int|
                #![trigger final(world).block_at(x, y)]
                old(world).covers(x, y) ==> final(world).block_at(x, y) == old(world).block_at(
                    x,
                    y,
                )),
            old(self).current_target is None && old(self).load < CAPACITY && old(world).covers(
                old(self).pos.0 as int,
                old(self).pos.1 - 1,
            ) && old(world).forced_at(old(self).pos.0 as int, old(self).pos.1 - 1) != Block::Trash
                ==> match trash_scan(*old(world), old(self).pos.0 as int, 1) {
                None => final(self).current_target is None && final(self).pos == old(self).pos,
                Some(t) => final(self).current_target == Some(
                    WorldPos(t.0 as i32, t.1 as i32),
                ) || (final(self).current_target is None && final(world).is_highest(
                    old(self).pos.0 + spec_sign(t.0 - old(self).pos.0 as int),
                    0x7fff_ffff,
                )),
            },
    {
        if self.current_target.is_none() {
            if self.load < CAPACITY {
                let below = WorldPos(self.pos.0, self.pos.1 - 1);
                if world.force_block(below) == Block::Trash {
                    self.load(world);
                } else {
                    let ghost wpre = *world;
                    self.current_target = self.find_nearest_trash(world);
                    proof {
                        lemma_trash_scan_bounds(wpre, self.pos.0 as int, 1);
                    }
                }
            } else {
                let unload_target = self.find_unload_target(world);
                if self.pos.0 == unload_target.0 {
                    self.unload(world);
                } else {
                    self.current_target = Some(unload_target);
                }
            }
        }
        self.move_towards_target(world);
    }
}

} // verus!
