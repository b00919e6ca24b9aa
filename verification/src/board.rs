//! The board engine: data model, mine generation, player actions, and
//! the tick-based deferred flood reveal.
//!
//! A board holds a flat vector of tiles addressed by the linearized
//! index `row * width + col`, and a pending set `to_dig` of indices
//! whose reveal has been requested. Player actions never reveal a tile
//! directly: digging only enqueues indices, and `tick` applies the
//! queued wave, enqueuing the neighbours of revealed blank tiles for
//! the next wave. `Board::wf` is the well-formedness invariant that
//! every operation preserves: tile counts match the mines among their
//! neighbours, the `flags` and `tiles_left` counters match the tiles,
//! `alive` holds exactly as long as no mine is revealed, and the
//! pending set holds valid indices without duplicates.

use vstd::prelude::*;

verus! {

use crate::adjacency::adjacent;
use crate::adjacency::lemma_adjacent_sym;
use crate::adjacency::lemma_coords;
use crate::adjacency::lemma_grid_positive;
use crate::adjacency::lemma_lin_coords;
use crate::adjacency::lemma_nb_seq;
use crate::adjacency::nb_seq;
use crate::counting::count_at;
use crate::counting::count_true;
use crate::counting::lemma_count_at_agree;
use crate::counting::lemma_count_at_bounds;
use crate::counting::lemma_count_at_set_true;
use crate::counting::lemma_count_at_zero;
use crate::counting::lemma_count_true_bounds;
use crate::counting::lemma_count_true_update;
use crate::counting::lemma_count_true_zero;
use crate::counting::lemma_remove_no_dup;
use vstd::pervasive::VecAdditionalExecFns;

/// What a player can ask of a tile.
#[derive(Debug)]
pub enum Action {
    Flag,
    Dig,
}

/// One cell of the grid.
#[derive(Debug, Clone, Copy)]
pub struct Tile {
    /// How many of the up-to-8 neighbouring tiles hold a mine.
    pub count: u8,
    /// Whether this tile holds a mine.
    pub mine: bool,
    /// Whether the player has flagged this tile.
    pub flagged: bool,
    /// Whether this tile has been revealed.
    pub digged: bool,
}

impl Tile {
    /// A fresh tile: no mine, no neighbouring mines, untouched.
    pub fn new() -> (t: Tile)
        ensures
            t.count == 0,
            !t.mine,
            !t.flagged,
            !t.digged,
    {
        Tile { count: 0, mine: false, flagged: false, digged: false }
    }
}

/// The mask of mined tiles.
pub open spec fn mine_mask(tiles: Seq<Tile>) -> Seq<bool> {
    Seq::new(tiles.len(), |i: int| tiles[i].mine)
}

/// The mask of flagged tiles.
pub open spec fn flag_mask(tiles: Seq<Tile>) -> Seq<bool> {
    Seq::new(tiles.len(), |i: int| tiles[i].flagged)
}

/// The mask of revealed tiles.
pub open spec fn dig_mask(tiles: Seq<Tile>) -> Seq<bool> {
    Seq::new(tiles.len(), |i: int| tiles[i].digged)
}

/// How many neighbours of `idx` hold a mine.
pub open spec fn mine_adj(tiles: Seq<Tile>, w: usize, h: usize, idx: usize) -> int {
    count_at(mine_mask(tiles), nb_seq(w, h, idx))
}

/// How many neighbours of `idx` are flagged.
pub open spec fn flag_adj(tiles: Seq<Tile>, w: usize, h: usize, idx: usize) -> int {
    count_at(flag_mask(tiles), nb_seq(w, h, idx))
}

/// The tiles after the flag on tile `i` is toggled.
pub open spec fn flag_flip(tiles: Seq<Tile>, i: int) -> Seq<Tile> {
    tiles.update(i, Tile { flagged: !tiles[i].flagged, ..tiles[i] })
}

/// The pending set after `j` is requested: appended once, unless it is
/// already pending.
pub open spec fn enq(td: Seq<usize>, j: usize) -> Seq<usize> {
    if td.contains(j) {
        td
    } else {
        td.push(j)
    }
}

/// The pending set after each entry of `s` is requested, in order.
pub open spec fn enq_all(td: Seq<usize>, s: Seq<usize>) -> Seq<usize>
    decreases s.len(),
{
    if s.len() == 0 {
        td
    } else {
        enq(enq_all(td, s.drop_last()), s.last())
    }
}

/// The pending set after a dig request at `j`: a flagged tile is
/// locked; a revealed nonzero tile whose flagged neighbours match its
/// count chords, enqueuing all its neighbours; a revealed blank tile is
/// spent; a hidden tile is enqueued itself.
pub open spec fn dig_request(
    tiles: Seq<Tile>,
    w: usize,
    h: usize,
    td: Seq<usize>,
    j: usize,
) -> Seq<usize> {
    let t = tiles[j as int];
    if t.flagged {
        td
    } else if t.digged {
        if t.count != 0 && flag_adj(tiles, w, h, j) == t.count as int {
            enq_all(td, nb_seq(w, h, j))
        } else {
            td
        }
    } else {
        enq(td, j)
    }
}

/// Dig requests at each entry of `s`, in order.
pub open spec fn dig_request_all(
    tiles: Seq<Tile>,
    w: usize,
    h: usize,
    td: Seq<usize>,
    s: Seq<usize>,
) -> Seq<usize>
    decreases s.len(),
{
    if s.len() == 0 {
        td
    } else {
        dig_request(tiles, w, h, dig_request_all(tiles, w, h, td, s.drop_last()), s.last())
    }
}

/// One step of a tick's wave: the tiles and pending set after the
/// queued index `i` is processed. A tile already revealed, or flagged,
/// is skipped. Otherwise it is revealed, and if it is blank, a dig
/// request is made at each of its neighbours.
pub open spec fn reveal_one(
    w: usize,
    h: usize,
    st: (Seq<Tile>, Seq<usize>),
    i: usize,
) -> (Seq<Tile>, Seq<usize>) {
    let t = st.0[i as int];
    if t.digged || t.flagged {
        st
    } else {
        let tiles2 = st.0.update(i as int, Tile { digged: true, ..t });
        if t.count == 0 {
            (tiles2, dig_request_all(tiles2, w, h, st.1, nb_seq(w, h, i)))
        } else {
            (tiles2, st.1)
        }
    }
}

/// A whole tick: the wave `work` is processed in order, starting from
/// an empty pending set; requests made along the way accumulate into
/// the next wave.
pub open spec fn run_wave(
    w: usize,
    h: usize,
    tiles: Seq<Tile>,
    work: Seq<usize>,
) -> (Seq<Tile>, Seq<usize>)
    decreases work.len(),
{
    if work.len() == 0 {
        (tiles, Seq::empty())
    } else {
        reveal_one(w, h, run_wave(w, h, tiles, work.drop_last()), work.last())
    }
}

/// The board of a mine-clearing game.
#[derive(Debug)]
pub struct Board {
    pub height: usize,
    pub width: usize,
    pub mine_count: usize,
    pub flags: usize,
    pub tiles_left: usize,
    pub generated: bool,
    pub alive: bool,
    pub tiles: Vec<Tile>,
    pub to_dig: Vec<usize>,
}

impl Board {
    /// The number of tiles the board's extent calls for.
    pub open spec fn total(self) -> int {
        (self.width as int) * (self.height as int)
    }

    /// Well-formedness: the tile vector fills the grid; every tile's
    /// count equals the number of mined neighbours; no tile is both
    /// flagged and revealed; the `flags` and `tiles_left` counters
    /// match the tiles; `alive` holds exactly when no mine is
    /// revealed; an ungenerated board has no mines, a generated one
    /// has exactly `mine_count`; and the pending set holds valid
    /// indices, each at most once.
    pub open spec fn wf(self) -> bool {
        &&& self.tiles@.len() == self.total()
        &&& forall|i: usize|
            (i as int) < self.tiles@.len() ==> (#[trigger] self.tiles@[i as int]).count as int
                == mine_adj(self.tiles@, self.width, self.height, i)
        &&& forall|i: int|
            0 <= i < self.tiles@.len() ==> !((#[trigger] self.tiles@[i]).flagged
                && self.tiles@[i].digged)
        &&& self.flags as int == count_true(flag_mask(self.tiles@))
        &&& self.tiles_left as int == self.tiles@.len() - count_true(dig_mask(self.tiles@))
        &&& (self.alive <==> (forall|i: int|
            0 <= i < self.tiles@.len() ==> !((#[trigger] self.tiles@[i]).mine
                && self.tiles@[i].digged)))
        &&& (!self.generated ==> (forall|i: int|
            0 <= i < self.tiles@.len() ==> !(#[trigger] self.tiles@[i]).mine))
        &&& (self.generated ==> count_true(mine_mask(self.tiles@)) == self.mine_count as int)
        &&& forall|k: int|
            0 <= k < self.to_dig@.len() ==> ((#[trigger] self.to_dig@[k]) as int)
                < self.tiles@.len()
        &&& self.to_dig@.no_duplicates()
    }

    /// A fresh board: every tile hidden and clear of mines, nothing
    /// pending, the player alive, mines not yet placed.
    pub fn new(width: usize, height: usize, mine_count: usize) -> (b: Board)
        requires
            (width as int) * (height as int) <= usize::MAX,
        ensures
            b.wf(),
            b.width == width,
            b.height == height,
            b.mine_count == mine_count,
            b.flags == 0,
            b.tiles_left as int == (width as int) * (height as int),
            !b.generated,
            b.alive,
            forall|i: int|
                0 <= i < b.tiles@.len() ==> ((#[trigger] b.tiles@[i]).count == 0 && !b.tiles@[i].mine
                    && !b.tiles@[i].flagged && !b.tiles@[i].digged),
            b.to_dig@ == Seq::<usize>::empty(),
    {
        let total = width * height;
        let mut tiles: Vec<Tile> = Vec::new();
        let mut i: usize = 0;
        while i < total
            invariant
                i <= total,
                tiles@.len() == i as int,
                forall|k: int|
                    0 <= k < i as int ==> ((#[trigger] tiles@[k]).count == 0 && !tiles@[k].mine
                        && !tiles@[k].flagged && !tiles@[k].digged),
            decreases total - i,
        {
            tiles.push(Tile::new());
            i = i + 1;
        }
        let b = Board {
            width,
            height,
            mine_count,
            flags: 0,
            tiles_left: total,
            generated: false,
            alive: true,
            tiles,
            to_dig: Vec::new(),
        };
        proof {
            lemma_count_true_zero(flag_mask(b.tiles@));
            lemma_count_true_zero(dig_mask(b.tiles@));
            assert forall|i: usize| (i as int) < b.tiles@.len() implies (#[trigger] b.tiles@[i as int]).count as int
                == mine_adj(b.tiles@, width, height, i) by {
                lemma_count_at_zero(mine_mask(b.tiles@), nb_seq(width, height, i));
            }
        }
        b
    }

    /// The valid tiles around `index`, as `nb_seq` lists them.
    #[verifier::loop_isolation(false)]
    pub fn neighbours(&self, index: usize) -> (r: Vec<usize>)
        requires
            (index as int) < self.total(),
            self.total() <= usize::MAX,
        ensures
            r@ == nb_seq(self.width, self.height, index),
    {
        let w = self.width;
        let h = self.height;
        proof {
            lemma_grid_positive(w, h, index);
            lemma_coords(w, h, index);
        }
        let x = index % w;
        let y = index / w;
        let ghost cx = crate::adjacency::col(w, index);
        let ghost cy = crate::adjacency::row(w, index);
        let mut r: Vec<usize> = Vec::new();
        if y >= 1 {
            if x >= 1 {
                proof {
                    lemma_lin_coords(w, h, cx - 1, cy - 1);
                }
                r.push((y - 1) * w + (x - 1));
            }
            assert(r@ =~= crate::adjacency::cell(w, h, cx - 1, cy - 1));
            proof {
                lemma_lin_coords(w, h, cx, cy - 1);
            }
            r.push((y - 1) * w + x);
            if x + 1 < w {
                proof {
                    lemma_lin_coords(w, h, cx + 1, cy - 1);
                }
                r.push((y - 1) * w + (x + 1));
            }
        }
        assert(r@ =~= crate::adjacency::cell(w, h, cx - 1, cy - 1) + crate::adjacency::cell(
            w,
            h,
            cx,
            cy - 1,
        ) + crate::adjacency::cell(w, h, cx + 1, cy - 1));
        let ghost p3 = r@;
        if x >= 1 {
            proof {
                lemma_lin_coords(w, h, cx - 1, cy);
            }
            r.push(y * w + (x - 1));
        }
        assert(r@ =~= p3 + crate::adjacency::cell(w, h, cx - 1, cy));
        let ghost p4 = r@;
        if x + 1 < w {
            proof {
                lemma_lin_coords(w, h, cx + 1, cy);
            }
            r.push(y * w + (x + 1));
        }
        assert(r@ =~= p4 + crate::adjacency::cell(w, h, cx + 1, cy));
        let ghost p5 = r@;
        if y + 1 < h {
            if x >= 1 {
                proof {
                    lemma_lin_coords(w, h, cx - 1, cy + 1);
                }
                r.push((y + 1) * w + (x - 1));
            }
            assert(r@ =~= p5 + crate::adjacency::cell(w, h, cx - 1, cy + 1));
            proof {
                lemma_lin_coords(w, h, cx, cy + 1);
            }
            r.push((y + 1) * w + x);
            if x + 1 < w {
                proof {
                    lemma_lin_coords(w, h, cx + 1, cy + 1);
                }
                r.push((y + 1) * w + (x + 1));
            }
        }
        assert(r@ =~= p5 + crate::adjacency::cell(w, h, cx - 1, cy + 1) + crate::adjacency::cell(
            w,
            h,
            cx,
            cy + 1,
        ) + crate::adjacency::cell(w, h, cx + 1, cy + 1));
        assert(r@ =~= nb_seq(w, h, index));
        r
    }

    /// Append `index` to the pending set unless it is already there.
    fn enqueue(&mut self, index: usize)
        requires
            old(self).wf(),
            (index as int) < old(self).tiles@.len(),
        ensures
            final(self).wf(),
            final(self).to_dig@ == enq(old(self).to_dig@, index),
            final(self).tiles@ == old(self).tiles@,
            final(self).width == old(self).width,
            final(self).height == old(self).height,
            final(self).mine_count == old(self).mine_count,
            final(self).flags == old(self).flags,
            final(self).tiles_left == old(self).tiles_left,
            final(self).generated == old(self).generated,
            final(self).alive == old(self).alive,
    {
        let mut k: usize = 0;
        let mut present = false;
        while k < self.to_dig.len()
            invariant
                k <= self.to_dig@.len(),
                present == exists|m: int| 0 <= m < k as int && self.to_dig@[m] == index,
                self == old(self),
            decreases self.to_dig@.len() - k,
        {
            if self.to_dig[k] == index {
                present = true;
            }
            k = k + 1;
        }
        proof {
            if present {
                assert(self.to_dig@.contains(index));
            } else {
                if self.to_dig@.contains(index) {
                    let m = choose|m: int| 0 <= m < self.to_dig@.len() && self.to_dig@[m] == index;
                    assert(false);
                }
            }
        }
        if !present {
            self.to_dig.push(index);
        }
        proof {
            assert(self.to_dig@.no_duplicates());
            assert(forall|k: int|
                0 <= k < self.to_dig@.len() ==> ((#[trigger] self.to_dig@[k]) as int)
                    < self.tiles@.len());
            assert(self.wf());
        }
    }

    /// Perform a player action on the tile at `index`.
    ///
    /// Flagging toggles the flag of a hidden tile and moves the flag
    /// counter with it; a revealed tile cannot be flagged. Digging
    /// never reveals anything here: it only changes the pending set,
    /// as `dig_request` states — a flagged tile is locked, a revealed
    /// nonzero tile chords when its flagged neighbours match its
    /// count, a revealed blank tile is spent, and a hidden tile is
    /// enqueued for the next tick.
    #[verifier::loop_isolation(false)]
    #[verifier::rlimit(60)]
    pub fn action(&mut self, index: usize, action: Action)
        requires
            old(self).wf(),
            (index as int) < old(self).tiles@.len(),
        ensures
            final(self).wf(),
            final(self).width == old(self).width,
            final(self).height == old(self).height,
            final(self).mine_count == old(self).mine_count,
            final(self).tiles_left == old(self).tiles_left,
            final(self).generated == old(self).generated,
            final(self).alive == old(self).alive,
            (match action {
                Action::Flag => {
                    &&& final(self).to_dig@ == old(self).to_dig@
                    &&& if old(self).tiles@[index as int].digged {
                        final(self).tiles@ == old(self).tiles@
                            && final(self).flags == old(self).flags
                    } else {
                        final(self).tiles@ == flag_flip(old(self).tiles@, index as int)
                            && final(self).flags as int == old(self).flags as int + (
                        if old(self).tiles@[index as int].flagged {
                            -1int
                        } else {
                            1int
                        })
                    }
                },
                Action::Dig => {
                    &&& final(self).tiles@ == old(self).tiles@
                    &&& final(self).flags == old(self).flags
                    &&& final(self).to_dig@ == dig_request(
                        old(self).tiles@,
                        old(self).width,
                        old(self).height,
                        old(self).to_dig@,
                        index,
                    )
                },
            }),
    {
        proof {
            vstd::std_specs::vec::axiom_spec_len(&self.tiles);
        }
        let t = self.tiles[index];
        match action {
            Action::Flag => {
                if !t.digged {
                    self.toggle_flag(index);
                }
            },
            Action::Dig => {
                if t.flagged {
                    // a flag locks the tile against digging
                } else if t.digged {
                    if t.count != 0 {
                        let nbs = self.neighbours(index);
                        proof {
                            lemma_nb_seq(self.width, self.height, index);
                        }
                        let n_flags = self.count_flagged_neighbours(index, &nbs);
                        if n_flags == t.count as usize {
                            self.enqueue_all(&nbs);
                        }
                    }
                } else {
                    self.enqueue(index);
                }
            },
        }
    }

    /// Toggle the flag of the hidden tile at `index`, moving the flag
    /// counter with it.
    #[verifier::rlimit(60)]
    fn toggle_flag(&mut self, index: usize)
        requires
            old(self).wf(),
            (index as int) < old(self).tiles@.len(),
            !old(self).tiles@[index as int].digged,
        ensures
            final(self).wf(),
            final(self).tiles@ == flag_flip(old(self).tiles@, index as int),
            final(self).flags as int == old(self).flags as int + (if old(self).tiles@[index as int].flagged {
                -1int
            } else {
                1int
            }),
            final(self).to_dig@ == old(self).to_dig@,
            final(self).width == old(self).width,
            final(self).height == old(self).height,
            final(self).mine_count == old(self).mine_count,
            final(self).tiles_left == old(self).tiles_left,
            final(self).generated == old(self).generated,
            final(self).alive == old(self).alive,
    {
        proof {
            vstd::std_specs::vec::axiom_spec_len(&self.tiles);
        }
        let t = self.tiles[index];
        let mut t2 = t;
        t2.flagged = !t.flagged;
        self.tiles.set(index, t2);
        proof {
            lemma_count_true_bounds(flag_mask(old(self).tiles@), index as int);
            lemma_count_true_update(flag_mask(old(self).tiles@), index as int, t2.flagged);
            assert(flag_mask(self.tiles@) =~= flag_mask(old(self).tiles@).update(
                index as int,
                t2.flagged,
            ));
            assert(mine_mask(self.tiles@) =~= mine_mask(old(self).tiles@));
            assert(dig_mask(self.tiles@) =~= dig_mask(old(self).tiles@));
        }
        if t2.flagged {
            self.flags = self.flags + 1;
        } else {
            self.flags = self.flags - 1;
        }
        proof {
            assert forall|i: usize| (i as int) < self.tiles@.len() implies (#[trigger] self.tiles@[i as int]).count as int
                == mine_adj(self.tiles@, self.width, self.height, i) by {
                lemma_count_at_agree(
                    mine_mask(old(self).tiles@),
                    mine_mask(self.tiles@),
                    nb_seq(self.width, self.height, i),
                );
            }
            // Toggling a flag reveals nothing and arms nothing, so the
            // board is alive exactly as it was.
            if self.alive {
                assert forall|i: int| 0 <= i < self.tiles@.len() implies !((
                #[trigger] self.tiles@[i]).mine && self.tiles@[i].digged) by {
                    assert(!(old(self).tiles@[i].mine && old(self).tiles@[i].digged));
                }
            } else {
                assert(!(forall|i: int|
                    0 <= i < old(self).tiles@.len() ==> !((#[trigger] old(self).tiles@[i]).mine
                        && old(self).tiles@[i].digged)));
                let i = choose|i: int|
                    0 <= i < old(self).tiles@.len() && (#[trigger] old(self).tiles@[i]).mine && old(
                        self,
                    ).tiles@[i].digged;
                assert(self.tiles@[i].mine && self.tiles@[i].digged);
            }
            assert(self.wf());
        }
    }

    /// How many of the neighbours listed in `nbs` are flagged.
    #[verifier::loop_isolation(false)]
    #[verifier::rlimit(60)]
    fn count_flagged_neighbours(&self, index: usize, nbs: &Vec<usize>) -> (n: usize)
        requires
            self.wf(),
            (index as int) < self.tiles@.len(),
            nbs@ == nb_seq(self.width, self.height, index),
        ensures
            n as int == flag_adj(self.tiles@, self.width, self.height, index),
    {
        proof {
            vstd::std_specs::vec::axiom_spec_len(&self.tiles);
            lemma_nb_seq(self.width, self.height, index);
        }
        let mut n_flags: usize = 0;
        let mut k: usize = 0;
        while k < nbs.len()
            invariant
                k <= nbs@.len(),
                n_flags <= k,
                n_flags as int == count_at(flag_mask(self.tiles@), nbs@.take(k as int)),
            decreases nbs@.len() - k,
        {
            proof {
                assert(nbs@.take(k as int + 1).drop_last() =~= nbs@.take(k as int));
            }
            let ni = nbs[k];
            if self.tiles[ni].flagged {
                n_flags = n_flags + 1;
            }
            k = k + 1;
        }
        proof {
            assert(nbs@.take(nbs@.len() as int) =~= nbs@);
        }
        n_flags
    }

    /// Make a pending-set request of each tile listed in `nbs`.
    #[verifier::loop_isolation(false)]
    fn enqueue_all(&mut self, nbs: &Vec<usize>)
        requires
            old(self).wf(),
            forall|k: int|
                0 <= k < nbs@.len() ==> ((#[trigger] nbs@[k]) as int) < old(self).tiles@.len(),
        ensures
            final(self).wf(),
            final(self).to_dig@ == enq_all(old(self).to_dig@, nbs@),
            final(self).tiles@ == old(self).tiles@,
            final(self).width == old(self).width,
            final(self).height == old(self).height,
            final(self).mine_count == old(self).mine_count,
            final(self).flags == old(self).flags,
            final(self).tiles_left == old(self).tiles_left,
            final(self).generated == old(self).generated,
            final(self).alive == old(self).alive,
    {
        let mut k2: usize = 0;
        while k2 < nbs.len()
            invariant
                k2 <= nbs@.len(),
                self.wf(),
                self.tiles@ == old(self).tiles@,
                self.width == old(self).width,
                self.height == old(self).height,
                self.mine_count == old(self).mine_count,
                self.flags == old(self).flags,
                self.tiles_left == old(self).tiles_left,
                self.generated == old(self).generated,
                self.alive == old(self).alive,
                self.to_dig@ == enq_all(old(self).to_dig@, nbs@.take(k2 as int)),
            decreases nbs@.len() - k2,
        {
            proof {
                assert(nbs@.take(k2 as int + 1).drop_last() =~= nbs@.take(k2 as int));
            }
            let ni = nbs[k2];
            self.enqueue(ni);
            k2 = k2 + 1;
        }
        proof {
            assert(nbs@.take(nbs@.len() as int) =~= nbs@);
        }
    }

    /// Set a mine on `index` and raise the neighbour count of every
    /// tile around it, keeping every count equal to the number of
    /// mined neighbours.
    #[verifier::loop_isolation(false)]
    #[verifier::rlimit(100)]
    fn place_mine(&mut self, index: usize)
        requires
            old(self).tiles@.len() == old(self).total(),
            old(self).total() <= usize::MAX,
            (index as int) < old(self).tiles@.len(),
            !old(self).tiles@[index as int].mine,
            forall|i: usize|
                (i as int) < old(self).tiles@.len() ==> (#[trigger] old(self).tiles@[
                    i as int]).count as int == mine_adj(
                    old(self).tiles@,
                    old(self).width,
                    old(self).height,
                    i,
                ),
        ensures
            final(self).tiles@.len() == old(self).tiles@.len(),
            final(self).width == old(self).width,
            final(self).height == old(self).height,
            final(self).mine_count == old(self).mine_count,
            final(self).flags == old(self).flags,
            final(self).tiles_left == old(self).tiles_left,
            final(self).generated == old(self).generated,
            final(self).alive == old(self).alive,
            final(self).to_dig@ == old(self).to_dig@,
            forall|i: int|
                0 <= i < final(self).tiles@.len() ==> ((#[trigger] final(self).tiles@[i]).mine == (
                i == index as int || old(self).tiles@[i].mine) && final(self).tiles@[i].flagged
                    == old(self).tiles@[i].flagged && final(self).tiles@[i].digged == old(
                    self,
                ).tiles@[i].digged),
            forall|i: usize|
                (i as int) < final(self).tiles@.len() ==> (#[trigger] final(self).tiles@[
                    i as int]).count as int == mine_adj(
                    final(self).tiles@,
                    final(self).width,
                    final(self).height,
                    i,
                ),
            count_true(mine_mask(final(self).tiles@)) == count_true(mine_mask(old(self).tiles@))
                + 1,
    {
        proof {
            vstd::std_specs::vec::axiom_spec_len(&self.tiles);
        }
        let ghost prev = self.tiles@;
        let mut t = self.tiles[index];
        t.mine = true;
        self.tiles.set(index, t);
        let ghost mid = self.tiles@;
        proof {
            assert(mine_mask(mid) =~= mine_mask(prev).update(index as int, true));
            assert(flag_mask(mid) =~= flag_mask(prev));
            assert(dig_mask(mid) =~= dig_mask(prev));
            lemma_count_true_update(mine_mask(prev), index as int, true);
        }
        let nbs = self.neighbours(index);
        proof {
            lemma_nb_seq(self.width, self.height, index);
        }
        let mut k: usize = 0;
        while k < nbs.len()
            invariant
                k <= nbs@.len(),
                self.tiles@.len() == mid.len(),
                self.width == old(self).width,
                self.height == old(self).height,
                self.mine_count == old(self).mine_count,
                self.flags == old(self).flags,
                self.tiles_left == old(self).tiles_left,
                self.generated == old(self).generated,
                self.alive == old(self).alive,
                self.to_dig@ == old(self).to_dig@,
                forall|i: int|
                    0 <= i < self.tiles@.len() ==> ((#[trigger] self.tiles@[i]).mine == mid[i].mine
                        && self.tiles@[i].flagged == mid[i].flagged && self.tiles@[i].digged
                        == mid[i].digged),
                forall|j: usize|
                    (j as int) < self.tiles@.len() ==> (#[trigger] self.tiles@[j as int]).count as int
                        == mid[j as int].count as int + (if nbs@.take(k as int).contains(j) {
                        1int
                    } else {
                        0int
                    }),
            decreases nbs@.len() - k,
        {
            let ni = nbs[k];
            proof {
                assert(adjacent(self.width, self.height, index, nbs@[k as int]));
                assert(!nbs@.take(k as int).contains(ni)) by {
                    if nbs@.take(k as int).contains(ni) {
                        let m = choose|m: int|
                            0 <= m < k as int && nbs@.take(k as int)[m] == ni;
                        assert(nbs@[m] == nbs@[k as int]);
                    }
                }
                lemma_nb_seq(self.width, self.height, ni);
                lemma_count_at_bounds(mine_mask(prev), nb_seq(self.width, self.height, ni));
                assert(mid[ni as int].count as int == mine_adj(prev, self.width, self.height, ni));
            }
            let mut tn = self.tiles[ni];
            tn.count = tn.count + 1;
            self.tiles.set(ni, tn);
            proof {
                broadcast use vstd::seq_lib::lemma_seq_contains_after_push;

                assert(nbs@.take(k as int + 1) =~= nbs@.take(k as int).push(nbs@[k as int]));
            }
            k = k + 1;
        }
        proof {
            assert(nbs@.take(nbs@.len() as int) =~= nbs@);
            assert(mine_mask(self.tiles@) =~= mine_mask(mid));
            assert(flag_mask(self.tiles@) =~= flag_mask(mid));
            assert(dig_mask(self.tiles@) =~= dig_mask(mid));
            assert forall|i: usize| (i as int) < self.tiles@.len() implies (#[trigger] self.tiles@[
                i as int]).count as int == mine_adj(self.tiles@, self.width, self.height, i) by {
                lemma_nb_seq(self.width, self.height, i);
                lemma_adjacent_sym(self.width, self.height, index, i);
                lemma_count_at_set_true(
                    mine_mask(prev),
                    nb_seq(self.width, self.height, i),
                    index,
                );
                lemma_count_at_agree(
                    mine_mask(self.tiles@),
                    mine_mask(prev).update(index as int, true),
                    nb_seq(self.width, self.height, i),
                );
            }
        }
    }

    /// Place `mine_count` mines over the tiles other than
    /// `digged_tile`, each drawn uniformly from the tiles not yet
    /// mined, fix every neighbour count, mark the board generated,
    /// and queue the first reveal. Fails, leaving the board as it
    /// was, exactly when more mines are asked for than there are
    /// tiles besides the safe one.
    #[verifier::loop_isolation(false)]
    #[verifier::rlimit(100)]
    pub fn generate(&mut self, digged_tile: usize) -> (res: Result<(), String>)
        requires
            old(self).wf(),
            !old(self).generated,
            forall|i: int|
                0 <= i < old(self).tiles@.len() ==> !(#[trigger] old(self).tiles@[i]).digged,
            (digged_tile as int) < old(self).tiles@.len(),
        ensures
            final(self).wf(),
            final(self).width == old(self).width,
            final(self).height == old(self).height,
            final(self).mine_count == old(self).mine_count,
            final(self).flags == old(self).flags,
            final(self).tiles_left == old(self).tiles_left,
            final(self).alive == old(self).alive,
            forall|i: int|
                0 <= i < final(self).tiles@.len() ==> ((#[trigger] final(self).tiles@[i]).flagged
                    == old(self).tiles@[i].flagged && final(self).tiles@[i].digged == old(
                    self,
                ).tiles@[i].digged),
            (match res {
                Ok(_) => {
                    &&& old(self).mine_count as int <= old(self).tiles@.len() - 1
                    &&& final(self).generated
                    &&& !final(self).tiles@[digged_tile as int].mine
                    &&& count_true(mine_mask(final(self).tiles@)) == old(self).mine_count as int
                    &&& final(self).to_dig@ == enq(old(self).to_dig@, digged_tile)
                },
                Err(e) => {
                    &&& old(self).mine_count as int > old(self).tiles@.len() - 1
                    &&& final(self).tiles@ == old(self).tiles@
                    &&& final(self).to_dig@ == old(self).to_dig@
                    &&& final(self).generated == old(self).generated
                    &&& e@ == "Not enouth tiles on the board"@
                },
            }),
    {
        proof {
            broadcast use vstd::string::to_string_from_display_ensures_for_str;

            vstd::std_specs::vec::axiom_spec_len(&self.tiles);
        }
        let total = self.width * self.height;
        if total - 1 < self.mine_count {
            return Err("Not enouth tiles on the board".to_string());
        }
        let mut pool: Vec<usize> = Vec::new();
        let mut i: usize = 0;
        while i < total
            invariant
                i <= total,
                pool@.len() == i as int,
                forall|k: int| 0 <= k < i as int ==> (#[trigger] pool@[k]) as int == k,
            decreases total - i,
        {
            pool.push(i);
            i = i + 1;
        }
        let ghost full = pool@;
        pool.remove(digged_tile);
        proof {
            assert(pool@.len() == total as int - 1);
            assert forall|j: usize| #[trigger] pool@.contains(j) implies ((j as int)
                < total as int && j != digged_tile) by {
                let k = choose|k: int| 0 <= k < pool@.len() && pool@[k] == j;
                if k < digged_tile as int {
                    assert(pool@[k] == full[k]);
                } else {
                    assert(pool@[k] == full[k + 1]);
                }
            }
            assert forall|j: usize| (j as int) < total as int && j != digged_tile implies
                #[trigger] pool@.contains(j) by {
                if (j as int) < digged_tile as int {
                    assert(pool@[j as int] == full[j as int]);
                    assert(pool@[j as int] == j);
                } else {
                    assert(pool@[j as int - 1] == full[j as int]);
                    assert(pool@[j as int - 1] == j);
                }
            }
            assert(pool@.no_duplicates()) by {
                assert forall|k1: int, k2: int| 0 <= k1 < k2 < pool@.len() implies pool@[k1]
                    != pool@[k2] by {
                    assert((pool@[k1] as int) < (pool@[k2] as int));
                }
            }
        }
        proof {
            lemma_count_true_zero(mine_mask(old(self).tiles@));
        }
        let mut placed: usize = 0;
        while placed < self.mine_count
            invariant
                placed <= self.mine_count,
                self.width == old(self).width,
                self.height == old(self).height,
                self.mine_count == old(self).mine_count,
                self.flags == old(self).flags,
                self.tiles_left == old(self).tiles_left,
                self.generated == old(self).generated,
                self.alive == old(self).alive,
                self.to_dig@ == old(self).to_dig@,
                self.tiles@.len() == old(self).tiles@.len(),
                self.mine_count as int <= old(self).tiles@.len() - 1,
                pool@.no_duplicates(),
                pool@.len() == old(self).tiles@.len() - 1 - placed as int,
                forall|j: usize| #[trigger] pool@.contains(j) ==> ((j as int) < old(
                    self,
                ).tiles@.len() && j != digged_tile),
                forall|j: usize|
                    (j as int) < self.tiles@.len() ==> ((#[trigger] self.tiles@[j as int]).mine
                        <==> (j != digged_tile && !pool@.contains(j))),
                count_true(mine_mask(self.tiles@)) == placed as int,
                forall|i: usize|
                    (i as int) < self.tiles@.len() ==> (#[trigger] self.tiles@[
                        i as int]).count as int == mine_adj(
                        self.tiles@,
                        self.width,
                        self.height,
                        i,
                    ),
                forall|i: int|
                    0 <= i < self.tiles@.len() ==> ((#[trigger] self.tiles@[i]).flagged == old(
                        self,
                    ).tiles@[i].flagged && self.tiles@[i].digged == old(self).tiles@[i].digged),
            decreases self.mine_count - placed,
        {
            let r = crate::rng::random_below(pool.len());
            let ghost pool_before = pool@;
            let index = pool.remove(r);
            proof {
                assert(pool_before[r as int] == index);
                assert(pool_before.contains(index));
                lemma_remove_no_dup(pool_before, r as int);
                assert(!self.tiles@[index as int].mine);
            }
            self.place_mine(index);
            placed = placed + 1;
        }
        self.generated = true;
        proof {
            assert(flag_mask(self.tiles@) =~= flag_mask(old(self).tiles@));
            assert(dig_mask(self.tiles@) =~= dig_mask(old(self).tiles@));
            assert(old(self).alive) by {
                assert forall|i: int| 0 <= i < old(self).tiles@.len() implies !((
                #[trigger] old(self).tiles@[i]).mine && old(self).tiles@[i].digged) by {
                    assert(!old(self).tiles@[i].digged);
                }
            }
            assert forall|i: int| 0 <= i < self.tiles@.len() implies !((#[trigger] self.tiles@[
                i]).mine && self.tiles@[i].digged) by {
                assert(!old(self).tiles@[i].digged);
            }
            assert(self.wf());
        }
        self.enqueue(digged_tile);
        Ok(())
    }

    /// Reveal the hidden, unflagged tile at `idx`: mark it dug, lower
    /// `tiles_left`, and drop `alive` when it holds a mine.
    #[verifier::rlimit(100)]
    fn dig_one(&mut self, idx: usize)
        requires
            old(self).wf(),
            (idx as int) < old(self).tiles@.len(),
            !old(self).tiles@[idx as int].digged,
            !old(self).tiles@[idx as int].flagged,
        ensures
            final(self).wf(),
            final(self).width == old(self).width,
            final(self).height == old(self).height,
            final(self).mine_count == old(self).mine_count,
            final(self).flags == old(self).flags,
            final(self).generated == old(self).generated,
            final(self).to_dig@ == old(self).to_dig@,
            final(self).tiles_left == old(self).tiles_left - 1,
            (final(self).tiles@ == old(self).tiles@.update(
                idx as int,
                (Tile { digged: true, ..old(self).tiles@[idx as int] }),
            )),
            final(self).alive ==> old(self).alive,
    {
        proof {
            vstd::std_specs::vec::axiom_spec_len(&self.tiles);
        }
        let ghost st_tiles = self.tiles@;
        let t = self.tiles[idx];
        let mut t2 = t;
        t2.digged = true;
        self.tiles.set(idx, t2);
        proof {
            lemma_count_true_bounds(dig_mask(st_tiles), idx as int);
            lemma_count_true_update(dig_mask(st_tiles), idx as int, true);
            assert(dig_mask(self.tiles@) =~= dig_mask(st_tiles).update(idx as int, true));
            assert(flag_mask(self.tiles@) =~= flag_mask(st_tiles));
            assert(mine_mask(self.tiles@) =~= mine_mask(st_tiles));
        }
        self.tiles_left = self.tiles_left - 1;
        if t2.mine {
            self.alive = false;
        }
        proof {
            assert forall|i: usize| (i as int) < self.tiles@.len() implies (
            #[trigger] self.tiles@[i as int]).count as int == mine_adj(
                self.tiles@,
                self.width,
                self.height,
                i,
            ) by {
                lemma_count_at_agree(
                    mine_mask(st_tiles),
                    mine_mask(self.tiles@),
                    nb_seq(self.width, self.height, i),
                );
            }
            // The board stays alive exactly as long as no mine is
            // revealed.
            if self.alive {
                assert forall|i: int| 0 <= i < self.tiles@.len() implies !((
                #[trigger] self.tiles@[i]).mine && self.tiles@[i].digged) by {
                    assert(!(st_tiles[i].mine && st_tiles[i].digged));
                }
            } else {
                if t2.mine {
                    assert(self.tiles@[idx as int].mine && self.tiles@[idx as int].digged);
                } else {
                    assert(!(forall|i: int|
                        0 <= i < st_tiles.len() ==> !((#[trigger] st_tiles[i]).mine
                            && st_tiles[i].digged)));
                    let i = choose|i: int|
                        0 <= i < st_tiles.len() && (#[trigger] st_tiles[i]).mine
                            && st_tiles[i].digged;
                    assert(self.tiles@[i].mine && self.tiles@[i].digged);
                }
            }
            assert(self.wf());
        }
    }

    /// Make a dig request at each neighbour of `idx`, in order.
    #[verifier::loop_isolation(false)]
    #[verifier::rlimit(100)]
    #[verifier::spinoff_prover]
    fn request_neighbours(&mut self, idx: usize)
        requires
            old(self).wf(),
            (idx as int) < old(self).tiles@.len(),
        ensures
            final(self).wf(),
            final(self).width == old(self).width,
            final(self).height == old(self).height,
            final(self).mine_count == old(self).mine_count,
            final(self).flags == old(self).flags,
            final(self).generated == old(self).generated,
            final(self).tiles_left == old(self).tiles_left,
            final(self).alive == old(self).alive,
            final(self).tiles@ == old(self).tiles@,
            final(self).to_dig@ == dig_request_all(
                old(self).tiles@,
                old(self).width,
                old(self).height,
                old(self).to_dig@,
                nb_seq(old(self).width, old(self).height, idx),
            ),
    {
        proof {
            vstd::std_specs::vec::axiom_spec_len(&self.tiles);
        }
        let nbs = self.neighbours(idx);
        proof {
            lemma_nb_seq(self.width, self.height, idx);
        }
        let mut m: usize = 0;
        while m < nbs.len()
            invariant
                m <= nbs@.len(),
                self.wf(),
                self.tiles@ == old(self).tiles@,
                self.width == old(self).width,
                self.height == old(self).height,
                self.mine_count == old(self).mine_count,
                self.flags == old(self).flags,
                self.generated == old(self).generated,
                self.tiles_left == old(self).tiles_left,
                self.alive == old(self).alive,
                self.to_dig@ == dig_request_all(
                    old(self).tiles@,
                    old(self).width,
                    old(self).height,
                    old(self).to_dig@,
                    nbs@.take(m as int),
                ),
            decreases nbs@.len() - m,
        {
            proof {
                assert(nbs@.take(m as int + 1).drop_last() =~= nbs@.take(m as int));
            }
            let ni = nbs[m];
            self.action(ni, Action::Dig);
            m = m + 1;
        }
        proof {
            assert(nbs@.take(nbs@.len() as int) =~= nbs@);
        }
    }

    /// Process one queued index of a tick's wave, as `reveal_one`
    /// states: a revealed or flagged tile is skipped; any other is
    /// revealed, and, when it is blank, a dig request is made at each
    /// of its neighbours.
    #[verifier::rlimit(100)]
    fn reveal_tile(&mut self, idx: usize)
        requires
            old(self).wf(),
            (idx as int) < old(self).tiles@.len(),
        ensures
            final(self).wf(),
            final(self).width == old(self).width,
            final(self).height == old(self).height,
            final(self).mine_count == old(self).mine_count,
            final(self).flags == old(self).flags,
            final(self).generated == old(self).generated,
            ((final(self).tiles@, final(self).to_dig@) == reveal_one(
                old(self).width,
                old(self).height,
                (old(self).tiles@, old(self).to_dig@),
                idx,
            )),
            final(self).alive ==> old(self).alive,
    {
        let t = self.tiles[idx];
        if !t.digged && !t.flagged {
            self.dig_one(idx);
            if t.count == 0 {
                self.request_neighbours(idx);
            }
        }
    }

    /// Advance the board one step, as `run_wave` states: take the
    /// pending wave and reveal each queued tile that is neither
    /// revealed nor flagged, lowering `tiles_left` with each reveal
    /// and dropping `alive` for good on revealing a mine; a revealed
    /// blank tile makes a dig request at each of its neighbours, and
    /// those requests form the next wave.
    #[verifier::loop_isolation(false)]
    #[verifier::rlimit(100)]
    pub fn tick(&mut self)
        requires
            old(self).wf(),
        ensures
            final(self).wf(),
            final(self).width == old(self).width,
            final(self).height == old(self).height,
            final(self).mine_count == old(self).mine_count,
            final(self).flags == old(self).flags,
            final(self).generated == old(self).generated,
            ((final(self).tiles@, final(self).to_dig@) == run_wave(
                old(self).width,
                old(self).height,
                old(self).tiles@,
                old(self).to_dig@,
            )),
            forall|i: int|
                0 <= i < final(self).tiles@.len() ==> ((#[trigger] final(self).tiles@[i]).count
                    == old(self).tiles@[i].count && final(self).tiles@[i].mine == old(
                    self,
                ).tiles@[i].mine && final(self).tiles@[i].flagged == old(self).tiles@[i].flagged),
            forall|j: usize|
                (j as int) < final(self).tiles@.len() ==> ((#[trigger] final(self).tiles@[
                    j as int]).digged <==> (old(self).tiles@[j as int].digged || (old(
                    self,
                ).to_dig@.contains(j) && !old(self).tiles@[j as int].flagged))),
            forall|i: usize, n: usize|
                ((i as int) < final(self).tiles@.len() && final(self).tiles@[i as int].digged
                    && !old(self).tiles@[i as int].digged && old(self).tiles@[i as int].count == 0
                    && #[trigger] adjacent(old(self).width, old(self).height, i, n)
                    && !final(self).tiles@[n as int].digged
                    && !final(self).tiles@[n as int].flagged)
                    ==> final(self).to_dig@.contains(n),
            final(self).alive ==> old(self).alive,
    {
        proof {
            vstd::std_specs::vec::axiom_spec_len(&self.tiles);
        }
        let mut work: Vec<usize> = Vec::new();
        core::mem::swap(&mut self.to_dig, &mut work);
        let ghost tiles0 = self.tiles@;
        let ghost work0 = work@;
        let mut k: usize = 0;
        while k < work.len()
            invariant
                k <= work0.len(),
                work@ == work0,
                self.wf(),
                self.width == old(self).width,
                self.height == old(self).height,
                self.mine_count == old(self).mine_count,
                self.flags == old(self).flags,
                self.generated == old(self).generated,
                ((self.tiles@, self.to_dig@) == run_wave(
                    old(self).width,
                    old(self).height,
                    tiles0,
                    work0.take(k as int),
                )),
                self.alive ==> old(self).alive,
            decreases work0.len() - k,
        {
            let ghost st_tiles = self.tiles@;
            let ghost st_td = self.to_dig@;
            let idx = work[k];
            proof {
                lemma_run_wave_tiles(old(self).width, old(self).height, tiles0, work0.take(
                    k as int,
                ));
                assert((idx as int) < self.tiles@.len());
            }
            self.reveal_tile(idx);
            proof {
                assert(work0.take(k as int + 1).drop_last() =~= work0.take(k as int));
                assert((self.tiles@, self.to_dig@) == reveal_one(
                    self.width,
                    self.height,
                    (st_tiles, st_td),
                    work0[k as int],
                ));
            }
            k = k + 1;
        }
        proof {
            assert(work0.take(work0.len() as int) =~= work0);
            lemma_run_wave_tiles(old(self).width, old(self).height, tiles0, work0);
            lemma_run_wave_progress(old(self).width, old(self).height, tiles0, work0);
        }
    }
}

/// Toggling the flag of a hidden tile twice gives the tiles back
/// unchanged; with `Board::action`'s flag clause, the flag counter
/// comes back to its prior value as well.
pub proof fn lemma_flag_toggle_involution(tiles: Seq<Tile>, i: int)
    requires
        0 <= i < tiles.len(),
    ensures
        flag_flip(flag_flip(tiles, i), i) == tiles,
{
    assert(flag_flip(flag_flip(tiles, i), i) =~= tiles);
}

/// Requesting every entry of `s` pends exactly the entries of `s` on
/// top of what was already pending.
pub proof fn lemma_enq_all_membership(td: Seq<usize>, s: Seq<usize>)
    ensures
        forall|x: usize| #[trigger]
            enq_all(td, s).contains(x) <==> (td.contains(x) || s.contains(x)),
    decreases s.len(),
{
    broadcast use vstd::seq_lib::lemma_seq_contains_after_push;
    broadcast use vstd::seq_lib::lemma_seq_empty_contains_nothing;

    if s.len() > 0 {
        let prefix = s.drop_last();
        let lastv = s.last();
        lemma_enq_all_membership(td, prefix);
        assert(s =~= prefix.push(lastv));
        let e = enq_all(td, prefix);
        assert(enq_all(td, s) == enq(e, lastv));
        assert forall|x: usize| #[trigger] enq_all(td, s).contains(x) implies (td.contains(x)
            || s.contains(x)) by {
            assert(e.contains(x) || x == lastv);
            assert(prefix.contains(x) ==> s.contains(x));
        }
        assert forall|x: usize| td.contains(x) || s.contains(x) implies #[trigger] enq_all(
            td,
            s,
        ).contains(x) by {
            if s.contains(x) && x != lastv {
                assert(prefix.contains(x));
            }
            if td.contains(x) || prefix.contains(x) {
                assert(e.contains(x));
                assert(enq(e, lastv).contains(x));
            } else {
                assert(x == lastv);
                if e.contains(lastv) {
                    assert(enq(e, lastv).contains(x));
                } else {
                    assert(e.push(lastv).contains(lastv));
                }
            }
        }
    }
}

/// What one dig request pends: nothing on a flagged tile; on a
/// revealed tile, its neighbours exactly when it is nonzero and its
/// flagged neighbours match its count, else nothing; on a hidden tile,
/// the tile itself.
pub proof fn lemma_dig_request_membership(
    tiles: Seq<Tile>,
    w: usize,
    h: usize,
    td: Seq<usize>,
    j: usize,
)
    ensures
        forall|x: usize| #[trigger]
            dig_request(tiles, w, h, td, j).contains(x) <==> (td.contains(x) || (!tiles[
                j as int].flagged && !tiles[j as int].digged && x == j) || (!tiles[
                j as int].flagged && tiles[j as int].digged && tiles[j as int].count != 0
                && flag_adj(tiles, w, h, j) == tiles[j as int].count as int && nb_seq(
                w,
                h,
                j,
            ).contains(x))),
{
    broadcast use vstd::seq_lib::lemma_seq_contains_after_push;

    lemma_enq_all_membership(td, nb_seq(w, h, j));
}

/// A tick with nothing pending is a no-op: the wave of an empty queue
/// leaves every tile as it was and queues nothing.
pub proof fn lemma_empty_wave(w: usize, h: usize, tiles: Seq<Tile>)
    ensures
        run_wave(w, h, tiles, Seq::<usize>::empty()) == (tiles, Seq::<usize>::empty()),
{
}

/// How a tick's wave changes the tiles alone: counts, mines and flags
/// are left as they were, and a tile ends revealed exactly when it was
/// revealed before or was queued while unflagged.
pub proof fn lemma_run_wave_tiles(w: usize, h: usize, tiles: Seq<Tile>, work: Seq<usize>)
    requires
        forall|k: int| 0 <= k < work.len() ==> ((#[trigger] work[k]) as int) < tiles.len(),
    ensures
        run_wave(w, h, tiles, work).0.len() == tiles.len(),
        forall|i: int|
            0 <= i < tiles.len() ==> ((#[trigger] run_wave(w, h, tiles, work).0[i]).count
                == tiles[i].count && run_wave(w, h, tiles, work).0[i].mine == tiles[i].mine
                && run_wave(w, h, tiles, work).0[i].flagged == tiles[i].flagged),
        forall|j: usize|
            (j as int) < tiles.len() ==> ((#[trigger] run_wave(w, h, tiles, work).0[
                j as int]).digged <==> (tiles[j as int].digged || (work.contains(j) && !tiles[
                j as int].flagged))),
    decreases work.len(),
{
    broadcast use vstd::seq_lib::lemma_seq_contains_after_push;

    if work.len() > 0 {
        let prefix = work.drop_last();
        lemma_run_wave_tiles(w, h, tiles, prefix);
        assert(work =~= prefix.push(work.last()));
    }
}

/// A dig request never drops a pending index.
pub proof fn lemma_dig_request_all_monotone(
    tiles: Seq<Tile>,
    w: usize,
    h: usize,
    td: Seq<usize>,
    s: Seq<usize>,
)
    ensures
        forall|x: usize|
            td.contains(x) ==> #[trigger] dig_request_all(tiles, w, h, td, s).contains(x),
    decreases s.len(),
{
    if s.len() > 0 {
        lemma_dig_request_all_monotone(tiles, w, h, td, s.drop_last());
        lemma_dig_request_membership(
            tiles,
            w,
            h,
            dig_request_all(tiles, w, h, td, s.drop_last()),
            s.last(),
        );
    }
}

/// Dig requests over a list reach every listed hidden, unflagged tile:
/// each such tile is pending afterwards.
pub proof fn lemma_dig_request_all_hits(
    tiles: Seq<Tile>,
    w: usize,
    h: usize,
    td: Seq<usize>,
    s: Seq<usize>,
    x: usize,
)
    requires
        s.contains(x),
        !tiles[x as int].flagged,
        !tiles[x as int].digged,
    ensures
        dig_request_all(tiles, w, h, td, s).contains(x),
    decreases s.len(),
{
    let rec = dig_request_all(tiles, w, h, td, s.drop_last());
    lemma_dig_request_membership(tiles, w, h, rec, s.last());
    if s.last() != x {
        assert(s.drop_last().contains(x)) by {
            let k = choose|k: int| 0 <= k < s.len() && s[k] == x;
            assert(s.drop_last()[k] == x);
        }
        lemma_dig_request_all_hits(tiles, w, h, td, s.drop_last(), x);
    }
}

/// One wave's progress towards the flood reveal: after the wave, every
/// neighbour of a tile that the wave revealed blank is pending, unless
/// that neighbour is flagged or was itself revealed.
#[verifier::rlimit(100)]
pub proof fn lemma_run_wave_progress(w: usize, h: usize, tiles: Seq<Tile>, work: Seq<usize>)
    requires
        tiles.len() == (w as int) * (h as int),
        (w as int) * (h as int) <= usize::MAX,
        forall|k: int| 0 <= k < work.len() ==> ((#[trigger] work[k]) as int) < tiles.len(),
    ensures
        forall|i: usize, n: usize|
            ((i as int) < tiles.len() && run_wave(w, h, tiles, work).0[i as int].digged && !tiles[
                i as int].digged && tiles[i as int].count == 0 && #[trigger] adjacent(w, h, i, n)
                && !run_wave(w, h, tiles, work).0[n as int].digged && !run_wave(
                w,
                h,
                tiles,
                work,
            ).0[n as int].flagged) ==> run_wave(w, h, tiles, work).1.contains(n),
    decreases work.len(),
{
    if work.len() > 0 {
        let prefix = work.drop_last();
        let lastv = work.last();
        lemma_run_wave_progress(w, h, tiles, prefix);
        lemma_run_wave_tiles(w, h, tiles, prefix);
        lemma_run_wave_tiles(w, h, tiles, work);
        let st0 = run_wave(w, h, tiles, prefix).0;
        let st1 = run_wave(w, h, tiles, prefix).1;
        let res = run_wave(w, h, tiles, work);
        assert(res == reveal_one(w, h, (st0, st1), lastv));
        let t = st0[lastv as int];
        assert forall|i: usize, n: usize|
            ((i as int) < tiles.len() && res.0[i as int].digged && !tiles[i as int].digged
                && tiles[i as int].count == 0 && #[trigger] adjacent(w, h, i, n) && !res.0[
                n as int].digged && !res.0[n as int].flagged) implies res.1.contains(n) by {
            if t.digged || t.flagged {
                // The queued tile was skipped; the wave is the shorter one.
            } else {
                let tiles2 = st0.update(lastv as int, Tile { digged: true, ..t });
                if t.count == 0 {
                    lemma_nb_seq(w, h, lastv);
                    if i == lastv {
                        // The tile revealed last: each of its hidden,
                        // unflagged neighbours takes a dig request.
                        assert(nb_seq(w, h, lastv).contains(n));
                        lemma_dig_request_all_hits(tiles2, w, h, st1, nb_seq(w, h, lastv), n);
                    } else {
                        // A tile revealed earlier in the wave: its
                        // neighbour was already pending, and requests
                        // only add.
                        assert(st1.contains(n));
                        lemma_dig_request_all_monotone(tiles2, w, h, st1, nb_seq(w, h, lastv));
                    }
                } else {
                    if i == lastv {
                        assert(st0[i as int].count == tiles[i as int].count);
                    } else {
                        assert(st1.contains(n));
                    }
                }
            }
        }
    }
}

} // verus!
