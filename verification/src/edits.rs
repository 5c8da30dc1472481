//! What edits do to the cells, and what is told of them.

use crate::coord::ChunkCoord;
use crate::delivery;
use crate::mirror;
use crate::play;
use crate::protocol;
use crate::protocol::EditCell;
use crate::sim;
use crate::wal;
use crate::world::WorldState;
use vstd::prelude::*;

verus! {

/// What the simulation tells of edits has one entry for each chunk that they are in, which holds
/// all edits in that chunk, in their order.
pub proof fn law_edits_are_told_by_chunk(
    cells: Seq<EditCell>,
    edits: Seq<(ChunkCoord, Vec<EditCell>)>,
)
    requires
        sim::edits_view(edits) == sim::touched(cells).map_values(
            |c: ChunkCoord| (c, sim::cells_in(cells, c)),
        ),
    ensures
        forall|i: int, j: int|
            0 <= i < edits.len() && 0 <= j < edits.len() && i != j ==> (#[trigger] edits[i]).0 != (
            #[trigger] edits[j]).0,
        forall|i: int|
            #![trigger edits[i]]
            0 <= i < edits.len() ==> edits[i].1@ == cells.filter(
                |e: EditCell| e.cx == edits[i].0.0 && e.cy == edits[i].0.1,
            ),
        forall|k: int|
            #![trigger cells[k]]
            0 <= k < cells.len() ==> exists|i: int|
                0 <= i < edits.len() && (#[trigger] edits[i]).0 == (cells[k].cx, cells[k].cy),
        forall|i: int|
            #![trigger edits[i]]
            0 <= i < edits.len() ==> exists|k: int|
                0 <= k < cells.len() && (#[trigger] cells[k]).cx == edits[i].0.0 && cells[k].cy
                    == edits[i].0.1,
{
    let order = sim::touched(cells);
    mirror::lemma_touched(cells);
    assert(sim::edits_view(edits).len() == edits.len());
    assert forall|i: int| 0 <= i < edits.len() implies (#[trigger] edits[i]).0 == order[i]
        && edits[i].1@ == sim::cells_in(cells, order[i]) by {
        assert(sim::edits_view(edits)[i] == (edits[i].0, edits[i].1@));
    }
    assert forall|i: int|
        #![trigger edits[i]]
        0 <= i < edits.len() implies edits[i].1@ == cells.filter(
        |e: EditCell| e.cx == edits[i].0.0 && e.cy == edits[i].0.1,
    ) by {
        let c = edits[i].0;
        assert((|e: EditCell| (e.cx, e.cy) == c) =~= (|e: EditCell| e.cx == c.0 && e.cy == c.1));
    }
    assert forall|k: int|
        #![trigger cells[k]]
        0 <= k < cells.len() implies exists|i: int|
        0 <= i < edits.len() && (#[trigger] edits[i]).0 == (cells[k].cx, cells[k].cy) by {
        let c = (cells[k].cx, cells[k].cy);
        assert(sim::homes(cells)[k] == c);
        assert(sim::homes(cells).contains(c));
        assert(order.contains(c));
        let i = choose|i: int| 0 <= i < order.len() && order[i] == c;
        assert(edits[i].0 == c);
    }
    assert forall|i: int|
        #![trigger edits[i]]
        0 <= i < edits.len() implies exists|k: int|
        0 <= k < cells.len() && (#[trigger] cells[k]).cx == edits[i].0.0 && cells[k].cy
            == edits[i].0.1 by {
        let c = edits[i].0;
        assert(order.contains(order[i]));
        assert(sim::homes(cells).contains(c));
        let k = choose|k: int| 0 <= k < sim::homes(cells).len() && sim::homes(cells)[k] == c;
        assert(cells[k].cx == c.0);
    }
}

/// One more edit.
proof fn lemma_edited_push(cells: Seq<EditCell>, e: EditCell, x: int, y: int, was: bool)
    ensures
        play::edited_cell(cells.push(e), x, y, was) == (if wal::cell_x(e) == x && wal::cell_y(e)
            == y {
            e.alive
        } else {
            play::edited_cell(cells, x, y, was)
        }),
    decreases cells.len(),
{
    let all = cells.push(e);
    if cells.len() == 0 {
        reveal_with_fuel(play::edited_cell, 2);
        assert(all.drop_first() =~= Seq::<EditCell>::empty());
    } else {
        let c = cells[0];
        let then = if wal::cell_x(c) == x && wal::cell_y(c) == y {
            c.alive
        } else {
            was
        };
        assert(all.drop_first() =~= cells.drop_first().push(e));
        lemma_edited_push(cells.drop_first(), e, x, y, then);
    }
}

/// What edits make of a cell depends on those in its chunk alone.
proof fn lemma_edited_in_chunk(
    cells: Seq<EditCell>,
    c: ChunkCoord,
    i: int,
    j: int,
    was: bool,
)
    requires
        0 <= i < 64,
        0 <= j < 64,
        forall|k: int| 0 <= k < cells.len() ==> (#[trigger] cells[k]).lx < 64 && cells[k].ly < 64,
    ensures
        play::edited_cell(cells, 64 * c.0 + i, 64 * c.1 + j, was) == delivery::patched(
            cells.filter(|e: EditCell| e.cx == c.0 && e.cy == c.1),
            i,
            j,
            was,
        ),
    decreases cells.len(),
{
    let f = |e: EditCell| e.cx == c.0 && e.cy == c.1;
    if cells.len() == 0 {
        assert(cells.filter(f) =~= Seq::<EditCell>::empty()) by {
            reveal_with_fuel(Seq::filter, 1);
        }
    } else {
        let init = cells.drop_last();
        let e = cells.last();
        assert(cells =~= init.push(e));
        assert forall|k: int| 0 <= k < init.len() implies (#[trigger] init[k]).lx < 64
            && init[k].ly < 64 by {
            assert(cells[k].lx < 64);
        }
        assert(cells[cells.len() - 1].lx < 64);
        lemma_edited_in_chunk(init, c, i, j, was);
        lemma_edited_push(init, e, 64 * c.0 + i, 64 * c.1 + j, was);
        init.lemma_filter_push(e, f);
        if f(e) {
            let all = init.filter(f).push(e);
            assert(all.drop_last() =~= init.filter(f));
            assert(all.last() == e);
        }
    }
}

/// Edits set each cell that they name, and that is not frozen, to what the last of them says, and
/// no other cell. A chunk is patched into what it is afterwards by the edits in its entry alone;
/// one without an entry stays as it is.
pub proof fn law_edits_patch_chunks(
    w: WorldState,
    cells: Seq<EditCell>,
    edits: Seq<(ChunkCoord, Vec<EditCell>)>,
    c: ChunkCoord,
    i: int,
    j: int,
)
    requires
        w.sound(),
        forall|k: int| 0 <= k < cells.len() ==> (#[trigger] cells[k]).lx < 64 && cells[k].ly < 64,
        sim::edits_view(edits) == sim::touched(cells).map_values(
            |c: ChunkCoord| (c, sim::cells_in(cells, c)),
        ),
        0 <= i < 64,
        0 <= j < 64,
    ensures
        ({
            let next = wal::edited_all(w.woken(sim::homes(cells).to_set()), cells);
            let x = 64 * c.0 + i;
            let y = 64 * c.1 + j;
            &&& next.sound()
            &&& next.frozen(x, y) == w.frozen(x, y)
            &&& w.frozen(x, y) ==> next.alive(x, y) == w.alive(x, y)
            &&& forall|k: int|
                0 <= k < edits.len() && (#[trigger] edits[k]).0 == c && !w.frozen(x, y)
                    ==> next.alive(x, y) == delivery::patched(edits[k].1@, i, j, w.alive(x, y))
            &&& (forall|k: int| 0 <= k < edits.len() ==> (#[trigger] edits[k]).0 != c)
                ==> next.alive(x, y) == w.alive(x, y)
        }),
{
    let x = 64 * c.0 + i;
    let y = 64 * c.1 + j;
    let next = wal::edited_all(w.woken(sim::homes(cells).to_set()), cells);
    assert forall|k: int| 0 <= k < cells.len() implies protocol::in_chunk(#[trigger] cells[k]) by {
        assert(cells[k].lx < 64 && cells[k].ly < 64);
    }
    play::law_edits_set_cells(w, cells);
    law_edits_are_told_by_chunk(cells, edits);
    lemma_edited_in_chunk(cells, c, i, j, w.alive(x, y));
    assert(next.alive(x, y) == (if w.frozen(x, y) {
        w.alive(x, y)
    } else {
        play::edited_cell(cells, x, y, w.alive(x, y))
    }));
    assert(next.frozen(x, y) == w.frozen(x, y));
    let f = |e: EditCell| e.cx == c.0 && e.cy == c.1;
    assert forall|k: int|
        0 <= k < edits.len() && (#[trigger] edits[k]).0 == c && !w.frozen(x, y) implies next.alive(
        x,
        y,
    ) == delivery::patched(edits[k].1@, i, j, w.alive(x, y)) by {
        assert((|e: EditCell| e.cx == edits[k].0.0 && e.cy == edits[k].0.1) =~= f);
    }
    if forall|k: int| 0 <= k < edits.len() ==> (#[trigger] edits[k]).0 != c {
        assert forall|k: int| 0 <= k < cells.len() implies !f(#[trigger] cells[k]) by {
            let k2 = choose|k2: int|
                0 <= k2 < edits.len() && (#[trigger] edits[k2]).0 == (cells[k].cx, cells[k].cy);
            assert(edits[k2].0 != c);
        }
        delivery::lemma_filter_all(cells, f);
    }
}

} // verus!
