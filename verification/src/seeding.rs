//! What region entries make of the world, character by character.

use crate::coord::ChunkCoord;
use crate::oscillator::Paused;
use crate::play;
use crate::protocol::Region;
use crate::region;
use crate::region::{EntryModel, RegionEntry, RegionFault};
use crate::world;
use crate::world::WorldState;
use vstd::prelude::*;

verus! {

/// Line feeds among the first `n` characters.
pub open spec fn breaks(s: Seq<char>, n: int) -> int
    decreases n,
{
    if n <= 0 {
        0
    } else {
        breaks(s, n - 1) + (if s[n - 1] == '\n' {
            1int
        } else {
            0
        })
    }
}

/// Whether a line starts at `start` and goes on to character `i` at least.
pub open spec fn in_line(s: Seq<char>, start: int, i: int) -> bool {
    &&& 0 <= start <= i < s.len()
    &&& start == 0 || s[start - 1] == '\n'
    &&& forall|k: int| start <= k <= i ==> #[trigger] s[k] != '\n'
}

proof fn lemma_line_end(s: Seq<char>)
    ensures
        region::line_end(s) <= s.len(),
        forall|k: int| 0 <= k < region::line_end(s) ==> #[trigger] s[k] != '\n',
        region::line_end(s) < s.len() ==> s[region::line_end(s) as int] == '\n',
    decreases s.len(),
{
    if s.len() > 0 && s[0] != '\n' {
        let t = s.drop_first();
        lemma_line_end(t);
        assert forall|k: int| 0 <= k < region::line_end(s) implies #[trigger] s[k] != '\n' by {
            if k > 0 {
                assert(t[k - 1] != '\n');
            }
        }
        if region::line_end(s) < s.len() {
            assert(t[region::line_end(t) as int] == s[region::line_end(s) as int]);
        }
    }
}

/// Line feeds behind the first line.
proof fn lemma_breaks_behind(s: Seq<char>, n: int, m: int)
    requires
        0 <= n < m <= s.len(),
        s[n] == '\n',
        forall|k: int| 0 <= k < n ==> #[trigger] s[k] != '\n',
    ensures
        breaks(s, m) == 1 + breaks(s.skip(n + 1), m - n - 1),
    decreases m,
{
    if m == n + 1 {
        lemma_no_breaks(s, n);
    } else {
        lemma_breaks_behind(s, n, m - 1);
        assert(s.skip(n + 1)[m - n - 2] == s[m - 1]);
    }
}

proof fn lemma_no_breaks(s: Seq<char>, n: int)
    requires
        0 <= n <= s.len(),
        forall|k: int| 0 <= k < n ==> #[trigger] s[k] != '\n',
    ensures
        breaks(s, n) == 0,
    decreases n,
{
    if n > 0 {
        lemma_no_breaks(s, n - 1);
    }
}

/// Each character of a text stands in the line of its own, at its own place, but for a carriage
/// return before a line feed.
pub proof fn law_characters_keep_their_places(s: Seq<char>, start: int, i: int)
    requires
        in_line(s, start, i),
        s[i] != '\r' || i + 1 == s.len() || s[i + 1] != '\n',
    ensures
        0 <= breaks(s, start) < region::lines_of(s).len(),
        i - start < region::lines_of(s)[breaks(s, start)].len(),
        region::lines_of(s)[breaks(s, start)][i - start] == s[i],
    decreases s.len(),
{
    let n = region::line_end(s) as int;
    lemma_line_end(s);
    if start == 0 {
        if n < s.len() {
            assert(n > i);
            let first = region::chomp(s.take(n));
            assert(s.take(n)[i] == s[i]);
            assert(region::lines_of(s)[0] == first);
            if s.take(n).last() == '\r' {
                assert(s.take(n).last() == s[n - 1]);
                assert(i < n - 1) by {
                    if i == n - 1 {
                        assert(s[i + 1] == s[n]);
                    }
                }
            }
        }
    } else {
        assert(n <= start - 1);
        let t = s.skip(n + 1);
        let u = start - n - 1;
        assert(in_line(t, u, i - n - 1)) by {
            assert(u > 0 ==> t[u - 1] == s[start - 1]);
            assert forall|k: int| u <= k <= i - n - 1 implies #[trigger] t[k] != '\n' by {
                assert(t[k] == s[k + n + 1]);
            }
        }
        assert(t[i - n - 1] == s[i]);
        if i + 1 < s.len() {
            assert(t[i - n] == s[i + 1]);
        }
        law_characters_keep_their_places(t, u, i - n - 1);
        lemma_breaks_behind(s, n, start);
        assert(region::lines_of(s) == seq![region::chomp(s.take(n))] + region::lines_of(t));
    }
}

/// Each character of a line comes from one of the text.
proof fn lemma_line_start(s: Seq<char>, r: int, k: int) -> (start: int)
    requires
        0 <= r < region::lines_of(s).len(),
        0 <= k < region::lines_of(s)[r].len(),
    ensures
        in_line(s, start, start + k),
        breaks(s, start) == r,
        s[start + k] == region::lines_of(s)[r][k],
    decreases s.len(),
{
    let n = region::line_end(s) as int;
    lemma_line_end(s);
    if n >= s.len() {
        assert(region::lines_of(s) == seq![s]);
        0
    } else {
        let t = s.skip(n + 1);
        let first = region::chomp(s.take(n));
        assert(region::lines_of(s) == seq![first] + region::lines_of(t));
        if r == 0 {
            assert(first[k] == s[k]);
            0
        } else {
            let u = lemma_line_start(t, r - 1, k);
            let start = u + n + 1;
            assert(s[start - 1] == '\n') by {
                if u > 0 {
                    assert(t[u - 1] == s[start - 1]);
                }
            }
            assert forall|j: int| start <= j <= start + k implies #[trigger] s[j] != '\n' by {
                assert(t[j - n - 1] == s[j]);
            }
            assert(t[u + k] == s[start + k]);
            lemma_breaks_behind(s, n, start);
            start
        }
    }
}

proof fn lemma_widest(lines: Seq<Seq<char>>)
    ensures
        forall|r: int| 0 <= r < lines.len() ==> (#[trigger] lines[r]).len() <= region::widest(lines),
        region::widest(lines) > 0 ==> exists|r: int|
            0 <= r < lines.len() && (#[trigger] lines[r]).len() == region::widest(lines),
    decreases lines.len(),
{
    if lines.len() > 0 {
        let init = lines.drop_last();
        lemma_widest(init);
        assert forall|r: int| 0 <= r < lines.len() implies (#[trigger] lines[r]).len()
            <= region::widest(lines) by {
            if r < init.len() {
                assert(init[r] == lines[r]);
            }
        }
        if region::widest(lines) > 0 {
            if region::widest(lines) == lines.last().len() {
                assert(lines[lines.len() - 1].len() == region::widest(lines));
            } else {
                let r = choose|r: int|
                    0 <= r < init.len() && (#[trigger] init[r]).len() == region::widest(init);
                assert(lines[r].len() == region::widest(lines));
            }
        }
    }
}

/// How many lines a text has.
proof fn lemma_line_count(s: Seq<char>)
    ensures
        region::lines_of(s).len() == breaks(s, s.len() as int) + (if s.len() > 0 && s[s.len() - 1]
            != '\n' {
            1int
        } else {
            0
        }),
    decreases s.len(),
{
    if s.len() > 0 {
        let n = region::line_end(s) as int;
        lemma_line_end(s);
        if n >= s.len() {
            lemma_no_breaks(s, n);
            assert(s[n - 1] != '\n');
        } else {
            let t = s.skip(n + 1);
            lemma_line_count(t);
            lemma_breaks_behind(s, n, s.len() as int);
            assert(region::lines_of(s) == seq![region::chomp(s.take(n))] + region::lines_of(t));
            if t.len() > 0 {
                assert(t[t.len() - 1] == s[s.len() - 1]);
            }
        }
    }
}

/// The region of an entry stands where the entry says. With a pattern it is as high as the pattern
/// has lines, and just wide enough for all its characters; without one it has the extent that the
/// entry gives.
pub proof fn law_regions_bound_their_patterns(e: EntryModel)
    requires
        e.valid(),
    ensures
        e.region().x == e.x,
        e.region().y == e.y,
        e.region().owner == e.owner,
        e.pattern is None ==> e.region().w == e.w && e.region().h == e.h,
        e.pattern matches Some(s) ==> e.region().h == breaks(s, s.len() as int) + (if s.len() > 0
            && s[s.len() - 1] != '\n' {
            1int
        } else {
            0
        }),
        e.pattern matches Some(s) ==> forall|start: int, i: int| #[trigger]
            in_line(s, start, i) && s[i] != '\r' ==> i - start < e.region().w && breaks(s, start)
                < e.region().h,
        e.pattern matches Some(s) ==> e.region().w > 0 ==> exists|start: int, i: int| #[trigger]
            in_line(s, start, i) && i - start == e.region().w - 1,
{
    if let Some(s) = e.pattern {
        let lines = region::lines_of(s);
        lemma_line_count(s);
        lemma_widest(lines);
        assert forall|start: int, i: int| #[trigger] in_line(s, start, i) && s[i] != '\r' implies i
            - start < e.region().w && breaks(s, start) < e.region().h by {
            law_characters_keep_their_places(s, start, i);
            assert(lines[breaks(s, start)].len() <= region::widest(lines));
        }
        if e.region().w > 0 {
            let r = choose|r: int|
                0 <= r < lines.len() && (#[trigger] lines[r]).len() == region::widest(lines);
            let k = lines[r].len() - 1;
            let start = lemma_line_start(s, r, k);
            assert(in_line(s, start, start + k));
        }
    }
}

/// Each character of a pattern sets one cell, as many cells to the right of the first as there are
/// characters before it in its line, and as many below as there are lines before: `#` to alive, `.`
/// to dead, and a space leaves it as it is. Frozen cells stay as they are.
pub proof fn law_characters_set_cells(
    w: WorldState,
    e: EntryModel,
    s: Seq<char>,
    start: int,
    i: int,
)
    requires
        e.pattern == Some(s),
        in_line(s, start, i),
        s[i] == '#' || s[i] == '.' || s[i] == ' ',
        -0x8000_0000 <= (e.x + i - start) / 64 <= 0x7fff_ffff,
        -0x8000_0000 <= (e.y + breaks(s, start)) / 64 <= 0x7fff_ffff,
        !w.oscillators.contains_key(
            (((e.x + i - start) / 64) as i32, ((e.y + breaks(s, start)) / 64) as i32),
        ),
    ensures
        w.seeded(e).alive(e.x + i - start, e.y + breaks(s, start)) == (if w.frozen(
            e.x + i - start,
            e.y + breaks(s, start),
        ) || s[i] == ' ' {
            w.alive(e.x + i - start, e.y + breaks(s, start))
        } else {
            s[i] == '#'
        }),
{
    let x = e.x + i - start;
    let y = e.y + breaks(s, start);
    law_characters_keep_their_places(s, start, i);
    lemma_widest(region::lines_of(s));
    assert(world::addressable(x, y));
    play::law_regions_set_cells(w, e, x, y);
    let r = breaks(s, start);
    assert(region::lines_of(s)[r].len() <= region::widest(region::lines_of(s)));
    assert(e.lines() == region::lines_of(s));
    assert(e.cells()(x, y));
    assert(e.skips(x, y) == (s[i] == ' '));
    assert(e.lit()(x, y) == (s[i] == '#'));
}

/// A region changes no cell outside its rectangle. One with the FROZEN flag freezes all cells in
/// it, and one without freezes none. What was frozen stays so.
pub proof fn law_regions_stay_within(w: WorldState, e: EntryModel, x: int, y: int)
    requires
        e.valid(),
        -0x8000_0000 <= x / 64 <= 0x7fff_ffff,
        -0x8000_0000 <= y / 64 <= 0x7fff_ffff,
        !w.oscillators.contains_key(((x / 64) as i32, (y / 64) as i32)),
    ensures
        ({
            let r = e.region();
            let inside = r.x <= x < r.x + r.w && r.y <= y < r.y + r.h;
            &&& !inside ==> w.seeded(e).alive(x, y) == w.alive(x, y)
            &&& e.pattern is None ==> w.seeded(e).alive(x, y) == w.alive(x, y)
            &&& w.seeded(e).frozen(x, y) == (w.frozen(x, y) || (inside && r.flags & 1 != 0))
        }),
{
    assert(world::addressable(x, y));
    play::law_regions_set_cells(w, e, x, y);
}

/// The flags of an entry are those that it names: `frozen`, `locked` and `owned`.
pub proof fn law_flags_are_named(names: Seq<Seq<char>>)
    ensures
        region::flags_named(names) & 1 != 0 <==> names.contains("frozen"@),
        region::flags_named(names) & 2 != 0 <==> names.contains("locked"@),
        region::flags_named(names) & 4 != 0 <==> names.contains("owned"@),
        region::all_known(names) <==> forall|i: int|
            0 <= i < names.len() ==> #[trigger] names[i] == "frozen"@ || names[i] == "locked"@
                || names[i] == "owned"@,
    decreases names.len(),
{
    reveal_strlit("frozen");
    reveal_strlit("locked");
    reveal_strlit("owned");
    assert("frozen"@[0] == 'f' && "locked"@[0] == 'l' && "owned"@[0] == 'o');
    if names.len() > 0 {
        let init = names.drop_last();
        let last = names.last();
        law_flags_are_named(init);
        let f = region::flags_named(init);
        assert((f | 1) & 1 != 0 && (f | 1) & 2 == f & 2 && (f | 1) & 4 == f & 4 && (f | 2) & 2 != 0
            && (f | 2) & 1 == f & 1 && (f | 2) & 4 == f & 4 && (f | 4) & 4 != 0 && (f | 4) & 1 == f
            & 1 && (f | 4) & 2 == f & 2) by (bit_vector);
        assert(names =~= init.push(last));
        crate::sort::lemma_push_contains(init, last);
        assert forall|i: int| 0 <= i < init.len() implies init[i] == #[trigger] names[i] by {}
        assert(names[names.len() - 1] == last);
    } else {
        assert(0u8 & 1 == 0 && 0u8 & 2 == 0 && 0u8 & 4 == 0) by (bit_vector);
    }
}

/// The locked chunks are those that hold a cell of a region with the LOCKED flag.
pub proof fn law_locked_chunks_hold_locked_cells(regions: Seq<Region>, c: ChunkCoord)
    requires
        forall|i: int|
            0 <= i < regions.len() && (#[trigger] regions[i]).flags & 2 != 0 ==> -0x8000_0000
                <= regions[i].x as int / 64 && (regions[i].x + regions[i].w) / 64 <= 0x7fff_ffff
                && -0x8000_0000 <= regions[i].y as int / 64 && (regions[i].y + regions[i].h) / 64
                <= 0x7fff_ffff,
    ensures
        region::locked(regions, c) <==> exists|i: int, x: int, y: int|
            #![trigger cell_of(regions[i], x, y)]
            0 <= i < regions.len() && regions[i].flags & 2 != 0 && cell_of(regions[i], x, y) && x
                / 64 == c.0 && y / 64 == c.1,
{
    if region::locked(regions, c) {
        let i = choose|i: int|
            0 <= i < regions.len() && (#[trigger] regions[i]).flags & 2 != 0 && region::spans(
                regions[i],
                c,
            );
        let r = regions[i];
        let x = if r.x > 64 * c.0 {
            r.x as int
        } else {
            64 * c.0
        };
        let y = if r.y > 64 * c.1 {
            r.y as int
        } else {
            64 * c.1
        };
        assert(cell_of(regions[i], x, y));
    }
    if exists|i: int, x: int, y: int|
        #![trigger cell_of(regions[i], x, y)]
        0 <= i < regions.len() && regions[i].flags & 2 != 0 && cell_of(regions[i], x, y) && x / 64
            == c.0 && y / 64 == c.1 {
        let (i, x, y) = choose|i: int, x: int, y: int|
            #![trigger cell_of(regions[i], x, y)]
            0 <= i < regions.len() && regions[i].flags & 2 != 0 && cell_of(regions[i], x, y) && x
                / 64 == c.0 && y / 64 == c.1;
        let r = regions[i];
        assert(regions[i].flags & 2 != 0);
        assert(r.x as int / 64 <= x / 64 <= (r.x + r.w - 1) / 64);
        assert(r.y as int / 64 <= y / 64 <= (r.y + r.h - 1) / 64);
        assert(region::spans(r, c));
    }
}

/// Whether cell `(x, y)` lies in the rectangle of the region.
pub open spec fn cell_of(r: Region, x: int, y: int) -> bool {
    r.x <= x < r.x + r.w && r.y <= y < r.y + r.h
}

/// Regions are seeded one after the other, in their order.
pub proof fn law_regions_are_seeded_in_order(w: WorldState, es: Seq<EntryModel>, e: EntryModel)
    ensures
        w.seeded_all(Seq::empty()) == w,
        w.seeded_all(es.push(e)) == w.seeded_all(es).seeded(e),
{
    assert(es.push(e).drop_last() =~= es);
}

/// Before regions are seeded, all cells of chunks that are awake are let go, and stay as they are.
pub proof fn law_thawing_keeps_cells(w: WorldState, x: int, y: int)
    ensures
        w.thawed().alive(x, y) == w.alive(x, y),
        !w.oscillators.contains_key(((x / 64) as i32, (y / 64) as i32)) ==> !w.thawed().frozen(
            x,
            y,
        ),
        w.thawed().oscillators == w.oscillators,
        w.thawed().owned == w.owned,
        w.thawed().tick == w.tick,
{
    let c = world::home_coord(x, y);
    assert(w.thawed().chunks.contains_key(c) == w.chunks.contains_key(c));
}

/// Seeding leaves a world sound: frozen cells are pinned to what they are, so that they stay so.
pub proof fn law_seeding_stays_sound(w: WorldState, e: EntryModel)
    requires
        w.sound(),
        w.oscillators == Map::<ChunkCoord, Paused>::empty(),
    ensures
        w.seeded(e).sound(),
        w.seeded(e).oscillators == w.oscillators,
        w.seeded(e).owned == w.owned,
        w.seeded(e).tick == w.tick,
{
    let mid = if e.pattern is Some {
        w.stamped(e.painted(), e.lit())
    } else {
        w
    };
    if e.pattern is Some {
        w.lemma_stamped_cells(e.painted(), e.lit());
        assert forall|c: ChunkCoord| #[trigger] mid.chunks.contains_key(c) implies
            mid.chunks[c].pins_hold() by {
            let o = world::lookup(w.chunks, c);
            let m = mid.chunks[c];
            assert(world::stamps(o, c, e.painted(), e.lit(), m));
            assert forall|i: int, j: int|
                0 <= i < 64 && 0 <= j < 64 && m.frozen_at(i, j) implies m.cell(i, j)
                == #[trigger] m.pinned_at(i, j) by {
                assert(o.frozen_at(i, j));
                assert(w.chunks.contains_key(c));
                assert(o.cell(i, j) == o.pinned_at(i, j));
            }
        }
    }
    let next = w.seeded(e);
    if region::flags_named(e.flags) & 1 != 0 {
        mid.lemma_pinned_cells(e.cells());
        assert forall|c: ChunkCoord| #[trigger] next.chunks.contains_key(c) implies
            next.chunks[c].pins_hold() by {
            let m = world::lookup(mid.chunks, c);
            let n = next.chunks[c];
            assert(world::pins(m, c, e.cells(), n));
            assert forall|i: int, j: int|
                0 <= i < 64 && 0 <= j < 64 && n.frozen_at(i, j) implies n.cell(i, j)
                == #[trigger] n.pinned_at(i, j) by {
                if m.frozen_at(i, j) {
                    assert(mid.chunks.contains_key(c));
                    assert(m.cell(i, j) == m.pinned_at(i, j));
                }
            }
        }
    }
}

/// What an entry says is what it holds; without flags it has none, without an owner that is user
/// zero, and without an extent that is none.
pub proof fn law_entries_say_all(e: RegionEntry)
    ensures
        e@.x == e.origin[0],
        e@.y == e.origin[1],
        e@.owner == (match e.owner {
            Some(o) => o,
            None => 0,
        }),
        e@.w == (match e.w {
            Some(w) => w,
            None => 0,
        }),
        e@.h == (match e.h {
            Some(h) => h,
            None => 0,
        }),
        match e.pattern {
            Some(p) => e@.pattern == Some(p@),
            None => e@.pattern is None,
        },
        match e.flags {
            Some(v) => e@.flags.len() == v@.len() && forall|i: int|
                0 <= i < v@.len() ==> #[trigger] e@.flags[i] == v@[i]@,
            None => e@.flags.len() == 0,
        },
{
}

/// Whether character `i` of a text may stand in a pattern: `#`, `.`, a space, a line feed, or a
/// carriage return before one.
pub open spec fn allowed(s: Seq<char>, i: int) -> bool {
    ||| s[i] == '#'
    ||| s[i] == '.'
    ||| s[i] == ' '
    ||| s[i] == '\n'
    ||| s[i] == '\r' && i + 1 < s.len() && s[i + 1] == '\n'
}

/// A pattern is accepted exactly if all its characters are.
pub proof fn law_patterns_are_checked(s: Seq<char>)
    ensures
        region::clean(region::lines_of(s)) <==> forall|i: int| 0 <= i < s.len() ==> allowed(s, i),
    decreases s.len(),
{
    let lines = region::lines_of(s);
    if s.len() == 0 {
        assert(region::clean(lines));
    } else {
        let n = region::line_end(s) as int;
        lemma_line_end(s);
        if n >= s.len() {
            assert(lines =~= seq![s]);
            assert forall|i: int| 0 <= i < s.len() implies allowed(s, i) == region::pattern_char(
                #[trigger] s[i],
            ) by {}
            if region::clean(lines) {
                assert forall|i: int| 0 <= i < s.len() implies allowed(s, i) by {
                    assert(region::pattern_char(lines[0][i]));
                }
            }
            if forall|i: int| 0 <= i < s.len() ==> allowed(s, i) {
                assert forall|r: int, k: int|
                    0 <= r < lines.len() && 0 <= k < lines[r].len() implies region::pattern_char(
                    #[trigger] lines[r][k],
                ) by {
                    assert(allowed(s, k));
                }
            }
        } else {
            let t = s.skip(n + 1);
            let first = region::chomp(s.take(n));
            let rest = region::lines_of(t);
            law_patterns_are_checked(t);
            assert(lines == seq![first] + rest);
            assert forall|i: int| 0 <= i < t.len() implies #[trigger] allowed(t, i) == allowed(
                s,
                i + n + 1,
            ) by {
                assert(t[i] == s[i + n + 1]);
                if i + 1 < t.len() {
                    assert(t[i + 1] == s[i + n + 2]);
                }
            }
            assert forall|i: int| 0 <= i < first.len() implies #[trigger] first[i] == s[i] by {}
            if region::clean(lines) {
                assert forall|r: int, k: int|
                    0 <= r < rest.len() && 0 <= k < rest[r].len() implies region::pattern_char(
                    #[trigger] rest[r][k],
                ) by {
                    assert(lines[r + 1][k] == rest[r][k]);
                    assert(region::pattern_char(lines[r + 1][k]));
                }
                assert(region::clean(rest));
                assert forall|i: int| 0 <= i < s.len() implies allowed(s, i) by {
                    if i < first.len() {
                        assert(region::pattern_char(lines[0][i]));
                    } else if i < n {
                        assert(i == n - 1 && s.take(n).last() == s[i]);
                    } else if i > n {
                        assert(allowed(t, i - n - 1));
                    }
                }
            }
            if forall|i: int| 0 <= i < s.len() ==> allowed(s, i) {
                assert forall|i: int| 0 <= i < t.len() implies allowed(t, i) by {
                    assert(allowed(s, i + n + 1));
                }
                assert(region::clean(rest));
                assert forall|r: int, k: int|
                    0 <= r < lines.len() && 0 <= k < lines[r].len() implies region::pattern_char(
                    #[trigger] lines[r][k],
                ) by {
                    if r == 0 {
                        assert(allowed(s, k));
                        assert(s[k] != '\n');
                        if s[k] == '\r' {
                            assert(k + 1 == n);
                            assert(s.take(n).last() == s[k]);
                        }
                    } else {
                        assert(lines[r][k] == rest[r - 1][k]);
                        assert(region::pattern_char(rest[r - 1][k]));
                    }
                }
            }
        }
    }
}

/// An entry is accepted exactly if all its flags have names that are known, its pattern is
/// accepted, its extent can be written in four bytes each way, and its cells, where it changes any,
/// lie in the coordinate range.
pub proof fn law_entries_are_checked(e: EntryModel)
    ensures
        e.valid() <==> {
            let w = e.width();
            let h = e.height();
            &&& forall|i: int|
                0 <= i < e.flags.len() ==> #[trigger] e.flags[i] == "frozen"@ || e.flags[i]
                    == "locked"@ || e.flags[i] == "owned"@
            &&& e.pattern matches Some(s) ==> forall|i: int| 0 <= i < s.len() ==> allowed(s, i)
            &&& w <= 0xffff_ffff && h <= 0xffff_ffff
            &&& (e.pattern is Some || e.flags.contains("frozen"@)) && w > 0 && h > 0
                ==> -0x8000_0000 <= e.x as int / 64 <= 0x7fff_ffff && -0x8000_0000 <= e.y as int
                / 64 <= 0x7fff_ffff && -0x8000_0000 <= (e.x + w - 1) / 64 <= 0x7fff_ffff
                && -0x8000_0000 <= (e.y + h - 1) / 64 <= 0x7fff_ffff
        },
{
    law_flags_are_named(e.flags);
    if let Some(s) = e.pattern {
        law_patterns_are_checked(s);
    }
}

/// What is wrong with an entry is the first of these: a flag without a known name, the first such;
/// a character that may not stand in a pattern; cells out of range.
pub proof fn law_faults_are_named(e: EntryModel, name: Seq<char>)
    ensures
        e.faulty(RegionFault::UnknownFlag(name)) <==> exists|i: int|
            0 <= i < e.flags.len() && #[trigger] e.flags[i] == name && name != "frozen"@ && name
                != "locked"@ && name != "owned"@ && forall|j: int|
                0 <= j < i ==> #[trigger] e.flags[j] == "frozen"@ || e.flags[j] == "locked"@
                    || e.flags[j] == "owned"@,
        e.faulty(RegionFault::OutOfRange) ==> region::all_known(e.flags) && region::clean(e.lines()),
        e.valid() ==> !e.faulty(RegionFault::OutOfRange) && !e.faulty(
            RegionFault::UnknownFlag(name),
        ),
{
    reveal_strlit("frozen");
    reveal_strlit("locked");
    reveal_strlit("owned");
    assert("frozen"@[0] == 'f' && "locked"@[0] == 'l' && "owned"@[0] == 'o');
    assert forall|n: Seq<char>| #[trigger] region::flag_named(n) is Some <==> n == "frozen"@ || n
        == "locked"@ || n == "owned"@ by {}
    if e.faulty(RegionFault::UnknownFlag(name)) {
        let i = choose|i: int|
            0 <= i < e.flags.len() && #[trigger] e.flags[i] == name && region::flag_named(
                name,
            ) is None && forall|j: int|
                0 <= j < i ==> region::flag_named(#[trigger] e.flags[j]) is Some;
        assert(e.flags[i] == name);
        assert forall|j: int| 0 <= j < i implies #[trigger] e.flags[j] == "frozen"@ || e.flags[j]
            == "locked"@ || e.flags[j] == "owned"@ by {
            assert(region::flag_named(e.flags[j]) is Some);
        }
    }
    if exists|i: int|
        0 <= i < e.flags.len() && #[trigger] e.flags[i] == name && name != "frozen"@ && name
            != "locked"@ && name != "owned"@ && forall|j: int|
            0 <= j < i ==> #[trigger] e.flags[j] == "frozen"@ || e.flags[j] == "locked"@
                || e.flags[j] == "owned"@ {
        let i = choose|i: int|
            0 <= i < e.flags.len() && #[trigger] e.flags[i] == name && name != "frozen"@ && name
                != "locked"@ && name != "owned"@ && forall|j: int|
                0 <= j < i ==> #[trigger] e.flags[j] == "frozen"@ || e.flags[j] == "locked"@
                    || e.flags[j] == "owned"@;
        assert(e.flags[i] == name);
        assert(region::flag_named(name) is None);
        assert forall|j: int| 0 <= j < i implies region::flag_named(#[trigger] e.flags[j]) is Some by {
            assert(e.flags[j] == "frozen"@ || e.flags[j] == "locked"@ || e.flags[j] == "owned"@);
        }
        assert(region::first_unknown(e.flags, name));
    }
}

/// Every character that is no line feed stands in a line.
proof fn lemma_start_of(s: Seq<char>, j: int) -> (start: int)
    requires
        0 <= j < s.len(),
        s[j] != '\n',
    ensures
        in_line(s, start, j),
    decreases j,
{
    if j == 0 || s[j - 1] == '\n' {
        j
    } else {
        let start = lemma_start_of(s, j - 1);
        assert forall|k: int| start <= k <= j implies #[trigger] s[k] != '\n' by {
            if k < j {
                assert(start <= k <= j - 1);
            }
        }
        start
    }
}

/// More line feeds come before a later line.
proof fn lemma_breaks_grow(s: Seq<char>, a: int, b: int)
    requires
        0 <= a < b <= s.len(),
        s[b - 1] == '\n',
    ensures
        breaks(s, a) < breaks(s, b),
    decreases b - a,
{
    lemma_breaks_monotone(s, a, b - 1);
}

proof fn lemma_breaks_monotone(s: Seq<char>, a: int, b: int)
    requires
        0 <= a <= b,
    ensures
        breaks(s, a) <= breaks(s, b),
    decreases b - a,
{
    if a < b {
        lemma_breaks_monotone(s, a, b - 1);
    }
}

/// The character that a pattern is refused for is the first in it that may not stand there.
pub proof fn law_first_stray_is_named(s: Seq<char>, c: char)
    requires
        region::first_stray(region::lines_of(s), c),
    ensures
        exists|i: int|
            0 <= i < s.len() && s[i] == c && !(#[trigger] allowed(s, i)) && forall|j: int|
                0 <= j < i ==> allowed(s, j),
{
    let lines = region::lines_of(s);
    let (r, k) = choose|r: int, k: int|
        {
            &&& 0 <= r < lines.len()
            &&& 0 <= k < lines[r].len()
            &&& #[trigger] lines[r][k] == c
            &&& !region::pattern_char(c)
            &&& forall|j: int| 0 <= j < k ==> region::pattern_char(#[trigger] lines[r][j])
            &&& forall|q: int, j: int|
                0 <= q < r && 0 <= j < lines[q].len() ==> region::pattern_char(
                    #[trigger] lines[q][j],
                )
        };
    let start = lemma_line_start(s, r, k);
    let i = start + k;
    assert(!allowed(s, i)) by {
        if s[i] == '\r' && i + 1 < s.len() && s[i + 1] == '\n' {
            lemma_no_return(s, r, k, start);
        }
    }
    assert forall|j: int| 0 <= j < i implies allowed(s, j) by {
        if s[j] != '\n' && !allowed(s, j) {
            let u = lemma_start_of(s, j);
            law_characters_keep_their_places(s, u, j);
            let q = breaks(s, u);
            assert(lines[q][j - u] == s[j]);
            if u < start {
                lemma_breaks_grow(s, u, start);
                assert(region::pattern_char(lines[q][j - u]));
            } else if u == start {
                assert(region::pattern_char(lines[r][j - u]));
            } else {
                assert(start <= u - 1 <= i);
                assert(s[u - 1] != '\n');
            }
        }
    }
}

/// No line has the carriage return that stands before its line feed.
proof fn lemma_no_return(s: Seq<char>, r: int, k: int, start: int)
    requires
        0 <= r < region::lines_of(s).len(),
        0 <= k < region::lines_of(s)[r].len(),
        in_line(s, start, start + k),
        breaks(s, start) == r,
        start + k + 1 < s.len(),
        s[start + k + 1] == '\n',
    ensures
        s[start + k] != '\r',
    decreases s.len(),
{
    let n = region::line_end(s) as int;
    lemma_line_end(s);
    assert(n <= start + k + 1);
    let t = s.skip(n + 1);
    let first = region::chomp(s.take(n));
    assert(region::lines_of(s) == seq![first] + region::lines_of(t));
    if start <= n {
        assert(start == 0) by {
            if start > 0 {
                assert(s[start - 1] == '\n');
            }
        }
        assert(n == k + 1);
        assert(s.take(n).last() == s[k]);
    } else {
        lemma_breaks_behind(s, n, start);
        let u = start - n - 1;
        assert(in_line(t, u, u + k)) by {
            assert(u > 0 ==> t[u - 1] == s[start - 1]);
            assert forall|j: int| u <= j <= u + k implies #[trigger] t[j] != '\n' by {
                assert(t[j] == s[j + n + 1]);
            }
        }
        assert(t[u + k] == s[start + k] && t[u + k + 1] == s[start + k + 1]);
        lemma_breaks_monotone(t, 0, u);
        lemma_no_return(t, r - 1, k, u);
    }
}

/// The pattern and the extent of an entry are faulted only where all of its flags have known names,
/// and its extent only where its pattern has no character that may not stand in one.
pub proof fn law_flags_are_checked_first(e: EntryModel, c: char, i: int)
    requires
        0 <= i < e.flags.len(),
    ensures
        e.faulty(RegionFault::BadPattern(c)) || e.faulty(RegionFault::OutOfRange) ==> e.flags[i]
            == "frozen"@ || e.flags[i] == "locked"@ || e.flags[i] == "owned"@,
        e.faulty(RegionFault::BadPattern(c)) ==> e.pattern is Some && region::first_stray(
            region::lines_of(e.pattern->0),
            c,
        ),
        e.faulty(RegionFault::BadPattern(c)) ==> !e.faulty(RegionFault::OutOfRange),
{
    if e.faulty(RegionFault::BadPattern(c)) || e.faulty(RegionFault::OutOfRange) {
        assert(region::flag_named(e.flags[i]) is Some);
    }
}

/// Whether `mask` has the cell `(x, y)` of the plane, and it lies in chunk `c`.
pub open spec fn has_in(mask: spec_fn(int, int) -> bool, c: ChunkCoord, x: int, y: int) -> bool {
    &&& 64 * c.0 <= x < 64 * c.0 + 64
    &&& 64 * c.1 <= y < 64 * c.1 + 64
    &&& mask(x, y)
}

proof fn lemma_has_in(mask: spec_fn(int, int) -> bool, c: ChunkCoord)
    ensures
        world::covers(mask, c) <==> exists|x: int, y: int| has_in(mask, c, x, y),
{
    if world::covers(mask, c) {
        let (i, j) = choose|i: int, j: int|
            0 <= i < 64 && 0 <= j < 64 && #[trigger] world::in_mask(mask, c, i, j);
        assert(has_in(mask, c, 64 * c.0 + i, 64 * c.1 + j));
    }
    if exists|x: int, y: int| has_in(mask, c, x, y) {
        let (x, y) = choose|x: int, y: int| has_in(mask, c, x, y);
        let i = x - 64 * c.0;
        let j = y - 64 * c.1;
        assert(64 * c.0 + i == x && 64 * c.1 + j == y);
        assert(world::in_mask(mask, c, i, j));
    }
}

/// Setting or freezing cells makes a chunk wherever one of the cells lies, and nowhere else.
pub proof fn law_chunks_are_made_for_cells(
    w: WorldState,
    mask: spec_fn(int, int) -> bool,
    on: spec_fn(int, int) -> bool,
    c: ChunkCoord,
)
    ensures
        w.stamped(mask, on).chunks.contains_key(c) <==> w.chunks.contains_key(c) || exists|
            x: int,
            y: int,
        |
            has_in(mask, c, x, y),
        w.pinned(mask).chunks.contains_key(c) <==> w.chunks.contains_key(c) || exists|
            x: int,
            y: int,
        |
            has_in(mask, c, x, y),
        w.pinned(mask).chunks.contains_key(c) ==> (w.pinned(mask).chunks[c].frozen is Some <==> (
        w.chunks.contains_key(c) && w.chunks[c].frozen is Some) || exists|x: int, y: int|
            has_in(mask, c, x, y)),
{
    w.lemma_stamped_cells(mask, on);
    w.lemma_pinned_cells(mask);
    lemma_has_in(mask, c);
}

} // verus!
