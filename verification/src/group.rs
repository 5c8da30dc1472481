//! Groups of live chunks that touch each other across their sides and corners.

use crate::coord::{ChunkCoord, CoordMap};
use crate::sort;
use crate::world;
use crate::world::{World, WorldState};
use vstd::prelude::*;

verus! {

impl WorldState {
    /// Whether a live cell of chunk `c` lies next to chunk `d`.
    pub open spec fn leans(self, c: ChunkCoord, d: ChunkCoord) -> bool {
        &&& self.chunks.contains_key(c)
        &&& self.chunks[c].touches(d.0 - c.0, d.1 - c.1)
    }

    /// Whether `c` and `d` are neighbors of which one has a live cell next to the other.
    pub open spec fn linked(self, c: ChunkCoord, d: ChunkCoord) -> bool {
        world::adjacent(c, d) && (self.leans(c, d) || self.leans(d, c))
    }

    /// Whether `path` leads from `seed` to `c` over linked neighbors.
    pub open spec fn leads(self, path: Seq<ChunkCoord>, seed: ChunkCoord, c: ChunkCoord) -> bool {
        &&& path.len() > 0
        &&& path[0] == seed
        &&& path.last() == c
        &&& forall|i: int|
            #![trigger path[i]]
            0 < i < path.len() ==> self.linked(path[i - 1], path[i])
    }

    /// Whether `c` hangs together with `seed`.
    pub open spec fn joined(self, seed: ChunkCoord, c: ChunkCoord) -> bool {
        exists|path: Seq<ChunkCoord>| self.leads(path, seed, c)
    }

    /// Whether `c` can be in a group: it is live, not watched, and not at the edge of the
    /// coordinate space.
    pub open spec fn groupable(self, watched: Set<ChunkCoord>, c: ChunkCoord) -> bool {
        self.chunks.contains_key(c) && !watched.contains(c) && world::interior(c)
    }

    /// `group` is all that hangs together with `seed`: more than one chunk and at most `max`, all
    /// of which can be in a group.
    pub open spec fn groups(
        self,
        watched: Set<ChunkCoord>,
        seed: ChunkCoord,
        max: nat,
        group: Seq<ChunkCoord>,
    ) -> bool {
        &&& group.no_duplicates()
        &&& forall|c: ChunkCoord| #[trigger] group.contains(c) <==> self.joined(seed, c)
        &&& forall|c: ChunkCoord| #[trigger] group.contains(c) ==> self.groupable(watched, c)
        &&& 1 < group.len() <= max
    }
}

/// The links reach from what hangs together to their neighbors.
pub proof fn lemma_joined_on(w: WorldState, seed: ChunkCoord, c: ChunkCoord, d: ChunkCoord)
    requires
        w.joined(seed, c),
        w.linked(c, d),
    ensures
        w.joined(seed, d),
{
    let path = choose|path: Seq<ChunkCoord>| w.leads(path, seed, c);
    let more = path.push(d);
    assert forall|i: int| #![trigger more[i]] 0 < i < more.len() implies w.linked(
        more[i - 1],
        more[i],
    ) by {
        if i < path.len() {
            assert(w.linked(path[i - 1], path[i]));
        }
    }
    assert(w.leads(more, seed, d));
}

/// What holds the seed and with every chunk its linked neighbors holds all that hangs together.
pub proof fn lemma_closed(w: WorldState, seed: ChunkCoord, c: ChunkCoord, set: Set<ChunkCoord>)
    requires
        w.joined(seed, c),
        set.contains(seed),
        forall|a: ChunkCoord, b: ChunkCoord|
            set.contains(a) && #[trigger] w.linked(a, b) ==> set.contains(b),
    ensures
        set.contains(c),
{
    let path = choose|path: Seq<ChunkCoord>| w.leads(path, seed, c);
    lemma_path_closed(w, path, set, path.len() - 1);
}

proof fn lemma_path_closed(w: WorldState, path: Seq<ChunkCoord>, set: Set<ChunkCoord>, n: int)
    requires
        0 <= n < path.len(),
        set.contains(path[0]),
        forall|i: int|
            #![trigger path[i]]
            0 < i < path.len() ==> w.linked(path[i - 1], path[i]),
        forall|a: ChunkCoord, b: ChunkCoord|
            set.contains(a) && #[trigger] w.linked(a, b) ==> set.contains(b),
    ensures
        set.contains(path[n]),
    decreases n,
{
    if n > 0 {
        lemma_path_closed(w, path, set, n - 1);
        assert(w.linked(path[n - 1], path[n]));
    }
}

/// A sequence without duplicates is no longer than one that has all its items.
proof fn lemma_no_longer(a: Seq<ChunkCoord>, b: Seq<ChunkCoord>)
    requires
        a.no_duplicates(),
        forall|c: ChunkCoord| #[trigger] a.contains(c) ==> b.contains(c),
    ensures
        a.len() <= b.len(),
{
    a.unique_seq_to_set();
    b.lemma_cardinality_of_set();
    vstd::seq_lib::seq_to_set_is_finite(b);
    assert(a.to_set().subset_of(b.to_set())) by {
        assert forall|c: ChunkCoord| a.to_set().contains(c) implies #[trigger] b.to_set().contains(
            c,
        ) by {
            assert(a.contains(c));
        }
    }
    vstd::set_lib::lemma_len_subset(a.to_set(), b.to_set());
}

/// A chunk that cannot be in a group leaves all that hangs together with it without one.
proof fn lemma_no_group(
    w: WorldState,
    watched: Set<ChunkCoord>,
    seed: ChunkCoord,
    max: nat,
    c: ChunkCoord,
)
    requires
        w.joined(seed, c),
        !w.groupable(watched, c),
    ensures
        forall|g: Seq<ChunkCoord>| !#[trigger] w.groups(watched, seed, max, g),
{
    assert forall|g: Seq<ChunkCoord>| !#[trigger] w.groups(watched, seed, max, g) by {
        if w.groups(watched, seed, max, g) {
            assert(g.contains(c));
        }
    }
}

/// Where too much hangs together there is no group.
proof fn lemma_too_many(
    w: WorldState,
    watched: Set<ChunkCoord>,
    seed: ChunkCoord,
    max: nat,
    some: Seq<ChunkCoord>,
)
    requires
        some.no_duplicates(),
        some.len() > max,
        forall|c: ChunkCoord| #[trigger] some.contains(c) ==> w.joined(seed, c),
    ensures
        forall|g: Seq<ChunkCoord>| !#[trigger] w.groups(watched, seed, max, g),
{
    assert forall|g: Seq<ChunkCoord>| !#[trigger] w.groups(watched, seed, max, g) by {
        if w.groups(watched, seed, max, g) {
            assert forall|c: ChunkCoord| #[trigger] some.contains(c) implies g.contains(c) by {
                assert(w.joined(seed, c));
            }
            lemma_no_longer(some, g);
        }
    }
}

/// Push the linked neighbors of a live chunk that were not visited.
fn push_linked(
    world: &World,
    coord: ChunkCoord,
    visited: &CoordMap<()>,
    stack: &mut Vec<ChunkCoord>,
)
    requires
        world@.chunks.contains_key(coord),
        world::interior(coord),
    ensures
        forall|d: ChunkCoord| #[trigger]
            old(stack)@.contains(d) ==> final(stack)@.contains(d),
        forall|d: ChunkCoord| #[trigger]
            final(stack)@.contains(d) ==> old(stack)@.contains(d) || world@.linked(coord, d),
        forall|d: ChunkCoord| #[trigger]
            world@.linked(coord, d) ==> visited@.contains_key(d) || final(stack)@.contains(d),
{
    let ghost w = world@;
    let ghost start = stack@;
    let mut k: i32 = 0;
    while k < 9
        invariant
            0 <= k <= 9,
            w == world@,
            w.chunks.contains_key(coord),
            world::interior(coord),
            forall|d: ChunkCoord| #[trigger] start.contains(d) ==> stack@.contains(d),
            forall|d: ChunkCoord| #[trigger]
                stack@.contains(d) ==> start.contains(d) || w.linked(coord, d),
            forall|d: ChunkCoord| #[trigger]
                w.linked(coord, d) && 3 * (d.0 - coord.0 + 1) + (d.1 - coord.1 + 1) < k ==> (
                visited@.contains_key(d) || stack@.contains(d)),
        decreases 9 - k,
    {
        let dx = k / 3 - 1;
        let dy = k % 3 - 1;
        let nb = (coord.0 + dx, coord.1 + dy);
        let ghost before = stack@;
        if k != 4 && !visited.contains_key(&nb) {
            let out = match world.get_live_chunk(coord) {
                Some(ch) => ch.has_edge_toward(dx, dy),
                None => false,
            };
            let back = match world.get_live_chunk(nb) {
                Some(ch) => ch.has_edge_toward(-dx, -dy),
                None => false,
            };
            assert(world::adjacent(coord, nb));
            assert((out || back) == w.linked(coord, nb));
            if out || back {
                stack.push(nb);
                proof {
                    sort::lemma_push_contains(before, nb);
                }
            }
        }
        proof {
            assert forall|d: ChunkCoord| #[trigger]
                w.linked(coord, d) && 3 * (d.0 - coord.0 + 1) + (d.1 - coord.1 + 1) < k
                    + 1 implies visited@.contains_key(d) || stack@.contains(d) by {
                if 3 * (d.0 - coord.0 + 1) + (d.1 - coord.1 + 1) == k {
                    assert(d == nb);
                }
            }
        }
        k = k + 1;
    }
}

/// Flood-fill the set of live chunks that interact with `seed` via live cells on their sides.
/// Returns `None` if no group (>1 member) is found, if it is larger than `max_group`, or if a
/// subscribed chunk or one that is not live would be included.
pub fn collect_group(
    seed: ChunkCoord,
    world: &World,
    subscribed: &CoordMap<()>,
    max_group: usize,
) -> (r: Option<Vec<ChunkCoord>>)
    ensures
        match r {
            Some(g) => world@.groups(subscribed@.dom(), seed, max_group as nat, g@),
            None => forall|g: Seq<ChunkCoord>|
                !#[trigger] world@.groups(subscribed@.dom(), seed, max_group as nat, g),
        },
{
    let ghost w = world@;
    let ghost watched = subscribed@.dom();
    let ghost max = max_group as nat;
    let mut group: Vec<ChunkCoord> = Vec::new();
    let mut visited: CoordMap<()> = CoordMap::new();
    let mut stack: Vec<ChunkCoord> = Vec::new();
    stack.push(seed);
    proof {
        assert(w.leads(seq![seed], seed, seed));
        assert forall|c: ChunkCoord| #[trigger] stack@.contains(c) implies c == seed by {}
        assert(stack@[0] == seed);
        assert(stack@.contains(seed));
    }
    while stack.len() > 0
        invariant
            w == world@,
            watched == subscribed@.dom(),
            max == max_group,
            group@.no_duplicates(),
            group@.len() <= max,
            forall|c: ChunkCoord| #[trigger] visited@.contains_key(c) <==> group@.contains(c),
            forall|c: ChunkCoord| #[trigger] group@.contains(c) ==> w.joined(seed, c),
            forall|c: ChunkCoord| #[trigger] group@.contains(c) ==> w.groupable(watched, c),
            forall|c: ChunkCoord| #[trigger] stack@.contains(c) ==> w.joined(seed, c),
            forall|c: ChunkCoord, d: ChunkCoord|
                group@.contains(c) && #[trigger] w.linked(c, d) ==> group@.contains(d)
                    || stack@.contains(d),
            group@.contains(seed) || stack@.contains(seed),
        decreases max - group@.len(), stack@.len(),
    {
        let ghost s0 = stack@;
        let coord = match stack.pop() {
            Some(c) => c,
            None => {
                return None;
            },
        };
        proof {
            assert(s0 == stack@.push(coord));
            sort::lemma_push_contains(stack@, coord);
            assert(s0.contains(coord));
            assert forall|c: ChunkCoord| #[trigger] stack@.contains(c) implies w.joined(
                seed,
                c,
            ) by {
                assert(s0.contains(c));
            }
        }
        if !visited.contains_key(&coord) {
            let live = world.get_live_chunk(coord).is_some();
            let inside = coord.0 > i32::MIN && coord.0 < i32::MAX && coord.1 > i32::MIN && coord.1
                < i32::MAX;
            if subscribed.contains_key(&coord) || !live || !inside {
                proof {
                    lemma_no_group(w, watched, seed, max, coord);
                }
                return None;
            }
            let ghost g0 = group@;
            proof {
                sort::lemma_push_contains(g0, coord);
                sort::lemma_push_distinct(g0, coord);
            }
            if group.len() >= max_group {
                proof {
                    lemma_too_many(w, watched, seed, max, g0.push(coord));
                }
                return None;
            }
            visited.insert(coord, ());
            group.push(coord);
            let ghost s1 = stack@;
            push_linked(world, coord, &visited, &mut stack);
            proof {
                assert forall|c: ChunkCoord| #[trigger] stack@.contains(c) implies w.joined(
                    seed,
                    c,
                ) by {
                    if !s1.contains(c) {
                        lemma_joined_on(w, seed, coord, c);
                    }
                }
                assert forall|c: ChunkCoord, d: ChunkCoord|
                    group@.contains(c) && #[trigger] w.linked(c, d) implies group@.contains(d)
                    || stack@.contains(d) by {
                    if c != coord {
                        assert(g0.contains(c));
                        assert(g0.contains(d) || s0.contains(d));
                    }
                }
            }
        }
    }
    proof {
        let set = group@.to_set();
        assert forall|a: ChunkCoord, b: ChunkCoord|
            set.contains(a) && #[trigger] w.linked(a, b) implies set.contains(b) by {
            assert(group@.contains(a));
        }
        assert forall|c: ChunkCoord| #[trigger] group@.contains(c) <==> w.joined(seed, c) by {
            if w.joined(seed, c) {
                lemma_closed(w, seed, c, set);
            }
        }
    }
    if group.len() <= 1 {
        proof {
            assert forall|g: Seq<ChunkCoord>| !#[trigger] w.groups(watched, seed, max, g) by {
                if w.groups(watched, seed, max, g) {
                    assert forall|c: ChunkCoord| #[trigger] g.contains(c) implies group@.contains(
                        c,
                    ) by {
                        assert(w.joined(seed, c));
                    }
                    lemma_no_longer(g, group@);
                }
            }
        }
        return None;
    }
    Some(group)
}

} // verus!
