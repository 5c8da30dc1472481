//! Region registry: turns region entries into the wire-shape [`Region`] list and seeds the
//! world with them, and answers which chunks are locked and who may edit a cell.
//!
//! Regions are rectangular and carry independent flags (`FROZEN`, `LOCKED`,
//! `OWNED`). The optional `pattern` text initialises the live cells inside the
//! region using `#` (alive), `.` (dead) and ` ` (skip).

use crate::coord::{ChunkCoord, CoordMap};
use crate::protocol::{Region, FLAG_FROZEN, FLAG_LOCKED, FLAG_OWNED};
use crate::world;
use crate::world::{World, WorldState};
use crate::{CHUNK_SIZE, CHUNK_SIZE_I64};
use vstd::prelude::*;

verus! {

/// One region as it is configured.
#[derive(Debug)]
pub struct RegionEntry {
    pub origin: [i64; 2],
    pub flags: Option<Vec<String>>,
    pub owner: Option<u32>,
    /// Optional pattern that seeds live cells inside the region.
    /// `#` = alive, `.` = dead, ` ` = skip: the cell stays as it is. Cells of the region beyond
    /// the end of a line are dead.
    /// The pattern's bounding box also defines the region's `w` x `h`.
    pub pattern: Option<String>,
    /// If `pattern` is omitted, `w` and `h` define the region's extent directly.
    pub w: Option<u32>,
    pub h: Option<u32>,
}

/// What a [`RegionEntry`] says.
pub struct EntryModel {
    pub x: i64,
    pub y: i64,
    pub flags: Seq<Seq<char>>,
    pub owner: u32,
    pub pattern: Option<Seq<char>>,
    pub w: u32,
    pub h: u32,
}

/// Why region entries cannot be used.
#[derive(Debug, PartialEq, Eq)]
pub enum RegionError {
    /// A flag other than `frozen`, `locked` or `owned`.
    UnknownFlag(String),
    /// A pattern character other than `#`, `.` or space.
    BadPattern(char),
    /// The region has cells outside the coordinate range, or too many.
    OutOfRange,
}

/// What a [`RegionError`] says.
pub enum RegionFault {
    UnknownFlag(Seq<char>),
    BadPattern(char),
    OutOfRange,
}

impl View for RegionError {
    type V = RegionFault;

    open spec fn view(&self) -> RegionFault {
        match *self {
            RegionError::UnknownFlag(s) => RegionFault::UnknownFlag(s@),
            RegionError::BadPattern(c) => RegionFault::BadPattern(c),
            RegionError::OutOfRange => RegionFault::OutOfRange,
        }
    }
}

impl View for RegionEntry {
    type V = EntryModel;

    open spec fn view(&self) -> EntryModel {
        EntryModel {
            x: self.origin[0],
            y: self.origin[1],
            flags: match self.flags {
                Some(v) => v@.map_values(|s: String| s@),
                None => Seq::empty(),
            },
            owner: match self.owner {
                Some(o) => o,
                None => 0,
            },
            pattern: match self.pattern {
                Some(p) => Some(p@),
                None => None,
            },
            w: match self.w {
                Some(w) => w,
                None => 0,
            },
            h: match self.h {
                Some(h) => h,
                None => 0,
            },
        }
    }
}

// Flags.

/// The flag of a name.
pub open spec fn flag_named(name: Seq<char>) -> Option<u8> {
    if name == "frozen"@ {
        Some(FLAG_FROZEN)
    } else if name == "locked"@ {
        Some(FLAG_LOCKED)
    } else if name == "owned"@ {
        Some(FLAG_OWNED)
    } else {
        None
    }
}

/// All flags of the names together; names of no flag count for nothing.
pub open spec fn flags_named(names: Seq<Seq<char>>) -> u8
    decreases names.len(),
{
    if names.len() == 0 {
        0
    } else {
        let f = flags_named(names.drop_last());
        match flag_named(names.last()) {
            Some(g) => f | g,
            None => f,
        }
    }
}

/// `name` is the first of the names that is that of no flag.
pub open spec fn first_unknown(names: Seq<Seq<char>>, name: Seq<char>) -> bool {
    exists|i: int|
        0 <= i < names.len() && #[trigger] names[i] == name && flag_named(name) is None && forall|
            j: int,
        |
            0 <= j < i ==> flag_named(#[trigger] names[j]) is Some
}

/// Whether every name is that of a flag.
pub open spec fn all_known(names: Seq<Seq<char>>) -> bool {
    forall|i: int| 0 <= i < names.len() ==> flag_named(#[trigger] names[i]) is Some
}

fn flag_of(name: &String) -> (f: Option<u8>)
    ensures
        f == flag_named(name@),
{
    if *name == "frozen".to_owned() {
        Some(FLAG_FROZEN)
    } else if *name == "locked".to_owned() {
        Some(FLAG_LOCKED)
    } else if *name == "owned".to_owned() {
        Some(FLAG_OWNED)
    } else {
        None
    }
}

/// All flags of the names together.
pub fn parse_flags(names: &Vec<String>) -> (r: Result<u8, RegionError>)
    ensures
        ({
            let s = names@.map_values(|n: String| n@);
            match r {
                Ok(f) => all_known(s) && f == flags_named(s),
                Err(RegionError::UnknownFlag(n)) => first_unknown(s, n@),
                Err(_) => false,
            }
        }),
{
    let ghost s = names@.map_values(|n: String| n@);
    let mut f: u8 = 0;
    let mut i: usize = 0;
    assert(s.take(0) =~= Seq::<Seq<char>>::empty());
    while i < names.len()
        invariant
            i <= names.len(),
            s == names@.map_values(|n: String| n@),
            f == flags_named(s.take(i as int)),
            forall|j: int| 0 <= j < i ==> flag_named(#[trigger] s[j]) is Some,
        decreases names.len() - i,
    {
        assert(s[i as int] == names@[i as int]@);
        match flag_of(&names[i]) {
            Some(g) => {
                f = f | g;
            },
            None => {
                return Err(RegionError::UnknownFlag(names[i].clone()));
            },
        }
        proof {
            assert(s.take(i + 1).drop_last() =~= s.take(i as int));
            assert(s.take(i + 1).last() == s[i as int]);
        }
        i = i + 1;
    }
    assert(s.take(i as int) =~= s);
    Ok(f)
}

// Patterns.

/// Characters before the first line feed.
pub open spec fn line_end(s: Seq<char>) -> nat
    decreases s.len(),
{
    if s.len() == 0 || s[0] == '\n' {
        0
    } else {
        1 + line_end(s.drop_first())
    }
}

/// A line without the carriage return that stands before its line feed.
pub open spec fn chomp(s: Seq<char>) -> Seq<char> {
    if s.len() > 0 && s.last() == '\r' {
        s.drop_last()
    } else {
        s
    }
}

/// The lines of a text, as `str::lines` splits it: each ends with a line feed or a carriage
/// return and a line feed; nothing behind the last line feed is no line.
pub open spec fn lines_of(s: Seq<char>) -> Seq<Seq<char>>
    decreases s.len(),
{
    if s.len() == 0 {
        Seq::empty()
    } else {
        let n = line_end(s);
        if n >= s.len() {
            seq![s]
        } else {
            seq![chomp(s.take(n as int))] + lines_of(s.skip(n as int + 1))
        }
    }
}

/// The length of the longest line.
pub open spec fn widest(lines: Seq<Seq<char>>) -> nat
    decreases lines.len(),
{
    if lines.len() == 0 {
        0
    } else {
        let w = widest(lines.drop_last());
        if w < lines.last().len() {
            lines.last().len()
        } else {
            w
        }
    }
}

/// Whether a character may stand in a pattern.
pub open spec fn pattern_char(c: char) -> bool {
    c == '#' || c == '.' || c == ' '
}

/// Whether all characters of all lines may stand in a pattern.
pub open spec fn clean(lines: Seq<Seq<char>>) -> bool {
    forall|r: int, k: int|
        0 <= r < lines.len() && 0 <= k < lines[r].len() ==> pattern_char(#[trigger] lines[r][k])
}

/// `c` is the first character, line by line, that may not stand in a pattern.
pub open spec fn first_stray(lines: Seq<Seq<char>>, c: char) -> bool {
    exists|r: int, k: int|
        {
            &&& 0 <= r < lines.len()
            &&& 0 <= k < lines[r].len()
            &&& #[trigger] lines[r][k] == c
            &&& !pattern_char(c)
            &&& forall|j: int| 0 <= j < k ==> pattern_char(#[trigger] lines[r][j])
            &&& forall|q: int, j: int|
                0 <= q < r && 0 <= j < lines[q].len() ==> pattern_char(#[trigger] lines[q][j])
        }
}

/// The characters of a text.
fn chars_of(p: &str) -> (v: Vec<char>)
    ensures
        v@ == p@,
{
    let mut v: Vec<char> = Vec::new();
    for c in it: p.chars()
        invariant
            it.seq() == p@,
            v@ =~= p@.take(it.index() as int),
    {
        v.push(c);
    }
    v
}

proof fn lemma_line_end(cur: Seq<char>, rest: Seq<char>)
    requires
        forall|i: int| 0 <= i < cur.len() ==> cur[i] != '\n',
    ensures
        line_end(cur + rest) == cur.len() + line_end(rest),
    decreases cur.len(),
{
    if cur.len() > 0 {
        lemma_line_end(cur.drop_first(), rest);
        assert((cur + rest).drop_first() =~= cur.drop_first() + rest);
    } else {
        assert(cur + rest =~= rest);
    }
}

/// The lines of a text.
fn split_lines(p: &str) -> (r: Vec<Vec<char>>)
    ensures
        r@.map_values(|l: Vec<char>| l@) == lines_of(p@),
{
    let s = chars_of(p);
    let ghost view = |l: Vec<char>| l@;
    let mut r: Vec<Vec<char>> = Vec::new();
    let mut cur: Vec<char> = Vec::new();
    let mut i: usize = 0;
    proof {
        assert(cur@ + s@.skip(0) =~= s@);
        assert(r@.map_values(view) + lines_of(s@) =~= lines_of(s@));
    }
    while i < s.len()
        invariant
            i <= s.len(),
            view == (|l: Vec<char>| l@),
            forall|j: int| 0 <= j < cur@.len() ==> cur@[j] != '\n',
            lines_of(s@) == r@.map_values(view) + lines_of(cur@ + s@.skip(i as int)),
        decreases s.len() - i,
    {
        let c = s[i];
        let ghost rest = s@.skip(i as int);
        if c == '\n' {
            proof {
                lemma_line_end(cur@, rest);
                assert(line_end(rest) == 0);
                assert((cur@ + rest).take(cur@.len() as int) =~= cur@);
                assert((cur@ + rest).skip(cur@.len() as int + 1) =~= s@.skip(i + 1));
            }
            let ghost line = cur@;
            let ghost before = r@;
            if cur.len() > 0 && cur[cur.len() - 1] == '\r' {
                cur.pop();
            }
            assert(cur@ == chomp(line));
            r.push(cur);
            cur = Vec::new();
            proof {
                assert(cur@ + s@.skip(i + 1) =~= s@.skip(i + 1));
                assert(r@.map_values(view) =~= before.map_values(view).push(chomp(line)));
                assert(before.map_values(view) + (seq![chomp(line)] + lines_of(s@.skip(i + 1)))
                    =~= r@.map_values(view) + lines_of(s@.skip(i + 1)));
            }
        } else {
            let ghost before = cur@;
            cur.push(c);
            assert(before + rest =~= cur@ + s@.skip(i + 1));
        }
        i = i + 1;
    }
    proof {
        assert(cur@ + s@.skip(i as int) =~= cur@);
        if cur@.len() > 0 {
            lemma_line_end(cur@, Seq::empty());
            assert(cur@ + Seq::<char>::empty() =~= cur@);
        }
    }
    if cur.len() > 0 {
        let ghost before = r@;
        let ghost line = cur@;
        r.push(cur);
        assert(r@.map_values(view) =~= before.map_values(view) + seq![line]);
    } else {
        assert(r@.map_values(view) + lines_of(cur@) =~= r@.map_values(view));
    }
    r
}

/// Check the characters of a pattern.
fn check_lines(lines: &Vec<Vec<char>>) -> (r: Result<(), RegionError>)
    ensures
        ({
            let s = lines@.map_values(|l: Vec<char>| l@);
            match r {
                Ok(_) => clean(s),
                Err(RegionError::BadPattern(c)) => first_stray(s, c),
                Err(_) => false,
            }
        }),
{
    let ghost s = lines@.map_values(|l: Vec<char>| l@);
    let mut i: usize = 0;
    while i < lines.len()
        invariant
            i <= lines.len(),
            s == lines@.map_values(|l: Vec<char>| l@),
            forall|q: int, j: int|
                0 <= q < i && 0 <= j < s[q].len() ==> pattern_char(#[trigger] s[q][j]),
        decreases lines.len() - i,
    {
        let line = &lines[i];
        assert(s[i as int] == line@);
        let mut k: usize = 0;
        while k < line.len()
            invariant
                i < lines.len(),
                k <= line.len(),
                s == lines@.map_values(|l: Vec<char>| l@),
                s[i as int] == line@,
                forall|j: int| 0 <= j < k ==> pattern_char(#[trigger] s[i as int][j]),
                forall|q: int, j: int|
                    0 <= q < i && 0 <= j < s[q].len() ==> pattern_char(#[trigger] s[q][j]),
            decreases line.len() - k,
        {
            let c = line[k];
            if c != '#' && c != '.' && c != ' ' {
                assert(s[i as int][k as int] == c);
                return Err(RegionError::BadPattern(c));
            }
            k = k + 1;
        }
        i = i + 1;
    }
    Ok(())
}

/// The length of the longest line.
fn max_width(lines: &Vec<Vec<char>>) -> (w: usize)
    ensures
        w == widest(lines@.map_values(|l: Vec<char>| l@)),
{
    let ghost s = lines@.map_values(|l: Vec<char>| l@);
    let mut w: usize = 0;
    let mut i: usize = 0;
    while i < lines.len()
        invariant
            i <= lines.len(),
            s == lines@.map_values(|l: Vec<char>| l@),
            w == widest(s.take(i as int)),
        decreases lines.len() - i,
    {
        proof {
            assert(s.take(i + 1).drop_last() =~= s.take(i as int));
            assert(s.take(i + 1).last() == lines@[i as int]@);
        }
        if w < lines[i].len() {
            w = lines[i].len();
        }
        i = i + 1;
    }
    assert(s.take(i as int) =~= s);
    w
}

// Entries.

/// The cells of a rectangle.
pub open spec fn rect(x: int, y: int, w: int, h: int) -> spec_fn(int, int) -> bool {
    |u: int, v: int| x <= u < x + w && y <= v < y + h
}

impl EntryModel {
    pub open spec fn lines(self) -> Seq<Seq<char>> {
        match self.pattern {
            Some(p) => lines_of(p),
            None => Seq::empty(),
        }
    }

    /// Width of the region.
    pub open spec fn width(self) -> int {
        if self.pattern is Some {
            widest(self.lines()) as int
        } else {
            self.w as int
        }
    }

    /// Height of the region.
    pub open spec fn height(self) -> int {
        if self.pattern is Some {
            self.lines().len() as int
        } else {
            self.h as int
        }
    }

    pub open spec fn cells(self) -> spec_fn(int, int) -> bool {
        rect(self.x as int, self.y as int, self.width(), self.height())
    }

    /// Where the pattern has a live cell.
    pub open spec fn lit(self) -> spec_fn(int, int) -> bool {
        |u: int, v: int|
            {
                let r = v - self.y;
                let k = u - self.x;
                0 <= r < self.lines().len() && 0 <= k < self.lines()[r].len() && self.lines()[r][k]
                    == '#'
            }
    }

    /// Whether the pattern has a space for the cell.
    pub open spec fn skips(self, u: int, v: int) -> bool {
        let r = v - self.y;
        let k = u - self.x;
        0 <= r < self.lines().len() && 0 <= k < self.lines()[r].len() && self.lines()[r][k] == ' '
    }

    /// The cells that the pattern sets: all of the region but those it skips.
    pub open spec fn painted(self) -> spec_fn(int, int) -> bool {
        |u: int, v: int| self.cells()(u, v) && !self.skips(u, v)
    }

    pub open spec fn region(self) -> Region {
        Region {
            x: self.x,
            y: self.y,
            w: self.width() as u32,
            h: self.height() as u32,
            flags: flags_named(self.flags),
            owner: self.owner,
        }
    }

    /// Whether the region changes cells of the world.
    pub open spec fn paints(self) -> bool {
        self.pattern is Some || flags_named(self.flags) & FLAG_FROZEN != 0
    }

    /// Whether the extent of the region can be told on the wire, and its cells can be changed
    /// where it changes any.
    pub open spec fn in_range(self) -> bool {
        &&& self.width() <= u32::MAX
        &&& self.height() <= u32::MAX
        &&& self.paints() && self.width() > 0 && self.height() > 0 ==> world::addressable(
            self.x as int,
            self.y as int,
        ) && world::addressable(self.x + self.width() - 1, self.y + self.height() - 1)
    }

    /// Whether the entry can be used.
    pub open spec fn valid(self) -> bool {
        all_known(self.flags) && clean(self.lines()) && self.in_range()
    }

    /// Whether `f` is what is wrong with the entry.
    pub open spec fn faulty(self, f: RegionFault) -> bool {
        match f {
            RegionFault::UnknownFlag(n) => first_unknown(self.flags, n),
            RegionFault::BadPattern(c) => all_known(self.flags) && first_stray(self.lines(), c),
            RegionFault::OutOfRange => all_known(self.flags) && clean(self.lines())
                && !self.in_range(),
        }
    }
}

impl WorldState {
    /// The world with the cells of a region set by its pattern, and frozen if it says so.
    pub open spec fn seeded(self, e: EntryModel) -> WorldState {
        let w = if e.pattern is Some {
            self.stamped(e.painted(), e.lit())
        } else {
            self
        };
        if flags_named(e.flags) & FLAG_FROZEN != 0 {
            w.pinned(e.cells())
        } else {
            w
        }
    }

    /// The world with all regions seeded, one after the other.
    pub open spec fn seeded_all(self, es: Seq<EntryModel>) -> WorldState
        decreases es.len(),
    {
        if es.len() == 0 {
            self
        } else {
            self.seeded_all(es.drop_last()).seeded(es.last())
        }
    }
}

/// An entry that was checked, with its pattern taken apart.
struct Parsed {
    region: Region,
    lines: Option<Vec<Vec<char>>>,
}

impl Parsed {
    spec fn of(self, e: EntryModel) -> bool {
        &&& self.region == e.region()
        &&& self.lines is Some <==> e.pattern is Some
        &&& self.lines matches Some(l) ==> l@.map_values(|l: Vec<char>| l@) == e.lines()
    }
}

/// Whether a corner of a rectangle lies in a chunk that has coordinates.
fn corner_in_range(x: i128, y: i128) -> (b: bool)
    ensures
        b == world::addressable(x as int, y as int),
{
    let lo: i128 = -0x8000_0000 * 64;
    let hi: i128 = 0x8000_0000 * 64;
    lo <= x && x < hi && lo <= y && y < hi
}

/// Check one entry.
fn parse_entry(e: &RegionEntry) -> (r: Result<Parsed, RegionError>)
    ensures
        match r {
            Ok(p) => e@.valid() && p.of(e@),
            Err(f) => !e@.valid() && e@.faulty(f@),
        },
{
    let flags = match &e.flags {
        Some(names) => match parse_flags(names) {
            Ok(f) => f,
            Err(f) => {
                proof {
                    let n = f@->UnknownFlag_0;
                    assert(first_unknown(e@.flags, n));
                    assert(!all_known(e@.flags));
                }
                return Err(f);
            },
        },
        None => 0,
    };
    assert(all_known(e@.flags) && flags == flags_named(e@.flags));
    let lines = match &e.pattern {
        Some(p) => Some(split_lines(p.as_str())),
        None => None,
    };
    let (w, h) = match &lines {
        Some(l) => {
            if let Err(f) = check_lines(l) {
                assert(!clean(e@.lines()));
                return Err(f);
            }
            (max_width(l) as u64, l.len() as u64)
        },
        None => (
            match e.w {
                Some(w) => w as u64,
                None => 0,
            },
            match e.h {
                Some(h) => h as u64,
                None => 0,
            },
        ),
    };
    assert(clean(e@.lines()));
    assert(w == e@.width() && h == e@.height()) by {
        if let Some(l) = lines {
            assert(l@.map_values(|l: Vec<char>| l@).len() == l@.len());
        }
    }
    let (x, y) = (e.origin[0], e.origin[1]);
    if w > u32::MAX as u64 || h > u32::MAX as u64 {
        return Err(RegionError::OutOfRange);
    }
    if (lines.is_some() || flags & FLAG_FROZEN != 0) && w > 0 && h > 0 {
        let x1: i128 = x as i128 + w as i128 - 1;
        let y1: i128 = y as i128 + h as i128 - 1;
        if !corner_in_range(x as i128, y as i128) || !corner_in_range(x1, y1) {
            return Err(RegionError::OutOfRange);
        }
    }
    let owner = match e.owner {
        Some(o) => o,
        None => 0,
    };
    Ok(Parsed { region: Region { x, y, w: w as u32, h: h as u32, flags, owner }, lines })
}

/// Seed the world with one region.
fn seed(world: &mut World, p: &Parsed, Ghost(e): Ghost<EntryModel>)
    requires
        old(world)@.wf(),
        e.valid(),
        p.of(e),
    ensures
        final(world)@.wf(),
        final(world)@ == old(world)@.seeded(e),
{
    let r = p.region;
    proof {
        assert forall|u: int, v: int|
            e.paints() && r.x <= u < r.x + r.w && r.y <= v < r.y + r.h implies
            #[trigger] world::addressable(u, v) by {
            assert(world::addressable(r.x as int, r.y as int));
            assert(world::addressable(r.x + r.w - 1, r.y + r.h - 1));
        }
    }
    if let Some(lines) = &p.lines {
        stamp(world, &r, lines, Ghost(e));
    }
    if r.flags & FLAG_FROZEN != 0 {
        let ghost before = world@;
        world.freeze_rect(r.x, r.y, r.w, r.h);
        assert(e.cells() =~= (|u: int, v: int| r.x <= u < r.x + r.w && r.y <= v < r.y + r.h));
    }
}

/// Set the cells of a region by its pattern.
fn stamp(world: &mut World, r: &Region, lines: &Vec<Vec<char>>, Ghost(e): Ghost<EntryModel>)
    requires
        old(world)@.wf(),
        e.valid(),
        e.pattern is Some,
        *r == e.region(),
        lines@.map_values(|l: Vec<char>| l@) == e.lines(),
        forall|u: int, v: int|
            r.x <= u < r.x + r.w && r.y <= v < r.y + r.h ==> #[trigger] world::addressable(u, v),
    ensures
        final(world)@.wf(),
        final(world)@ == old(world)@.stamped(e.painted(), e.lit()),
{
    let ghost w0 = world@;
    let ghost on = e.lit();
    let ghost mut p: spec_fn(int, int) -> bool = |u: int, v: int| false;
    proof {
        assert(world::stamps_all(w0.chunks, p, on, world@.chunks));
    }
    let mut j: u32 = 0;
    while j < r.h
        invariant
            j <= r.h,
            on == e.lit(),
            *r == e.region(),
            e.valid(),
            e.pattern is Some,
            lines@.map_values(|l: Vec<char>| l@) == e.lines(),
            lines@.len() == r.h,
            forall|u: int, v: int|
                r.x <= u < r.x + r.w && r.y <= v < r.y + r.h ==> #[trigger] world::addressable(
                    u,
                    v,
                ),
            forall|u: int, v: int| #[trigger]
                p(u, v) == (r.x <= u < r.x + r.w && r.y <= v < r.y + j && !e.skips(u, v)),
            world::stamps_all(w0.chunks, p, on, world@.chunks),
            world@ == (WorldState { chunks: world@.chunks, ..w0 }),
        decreases r.h - j,
    {
        let line = &lines[j as usize];
        assert(e.lines()[j as int] == line@);
        let mut i: u32 = 0;
        while i < r.w
            invariant
                i <= r.w,
                j < r.h,
                on == e.lit(),
                *r == e.region(),
                e.valid(),
                line@ == e.lines()[j as int],
                e.lines().len() == r.h,
                forall|u: int, v: int|
                    r.x <= u < r.x + r.w && r.y <= v < r.y + r.h ==> #[trigger] world::addressable(
                        u,
                        v,
                    ),
                forall|u: int, v: int| #[trigger]
                    p(u, v) == (((r.x <= u < r.x + r.w && r.y <= v < r.y + j) || (v == r.y + j
                        && r.x <= u < r.x + i)) && !e.skips(u, v)),
                world::stamps_all(w0.chunks, p, on, world@.chunks),
                world@ == (WorldState { chunks: world@.chunks, ..w0 }),
            decreases r.w - i,
        {
            proof {
                assert(world::addressable(r.x + i, r.y + j));
            }
            let x: i64 = r.x + i as i64;
            let y: i64 = r.y + j as i64;
            let skip = (i as usize) < line.len() && line[i as usize] == ' ';
            assert(skip == e.skips(x as int, y as int));
            if !skip {
                let alive = (i as usize) < line.len() && line[i as usize] == '#';
                let ghost before = world@.chunks;
                world.set_cell(x, y, alive);
                proof {
                    assert(alive == on(x as int, y as int));
                    let q: spec_fn(int, int) -> bool = |u: int, v: int|
                        p(u, v) || (u == x && v == y);
                    world::lemma_stamp_one(
                        w0.chunks,
                        before,
                        world@.chunks,
                        p,
                        q,
                        on,
                        x as int,
                        y as int,
                    );
                    p = q;
                }
            }
            i = i + 1;
        }
        j = j + 1;
    }
    proof {
        assert(p =~= e.painted());
        w0.lemma_stamped(e.painted(), on, world@);
    }
}

/// Seed the world with all regions, and return the wire-form region list. Regions are the sole
/// source of truth for frozen cells: any that the world has are let go first. Nothing is changed
/// where an entry cannot be used.
pub fn load(world: &mut World, entries: &Vec<RegionEntry>) -> (r: Result<Vec<Region>, RegionError>)
    requires
        old(world)@.wf(),
    ensures
        final(world)@.wf(),
        ({
            let es = entries@.map_values(|e: RegionEntry| e@);
            match r {
                Ok(v) => {
                    &&& forall|i: int| 0 <= i < es.len() ==> (#[trigger] es[i]).valid()
                    &&& final(world)@ == old(world)@.thawed().seeded_all(es)
                    &&& v@ == es.map_values(|e: EntryModel| e.region())
                },
                Err(f) => {
                    &&& final(world)@ == old(world)@
                    &&& exists|i: int|
                        0 <= i < es.len() && (#[trigger] es[i]).faulty(f@) && !es[i].valid()
                            && forall|j: int| 0 <= j < i ==> (#[trigger] es[j]).valid()
                },
            }
        }),
{
    let ghost es = entries@.map_values(|e: RegionEntry| e@);
    let ghost w0 = world@;
    let mut parsed: Vec<Parsed> = Vec::new();
    let mut i: usize = 0;
    while i < entries.len()
        invariant
            i <= entries.len(),
            es == entries@.map_values(|e: RegionEntry| e@),
            world@ == w0,
            w0 == old(world)@,
            w0.wf(),
            parsed@.len() == i,
            forall|j: int| 0 <= j < i ==> (#[trigger] es[j]).valid(),
            forall|j: int| 0 <= j < i ==> (#[trigger] parsed@[j]).of(es[j]),
        decreases entries.len() - i,
    {
        assert(es[i as int] == entries@[i as int]@);
        match parse_entry(&entries[i]) {
            Ok(p) => {
                parsed.push(p);
            },
            Err(f) => {
                return Err(f);
            },
        }
        i = i + 1;
    }
    world.clear_all_frozen();
    let mut out: Vec<Region> = Vec::new();
    let mut k: usize = 0;
    assert(es.take(0) =~= Seq::<EntryModel>::empty());
    while k < parsed.len()
        invariant
            k <= parsed.len(),
            parsed@.len() == es.len(),
            forall|j: int| 0 <= j < es.len() ==> (#[trigger] es[j]).valid(),
            forall|j: int| 0 <= j < es.len() ==> (#[trigger] parsed@[j]).of(es[j]),
            world@.wf(),
            world@ == w0.thawed().seeded_all(es.take(k as int)),
            out@ =~= es.take(k as int).map_values(|e: EntryModel| e.region()),
        decreases parsed.len() - k,
    {
        assert(es[k as int].valid());
        seed(world, &parsed[k], Ghost(es[k as int]));
        out.push(parsed[k].region);
        proof {
            assert(es.take(k + 1).drop_last() =~= es.take(k as int));
            assert(es.take(k + 1).last() == es[k as int]);
            assert(es.take(k + 1) =~= es.take(k as int).push(es[k as int]));
        }
        k = k + 1;
    }
    assert(es.take(k as int) =~= es);
    Ok(out)
}

// Locks.

/// The chunk that holds coordinate `x`, cut to the coordinate range.
pub open spec fn chunk_at(x: int) -> i32 {
    (x / CHUNK_SIZE as int) as i32
}

/// Whether the region has cells, and chunk `c` lies between the chunks of the first and the last.
pub open spec fn spans(r: Region, c: ChunkCoord) -> bool {
    &&& r.w > 0 && r.h > 0
    &&& chunk_at(r.x as int) <= c.0 <= chunk_at(r.x + r.w - 1)
    &&& chunk_at(r.y as int) <= c.1 <= chunk_at(r.y + r.h - 1)
}

/// Whether some locked region spans chunk `c`.
pub open spec fn locked(regions: Seq<Region>, c: ChunkCoord) -> bool {
    exists|i: int|
        0 <= i < regions.len() && (#[trigger] regions[i]).flags & FLAG_LOCKED != 0 && spans(
            regions[i],
            c,
        )
}

/// The chunk that holds coordinate `x`, cut to the coordinate range.
fn chunk_of(x: i64) -> (c: i32)
    ensures
        c == chunk_at(x as int),
{
    let n: i64 = CHUNK_SIZE_I64;
    if x >= 0 {
        (x / n) as i32
    } else {
        (-((-(x + 1)) / n) - 1) as i32
    }
}

/// All chunks touched by regions carrying `FLAG_LOCKED`, for one-way halo isolation.
pub fn locked_chunks(regions: &[Region]) -> (map: CoordMap<()>)
    requires
        forall|i: int|
            0 <= i < regions@.len() && (#[trigger] regions@[i]).flags & FLAG_LOCKED != 0
                ==> i64::MIN <= regions@[i].x + regions@[i].w - 1 <= i64::MAX && i64::MIN
                <= regions@[i].y + regions@[i].h - 1 <= i64::MAX,
    ensures
        forall|c: ChunkCoord| #[trigger] map@.contains_key(c) <==> locked(regions@, c),
{
    let mut map: CoordMap<()> = CoordMap::new();
    let mut i: usize = 0;
    while i < regions.len()
        invariant
            i <= regions@.len(),
            forall|i: int|
                0 <= i < regions@.len() && (#[trigger] regions@[i]).flags & FLAG_LOCKED != 0
                    ==> i64::MIN <= regions@[i].x + regions@[i].w - 1 <= i64::MAX && i64::MIN
                    <= regions@[i].y + regions@[i].h - 1 <= i64::MAX,
            forall|c: ChunkCoord| #[trigger]
                map@.contains_key(c) <==> locked(regions@.take(i as int), c),
        decreases regions@.len() - i,
    {
        let r = regions[i];
        let ghost before = map@;
        if r.flags & FLAG_LOCKED != 0 && r.w > 0 && r.h > 0 {
            assert(regions@[i as int].flags & FLAG_LOCKED != 0);
            let x1: i64 = (r.x as i128 + r.w as i128 - 1) as i64;
            let y1: i64 = (r.y as i128 + r.h as i128 - 1) as i64;
            insert_rect(&mut map, chunk_of(r.x), chunk_of(r.y), chunk_of(x1), chunk_of(y1));
        }
        proof {
            let next = regions@.take(i + 1);
            let prev = regions@.take(i as int);
            assert forall|c: ChunkCoord| #[trigger] map@.contains_key(c) <==> locked(next, c) by {
                if locked(prev, c) {
                    let j = choose|j: int|
                        0 <= j < prev.len() && (#[trigger] prev[j]).flags & FLAG_LOCKED != 0
                            && spans(prev[j], c);
                    assert(next[j] == prev[j]);
                }
                if r.flags & FLAG_LOCKED != 0 && spans(r, c) {
                    assert(next[i as int] == r);
                }
                if locked(next, c) {
                    let j = choose|j: int|
                        0 <= j < next.len() && (#[trigger] next[j]).flags & FLAG_LOCKED != 0
                            && spans(next[j], c);
                    if j < i {
                        assert(prev[j] == next[j]);
                    }
                }
            }
        }
        i = i + 1;
    }
    assert(regions@.take(i as int) =~= regions@);
    map
}

/// Add all coordinates from `(x0, y0)` to `(x1, y1)`, both included.
pub(crate) fn insert_rect(map: &mut CoordMap<()>, x0: i32, y0: i32, x1: i32, y1: i32)
    ensures
        forall|c: ChunkCoord| #[trigger]
            final(map)@.contains_key(c) <==> old(map)@.contains_key(c) || (x0 <= c.0 <= x1 && y0
                <= c.1 <= y1),
{
    let ghost m0 = map@;
    let mut y: i64 = y0 as i64;
    while y <= y1 as i64
        invariant
            y0 <= y,
            y0 <= y1 ==> y <= y1 + 1,
            y0 > y1 ==> y == y0,
            forall|c: ChunkCoord| #[trigger]
                map@.contains_key(c) <==> m0.contains_key(c) || (x0 <= c.0 <= x1 && y0 <= c.1 < y),
        decreases y1 + 1 - y,
    {
        let mut x: i64 = x0 as i64;
        while x <= x1 as i64
            invariant
                x0 <= x,
                x0 <= x1 ==> x <= x1 + 1,
                x0 > x1 ==> x == x0,
                y0 <= y <= y1,
                forall|c: ChunkCoord| #[trigger]
                    map@.contains_key(c) <==> m0.contains_key(c) || (x0 <= c.0 <= x1 && y0 <= c.1
                        < y) || (c.1 == y && x0 <= c.0 < x),
            decreases x1 + 1 - x,
        {
            map.insert((x as i32, y as i32), ());
            x = x + 1;
        }
        y = y + 1;
    }
}

/// Whether cell `(x, y)` lies in the region.
pub open spec fn holds(r: Region, x: int, y: int) -> bool {
    r.x <= x < r.x + r.w && r.y <= y < r.y + r.h
}

/// Whether the region locks cell `(x, y)`.
pub open spec fn locks(r: Region, x: int, y: int) -> bool {
    holds(r, x, y) && r.flags & FLAG_LOCKED != 0
}

/// Whether `editor` may edit cell `(x, y)`: the first region that locks the cell decides. It lets
/// its owner, if it has one.
pub open spec fn may_edit(regions: Seq<Region>, x: int, y: int, editor: Option<u32>) -> bool
    decreases regions.len(),
{
    if regions.len() == 0 {
        true
    } else if locks(regions[0], x, y) {
        regions[0].flags & FLAG_OWNED != 0 && editor == Some(regions[0].owner)
    } else {
        may_edit(regions.drop_first(), x, y, editor)
    }
}

fn contains(r: &Region, x: i64, y: i64) -> (b: bool)
    ensures
        b == holds(*r, x as int, y as int),
{
    x >= r.x && (x as i128) < r.x as i128 + r.w as i128 && y >= r.y && (y as i128) < r.y as i128
        + r.h as i128
}

/// Returns whether `editor_uid` is allowed to edit the cell at `(x, y)`.
/// - No locking region: always allowed.
/// - Static locked region (LOCKED without OWNED): never allowed.
/// - Owned region (LOCKED | OWNED): allowed only for the owner.
pub fn can_edit(regions: &[Region], x: i64, y: i64, editor_uid: Option<u32>) -> (b: bool)
    ensures
        b == may_edit(regions@, x as int, y as int, editor_uid),
{
    let mut i: usize = 0;
    assert(regions@.skip(0) =~= regions@);
    while i < regions.len()
        invariant
            i <= regions@.len(),
            may_edit(regions@, x as int, y as int, editor_uid) == may_edit(
                regions@.skip(i as int),
                x as int,
                y as int,
                editor_uid,
            ),
        decreases regions@.len() - i,
    {
        let r = regions[i];
        proof {
            assert(regions@.skip(i as int)[0] == r);
            assert(regions@.skip(i as int).drop_first() =~= regions@.skip(i + 1));
        }
        if contains(&r, x, y) && r.flags & FLAG_LOCKED != 0 {
            if r.flags & FLAG_OWNED != 0 {
                return match editor_uid {
                    Some(u) => u == r.owner,
                    None => false,
                };
            }
            return false;
        }
        i = i + 1;
    }
    true
}

/// The first region with the LOCKED flag whose rectangle holds cell `(x, y)` decides who may edit
/// it: its owner alone, if it has the OWNED flag, and else nobody.
pub proof fn law_first_lock_decides(
    regions: Seq<Region>,
    x: int,
    y: int,
    editor: Option<u32>,
    k: int,
)
    requires
        0 <= k < regions.len(),
        regions[k].flags & 2 != 0,
        regions[k].x <= x < regions[k].x + regions[k].w,
        regions[k].y <= y < regions[k].y + regions[k].h,
        forall|i: int|
            0 <= i < k ==> !((#[trigger] regions[i]).flags & 2 != 0 && regions[i].x <= x
                < regions[i].x + regions[i].w && regions[i].y <= y < regions[i].y + regions[i].h),
    ensures
        may_edit(regions, x, y, editor) == (regions[k].flags & 4 != 0 && editor == Some(
            regions[k].owner,
        )),
    decreases regions.len(),
{
    if k > 0 {
        let rest = regions.drop_first();
        assert(!locks(regions[0], x, y));
        assert forall|i: int| 0 <= i < k - 1 implies !((#[trigger] rest[i]).flags & 2 != 0
            && rest[i].x <= x < rest[i].x + rest[i].w && rest[i].y <= y < rest[i].y
            + rest[i].h) by {
            assert(rest[i] == regions[i + 1]);
        }
        law_first_lock_decides(rest, x, y, editor, k - 1);
    }
}

/// A cell that lies in the rectangle of no region with the LOCKED flag can be edited by anybody;
/// one that lies in such regions without the OWNED flag only, by nobody; one that lies in such
/// regions of one owner only, by the owner alone.
pub proof fn law_who_may_edit(
    regions: Seq<Region>,
    x: int,
    y: int,
    editor: Option<u32>,
    owner: u32,
)
    ensures
        (forall|i: int|
            0 <= i < regions.len() && (#[trigger] regions[i]).flags & 2 != 0 ==> !(regions[i].x <= x
                < regions[i].x + regions[i].w && regions[i].y <= y < regions[i].y + regions[i].h))
            ==> may_edit(regions, x, y, editor),
        (exists|i: int|
            0 <= i < regions.len() && (#[trigger] regions[i]).flags & 2 != 0 && regions[i].x <= x
                < regions[i].x + regions[i].w && regions[i].y <= y < regions[i].y + regions[i].h)
            && (forall|i: int|
            0 <= i < regions.len() && (#[trigger] regions[i]).flags & 2 != 0 && regions[i].x <= x
                < regions[i].x + regions[i].w && regions[i].y <= y < regions[i].y + regions[i].h
                ==> regions[i].flags & 4 == 0) ==> !may_edit(regions, x, y, editor),
        (exists|i: int|
            0 <= i < regions.len() && (#[trigger] regions[i]).flags & 2 != 0 && regions[i].x <= x
                < regions[i].x + regions[i].w && regions[i].y <= y < regions[i].y + regions[i].h)
            && (forall|i: int|
            0 <= i < regions.len() && (#[trigger] regions[i]).flags & 2 != 0 && regions[i].x <= x
                < regions[i].x + regions[i].w && regions[i].y <= y < regions[i].y + regions[i].h
                ==> regions[i].flags & 4 != 0 && regions[i].owner == owner) ==> may_edit(
            regions,
            x,
            y,
            editor,
        ) == (editor == Some(owner)),
    decreases regions.len(),
{
    if regions.len() > 0 && !locks(regions[0], x, y) {
        let rest = regions.drop_first();
        law_who_may_edit(rest, x, y, editor, owner);
        assert forall|i: int| 0 <= i < rest.len() implies #[trigger] rest[i] == regions[i + 1] by {}
        if exists|i: int| 0 <= i < regions.len() && locks(#[trigger] regions[i], x, y) {
            let i = choose|i: int| 0 <= i < regions.len() && locks(#[trigger] regions[i], x, y);
            assert(rest[i - 1] == regions[i]);
        }
    } else if regions.len() > 0 {
        assert(locks(regions[0], x, y));
    }
}

} // verus!
