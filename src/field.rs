use vstd::prelude::*;

use std::collections::HashMap;
use vstd::std_specs::iter::IteratorSpec;

use crate::entity::{entity_text, parse_entity, Entity, EntityView, UserId};
use crate::errors::ParseError;
use crate::locations::{dist, parse_pos, pos_text, step, Direction, Pos, Size};
use crate::text::{chars_of, halves, halves_chars, is_word, push_str, split_all, split_all_chars, string_of, trim, trim_chars};
use vstd::arithmetic::div_mod::{lemma_div_basics, lemma_div_is_ordered, lemma_div_plus_one, lemma_div_pos_is_pos, lemma_fundamental_div_mod, lemma_fundamental_div_mod_converse, lemma_mod_bound};

verus! {

broadcast use vstd::std_specs::hash::group_hash_axioms;

/// Largest plot side, and largest world side counted in plots.
pub const MAX_SIDE: i32 = 0x1000;

/// Smallest plot side.
pub const MIN_SIDE: i32 = 1;

/// Smallest plot side of a generated world: room for a keep away from the
/// plot's corners.
pub const MIN_GENERATED_SIDE: i32 = 3;

/// Coordinates the geometry works on lie within this distance of the origin.
pub const COORD_LIMIT: i32 = 0x1000_0000;

/// Positions handed to searches that step across plots lie within this
/// distance of the origin, so that every tile they reach is in range.
pub const INNER_LIMIT: i32 = 0x0800_0000;

/// Both coordinates lie within `COORD_LIMIT` of the origin.
pub open spec fn in_range(p: Pos) -> bool {
    -COORD_LIMIT <= p.x <= COORD_LIMIT && -COORD_LIMIT <= p.y <= COORD_LIMIT
}

/// Both coordinates lie within `INNER_LIMIT` of the origin.
pub open spec fn in_bounds(p: Pos) -> bool {
    -INNER_LIMIT <= p.x <= INNER_LIMIT && -INNER_LIMIT <= p.y <= INNER_LIMIT
}

/// `a` and `b` differ by at most `dx` across and `dy` down.
pub open spec fn near(a: Pos, b: Pos, dx: int, dy: int) -> bool {
    -dx <= a.x - b.x <= dx && -dy <= a.y - b.y <= dy
}

/// The remainder of `a / b` with the quotient rounded toward zero, as Rust's `%`.
pub open spec fn trem(a: int, b: int) -> int {
    if a >= 0 {
        a % b
    } else {
        -((-a) % b)
    }
}

/// The quotient of `a / b` rounded toward zero, as Rust's `/`.
pub open spec fn tdiv(a: int, b: int) -> int {
    if a >= 0 {
        a / b
    } else {
        -((-a) / b)
    }
}

/// Rounding toward zero keeps order.
pub proof fn lemma_tdiv_mono(a: int, c: int, b: int)
    requires
        b > 0,
        a <= c,
    ensures
        tdiv(a, b) <= tdiv(c, b),
{
    if a >= 0 {
        lemma_div_is_ordered(a, c, b);
    } else if c >= 0 {
        lemma_div_pos_is_pos(-a, b);
        lemma_div_pos_is_pos(c, b);
    } else {
        lemma_div_is_ordered(-c, -a, b);
    }
}

/// A unit step moves the rounded quotient by at most one.
pub proof fn lemma_tdiv_step(a: int, b: int)
    requires
        b > 0,
    ensures
        tdiv(a, b) <= tdiv(a + 1, b) <= tdiv(a, b) + 1,
{
    lemma_tdiv_mono(a, a + 1, b);
    if a >= 0 {
        lemma_div_is_ordered(a + 1, a + b, b);
        lemma_div_plus_one(a, b);
    } else if a == -1 {
        lemma_div_basics(b);
        lemma_div_is_ordered(1, b, b);
        lemma_div_basics(b);
    } else {
        lemma_div_plus_one(-a - 1, b);
        lemma_div_is_ordered(-a, b - a - 1, b);
    }
}

/// Two plot sides further on, the rounded quotient has grown.
pub proof fn lemma_tdiv_jump(a: int, b: int)
    requires
        b > 0,
    ensures
        tdiv(a + 2 * b, b) >= tdiv(a, b) + 1,
{
    if a >= 0 {
        lemma_div_plus_one(a, b);
        lemma_div_plus_one(a + b, b);
    } else if a + 2 * b < 0 {
        lemma_div_plus_one(-a - 2 * b, b);
        lemma_div_plus_one(-a - b, b);
    } else if -a < b {
        lemma_div_pos_is_pos(-a, b);
        lemma_div_is_ordered(b, a + 2 * b, b);
        lemma_div_basics(b);
    } else {
        lemma_div_is_ordered(b, -a, b);
        lemma_div_basics(b);
        lemma_div_pos_is_pos(a + 2 * b, b);
    }
}

/// Rounding toward zero is symmetric about zero.
pub proof fn lemma_tdiv_neg(a: int, b: int)
    requires
        b > 0,
    ensures
        tdiv(-a, b) == -tdiv(a, b),
{
    if a == 0 {
        lemma_div_basics(b);
    }
}

/// Along one axis, a tile of the rectangle searched from coordinate `c` is
/// either in the same plot as `c`, or is not where its own plot keeps its keep.
proof fn lemma_axis_not_keep(a: int, c: int, b: int, j: int)
    requires
        b >= 3,
        plot_start(c, b) <= a < plot_start(c, b) + b,
        -1 <= j <= 1,
        b % 2 == 1 ==> j == 0,
    ensures
        (tdiv(a, b) == tdiv(c, b) && plot_start(a, b) == plot_start(c, b)) || a != plot_start(a, b)
            + b / 2 - j,
{
    let q = tdiv(c, b);
    if c >= 0 {
        lemma_fundamental_div_mod(c, b);
        lemma_mod_bound(c, b);
    } else {
        lemma_fundamental_div_mod(-c, b);
        lemma_mod_bound(-c, b);
        assert(-(b * ((-c) / b)) == b * (-((-c) / b))) by (nonlinear_arith);
    }
    assert(plot_start(c, b) == b * q);
    if q >= 0 {
        assert(b * q >= 0) by (nonlinear_arith)
            requires
                b >= 3,
                q >= 0,
        ;
        lemma_fundamental_div_mod_converse(a, b, q, a - b * q);
        lemma_fundamental_div_mod(a, b);
    } else {
        assert(b * q + b == b * (q + 1)) by (nonlinear_arith);
        assert(b * (q + 1) <= 0) by (nonlinear_arith)
            requires
                b >= 3,
                q + 1 <= 0,
        ;
        if a == b * q {
            assert(-a == (-q) * b) by (nonlinear_arith)
                requires
                    a == b * q,
            ;
            lemma_fundamental_div_mod_converse(-a, b, -q, 0);
            lemma_fundamental_div_mod(-a, b);
        } else {
            assert(-a == (-q - 1) * b + (b - (a - b * q))) by (nonlinear_arith);
            lemma_fundamental_div_mod_converse(-a, b, -q - 1, b - (a - b * q));
            lemma_fundamental_div_mod(-a, b);
            lemma_mod_bound(-a, b);
        }
    }
}

/// The first coordinate of the plot that holds coordinate `a`, for plots `b` wide.
pub open spec fn plot_start(a: int, b: int) -> int {
    a - trem(a, b)
}

/// One coordinate of a plot's keep: the middle of the plot, moved back by one
/// on every other plot of the crossing axis when the side is even.
pub open spec fn keep_coord(a: int, b: int, cross_plot: int) -> int {
    plot_start(a, b) + b / 2 - if b % 2 == 0 {
        trem(cross_plot, 2)
    } else {
        0
    }
}

/// The plot index of a position.
pub open spec fn plot_index(p: Pos, ps: Pos) -> (int, int) {
    (tdiv(p.x as int, ps.x as int), tdiv(p.y as int, ps.y as int))
}

/// The keep tile of the plot that holds `p`.
pub open spec fn keep_of(p: Pos, ps: Pos) -> Pos {
    Pos {
        x: keep_coord(p.x as int, ps.x as int, tdiv(p.y as int, ps.y as int)) as i32,
        y: keep_coord(p.y as int, ps.y as int, tdiv(p.x as int, ps.x as int)) as i32,
    }
}

/// `t` is one of the tiles enumerated as the plot of `p`.
pub open spec fn in_plot_of(t: Pos, p: Pos, ps: Pos) -> bool {
    let sx = plot_start(p.x as int, ps.x as int);
    let sy = plot_start(p.y as int, ps.y as int);
    sx <= t.x < sx + ps.x && sy <= t.y < sy + ps.y
}

/// The order of tiles in a plot search from `p`: nearer first, then by `x`, then by `y`.
pub open spec fn search_before(a: Pos, b: Pos, p: Pos) -> bool {
    dist(a, p) < dist(b, p) || (dist(a, p) == dist(b, p) && (a.x < b.x || (a.x == b.x && a.y
        < b.y)))
}

/// The owner named by an entity standing on a keep tile.
pub open spec fn keep_owner(e: Option<EntityView>) -> Option<Seq<char>> {
    match e {
        Some(EntityView::Keep(u)) => Some(u),
        Some(EntityView::Capital(u)) => Some(u),
        _ => None,
    }
}

/// An optional entity, its player named by characters.
pub open spec fn opt_view(e: Option<Entity>) -> Option<EntityView> {
    match e {
        Some(e) => Some(e@),
        None => None,
    }
}

/// An optional player, named by characters.
pub open spec fn opt_user(u: Option<UserId>) -> Option<Seq<char>> {
    match u {
        Some(u) => Some(u@),
        None => None,
    }
}

/// `t` comes before the search point `(d, x, y)`: nearer than `d`, or at
/// distance `d` and before `(x, y)` in column-major order.
pub open spec fn rank_lt(t: Pos, p: Pos, d: int, x: int, y: int) -> bool {
    dist(t, p) < d || (dist(t, p) == d && (t.x < x || (t.x == x && t.y < y)))
}

/// A search order between two distinct tiles is strict: not both ways.
pub proof fn lemma_search_before_strict(a: Pos, b: Pos, p: Pos)
    ensures
        !(search_before(a, b, p) && search_before(b, a, p)),
        a != b ==> search_before(a, b, p) || search_before(b, a, p),
{
}

/// `c` is one of the four corners of the plot searched from `k`.
pub open spec fn is_corner_of(c: Pos, k: Pos, ps: Pos) -> bool {
    let sx = plot_start(k.x as int, ps.x as int);
    let sy = plot_start(k.y as int, ps.y as int);
    (c.x == sx || c.x == sx + ps.x - 1) && (c.y == sy || c.y == sy + ps.y - 1)
}

/// The map key of a position.
pub open spec fn pos_key(p: Pos) -> u64 {
    ((p.x + 0x8000_0000) * 0x1_0000_0000 + (p.y + 0x8000_0000)) as u64
}

/// Distinct positions have distinct keys.
pub proof fn lemma_key_injective(p: Pos, q: Pos)
    ensures
        pos_key(p) == pos_key(q) <==> p == q,
{
    let a = p.x + 0x8000_0000;
    let b = q.x + 0x8000_0000;
    assert(0 <= a * 0x1_0000_0000 + (p.y + 0x8000_0000) < 0x1_0000_0000_0000_0000) by (
    nonlinear_arith)
        requires
            0 <= a < 0x1_0000_0000,
            0 <= p.y + 0x8000_0000 < 0x1_0000_0000,
    ;
    assert(0 <= b * 0x1_0000_0000 + (q.y + 0x8000_0000) < 0x1_0000_0000_0000_0000) by (
    nonlinear_arith)
        requires
            0 <= b < 0x1_0000_0000,
            0 <= q.y + 0x8000_0000 < 0x1_0000_0000,
    ;
}

/// The map key of a position.
pub fn key_of(p: Pos) -> (k: u64)
    ensures
        k == pos_key(p),
{
    let a: u64 = (p.x as i64 + 0x8000_0000i64) as u64;
    let b: u64 = (p.y as i64 + 0x8000_0000i64) as u64;
    assert(a * 0x1_0000_0000 + b < 0x1_0000_0000_0000_0000) by (nonlinear_arith)
        requires
            a < 0x1_0000_0000,
            b < 0x1_0000_0000,
    ;
    a * 0x1_0000_0000 + b
}

/// The world: its plot size, its size in plots, and what stands on each tile.
#[derive(Debug, Clone)]
pub struct Field {
    plot_size: Size,
    size: Size,
    tiles: HashMap<u64, (Pos, Entity)>,
}

impl Field {
    /// The width and height of every plot.
    pub closed spec fn plot_dims(&self) -> Pos {
        self.plot_size
    }

    /// The width and height of the world, in plots.
    pub closed spec fn world_dims(&self) -> Pos {
        self.size
    }

    /// What stands on each non-empty tile.
    pub closed spec fn tiles(&self) -> Map<Pos, EntityView> {
        Map::new(
            |p: Pos| self.tiles@.contains_key(pos_key(p)),
            |p: Pos| self.tiles@[pos_key(p)].1@,
        )
    }

    /// The sides are in range and every entry is stored under its own key.
    pub closed spec fn inv(&self) -> bool {
        &&& MIN_SIDE <= self.plot_size.x <= MAX_SIDE
        &&& MIN_SIDE <= self.plot_size.y <= MAX_SIDE
        &&& self.tiles().dom().finite()
        &&& 0 <= self.size.x <= MAX_SIDE
        &&& 0 <= self.size.y <= MAX_SIDE
        &&& forall|k: u64| #[trigger]
            self.tiles@.contains_key(k) ==> pos_key(self.tiles@[k].0) == k
    }

    /// What stands on `p`, if anything.
    pub open spec fn at(&self, p: Pos) -> Option<EntityView> {
        if self.tiles().contains_key(p) {
            Some(self.tiles()[p])
        } else {
            None
        }
    }

    /// The keep tile of the plot holding `p`.
    pub open spec fn keep_at(&self, p: Pos) -> Pos {
        keep_of(p, self.plot_dims())
    }

    /// Who owns the plot holding `p`: whoever holds its keep tile.
    pub open spec fn owner_of(&self, p: Pos) -> Option<Seq<char>> {
        keep_owner(self.at(self.keep_at(p)))
    }

    /// Every keep tile holds a keep or a capital, or nothing.
    pub open spec fn keeps_ok(&self) -> bool {
        forall|p: Pos| #[trigger]
            self.tiles().contains_key(p) && p == self.keep_at(p) ==> keep_owner(self.at(p)) is Some
    }

    /// The sides are in range and finitely many tiles are occupied.
    pub open spec fn dims_ok(&self) -> bool {
        &&& MIN_SIDE <= self.plot_dims().x <= MAX_SIDE
        &&& MIN_SIDE <= self.plot_dims().y <= MAX_SIDE
        &&& 0 <= self.world_dims().x <= MAX_SIDE
        &&& 0 <= self.world_dims().y <= MAX_SIDE
        &&& self.tiles().dom().finite()
    }

    /// The representation invariant together with the keep-tile invariant.
    pub open spec fn wf(&self) -> bool {
        self.inv() && self.dims_ok() && self.keeps_ok()
    }


    /// `p` lies inside the world.
    pub open spec fn valid(&self, p: Pos) -> bool {
        0 <= p.x < self.world_dims().x * self.plot_dims().x && 0 <= p.y < self.world_dims().y
            * self.plot_dims().y
    }

    proof fn lemma_insert(self, p: Pos, e: Entity, m: HashMap<u64, (Pos, Entity)>)
        requires
            self.inv(),
            m@ == self.tiles@.insert(pos_key(p), (p, e)),
        ensures
            (Field { plot_size: self.plot_size, size: self.size, tiles: m }).inv(),
            (Field { plot_size: self.plot_size, size: self.size, tiles: m }).tiles()
                == self.tiles().insert(p, e@),
    {
        let f = Field { plot_size: self.plot_size, size: self.size, tiles: m };
        assert forall|q: Pos| #[trigger] f.tiles().contains_key(q) == self.tiles().insert(
            p,
            e@,
        ).contains_key(q) by {
            lemma_key_injective(p, q);
        }
        assert forall|q: Pos| f.tiles().contains_key(q) implies #[trigger] f.tiles()[q]
            == self.tiles().insert(p, e@)[q] by {
            lemma_key_injective(p, q);
        }
        assert(f.tiles() =~= self.tiles().insert(p, e@));
    }

    proof fn lemma_remove(self, p: Pos, m: HashMap<u64, (Pos, Entity)>)
        requires
            self.inv(),
            m@ == self.tiles@.remove(pos_key(p)),
        ensures
            (Field { plot_size: self.plot_size, size: self.size, tiles: m }).inv(),
            (Field { plot_size: self.plot_size, size: self.size, tiles: m }).tiles()
                == self.tiles().remove(p),
    {
        let f = Field { plot_size: self.plot_size, size: self.size, tiles: m };
        assert forall|q: Pos| #[trigger] f.tiles().contains_key(q) == self.tiles().remove(
            p,
        ).contains_key(q) by {
            lemma_key_injective(p, q);
        }
        assert forall|q: Pos| f.tiles().contains_key(q) implies #[trigger] f.tiles()[q]
            == self.tiles().remove(p)[q] by {
            lemma_key_injective(p, q);
        }
        assert(f.tiles() =~= self.tiles().remove(p));
    }

    /// An empty world of `size` plots, each `plot_size` tiles.
    pub fn new(plot_size: Size, size: Size) -> (r: Field)
        requires
            MIN_SIDE <= plot_size.x <= MAX_SIDE,
            MIN_SIDE <= plot_size.y <= MAX_SIDE,
            0 <= size.x <= MAX_SIDE,
            0 <= size.y <= MAX_SIDE,
        ensures
            r.wf(),
            r.plot_dims() == plot_size,
            r.world_dims() == size,
            r.tiles() == Map::<Pos, EntityView>::empty(),
    {
        let r = Field { plot_size, size, tiles: HashMap::new() };
        assert(r.tiles() =~= Map::<Pos, EntityView>::empty());
        r
    }

    /// The plot size.
    pub fn plot_size(&self) -> (r: Size)
        ensures
            r == self.plot_dims(),
    {
        self.plot_size
    }

    /// The world size, in plots.
    pub fn size(&self) -> (r: Size)
        ensures
            r == self.world_dims(),
    {
        self.size
    }

    /// The keep tile of the plot holding `pos`.
    pub fn keep_location(&self, pos: Pos) -> (r: Pos)
        requires
            self.inv(),
            in_range(pos),
        ensures
            r == self.keep_at(pos),
            near(r, pos, 2 * self.plot_dims().x, 2 * self.plot_dims().y),
    {
        let ps = self.plot_size;
        let plot_x = pos.x / ps.x;
        let plot_y = pos.y / ps.y;
        let mut x = pos.x - pos.x % ps.x + ps.x / 2;
        let mut y = pos.y - pos.y % ps.y + ps.y / 2;
        if ps.x % 2 == 0 {
            x = x - plot_y % 2;
        }
        if ps.y % 2 == 0 {
            y = y - plot_x % 2;
        }
        Pos::new(x, y)
    }

    /// Places `Keep(userid)` on the empty keep tile of the plot of
    /// `source_pos`, inside the world; the keep tile, or `None`.
    pub fn claim_first_keep(&mut self, source_pos: Pos, userid: UserId) -> (r: Option<Pos>)
        requires
            old(self).wf(),
            in_range(source_pos),
        ensures
            final(self).wf(),
            final(self).plot_dims() == old(self).plot_dims(),
            final(self).world_dims() == old(self).world_dims(),
            r is Some <==> old(self).valid(source_pos) && old(self).at(old(self).keep_at(source_pos))
                is None,
            r is Some ==> r->0 == old(self).keep_at(source_pos) && final(self).tiles() == old(self).tiles().insert(r->0, EntityView::Keep(userid@)),
            r is None ==> final(self).tiles() == old(self).tiles(),
    {
        if !self.is_valid(source_pos) {
            return None;
        }
        let pos = self.keep_location(source_pos);
        match self.get(pos) {
            Some(_) => None,
            None => {
                self.set_tile(pos, Entity::Keep(userid));
                Some(pos)
            },
        }
    }

    /// What stands on `pos`, if anything.
    pub fn get(&self, pos: Pos) -> (r: Option<Entity>)
        requires
            self.inv(),
        ensures
            opt_view(r) == self.at(pos),
    {
        match self.tiles.get(&key_of(pos)) {
            Some(entry) => Some(entry.1.duplicate()),
            None => None,
        }
    }

    /// Who owns the plot holding `pos`.
    pub fn plot_owner(&self, pos: Pos) -> (r: Option<UserId>)
        requires
            self.wf(),
            in_range(pos),
        ensures
            opt_user(r) == self.owner_of(pos),
    {
        match self.get(self.keep_location(pos)) {
            Some(Entity::Keep(owner)) => Some(owner),
            Some(Entity::Capital(owner)) => Some(owner),
            _ => None,
        }
    }

    /// Empties `pos`.
    pub fn clear_tile(&mut self, pos: Pos)
        requires
            old(self).inv(),
        ensures
            final(self).inv(),
            final(self).tiles() == old(self).tiles().remove(pos),
            final(self).plot_dims() == old(self).plot_dims(),
            final(self).world_dims() == old(self).world_dims(),
            old(self).wf() ==> final(self).wf(),
    {
        let k = key_of(pos);
        let ghost before = *self;
        self.tiles.remove(&k);
        proof {
            before.lemma_remove(pos, self.tiles);
            if before.wf() {
                assert forall|p: Pos| #[trigger]
                    self.tiles().contains_key(p) && p == self.keep_at(p) implies keep_owner(self.at(p)) is Some by {
                    assert(before.tiles().contains_key(p));
                }
            }
        }
    }

    /// Puts `ent` on `pos`, replacing what stood there.
    pub fn set_tile(&mut self, pos: Pos, ent: Entity)
        requires
            old(self).inv(),
        ensures
            final(self).inv(),
            final(self).tiles() == old(self).tiles().insert(pos, ent@),
            final(self).plot_dims() == old(self).plot_dims(),
            final(self).world_dims() == old(self).world_dims(),
            old(self).wf() && (pos != old(self).keep_at(pos) || keep_owner(Some(ent@)) is Some)
                ==> final(self).wf(),
    {
        let k = key_of(pos);
        let ghost before = *self;
        let ghost e = ent;
        self.tiles.insert(k, (pos, ent));
        proof {
            before.lemma_insert(pos, e, self.tiles);
            if before.wf() && (pos != before.keep_at(pos) || keep_owner(Some(e@)) is Some) {
                assert forall|p: Pos| #[trigger]
                    self.tiles().contains_key(p) && p == self.keep_at(p) implies keep_owner(self.at(p)) is Some by {
                    if p != pos {
                        assert(before.tiles().contains_key(p));
                    }
                }
            }
        }
    }

    /// Puts `val` on `pos`, or empties it for `None`.
    pub fn set(&mut self, pos: Pos, val: Option<Entity>)
        requires
            old(self).inv(),
        ensures
            final(self).inv(),
            final(self).tiles() == match opt_view(val) {
                Some(e) => old(self).tiles().insert(pos, e),
                None => old(self).tiles().remove(pos),
            },
            final(self).plot_dims() == old(self).plot_dims(),
            final(self).world_dims() == old(self).world_dims(),
    {
        match val {
            Some(ent) => self.set_tile(pos, ent),
            None => self.clear_tile(pos),
        }
    }

    /// Whether `pos` lies inside the world.
    pub fn is_valid(&self, pos: Pos) -> (r: bool)
        requires
            self.inv(),
        ensures
            r == self.valid(pos),
    {
        assert(self.size.x as i64 * self.plot_size.x as i64 <= 0x100_0000) by (nonlinear_arith)
            requires
                0 <= self.size.x <= 0x1000,
                1 <= self.plot_size.x <= 0x1000,
        ;
        assert(self.size.y as i64 * self.plot_size.y as i64 <= 0x100_0000) by (nonlinear_arith)
            requires
                0 <= self.size.y <= 0x1000,
                1 <= self.plot_size.y <= 0x1000,
        ;
        let w: i64 = self.size.x as i64 * self.plot_size.x as i64;
        let h: i64 = self.size.y as i64 * self.plot_size.y as i64;
        pos.x >= 0 && pos.y >= 0 && (pos.x as i64) < w && (pos.y as i64) < h
    }

    /// `t` lies in the plot searched from `src`, is not its keep, and holds `e`.
    pub open spec fn matches_in_plot(&self, t: Pos, src: Pos, e: Option<EntityView>) -> bool {
        in_plot_of(t, src, self.plot_dims()) && t != self.keep_at(src) && self.at(t) == e
    }

    /// `t` is the first tile holding `e` in the search from `src`.
    pub open spec fn nearest(&self, t: Pos, src: Pos, e: Option<EntityView>) -> bool {
        self.matches_in_plot(t, src, e) && forall|u: Pos| #[trigger]
            self.matches_in_plot(u, src, e) && u != t ==> search_before(t, u, src)
    }

    /// The first tile holding `e` in the search from `src`, if any tile does.
    pub open spec fn first_match(&self, src: Pos, e: Option<EntityView>) -> Option<Pos> {
        if exists|t: Pos| self.nearest(t, src, e) {
            Some(choose|t: Pos| self.nearest(t, src, e))
        } else {
            None
        }
    }

    /// A tile of the plot searched from `p`, other than the keep of `p`, is no
    /// keep tile itself.
    pub proof fn lemma_plot_tile_not_keep(&self, t: Pos, p: Pos)
        requires
            MIN_GENERATED_SIDE <= self.plot_dims().x,
            MIN_GENERATED_SIDE <= self.plot_dims().y,
            self.inv(),
            in_range(p),
            in_plot_of(t, p, self.plot_dims()),
            t != self.keep_at(p),
        ensures
            t != self.keep_at(t),
    {
        let ps = self.plot_dims();
        let jx = if ps.x % 2 == 0 { trem(tdiv(t.y as int, ps.y as int), 2) } else { 0 };
        let jy = if ps.y % 2 == 0 { trem(tdiv(t.x as int, ps.x as int), 2) } else { 0 };
        lemma_axis_not_keep(t.x as int, p.x as int, ps.x as int, jx);
        lemma_axis_not_keep(t.y as int, p.y as int, ps.y as int, jy);
    }

    /// The keep of a tile at nonnegative coordinates lies at nonnegative coordinates.
    pub proof fn lemma_keep_nonneg(&self, p: Pos)
        requires
            self.inv(),
            in_range(p),
            0 <= p.x,
            0 <= p.y,
        ensures
            0 <= self.keep_at(p).x,
            0 <= self.keep_at(p).y,
    {
        let ps = self.plot_dims();
        lemma_fundamental_div_mod(p.x as int, ps.x as int);
        lemma_fundamental_div_mod(p.y as int, ps.y as int);
        lemma_div_pos_is_pos(p.x as int, ps.x as int);
        lemma_div_pos_is_pos(p.y as int, ps.y as int);
        lemma_mod_bound(p.x as int / ps.x as int, 2);
        lemma_mod_bound(p.y as int / ps.y as int, 2);
        let qx = p.x as int / ps.x as int;
        let qy = p.y as int / ps.y as int;
        assert(ps.x * qx >= 0) by (nonlinear_arith)
            requires
                ps.x >= 1,
                qx >= 0,
        ;
        assert(ps.y * qy >= 0) by (nonlinear_arith)
            requires
                ps.y >= 1,
                qy >= 0,
        ;
    }

    /// A corner of the plot searched from a keep at nonnegative coordinates
    /// lies in that plot and is no keep tile.
    pub proof fn lemma_corner_not_keep(&self, k: Pos, c: Pos)
        requires
            MIN_GENERATED_SIDE <= self.plot_dims().x,
            MIN_GENERATED_SIDE <= self.plot_dims().y,
            self.inv(),
            in_range(k),
            0 <= k.x,
            0 <= k.y,
            is_corner_of(c, k, self.plot_dims()),
        ensures
            in_plot_of(c, k, self.plot_dims()),
            c != self.keep_at(c),
    {
        let ps = self.plot_dims();
        lemma_div_pos_is_pos(k.x as int, ps.x as int);
        lemma_div_pos_is_pos(k.y as int, ps.y as int);
        lemma_mod_bound(k.x as int / ps.x as int, 2);
        lemma_mod_bound(k.y as int / ps.y as int, 2);
        lemma_mod_bound(k.x as int, ps.x as int);
        lemma_mod_bound(k.y as int, ps.y as int);
        assert(c != self.keep_at(k));
        self.lemma_plot_tile_not_keep(c, k);
    }

    /// There is at most one first tile.
    pub proof fn lemma_nearest_unique(&self, t: Pos, u: Pos, src: Pos, e: Option<EntityView>)
        requires
            self.nearest(t, src, e),
            self.nearest(u, src, e),
        ensures
            t == u,
    {
        if t != u {
            lemma_search_before_strict(t, u, src);
        }
    }

    /// Every tile of the plot holding `pos` but its keep, nearest to `pos`
    /// first, ties broken by `x` and then by `y`.
    pub fn tiles_in_plot(&self, pos: Pos) -> (r: Vec<Pos>)
        requires
            self.inv(),
            in_range(pos),
        ensures
            forall|i: int|
                0 <= i < r@.len() ==> in_plot_of(#[trigger] r@[i], pos, self.plot_dims()) && r@[i]
                    != self.keep_at(pos),
            forall|t: Pos|
                in_plot_of(t, pos, self.plot_dims()) && t != self.keep_at(pos) ==> #[trigger] r@.contains(t),
            forall|i: int, j: int|
                0 <= i < j < r@.len() ==> search_before(#[trigger] r@[i], #[trigger] r@[j], pos),
            forall|i: int, j: int|
                0 <= i < j < r@.len() ==> dist(#[trigger] r@[i], pos) <= dist(#[trigger] r@[j], pos),
    {
        let ps = self.plot_size;
        let keep = self.keep_location(pos);
        let sx = pos.x - pos.x % ps.x;
        let sy = pos.y - pos.y % ps.y;
        let ex = sx + ps.x;
        let ey = sy + ps.y;
        let maxd = 2 * (ps.x + ps.y);
        let ghost psd = self.plot_dims();
        let mut positions: Vec<Pos> = Vec::new();
        let mut d: i32 = 0;
        while d <= maxd
            invariant
                self.inv(),
                in_range(pos),
                ps == psd,
                psd == self.plot_dims(),
                keep == self.keep_at(pos),
                sx == plot_start(pos.x as int, ps.x as int),
                sy == plot_start(pos.y as int, ps.y as int),
                ex == sx + ps.x,
                ey == sy + ps.y,
                maxd == 2 * (ps.x + ps.y),
                0 <= d <= maxd + 1,
                forall|i: int|
                    0 <= i < positions@.len() ==> in_plot_of(#[trigger] positions@[i], pos, psd)
                        && positions@[i] != keep && rank_lt(positions@[i], pos, d as int, sx as int, sy as int),
                forall|i: int, j: int|
                    0 <= i < j < positions@.len() ==> search_before(
                        #[trigger] positions@[i],
                        #[trigger] positions@[j],
                        pos,
                    ),
                forall|t: Pos|
                    #![trigger in_plot_of(t, pos, psd)]
                    in_plot_of(t, pos, psd) && t != keep && rank_lt(t, pos, d as int, sx as int, sy as int)
                        ==> positions@.contains(t),
            decreases maxd + 1 - d,
        {
            let mut x = sx;
            while x < ex
                invariant
                    self.inv(),
                    in_range(pos),
                    ps == psd,
                    psd == self.plot_dims(),
                    keep == self.keep_at(pos),
                    sx == plot_start(pos.x as int, ps.x as int),
                    sy == plot_start(pos.y as int, ps.y as int),
                    ex == sx + ps.x,
                    ey == sy + ps.y,
                    maxd == 2 * (ps.x + ps.y),
                    0 <= d <= maxd,
                    sx <= x <= ex,
                    forall|i: int|
                        0 <= i < positions@.len() ==> in_plot_of(#[trigger] positions@[i], pos, psd)
                            && positions@[i] != keep && rank_lt(positions@[i], pos, d as int, x as int, sy as int),
                    forall|i: int, j: int|
                        0 <= i < j < positions@.len() ==> search_before(
                            #[trigger] positions@[i],
                            #[trigger] positions@[j],
                            pos,
                        ),
                    forall|t: Pos|
                        #![trigger in_plot_of(t, pos, psd)]
                        in_plot_of(t, pos, psd) && t != keep && rank_lt(t, pos, d as int, x as int, sy as int)
                            ==> positions@.contains(t),
                decreases ex - x,
            {
                let mut y = sy;
                while y < ey
                    invariant
                        self.inv(),
                        in_range(pos),
                        ps == psd,
                        psd == self.plot_dims(),
                        keep == self.keep_at(pos),
                        sx == plot_start(pos.x as int, ps.x as int),
                        sy == plot_start(pos.y as int, ps.y as int),
                        ex == sx + ps.x,
                        ey == sy + ps.y,
                        maxd == 2 * (ps.x + ps.y),
                        0 <= d <= maxd,
                        sx <= x < ex,
                        sy <= y <= ey,
                        forall|i: int|
                            0 <= i < positions@.len() ==> in_plot_of(#[trigger] positions@[i], pos, psd)
                                && positions@[i] != keep && rank_lt(positions@[i], pos, d as int, x as int, y as int),
                        forall|i: int, j: int|
                            0 <= i < j < positions@.len() ==> search_before(
                                #[trigger] positions@[i],
                                #[trigger] positions@[j],
                                pos,
                            ),
                        forall|t: Pos|
                            #![trigger in_plot_of(t, pos, psd)]
                            in_plot_of(t, pos, psd) && t != keep && rank_lt(t, pos, d as int, x as int, y as int)
                                ==> positions@.contains(t),
                    decreases ey - y,
                {
                    let tile = Pos::new(x, y);
                    if tile.distance_to(pos) == d && tile != keep {
                        let ghost before = positions@;
                        positions.push(tile);
                        proof {
                            assert forall|t: Pos|
                                #![trigger in_plot_of(t, pos, psd)]
                                in_plot_of(t, pos, psd) && t != keep && rank_lt(t, pos, d as int, x as int, y + 1)
                                    implies positions@.contains(t) by {
                                if t == tile {
                                    assert(positions@[before.len() as int] == tile);
                                } else {
                                    assert(rank_lt(t, pos, d as int, x as int, y as int));
                                    assert(before.contains(t));
                                    let k = choose|k: int| 0 <= k < before.len() && before[k] == t;
                                    assert(positions@[k] == t);
                                }
                            }
                        }
                    } else {
                        proof {
                            assert forall|t: Pos|
                                #![trigger in_plot_of(t, pos, psd)]
                                in_plot_of(t, pos, psd) && t != keep && rank_lt(t, pos, d as int, x as int, y + 1)
                                    implies positions@.contains(t) by {
                                if t != tile {
                                    assert(rank_lt(t, pos, d as int, x as int, y as int));
                                }
                            }
                        }
                    }
                    y = y + 1;
                }
                x = x + 1;
            }
            d = d + 1;
        }
        proof {
            assert forall|t: Pos| in_plot_of(t, pos, psd) && t != keep implies #[trigger] positions@.contains(t) by {
                assert(rank_lt(t, pos, d as int, sx as int, sy as int));
            }
            assert forall|i: int, j: int| 0 <= i < j < positions@.len() implies dist(#[trigger] positions@[i], pos) <= dist(#[trigger] positions@[j], pos) by {
                assert(search_before(positions@[i], positions@[j], pos));
            }
        }
        positions
    }

    /// Every tile of the plot holding `source` but its keep that holds `ent`,
    /// in search order from `source`.
    pub fn find_all(&self, source_pos: Pos, ent: Option<Entity>) -> (r: Vec<Pos>)
        requires
            self.inv(),
            in_range(source_pos),
        ensures
            forall|i: int|
                0 <= i < r@.len() ==> self.matches_in_plot(#[trigger] r@[i], source_pos, opt_view(ent)),
            forall|t: Pos|
                self.matches_in_plot(t, source_pos, opt_view(ent)) ==> #[trigger] r@.contains(t),
            forall|i: int, j: int|
                0 <= i < j < r@.len() ==> search_before(#[trigger] r@[i], #[trigger] r@[j], source_pos),
    {
        let tiles = self.tiles_in_plot(source_pos);
        let mut found: Vec<Pos> = Vec::new();
        let ghost mut idx: Seq<int> = Seq::empty();
        let mut i: usize = 0;
        while i < tiles.len()
            invariant
                self.inv(),
                in_range(source_pos),
                i <= tiles@.len(),
                forall|a: int|
                    0 <= a < tiles@.len() ==> in_plot_of(#[trigger] tiles@[a], source_pos, self.plot_dims()) && tiles@[a]
                        != self.keep_at(source_pos),
                forall|t: Pos|
                    in_plot_of(t, source_pos, self.plot_dims()) && t != self.keep_at(source_pos) ==> #[trigger] tiles@.contains(t),
                forall|a: int, b: int|
                    0 <= a < b < tiles@.len() ==> search_before(#[trigger] tiles@[a], #[trigger] tiles@[b], source_pos),
                idx.len() == found@.len(),
                forall|a: int| 0 <= a < idx.len() ==> 0 <= #[trigger] idx[a] < i && found@[a] == tiles@[idx[a]],
                forall|a: int, b: int| 0 <= a < b < idx.len() ==> #[trigger] idx[a] < #[trigger] idx[b],
                forall|a: int| 0 <= a < found@.len() ==> self.matches_in_plot(#[trigger] found@[a], source_pos, opt_view(ent)),
                forall|k: int|
                    0 <= k < i && self.matches_in_plot(#[trigger] tiles@[k], source_pos, opt_view(ent)) ==> found@.contains(tiles@[k]),
            decreases tiles.len() - i,
        {
            let here = self.get(tiles[i]);
            if opt_same(&here, &ent) {
                let ghost before = found@;
                found.push(tiles[i]);
                proof {
                    idx = idx.push(i as int);
                    assert forall|k: int|
                        0 <= k < i + 1 && self.matches_in_plot(#[trigger] tiles@[k], source_pos, opt_view(ent)) implies found@.contains(tiles@[k]) by {
                        if k == i {
                            assert(found@[before.len() as int] == tiles@[k]);
                        } else {
                            let w = choose|w: int| 0 <= w < before.len() && before[w] == tiles@[k];
                            assert(found@[w] == tiles@[k]);
                        }
                    }
                }
            }
            i = i + 1;
        }
        proof {
            assert forall|t: Pos| self.matches_in_plot(t, source_pos, opt_view(ent)) implies #[trigger] found@.contains(t) by {
                assert(tiles@.contains(t));
                let k = choose|k: int| 0 <= k < tiles@.len() && tiles@[k] == t;
                assert(self.matches_in_plot(tiles@[k], source_pos, opt_view(ent)));
            }
            assert forall|a: int, b: int| 0 <= a < b < found@.len() implies search_before(#[trigger] found@[a], #[trigger] found@[b], source_pos) by {
                assert(idx[a] < idx[b]);
            }
        }
        found
    }

    /// The first tile holding `ent` in the search from `source_pos`.
    pub fn find(&self, source_pos: Pos, ent: Option<Entity>) -> (r: Option<Pos>)
        requires
            self.inv(),
            in_range(source_pos),
        ensures
            r == self.first_match(source_pos, opt_view(ent)),
            (exists|t: Pos| self.matches_in_plot(t, source_pos, opt_view(ent))) ==> r is Some,
            r is Some ==> self.nearest(r->0, source_pos, opt_view(ent)),
    {
        let all = self.find_all(source_pos, ent);
        if all.len() > 0 {
            let t = all[0];
            proof {
                assert forall|u: Pos| #[trigger] self.matches_in_plot(u, source_pos, opt_view(ent)) && u != t implies search_before(t, u, source_pos) by {
                    assert(all@.contains(u));
                    let k = choose|k: int| 0 <= k < all@.len() && all@[k] == u;
                    assert(k != 0);
                    assert(search_before(all@[0], all@[k], source_pos));
                }
                assert(self.nearest(t, source_pos, opt_view(ent)));
                let c = choose|c: Pos| self.nearest(c, source_pos, opt_view(ent));
                self.lemma_nearest_unique(t, c, source_pos, opt_view(ent));
            }
            Some(t)
        } else {
            proof {
                if exists|t: Pos| self.nearest(t, source_pos, opt_view(ent)) {
                    let t = choose|t: Pos| self.nearest(t, source_pos, opt_view(ent));
                    assert(all@.contains(t));
                }
                if exists|t: Pos| self.matches_in_plot(t, source_pos, opt_view(ent)) {
                    let t = choose|t: Pos| self.matches_in_plot(t, source_pos, opt_view(ent));
                    assert(all@.contains(t));
                }
            }
            None
        }
    }

    /// Replaces what stands on the first tile holding `from` in the search
    /// from `source_pos` by `to`; that tile, or `None` if there is none.
    pub fn change_tile(&mut self, source_pos: Pos, from: Option<Entity>, to: Option<Entity>) -> (r: Option<Pos>)
        requires
            old(self).inv(),
            in_range(source_pos),
        ensures
            final(self).inv(),
            r == old(self).first_match(source_pos, opt_view(from)),
            (exists|t: Pos| old(self).matches_in_plot(t, source_pos, opt_view(from))) ==> r is Some,
            r is Some ==> old(self).nearest(r->0, source_pos, opt_view(from)),
            final(self).tiles() == match r {
                Some(t) => match opt_view(to) {
                    Some(e) => old(self).tiles().insert(t, e),
                    None => old(self).tiles().remove(t),
                },
                None => old(self).tiles(),
            },
            final(self).plot_dims() == old(self).plot_dims(),
            final(self).world_dims() == old(self).world_dims(),
    {
        match self.find(source_pos, from) {
            Some(pos) => {
                self.set(pos, to);
                Some(pos)
            },
            None => None,
        }
    }

    /// Whether one of the four neighbours of `pos` holds `val`.
    pub fn neighbours(&self, pos: Pos, val: Option<Entity>) -> (r: bool)
        requires
            self.inv(),
            in_range(pos),
        ensures
            r == exists|d: Direction| self.at(#[trigger] shift(pos, d)) == opt_view(val),
    {
        let dirs = Direction::directions();
        let mut i: usize = 0;
        while i < dirs.len()
            invariant
                self.inv(),
                in_range(pos),
                dirs@ == seq![Direction::North, Direction::South, Direction::East, Direction::West],
                0 <= i <= 4,
                forall|k: int| 0 <= k < i ==> self.at(shift(pos, #[trigger] dirs@[k])) != opt_view(val),
            decreases dirs.len() - i,
        {
            let p = shift_pos(pos, dirs[i]);
            let here = self.get(p);
            if opt_same(&here, &val) {
                return true;
            }
            i = i + 1;
        }
        proof {
            assert forall|d: Direction| self.at(#[trigger] shift(pos, d)) != opt_view(val) by {
                match d {
                    Direction::North => assert(dirs@[0] == d),
                    Direction::South => assert(dirs@[1] == d),
                    Direction::East => assert(dirs@[2] == d),
                    Direction::West => assert(dirs@[3] == d),
                }
            }
        }
        false
    }

    /// Whether the neighbour `q` of `pos` lies in another plot.
    pub open spec fn crosses(&self, pos: Pos, d: Direction) -> bool {
        self.keep_at(shift(pos, d)) != self.keep_at(pos)
    }

    /// How many of the four neighbours of `pos` lie in another plot.
    pub open spec fn border_count(&self, pos: Pos) -> int {
        (if self.crosses(pos, Direction::North) { 1int } else { 0 })
            + (if self.crosses(pos, Direction::South) { 1int } else { 0 })
            + (if self.crosses(pos, Direction::East) { 1int } else { 0 })
            + (if self.crosses(pos, Direction::West) { 1int } else { 0 })
    }

    /// The one neighbour of `pos` in another plot, if exactly one is.
    pub open spec fn border_of(&self, pos: Pos) -> Option<Pos> {
        if self.border_count(pos) == 1 {
            Some(
                if self.crosses(pos, Direction::North) {
                    shift(pos, Direction::North)
                } else if self.crosses(pos, Direction::South) {
                    shift(pos, Direction::South)
                } else if self.crosses(pos, Direction::East) {
                    shift(pos, Direction::East)
                } else {
                    shift(pos, Direction::West)
                },
            )
        } else {
            None
        }
    }

    /// The neighbour of `pos` across a plot border, when exactly one of its
    /// four neighbours lies in another plot.
    pub fn across_border(&self, pos: Pos) -> (r: Option<Pos>)
        requires
            self.inv(),
            in_bounds(pos),
        ensures
            r == self.border_of(pos),
            r is Some ==> self.border_count(pos) == 1,
    {
        let keep = self.keep_location(pos);
        let dirs = Direction::directions();
        let mut crossings: Vec<Pos> = Vec::new();
        let mut i: usize = 0;
        while i < dirs.len()
            invariant
                self.inv(),
                in_bounds(pos),
                keep == self.keep_at(pos),
                dirs@ == seq![Direction::North, Direction::South, Direction::East, Direction::West],
                0 <= i <= 4,
                crossings@ == crossing_list(*self, pos, i as int),
            decreases dirs.len() - i,
        {
            let p = shift_pos(pos, dirs[i]);
            if self.keep_location(p) != keep {
                crossings.push(p);
            }
            i = i + 1;
        }
        proof {
            reveal_with_fuel(crossing_list, 5);
        }
        if crossings.len() == 1 {
            Some(crossings[0])
        } else {
            None
        }
    }

    /// The nearest empty tile across the border from `to`, when that tile's
    /// plot has the same owner as the plot of `to`.
    pub open spec fn cross_target(&self, to: Pos) -> Option<Pos> {
        match self.border_of(to) {
            Some(b) => match self.first_match(b, None) {
                Some(p) => if self.owner_of(p) == self.owner_of(to) && p != self.keep_at(p) {
                    Some(p)
                } else {
                    None
                },
                None => None,
            },
            None => None,
        }
    }

    /// Where something crossing the border at `to` lands: the nearest empty
    /// tile of the plot across, if that plot has the same owner (and the tile
    /// is no keep tile, which only tiny plots allow).
    #[verifier::rlimit(40)]
    pub fn cross_pos(&self, to: Pos) -> (r: Option<Pos>)
        requires
            self.wf(),
            in_bounds(to),
        ensures
            r == self.cross_target(to),
            r is Some ==> near(r->0, to, 4 * self.plot_dims().x + 1, 4 * self.plot_dims().y + 1),
    {
        let b = match self.across_border(to) {
            Some(b) => b,
            None => return None,
        };
        let pos = match self.find(b, None) {
            Some(p) => p,
            None => return None,
        };
        proof {
            let c = choose|t: Pos| self.nearest(t, b, None);
            assert(self.nearest(c, b, None));
            assert(in_plot_of(pos, b, self.plot_dims()));
        }
        let here = self.plot_owner(pos);
        let there = self.plot_owner(to);
        if opt_user_same(&here, &there) && self.keep_location(pos) != pos {
            Some(pos)
        } else {
            None
        }
    }

    /// The world coordinates of the keep of plot `(px, py)`.
    pub open spec fn world_keep(&self, px: int, py: int) -> Pos {
        self.keep_at(Pos { x: (px * self.plot_dims().x) as i32, y: (py * self.plot_dims().y) as i32 })
    }

    /// The place of plot `(px, py)` in the list of keeps: column by column.
    pub open spec fn keep_index(&self, px: int, py: int) -> int {
        px * self.world_dims().y + py
    }

    /// `p` is the keep tile of a plot of the world.
    pub open spec fn is_world_keep(&self, p: Pos) -> bool {
        exists|px: int, py: int|
            0 <= px < self.world_dims().x && 0 <= py < self.world_dims().y && p
                == #[trigger] self.world_keep(px, py)
    }

    /// The keep tiles of all plots of the world.
    pub fn list_keeps(&self) -> (r: Vec<Pos>)
        requires
            self.inv(),
        ensures
            forall|px: int, py: int|
                0 <= px < self.world_dims().x && 0 <= py < self.world_dims().y ==> r@.contains(
                    #[trigger] self.world_keep(px, py),
                ),
            forall|i: int| 0 <= i < r@.len() ==> self.is_world_keep(#[trigger] r@[i]),
            forall|i: int| 0 <= i < r@.len() ==> in_range(#[trigger] r@[i]),
            forall|i: int| 0 <= i < r@.len() ==> 0 <= (#[trigger] r@[i]).x && 0 <= r@[i].y,
            r@.len() == self.world_dims().x * self.world_dims().y,
            forall|px: int, py: int|
                0 <= px < self.world_dims().x && 0 <= py < self.world_dims().y ==> r@[self.keep_index(
                    px,
                    py,
                )] == #[trigger] self.world_keep(px, py),
    {
        let mut keeps: Vec<Pos> = Vec::new();
        let mut plot_x: i32 = 0;
        while plot_x < self.size.x
            invariant
                self.inv(),
                0 <= plot_x <= self.size.x,
                forall|px: int, py: int|
                    0 <= px < plot_x && 0 <= py < self.world_dims().y ==> keeps@.contains(
                        #[trigger] self.world_keep(px, py),
                    ),
                forall|i: int| 0 <= i < keeps@.len() ==> self.is_world_keep(#[trigger] keeps@[i]),
                forall|i: int| 0 <= i < keeps@.len() ==> in_range(#[trigger] keeps@[i]),
                forall|i: int| 0 <= i < keeps@.len() ==> 0 <= (#[trigger] keeps@[i]).x && 0 <= keeps@[i].y,
                keeps@.len() == plot_x * self.size.y,
                forall|px: int, py: int|
                    0 <= px < plot_x && 0 <= py < self.world_dims().y ==> keeps@[self.keep_index(px, py)]
                        == #[trigger] self.world_keep(px, py),
            decreases self.size.x - plot_x,
        {
            let mut plot_y: i32 = 0;
            while plot_y < self.size.y
                invariant
                    self.inv(),
                    0 <= plot_x < self.size.x,
                    0 <= plot_y <= self.size.y,
                    forall|px: int, py: int|
                        (0 <= px < plot_x && 0 <= py < self.world_dims().y) || (px == plot_x && 0 <= py < plot_y) ==> keeps@.contains(
                            #[trigger] self.world_keep(px, py),
                        ),
                    forall|i: int| 0 <= i < keeps@.len() ==> self.is_world_keep(#[trigger] keeps@[i]),
                    forall|i: int| 0 <= i < keeps@.len() ==> in_range(#[trigger] keeps@[i]),
                    forall|i: int| 0 <= i < keeps@.len() ==> 0 <= (#[trigger] keeps@[i]).x && 0 <= keeps@[i].y,
                    keeps@.len() == plot_x * self.size.y + plot_y,
                    forall|px: int, py: int|
                        (0 <= px < plot_x && 0 <= py < self.world_dims().y) || (px == plot_x && 0 <= py < plot_y)
                            ==> keeps@[self.keep_index(px, py)] == #[trigger] self.world_keep(px, py),
                decreases self.size.y - plot_y,
            {
                assert(0 <= plot_x * self.plot_size.x <= 0x100_0000) by (nonlinear_arith)
                    requires
                        0 <= plot_x <= 0x1000,
                        1 <= self.plot_size.x <= 0x1000,
                ;
                assert(0 <= plot_y * self.plot_size.y <= 0x100_0000) by (nonlinear_arith)
                    requires
                        0 <= plot_y <= 0x1000,
                        1 <= self.plot_size.y <= 0x1000,
                ;
                let corner = Pos::new(plot_x * self.plot_size.x, plot_y * self.plot_size.y);
                let k = self.keep_location(corner);
                proof {
                    self.lemma_keep_nonneg(corner);
                }
                let ghost before = keeps@;
                keeps.push(k);
                proof {
                    assert(k == self.world_keep(plot_x as int, plot_y as int));
                    assert forall|px: int, py: int|
                        (0 <= px < plot_x && 0 <= py < self.world_dims().y) || (px == plot_x && 0 <= py < plot_y + 1) implies keeps@.contains(
                            #[trigger] self.world_keep(px, py)) by {
                        if px == plot_x && py == plot_y {
                            assert(keeps@[before.len() as int] == k);
                        } else {
                            assert(before.contains(self.world_keep(px, py)));
                            let w = choose|w: int| 0 <= w < before.len() && before[w] == self.world_keep(px, py);
                            assert(keeps@[w] == before[w]);
                        }
                    }
                    assert(self.is_world_keep(k));
                    assert forall|i: int| 0 <= i < keeps@.len() implies self.is_world_keep(#[trigger] keeps@[i]) by {
                        if i < before.len() {
                            assert(keeps@[i] == before[i]);
                        }
                    }
                    let sy = self.size.y as int;
                    assert forall|px: int, py: int|
                        (0 <= px < plot_x && 0 <= py < self.world_dims().y) || (px == plot_x && 0 <= py < plot_y + 1)
                            implies keeps@[self.keep_index(px, py)] == #[trigger] self.world_keep(px, py) by {
                        if px == plot_x && py == plot_y {
                            assert(self.keep_index(px, py) == before.len());
                        } else {
                            assert(0 <= px * sy) by (nonlinear_arith)
                                requires
                                    0 <= px,
                                    0 <= sy,
                            ;
                            if px < plot_x {
                                assert((px + 1) * sy <= plot_x * sy) by (nonlinear_arith)
                                    requires
                                        px + 1 <= plot_x,
                                        0 <= sy,
                                ;
                                assert((px + 1) * sy == px * sy + sy) by (nonlinear_arith);
                            }
                            assert(keeps@[self.keep_index(px, py)] == before[self.keep_index(px, py)]);
                        }
                    }
                }
                plot_y = plot_y + 1;
            }
            assert(plot_x * self.size.y + self.size.y == (plot_x + 1) * self.size.y) by (nonlinear_arith);
            plot_x = plot_x + 1;
        }
        keeps
    }
}

/// The neighbours of `pos` among the first `n` directions that lie in another plot.
pub open spec fn crossing_list(f: Field, pos: Pos, n: int) -> Seq<Pos>
    decreases n,
{
    if n <= 0 {
        Seq::empty()
    } else {
        let d = seq![Direction::North, Direction::South, Direction::East, Direction::West][n - 1];
        let rest = crossing_list(f, pos, n - 1);
        if f.crosses(pos, d) {
            rest.push(shift(pos, d))
        } else {
            rest
        }
    }
}

/// The neighbour of `p` one step towards `d`.
pub open spec fn shift(p: Pos, d: Direction) -> Pos {
    Pos { x: (p.x + step(d).0) as i32, y: (p.y + step(d).1) as i32 }
}

/// The neighbour of `p` one step towards `d`.
pub fn shift_pos(p: Pos, d: Direction) -> (r: Pos)
    requires
        in_range(p),
    ensures
        r == shift(p, d),
        near(r, p, 1, 1),
{
    let o = d.to_pos();
    Pos::new(p.x + o.x, p.y + o.y)
}

/// Whether two optional entities are the same.
pub fn opt_same(a: &Option<Entity>, b: &Option<Entity>) -> (r: bool)
    ensures
        r == (opt_view(*a) == opt_view(*b)),
{
    match a {
        Some(x) => match b {
            Some(y) => x.same(y),
            None => false,
        },
        None => b.is_none(),
    }
}

/// Whether two optional players are the same.
pub fn opt_user_same(a: &Option<UserId>, b: &Option<UserId>) -> (r: bool)
    ensures
        r == (opt_user(*a) == opt_user(*b)),
{
    match a {
        Some(x) => match b {
            Some(y) => x.same(y),
            None => false,
        },
        None => b.is_none(),
    }
}

/// The coordinate that moves when walking towards `d`.
pub open spec fn axis(p: Pos, d: Direction) -> int {
    match d {
        Direction::East | Direction::West => p.x as int,
        _ => p.y as int,
    }
}

/// The plot side along the axis of `d`.
pub open spec fn side(ps: Pos, d: Direction) -> int {
    match d {
        Direction::East | Direction::West => ps.x as int,
        _ => ps.y as int,
    }
}

/// `1` when walking towards `d` increases the moving coordinate, else `-1`.
pub open spec fn sgn(d: Direction) -> int {
    match d {
        Direction::East | Direction::South => 1,
        _ => -1,
    }
}

/// `x` lies at least `n` beyond `y` in the direction of the walk towards `d`.
pub open spec fn ahead(d: Direction, x: int, y: int, n: int) -> bool {
    if sgn(d) == 1 {
        x >= y + n
    } else {
        x <= y - n
    }
}

/// The position `k` steps from `p` towards `d`.
pub open spec fn ray(p: Pos, d: Direction, k: int) -> Pos {
    match d {
        Direction::North => Pos { x: p.x, y: (p.y - k) as i32 },
        Direction::South => Pos { x: p.x, y: (p.y + k) as i32 },
        Direction::East => Pos { x: (p.x + k) as i32, y: p.y },
        Direction::West => Pos { x: (p.x - k) as i32, y: p.y },
    }
}

/// The index of the plot next to that of `p` towards `d`.
pub open spec fn lane_target(p: Pos, d: Direction, ps: Pos) -> (int, int) {
    (plot_index(p, ps).0 + step(d).0, plot_index(p, ps).1 + step(d).1)
}

/// `lane` is the stretch of the ray from `p` towards `d` that lies in the
/// next plot, where the ray enters that plot after `a` steps.
pub open spec fn lane_shape(p: Pos, d: Direction, ps: Pos, a: int, lane: Seq<Pos>) -> bool {
    &&& forall|k: int|
        1 <= k < a ==> plot_index(#[trigger] ray(p, d, k), ps) != lane_target(p, d, ps)
    &&& forall|i: int|
        0 <= i < lane.len() ==> #[trigger] lane[i] == ray(p, d, a + i) && plot_index(lane[i], ps)
            == lane_target(p, d, ps)
    &&& plot_index(ray(p, d, a + lane.len()), ps) != lane_target(p, d, ps)
}

/// A point of the ray lies in the next plot exactly when the plot index of
/// its moving coordinate has moved by one in the direction of the walk.
proof fn lemma_ray_target(p: Pos, d: Direction, ps: Pos, k: int)
    requires
        0 < ps.x <= MAX_SIDE,
        0 < ps.y <= MAX_SIDE,
        k >= 0,
        in_bounds(p),
        k <= 0x1_0000,
    ensures
        plot_index(ray(p, d, k), ps) == lane_target(p, d, ps) <==> tdiv(
            axis(ray(p, d, k), d),
            side(ps, d),
        ) == tdiv(axis(p, d), side(ps, d)) + sgn(d),
{
}

/// Along a ray the plot index of the moving coordinate changes by at most one
/// per step, in the direction of the walk, and has changed after two sides.
proof fn lemma_ray(p: Pos, d: Direction, ps: Pos, k: int)
    requires
        0 < ps.x <= MAX_SIDE,
        0 < ps.y <= MAX_SIDE,
        k >= 0,
        in_bounds(p),
        k <= 0x1_0000,
    ensures
        ({
            let c = tdiv(axis(ray(p, d, k), d), side(ps, d));
            let c1 = tdiv(axis(ray(p, d, k + 1), d), side(ps, d));
            c1 == c || c1 == c + sgn(d)
        }),
        ahead(d, tdiv(axis(ray(p, d, k), d), side(ps, d)), tdiv(axis(p, d), side(ps, d)), 0),
        ahead(
            d,
            tdiv(axis(ray(p, d, k + 2 * side(ps, d)), d), side(ps, d)),
            tdiv(axis(ray(p, d, k), d), side(ps, d)),
            1,
        ),
{
    let b = side(ps, d);
    let a = axis(ray(p, d, k), d);
    if sgn(d) == 1 {
        assert(axis(ray(p, d, k + 1), d) == a + 1);
        lemma_tdiv_step(a, b);
        lemma_tdiv_mono(axis(p, d), a, b);
        assert(axis(ray(p, d, k + 2 * b), d) == a + 2 * b);
        lemma_tdiv_jump(a, b);
    } else {
        assert(axis(ray(p, d, k + 1), d) == a - 1);
        lemma_tdiv_step(-a, b);
        lemma_tdiv_neg(a, b);
        lemma_tdiv_neg(a - 1, b);
        lemma_tdiv_mono(-axis(p, d), -a, b);
        lemma_tdiv_neg(axis(p, d), b);
        assert(axis(ray(p, d, k + 2 * b), d) == a - 2 * b);
        lemma_tdiv_jump(-a, b);
        lemma_tdiv_neg(a - 2 * b, b);
    }
}

impl Field {
    /// The tiles of the neighbouring plot towards `dir` that lie on the ray
    /// from `pos` towards `dir`, in the order the ray meets them.
    pub fn neighbour_lane(&self, pos: Pos, dir: Direction) -> (r: Vec<Pos>)
        requires
            self.inv(),
            in_bounds(pos),
        ensures
            exists|a: int|
                1 <= a <= 2 * side(self.plot_dims(), dir) && lane_shape(pos, dir, self.plot_dims(), a, r@),
            forall|i: int|
                0 <= i < r@.len() ==> near(#[trigger] r@[i], pos, 4 * self.plot_dims().x, 4 * self.plot_dims().y),
    {
        let ps = self.plot_size;
        let ghost psd = self.plot_dims();
        let ghost target = lane_target(pos, dir, psd);
        let dt = dir.to_pos();
        let nx = pos.x / ps.x + dt.x;
        let ny = pos.y / ps.y + dt.y;
        let sd: i32 = match dir {
            Direction::East | Direction::West => ps.x,
            _ => ps.y,
        };
        let mut k: i32 = 1;
        let mut p = Pos::new(pos.x + dt.x, pos.y + dt.y);
        proof {
            lemma_ray(pos, dir, psd, 0);
            assert(pos == ray(pos, dir, 0));
        }
        while !(p.x / ps.x == nx && p.y / ps.y == ny)
            invariant
                self.inv(),
                in_bounds(pos),
                ps == psd,
                psd == self.plot_dims(),
                sd == side(psd, dir),
                dt.x == step(dir).0,
                dt.y == step(dir).1,
                target == lane_target(pos, dir, psd),
                nx == target.0,
                ny == target.1,
                1 <= k <= 2 * sd,
                p == ray(pos, dir, k as int),
                tdiv(axis(ray(pos, dir, (k - 1) as int), dir), sd as int) == tdiv(axis(pos, dir), sd as int),
                forall|j: int| 1 <= j < k ==> plot_index(#[trigger] ray(pos, dir, j), psd) != target,
            decreases 2 * sd - k,
        {
            proof {
                lemma_ray(pos, dir, psd, (k - 1) as int);
                lemma_ray(pos, dir, psd, k as int);
                lemma_ray(pos, dir, psd, 0);
                assert(tdiv(axis(ray(pos, dir, k as int), dir), sd as int) == tdiv(axis(pos, dir), sd as int));
                assert(k + 1 <= 2 * sd);
            }
            p = Pos::new(p.x + dt.x, p.y + dt.y);
            k = k + 1;
        }
        let ghost a = k as int;
        proof {
            lemma_ray_target(pos, dir, psd, a);
        }
        let mut lane: Vec<Pos> = Vec::new();
        while p.x / ps.x == nx && p.y / ps.y == ny
            invariant
                self.inv(),
                in_bounds(pos),
                ps == psd,
                psd == self.plot_dims(),
                sd == side(psd, dir),
                dt.x == step(dir).0,
                dt.y == step(dir).1,
                target == lane_target(pos, dir, psd),
                nx == target.0,
                ny == target.1,
                1 <= a <= 2 * sd,
                a <= k <= a + 2 * sd,
                k == a + lane@.len(),
                p == ray(pos, dir, k as int),
                forall|j: int| 1 <= j < a ==> plot_index(#[trigger] ray(pos, dir, j), psd) != target,
                forall|i: int|
                    0 <= i < lane@.len() ==> #[trigger] lane@[i] == ray(pos, dir, a + i) && plot_index(lane@[i], psd)
                        == target,
                tdiv(axis(ray(pos, dir, a), dir), sd as int) == tdiv(axis(pos, dir), sd as int) + sgn(dir),
            decreases a + 2 * sd - k,
        {
            proof {
                lemma_ray(pos, dir, psd, a);
                lemma_ray(pos, dir, psd, k as int);
                lemma_ray_target(pos, dir, psd, k as int);
                assert(k + 1 <= a + 2 * sd);
            }
            lane.push(p);
            p = Pos::new(p.x + dt.x, p.y + dt.y);
            k = k + 1;
        }
        proof {
            assert(lane_shape(pos, dir, psd, a, lane@));
        }
        lane
    }
}

impl Field {
    /// The keys of the occupied tiles, each once.
    fn keys(&self) -> (r: Vec<u64>)
        ensures
            r@.to_set() == self.tiles@.dom(),
            r@.no_duplicates(),
    {
        let mut ks: Vec<u64> = Vec::new();
        let ghost full = vstd::std_specs::hash::spec_keys_iter(&self.tiles).remaining();
        for k in it: self.tiles.keys()
            invariant
                it.seq() == full,
                ks@ == it.seq().take(it.index() as int).map_values(|x: &u64| *x),
        {
            ks.push(*k);
        }
        assert(ks@ =~= full.unref());
        ks
    }
}

/// The header of the text of a field.
pub open spec fn header_text(size: Pos, plot_size: Pos) -> Seq<char> {
    "size:"@ + pos_text(size) + " plot_size:"@ + pos_text(plot_size) + "/"@
}

/// The text of one occupied tile.
pub open spec fn entry_text(p: Pos, e: EntityView) -> Seq<char> {
    pos_text(p) + " "@ + entity_text(e) + "; "@
}

/// The text of a list of occupied tiles, in order.
pub open spec fn entries_text(es: Seq<(Pos, EntityView)>) -> Seq<char>
    decreases es.len(),
{
    if es.len() == 0 {
        Seq::empty()
    } else {
        entries_text(es.drop_last()) + entry_text(es.last().0, es.last().1)
    }
}

/// `es` lists every occupied tile of `m` exactly once, in some order.
pub open spec fn lists_tiles(es: Seq<(Pos, EntityView)>, m: Map<Pos, EntityView>) -> bool {
    &&& forall|i: int| 0 <= i < es.len() ==> m.contains_key(#[trigger] es[i].0) && m[es[i].0] == es[i].1
    &&& forall|p: Pos| #[trigger] m.contains_key(p) ==> exists|i: int| 0 <= i < es.len() && es[i].0 == p
    &&& forall|i: int, j: int| 0 <= i < j < es.len() ==> #[trigger] es[i].0 != #[trigger] es[j].0
}

/// Reads the header items left to right: the last `size` and `plot_size`
/// seen, or the first error met in one of them.
pub open spec fn scan_header(items: Seq<Seq<char>>, size: Option<Pos>, plot: Option<Pos>) -> Result<
    (Option<Pos>, Option<Pos>),
    Seq<char>,
>
    decreases items.len(),
{
    if items.len() == 0 {
        Ok((size, plot))
    } else {
        let (name, arg) = halves(items[0], ':');
        let n = trim(name);
        if n == "size"@ {
            match parse_pos(arg) {
                Err(e) => Err(e),
                Ok(p) => scan_header(items.drop_first(), Some(p), plot),
            }
        } else if n == "plot_size"@ {
            match parse_pos(arg) {
                Err(e) => Err(e),
                Ok(p) => scan_header(items.drop_first(), size, Some(p)),
            }
        } else {
            scan_header(items.drop_first(), size, plot)
        }
    }
}

/// What one body segment holds: nothing when blank, else a tile and its entity.
pub open spec fn parse_entry(seg: Seq<char>) -> Option<Result<(Pos, EntityView), Seq<char>>> {
    let t = trim(seg);
    if t.len() == 0 {
        None
    } else {
        let (p, e) = halves(t, ' ');
        match parse_pos(p) {
            Err(err) => Some(Err(err)),
            Ok(pos) => match parse_entity(e) {
                Err(err) => Some(Err(err)),
                Ok(ent) => Some(Ok((pos, ent))),
            },
        }
    }
}

/// Reads the body segments left to right into a map; a later entry for a
/// tile replaces an earlier one; the first error stops the reading.
pub open spec fn scan_body(segs: Seq<Seq<char>>, m: Map<Pos, EntityView>) -> Result<
    Map<Pos, EntityView>,
    Seq<char>,
>
    decreases segs.len(),
{
    if segs.len() == 0 {
        Ok(m)
    } else {
        match parse_entry(segs[0]) {
            None => scan_body(segs.drop_first(), m),
            Some(Err(e)) => Err(e),
            Some(Ok((p, e))) => scan_body(segs.drop_first(), m.insert(p, e)),
        }
    }
}

/// Sides that a field can have.
pub open spec fn dims_in_range(size: Pos, plot: Pos) -> bool {
    MIN_SIDE <= plot.x <= MAX_SIDE && MIN_SIDE <= plot.y <= MAX_SIDE && 0 <= size.x <= MAX_SIDE
        && 0 <= size.y <= MAX_SIDE
}

/// What decoding `s` as a field gives: its size, plot size and tiles, or the error.
pub open spec fn parse_field(s: Seq<char>) -> Result<(Pos, Pos, Map<Pos, EntityView>), Seq<char>> {
    let (meta, body) = halves(s, '/');
    match scan_header(split_all(meta, ' '), None, None) {
        Err(e) => Err(e),
        Ok((size, plot)) => match scan_body(split_all(body, ';'), Map::empty()) {
            Err(e) => Err(e),
            Ok(m) => match size {
                None => Err("No size found for field"@),
                Some(sz) => match plot {
                    None => Err("No plot size found for field"@),
                    Some(ps) => if dims_in_range(sz, ps) {
                        Ok((sz, ps, m))
                    } else {
                        Err("Field size out of range"@)
                    },
                },
            },
        },
    }
}

impl Field {
    /// The text of this field: a header with its size and plot size, then
    /// every occupied tile, in no particular order.
    pub fn to_string(&self) -> (r: String)
        requires
            self.inv(),
        ensures
            exists|es: Seq<(Pos, EntityView)>|
                lists_tiles(es, self.tiles()) && r@ == header_text(self.world_dims(), self.plot_dims())
                    + entries_text(es),
    {
        let mut out: Vec<char> = Vec::new();
        push_str(&mut out, "size:");
        self.size.write_to(&mut out);
        push_str(&mut out, " plot_size:");
        self.plot_size.write_to(&mut out);
        push_str(&mut out, "/");
        assert(out@ =~= header_text(self.size, self.plot_size));
        let ks = self.keys();
        let ghost mut es: Seq<(Pos, EntityView)> = Seq::empty();
        let mut i: usize = 0;
        while i < ks.len()
            invariant
                self.inv(),
                ks@.to_set() == self.tiles@.dom(),
                ks@.no_duplicates(),
                i <= ks@.len(),
                es.len() == i,
                forall|a: int| 0 <= a < i ==> #[trigger] es[a].0 == self.tiles@[ks@[a]].0 && es[a].1 == self.tiles@[ks@[a]].1@,
                out@ == header_text(self.size, self.plot_size) + entries_text(es),
            decreases ks.len() - i,
        {
            let k = ks[i];
            assert(ks@.to_set().contains(k));
            let entry = self.tiles.get(&k).unwrap();
            let ghost before = out@;
            entry.0.write_to(&mut out);
            push_str(&mut out, " ");
            entry.1.write_to(&mut out);
            push_str(&mut out, "; ");
            proof {
                let old_es = es;
                es = es.push((entry.0, entry.1@));
                assert(es.drop_last() =~= old_es);
                assert(out@ =~= header_text(self.size, self.plot_size) + entries_text(es));
            }
            i = i + 1;
        }
        proof {
            assert forall|a: int| 0 <= a < es.len() implies self.tiles().contains_key(#[trigger] es[a].0)
                && self.tiles()[es[a].0] == es[a].1 by {
                assert(ks@.to_set().contains(ks@[a]));
            }
            assert forall|p: Pos| #[trigger] self.tiles().contains_key(p) implies exists|a: int|
                0 <= a < es.len() && es[a].0 == p by {
                assert(ks@.to_set().contains(pos_key(p)));
                let a = choose|a: int| 0 <= a < ks@.len() && ks@[a] == pos_key(p);
                lemma_key_injective(p, self.tiles@[ks@[a]].0);
                assert(es[a].0 == p);
            }
            assert forall|a: int, b: int| 0 <= a < b < es.len() implies #[trigger] es[a].0 != #[trigger] es[b].0 by {
                assert(ks@.to_set().contains(ks@[a]));
                assert(ks@.to_set().contains(ks@[b]));
            }
            assert(lists_tiles(es, self.tiles()));
        }
        string_of(out.as_slice())
    }

    /// Decodes the text of a field.
    pub fn parse(s: &str) -> (r: Result<Field, ParseError>)
        ensures
            match r {
                Ok(f) => f.inv() && parse_field(s@) == Ok::<(Pos, Pos, Map<Pos, EntityView>), Seq<char>>(
                    (f.world_dims(), f.plot_dims(), f.tiles()),
                ),
                Err(e) => parse_field(s@) == Err::<(Pos, Pos, Map<Pos, EntityView>), Seq<char>>(e.msg@),
            },
    {
        let v = chars_of(s);
        let (meta, body) = halves_chars(v.as_slice(), '/');
        let items = split_all_chars(meta.as_slice(), ' ');
        let ghost all_items = split_all(meta@, ' ');
        let mut size: Option<Pos> = None;
        let mut plot: Option<Pos> = None;
        let mut i: usize = 0;
        assert(all_items.subrange(0, all_items.len() as int) =~= all_items);
        while i < items.len()
            invariant
                meta@ == halves(s@, '/').0,
                body@ == halves(s@, '/').1,
                all_items == split_all(meta@, ' '),
                items@.len() == all_items.len(),
                forall|k: int| 0 <= k < items@.len() ==> #[trigger] items@[k]@ == all_items[k],
                i <= items@.len(),
                scan_header(all_items, None, None) == scan_header(all_items.subrange(i as int, all_items.len() as int), size, plot),
            decreases items.len() - i,
        {
            assert(items@[i as int]@ == all_items[i as int]);
            let (name, arg) = halves_chars(items[i].as_slice(), ':');
            let n = trim_chars(name.as_slice());
            proof {
                assert(all_items.subrange(i as int, all_items.len() as int)[0] == all_items[i as int]);
                assert(all_items.subrange(i as int, all_items.len() as int).drop_first() =~= all_items.subrange(i + 1, all_items.len() as int));
            }
            if is_word(n.as_slice(), "size") {
                match Pos::parse_chars(arg.as_slice()) {
                    Ok(p) => size = Some(p),
                    Err(e) => {
                        return Err(e);
                    },
                }
            } else if is_word(n.as_slice(), "plot_size") {
                match Pos::parse_chars(arg.as_slice()) {
                    Ok(p) => plot = Some(p),
                    Err(e) => return Err(e),
                }
            }
            i = i + 1;
        }
        assert(all_items.subrange(all_items.len() as int, all_items.len() as int) =~= Seq::<Seq<char>>::empty());
        let segs = split_all_chars(body.as_slice(), ';');
        let ghost all_segs = split_all(body@, ';');
        let mut entries: Vec<(Pos, Entity)> = Vec::new();
        let ghost mut m: Map<Pos, EntityView> = Map::empty();
        let mut j: usize = 0;
        assert(all_segs.subrange(0, all_segs.len() as int) =~= all_segs);
        assert(fold_entries(entries@) =~= m);
        while j < segs.len()
            invariant
                meta@ == halves(s@, '/').0,
                body@ == halves(s@, '/').1,
                all_segs == split_all(body@, ';'),
                scan_header(split_all(meta@, ' '), None, None) == Ok::<(Option<Pos>, Option<Pos>), Seq<char>>((size, plot)),
                segs@.len() == all_segs.len(),
                forall|k: int| 0 <= k < segs@.len() ==> #[trigger] segs@[k]@ == all_segs[k],
                j <= segs@.len(),
                scan_body(all_segs, Map::empty()) == scan_body(all_segs.subrange(j as int, all_segs.len() as int), m),
                m == fold_entries(entries@),
            decreases segs.len() - j,
        {
            assert(segs@[j as int]@ == all_segs[j as int]);
            let t = trim_chars(segs[j].as_slice());
            proof {
                assert(all_segs.subrange(j as int, all_segs.len() as int)[0] == all_segs[j as int]);
                assert(all_segs.subrange(j as int, all_segs.len() as int).drop_first() =~= all_segs.subrange(j + 1, all_segs.len() as int));
            }
            if t.len() > 0 {
                let (ps, es) = halves_chars(t.as_slice(), ' ');
                let p = match Pos::parse_chars(ps.as_slice()) {
                    Ok(p) => p,
                    Err(e) => return Err(e),
                };
                let e = match Entity::parse_chars(es.as_slice()) {
                    Ok(e) => e,
                    Err(err) => return Err(err),
                };
                let ghost ev = e@;
                let ghost before = entries@;
                entries.push((p, e));
                proof {
                    assert(entries@.drop_last() =~= before);
                    m = m.insert(p, ev);
                }
            }
            j = j + 1;
        }
        proof {
            assert(all_segs.subrange(all_segs.len() as int, all_segs.len() as int) =~= Seq::<Seq<char>>::empty());
            assert(all_items.subrange(all_items.len() as int, all_items.len() as int) =~= Seq::<Seq<char>>::empty());
        }
        let size = match size {
            Some(sz) => sz,
            None => return Err(ParseError { msg: crate::text::owned("No size found for field") }),
        };
        let plot = match plot {
            Some(p) => p,
            None => return Err(ParseError { msg: crate::text::owned("No plot size found for field") }),
        };
        if !(MIN_SIDE <= plot.x && plot.x <= MAX_SIDE && MIN_SIDE <= plot.y && plot.y <= MAX_SIDE
            && 0 <= size.x && size.x <= MAX_SIDE && 0 <= size.y && size.y <= MAX_SIDE) {
            return Err(ParseError { msg: crate::text::owned("Field size out of range") });
        }
        let mut field = Field::new(plot, size);
        let mut k: usize = 0;
        while k < entries.len()
            invariant
                field.inv(),
                field.plot_dims() == plot,
                field.world_dims() == size,
                k <= entries@.len(),
                field.tiles() == fold_entries(entries@.subrange(0, k as int)),
            decreases entries.len() - k,
        {
            let (p, e) = (entries[k].0, entries[k].1.duplicate());
            field.set_tile(p, e);
            proof {
                assert(entries@.subrange(0, k + 1).drop_last() =~= entries@.subrange(0, k as int));
            }
            k = k + 1;
        }
        proof {
            assert(entries@.subrange(0, entries@.len() as int) =~= entries@);
        }
        Ok(field)
    }

    /// Same sizes, and the same entries in the two maps.
    pub closed spec fn same_entries(&self, other: &Field) -> bool {
        &&& self.size == other.size
        &&& self.plot_size == other.plot_size
        &&& forall|k: u64| #[trigger] self.tiles@.contains_key(k) ==> other.tiles@.contains_key(k)
            && other.tiles@[k].0 == self.tiles@[k].0 && other.tiles@[k].1@ == self.tiles@[k].1@
        &&& forall|k: u64| #[trigger] other.tiles@.contains_key(k) ==> self.tiles@.contains_key(k)
            && self.tiles@[k].0 == other.tiles@[k].0 && self.tiles@[k].1@ == other.tiles@[k].1@
    }

    /// Whether both fields have the same sizes and the same tiles.
    pub fn same(&self, other: &Field) -> (r: bool)
        requires
            self.inv(),
            other.inv(),
        ensures
            r == (self.world_dims() == other.world_dims() && self.plot_dims() == other.plot_dims()
                && self.tiles() == other.tiles()),
    {
        let a = self.covered_by(other);
        let b = other.covered_by(self);
        proof {
            if a && b {
                assert(self.tiles() =~= other.tiles());
            }
            if self.tiles() == other.tiles() {
                assert forall|k: u64| #[trigger] self.tiles@.contains_key(k) implies other.tiles@.contains_key(k)
                    && other.tiles@[k].0 == self.tiles@[k].0 && other.tiles@[k].1@ == self.tiles@[k].1@ by {
                    let p = self.tiles@[k].0;
                    assert(self.tiles().contains_key(p));
                    assert(other.tiles().contains_key(p));
                    lemma_key_injective(p, other.tiles@[k].0);
                    assert(self.tiles()[p] == self.tiles@[k].1@);
                    assert(other.tiles()[p] == other.tiles@[k].1@);
                }
                assert forall|k: u64| #[trigger] other.tiles@.contains_key(k) implies self.tiles@.contains_key(k)
                    && self.tiles@[k].0 == other.tiles@[k].0 && self.tiles@[k].1@ == other.tiles@[k].1@ by {
                    let p = other.tiles@[k].0;
                    assert(other.tiles().contains_key(p));
                    assert(self.tiles().contains_key(p));
                    lemma_key_injective(p, self.tiles@[k].0);
                    assert(self.tiles()[p] == self.tiles@[k].1@);
                    assert(other.tiles()[p] == other.tiles@[k].1@);
                }
            }
        }
        self.size == other.size && self.plot_size == other.plot_size && a && b
    }

    /// Whether every entry of this field's map is in `other`'s under the same
    /// key, with the same position and the same entity.
    fn covered_by(&self, other: &Field) -> (r: bool)
        ensures
            r == forall|k: u64| #[trigger] self.tiles@.contains_key(k) ==> other.tiles@.contains_key(k)
                && other.tiles@[k].0 == self.tiles@[k].0 && other.tiles@[k].1@ == self.tiles@[k].1@,
    {
        let ks = self.keys();
        let mut i: usize = 0;
        while i < ks.len()
            invariant
                ks@.to_set() == self.tiles@.dom(),
                i <= ks@.len(),
                forall|a: int| 0 <= a < i ==> {
                    let k = #[trigger] ks@[a];
                    other.tiles@.contains_key(k) && other.tiles@[k].0 == self.tiles@[k].0 && other.tiles@[k].1@
                        == self.tiles@[k].1@
                },
            decreases ks.len() - i,
        {
            let k = ks[i];
            assert(ks@.to_set().contains(k));
            let mine = self.tiles.get(&k).unwrap();
            let theirs = match other.tiles.get(&k) {
                Some(e) => e,
                None => return false,
            };
            if theirs.0 != mine.0 || !theirs.1.same(&mine.1) {
                return false;
            }
            i = i + 1;
        }
        proof {
            assert forall|k: u64| #[trigger] self.tiles@.contains_key(k) implies other.tiles@.contains_key(k)
                && other.tiles@[k].0 == self.tiles@[k].0 && other.tiles@[k].1@ == self.tiles@[k].1@ by {
                assert(ks@.to_set().contains(k));
                let a = choose|a: int| 0 <= a < ks@.len() && ks@[a] == k;
            }
        }
        true
    }

    /// Whether every keep tile holds a keep or a capital, or nothing; tiles
    /// farther out than the geometry reaches make the answer `false`.
    pub fn check_keeps(&self) -> (r: bool)
        requires
            self.inv(),
        ensures
            r ==> self.keeps_ok(),
            (forall|p: Pos| #[trigger] self.tiles().contains_key(p) ==> in_range(p)) ==> (r
                == self.keeps_ok()),
    {
        let ks = self.keys();
        let mut i: usize = 0;
        while i < ks.len()
            invariant
                self.inv(),
                ks@.to_set() == self.tiles@.dom(),
                i <= ks@.len(),
                forall|a: int| 0 <= a < i ==> {
                    let p = #[trigger] self.tiles@[ks@[a]].0;
                    in_range(p) && (p == self.keep_at(p) ==> keep_owner(self.at(p)) is Some)
                },
            decreases ks.len() - i,
        {
            let k = ks[i];
            assert(ks@.to_set().contains(k));
            let entry = self.tiles.get(&k).unwrap();
            let p = entry.0;
            if !(-COORD_LIMIT <= p.x && p.x <= COORD_LIMIT && -COORD_LIMIT <= p.y && p.y <= COORD_LIMIT) {
                proof {
                    assert(self.tiles().contains_key(p));
                }
                return false;
            }
            if self.keep_location(p) == p {
                match &entry.1 {
                    Entity::Keep(_) => {},
                    Entity::Capital(_) => {},
                    _ => {
                        proof {
                            assert(self.tiles().contains_key(p));
                        }
                        return false;
                    },
                }
            }
            i = i + 1;
        }
        proof {
            assert forall|p: Pos| #[trigger] self.tiles().contains_key(p) && p == self.keep_at(p) implies keep_owner(self.at(p)) is Some by {
                assert(ks@.to_set().contains(pos_key(p)));
                let a = choose|a: int| 0 <= a < ks@.len() && ks@[a] == pos_key(p);
                lemma_key_injective(p, self.tiles@[ks@[a]].0);
            }
        }
        true
    }
}

/// The map that inserting `es` in order gives.
pub open spec fn fold_entries(es: Seq<(Pos, Entity)>) -> Map<Pos, EntityView>
    decreases es.len(),
{
    if es.len() == 0 {
        Map::empty()
    } else {
        fold_entries(es.drop_last()).insert(es.last().0, es.last().1@)
    }
}

impl PartialEq for Field {
    fn eq(&self, other: &Field) -> (r: bool) {
        self.size == other.size && self.plot_size == other.plot_size && self.covered_by(other)
            && other.covered_by(self)
    }
}

impl vstd::std_specs::cmp::PartialEqSpecImpl for Field {
    open spec fn obeys_eq_spec() -> bool {
        true
    }

    open spec fn eq_spec(&self, other: &Field) -> bool {
        self.same_entries(other)
    }
}

impl Eq for Field {

}

impl std::str::FromStr for Field {
    type Err = ParseError;

    fn from_str(s: &str) -> Result<Field, ParseError> {
        Field::parse(s)
    }
}

} // verus!
