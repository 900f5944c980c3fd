//! The rules that act on a field: claiming a first keep, paying from a plot's
//! stockpiles, finding where a move lands, producing goods, and conquest.
use vstd::prelude::*;

use crate::entity::{Entity, EntityView, UserId};
use crate::field::{
    in_bounds, in_plot_of, in_range, keep_of, keep_owner, near, opt_user, opt_view, search_before,
    Field,
};
use crate::locations::{Direction, Pos};
use crate::resources::{count_of, Resource, ResourceCount};

verus! {

broadcast use vstd::set::group_set_axioms;

/// The tile one plot side from `p` towards `d`.
pub open spec fn plot_step(f: Field, p: Pos, d: Direction) -> Pos {
    side_step(p, d, f.plot_dims())
}

/// The tile one plot side from `p` towards `d`.
fn plot_step_pos(f: &Field, p: Pos, d: Direction) -> (r: Pos)
    requires
        f.wf(),
        in_range(p),
    ensures
        r == plot_step(*f, p, d),
        near(r, p, f.plot_dims().x as int, f.plot_dims().y as int),
{
    let ps = f.plot_size();
    match d {
        Direction::North => Pos::new(p.x, p.y - ps.y),
        Direction::South => Pos::new(p.x, p.y + ps.y),
        Direction::East => Pos::new(p.x + ps.x, p.y),
        Direction::West => Pos::new(p.x - ps.x, p.y),
    }
}

/// A first keep may be placed for the plot of `p`: `p` is inside the world,
/// the plot's keep tile is empty, and none of the four neighbouring plots has
/// a keep.
pub open spec fn claimable(f: Field, p: Pos) -> bool {
    &&& f.valid(p)
    &&& f.at(f.keep_at(p)) is None
    &&& forall|d: Direction|
        keep_owner(f.at(f.keep_at(#[trigger] plot_step(f, f.keep_at(p), d)))) is None
}

/// Places `Capital(userid)` on the keep tile of the plot of `source_pos` when
/// that plot may be claimed; the keep tile, or `None`.
pub fn claim_first_keep(field: &mut Field, source_pos: Pos, userid: UserId) -> (r: Option<Pos>)
    requires
        old(field).wf(),
        in_bounds(source_pos),
    ensures
        final(field).wf(),
        final(field).plot_dims() == old(field).plot_dims(),
        final(field).world_dims() == old(field).world_dims(),
        r is Some <==> claimable(*old(field), source_pos),
        r is Some ==> r->0 == old(field).keep_at(source_pos) && final(field).tiles()
            == old(field).tiles().insert(r->0, EntityView::Capital(userid@)),
        r is None ==> final(field).tiles() == old(field).tiles(),
{
    if !field.is_valid(source_pos) {
        return None;
    }
    let pos = field.keep_location(source_pos);
    if field.get(pos).is_some() {
        return None;
    }
    let dirs = Direction::directions();
    let mut i: usize = 0;
    while i < dirs.len()
        invariant
            field.wf(),
            in_bounds(source_pos),
            pos == field.keep_at(source_pos),
            near(pos, source_pos, 2 * field.plot_dims().x, 2 * field.plot_dims().y),
            dirs@ == seq![Direction::North, Direction::South, Direction::East, Direction::West],
            0 <= i <= 4,
            forall|k: int|
                0 <= k < i ==> keep_owner(
                    field.at(field.keep_at(plot_step(*field, pos, #[trigger] dirs@[k]))),
                ) is None,
        decreases dirs.len() - i,
    {
        let n = plot_step_pos(field, pos, dirs[i]);
        let owner = field.plot_owner(n);
        if owner.is_some() {
            return None;
        }
        i = i + 1;
    }
    proof {
        assert forall|d: Direction|
            keep_owner(field.at(field.keep_at(#[trigger] plot_step(*field, pos, d)))) is None by {
            match d {
                Direction::North => assert(dirs@[0] == d),
                Direction::South => assert(dirs@[1] == d),
                Direction::East => assert(dirs@[2] == d),
                Direction::West => assert(dirs@[3] == d),
            }
        }
    }
    let ghost before = *field;
    field.set_tile(pos, Entity::Capital(userid));
    proof {
        assert forall|p: Pos|
            #[trigger] field.tiles().contains_key(p) && p == field.keep_at(p) implies keep_owner(
                field.at(p),
            ) is Some by {
            if p != pos {
                assert(before.tiles().contains_key(p));
            }
        }
    }
    Some(pos)
}

/// The tiles of the plot searched from `pos` that hold `Stockpile(Some(r))`.
pub open spec fn stock_tiles(f: Field, pos: Pos, r: Resource) -> Set<Pos> {
    f.tiles().dom().filter(
        |t: Pos| f.matches_in_plot(t, pos, Some(EntityView::Stockpile(Some(r)))),
    )
}

/// How many units of `r` the stockpiles of the plot of `pos` hold.
pub open spec fn stock(f: Field, pos: Pos, r: Resource) -> nat {
    stock_tiles(f, pos, r).len()
}

proof fn lemma_stock_finite(f: Field, pos: Pos, r: Resource)
    requires
        f.dims_ok(),
    ensures
        stock_tiles(f, pos, r).finite(),
{
    vstd::set_lib::lemma_len_subset(stock_tiles(f, pos, r), f.tiles().dom());
}

/// The stockpile `t` of the plot of `pos` held `r` in `before` and is empty in `after`.
pub open spec fn spent(before: Field, after: Field, pos: Pos, r: Resource, t: Pos) -> bool {
    before.matches_in_plot(t, pos, Some(EntityView::Stockpile(Some(r)))) && after.at(t) == Some(
        EntityView::Stockpile(None),
    )
}

/// `after` is `before` once the plot of `pos` has paid `cost`: each
/// resource's stock is down by its cost, only full stockpiles of the plot
/// were emptied, and those nearest to `pos` first.
pub open spec fn paid(before: Field, after: Field, pos: Pos, cost: ResourceCount) -> bool {
    &&& after.plot_dims() == before.plot_dims()
    &&& after.world_dims() == before.world_dims()
    &&& forall|res: Resource| #[trigger] stock(after, pos, res) == stock(before, pos, res) - cost.amount(res)
    &&& forall|t: Pos|
        #[trigger] after.at(t) == before.at(t) || (before.at(t) matches Some(
            EntityView::Stockpile(Some(_)),
        ) && after.at(t) == Some(EntityView::Stockpile(None)) && in_plot_of(t, pos, before.plot_dims())
            && t != before.keep_at(pos))
    &&& after.tiles().dom() == before.tiles().dom()
    &&& forall|res: Resource, t: Pos, u: Pos|
        #![trigger spent(before, after, pos, res, t), after.matches_in_plot(u, pos, Some(EntityView::Stockpile(Some(res))))]
        spent(before, after, pos, res, t) && after.matches_in_plot(
            u,
            pos,
            Some(EntityView::Stockpile(Some(res))),
        ) ==> search_before(t, u, pos)
}

/// The plot of `pos` holds at least what `cost` asks for.
pub open spec fn affordable(f: Field, pos: Pos, cost: ResourceCount) -> bool {
    forall|r: Resource| cost.amount(r) <= #[trigger] stock(f, pos, r)
}

/// The stockpile tiles holding `r` among the first `n` of `tiles`.
spec fn seen(f: Field, tiles: Seq<Pos>, n: int, r: Resource) -> Set<Pos>
    decreases n,
{
    if n <= 0 {
        Set::empty()
    } else if f.at(tiles[n - 1]) == Some(EntityView::Stockpile(Some(r))) {
        seen(f, tiles, n - 1, r).insert(tiles[n - 1])
    } else {
        seen(f, tiles, n - 1, r)
    }
}

proof fn lemma_seen(f: Field, tiles: Seq<Pos>, n: int, r: Resource)
    requires
        0 <= n <= tiles.len(),
    ensures
        seen(f, tiles, n, r).finite(),
        forall|t: Pos| #[trigger]
            seen(f, tiles, n, r).contains(t) <==> (exists|k: int|
                0 <= k < n && tiles[k] == t) && f.at(t) == Some(EntityView::Stockpile(Some(r))),
    decreases n,
{
    if n > 0 {
        lemma_seen(f, tiles, n - 1, r);
        assert forall|t: Pos| #[trigger]
            seen(f, tiles, n, r).contains(t) <==> (exists|k: int|
                0 <= k < n && tiles[k] == t) && f.at(t) == Some(EntityView::Stockpile(Some(r))) by {
            if seen(f, tiles, n, r).contains(t) && t != tiles[n - 1] {
                let k = choose|k: int| 0 <= k < n - 1 && tiles[k] == t;
            }
            if (exists|k: int| 0 <= k < n && tiles[k] == t) && f.at(t) == Some(
                EntityView::Stockpile(Some(r)),
            ) {
                let k = choose|k: int| 0 <= k < n && tiles[k] == t;
                if k < n - 1 {
                    assert(seen(f, tiles, n - 1, r).contains(t));
                }
            }
        }
    }
}

/// How many times `r` occurs among the first `n` entries of `s`.
proof fn lemma_count_prefix(s: Seq<Resource>, n: int, r: Resource)
    requires
        0 <= n <= s.len(),
    ensures
        count_of(s.subrange(0, n), r) <= count_of(s, r),
    decreases s.len() - n,
{
    if n < s.len() {
        lemma_count_prefix(s, n + 1, r);
        assert(s.subrange(0, n + 1).drop_last() =~= s.subrange(0, n));
    } else {
        assert(s.subrange(0, n) =~= s);
    }
}

/// Pays `cost` from the stockpiles of the plot of `pos`, nearest first, if
/// they hold enough; whether it paid.
pub fn pay(field: &mut Field, pos: Pos, cost: &ResourceCount) -> (r: bool)
    requires
        old(field).wf(),
        in_range(pos),
    ensures
        final(field).wf(),
        final(field).plot_dims() == old(field).plot_dims(),
        final(field).world_dims() == old(field).world_dims(),
        r == affordable(*old(field), pos, *cost),
        r ==> forall|res: Resource|
            #[trigger] stock(*final(field), pos, res) == stock(*old(field), pos, res) - cost.amount(
                res,
            ),
        !r ==> final(field).tiles() == old(field).tiles(),
        r ==> paid(*old(field), *final(field), pos, *cost),
        forall|t: Pos|
            #[trigger] final(field).at(t) == old(field).at(t) || (old(field).at(t) matches Some(
                EntityView::Stockpile(Some(_)),
            ) && final(field).at(t) == Some(EntityView::Stockpile(None)) && in_plot_of(
                t,
                pos,
                old(field).plot_dims(),
            ) && t != old(field).keep_at(pos)),
        final(field).tiles().dom() == old(field).tiles().dom(),
        forall|res: Resource, t: Pos, u: Pos|
            #![trigger spent(*old(field), *final(field), pos, res, t), final(field).matches_in_plot(u, pos, Some(EntityView::Stockpile(Some(res))))]
            spent(*old(field), *final(field), pos, res, t) && final(field).matches_in_plot(
                u,
                pos,
                Some(EntityView::Stockpile(Some(res))),
            ) ==> search_before(t, u, pos),
{
    let ghost f0 = *field;
    let tiles = field.tiles_in_plot(pos);
    let mut available = ResourceCount::new();
    let mut i: usize = 0;
    while i < tiles.len()
        invariant
            *field == f0,
            field.wf(),
            i <= tiles@.len(),
            forall|a: int, b: int|
                0 <= a < b < tiles@.len() ==> crate::field::search_before(
                    #[trigger] tiles@[a],
                    #[trigger] tiles@[b],
                    pos,
                ),
            forall|res: Resource| #[trigger]
                available.amount(res) == seen(f0, tiles@, i as int, res).len(),
            forall|res: Resource| available.amount(res) <= i,
        decreases tiles.len() - i,
    {
        let here = field.get(tiles[i]);
        proof {
            assert forall|res: Resource| true implies !seen(f0, tiles@, i as int, res).contains(
                tiles@[i as int],
            ) by {
                lemma_seen(f0, tiles@, i as int, res);
                if seen(f0, tiles@, i as int, res).contains(tiles@[i as int]) {
                    let k = choose|k: int| 0 <= k < i && tiles@[k] == tiles@[i as int];
                    crate::field::lemma_search_before_strict(tiles@[k], tiles@[k], pos);
                }
            }
            assert forall|res: Resource| true implies seen(f0, tiles@, i as int, res).finite() by {
                lemma_seen(f0, tiles@, i as int, res);
            }
        }
        match here {
            Some(Entity::Stockpile(Some(res))) => {
                available.add_resource(res);
            },
            _ => {},
        }
        i = i + 1;
    }
    proof {
        assert forall|res: Resource| true implies seen(f0, tiles@, tiles@.len() as int, res)
            == stock_tiles(f0, pos, res) by {
            lemma_seen(f0, tiles@, tiles@.len() as int, res);
            assert forall|t: Pos| #[trigger]
                seen(f0, tiles@, tiles@.len() as int, res).contains(t) <== stock_tiles(
                    f0,
                    pos,
                    res,
                ).contains(t) by {
                if stock_tiles(f0, pos, res).contains(t) {
                    assert(tiles@.contains(t));
                }
            }
            assert(seen(f0, tiles@, tiles@.len() as int, res) =~= stock_tiles(f0, pos, res));
        }
    }
    proof {
        assert forall|res: Resource| true implies #[trigger] available.amount(res) == stock(
            f0,
            pos,
            res,
        ) by {
            assert(seen(f0, tiles@, tiles@.len() as int, res) == stock_tiles(f0, pos, res));
        }
    }
    if !available.can_afford(cost) {
        proof {
            assert(!available.covers(*cost));
            let res = choose|res: Resource| !(cost.amount(res) <= #[trigger] available.amount(res));
            assert(available.amount(res) == stock(f0, pos, res));
        }
        return false;
    }
    proof {
        assert forall|res: Resource| cost.amount(res) <= #[trigger] stock(f0, pos, res) by {
            assert(available.amount(res) == stock(f0, pos, res));
        }
    }
    let units = cost.to_vec();
    let mut j: usize = 0;
    while j < units.len()
        invariant
            field.wf(),
            in_range(pos),
            field.plot_dims() == f0.plot_dims(),
            field.world_dims() == f0.world_dims(),
            field.tiles().dom() == f0.tiles().dom(),
            j <= units@.len(),
            forall|res: Resource| count_of(units@, res) == #[trigger] cost.amount(res),
            forall|res: Resource| cost.amount(res) <= #[trigger] stock(f0, pos, res),
            forall|res: Resource|
                #[trigger] stock(*field, pos, res) == stock(f0, pos, res) - count_of(
                    units@.subrange(0, j as int),
                    res,
                ),
            forall|t: Pos|
                #[trigger] field.at(t) == f0.at(t) || (f0.at(t) matches Some(
                    EntityView::Stockpile(Some(_)),
                ) && field.at(t) == Some(EntityView::Stockpile(None)) && in_plot_of(
                    t,
                    pos,
                    f0.plot_dims(),
                ) && t != f0.keep_at(pos)),
            forall|res: Resource, t: Pos, u: Pos|
                #![trigger spent(f0, *field, pos, res, t), field.matches_in_plot(u, pos, Some(EntityView::Stockpile(Some(res))))]
                spent(f0, *field, pos, res, t) && field.matches_in_plot(
                    u,
                    pos,
                    Some(EntityView::Stockpile(Some(res))),
                ) ==> search_before(t, u, pos),
        decreases units.len() - j,
    {
        let res = units[j];
        let ghost before = *field;
        proof {
            lemma_count_prefix(units@, j + 1, res);
            assert(units@.subrange(0, j + 1).drop_last() =~= units@.subrange(0, j as int));
            assert(stock(before, pos, res) >= 1);
            lemma_stock_finite(before, pos, res);
            let t = stock_tiles(before, pos, res).choose();
            assert(stock_tiles(before, pos, res).len() != 0);
            assert(stock_tiles(before, pos, res).contains(t));
            assert(before.matches_in_plot(t, pos, Some(EntityView::Stockpile(Some(res)))));
        }
        let changed = field.change_tile(
            pos,
            Some(Entity::Stockpile(Some(res))),
            Some(Entity::Stockpile(None)),
        );
        proof {
            let t0 = changed->0;
            assert(before.matches_in_plot(t0, pos, Some(EntityView::Stockpile(Some(res)))));
            assert(field.at(t0) == Some(EntityView::Stockpile(None)));
            assert forall|x: Resource| true implies stock_tiles(before, pos, x).finite() by {
                lemma_stock_finite(before, pos, x);
            }
            assert forall|x: Resource| true implies #[trigger] stock(*field, pos, x) == stock(
                before,
                pos,
                x,
            ) - (if x == res {
                1int
            } else {
                0int
            }) by {
                if x == res {
                    assert(stock_tiles(*field, pos, x) =~= stock_tiles(before, pos, x).remove(t0));
                } else {
                    assert(stock_tiles(*field, pos, x) =~= stock_tiles(before, pos, x));
                }
            }
            assert forall|x: Resource| true implies #[trigger] stock(*field, pos, x) == stock(
                f0,
                pos,
                x,
            ) - count_of(units@.subrange(0, j + 1), x) by {
                assert(units@.subrange(0, j + 1).last() == res);
            }
            assert forall|p: Pos|
                    #[trigger] field.tiles().contains_key(p) && p == field.keep_at(p) implies keep_owner(
                    field.at(p),
                ) is Some by {
                if p == t0 {
                    assert(before.tiles().contains_key(p));
                }
            }
            assert(field.tiles().dom() =~= f0.tiles().dom());
            assert forall|x: Resource, t: Pos, u: Pos|
                #![trigger spent(f0, *field, pos, x, t), field.matches_in_plot(u, pos, Some(EntityView::Stockpile(Some(x))))]
                spent(f0, *field, pos, x, t) && field.matches_in_plot(
                    u,
                    pos,
                    Some(EntityView::Stockpile(Some(x))),
                ) implies search_before(t, u, pos) by {
                assert(u != t0);
                assert(before.matches_in_plot(u, pos, Some(EntityView::Stockpile(Some(x)))));
                if t == t0 {
                    assert(x == res);
                    assert(before.matches_in_plot(u, pos, Some(EntityView::Stockpile(Some(res)))));
                } else {
                    assert(spent(f0, before, pos, x, t));
                }
            }
        }
        j = j + 1;
    }
    proof {
        assert(units@.subrange(0, units@.len() as int) =~= units@);
    }
    true
}

/// Where a unit moving from `from` onto `to` lands: `to` itself if it is
/// empty, the tile across the border if `to` is a road, within one plot.
pub open spec fn unit_destination(f: Field, from: Pos, to: Pos) -> Option<Pos> {
    if f.keep_at(from) != f.keep_at(to) {
        None
    } else {
        match f.at(to) {
            None => Some(to),
            Some(EntityView::Road) => f.cross_target(to),
            _ => None,
        }
    }
}

/// Where goods moving from `from` onto `to` land: `to` itself if it is an
/// empty stockpile, the tile across the border if `to` is a tradepost.
pub open spec fn resource_destination(f: Field, from: Pos, to: Pos) -> Option<Pos> {
    if f.keep_at(from) != f.keep_at(to) {
        None
    } else {
        match f.at(to) {
            Some(EntityView::Stockpile(None)) => Some(to),
            Some(EntityView::Tradepost) => f.cross_target(to),
            _ => None,
        }
    }
}

/// Where a unit moving from `from` onto `to` lands.
pub fn move_unit_destination(field: &Field, from: Pos, to: Pos) -> (r: Option<Pos>)
    requires
        field.wf(),
        in_bounds(from),
        in_bounds(to),
    ensures
        r == unit_destination(*field, from, to),
        r is Some ==> near(r->0, to, 4 * field.plot_dims().x + 1, 4 * field.plot_dims().y + 1),
{
    if field.keep_location(from) != field.keep_location(to) {
        return None;
    }
    match field.get(to) {
        Some(Entity::Road) => field.cross_pos(to),
        Some(_) => None,
        None => Some(to),
    }
}

/// Where goods moving from `from` onto `to` land.
pub fn move_resource_destination(field: &Field, from: Pos, to: Pos) -> (r: Option<Pos>)
    requires
        field.wf(),
        in_bounds(from),
        in_bounds(to),
    ensures
        r == resource_destination(*field, from, to),
        r is Some ==> near(r->0, to, 4 * field.plot_dims().x + 1, 4 * field.plot_dims().y + 1),
{
    if field.keep_location(from) != field.keep_location(to) {
        return None;
    }
    match field.get(to) {
        Some(Entity::Tradepost) => field.cross_pos(to),
        Some(Entity::Stockpile(None)) => Some(to),
        _ => None,
    }
}

/// Fills the empty stockpile nearest to `pos` in its plot with one unit of
/// `res`; that stockpile, or `None` if the plot has no empty stockpile.
pub fn add_resource(field: &mut Field, pos: Pos, res: Resource) -> (r: Option<Pos>)
    requires
        old(field).wf(),
        in_range(pos),
    ensures
        final(field).wf(),
        final(field).plot_dims() == old(field).plot_dims(),
        final(field).world_dims() == old(field).world_dims(),
        r == old(field).first_match(pos, Some(EntityView::Stockpile(None))),
        final(field).tiles() == match r {
            Some(t) => old(field).tiles().insert(t, EntityView::Stockpile(Some(res))),
            None => old(field).tiles(),
        },
{
    let ghost before = *field;
    let r = field.change_tile(pos, Some(Entity::Stockpile(None)), Some(Entity::Stockpile(Some(res))));
    proof {
        assert forall|p: Pos|
            #[trigger] field.tiles().contains_key(p) && p == field.keep_at(p) implies keep_owner(
                field.at(p),
            ) is Some by {
            if r is Some && p == r->0 {
                assert(before.tiles().contains_key(p));
            }
        }
    }
    r
}

/// Whether `u` names `user`.
pub(crate) fn is_user(u: &Option<UserId>, user: &UserId) -> (r: bool)
    ensures
        r == (opt_user(*u) == Some(user@)),
{
    match u {
        Some(v) => v.same(user),
        None => false,
    }
}

/// Reach of the search for connected keeps: a plot side beyond `in_bounds`.
pub open spec fn in_reach(p: Pos) -> bool {
    -0x0800_1000 <= p.x <= 0x0800_1000 && -0x0800_1000 <= p.y <= 0x0800_1000
}

/// Whether `e` is a keep or capital of `user`.
fn held_by(e: &Option<Entity>, user: &UserId) -> (r: bool)
    ensures
        r == (keep_owner(opt_view(*e)) == Some(user@)),
{
    match e {
        Some(Entity::Keep(u)) => u.same(user),
        Some(Entity::Capital(u)) => u.same(user),
        _ => false,
    }
}

/// Whether `v` holds `k`.
fn holds(v: &Vec<Pos>, k: Pos) -> (r: bool)
    ensures
        r == v@.contains(k),
{
    let mut i: usize = 0;
    while i < v.len()
        invariant
            i <= v@.len(),
            forall|a: int| 0 <= a < i ==> v@[a] != k,
        decreases v.len() - i,
    {
        if v[i] == k {
            return true;
        }
        i = i + 1;
    }
    false
}

/// `k` holds a keep or capital of `user` in `m`.
pub open spec fn held_in(m: Map<Pos, EntityView>, user: Seq<char>, k: Pos) -> bool {
    m.contains_key(k) && keep_owner(Some(m[k])) == Some(user)
}

/// The tile one plot side `ps` from `p` towards `d`.
pub open spec fn side_step(p: Pos, d: Direction, ps: Pos) -> Pos {
    match d {
        Direction::North => Pos { x: p.x, y: (p.y - ps.y) as i32 },
        Direction::South => Pos { x: p.x, y: (p.y + ps.y) as i32 },
        Direction::East => Pos { x: (p.x + ps.x) as i32, y: p.y },
        Direction::West => Pos { x: (p.x - ps.x) as i32, y: p.y },
    }
}

/// The search for connected keeps steps from the keep `a` of `user` to the
/// keep `b` of `user` of a neighbouring plot (searching on from keeps
/// within `in_bounds` only).
pub open spec fn linked(m: Map<Pos, EntityView>, ps: Pos, user: Seq<char>, a: Pos, b: Pos) -> bool {
    &&& held_in(m, user, a)
    &&& in_bounds(a)
    &&& held_in(m, user, b)
    &&& exists|d: Direction| b == keep_of(#[trigger] side_step(a, d, ps), ps)
}

/// `path` walks from keep to linked keep of `user`.
pub open spec fn is_walk(m: Map<Pos, EntityView>, ps: Pos, user: Seq<char>, path: Seq<Pos>) -> bool {
    &&& path.len() >= 1
    &&& held_in(m, user, path[0])
    &&& forall|i: int| 0 <= i < path.len() - 1 ==> #[trigger] linked(m, ps, user, path[i], path[i + 1])
}

/// The keep `k` of `user` is connected to the keep `s`.
pub open spec fn connected(m: Map<Pos, EntityView>, ps: Pos, user: Seq<char>, s: Pos, k: Pos) -> bool {
    exists|path: Seq<Pos>| #[trigger] is_walk(m, ps, user, path) && path[0] == s && path.last() == k
}

/// The keeps of `user` connected to `s`.
pub open spec fn group(m: Map<Pos, EntityView>, ps: Pos, user: Seq<char>, s: Pos) -> Set<Pos> {
    Set::new(|k: Pos| connected(m, ps, user, s, k))
}

/// The tiles after the group of `user`'s keeps reached from the plot of `n`
/// is removed, when `user` holds that plot and the group has no capital.
pub open spec fn cull(m: Map<Pos, EntityView>, ps: Pos, user: Seq<char>, n: Pos) -> Map<Pos, EntityView> {
    let s = keep_of(n, ps);
    if held_in(m, user, s) && !(exists|k: Pos|
        connected(m, ps, user, s, k) && m[k] == EntityView::Capital(user)) {
        m.remove_keys(group(m, ps, user, s))
    } else {
        m
    }
}

/// The tiles after culling from the first `i` neighbours of `pos`, taken
/// north, south, east, west.
pub open spec fn cull_upto(m: Map<Pos, EntityView>, ps: Pos, user: Seq<char>, pos: Pos, i: int) -> Map<
    Pos,
    EntityView,
>
    decreases i,
{
    if i <= 0 {
        m
    } else {
        let d = seq![Direction::North, Direction::South, Direction::East, Direction::West][i - 1];
        cull(cull_upto(m, ps, user, pos, i - 1), ps, user, side_step(pos, d, ps))
    }
}

/// The tiles after the keep of the plot of `pos`, held by `user`, falls.
pub open spec fn fallen(m: Map<Pos, EntityView>, ps: Pos, user: Seq<char>, pos: Pos) -> Map<Pos, EntityView> {
    cull_upto(m.remove(keep_of(pos, ps)), ps, user, pos, 4)
}

/// Every keep reached along a walk from `s` is in a set that holds `s` and
/// is closed under the steps of the search.
proof fn lemma_walk_closed(
    m: Map<Pos, EntityView>,
    ps: Pos,
    user: Seq<char>,
    lands: Seq<Pos>,
    path: Seq<Pos>,
)
    requires
        is_walk(m, ps, user, path),
        lands.contains(path[0]),
        forall|a: int, d: Direction|
            0 <= a < lands.len() && in_bounds(lands[a]) ==> lands.contains(
                keep_of(#[trigger] side_step(lands[a], d, ps), ps),
            ) || !held_in(m, user, keep_of(side_step(lands[a], d, ps), ps)),
    ensures
        lands.contains(path.last()),
    decreases path.len(),
{
    if path.len() > 1 {
        let prefix = path.drop_last();
        assert forall|i: int| 0 <= i < prefix.len() - 1 implies #[trigger] linked(
            m,
            ps,
            user,
            prefix[i],
            prefix[i + 1],
        ) by {
            assert(linked(m, ps, user, path[i], path[i + 1]));
        }
        lemma_walk_closed(m, ps, user, lands, prefix);
        let a_pos = prefix.last();
        let j = path.len() - 2;
        assert(linked(m, ps, user, path[j], path[j + 1]));
        assert(path[j] == a_pos && path[j + 1] == path.last());
        let d = choose|d: Direction| path.last() == keep_of(#[trigger] side_step(a_pos, d, ps), ps);
        let a = choose|a: int| 0 <= a < lands.len() && lands[a] == a_pos;
        assert(lands.contains(keep_of(side_step(lands[a], d, ps), ps)) || !held_in(
            m,
            user,
            keep_of(side_step(lands[a], d, ps), ps),
        ));
    }
}

/// The keeps of `user` connected to the keep of the plot of `neighbour`, and
/// whether one of them is `user`'s capital.
#[verifier::rlimit(100)]
fn gather(field: &Field, user: &UserId, neighbour: Pos) -> (r: (Vec<Pos>, bool))
    requires
        field.wf(),
        in_reach(neighbour),
        held_in(field.tiles(), user@, field.keep_at(neighbour)),
    ensures
        r.0@.to_set() == group(field.tiles(), field.plot_dims(), user@, field.keep_at(neighbour)),
        r.1 == exists|k: Pos|
            connected(field.tiles(), field.plot_dims(), user@, field.keep_at(neighbour), k)
                && field.tiles()[k] == EntityView::Capital(user@),
{
    let ghost m = field.tiles();
    let ghost ps = field.plot_dims();
    let ghost s = field.keep_at(neighbour);
    let ghost u = user@;
    let dirs = Direction::directions();
    let mut has_capital = false;
    let mut lands: Vec<Pos> = Vec::new();
    let mut fringe: Vec<Pos> = Vec::new();
    fringe.push(neighbour);
    assert(fringe@[0] == neighbour);
    let ghost mut remaining: Set<Pos> = m.dom();
    while fringe.len() > 0
        invariant
            field.wf(),
            m == field.tiles(),
            ps == field.plot_dims(),
            s == field.keep_at(neighbour),
            u == user@,
            held_in(m, u, s),
            dirs@ == seq![Direction::North, Direction::South, Direction::East, Direction::West],
            remaining.finite(),
            forall|x: Pos| #[trigger] m.contains_key(x) ==> remaining.contains(x) || lands@.contains(x),
            forall|a: int| 0 <= a < fringe@.len() ==> in_reach(#[trigger] fringe@[a]),
            forall|a: int|
                0 <= a < lands@.len() ==> held_in(m, u, #[trigger] lands@[a]) && connected(m, ps, u, s, lands@[a]),
            forall|b: int|
                #![trigger fringe@[b]]
                0 <= b < fringe@.len() ==> fringe@[b] == neighbour || exists|a: int, d: Direction|
                    0 <= a < lands@.len() && in_bounds(lands@[a]) && fringe@[b] == #[trigger] side_step(
                        lands@[a],
                        d,
                        ps,
                    ),
            forall|a: int, d: Direction|
                0 <= a < lands@.len() && in_bounds(lands@[a]) ==> fringe@.contains(
                    #[trigger] side_step(lands@[a], d, ps),
                ) || lands@.contains(keep_of(side_step(lands@[a], d, ps), ps)) || !held_in(
                    m,
                    u,
                    keep_of(side_step(lands@[a], d, ps), ps),
                ),
            fringe@.contains(neighbour) || lands@.contains(s),
            has_capital == exists|a: int|
                0 <= a < lands@.len() && m[#[trigger] lands@[a]] == EntityView::Capital(u),
        decreases remaining.len(), fringe@.len(),
    {
        let ghost old_fringe = fringe@;
        let ghost old_lands = lands@;
        let p = fringe.pop().unwrap();
        proof {
            assert(old_fringe.last() == p);
            assert(fringe@ =~= old_fringe.drop_last());
            assert forall|x: Pos| old_fringe.contains(x) && x != p implies fringe@.contains(x) by {
                let b = choose|b: int| 0 <= b < old_fringe.len() && old_fringe[b] == x;
                assert(b < old_fringe.len() - 1);
                assert(fringe@[b] == x);
            }
        }
        let k = field.keep_location(p);
        let here = field.get(k);
        let known = holds(&lands, k);
        if !held_by(&here, user) || known {
            proof {
                assert forall|a: int, d: Direction|
                    0 <= a < lands@.len() && in_bounds(lands@[a]) implies fringe@.contains(
                        #[trigger] side_step(lands@[a], d, ps),
                    ) || lands@.contains(keep_of(side_step(lands@[a], d, ps), ps)) || !held_in(
                        m,
                        u,
                        keep_of(side_step(lands@[a], d, ps), ps),
                    ) by {
                    if side_step(lands@[a], d, ps) == p {
                        assert(keep_of(side_step(lands@[a], d, ps), ps) == k);
                    }
                }
            }
            continue;
        }
        // `k` is connected to `s`: either it is `s`, or it is one step from a gathered keep.
        proof {
            assert(held_in(m, u, k));
            if p == neighbour {
                let path = seq![s];
                assert(is_walk(m, ps, u, path));
                assert(connected(m, ps, u, s, k));
            } else {
                let b = old_fringe.len() - 1;
                assert(old_fringe[b] == p);
                let (a, d) = choose|a: int, d: Direction|
                    0 <= a < old_lands.len() && in_bounds(old_lands[a]) && p == #[trigger] side_step(
                        old_lands[a],
                        d,
                        ps,
                    );
                let la = old_lands[a];
                assert(connected(m, ps, u, s, la));
                let path = choose|path: Seq<Pos>| #[trigger] is_walk(m, ps, u, path) && path[0] == s
                    && path.last() == la;
                let longer = path.push(k);
                assert(linked(m, ps, u, la, k));
                assert forall|i: int| 0 <= i < longer.len() - 1 implies #[trigger] linked(
                    m,
                    ps,
                    u,
                    longer[i],
                    longer[i + 1],
                ) by {
                    if i < path.len() - 1 {
                        assert(longer[i] == path[i] && longer[i + 1] == path[i + 1]);
                    } else {
                        assert(longer[i] == la && longer[i + 1] == k);
                    }
                }
                assert(is_walk(m, ps, u, longer));
                assert(connected(m, ps, u, s, k));
            }
        }
        match here {
            Some(Entity::Capital(v)) => {
                if v.same(user) {
                    has_capital = true;
                }
            },
            _ => {},
        }
        proof {
            assert(m.contains_key(k));
            assert(remaining.contains(k));
            remaining = remaining.remove(k);
        }
        lands.push(k);
        proof {
            assert(lands@.last() == k);
            assert forall|x: Pos| #[trigger]
                m.contains_key(x) implies remaining.contains(x) || lands@.contains(x) by {
                if x == k {
                    assert(lands@[lands@.len() - 1] == k);
                } else if !remaining.contains(x) {
                    assert(old_lands.contains(x));
                    let w = choose|w: int| 0 <= w < old_lands.len() && old_lands[w] == x;
                    assert(lands@[w] == x);
                }
            }
            assert forall|x: Pos| old_lands.contains(x) implies lands@.contains(x) by {
                let w = choose|w: int| 0 <= w < old_lands.len() && old_lands[w] == x;
                assert(lands@[w] == x);
            }
        }
        let ghost popped = fringe@;
        if -0x0800_0000 <= k.x && k.x <= 0x0800_0000 && -0x0800_0000 <= k.y && k.y <= 0x0800_0000 {
            let ghost mid_fringe = fringe@;
            let mut d: usize = 0;
            while d < dirs.len()
                invariant
                    field.wf(),
                    ps == field.plot_dims(),
                    in_bounds(k),
                    dirs@ == seq![Direction::North, Direction::South, Direction::East, Direction::West],
                    d <= 4,
                    fringe@.len() == mid_fringe.len() + d,
                    fringe@.subrange(0, mid_fringe.len() as int) == mid_fringe,
                    forall|e: int| 0 <= e < d ==> fringe@[mid_fringe.len() + e] == side_step(k, #[trigger] dirs@[e], ps),
                    forall|a: int| 0 <= a < fringe@.len() ==> in_reach(#[trigger] fringe@[a]),
                decreases dirs.len() - d,
            {
                let next = plot_step_pos(field, k, dirs[d]);
                fringe.push(next);
                d = d + 1;
            }
            proof {
                assert forall|x: Pos| mid_fringe.contains(x) implies fringe@.contains(x) by {
                    let w = choose|w: int| 0 <= w < mid_fringe.len() && mid_fringe[w] == x;
                    assert(fringe@[w] == x);
                }
                assert forall|e: Direction| true implies fringe@.contains(#[trigger] side_step(k, e, ps)) by {
                    let idx: int = match e {
                        Direction::North => 0,
                        Direction::South => 1,
                        Direction::East => 2,
                        Direction::West => 3,
                    };
                    assert(dirs@[idx] == e);
                    assert(fringe@[mid_fringe.len() + idx] == side_step(k, e, ps));
                }
                assert(fringe@.subrange(0, popped.len() as int) =~= popped);
            }
        } else {
            proof {
                assert(fringe@.subrange(0, popped.len() as int) =~= popped);
            }
        }
        proof {
            assert(popped =~= old_fringe.drop_last());
            assert(fringe@.len() > popped.len() ==> in_bounds(k) && fringe@.len() == popped.len() + 4
                && forall|e: int| 0 <= e < 4 ==> fringe@[popped.len() + e] == side_step(k, #[trigger] dirs@[e], ps));
            assert forall|x: Pos| popped.contains(x) implies fringe@.contains(x) by {
                let w = choose|w: int| 0 <= w < popped.len() && popped[w] == x;
                assert(fringe@.subrange(0, popped.len() as int)[w] == x);
            }
            assert(fringe@.len() >= popped.len());
        }
        proof {
            let nl = lands@.len() - 1;
            assert forall|b: int|
                #![trigger fringe@[b]]
                0 <= b < fringe@.len() implies fringe@[b] == neighbour || exists|a: int, d: Direction|
                    0 <= a < lands@.len() && in_bounds(lands@[a]) && fringe@[b] == #[trigger] side_step(
                        lands@[a],
                        d,
                        ps,
                    ) by {
                if b < popped.len() {
                    assert(fringe@.subrange(0, popped.len() as int)[b] == fringe@[b]);
                    assert(fringe@[b] == old_fringe[b]);
                    if fringe@[b] != neighbour {
                        let (a, d) = choose|a: int, d: Direction|
                            0 <= a < old_lands.len() && in_bounds(old_lands[a]) && old_fringe[b]
                                == #[trigger] side_step(old_lands[a], d, ps);
                        assert(lands@[a] == old_lands[a]);
                    }
                } else {
                    let e = b - popped.len();
                    let dd = dirs@[e];
                    assert(fringe@[b] == side_step(k, dd, ps));
                    assert(lands@[nl] == k);
                }
            }
            assert forall|a: int, d: Direction|
                0 <= a < lands@.len() && in_bounds(lands@[a]) implies fringe@.contains(
                    #[trigger] side_step(lands@[a], d, ps),
                ) || lands@.contains(keep_of(side_step(lands@[a], d, ps), ps)) || !held_in(
                    m,
                    u,
                    keep_of(side_step(lands@[a], d, ps), ps),
                ) by {
                if a < nl {
                    assert(lands@[a] == old_lands[a]);
                    let st = side_step(lands@[a], d, ps);
                    if st == p {
                        assert(keep_of(st, ps) == k);
                        assert(lands@[nl] == k);
                    } else if old_fringe.contains(st) {
                    } else if old_lands.contains(keep_of(st, ps)) {
                    }
                }
            }
            assert(has_capital == exists|a: int|
                0 <= a < lands@.len() && m[#[trigger] lands@[a]] == EntityView::Capital(u)) by {
                if exists|a: int| 0 <= a < lands@.len() && m[#[trigger] lands@[a]] == EntityView::Capital(u) {
                    let a = choose|a: int| 0 <= a < lands@.len() && m[#[trigger] lands@[a]] == EntityView::Capital(u);
                    if a < nl {
                        assert(old_lands[a] == lands@[a]);
                    }
                }
                if has_capital {
                    if !(exists|a: int| 0 <= a < old_lands.len() && m[#[trigger] old_lands[a]] == EntityView::Capital(u)) {
                        assert(m[lands@[nl]] == EntityView::Capital(u));
                    } else {
                        let a = choose|a: int| 0 <= a < old_lands.len() && m[#[trigger] old_lands[a]] == EntityView::Capital(u);
                        assert(lands@[a] == old_lands[a]);
                    }
                }
            }
        }
    }
    proof {
        assert forall|k: Pos| #[trigger] lands@.to_set().contains(k) == group(m, ps, u, s).contains(k) by {
            if group(m, ps, u, s).contains(k) {
                let path = choose|path: Seq<Pos>| #[trigger] is_walk(m, ps, u, path) && path[0] == s
                    && path.last() == k;
                lemma_walk_closed(m, ps, u, lands@, path);
            }
            if lands@.to_set().contains(k) {
                let a = choose|a: int| 0 <= a < lands@.len() && lands@[a] == k;
            }
        }
        assert(lands@.to_set() =~= group(m, ps, u, s));
        assert(has_capital == exists|k: Pos|
            connected(m, ps, u, s, k) && m[k] == EntityView::Capital(u)) by {
            if exists|k: Pos| connected(m, ps, u, s, k) && m[k] == EntityView::Capital(u) {
                let k = choose|k: Pos| connected(m, ps, u, s, k) && m[k] == EntityView::Capital(u);
                assert(group(m, ps, u, s).contains(k));
                assert(lands@.to_set().contains(k));
                let a = choose|a: int| 0 <= a < lands@.len() && lands@[a] == k;
            }
            if has_capital {
                let a = choose|a: int| 0 <= a < lands@.len() && m[#[trigger] lands@[a]] == EntityView::Capital(u);
            }
        }
    }
    (lands, has_capital)
}

/// The entries of `s` before index `n`.
pub open spec fn first_of_seq(s: Seq<Pos>, n: int) -> Set<Pos> {
    Set::new(|x: Pos| exists|w: int| 0 <= w < n && s[w] == x)
}

/// Removes the keep of the plot of `pos`; then, for each neighbouring plot
/// still held by the same player, gathers the keeps of that player connected
/// to it by plot steps and, unless one of them is the player's capital,
/// removes them all. `None`, and no change, when the plot has no owner.
pub fn destroy_keep(field: &mut Field, pos: Pos) -> (r: Option<()>)
    requires
        old(field).wf(),
        in_bounds(pos),
    ensures
        final(field).wf(),
        final(field).plot_dims() == old(field).plot_dims(),
        final(field).world_dims() == old(field).world_dims(),
        r is None <==> old(field).owner_of(pos) is None,
        r is None ==> final(field).tiles() == old(field).tiles(),
        r is Some ==> final(field).tiles() == fallen(
            old(field).tiles(),
            old(field).plot_dims(),
            old(field).owner_of(pos)->0,
            pos,
        ),
{
    let ghost f0 = *field;
    let ghost ps = field.plot_dims();
    let user = match field.plot_owner(pos) {
        Some(u) => u,
        None => return None,
    };
    let keep = field.keep_location(pos);
    field.clear_tile(keep);
    let ghost m0 = field.tiles();
    let dirs = Direction::directions();
    let mut i: usize = 0;
    while i < dirs.len()
        invariant
            field.wf(),
            in_bounds(pos),
            ps == f0.plot_dims(),
            field.plot_dims() == ps,
            field.world_dims() == f0.world_dims(),
            m0 == f0.tiles().remove(keep_of(pos, ps)),
            dirs@ == seq![Direction::North, Direction::South, Direction::East, Direction::West],
            i <= 4,
            field.tiles() == cull_upto(m0, ps, user@, pos, i as int),
        decreases dirs.len() - i,
    {
        let ghost m = field.tiles();
        let neighbour = plot_step_pos(field, pos, dirs[i]);
        proof {
            assert(neighbour == side_step(pos, dirs@[i as int], ps));
            assert(cull_upto(m0, ps, user@, pos, i + 1) == cull(m, ps, user@, neighbour));
        }
        if is_user(&field.plot_owner(neighbour), &user) {
            let (lands, has_capital) = gather(field, &user, neighbour);
            if !has_capital {
                let mut c: usize = 0;
                while c < lands.len()
                    invariant
                        field.wf(),
                        field.plot_dims() == ps,
                        field.world_dims() == f0.world_dims(),
                        c <= lands@.len(),
                        field.tiles() == m.remove_keys(first_of_seq(lands@, c as int)),
                    decreases lands.len() - c,
                {
                    let ghost before = field.tiles();
                    field.clear_tile(lands[c]);
                    proof {
                        assert(first_of_seq(lands@, c + 1) =~= first_of_seq(lands@, c as int).insert(
                            lands@[c as int],
                        ));
                        assert(m.remove_keys(first_of_seq(lands@, c + 1)) =~= before.remove(
                            lands@[c as int],
                        ));
                    }
                    c = c + 1;
                }
                proof {
                    assert(first_of_seq(lands@, lands@.len() as int) =~= lands@.to_set());
                }
            }
        }
        i = i + 1;
    }
    Some(())
}

} // verus!
