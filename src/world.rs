//! The world engine: one tick runs every player's commands in rounds, lets a
//! tile take part in one command only, and applies attacks at round end.
use vstd::prelude::*;

use std::collections::HashSet;

use crate::buildings::{building_cost, building_result, BuildingType};
use crate::commands::{Action, Command};
use crate::entity::{entity_props, Entity, EntityView, UserId};
use crate::field::{in_bounds, in_plot_of, is_corner_of, plot_start, search_before, tdiv, key_of, keep_owner, lane_shape, lemma_key_injective, lists_tiles, entries_text, header_text, opt_user_same, pos_key, shift, Field, MAX_SIDE, MIN_GENERATED_SIDE};
use crate::locations::{Direction, Pos};
use crate::resources::{Resource, ResourceCount};
use crate::rules;
use crate::rules::{affordable, is_user, resource_destination, unit_destination};
use crate::utils;

verus! {

broadcast use vstd::std_specs::hash::group_hash_axioms;

/// How many commands of each player a tick runs.
pub const ACTION_POINTS: usize = 10;

/// Commands at positions farther out than this lie beyond any world and do nothing.
pub const COMMAND_LIMIT: i32 = 0x0400_0000;

/// `p` lies within `COMMAND_LIMIT` of the origin.
pub open spec fn in_command_range(p: Pos) -> bool {
    -COMMAND_LIMIT <= p.x <= COMMAND_LIMIT && -COMMAND_LIMIT <= p.y <= COMMAND_LIMIT
}

fn command_range(p: Pos) -> (r: bool)
    ensures
        r == in_command_range(p),
{
    -COMMAND_LIMIT <= p.x && p.x <= COMMAND_LIMIT && -COMMAND_LIMIT <= p.y && p.y <= COMMAND_LIMIT
}

/// A set of tiles.
pub struct TileSet {
    keys: HashSet<u64>,
}

impl View for TileSet {
    type V = Set<Pos>;

    closed spec fn view(&self) -> Set<Pos> {
        Set::new(|p: Pos| self.keys@.contains(pos_key(p)))
    }
}

impl TileSet {
    /// No tiles.
    pub fn new() -> (r: TileSet)
        ensures
            r@ == Set::<Pos>::empty(),
    {
        let r = TileSet { keys: HashSet::new() };
        assert(r@ =~= Set::<Pos>::empty());
        r
    }

    /// Whether `p` is in the set.
    pub fn contains(&self, p: Pos) -> (r: bool)
        ensures
            r == self@.contains(p),
    {
        let k = key_of(p);
        self.keys.contains(&k)
    }

    /// Adds `p`.
    pub fn insert(&mut self, p: Pos)
        ensures
            final(self)@ == old(self)@.insert(p),
    {
        let k = key_of(p);
        self.keys.insert(k);
        proof {
            assert forall|q: Pos| #[trigger] self@.contains(q) == old(self)@.insert(p).contains(q) by {
                lemma_key_injective(p, q);
            }
            assert(self@ =~= old(self)@.insert(p));
        }
    }
}

/// The players' commands with their names as characters.
pub open spec fn player_view(c: (UserId, Vec<Command>)) -> (Seq<char>, Seq<Command>) {
    (c.0@, c.1@)
}

/// Round `k`: the `k`-th command of every player that has one, in player order.
pub open spec fn round_of(cmds: Seq<(Seq<char>, Seq<Command>)>, k: int) -> Seq<(Seq<char>, Command)>
    decreases cmds.len(),
{
    if cmds.len() == 0 {
        Seq::empty()
    } else {
        let rest = round_of(cmds.drop_last(), k);
        if 0 <= k < cmds.last().1.len() {
            rest.push((cmds.last().0, cmds.last().1[k]))
        } else {
            rest
        }
    }
}

/// The largest number of commands any player has.
pub open spec fn most_commands(cmds: Seq<(Seq<char>, Seq<Command>)>) -> nat
    decreases cmds.len(),
{
    if cmds.len() == 0 {
        0
    } else {
        let rest = most_commands(cmds.drop_last());
        if cmds.last().1.len() > rest {
            cmds.last().1.len()
        } else {
            rest
        }
    }
}

/// The players' commands, the players named by their characters.
pub open spec fn players(cmds: Seq<(UserId, Vec<Command>)>) -> Seq<(Seq<char>, Seq<Command>)> {
    cmds.map_values(|c: (UserId, Vec<Command>)| player_view(c))
}

/// A round with the players named by their characters.
pub open spec fn round_view(r: Seq<(UserId, Command)>) -> Seq<(Seq<char>, Command)> {
    r.map_values(|e: (UserId, Command)| (e.0@, e.1))
}

/// The entities a world is generated with.
pub open spec fn is_ambient(e: EntityView) -> bool {
    e == EntityView::Rock || e == EntityView::Forest || e == EntityView::Swamp
}

/// The player owns the plot of `p`.
pub open spec fn owns(f: Field, user: Seq<char>, p: Pos) -> bool {
    f.owner_of(p) == Some(user)
}

/// What a build of `b` on `pos` needs besides payment: an empty tile, a
/// border for roads, tradeposts and scoutposts, a forest next to a
/// woodcutter and a rock next to a quarry.
pub open spec fn build_site_ok(f: Field, pos: Pos, b: BuildingType) -> bool {
    &&& f.at(pos) is None
    &&& (b == BuildingType::Road || b == BuildingType::Tradepost || b == BuildingType::Scoutpost)
        ==> f.border_of(pos) is Some
    &&& b == BuildingType::Woodcutter ==> exists|d: Direction|
        f.at(#[trigger] shift(pos, d)) == Some(EntityView::Forest)
    &&& b == BuildingType::Quarry ==> exists|d: Direction|
        f.at(#[trigger] shift(pos, d)) == Some(EntityView::Rock)
}

/// Whether an attacker destroys a target with properties `t`, and whether
/// the target stops the attack.
pub open spec fn strike(attacker: EntityView, t: EntityView) -> (bool, bool) {
    let pr = entity_props(t);
    match attacker {
        EntityView::Raider => (pr.destructible && !pr.strong, pr.stopping),
        EntityView::Warrior => (pr.mortal, pr.mortal),
        EntityView::Ram => (pr.destructible, pr.stopping),
        _ => (false, true),
    }
}

/// The tiles of `lane` an attacker destroys, walking it until something stops it.
pub open spec fn lane_hits(f: Field, attacker: EntityView, lane: Seq<Pos>) -> Seq<Pos>
    decreases lane.len(),
{
    if lane.len() == 0 {
        Seq::empty()
    } else {
        match f.at(lane[0]) {
            None => lane_hits(f, attacker, lane.drop_first()),
            Some(t) => {
                let (hit, stop) = strike(attacker, t);
                let rest = if stop {
                    Seq::empty()
                } else {
                    lane_hits(f, attacker, lane.drop_first())
                };
                if hit {
                    seq![lane[0]] + rest
                } else {
                    rest
                }
            },
        }
    }
}

/// What an attack from `pos` towards `d` queues: nothing unless a unit
/// stands there and the first tile of its lane is not its owner's.
pub open spec fn attack_hits(f: Field, user: Seq<char>, pos: Pos, d: Direction, lane: Seq<Pos>) -> Seq<
    Pos,
> {
    if f.at(pos) is None || lane.len() == 0 || f.owner_of(lane[0]) == Some(user) {
        Seq::empty()
    } else {
        lane_hits(f, f.at(pos)->0, lane)
    }
}

/// The tiles after the unit, goods or capital on `pos` moves towards `target`.
pub open spec fn move_effect(f: Field, user: Seq<char>, pos: Pos, target: Pos) -> Map<Pos, EntityView> {
    match f.at(pos) {
        None => f.tiles(),
        Some(e) => if entity_props(e).movable {
            match unit_destination(f, pos, target) {
                Some(d) => f.tiles().remove(pos).insert(d, e),
                None => f.tiles(),
            }
        } else {
            match e {
                EntityView::Stockpile(Some(r)) => match resource_destination(f, pos, target) {
                    Some(d) => f.tiles().insert(pos, EntityView::Stockpile(None)).insert(
                        d,
                        EntityView::Stockpile(Some(r)),
                    ),
                    None => f.tiles(),
                },
                EntityView::Capital(u) => if u == user && f.at(target) == Some(EntityView::Keep(user)) {
                    f.tiles().insert(pos, EntityView::Keep(user)).insert(target, EntityView::Capital(user))
                } else {
                    f.tiles()
                },
                _ => f.tiles(),
            }
        },
    }
}

/// The tiles after one unit of `r` fills the empty stockpile nearest to `pos`.
pub open spec fn produce(f: Field, pos: Pos, r: Resource) -> Map<Pos, EntityView> {
    match f.first_match(pos, Some(EntityView::Stockpile(None))) {
        Some(t) => f.tiles().insert(t, EntityView::Stockpile(Some(r))),
        None => f.tiles(),
    }
}

/// The command passes the used-tile and ownership checks and is no claim.
pub open spec fn acts(f: Field, used: Set<Pos>, user: Seq<char>, command: Command) -> bool {
    &&& !used.contains(command.pos)
    &&& in_command_range(command.pos)
    &&& owns(f, user, command.pos)
    &&& command.action != Action::Claim
}

/// `user` holds a capital on one of the world's keep tiles.
pub open spec fn holds_capital(f: Field, user: Seq<char>) -> bool {
    exists|k: Pos| f.is_world_keep(k) && f.at(k) == Some(EntityView::Capital(user))
}

/// Where a unit trained at `pos` stands: the empty tile nearest to `pos`,
/// unless that is a keep tile (which only tiny plots allow).
pub open spec fn spawn_tile(f: Field, pos: Pos) -> Option<Pos> {
    match f.first_match(pos, None) {
        Some(t) => if t != f.keep_at(t) {
            Some(t)
        } else {
            None
        },
        None => None,
    }
}

/// The tiles of `f` with `unit` on its spawn tile for `pos`, if any.
pub open spec fn placed(f: Field, pos: Pos, unit: EntityView) -> Map<Pos, EntityView> {
    match spawn_tile(f, pos) {
        Some(t) => f.tiles().insert(t, unit),
        None => f.tiles(),
    }
}

/// Training `unit` at `pos` for `cost` takes `before` to the tiles `after`
/// and the used tiles `used` to `used2`: nothing happens when the plot cannot
/// pay; else it pays and the unit stands on the empty tile nearest to `pos`,
/// if there is one, and that tile is used.
pub open spec fn trains(
    before: Field,
    after: Map<Pos, EntityView>,
    used: Set<Pos>,
    used2: Set<Pos>,
    pos: Pos,
    cost: ResourceCount,
    unit: EntityView,
) -> bool {
    if affordable(before, pos, cost) {
        exists|mid: Field|
            rules::paid(before, mid, pos, cost) && after == placed(mid, pos, unit) && used2 == match spawn_tile(mid, pos) {
                Some(t) => used.insert(t),
                None => used,
            }
    } else {
        after == before.tiles() && used2 == used
    }
}

/// Building `b` on `pos` takes `before` to the tiles `after`: when the site
/// suits and the plot can pay, it pays and the building stands on `pos`;
/// else nothing happens.
pub open spec fn builds(before: Field, after: Map<Pos, EntityView>, pos: Pos, b: BuildingType) -> bool {
    if build_site_ok(before, pos, b) && affordable(before, pos, building_cost(b)) {
        exists|mid: Field|
            rules::paid(before, mid, pos, building_cost(b)) && after == mid.tiles().insert(
                pos,
                building_result(b),
            )
    } else {
        after == before.tiles()
    }
}

/// The used tiles after what stands on `pos` moves towards `target`: the
/// landing tile and the target for units and goods, the target for a capital.
pub open spec fn move_marks(f: Field, user: Seq<char>, pos: Pos, target: Pos, used: Set<Pos>) -> Set<Pos> {
    match f.at(pos) {
        None => used,
        Some(e) => if entity_props(e).movable {
            match unit_destination(f, pos, target) {
                Some(d) => used.insert(d).insert(target),
                None => used,
            }
        } else {
            match e {
                EntityView::Stockpile(Some(_)) => match resource_destination(f, pos, target) {
                    Some(d) => used.insert(d).insert(target),
                    None => used,
                },
                EntityView::Capital(u) => if u == user && f.at(target) == Some(EntityView::Keep(user)) {
                    used.insert(target)
                } else {
                    used
                },
                _ => used,
            }
        },
    }
}

/// Using what stands on `pos` takes `before` to the tiles `after` and the
/// used tiles `used` to `used2`.
pub open spec fn uses(
    before: Field,
    after: Map<Pos, EntityView>,
    used: Set<Pos>,
    used2: Set<Pos>,
    user: Seq<char>,
    pos: Pos,
) -> bool {
    match before.at(pos) {
        Some(EntityView::Woodcutter) => after == produce(before, pos, Resource::Wood) && used2 == used,
        Some(EntityView::Quarry) => after == produce(before, pos, Resource::Wood) && used2 == used,
        Some(EntityView::Farm) => after == produce(before, pos, Resource::Food) && used2 == used,
        Some(EntityView::Lair) => trains(
            before,
            after,
            used,
            used2,
            pos,
            crate::buildings::cost(3, 0, 0, 0),
            EntityView::Raider,
        ),
        Some(EntityView::Barracks) => trains(
            before,
            after,
            used,
            used2,
            pos,
            crate::buildings::cost(5, 1, 1, 0),
            EntityView::Warrior,
        ),
        Some(EntityView::Scoutpost) => conquers(before, after, user, pos) && used2 == used,
        _ => after == before.tiles() && used2 == used,
    }
}

/// One command of `user` takes the field `before` with used tiles `used` to
/// `after` with used tiles `used2`, and queues the destructions `hits`.
pub open spec fn step(
    before: Field,
    used: Set<Pos>,
    user: Seq<char>,
    cmd: Command,
    after: Field,
    used2: Set<Pos>,
    hits: Seq<Pos>,
) -> bool {
    let pos = cmd.pos;
    &&& after.plot_dims() == before.plot_dims()
    &&& after.world_dims() == before.world_dims()
    &&& if used.contains(pos) || !in_command_range(pos) {
        after.tiles() == before.tiles() && used2 == used && hits.len() == 0
    } else if cmd.action == Action::Claim {
        &&& hits.len() == 0
        &&& if !holds_capital(before, user) && rules::claimable(before, pos) {
            after.tiles() == before.tiles().insert(before.keep_at(pos), EntityView::Capital(user))
                && used2 == used.insert(before.keep_at(pos))
        } else {
            after.tiles() == before.tiles() && used2 == used
        }
    } else if !owns(before, user, pos) {
        after.tiles() == before.tiles() && used2 == used && hits.len() == 0
    } else {
        let used1 = used.insert(pos);
        match cmd.action {
            Action::Build(b) => builds(before, after.tiles(), pos, b) && used2 == used1 && hits.len()
                == 0,
            Action::Move(target) => hits.len() == 0 && if in_command_range(target) && !used1.contains(
                target,
            ) {
                after.tiles() == move_effect(before, user, pos, target) && used2 == move_marks(
                    before,
                    user,
                    pos,
                    target,
                    used1,
                )
            } else {
                after.tiles() == before.tiles() && used2 == used1
            },
            Action::Attack(d) => after.tiles() == before.tiles() && used2 == used1 && exists|
                a: int,
                lane: Seq<Pos>,
            | lane_shape(pos, d, before.plot_dims(), a, lane) && hits == attack_hits(
                before,
                user,
                pos,
                d,
                lane,
            ),
            Action::Use => uses(before, after.tiles(), used1, used2, user, pos) && hits.len() == 0,
            Action::Remove => hits.len() == 0 && used2 == used1 && after.tiles() == if before.at(
                pos,
            ) is Some && entity_props(before.at(pos)->0).removable {
                before.tiles().remove(pos)
            } else {
                before.tiles()
            },
            Action::Claim => true,
        }
    }
}

/// A unit that defends stands on a tile of the plot searched from `p`.
pub open spec fn defended(f: Field, p: Pos) -> bool {
    exists|t: Pos|
        in_plot_of(t, p, f.plot_dims()) && t != f.keep_at(p) && #[trigger] f.at(t) is Some
            && entity_props(f.at(t)->0).defender
}

/// What a scoutpost's conquest costs: ten wood, five food, five stone.
pub open spec fn scouting_cost() -> ResourceCount {
    ResourceCount { food: 5, wood: 10, stone: 5, iron: 0 }
}

/// The tiles of `f` once the keep `k` has fallen, if someone held it.
pub open spec fn razed(f: Field, k: Pos) -> Map<Pos, EntityView> {
    match f.owner_of(k) {
        Some(o) => rules::fallen(f.tiles(), f.plot_dims(), o, k),
        None => f.tiles(),
    }
}

/// A conquest by `user` from the scoutpost on `pos` takes `before` to the
/// tiles `after`: when exactly one neighbour of `pos` lies across a border,
/// in a plot with another owner and no defender, and the plot of `pos` can
/// pay, it pays, the keep across falls, and `user` holds it.
pub open spec fn conquers(before: Field, after: Map<Pos, EntityView>, user: Seq<char>, pos: Pos) -> bool {
    match before.border_of(pos) {
        None => after == before.tiles(),
        Some(across) => if before.owner_of(pos) == before.owner_of(across) || defended(before, across)
            || !affordable(before, pos, scouting_cost()) {
            after == before.tiles()
        } else {
            exists|mid: Field|
                rules::paid(before, mid, pos, scouting_cost()) && after == razed(
                    mid,
                    before.keep_at(across),
                ).insert(before.keep_at(across), EntityView::Keep(user))
        },
    }
}

/// A player's commands cut to the first `ACTION_POINTS`.
pub open spec fn capped(c: (Seq<char>, Seq<Command>)) -> (Seq<char>, Seq<Command>) {
    (c.0, if c.1.len() > ACTION_POINTS {
        c.1.subrange(0, ACTION_POINTS as int)
    } else {
        c.1
    })
}

/// The rounds of a tick: each player's commands cut to the budget, then
/// round `k` holds every player's `k`-th command, in player order.
pub open spec fn schedule(cmds: Seq<(Seq<char>, Seq<Command>)>) -> Seq<Seq<(Seq<char>, Command)>> {
    let c = cmds.map_values(|p: (Seq<char>, Seq<Command>)| capped(p));
    Seq::new(most_commands(c), |k: int| round_of(c, k))
}

/// The lists of `hs`, one after the other.
pub open spec fn joined(hs: Seq<Seq<Pos>>) -> Seq<Pos>
    decreases hs.len(),
{
    if hs.len() == 0 {
        Seq::empty()
    } else {
        joined(hs.drop_last()) + hs.last()
    }
}

/// The states `fs` and used tiles `us` follow the commands of `round` one
/// by one, the `i`-th command queueing `hs[i]`.
pub open spec fn run_trace(
    round: Seq<(Seq<char>, Command)>,
    fs: Seq<Field>,
    us: Seq<Set<Pos>>,
    hs: Seq<Seq<Pos>>,
) -> bool {
    &&& fs.len() == round.len() + 1
    &&& us.len() == round.len() + 1
    &&& hs.len() == round.len()
    &&& forall|i: int|
        0 <= i < round.len() ==> #[trigger] step(
            fs[i],
            us[i],
            round[i].0,
            round[i].1,
            fs[i + 1],
            us[i + 1],
            hs[i],
        )
}

/// Running the commands of `round` in order from `before` with the used
/// tiles `used` ends in `after` with `used2`, having queued `hits`.
pub open spec fn runs(
    before: Field,
    used: Set<Pos>,
    round: Seq<(Seq<char>, Command)>,
    after: Field,
    used2: Set<Pos>,
    hits: Seq<Pos>,
) -> bool {
    exists|fs: Seq<Field>, us: Seq<Set<Pos>>, hs: Seq<Seq<Pos>>|
        #[trigger] run_trace(round, fs, us, hs) && fs[0] == before && us[0] == used && fs.last()
            == after && us.last() == used2 && joined(hs) == hits
}

/// The states `gs` at the start of each round, the states `es` at its end
/// before destructions, the used tiles `us` and the destructions `hs` follow
/// the rounds: each round runs from its start, and the next round starts
/// from its end with its destructions applied.
pub open spec fn tick_trace(
    rounds: Seq<Seq<(Seq<char>, Command)>>,
    gs: Seq<Field>,
    es: Seq<Field>,
    us: Seq<Set<Pos>>,
    hs: Seq<Seq<Pos>>,
) -> bool {
    &&& gs.len() == rounds.len() + 1
    &&& us.len() == rounds.len() + 1
    &&& es.len() == rounds.len()
    &&& hs.len() == rounds.len()
    &&& forall|k: int|
        0 <= k < rounds.len() ==> #[trigger] runs(gs[k], us[k], rounds[k], es[k], us[k + 1], hs[k])
            && gs[k + 1].tiles() == es[k].tiles().remove_keys(hs[k].to_set()) && gs[k + 1].plot_dims()
            == es[k].plot_dims() && gs[k + 1].world_dims() == es[k].world_dims()
}

/// Running the rounds `rounds` from `before`, one set of used tiles for the
/// whole tick starting empty, each round's destructions applied when it
/// ends, ends in `after`.
pub open spec fn ticks(before: Field, rounds: Seq<Seq<(Seq<char>, Command)>>, after: Field) -> bool {
    exists|gs: Seq<Field>, es: Seq<Field>, us: Seq<Set<Pos>>, hs: Seq<Seq<Pos>>|
        #[trigger] tick_trace(rounds, gs, es, us, hs) && gs[0] == before && us[0] == Set::<
            Pos,
        >::empty() && gs.last() == after
}

/// The four corners of the plot searched from `k`, in the order they are set.
pub open spec fn corners_of(k: Pos, ps: Pos) -> Seq<Pos> {
    let sx = plot_start(k.x as int, ps.x as int);
    let sy = plot_start(k.y as int, ps.y as int);
    seq![
        Pos { x: sx as i32, y: sy as i32 },
        Pos { x: (sx + ps.x - 1) as i32, y: sy as i32 },
        Pos { x: sx as i32, y: (sy + ps.y - 1) as i32 },
        Pos { x: (sx + ps.x - 1) as i32, y: (sy + ps.y - 1) as i32 },
    ]
}

/// `m` with `es[i]` put on `ts[i]` for each `i < j`, in order.
pub open spec fn fill(m: Map<Pos, EntityView>, ts: Seq<Pos>, es: Seq<EntityView>, j: int) -> Map<
    Pos,
    EntityView,
>
    decreases j,
{
    if j <= 0 {
        m
    } else {
        fill(m, ts, es, j - 1).insert(ts[j - 1], es[j - 1])
    }
}

/// The generator's seed for the plot of `k`: its index `(px, py)` as
/// `px + py * 67679`, cut to 32 bits.
pub open spec fn plot_seed(k: Pos, ps: Pos) -> u32 {
    (tdiv(k.x as int, ps.x as int) + tdiv(k.y as int, ps.y as int) * 67679) as u32
}

/// `l` lists the empty tiles of the plot searched from `src`, its keep
/// excepted, in search order.
pub open spec fn empty_in_order(f: Field, src: Pos, l: Seq<Pos>) -> bool {
    &&& forall|i: int| 0 <= i < l.len() ==> f.matches_in_plot(#[trigger] l[i], src, None)
    &&& forall|t: Pos| f.matches_in_plot(t, src, None) ==> #[trigger] l.contains(t)
    &&& forall|i: int, j: int| 0 <= i < j < l.len() ==> search_before(#[trigger] l[i], #[trigger] l[j], src)
}

/// Where a plot's ambient tiles go, among its `free` tiles, and what they
/// are: with `n` free tiles and the generator run three times from `seed`,
/// a forest at the first number modulo `n`, a swamp at the third and a
/// forest at the second; nothing when no tile is free.
pub open spec fn ambient_picks(free: Seq<Pos>, seed: u32) -> (Seq<Pos>, Seq<EntityView>) {
    let n = free.len() as int;
    let r0 = utils::mix(seed);
    let r1 = utils::mix(r0);
    let r2 = utils::mix(r1);
    if n == 0 {
        (Seq::empty(), Seq::empty())
    } else {
        (
            seq![free[r0 as int % n], free[r2 as int % n], free[r1 as int % n]],
            seq![EntityView::Forest, EntityView::Swamp, EntityView::Forest],
        )
    }
}

/// Generating the plot of the keep `k` takes `before` to `after`: rocks on
/// its four corners, then its ambient tiles, and nothing else.
pub open spec fn generates(before: Field, k: Pos, after: Field) -> bool {
    let ps = before.plot_dims();
    &&& after.plot_dims() == ps
    &&& after.world_dims() == before.world_dims()
    &&& exists|mid: Field, free: Seq<Pos>|
        #![trigger empty_in_order(mid, k, free)]
        mid.plot_dims() == ps && mid.tiles() == fill(
            before.tiles(),
            corners_of(k, ps),
            seq![EntityView::Rock, EntityView::Rock, EntityView::Rock, EntityView::Rock],
            4,
        ) && empty_in_order(mid, k, free) && after.tiles() == fill(
            mid.tiles(),
            ambient_picks(free, plot_seed(k, ps)).0,
            ambient_picks(free, plot_seed(k, ps)).1,
            ambient_picks(free, plot_seed(k, ps)).0.len() as int,
        )
}

/// The game state.
pub struct World {
    pub field: Field,
}

impl World {
    /// A world of `size` plots of `plot_size` tiles, with rocks on the corners
    /// of every plot and two forests and a swamp placed in each plot by a
    /// generator seeded from the plot's index.
    pub fn init(plot_size: Pos, size: Pos) -> (r: World)
        requires
            MIN_GENERATED_SIDE <= plot_size.x <= MAX_SIDE,
            MIN_GENERATED_SIDE <= plot_size.y <= MAX_SIDE,
            0 <= size.x <= MAX_SIDE,
            0 <= size.y <= MAX_SIDE,
        ensures
            r.field.wf(),
            r.field.plot_dims() == plot_size,
            r.field.world_dims() == size,
            forall|t: Pos| #[trigger] r.field.tiles().contains_key(t) ==> is_ambient(r.field.tiles()[t]),
            forall|px: int, py: int, c: Pos|
                0 <= px < size.x && 0 <= py < size.y && #[trigger] is_corner_of(
                    c,
                    r.field.world_keep(px, py),
                    plot_size,
                ) ==> r.field.at(c) == Some(EntityView::Rock),
            exists|gs: Seq<Field>|
                #![trigger gs.len()]
                gs.len() == size.x * size.y + 1 && gs[0].tiles() == Map::<Pos, EntityView>::empty()
                    && gs[0].plot_dims() == plot_size && gs[0].world_dims() == size && gs.last() == r.field
                    && forall|px: int, py: int|
                    0 <= px < size.x && 0 <= py < size.y ==> generates(
                        gs[r.field.keep_index(px, py)],
                        #[trigger] r.field.world_keep(px, py),
                        gs[r.field.keep_index(px, py) + 1],
                    ),
    {
        let mut field = Field::new(plot_size, size);
        let keeps = field.list_keeps();
        let ghost f0 = field;
        let ghost mut gseq: Seq<Field> = seq![field];
        let mut i: usize = 0;
        while i < keeps.len()
            invariant
                MIN_GENERATED_SIDE <= plot_size.x,
                MIN_GENERATED_SIDE <= plot_size.y,
                keeps@.len() == size.x * size.y,
                forall|px: int, py: int|
                    0 <= px < size.x && 0 <= py < size.y ==> keeps@[f0.keep_index(px, py)]
                        == #[trigger] f0.world_keep(px, py),
                gseq.len() == i + 1,
                gseq[0] == f0,
                gseq.last() == field,
                forall|a: int| 0 <= a < i ==> #[trigger] generates(gseq[a], keeps@[a], gseq[a + 1]),
                f0.plot_dims() == plot_size,
                f0.world_dims() == size,
                forall|px: int, py: int|
                    0 <= px < size.x && 0 <= py < size.y ==> keeps@.contains(#[trigger] f0.world_keep(px, py)),
                field.wf(),
                field.plot_dims() == plot_size,
                field.world_dims() == size,
                i <= keeps@.len(),
                forall|a: int| 0 <= a < keeps@.len() ==> crate::field::in_range(#[trigger] keeps@[a]),
                forall|a: int| 0 <= a < keeps@.len() ==> 0 <= (#[trigger] keeps@[a]).x && 0 <= keeps@[a].y,
                forall|t: Pos| #[trigger] field.tiles().contains_key(t) ==> is_ambient(field.tiles()[t]),
                forall|a: int, c: Pos|
                    0 <= a < i && #[trigger] is_corner_of(c, keeps@[a], plot_size) ==> field.at(c)
                        == Some(EntityView::Rock),
            decreases keeps.len() - i,
        {
            let keep = keeps[i];
            let plot = Pos::new(keep.x / plot_size.x, keep.y / plot_size.y);
            let start = Pos::new(keep.x - keep.x % plot_size.x, keep.y - keep.y % plot_size.y);
            let corners = [
                start,
                Pos::new(start.x + plot_size.x - 1, start.y),
                Pos::new(start.x, start.y + plot_size.y - 1),
                Pos::new(start.x + plot_size.x - 1, start.y + plot_size.y - 1),
            ];
            // corners are unavailable
            let ghost f_start = field;
            let ghost rocks = seq![EntityView::Rock, EntityView::Rock, EntityView::Rock, EntityView::Rock];
            proof {
                assert(corners@ =~= corners_of(keep, plot_size));
                assert(field.tiles() == fill(f_start.tiles(), corners@, rocks, 0));
            }
            let mut j: usize = 0;
            while j < 4
                invariant
                    MIN_GENERATED_SIDE <= plot_size.x,
                    MIN_GENERATED_SIDE <= plot_size.y,
                    field.tiles() == fill(f_start.tiles(), corners@, rocks, j as int),
                    rocks == seq![EntityView::Rock, EntityView::Rock, EntityView::Rock, EntityView::Rock],
                    field.wf(),
                    field.plot_dims() == plot_size,
                    field.world_dims() == size,
                    i < keeps@.len(),
                    keep == keeps@[i as int],
                    crate::field::in_range(keep),
                    0 <= keep.x && 0 <= keep.y,
                    forall|b: int| 0 <= b < 4 ==> #[trigger] is_corner_of(corners@[b], keep, plot_size),
                    forall|c: Pos| is_corner_of(c, keep, plot_size) ==> exists|b: int| 0 <= b < 4 && corners@[b] == c,
                    j <= 4,
                    forall|t: Pos| #[trigger] field.tiles().contains_key(t) ==> is_ambient(field.tiles()[t]),
                    forall|a: int, c: Pos|
                        0 <= a < i && #[trigger] is_corner_of(c, keeps@[a], plot_size) ==> field.at(c)
                            == Some(EntityView::Rock),
                    forall|b: int| 0 <= b < j ==> field.at(#[trigger] corners@[b]) == Some(EntityView::Rock),
                decreases 4 - j,
            {
                proof {
                    field.lemma_corner_not_keep(keep, corners@[j as int]);
                }
                field.set_tile(corners[j], Entity::Rock);
                j = j + 1;
            }
            // Place some random forests and swamps
            let ghost mid = field;
            let tiles = field.find_all(keep, None);
            #[verifier::truncate]
            let seed = (plot.x as i64 + plot.y as i64 * 67679) as u32;
            let r0 = utils::randomize(seed);
            let r1 = utils::randomize(r0);
            let r2 = utils::randomize(r1);
            let n = tiles.len();
            let ghost sd = plot_seed(keep, plot_size);
            let ghost ap = ambient_picks(tiles@, sd);
            proof {
                assert(seed == sd);
            }
            if n > 0 {
                let ghost before = field;
                let picks = [
                    (tiles[(r0 as usize) % n], Entity::Forest),
                    (tiles[(r2 as usize) % n], Entity::Swamp),
                    (tiles[(r1 as usize) % n], Entity::Forest),
                ];
                proof {
                    assert(field.tiles() == fill(mid.tiles(), ap.0, ap.1, 0));
                }
                let mut q: usize = 0;
                while q < 3
                    invariant
                        MIN_GENERATED_SIDE <= plot_size.x,
                        MIN_GENERATED_SIDE <= plot_size.y,
                        before == mid,
                        ap.0.len() == 3,
                        forall|b: int| 0 <= b < 3 ==> (#[trigger] picks@[b]).0 == ap.0[b] && picks@[b].1@ == ap.1[b],
                        field.tiles() == fill(mid.tiles(), ap.0, ap.1, q as int),
                        field.wf(),
                        field.plot_dims() == plot_size,
                        field.world_dims() == size,
                        before.inv(),
                        before.plot_dims() == plot_size,
                        crate::field::in_range(keep),
                        forall|b: int| 0 <= b < 3 ==> before.matches_in_plot(#[trigger] picks@[b].0, keep, None),
                        forall|b: int| 0 <= b < 3 ==> is_ambient(#[trigger] picks@[b].1@),
                        q <= 3,
                        forall|t: Pos| #[trigger] field.tiles().contains_key(t) ==> is_ambient(field.tiles()[t]),
                        forall|c: Pos| before.at(c) == Some(EntityView::Rock) ==> #[trigger] field.at(c) == Some(EntityView::Rock),
                    decreases 3 - q,
                {
                    proof {
                        before.lemma_plot_tile_not_keep(picks@[q as int].0, keep);
                    }
                    let (t, e) = (picks[q].0, picks[q].1.duplicate());
                    field.set_tile(t, e);
                    q = q + 1;
                }
                proof {
                    assert forall|a: int, c: Pos|
                        0 <= a < i + 1 && #[trigger] is_corner_of(c, keeps@[a], plot_size) implies field.at(c)
                            == Some(EntityView::Rock) by {
                        if a == i {
                            let b = choose|b: int| 0 <= b < 4 && corners@[b] == c;
                            assert(before.at(corners@[b]) == Some(EntityView::Rock));
                        }
                    }
                }
            } else {
                proof {
                    assert forall|a: int, c: Pos|
                        0 <= a < i + 1 && #[trigger] is_corner_of(c, keeps@[a], plot_size) implies field.at(c)
                            == Some(EntityView::Rock) by {
                        if a == i {
                            let b = choose|b: int| 0 <= b < 4 && corners@[b] == c;
                            assert(field.at(corners@[b]) == Some(EntityView::Rock));
                        }
                    }
                }
            }
            proof {
                if n == 0 {
                    assert(field.tiles() == fill(mid.tiles(), ap.0, ap.1, ap.0.len() as int));
                }
                assert(empty_in_order(mid, keep, tiles@));
                assert(generates(gseq.last(), keep, field));
                let old_g = gseq;
                gseq = gseq.push(field);
                assert forall|a: int| 0 <= a < i + 1 implies #[trigger] generates(gseq[a], keeps@[a], gseq[a + 1]) by {
                    if a < i {
                        assert(gseq[a] == old_g[a] && gseq[a + 1] == old_g[a + 1]);
                    }
                }
            }
            i = i + 1;
        }
        proof {
            let sx = size.x as int;
            let sy = size.y as int;
            assert forall|px: int, py: int|
                0 <= px < size.x && 0 <= py < size.y implies generates(
                    gseq[field.keep_index(px, py)],
                    #[trigger] field.world_keep(px, py),
                    gseq[field.keep_index(px, py) + 1],
                ) by {
                assert(0 <= px * sy) by (nonlinear_arith)
                    requires
                        0 <= px,
                        0 <= sy,
                ;
                assert((px + 1) * sy <= sx * sy) by (nonlinear_arith)
                    requires
                        px + 1 <= sx,
                        0 <= sy,
                ;
                assert((px + 1) * sy == px * sy + sy) by (nonlinear_arith);
                let a = field.keep_index(px, py);
                assert(a == f0.keep_index(px, py));
                assert(field.world_keep(px, py) == f0.world_keep(px, py));
                assert(keeps@[a] == field.world_keep(px, py));
            }
            assert(gseq.len() == size.x * size.y + 1);
        }
        proof {
            assert forall|px: int, py: int, c: Pos|
                0 <= px < size.x && 0 <= py < size.y && #[trigger] is_corner_of(
                    c,
                    field.world_keep(px, py),
                    plot_size,
                ) implies field.at(c) == Some(EntityView::Rock) by {
                assert(field.world_keep(px, py) == f0.world_keep(px, py));
                assert(keeps@.contains(field.world_keep(px, py)));
                let a = choose|a: int| 0 <= a < keeps@.len() && keeps@[a] == field.world_keep(px, py);
                assert(is_corner_of(c, keeps@[a], plot_size));
            }
        }
        World { field }
    }

    /// A world on `field`.
    pub fn new(field: Field) -> (r: World)
        ensures
            r.field == field,
    {
        World { field }
    }

    /// The commands in rounds: round `k` holds the `k`-th command of every
    /// player that has one, in player order.
    pub fn order_commands(commands: &[(UserId, Vec<Command>)]) -> (r: Vec<Vec<(UserId, Command)>>)
        ensures
            r@.len() == most_commands(commands@.map_values(|c: (UserId, Vec<Command>)| player_view(c))),
            forall|k: int|
                0 <= k < r@.len() ==> round_view(#[trigger] r@[k]@) == round_of(
                    commands@.map_values(|c: (UserId, Vec<Command>)| player_view(c)),
                    k,
                ),
    {
        let ghost cv = commands@.map_values(|c: (UserId, Vec<Command>)| player_view(c));
        let mut most: usize = 0;
        let mut i: usize = 0;
        while i < commands.len()
            invariant
                cv == commands@.map_values(|c: (UserId, Vec<Command>)| player_view(c)),
                i <= commands@.len(),
                most == most_commands(cv.subrange(0, i as int)),
            decreases commands.len() - i,
        {
            proof {
                assert(cv.subrange(0, i + 1).drop_last() =~= cv.subrange(0, i as int));
            }
            if commands[i].1.len() > most {
                most = commands[i].1.len();
            }
            i = i + 1;
        }
        proof {
            assert(cv.subrange(0, cv.len() as int) =~= cv);
        }
        let mut ordered: Vec<Vec<(UserId, Command)>> = Vec::new();
        let mut k: usize = 0;
        while k < most
            invariant
                cv == commands@.map_values(|c: (UserId, Vec<Command>)| player_view(c)),
                most == most_commands(cv),
                k <= most,
                ordered@.len() == k,
                forall|a: int| 0 <= a < k ==> round_view(#[trigger] ordered@[a]@) == round_of(cv, a),
            decreases most - k,
        {
            let mut round: Vec<(UserId, Command)> = Vec::new();
            let mut j: usize = 0;
            while j < commands.len()
                invariant
                    cv == commands@.map_values(|c: (UserId, Vec<Command>)| player_view(c)),
                    j <= commands@.len(),
                    round_view(round@) == round_of(cv.subrange(0, j as int), k as int),
                decreases commands.len() - j,
            {
                proof {
                    assert(cv.subrange(0, j + 1).drop_last() =~= cv.subrange(0, j as int));
                }
                if k < commands[j].1.len() {
                    let entry = (commands[j].0.duplicate(), commands[j].1[k]);
                    let ghost before = round@;
                    round.push(entry);
                    proof {
                        assert(round_view(round@) =~= round_view(before).push((entry.0@, entry.1)));
                    }
                }
                j = j + 1;
            }
            proof {
                assert(cv.subrange(0, cv.len() as int) =~= cv);
            }
            ordered.push(round);
            k = k + 1;
        }
        ordered
    }

    /// Runs one tick: every player's first `ACTION_POINTS` commands, in rounds.
    #[verifier::rlimit(60)]
    pub fn update(&mut self, commands: &[(UserId, Vec<Command>)])
        requires
            old(self).field.wf(),
        ensures
            final(self).field.wf(),
            ticks(old(self).field, schedule(players(commands@)), final(self).field),
    {
        let ghost cv = players(commands@);
        let mut limited: Vec<(UserId, Vec<Command>)> = Vec::new();
        let mut i: usize = 0;
        while i < commands.len()
            invariant
                cv == players(commands@),
                i <= commands@.len(),
                limited@.len() == i,
                forall|j: int| 0 <= j < i ==> player_view(#[trigger] limited@[j]) == capped(cv[j]),
            decreases commands.len() - i,
        {
            limited.push(
                (commands[i].0.duplicate(), utils::truncated(commands[i].1.as_slice(), ACTION_POINTS)),
            );
            i = i + 1;
        }
        let ghost lv = limited@.map_values(|c: (UserId, Vec<Command>)| player_view(c));
        proof {
            assert(lv =~= cv.map_values(|p: (Seq<char>, Seq<Command>)| capped(p)));
        }
        let ordered = Self::order_commands(limited.as_slice());
        let ghost rounds = schedule(cv);
        proof {
            assert(rounds.len() == ordered@.len());
            assert forall|k: int| 0 <= k < rounds.len() implies #[trigger] rounds[k] == round_view(ordered@[k]@) by {}
            assert(rounds.subrange(0, 0) =~= Seq::<Seq<(Seq<char>, Command)>>::empty());
        }
        let mut used_tiles = TileSet::new();
        let ghost start = self.field;
        let ghost mut gs: Seq<Field> = seq![self.field];
        let ghost mut es: Seq<Field> = Seq::empty();
        let ghost mut ugs: Seq<Set<Pos>> = seq![used_tiles@];
        let ghost mut hgs: Seq<Seq<Pos>> = Seq::empty();
        let mut r: usize = 0;
        while r < ordered.len()
            invariant
                rounds == schedule(cv),
                rounds.len() == ordered@.len(),
                forall|k: int| 0 <= k < rounds.len() ==> #[trigger] rounds[k] == round_view(ordered@[k]@),
                self.field.wf(),
                r <= ordered@.len(),
                tick_trace(rounds.subrange(0, r as int), gs, es, ugs, hgs),
                gs[0] == start,
                ugs[0] == Set::<Pos>::empty(),
                gs.last() == self.field,
                ugs.last() == used_tiles@,
            decreases ordered.len() - r,
        {
            let mut destroyed: Vec<Pos> = Vec::new();
            let round = &ordered[r];
            let ghost rv = round_view(round@);
            let ghost fs = self.field;
            let ghost us = used_tiles@;
            let ghost mut fseq: Seq<Field> = seq![self.field];
            let ghost mut useq: Seq<Set<Pos>> = seq![used_tiles@];
            let ghost mut hseq: Seq<Seq<Pos>> = Seq::empty();
            let mut c: usize = 0;
            proof {
                assert(destroyed@ =~= joined(hseq));
            }
            while c < round.len()
                invariant
                    rv == round_view(round@),
                    self.field.wf(),
                    c <= round@.len(),
                    run_trace(rv.subrange(0, c as int), fseq, useq, hseq),
                    fseq[0] == fs,
                    useq[0] == us,
                    fseq.last() == self.field,
                    useq.last() == used_tiles@,
                    joined(hseq) == destroyed@,
                decreases round.len() - c,
            {
                let entry = &round[c];
                let ghost f1 = self.field;
                let ghost u1 = used_tiles@;
                let ghost d1 = destroyed@;
                self.run_command(&entry.0, &entry.1, &mut used_tiles, &mut destroyed);
                proof {
                    let h = destroyed@.subrange(d1.len() as int, destroyed@.len() as int);
                    assert(destroyed@ =~= d1 + h);
                    let old_f = fseq;
                    let old_u = useq;
                    let old_h = hseq;
                    fseq = fseq.push(self.field);
                    useq = useq.push(used_tiles@);
                    hseq = hseq.push(h);
                    assert(hseq.drop_last() =~= old_h);
                    let x = rv.subrange(0, c + 1);
                    assert(x[c as int] == (entry.0@, entry.1));
                    assert forall|i: int| 0 <= i < x.len() implies #[trigger] step(
                        fseq[i],
                        useq[i],
                        x[i].0,
                        x[i].1,
                        fseq[i + 1],
                        useq[i + 1],
                        hseq[i],
                    ) by {
                        if i < c {
                            assert(x[i] == rv.subrange(0, c as int)[i]);
                            assert(fseq[i] == old_f[i] && fseq[i + 1] == old_f[i + 1]);
                            assert(useq[i] == old_u[i] && useq[i + 1] == old_u[i + 1]);
                            assert(hseq[i] == old_h[i]);
                        }
                    }
                }
                c = c + 1;
            }
            proof {
                assert(rv.subrange(0, round@.len() as int) =~= rv);
                assert(runs(fs, us, rv, self.field, used_tiles@, destroyed@));
            }
            let ghost end = self.field;
            let mut d: usize = 0;
            while d < destroyed.len()
                invariant
                    self.field.wf(),
                    self.field.plot_dims() == end.plot_dims(),
                    self.field.world_dims() == end.world_dims(),
                    d <= destroyed@.len(),
                    self.field.tiles() == end.tiles().remove_keys(rules::first_of_seq(destroyed@, d as int)),
                decreases destroyed.len() - d,
            {
                let ghost before = self.field.tiles();
                self.field.clear_tile(destroyed[d]);
                proof {
                    assert(rules::first_of_seq(destroyed@, d + 1) =~= rules::first_of_seq(destroyed@, d as int).insert(
                        destroyed@[d as int],
                    ));
                    assert(end.tiles().remove_keys(rules::first_of_seq(destroyed@, d + 1)) =~= before.remove(
                        destroyed@[d as int],
                    ));
                }
                d = d + 1;
            }
            proof {
                assert(rules::first_of_seq(destroyed@, destroyed@.len() as int) =~= destroyed@.to_set());
                let old_g = gs;
                let old_e = es;
                let old_u = ugs;
                let old_h = hgs;
                gs = gs.push(self.field);
                es = es.push(end);
                ugs = ugs.push(used_tiles@);
                hgs = hgs.push(destroyed@);
                let y = rounds.subrange(0, r + 1);
                assert(y[r as int] == rv);
                assert forall|k: int| 0 <= k < y.len() implies #[trigger] runs(gs[k], ugs[k], y[k], es[k], ugs[k + 1], hgs[k])
                    && gs[k + 1].tiles() == es[k].tiles().remove_keys(hgs[k].to_set()) && gs[k + 1].plot_dims()
                    == es[k].plot_dims() && gs[k + 1].world_dims() == es[k].world_dims() by {
                    if k < r {
                        assert(y[k] == rounds.subrange(0, r as int)[k]);
                        assert(gs[k] == old_g[k] && gs[k + 1] == old_g[k + 1]);
                        assert(es[k] == old_e[k]);
                        assert(ugs[k] == old_u[k] && ugs[k + 1] == old_u[k + 1]);
                        assert(hgs[k] == old_h[k]);
                    }
                }
                assert(gs.len() == y.len() + 1 && ugs.len() == y.len() + 1 && es.len() == y.len() && hgs.len() == y.len());
                assert(tick_trace(y, gs, es, ugs, hgs));
            }
            r = r + 1;
        }
        proof {
            assert(rounds.subrange(0, rounds.len() as int) =~= rounds);
            assert(tick_trace(rounds, gs, es, ugs, hgs));
        }
    }

    /// Whether `user` holds a capital on one of the world's keep tiles.
    fn has_capital(&self, user: &UserId) -> (r: bool)
        requires
            self.field.wf(),
        ensures
            r == holds_capital(self.field, user@),
    {
        let keeps = self.field.list_keeps();
        let mut i: usize = 0;
        while i < keeps.len()
            invariant
                self.field.wf(),
                i <= keeps@.len(),
                forall|a: int| 0 <= a < i ==> self.field.at(#[trigger] keeps@[a]) != Some(EntityView::Capital(user@)),
                forall|a: int| 0 <= a < keeps@.len() ==> self.field.is_world_keep(#[trigger] keeps@[a]),
                forall|px: int, py: int|
                    0 <= px < self.field.world_dims().x && 0 <= py < self.field.world_dims().y ==> keeps@.contains(
                        #[trigger] self.field.world_keep(px, py),
                    ),
            decreases keeps.len() - i,
        {
            match self.field.get(keeps[i]) {
                Some(Entity::Capital(u)) => {
                    if u.same(user) {
                        proof {
                            assert(self.field.is_world_keep(keeps@[i as int]));
                        }
                        return true;
                    }
                },
                _ => {},
            }
            i = i + 1;
        }
        proof {
            assert forall|k: Pos| !(self.field.is_world_keep(k) && self.field.at(k) == Some(EntityView::Capital(user@))) by {
                if self.field.is_world_keep(k) {
                    let (px, py) = choose|px: int, py: int|
                        0 <= px < self.field.world_dims().x && 0 <= py < self.field.world_dims().y && k
                            == #[trigger] self.field.world_keep(px, py);
                    assert(keeps@.contains(self.field.world_keep(px, py)));
                    let a = choose|a: int| 0 <= a < keeps@.len() && keeps@[a] == k;
                }
            }
        }
        false
    }

    /// Runs one command of `user`. A command on a tile already used this
    /// tick, or on a plot `user` does not own (but for a claim), does nothing.
    pub fn run_command(
        &mut self,
        user: &UserId,
        command: &Command,
        used_tiles: &mut TileSet,
        destroyed: &mut Vec<Pos>,
    )
        requires
            old(self).field.wf(),
        ensures
            final(self).field.wf(),
            final(destroyed)@.len() >= old(destroyed)@.len(),
            final(destroyed)@.subrange(0, old(destroyed)@.len() as int) == old(destroyed)@,
            step(
                old(self).field,
                old(used_tiles)@,
                user@,
                *command,
                final(self).field,
                final(used_tiles)@,
                final(destroyed)@.subrange(old(destroyed)@.len() as int, final(destroyed)@.len() as int),
            ),
    {
        if used_tiles.contains(command.pos) {
            return;
        }
        let pos = command.pos;
        if !command_range(pos) {
            return;
        }
        if command.action == Action::Claim && !self.has_capital(user) {
            match rules::claim_first_keep(&mut self.field, pos, user.duplicate()) {
                Some(k) => used_tiles.insert(k),
                None => {},
            }
        }
        let owner = self.field.plot_owner(pos);
        if !is_user(&owner, user) {
            return;
        }
        if command.action == Action::Claim {
            return;
        }
        used_tiles.insert(pos);
        let ghost d0 = destroyed@;
        match command.action {
            Action::Build(b) => self.build(pos, b),
            Action::Move(target) => self.move_from(user, pos, target, used_tiles),
            Action::Attack(dir) => {
                self.attack(user, pos, dir, destroyed);
                proof {
                    let (a, lane) = choose|a: int, lane: Seq<Pos>|
                        lane_shape(pos, dir, self.field.plot_dims(), a, lane) && destroyed@ == d0
                            + attack_hits(self.field, user@, pos, dir, lane);
                    assert(destroyed@.subrange(d0.len() as int, destroyed@.len() as int) =~= attack_hits(
                        self.field,
                        user@,
                        pos,
                        dir,
                        lane,
                    ));
                    assert(destroyed@.subrange(0, d0.len() as int) =~= d0);
                }
            },
            Action::Use => self.use_at(user, pos, used_tiles),
            Action::Remove => {
                match self.field.get(pos) {
                    Some(ent) => {
                        if ent.properties().removable {
                            self.field.clear_tile(pos);
                        }
                    },
                    None => {},
                }
            },
            Action::Claim => {},
        }
        proof {
            if !(command.action is Attack) {
                assert(destroyed@.subrange(d0.len() as int, destroyed@.len() as int) =~= Seq::<Pos>::empty());
            }
            assert(destroyed@.subrange(0, d0.len() as int) =~= d0);
        }
    }

    /// Builds `b` on `pos` when the site suits it and the plot can pay for it.
    fn build(&mut self, pos: Pos, b: BuildingType)
        requires
            old(self).field.wf(),
            in_bounds(pos),
            old(self).field.owner_of(pos) is Some,
        ensures
            final(self).field.wf(),
            final(self).field.plot_dims() == old(self).field.plot_dims(),
            final(self).field.world_dims() == old(self).field.world_dims(),
            builds(old(self).field, final(self).field.tiles(), pos, b),
    {
        if self.field.get(pos).is_some() {
            return;
        }
        if b == BuildingType::Road || b == BuildingType::Tradepost || b == BuildingType::Scoutpost {
            if self.field.across_border(pos).is_none() {
                return;
            }
        }
        if b == BuildingType::Woodcutter && !self.field.neighbours(pos, Some(Entity::Forest)) {
            return;
        }
        if b == BuildingType::Quarry && !self.field.neighbours(pos, Some(Entity::Rock)) {
            return;
        }
        let (cost, ent) = b.cost_result();
        let ghost before = self.field;
        if rules::pay(&mut self.field, pos, &cost) {
            let ghost mid = self.field;
            proof {
                assert(self.field.at(pos) == before.at(pos));
                assert(pos != self.field.keep_at(pos));
            }
            self.field.set_tile(pos, ent);
            proof {
                assert(rules::paid(before, mid, pos, building_cost(b)));
            }
        }
    }

    /// Moves what stands on `pos` towards `target`: a unit onto an empty tile
    /// or across a road, goods onto an empty stockpile or across a
    /// tradepost, a capital onto another keep of its owner.
    fn move_from(&mut self, user: &UserId, pos: Pos, target: Pos, used_tiles: &mut TileSet)
        requires
            old(self).field.wf(),
            in_bounds(pos),
            owns(old(self).field, user@, pos),
            old(used_tiles)@.contains(pos),
        ensures
            final(self).field.wf(),
            final(self).field.plot_dims() == old(self).field.plot_dims(),
            final(self).field.world_dims() == old(self).field.world_dims(),
            old(used_tiles)@.subset_of(final(used_tiles)@),
            final(self).field.tiles() == if in_command_range(target) && !old(used_tiles)@.contains(target) {
                move_effect(old(self).field, user@, pos, target)
            } else {
                old(self).field.tiles()
            },
            final(used_tiles)@ == if in_command_range(target) && !old(used_tiles)@.contains(target) {
                move_marks(old(self).field, user@, pos, target, old(used_tiles)@)
            } else {
                old(used_tiles)@
            },
    {
        if !command_range(target) || used_tiles.contains(target) {
            return;
        }
        let ent = match self.field.get(pos) {
            Some(e) => e,
            None => return,
        };
        if ent.properties().movable {
            match rules::move_unit_destination(&self.field, pos, target) {
                Some(d) => {
                    proof {
                        self.lemma_landing(pos, target, d);
                    }
                    self.field.clear_tile(pos);
                    self.field.set_tile(d, ent);
                    used_tiles.insert(d);
                    used_tiles.insert(target);
                },
                None => {},
            }
        } else {
            match ent {
                Entity::Stockpile(Some(res)) => {
                    match rules::move_resource_destination(&self.field, pos, target) {
                        Some(d) => {
                            proof {
                                self.lemma_goods_landing(pos, target, d);
                            }
                            self.field.set_tile(pos, Entity::Stockpile(None));
                            self.field.set_tile(d, Entity::Stockpile(Some(res)));
                            used_tiles.insert(d);
                            used_tiles.insert(target);
                        },
                        None => {},
                    }
                },
                Entity::Capital(owner) => {
                    if owner.same(user) {
                        match self.field.get(target) {
                            Some(Entity::Keep(k)) => {
                                if k.same(user) {
                                    self.field.set_tile(pos, Entity::Keep(user.duplicate()));
                                    self.field.set_tile(target, Entity::Capital(user.duplicate()));
                                    used_tiles.insert(target);
                                }
                            },
                            _ => {},
                        }
                    }
                },
                _ => {},
            }
        }
    }

    /// A unit landing spot is no keep tile.
    proof fn lemma_landing(&self, pos: Pos, target: Pos, d: Pos)
        requires
            self.field.wf(),
            in_bounds(pos),
            in_bounds(target),
            self.field.owner_of(pos) is Some,
            self.field.at(pos) is Some,
            unit_destination(self.field, pos, target) == Some(d),
        ensures
            d != self.field.keep_at(d),
            d != pos,
            self.field.at(d) is None,
    {
        let f = self.field;
        if f.at(target) is None {
            assert(d == target);
        } else {
        }
    }

    /// A landing spot for goods is no keep tile.
    proof fn lemma_goods_landing(&self, pos: Pos, target: Pos, d: Pos)
        requires
            self.field.wf(),
            in_bounds(pos),
            in_bounds(target),
            self.field.owner_of(pos) is Some,
            resource_destination(self.field, pos, target) == Some(d),
        ensures
            d != self.field.keep_at(d),
    {
        let f = self.field;
        if f.at(target) == Some(EntityView::Stockpile(None)) {
            assert(d == target);
            assert(f.tiles().contains_key(d));
        } else {
        }
    }

    /// Queues the tiles that an attack from `pos` towards `dir` destroys.
    fn attack(&self, user: &UserId, pos: Pos, dir: Direction, destroyed: &mut Vec<Pos>)
        requires
            self.field.wf(),
            in_bounds(pos),
        ensures
            exists|a: int, lane: Seq<Pos>|
                lane_shape(pos, dir, self.field.plot_dims(), a, lane) && final(destroyed)@ == old(destroyed)@ + attack_hits(self.field, user@, pos, dir, lane),
    {
        let lane = self.field.neighbour_lane(pos, dir);
        let ghost start = destroyed@;
        let ghost f = self.field;
        let ent = match self.field.get(pos) {
            Some(e) => e,
            None => {
                proof {
                    assert(destroyed@ =~= start + attack_hits(f, user@, pos, dir, lane@));
                }
                return;
            },
        };
        if lane.len() == 0 || is_user(&self.field.plot_owner(lane[0]), user) {
            proof {
                assert(destroyed@ =~= start + attack_hits(f, user@, pos, dir, lane@));
            }
            return;
        }
        let ghost goal = start + lane_hits(f, ent@, lane@);
        let mut i: usize = 0;
        proof {
            assert(lane@.subrange(0, lane@.len() as int) =~= lane@);
            assert(start =~= start + Seq::<Pos>::empty());
        }
        while i < lane.len()
            invariant_except_break
                self.field == f,
                f.wf(),
                i <= lane@.len(),
                destroyed@ + lane_hits(f, ent@, lane@.subrange(i as int, lane@.len() as int)) == goal,
            ensures
                destroyed@ == goal,
            decreases lane.len() - i,
        {
            let p = lane[i];
            let ghost rest = lane@.subrange(i as int, lane@.len() as int);
            proof {
                assert(rest[0] == p);
                assert(rest.drop_first() =~= lane@.subrange(i + 1, lane@.len() as int));
            }
            match self.field.get(p) {
                Some(target) => {
                    let props = target.properties();
                    let ghost before = destroyed@;
                    let (hit, stop) = match ent {
                        Entity::Raider => (props.destructible && !props.strong, props.stopping),
                        Entity::Warrior => (props.mortal, props.mortal),
                        Entity::Ram => (props.destructible, props.stopping),
                        _ => (false, true),
                    };
                    assert((hit, stop) == strike(ent@, target@));
                    if hit {
                        destroyed.push(p);
                    }
                    proof {
                        let tail = if stop {
                            Seq::<Pos>::empty()
                        } else {
                            lane_hits(f, ent@, rest.drop_first())
                        };
                        if hit {
                            assert(destroyed@ + tail =~= before + (seq![p] + tail));
                        } else {
                            assert(destroyed@ + tail =~= before + tail);
                        }
                        if stop {
                            assert(destroyed@ =~= destroyed@ + Seq::<Pos>::empty());
                        }
                    }
                    if stop {
                        break;
                    }
                },
                None => {},
            }
            i = i + 1;
        }
        proof {
            assert(lane@.subrange(lane@.len() as int, lane@.len() as int) =~= Seq::<Pos>::empty());
            assert(destroyed@ =~= start + attack_hits(f, user@, pos, dir, lane@));
        }
    }

    /// Uses the building on `pos`: production fills the nearest empty
    /// stockpile, training pays and puts a unit on the nearest empty tile, a
    /// scoutpost pays and conquers the plot across its border.
    fn use_at(&mut self, user: &UserId, pos: Pos, used_tiles: &mut TileSet)
        requires
            old(self).field.wf(),
            in_command_range(pos),
            owns(old(self).field, user@, pos),
        ensures
            final(self).field.wf(),
            final(self).field.plot_dims() == old(self).field.plot_dims(),
            final(self).field.world_dims() == old(self).field.world_dims(),
            uses(old(self).field, final(self).field.tiles(), old(used_tiles)@, final(used_tiles)@, user@, pos),
    {
        let ent = match self.field.get(pos) {
            Some(e) => e,
            None => return,
        };
        match ent {
            Entity::Woodcutter => {
                rules::add_resource(&mut self.field, pos, Resource::Wood);
            },
            Entity::Quarry => {
                rules::add_resource(&mut self.field, pos, Resource::Wood);
            },
            Entity::Farm => {
                rules::add_resource(&mut self.field, pos, Resource::Food);
            },
            Entity::Lair => {
                let cost = ResourceCount { food: 3, wood: 0, stone: 0, iron: 0 };
                self.train(pos, &cost, Entity::Raider, used_tiles);
            },
            Entity::Barracks => {
                let cost = ResourceCount { food: 5, wood: 1, stone: 1, iron: 0 };
                self.train(pos, &cost, Entity::Warrior, used_tiles);
            },
            Entity::Scoutpost => {
                self.conquer(user, pos);
            },
            _ => {},
        }
    }

    /// Pays `cost` and puts `unit` on the empty tile nearest to `pos`.
    fn train(&mut self, pos: Pos, cost: &ResourceCount, unit: Entity, used_tiles: &mut TileSet)
        requires
            old(self).field.wf(),
            in_bounds(pos),
            keep_owner(Some(unit@)) is None,
        ensures
            final(self).field.wf(),
            final(self).field.plot_dims() == old(self).field.plot_dims(),
            final(self).field.world_dims() == old(self).field.world_dims(),
            old(used_tiles)@.subset_of(final(used_tiles)@),
            trains(old(self).field, final(self).field.tiles(), old(used_tiles)@, final(used_tiles)@, pos, *cost, unit@),
    {
        let ghost f0 = self.field;
        if rules::pay(&mut self.field, pos, cost) {
            let ghost before = self.field;
            match self.field.find(pos, None) {
                Some(p) => {
                    if self.field.keep_location(p) == p {
                        proof {
                            assert(rules::paid(f0, before, pos, *cost));
                            assert(spawn_tile(before, pos) is None);
                            assert(self.field.tiles() == placed(before, pos, unit@));
                            assert(rules::paid(f0, before, pos, *cost) && self.field.tiles() == placed(
                                before,
                                pos,
                                unit@,
                            ) && used_tiles@ == match spawn_tile(before, pos) {
                                Some(t) => old(used_tiles)@.insert(t),
                                None => old(used_tiles)@,
                            });
                        }
                        return;
                    }
                    self.field.set_tile(p, unit);
                    used_tiles.insert(p);
                    proof {
                        assert(rules::paid(f0, before, pos, *cost));
                        assert(self.field.tiles() == placed(before, pos, unit@));
                    }
                },
                None => {
                    proof {
                        assert(rules::paid(f0, before, pos, *cost));
                        assert(self.field.tiles() == placed(before, pos, unit@));
                    }
                },
            }
        }
    }

    /// Conquers the plot across the border from the scoutpost on `pos`, when
    /// it has another owner, no defender, and the plot of `pos` can pay.
    fn conquer(&mut self, user: &UserId, pos: Pos)
        requires
            old(self).field.wf(),
            in_command_range(pos),
        ensures
            final(self).field.wf(),
            final(self).field.plot_dims() == old(self).field.plot_dims(),
            final(self).field.world_dims() == old(self).field.world_dims(),
            conquers(old(self).field, final(self).field.tiles(), user@, pos),
    {
        let ghost f0 = self.field;
        let across = match self.field.across_border(pos) {
            Some(p) => p,
            None => return,
        };
        if opt_user_same(&self.field.plot_owner(pos), &self.field.plot_owner(across)) {
            return;
        }
        if self.has_defender(across) {
            return;
        }
        let cost = ResourceCount { food: 5, wood: 10, stone: 5, iron: 0 };
        if rules::pay(&mut self.field, pos, &cost) {
            let ghost mid = self.field;
            let keep = self.field.keep_location(across);
            rules::destroy_keep(&mut self.field, keep);
            let ghost fell = self.field.tiles();
            let keep = self.field.keep_location(across);
            self.field.set_tile(keep, Entity::Keep(user.duplicate()));
            proof {
                assert(fell == razed(mid, f0.keep_at(across)));
                assert(rules::paid(f0, mid, pos, scouting_cost()));
            }
        }
    }

    /// Whether a defending unit stands in the plot of `pos`.
    fn has_defender(&self, pos: Pos) -> (r: bool)
        requires
            self.field.wf(),
            crate::field::in_range(pos),
        ensures
            r == defended(self.field, pos),
    {
        let tiles = self.field.tiles_in_plot(pos);
        let mut i: usize = 0;
        while i < tiles.len()
            invariant
                self.field.wf(),
                i <= tiles@.len(),
                forall|a: int|
                    0 <= a < tiles@.len() ==> in_plot_of(#[trigger] tiles@[a], pos, self.field.plot_dims())
                        && tiles@[a] != self.field.keep_at(pos),
                forall|t: Pos|
                    in_plot_of(t, pos, self.field.plot_dims()) && t != self.field.keep_at(pos)
                        ==> #[trigger] tiles@.contains(t),
                forall|a: int|
                    0 <= a < i ==> !(#[trigger] self.field.at(tiles@[a]) is Some && entity_props(
                        self.field.at(tiles@[a])->0,
                    ).defender),
            decreases tiles.len() - i,
        {
            match self.field.get(tiles[i]) {
                Some(e) => {
                    if e.properties().defender {
                        proof {
                            assert(self.field.at(tiles@[i as int]) is Some);
                        }
                        return true;
                    }
                },
                None => {},
            }
            i = i + 1;
        }
        proof {
            assert forall|t: Pos|
                !(in_plot_of(t, pos, self.field.plot_dims()) && t != self.field.keep_at(pos)
                    && #[trigger] self.field.at(t) is Some && entity_props(self.field.at(t)->0).defender) by {
                if in_plot_of(t, pos, self.field.plot_dims()) && t != self.field.keep_at(pos) {
                    assert(tiles@.contains(t));
                    let a = choose|a: int| 0 <= a < tiles@.len() && tiles@[a] == t;
                    assert(!(self.field.at(tiles@[a]) is Some && entity_props(self.field.at(tiles@[a])->0).defender));
                }
            }
        }
        false
    }

    /// The text of the world's field.
    pub fn serialise(&self) -> (r: String)
        requires
            self.field.inv(),
        ensures
            exists|es: Seq<(Pos, EntityView)>|
                lists_tiles(es, self.field.tiles()) && r@ == header_text(
                    self.field.world_dims(),
                    self.field.plot_dims(),
                ) + entries_text(es),
    {
        self.field.to_string()
    }
}

} // verus!
