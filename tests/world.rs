use std::str::FromStr;

use evilcadastre::commands::Command;
use evilcadastre::entity::{Entity, UserId};
use evilcadastre::field::Field;
use evilcadastre::locations::Pos;
use evilcadastre::parser::parse_input;
use evilcadastre::resources::Resource;
use evilcadastre::rules;
use evilcadastre::resources::ResourceCount;
use evilcadastre::utils::{identity, partition, partition_by, randomize, truncated};
use evilcadastre::world::World;

fn parse_commands(u: &str, c: &[&str]) -> (UserId, Vec<Command>) {
    (UserId(u.to_string()), c.iter().map(|s| Command::from_str(s).unwrap()).collect())
}

fn world(text: &str) -> World {
    World { field: Field::from_str(text).unwrap() }
}

fn tile_is(world: &World, x: i32, y: i32, val: Option<Entity>) {
    assert_eq!(world.field.get(Pos::new(x, y)), val);
}

#[test]
fn test_simple_commands() {
    let mut world = world("size:5,5 plot_size:10,10/");
    let (user, commands) = parse_commands("user", &[
        "2,1 build stockpile",
        "15,2 build woodcutter",
        "6,2 build woodcutter",
        "6,3 build woodcutter",
        "0,0 claim",
        "11,1 claim",
        "11,2 build stockpile",
        "6,2 build stockpile",
        "8,0 build stockpile",
        "8,1 build stockpile",
        "8,2 build stockpile",
        "8,3 build stockpile",
        "8,4 build stockpile",
        "8,5 build stockpile",
    ]);
    world.update(&vec![(user.clone(), commands)]);
    assert_eq!(world.field.plot_owner(Pos::new(0, 0)), Some(user.clone()));
    assert_eq!(world.field.plot_owner(Pos::new(9, 9)), Some(user.clone()));
    assert_eq!(world.field.plot_owner(Pos::new(11, 11)), None);
    assert_eq!(world.field.plot_owner(Pos::new(1, 11)), None);
    assert_eq!(world.field.plot_owner(Pos::new(11, 1)), None);
    tile_is(&world, 2, 1, None);
    tile_is(&world, 15, 2, None);
    tile_is(&world, 6, 2, Some(Entity::Stockpile(None)));
    tile_is(&world, 6, 3, None);
    tile_is(&world, 11, 2, None);
    tile_is(&world, 8, 0, Some(Entity::Stockpile(None)));
    tile_is(&world, 8, 1, Some(Entity::Stockpile(None)));
    tile_is(&world, 8, 2, None);
    assert_eq!(world.field, Field::from_str(
        "size:5,5 plot_size:10,10/
        5,5 capital:user;
        6,2 stockpile;
        8,0 stockpile;
        8,1 stockpile;"
    ).unwrap());
}

#[test]
fn test_woodcutting() {
    let mut world = world(
        "size:5,5 plot_size:10,10/
        5,5 keep:user;
        0,5 woodcutter;
        1,5 stockpile;
        2,5 stockpile;
        0,2 stockpile;
        9,5 woodcutter;
        10,5 stockpile;"
    );
    let (user, commands) = parse_commands("user", &["0,5 use", "9,5 use"]);
    world.update(&vec![(user, commands)]);
    assert_eq!(world.field, Field::from_str(
        "size:5,5 plot_size:10,10/
        5,5 keep:user;
        0,5 woodcutter;
        1,5 stockpile:wood;
        2,5 stockpile:wood;
        0,2 stockpile;
        9,5 woodcutter;
        10,5 stockpile;"
    ).unwrap());
}

#[test]
fn test_attack() {
    let mut world = world(
        "size:5,5 plot_size:10,10/
        5,5 keep:user;
        6,6 lair;
        1,9 raider;
        3,3 woodcutter;
        3,7 raider;

        15,4 keep:user;
        11,6 raider;

        4,15 keep:other;
        1,13 farm;
        3,17 raider;
        3,16 farm;"
    );
    world.update(&vec![
        parse_commands("user", &["1,9 attack south", "11,6 attack west"]),
        parse_commands("other", &["3,17 attack north"]),
    ]);
    assert_eq!(world.field, Field::from_str(
        "size:5,5 plot_size:10,10/
        5,5 keep:user;
        6,6 lair;
        1,9 raider;
        3,3 woodcutter;
        3,7 raider;

        15,4 keep:user;
        11,6 raider;

        4,15 keep:other;
        3,17 raider;
        3,16 farm;"
    ).unwrap());
}

#[test]
fn test_move() {
    let start = "size:5,5 plot_size:10,10/
        5,5 keep:user;
        1,1 raider;
        1,2 raider;
        1,3 raider;
        1,4 raider;
        1,5 raider;
        1,6 raider;
        1,7 raider;
        1,8 raider;
        1,9 raider;
        2,1 raider;
        7,7 stockpile;
        9,9 road;
        6,6 road;
        2,9 road;
        9,2 road;
        0,1 road;
        1,0 road;

        15,4 keep:user;
        11,6 raider;

        4,15 keep:other;
        1,13 farm;
        3,17 raider;
        3,16 farm;";
    let mut world = world(start);
    world.update(&vec![parse_commands("user", &[
        "1,1 move 0,0",
        "1,2 move 0,0",
        "1,3 move 7,7",
        "1,4 move 5,5",
        "1,5 move 6,6",
        "1,6 move 9,9",
        "1,7 move 9,2",
        "1,8 move 2,9",
        "1,0 move 1,0",
        "2,1 move 19,9",
    ])]);
    assert_eq!(world.field, Field::from_str(
        "size:5,5 plot_size:10,10/
        5,5 keep:user;
        0,0 raider;
        1,2 raider;
        1,3 raider;
        1,4 raider;
        1,5 raider;
        1,6 raider;
        10,2 raider;
        1,8 raider;
        1,9 raider;
        2,1 raider;
        7,7 stockpile;
        9,9 road;
        6,6 road;
        2,9 road;
        9,2 road;
        0,1 road;
        1,0 road;

        15,4 keep:user;
        11,6 raider;

        4,15 keep:other;
        1,13 farm;
        3,17 raider;
        3,16 farm;"
    ).unwrap());
}

#[test]
fn claim_then_build_on_the_claimed_tile() {
    let mut world = world("size:5,5 plot_size:10,10 /");
    world.update(&vec![parse_commands("user", &[
        "2,1 claim",
        "2,1 build stockpile",
        "8,0 build stockpile",
        "8,1 build stockpile",
    ])]);
    let user = UserId("user".to_string());
    assert_eq!(world.field.plot_owner(Pos::new(0, 0)), Some(user.clone()));
    tile_is(&world, 5, 5, Some(Entity::Capital(user)));
    tile_is(&world, 2, 1, Some(Entity::Stockpile(None)));
    tile_is(&world, 8, 0, Some(Entity::Stockpile(None)));
    tile_is(&world, 8, 1, Some(Entity::Stockpile(None)));
}

#[test]
fn production_fills_nearest_empty_stockpile_of_the_plot() {
    let mut world = world(
        "size:5,5 plot_size:10,10 /
        5,5 keep:user; 0,5 woodcutter; 1,5 stockpile; 2,5 stockpile; 9,5 woodcutter; 10,5 stockpile;"
    );
    world.update(&vec![parse_commands("user", &["0,5 use", "9,5 use"])]);
    tile_is(&world, 1, 5, Some(Entity::Stockpile(Some(Resource::Wood))));
    // the second woodcutter's plot still has an empty stockpile, nearer than any other plot's
    tile_is(&world, 2, 5, Some(Entity::Stockpile(Some(Resource::Wood))));
    tile_is(&world, 10, 5, Some(Entity::Stockpile(None)));
}

#[test]
fn training_consumes_food() {
    let mut world = world(
        "size:5,5 plot_size:10,10 /
        5,5 keep:user; 6,6 lair; 1,1 stockpile:food; 1,2 stockpile:food; 1,3 stockpile:food;"
    );
    world.update(&vec![parse_commands("user", &["6,6 use"])]);
    tile_is(&world, 1, 1, Some(Entity::Stockpile(None)));
    tile_is(&world, 1, 2, Some(Entity::Stockpile(None)));
    tile_is(&world, 1, 3, Some(Entity::Stockpile(None)));
    tile_is(&world, 5, 6, Some(Entity::Raider));
    tile_is(&world, 6, 6, Some(Entity::Lair));
    assert!(world.field.check_keeps());
}

#[test]
fn training_without_food_does_nothing() {
    let text = "size:5,5 plot_size:10,10 /
        5,5 keep:user; 6,6 barracks; 1,1 stockpile:food;";
    let mut world = world(text);
    world.update(&vec![parse_commands("user", &["6,6 use"])]);
    assert_eq!(world.field, Field::from_str(text).unwrap());
}

#[test]
fn conquest_clears_capital_and_orphaned_keep() {
    let mut world = world(
        "size:5,5 plot_size:10,10 /
        5,5 capital:u; 15,4 keep:u;
        4,15 capital:v; 3,10 scoutpost;
        0,11 stockpile:wood; 0,12 stockpile:wood; 0,13 stockpile:wood; 0,14 stockpile:wood;
        0,15 stockpile:wood; 0,16 stockpile:wood; 0,17 stockpile:wood; 0,18 stockpile:wood;
        1,11 stockpile:wood; 1,12 stockpile:wood;
        2,11 stockpile:food; 2,12 stockpile:food; 2,13 stockpile:food; 2,14 stockpile:food; 2,15 stockpile:food;
        5,11 stockpile:stone; 5,12 stockpile:stone; 5,13 stockpile:stone; 5,14 stockpile:stone; 5,15 stockpile:stone;"
    );
    world.update(&vec![parse_commands("v", &["3,10 use"])]);
    tile_is(&world, 5, 5, Some(Entity::Keep(UserId("v".to_string()))));
    tile_is(&world, 15, 4, None);
    tile_is(&world, 0, 11, Some(Entity::Stockpile(None)));
    tile_is(&world, 5, 15, Some(Entity::Stockpile(None)));
    assert!(world.field.check_keeps());
}

#[test]
fn conquest_is_stopped_by_defenders() {
    let text = "size:5,5 plot_size:10,10 /
        5,5 capital:u; 2,2 warrior;
        4,15 capital:v; 3,10 scoutpost;
        0,11 stockpile:wood; 0,12 stockpile:wood; 0,13 stockpile:wood; 0,14 stockpile:wood;
        0,15 stockpile:wood; 0,16 stockpile:wood; 0,17 stockpile:wood; 0,18 stockpile:wood;
        1,11 stockpile:wood; 1,12 stockpile:wood;
        2,11 stockpile:food; 2,12 stockpile:food; 2,13 stockpile:food; 2,14 stockpile:food; 2,15 stockpile:food;
        5,11 stockpile:stone; 5,12 stockpile:stone; 5,13 stockpile:stone; 5,14 stockpile:stone; 5,15 stockpile:stone;";
    let mut world = world(text);
    world.update(&vec![parse_commands("v", &["3,10 use"])]);
    assert_eq!(world.field, Field::from_str(text).unwrap());
}

#[test]
fn used_tile_blocks_second_command() {
    let mut world = world("size:5,5 plot_size:10,10 /
        5,5 keep:a; 1,1 farm; 2,2 stockpile; 3,3 stockpile;");
    world.update(&vec![parse_commands("a", &["1,1 use", "1,1 use"])]);
    tile_is(&world, 2, 2, Some(Entity::Stockpile(Some(Resource::Food))));
    tile_is(&world, 3, 3, Some(Entity::Stockpile(None)));
}

#[test]
fn foreign_and_removed_tiles() {
    let mut world = world("size:5,5 plot_size:10,10 /
        5,5 keep:a; 1,1 farm; 2,2 forest; 15,4 keep:b; 11,1 farm;");
    world.update(&vec![parse_commands("a", &["1,1 remove", "2,2 remove", "11,1 remove"])]);
    tile_is(&world, 1, 1, None);
    tile_is(&world, 2, 2, Some(Entity::Forest));
    tile_is(&world, 11, 1, Some(Entity::Farm));
}

#[test]
fn keep_tiles_hold_only_keeps_after_ticks() {
    let mut world = world("size:3,3 plot_size:10,10 /");
    world.update(&vec![
        parse_commands("a", &["2,2 claim", "5,4 build stockpile", "5,6 build stockpile"]),
        parse_commands("b", &["22,22 claim", "25,24 build stockpile"]),
    ]);
    assert!(world.field.check_keeps());
    world.update(&vec![parse_commands("a", &["5,4 remove", "6,6 move 5,5"])]);
    assert!(world.field.check_keeps());
    tile_is(&world, 5, 5, Some(Entity::Capital(UserId("a".to_string()))));
    tile_is(&world, 25, 25, Some(Entity::Capital(UserId("b".to_string()))));
    let broken = Field::from_str("size:3,3 plot_size:10,10 / 5,5 farm;").unwrap();
    assert!(!broken.check_keeps());
}

#[test]
fn action_points_limit_commands() {
    let mut world = world("size:5,5 plot_size:10,10 /
        5,5 keep:a;");
    let cmds: Vec<String> = (0..12).map(|i| format!("{},0 build stockpile", i % 10 + if i >= 10 { 0 } else { 0 })).collect();
    let cmds: Vec<&str> = cmds.iter().map(|s| s.as_str()).collect();
    let mut cmds = cmds;
    cmds[10] = "1,9 build stockpile";
    cmds[11] = "2,9 build stockpile";
    world.update(&vec![parse_commands("a", &cmds)]);
    tile_is(&world, 0, 0, Some(Entity::Stockpile(None)));
    tile_is(&world, 9, 0, Some(Entity::Stockpile(None)));
    tile_is(&world, 1, 9, None);
    tile_is(&world, 2, 9, None);
}

#[test]
fn rounds_interleave_players() {
    let a = parse_commands("a", &["1,1 use", "2,2 use", "3,3 use"]);
    let b = parse_commands("b", &["4,4 use"]);
    let rounds = World::order_commands(&[a.clone(), b.clone()]);
    assert_eq!(rounds.len(), 3);
    assert_eq!(rounds[0], vec![(a.0.clone(), a.1[0]), (b.0.clone(), b.1[0])]);
    assert_eq!(rounds[1], vec![(a.0.clone(), a.1[1])]);
    assert_eq!(rounds[2], vec![(a.0.clone(), a.1[2])]);
}

#[test]
fn field_text_round_trip() {
    let text = "size:3,4 plot_size:7,8/ 3,4 capital:x y; -2,9 stockpile:iron; 10,1 construction:road;";
    let field = Field::from_str(text).unwrap();
    let again = Field::from_str(&field.to_string()).unwrap();
    assert!(field == again);
    assert!(field.to_string().starts_with("size:3,4 plot_size:7,8/"));
    assert_eq!(field.get(Pos::new(3, 4)), Some(Entity::Capital(UserId("x y".to_string()))));
}

#[test]
fn field_parse_errors() {
    let err = |t: &str| Field::from_str(t).err().unwrap().msg;
    assert_eq!(err("plot_size:10,10/"), "No size found for field");
    assert_eq!(err("size:5,5/"), "No plot size found for field");
    assert_eq!(err("size:5,5 plot_size:10,10/ 1,1 dragon;"), "Invalid entity 'dragon'");
    assert_eq!(err("size:5 plot_size:10,10/"), "Position must be 2 integers separated by a comma. Found '5'");
    assert_eq!(err("size:5,5 plot_size:0,3/"), "Field size out of range");
    assert_eq!(err("size:5,5 plot_size:5000,3/"), "Field size out of range");
}

#[test]
fn init_places_ambient_tiles() {
    let world = World::init(Pos::new(10, 10), Pos::new(2, 3));
    for (x, y) in [(0, 0), (9, 0), (0, 9), (9, 9), (10, 20), (19, 29)] {
        tile_is(&world, x, y, Some(Entity::Rock));
    }
    tile_is(&world, 5, 5, None);
    let text = world.serialise();
    let forests = text.matches("forest").count();
    let swamps = text.matches("swamp").count();
    assert!(forests >= 1 && forests <= 12);
    assert!(swamps >= 1 && swamps <= 6);
    assert!(world.field.check_keeps());
}

#[test]
fn randomize_mixes() {
    let mut s: u32 = 1 + 92857;
    s ^= s << 13;
    s ^= s >> 17;
    s ^= s << 5;
    assert_eq!(randomize(1), s);
    assert_eq!(randomize(u32::MAX), {
        let mut s: u32 = u32::MAX.wrapping_add(92857);
        s ^= s << 13;
        s ^= s >> 17;
        s ^= s << 5;
        s
    });
}

#[test]
fn utils_behave() {
    assert_eq!(partition("a b c"), ("a".to_string(), "b c".to_string()));
    assert_eq!(partition("abc"), ("abc".to_string(), "".to_string()));
    assert_eq!(partition_by("k:v:w", ':'), ("k".to_string(), "v:w".to_string()));
    assert_eq!(truncated(&[1, 2, 3], 2), vec![1, 2]);
    assert_eq!(truncated(&[1, 2, 3], 5), vec![1, 2, 3]);
    assert_eq!(identity(7), 7);
}

#[test]
fn parse_input_skips_and_reports() {
    let res = parse_input("# plan\n\n 1,1 use \nbad line\n2,2 claim");
    assert_eq!(res.len(), 3);
    assert_eq!(res[0], Command::from_str("1,1 use"));
    assert_eq!(
        res[1].clone().err().unwrap().msg,
        "Failed to parse 'bad line': Position must be 2 integers separated by a comma. Found 'bad'"
    );
    assert_eq!(res[2], Command::from_str("2,2 claim"));
}

#[test]
fn pay_draws_from_the_plot() {
    let mut field = Field::from_str("size:5,5 plot_size:10,10/ 5,5 keep:a; 1,1 stockpile:wood; 8,8 stockpile:wood; 11,1 stockpile:wood;").unwrap();
    let cost = ResourceCount { food: 0, wood: 1, stone: 0, iron: 0 };
    assert!(rules::pay(&mut field, Pos::new(2, 2), &cost));
    assert_eq!(field.get(Pos::new(1, 1)), Some(Entity::Stockpile(None)));
    assert_eq!(field.get(Pos::new(8, 8)), Some(Entity::Stockpile(Some(Resource::Wood))));
    let dear = ResourceCount { food: 0, wood: 2, stone: 0, iron: 0 };
    assert!(!rules::pay(&mut field, Pos::new(2, 2), &dear));
    assert_eq!(field.get(Pos::new(8, 8)), Some(Entity::Stockpile(Some(Resource::Wood))));
}

#[test]
fn claim_needs_free_neighbourhood() {
    let mut field = Field::from_str("size:5,5 plot_size:10,10/ 15,4 keep:b;").unwrap();
    assert_eq!(rules::claim_first_keep(&mut field, Pos::new(2, 2), UserId("a".to_string())), None);
    assert_eq!(rules::claim_first_keep(&mut field, Pos::new(2, 22), UserId("a".to_string())), Some(Pos::new(5, 25)));
    assert_eq!(rules::claim_first_keep(&mut field, Pos::new(-2, 22), UserId("a".to_string())), None);
}

#[test]
fn destroy_keep_removes_groups_cut_off_from_the_capital() {
    // a row of plots held by u: capital at plot (0,0), keeps at (1,0), (2,0), (3,0)
    let mut field = Field::from_str(
        "size:5,5 plot_size:10,10/ 5,5 capital:u; 15,4 keep:u; 25,5 keep:u; 35,4 keep:u; 45,5 keep:w;"
    ).unwrap();
    assert_eq!(rules::destroy_keep(&mut field, Pos::new(15, 4)), Some(()));
    assert_eq!(field.get(Pos::new(15, 4)), None);
    assert_eq!(field.get(Pos::new(5, 5)), Some(Entity::Capital(UserId("u".to_string()))));
    assert_eq!(field.get(Pos::new(25, 5)), None);
    assert_eq!(field.get(Pos::new(35, 4)), None);
    assert_eq!(field.get(Pos::new(45, 5)), Some(Entity::Keep(UserId("w".to_string()))));
    assert_eq!(rules::destroy_keep(&mut field, Pos::new(15, 4)), None);
}

#[test]
fn destroy_keep_spares_groups_holding_the_capital() {
    let mut field = Field::from_str(
        "size:5,5 plot_size:10,10/ 5,5 keep:u; 15,4 keep:u; 25,5 capital:u;"
    ).unwrap();
    assert_eq!(rules::destroy_keep(&mut field, Pos::new(5, 5)), Some(()));
    assert_eq!(field.get(Pos::new(5, 5)), None);
    assert_eq!(field.get(Pos::new(15, 4)), Some(Entity::Keep(UserId("u".to_string()))));
    assert_eq!(field.get(Pos::new(25, 5)), Some(Entity::Capital(UserId("u".to_string()))));
}

#[test]
fn moves_of_goods_and_capitals() {
    let mut world = world("size:5,5 plot_size:10,10/
        5,5 capital:a; 15,4 keep:a;
        1,1 stockpile:stone; 2,2 stockpile; 9,3 tradepost; 12,2 stockpile:wood;");
    world.update(&vec![parse_commands("a", &["1,1 move 2,2", "5,5 move 15,4", "12,2 move 12,2"])]);
    tile_is(&world, 1, 1, Some(Entity::Stockpile(None)));
    tile_is(&world, 2, 2, Some(Entity::Stockpile(Some(Resource::Stone))));
    tile_is(&world, 5, 5, Some(Entity::Keep(UserId("a".to_string()))));
    tile_is(&world, 15, 4, Some(Entity::Capital(UserId("a".to_string()))));
    let mut world = world_with_tradepost();
    world.update(&vec![parse_commands("a", &["1,3 move 9,3"])]);
    tile_is(&world, 1, 3, Some(Entity::Stockpile(None)));
    tile_is(&world, 10, 3, Some(Entity::Stockpile(Some(Resource::Iron))));
}

fn world_with_tradepost() -> World {
    world("size:5,5 plot_size:10,10/ 5,5 keep:a; 15,4 keep:a; 1,3 stockpile:iron; 9,3 tradepost;")
}

#[test]
fn tiny_plots_parse_and_tick() {
    let mut world = world("size:4,4 plot_size:1,1/");
    world.update(&vec![parse_commands("a", &["2,2 claim", "2,2 build farm"])]);
    tile_is(&world, 2, 2, Some(Entity::Capital(UserId("a".to_string()))));
    assert!(world.field.check_keeps());
    let mut world = world_two();
    world.update(&vec![parse_commands("a", &["0,0 claim", "1,1 build stockpile"])]);
    assert!(world.field.check_keeps());
    assert_eq!(world.field.plot_owner(Pos::new(0, 1)), Some(UserId("a".to_string())));
}

fn world_two() -> World {
    world("size:3,3 plot_size:2,2/")
}

#[test]
fn mutual_kill_within_a_round() {
    let mut world = world("size:5,5 plot_size:10,10/
        5,5 keep:a; 9,3 warrior;
        15,4 keep:b; 10,3 warrior;");
    world.update(&vec![
        parse_commands("a", &["9,3 attack east"]),
        parse_commands("b", &["10,3 attack west"]),
    ]);
    tile_is(&world, 9, 3, None);
    tile_is(&world, 10, 3, None);
}
