use std::str::FromStr;

use evilcadastre::buildings::BuildingType;
use evilcadastre::commands::{Action, Command};
use evilcadastre::entity::{Entity, UserId};
use evilcadastre::errors::ParseError;
use evilcadastre::field::Field;
use evilcadastre::locations::{Direction, Pos};
use evilcadastre::resources::{Resource, ResourceCount};

fn user(name: &str) -> UserId {
    UserId(name.to_string())
}

fn parses_to(text: &str, x: i32, y: i32, action: Action) {
    assert_eq!(Command::from_str(text), Ok(Command { pos: Pos::new(x, y), action }));
}

fn fails_with(text: &str, msg: &str) {
    assert_eq!(Command::from_str(text), Err(ParseError { msg: msg.to_string() }));
}

#[test]
fn buildings_test_serialisation() {
    for building in BuildingType::all() {
        let a = building.to_string();
        let b = BuildingType::from_str(&a).unwrap();
        let c = b.to_string();
        assert_eq!(building, b);
        assert_eq!(a, c);
    }
}

#[test]
fn test_command_parsing() {
    parses_to("0,0 build woodcutter", 0, 0, Action::Build(BuildingType::Woodcutter));
    parses_to("3,3 build farm", 3, 3, Action::Build(BuildingType::Farm));
    parses_to("3,5 move 3,0", 3, 5, Action::Move(Pos::new(3, 0)));
    parses_to("-1,6 build farm", -1, 6, Action::Build(BuildingType::Farm));
    fails_with("1,1,1 build farm", "Position must be 2 integers separated by a comma. Found '1,1,1'");
    fails_with("invalid build farm", "Position must be 2 integers separated by a comma. Found 'invalid'");
    fails_with("1,1 build invalid", "Invalid building 'invalid'");
    fails_with("1,1 build", "Invalid building ''");
    fails_with("1,1 invalid", "Invalid action 'invalid'");
    fails_with("1,1 move invalid", "Position must be 2 integers separated by a comma. Found 'invalid'");
    fails_with("1,1", "Invalid action ''");
    parses_to("8,5 build lair", 8, 5, Action::Build(BuildingType::Lair));
    parses_to("7,3 attack west", 7, 3, Action::Attack(Direction::West));
    fails_with("1,1 attack invalid", "Invalid direction 'invalid'");
    parses_to("6,6 remove", 6, 6, Action::Remove);
    parses_to("7,4 use", 7, 4, Action::Use);
}

#[test]
fn entity_test_serialisation() {
    let entities = vec![
        Entity::Capital(user("abc")),
        Entity::Capital(user("")),
        Entity::Capital(user("ABC")),
        Entity::Capital(user("evil")),
        Entity::Keep(user("abc")),
        Entity::Keep(user("")),
        Entity::Keep(user("ABC")),
        Entity::Keep(user("evil")),
        Entity::Keep(user(":e:v:i:l")),
        Entity::Raider,
        Entity::Warrior,
        Entity::Ram,
        Entity::Farm,
        Entity::Woodcutter,
        Entity::Quarry,
        Entity::Lair,
        Entity::Barracks,
        Entity::Stockpile(None),
        Entity::Stockpile(Some(Resource::Wood)),
        Entity::Stockpile(Some(Resource::Food)),
        Entity::Stockpile(Some(Resource::Stone)),
        Entity::Stockpile(Some(Resource::Iron)),
        Entity::Construction(BuildingType::Barracks),
        Entity::Road,
        Entity::Tradepost,
        Entity::Scoutpost,
        Entity::Forest,
        Entity::Swamp,
        Entity::Rock,
    ];
    for ent in entities {
        let a = ent.to_string();
        let b = Entity::from_str(&a).unwrap();
        let c = b.to_string();
        assert_eq!(ent, b);
        assert_eq!(a, c);
    }
}

#[test]
fn test_tile_ordering() {
    let field = Field::new(Pos::new(10, 10), Pos::new(10, 10));
    let pos = Pos::new(6, 7);
    let tiles = field.tiles_in_plot(pos);
    for i in 1..tiles.len() {
        assert!(tiles[i].distance_to(pos) >= tiles[i - 1].distance_to(pos));
    }
}

#[test]
fn test_distance() {
    assert_eq!(Pos::new(2, 3).distance_to(Pos::new(1, 5)), 3);
}

#[test]
fn test_distance_symetry() {
    for x in 0..22 {
        for y in 0..22 {
            assert_eq!(
                Pos::new(x, y).distance_to(Pos::new(1, 1)),
                Pos::new(1, 1).distance_to(Pos::new(x, y))
            );
        }
    }
}

#[test]
fn tile_ordering_covers_plot_and_skips_keep() {
    let field = Field::new(Pos::new(10, 10), Pos::new(5, 5));
    let tiles = field.tiles_in_plot(Pos::new(6, 7));
    assert_eq!(tiles.len(), 99);
    assert!(!tiles.contains(&Pos::new(5, 5)));
    assert_eq!(tiles[0], Pos::new(6, 7));
    // ties at distance one go by x, then y
    assert_eq!(&tiles[1..5], &[Pos::new(5, 7), Pos::new(6, 6), Pos::new(6, 8), Pos::new(7, 7)]);
}

#[test]
fn keep_location_jitters_on_even_plots() {
    let field = Field::new(Pos::new(10, 10), Pos::new(5, 5));
    assert_eq!(field.keep_location(Pos::new(2, 1)), Pos::new(5, 5));
    assert_eq!(field.keep_location(Pos::new(12, 1)), Pos::new(15, 4));
    assert_eq!(field.keep_location(Pos::new(2, 11)), Pos::new(4, 15));
    assert_eq!(field.keep_location(Pos::new(12, 11)), Pos::new(14, 14));
    let odd = Field::new(Pos::new(9, 9), Pos::new(5, 5));
    assert_eq!(odd.keep_location(Pos::new(10, 20)), Pos::new(13, 22));
    // truncation maps small negative coordinates onto plot zero
    assert_eq!(field.keep_location(Pos::new(-1, 6)), Pos::new(5, 5));
}

#[test]
fn across_border_needs_exactly_one_foreign_neighbour() {
    let field = Field::new(Pos::new(10, 10), Pos::new(5, 5));
    assert_eq!(field.across_border(Pos::new(9, 2)), Some(Pos::new(10, 2)));
    assert_eq!(field.across_border(Pos::new(9, 9)), None);
    assert_eq!(field.across_border(Pos::new(6, 6)), None);
    assert_eq!(field.across_border(Pos::new(3, 10)), Some(Pos::new(3, 9)));
}

#[test]
fn neighbour_lane_runs_through_next_plot() {
    let field = Field::new(Pos::new(10, 10), Pos::new(5, 5));
    let lane = field.neighbour_lane(Pos::new(1, 9), Direction::South);
    assert_eq!(lane, (10..20).map(|y| Pos::new(1, y)).collect::<Vec<_>>());
    // rounding toward zero makes plot zero reach from -9 to 9
    let lane = field.neighbour_lane(Pos::new(11, 6), Direction::West);
    assert_eq!(lane, (-9..10).rev().map(|x| Pos::new(x, 6)).collect::<Vec<_>>());
}

#[test]
fn direction_and_resource_names_ignore_case() {
    assert_eq!(Direction::from_str("NoRtH"), Ok(Direction::North));
    assert_eq!(Resource::from_str("Stone"), Ok(Resource::Stone));
    assert_eq!(BuildingType::from_str("TRADEPOST"), Ok(BuildingType::Tradepost));
    assert_eq!(
        Resource::from_str("gold"),
        Err(ParseError { msg: "Invalid resource 'gold'".to_string() })
    );
    assert_eq!(Direction::North.to_string(), "north");
    assert_eq!(Direction::West.to_pos(), Pos::new(-1, 0));
}

#[test]
fn position_errors_carry_integer_messages() {
    assert_eq!(
        Pos::from_str("1,x"),
        Err(ParseError { msg: "Invalid Position '1,x': invalid digit found in string".to_string() })
    );
    assert_eq!(
        Pos::from_str(",2"),
        Err(ParseError { msg: "Invalid Position ',2': cannot parse integer from empty string".to_string() })
    );
    assert_eq!(
        Pos::from_str("3000000000,2"),
        Err(ParseError { msg: "Invalid Position '3000000000,2': number too large to fit in target type".to_string() })
    );
    assert_eq!(
        Pos::from_str("1,-3000000000"),
        Err(ParseError { msg: "Invalid Position '1,-3000000000': number too small to fit in target type".to_string() })
    );
    assert_eq!(Pos::from_str("+7,-2147483648"), Ok(Pos::new(7, i32::MIN)));
    assert_eq!(Pos::new(-12, 40).to_string(), "-12,40");
}

#[test]
fn entity_errors() {
    assert_eq!(
        Entity::from_str("raider:x"),
        Err(ParseError { msg: "Invalid entity 'raider:x'".to_string() })
    );
    assert_eq!(
        Entity::from_str("stockpile:gold"),
        Err(ParseError { msg: "Invalid resource 'gold'".to_string() })
    );
    assert_eq!(Entity::from_str("KEEP:Bob"), Ok(Entity::Keep(user("Bob"))));
    assert_eq!(Entity::from_str("construction:ram"), Ok(Entity::Construction(BuildingType::Ram)));
}

#[test]
fn building_costs_follow_the_table() {
    let (cost, ent) = BuildingType::Barracks.cost_result();
    assert_eq!(cost, ResourceCount { food: 0, wood: 4, stone: 3, iron: 0 });
    assert_eq!(ent, Entity::Barracks);
    let (cost, ent) = BuildingType::Ram.cost_result();
    assert_eq!(cost, ResourceCount { food: 1, wood: 6, stone: 0, iron: 0 });
    assert_eq!(ent, Entity::Ram);
    let (cost, ent) = BuildingType::Stockpile.cost_result();
    assert_eq!(cost, ResourceCount::new());
    assert_eq!(ent, Entity::Stockpile(None));
}

#[test]
fn resource_counts() {
    let c = ResourceCount::from_vec(&[Resource::Wood, Resource::Food, Resource::Wood]);
    assert_eq!(c, ResourceCount { food: 1, wood: 2, stone: 0, iron: 0 });
    assert!(c.can_afford(&ResourceCount { food: 1, wood: 1, stone: 0, iron: 0 }));
    assert!(!c.can_afford(&ResourceCount { food: 0, wood: 0, stone: 1, iron: 0 }));
    let mut v = c.to_vec();
    v.sort_by_key(|r| *r as u8);
    assert_eq!(v, vec![Resource::Food, Resource::Wood, Resource::Wood]);
    let mut d = ResourceCount::default();
    d.add_resource(Resource::Iron);
    assert_eq!(d.iron, 1);
}

#[test]
fn field_claim_places_a_keep() {
    let mut field = Field::new(Pos::new(10, 10), Pos::new(2, 2));
    assert_eq!(field.claim_first_keep(Pos::new(3, 4), UserId("z".to_string())), Some(Pos::new(5, 5)));
    assert_eq!(field.get(Pos::new(5, 5)), Some(Entity::Keep(UserId("z".to_string()))));
    assert_eq!(field.claim_first_keep(Pos::new(3, 4), UserId("y".to_string())), None);
    assert_eq!(field.claim_first_keep(Pos::new(30, 4), UserId("y".to_string())), None);
    assert_eq!(field.plot_owner(Pos::new(9, 9)), Some(UserId("z".to_string())));
}

#[test]
fn folded_words_match_keywords() {
    let w = |t: &str| t.chars().collect::<Vec<char>>();
    assert_eq!(Direction::named(&w("east")), Some(Direction::East));
    assert_eq!(Direction::named(&w("East")), None);
    assert_eq!(Resource::named(&w("iron")), Some(Resource::Iron));
    assert_eq!(BuildingType::named(&w("scoutpost")), Some(BuildingType::Scoutpost));
    assert_eq!(Entity::bare(&w("swamp")), Some(Entity::Swamp));
    assert_eq!(Action::from_words(&w("claim"), &w("CLAIM"), &w("")), Ok(Action::Claim));
    assert_eq!(
        Action::from_words(&w("fly"), &w("FLY"), &w("")),
        Err(ParseError { msg: "Invalid action 'FLY'".to_string() })
    );
    assert_eq!(Command::from_str("2,1 CLAIM"), Ok(Command { pos: Pos::new(2, 1), action: Action::Claim }));
    assert_eq!(
        Entity::from_words(&w("keep"), Some(w("Ann")), &w("KEEP:Ann")),
        Ok(Entity::Keep(user("Ann")))
    );
}
