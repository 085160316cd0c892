use std::collections::HashMap;
use travel_mode_sim::journey_type::JourneyType;
use travel_mode_sim::mode_map::ModeMap;
use travel_mode_sim::season::{season, Season};
use travel_mode_sim::agent::Agent;
use travel_mode_sim::simulation::{
    generate_csv_header, generate_csv_output_per_agent, plan_day, weekday, DayPlan,
};
use travel_mode_sim::transport_mode::TransportMode;
use travel_mode_sim::union_with::union_of;
use travel_mode_sim::weather::Weather;

#[test]
fn season_boundaries() {
    assert!(season(0) == Season::Winter);
    assert!(season(58) == Season::Winter);
    assert!(season(59) == Season::Spring);
    assert!(season(150) == Season::Spring);
    assert!(season(151) == Season::Summer);
    assert!(season(242) == Season::Summer);
    assert!(season(243) == Season::Autumn);
    assert!(season(333) == Season::Autumn);
    assert!(season(334) == Season::Winter);
    assert!(season(364) == Season::Winter);
}

#[test]
fn season_repeats_every_year() {
    for day in 0..730u32 {
        assert!(season(day) == season(day + 365));
    }
    assert!(season(365 + 59) == Season::Spring);
    assert!(season(u32::MAX) == season(u32::MAX % 365));
}

#[test]
fn weekdays_are_first_five_of_seven() {
    let expected = [true, true, true, true, true, false, false];
    for day in 0..70u32 {
        assert_eq!(weekday(day), expected[(day % 7) as usize]);
        assert_eq!(weekday(day), weekday(day + 7));
    }
    let in_a_year = (0..365u32).filter(|d| weekday(*d)).count();
    assert_eq!(in_a_year, 261);
}

#[test]
fn csv_header_exact() {
    assert_eq!(
        generate_csv_header(),
        "Day,Rain,AgentID,Mode,Subculture,Neighbourhood,CommuteLength,Norm,OwnsBike,OwnsCar\n"
    );
}

#[test]
fn union_adds_shared_keys_and_keeps_others() {
    let mut one: HashMap<u32, i64> = HashMap::new();
    one.insert(1, 10);
    one.insert(2, 20);
    let mut two: HashMap<u32, i64> = HashMap::new();
    two.insert(2, 5);
    two.insert(3, 7);
    let merged = union_of(&one, &two, |a, b| a + b);
    assert_eq!(merged.len(), 3);
    assert_eq!(merged[&1], 10);
    assert_eq!(merged[&2], 25);
    assert_eq!(merged[&3], 7);
}

#[test]
fn union_uses_f_in_argument_order() {
    let mut one: HashMap<u8, i32> = HashMap::new();
    one.insert(0, 3);
    let mut two: HashMap<u8, i32> = HashMap::new();
    two.insert(0, 10);
    let merged = union_of(&one, &two, |a, b| a - b);
    assert_eq!(merged[&0], -7);
    let product = union_of(&one, &two, |a, b| a * b);
    assert_eq!(product[&0], 30);
}

#[test]
fn union_with_commutative_f_is_commutative_and_associative() {
    let mut one: HashMap<u32, i64> = HashMap::new();
    one.insert(1, 1);
    one.insert(2, 2);
    let mut two: HashMap<u32, i64> = HashMap::new();
    two.insert(2, 20);
    two.insert(3, 30);
    let mut three: HashMap<u32, i64> = HashMap::new();
    three.insert(3, 300);
    three.insert(4, 400);
    three.insert(1, 100);
    let add = |a: i64, b: i64| a + b;
    assert_eq!(union_of(&one, &two, add), union_of(&two, &one, add));
    let left = union_of(&union_of(&one, &two, add), &three, add);
    let right = union_of(&one, &union_of(&two, &three, add), add);
    assert_eq!(left, right);
    assert_eq!(left[&1], 101);
    assert_eq!(left[&2], 22);
    assert_eq!(left[&3], 330);
    assert_eq!(left[&4], 400);
}

#[test]
fn union_with_empty_maps() {
    let empty: HashMap<u32, u32> = HashMap::new();
    let mut one: HashMap<u32, u32> = HashMap::new();
    one.insert(4, 4);
    assert_eq!(union_of(&empty, &empty, |a, b| a + b).len(), 0);
    assert_eq!(union_of(&one, &empty, |a, b| a + b), one);
    assert_eq!(union_of(&empty, &one, |a, b| a + b), one);
}

#[test]
fn mode_map_entries_in_order() {
    let mut m: ModeMap<u32> = ModeMap::new();
    assert!(m.entries().is_empty());
    m.insert(TransportMode::Walk, 3);
    m.insert(TransportMode::Car, 1);
    m.insert(TransportMode::Walk, 4);
    assert_eq!(m.get(TransportMode::Walk), Some(4));
    assert_eq!(m.get(TransportMode::Cycle), None);
    let entries = m.entries();
    assert_eq!(entries.len(), 2);
    assert!(entries[0] == (TransportMode::Car, 1));
    assert!(entries[1] == (TransportMode::Walk, 4));
}

#[test]
fn transport_mode_activity() {
    assert!(TransportMode::Walk.is_active());
    assert!(TransportMode::Cycle.is_active());
    assert!(!TransportMode::Car.is_active());
    assert!(!TransportMode::PublicTransport.is_active());
    assert!(Weather::Good != Weather::Bad);
    assert!(JourneyType::LocalCommute != JourneyType::DistantCommute);
}

#[test]
fn markov_pattern_follows_the_chain() {
    let alternate = |w: Weather| if w == Weather::Good { Weather::Bad } else { Weather::Good };
    let pattern = Weather::markov_pattern(Weather::Bad, 5, alternate);
    assert!(pattern == vec![Weather::Bad, Weather::Good, Weather::Bad, Weather::Good, Weather::Bad]);
    let stays = Weather::markov_pattern(Weather::Good, 3, |w: Weather| w);
    assert!(stays == vec![Weather::Good; 3]);
}

#[test]
fn markov_pattern_has_the_days_asked_for() {
    let none = Weather::markov_pattern(Weather::Bad, 0, |_w: Weather| Weather::Good);
    assert!(none.is_empty());
    let one = Weather::markov_pattern(Weather::Good, 1, |_w: Weather| Weather::Bad);
    assert!(one == vec![Weather::Good]);
}

fn csv_agent(current: TransportMode, norm: TransportMode, commute: JourneyType, bike: bool, car: bool, s: usize, n: usize) -> Agent {
    Agent {
        subculture: s,
        neighbourhood: n,
        commute_length: commute,
        current_mode: current,
        last_mode: current,
        norm,
        owns_bike: bike,
        owns_car: car,
        social_network: Vec::new(),
        neighbours: Vec::new(),
    }
}

#[test]
fn csv_rows_exact() {
    let subcultures = vec!["young".to_string(), "old".to_string()];
    let neighbourhoods = vec!["north".to_string()];
    let agents = vec![
        csv_agent(TransportMode::Walk, TransportMode::Car, JourneyType::LocalCommute, true, false, 1, 0),
        csv_agent(TransportMode::PublicTransport, TransportMode::Cycle, JourneyType::DistantCommute, false, true, 0, 0),
    ];
    let out = generate_csv_output_per_agent(1234, &Weather::Bad, &agents, &subcultures, &neighbourhoods);
    assert_eq!(
        out,
        "1234,1,0,Walk,old,north,LocalCommute,Car,true,false\n1234,1,1,PublicTransport,young,north,DistantCommute,Cycle,false,true\n"
    );
    let good = generate_csv_output_per_agent(0, &Weather::Good, &agents[1..], &subcultures, &neighbourhoods);
    assert_eq!(good, "0,0,0,PublicTransport,young,north,DistantCommute,Cycle,false,true\n");
}

#[test]
fn csv_without_agents_is_one_line_break() {
    let out = generate_csv_output_per_agent(7, &Weather::Good, &[], &Vec::new(), &Vec::new());
    assert_eq!(out, "\n");
}

#[test]
fn csv_large_numbers() {
    let ids = vec!["s".to_string()];
    let agents: Vec<Agent> = (0..11)
        .map(|_| csv_agent(TransportMode::Cycle, TransportMode::Cycle, JourneyType::CityCommute, false, false, 0, 0))
        .collect();
    let out = generate_csv_output_per_agent(u32::MAX, &Weather::Good, &agents, &ids, &ids);
    let last = out.lines().last().unwrap();
    assert_eq!(last, "4294967295,0,10,Cycle,s,s,CityCommute,Cycle,false,false");
    assert_eq!(out.lines().count(), 11);
}

#[test]
fn day_plan_intervenes_on_its_day_and_travels_on_weekdays() {
    assert_eq!(plan_day(3, 3), DayPlan { intervene: true, simulate: true });
    assert_eq!(plan_day(5, 5), DayPlan { intervene: true, simulate: false });
    assert_eq!(plan_day(6, 2), DayPlan { intervene: false, simulate: false });
    assert_eq!(plan_day(7, 2), DayPlan { intervene: false, simulate: true });
    assert_eq!(plan_day(11, 0), DayPlan { intervene: false, simulate: true });
    assert_eq!(plan_day(12, 12), DayPlan { intervene: true, simulate: false });
}
