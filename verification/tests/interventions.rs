use travel_mode_sim::agent::{count_last_modes, Agent};
use travel_mode_sim::intervention::{
    apply_capacity_change, change_neighbourhood_capacity, change_ownership, first_sharing_id,
    last_position_of_id, position_of_id, Vehicle,
};
use travel_mode_sim::journey_type::JourneyType;
use travel_mode_sim::mode_map::ModeMap;
use travel_mode_sim::neighbourhood::{Congestion, Neighbourhood};
use travel_mode_sim::transport_mode::TransportMode;

fn agent(last: TransportMode, owns_bike: bool, owns_car: bool) -> Agent {
    Agent {
        subculture: 0,
        neighbourhood: 0,
        commute_length: JourneyType::CityCommute,
        current_mode: last,
        last_mode: last,
        norm: last,
        owns_bike,
        owns_car,
        social_network: vec![1],
        neighbours: Vec::new(),
    }
}

fn owners(agents: &[Agent], vehicle: Vehicle) -> usize {
    agents
        .iter()
        .filter(|a| match vehicle {
            Vehicle::Bike => a.owns_bike,
            Vehicle::Car => a.owns_car,
        })
        .count()
}

#[test]
fn giving_bikes_adds_exactly_that_many_owners() {
    for _ in 0..20 {
        let mut agents: Vec<Agent> =
            (0..10).map(|i| agent(TransportMode::Car, i % 3 == 0, true)).collect();
        let before = agents.clone();
        assert_eq!(owners(&agents, Vehicle::Bike), 4);
        change_ownership(&mut agents, Vehicle::Bike, 3);
        assert_eq!(owners(&agents, Vehicle::Bike), 7);
        for (a, b) in agents.iter().zip(before.iter()) {
            assert!(!b.owns_bike || a.owns_bike);
            assert_eq!(a.owns_car, b.owns_car);
            assert_eq!(a.social_network, b.social_network);
        }
    }
}

#[test]
fn taking_cars_removes_exactly_that_many_owners() {
    let mut agents: Vec<Agent> =
        (0..8).map(|i| agent(TransportMode::Car, false, i < 5)).collect();
    change_ownership(&mut agents, Vehicle::Car, -2);
    assert_eq!(owners(&agents, Vehicle::Car), 3);
    for a in agents.iter().skip(5) {
        assert!(!a.owns_car);
    }
    change_ownership(&mut agents, Vehicle::Car, -3);
    assert_eq!(owners(&agents, Vehicle::Car), 0);
}

#[test]
fn everyone_or_no_one_changes() {
    let mut agents: Vec<Agent> = (0..4).map(|_| agent(TransportMode::Walk, false, false)).collect();
    change_ownership(&mut agents, Vehicle::Bike, 0);
    assert_eq!(owners(&agents, Vehicle::Bike), 0);
    change_ownership(&mut agents, Vehicle::Bike, 4);
    assert_eq!(owners(&agents, Vehicle::Bike), 4);
    assert_eq!(owners(&agents, Vehicle::Car), 0);
}

#[test]
fn capacity_change_adds_and_clamps() {
    let mut capacity: ModeMap<u32> = ModeMap::new();
    capacity.insert(TransportMode::Car, 100);
    capacity.insert(TransportMode::Cycle, 10);
    capacity.insert(TransportMode::Walk, u32::MAX - 1);
    let mut increase: ModeMap<i64> = ModeMap::new();
    increase.insert(TransportMode::Car, -150);
    increase.insert(TransportMode::Cycle, 5);
    increase.insert(TransportMode::Walk, 10);
    increase.insert(TransportMode::PublicTransport, 7);
    let changed = apply_capacity_change(&capacity, &increase);
    assert_eq!(changed.get(TransportMode::Car), Some(0));
    assert_eq!(changed.get(TransportMode::Cycle), Some(15));
    assert_eq!(changed.get(TransportMode::Walk), Some(u32::MAX));
    assert_eq!(changed.get(TransportMode::PublicTransport), Some(7));

    let mut only_negative: ModeMap<i64> = ModeMap::new();
    only_negative.insert(TransportMode::PublicTransport, -7);
    let changed = apply_capacity_change(&ModeMap::new(), &only_negative);
    assert_eq!(changed.get(TransportMode::PublicTransport), Some(0));
    assert_eq!(changed.get(TransportMode::Car), None);
    let unchanged = apply_capacity_change(&capacity, &ModeMap::new());
    assert_eq!(unchanged, capacity);
}

fn neighbourhood(id: &str, residents: Vec<usize>) -> Neighbourhood {
    let mut capacity: ModeMap<u32> = ModeMap::new();
    capacity.insert(TransportMode::Car, 1);
    capacity.insert(TransportMode::Walk, 5);
    capacity.insert(TransportMode::Cycle, 0);
    capacity.insert(TransportMode::PublicTransport, 2);
    Neighbourhood { id: id.to_string(), capacity, congestion: ModeMap::new(), residents }
}

#[test]
fn first_matching_id() {
    let ids: Vec<String> = vec!["a".to_string(), "b".to_string(), "a".to_string()];
    assert_eq!(position_of_id(&ids, &"a".to_string()), 0);
    assert_eq!(position_of_id(&ids, &"b".to_string()), 1);
    let later: Vec<String> = vec!["c".to_string(), "d".to_string(), "d".to_string()];
    assert_eq!(position_of_id(&later, &"d".to_string()), 1);
}

#[test]
fn neighbourhood_capacity_intervention() {
    let mut neighbourhoods = vec![neighbourhood("x", vec![]), neighbourhood("y", vec![])];
    let mut increase: ModeMap<i64> = ModeMap::new();
    increase.insert(TransportMode::Car, 4);
    let position = change_neighbourhood_capacity(&mut neighbourhoods, &"y".to_string(), &increase);
    assert_eq!(position, 1);
    assert_eq!(neighbourhoods[1].capacity.get(TransportMode::Car), Some(5));
    assert_eq!(neighbourhoods[0].capacity.get(TransportMode::Car), Some(1));
    let mut twice = vec![neighbourhood("x", vec![]), neighbourhood("x", vec![])];
    let first = change_neighbourhood_capacity(&mut twice, &"x".to_string(), &increase);
    assert_eq!(first, 0);
    assert_eq!(twice[0].capacity.get(TransportMode::Car), Some(5));
    assert_eq!(twice[1].capacity.get(TransportMode::Car), Some(1));
}

#[test]
fn congestion_by_mode() {
    let agents = vec![
        agent(TransportMode::Car, false, true),
        agent(TransportMode::Car, false, true),
        agent(TransportMode::Car, false, true),
        agent(TransportMode::Walk, false, false),
        agent(TransportMode::Cycle, true, false),
    ];
    let mut n = neighbourhood("x", vec![0, 1, 2, 3, 4]);
    n.update_congestion_modifier(&agents);
    assert_eq!(
        n.congestion.get(TransportMode::Car),
        Some(Congestion::Congested { actual_excess: 2, maximum_excess: 4 })
    );
    assert_eq!(n.congestion.get(TransportMode::Walk), Some(Congestion::Free));
    assert_eq!(
        n.congestion.get(TransportMode::Cycle),
        Some(Congestion::Congested { actual_excess: 1, maximum_excess: 5 })
    );
    assert_eq!(n.congestion.get(TransportMode::PublicTransport), None);
    assert_eq!(count_last_modes(&n.residents, &agents).get(TransportMode::Car), Some(3));

    let mut empty = neighbourhood("e", vec![]);
    empty.update_congestion_modifier(&agents);
    assert!(empty.congestion.entries().is_empty());
}

#[test]
fn first_and_last_positions_of_shared_ids() {
    let ids: Vec<String> = ["a", "b", "a", "c", "b"].iter().map(|s| s.to_string()).collect();
    assert_eq!(last_position_of_id(&ids, &"a".to_string()), 2);
    assert_eq!(last_position_of_id(&ids, &"b".to_string()), 4);
    assert_eq!(last_position_of_id(&ids, &"c".to_string()), 3);
    assert_eq!(first_sharing_id(&ids, 0), 0);
    assert_eq!(first_sharing_id(&ids, 2), 0);
    assert_eq!(first_sharing_id(&ids, 4), 1);
    assert_eq!(first_sharing_id(&ids, 3), 3);
}
