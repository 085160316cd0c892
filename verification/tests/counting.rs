use travel_mode_sim::agent::{count_last_modes, Agent, Resolve};
use travel_mode_sim::journey_type::JourneyType;
use travel_mode_sim::mode_map::ModeMap;
use travel_mode_sim::neighbourhood::Neighbourhood;
use travel_mode_sim::statistics::{
    count_active_mode, count_active_mode_by_commute_length, count_active_mode_by_neighbourhood,
    count_active_mode_by_subculture, count_active_mode_counter_to_inactive_norm,
    count_active_norm, count_inactive_mode_counter_to_active_norm, count_stats,
};
use travel_mode_sim::transport_mode::TransportMode;

fn agent(
    current: TransportMode,
    norm: TransportMode,
    commute: JourneyType,
    subculture: usize,
    neighbourhood: usize,
) -> Agent {
    Agent {
        subculture,
        neighbourhood,
        commute_length: commute,
        current_mode: current,
        last_mode: current,
        norm,
        owns_bike: false,
        owns_car: false,
        social_network: Vec::new(),
        neighbours: Vec::new(),
    }
}

fn sample() -> Vec<Agent> {
    let (walk, cycle, car, pt) = (
        TransportMode::Walk,
        TransportMode::Cycle,
        TransportMode::Car,
        TransportMode::PublicTransport,
    );
    let (local, city) = (JourneyType::LocalCommute, JourneyType::CityCommute);
    vec![
        agent(walk, walk, local, 0, 0),
        agent(cycle, car, city, 1, 0),
        agent(car, cycle, city, 1, 1),
        agent(pt, pt, local, 2, 1),
        agent(walk, pt, local, 0, 1),
        agent(car, car, city, 2, 0),
    ]
}

#[test]
fn statistics_counts() {
    let agents = sample();
    assert_eq!(count_active_mode(&agents), 3);
    assert_eq!(count_active_mode_counter_to_inactive_norm(&agents), 2);
    assert_eq!(count_inactive_mode_counter_to_active_norm(&agents), 1);
    assert_eq!(count_active_norm(&agents), 2);
    assert_eq!(count_stats(&agents), (3, 2, 1, 2));
    assert_eq!(count_stats(&[]), (0, 0, 0, 0));
}

#[test]
fn statistics_balance() {
    let agents = sample();
    for n in 0..=agents.len() {
        let (active, active_counter, inactive_counter, active_norm) = count_stats(&agents[..n]);
        assert_eq!(active + inactive_counter, active_norm + active_counter);
    }
}

#[test]
fn active_by_commute_length() {
    let agents = sample();
    let counts = count_active_mode_by_commute_length(&agents);
    assert_eq!(counts.get(JourneyType::LocalCommute), Some(2));
    assert_eq!(counts.get(JourneyType::CityCommute), Some(1));
    assert_eq!(counts.get(JourneyType::DistantCommute), None);
    let none = count_active_mode_by_commute_length(&agents[2..3]);
    assert_eq!(none.get(JourneyType::CityCommute), Some(0));
    assert_eq!(none.get(JourneyType::LocalCommute), None);
}

#[test]
fn active_by_subculture() {
    let agents = sample();
    let ids = vec!["x".to_string(), "y".to_string(), "z".to_string()];
    let counts = count_active_mode_by_subculture(&agents, &ids);
    assert_eq!(counts.len(), 3);
    assert_eq!(counts[&0], 2);
    assert_eq!(counts[&1], 1);
    assert_eq!(counts[&2], 0);
    assert!(count_active_mode_by_subculture(&[], &ids).is_empty());
}

#[test]
fn active_by_subculture_merges_subcultures_sharing_an_id() {
    let agents = sample();
    // the subcultures at positions 0 and 1 share the id "x": one group, named 0
    let ids = vec!["x".to_string(), "x".to_string(), "z".to_string()];
    let counts = count_active_mode_by_subculture(&agents, &ids);
    assert_eq!(counts.len(), 2);
    assert_eq!(counts[&0], 3);
    assert_eq!(counts[&2], 0);
    let ids = vec!["x".to_string(), "y".to_string(), "x".to_string()];
    let counts = count_active_mode_by_subculture(&agents, &ids);
    assert_eq!(counts.len(), 2);
    assert_eq!(counts[&0], 2);
    assert_eq!(counts[&1], 1);
}

fn neighbourhood(id: &str, residents: Vec<usize>) -> Neighbourhood {
    Neighbourhood { id: id.to_string(), capacity: ModeMap::new(), congestion: ModeMap::new(), residents }
}

#[test]
fn active_by_neighbourhood() {
    let agents = sample();
    let neighbourhoods = vec![
        neighbourhood("a", vec![0, 1, 5]),
        neighbourhood("b", vec![2, 3, 4]),
        neighbourhood("c", vec![]),
    ];
    let counts = count_active_mode_by_neighbourhood(&neighbourhoods, &agents);
    assert_eq!(counts.len(), 3);
    assert_eq!(counts[&0], 2);
    assert_eq!(counts[&1], 1);
    assert_eq!(counts[&2], 0);
    assert!(count_active_mode_by_neighbourhood(&[], &agents).is_empty());
    let repeated = vec![neighbourhood("d", vec![0, 0, 1])];
    assert_eq!(count_active_mode_by_neighbourhood(&repeated, &agents)[&0], 3);
}

#[test]
fn active_by_neighbourhood_keeps_the_last_of_a_shared_id() {
    let agents = sample();
    let neighbourhoods = vec![
        neighbourhood("a", vec![0, 1, 5]),
        neighbourhood("b", vec![2, 3, 4]),
        neighbourhood("a", vec![4]),
    ];
    let counts = count_active_mode_by_neighbourhood(&neighbourhoods, &agents);
    assert_eq!(counts.len(), 2);
    assert_eq!(counts[&0], 1);
    assert_eq!(counts[&1], 1);
}

#[test]
fn last_modes_in_a_group() {
    let agents = sample();
    let counts = count_last_modes(&vec![0, 1, 4, 4], &agents);
    assert_eq!(counts.get(TransportMode::Walk), Some(3));
    assert_eq!(counts.get(TransportMode::Cycle), Some(1));
    assert_eq!(counts.get(TransportMode::Car), None);
    assert_eq!(counts.get(TransportMode::PublicTransport), None);
    let empty = count_last_modes(&vec![], &agents);
    assert!(empty.entries().is_empty());
}

#[test]
fn resolve_in_bad_weather() {
    let agents = sample();
    assert!(agents[0].resolve(false) == Resolve::Strengthened);
    assert!(agents[1].resolve(false) == Resolve::Strengthened);
    assert!(agents[2].resolve(false) == Resolve::Weakened);
    assert!(agents[3].resolve(false) == Resolve::Weakened);
    assert!(agents[0].resolve(true) == Resolve::Unchanged);
    assert!(agents[2].resolve(true) == Resolve::Unchanged);
}
