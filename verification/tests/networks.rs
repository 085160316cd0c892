use std::collections::HashMap;
use travel_mode_sim::agent::Agent;
use travel_mode_sim::journey_type::JourneyType;
use travel_mode_sim::network_file::{parse_network, NetworkError};
use travel_mode_sim::simulation::{
    link_agents, link_agents_from_predefined_network, link_agents_to_neighbours, Links,
};
use travel_mode_sim::social_network::{can_grow_network, degree_weights, generate_social_network};
use travel_mode_sim::transport_mode::TransportMode;

fn occurrences(s: &[u32], x: u32) -> usize {
    s.iter().filter(|v| **v == x).count()
}

fn assert_grown(network: &HashMap<u32, Vec<u32>>, min: u32, total: u32) {
    assert_eq!(network.len(), total as usize);
    let mut total_degree = 0usize;
    for a in 0..total {
        let row = &network[&a];
        total_degree += row.len();
        let made = if a < min { a } else { min } as usize;
        assert!(row.len() >= made);
        for (k, &f) in row.iter().enumerate() {
            assert!(f < total);
            assert!(f != a);
            assert_eq!(f < a, k < made);
        }
        // the links that later nodes make to this node come in the order those nodes joined
        for k in made..row.len() {
            if k + 1 < row.len() {
                assert!(row[k] <= row[k + 1]);
            }
        }
        if a < min {
            for j in 0..a {
                assert_eq!(occurrences(&row[..a as usize], j), 1);
            }
        }
        for b in 0..total {
            assert_eq!(occurrences(row, b), occurrences(&network[&b], a));
        }
    }
    let mut links = 0usize;
    for i in 0..total {
        links += if i < min { i } else { min } as usize;
    }
    assert_eq!(total_degree, 2 * links);
    if min >= 1 {
        // every node reaches node 0 by following first links
        for a in 1..total {
            let mut node = a;
            while node != 0 {
                let first = network[&node][0];
                assert!(first < node);
                node = first;
            }
        }
    }
}

#[test]
fn social_network_small_is_complete() {
    let network = generate_social_network(3, 3);
    assert_grown(&network, 3, 3);
    assert_eq!(network[&0], vec![1, 2]);
    assert_eq!(network[&1], vec![0, 2]);
    assert_eq!(network[&2], vec![0, 1]);
}

#[test]
fn social_network_grows_by_preferential_attachment() {
    for _ in 0..20 {
        let network = generate_social_network(2, 30);
        assert_grown(&network, 2, 30);
        for a in 2..30u32 {
            assert!(network[&a].len() >= 2);
        }
    }
    let network = generate_social_network(4, 50);
    assert_grown(&network, 4, 50);
}

#[test]
fn social_network_edge_sizes() {
    assert!(generate_social_network(0, 0).is_empty());
    assert!(generate_social_network(5, 0).is_empty());
    let single = generate_social_network(1, 1);
    assert_eq!(single.len(), 1);
    assert!(single[&0].is_empty());
    let pair = generate_social_network(2, 2);
    assert_eq!(pair[&0], vec![1]);
    assert_eq!(pair[&1], vec![0]);
}

#[test]
fn social_network_third_node_links_to_first_two() {
    // with min = 2 the third node draws twice among nodes 0 and 1, each having one link
    let network = generate_social_network(2, 3);
    assert_grown(&network, 2, 3);
    assert_eq!(network[&2].len(), 2);
    assert_eq!(network[&0].len() + network[&1].len(), 4);
}

fn agent(neighbourhood: usize) -> Agent {
    Agent {
        subculture: 0,
        neighbourhood,
        commute_length: JourneyType::LocalCommute,
        current_mode: TransportMode::Car,
        last_mode: TransportMode::Car,
        norm: TransportMode::Car,
        owns_bike: false,
        owns_car: true,
        social_network: Vec::new(),
        neighbours: Vec::new(),
    }
}

#[test]
fn predefined_network_appends_in_order() {
    let mut agents: Vec<Agent> = (0..4).map(|_| agent(0)).collect();
    agents[1].social_network.push(3);
    let mut network: HashMap<u32, Vec<u32>> = HashMap::new();
    network.insert(0, vec![1, 2]);
    network.insert(1, vec![0, 0]);
    let members: Vec<usize> = vec![0, 1, 2, 3];
    link_agents_from_predefined_network(&mut agents, &members, &network, Links::Social);
    assert_eq!(agents[0].social_network, vec![1, 2]);
    assert_eq!(agents[1].social_network, vec![3, 0, 0]);
    assert!(agents[2].social_network.is_empty());
    assert!(agents[0].neighbours.is_empty());
}

#[test]
fn predefined_network_maps_ids_through_members() {
    let mut agents: Vec<Agent> = (0..5).map(|_| agent(0)).collect();
    let mut network: HashMap<u32, Vec<u32>> = HashMap::new();
    network.insert(0, vec![1]);
    network.insert(1, vec![0]);
    let members: Vec<usize> = vec![4, 2];
    link_agents_from_predefined_network(&mut agents, &members, &network, Links::Neighbours);
    assert_eq!(agents[4].neighbours, vec![2]);
    assert_eq!(agents[2].neighbours, vec![4]);
    assert!(agents[0].neighbours.is_empty());
    assert!(agents[4].social_network.is_empty());
}

#[test]
fn neighbours_stay_within_members() {
    let mut agents: Vec<Agent> = (0..10).map(|_| agent(0)).collect();
    let members: Vec<usize> = vec![1, 3, 5, 7, 9];
    link_agents_to_neighbours(&mut agents, &members, 2);
    for (p, &m) in members.iter().enumerate() {
        let made = if p < 2 { p } else { 2 };
        assert!(agents[m].neighbours.len() >= made);
        for n in &agents[m].neighbours {
            assert!(members.contains(n));
            assert!(*n != m);
        }
    }
    for a in [0usize, 2, 4, 6, 8] {
        assert!(agents[a].neighbours.is_empty());
    }
}

#[test]
fn link_agents_links_socially_and_by_neighbourhood() {
    let mut agents: Vec<Agent> = vec![agent(0), agent(1), agent(0), agent(1), agent(0), agent(1)];
    let mut network: HashMap<u32, Vec<u32>> = HashMap::new();
    network.insert(0, vec![5]);
    network.insert(5, vec![0]);
    network.insert(3, vec![1, 2]);
    let ids = vec!["n0".to_string(), "n1".to_string()];
    link_agents(&mut agents, 2, network, &ids);
    assert_eq!(agents[0].social_network, vec![5]);
    assert_eq!(agents[5].social_network, vec![0]);
    assert_eq!(agents[3].social_network, vec![1, 2]);
    assert!(agents[1].social_network.is_empty());
    for (a, x) in agents.iter().enumerate() {
        assert!(!x.neighbours.is_empty());
        for n in &x.neighbours {
            assert_eq!(agents[*n].neighbourhood, x.neighbourhood);
            assert!(*n != a);
        }
    }
    // the first two residents of each neighbourhood are linked to each other
    assert!(agents[0].neighbours.contains(&2));
    assert!(agents[1].neighbours.contains(&3));
}

#[test]
fn which_networks_can_grow() {
    assert!(can_grow_network(0, 0));
    assert!(!can_grow_network(0, 1));
    assert!(can_grow_network(1, 1));
    assert!(!can_grow_network(1, 2));
    assert!(can_grow_network(2, 3));
    assert!(can_grow_network(5, 3));
    assert!(can_grow_network(3, 1000));
    // links after 80000 nodes with min 40000: 799980000 + 1600000000, twice that exceeds u32::MAX
    assert!(!can_grow_network(40000, 80001));
    // links after 65537 nodes with min 32768: 536854528 + 1073774592, twice that fits
    assert!(can_grow_network(32768, 65538));
}

#[test]
fn degree_weights_are_link_counts() {
    let adj: Vec<Vec<u32>> = vec![vec![1, 2, 3], vec![0], vec![0, 3], vec![0, 2], vec![]];
    assert_eq!(degree_weights(&adj), vec![3, 1, 2, 2, 0]);
    assert_eq!(degree_weights(&vec![]), Vec::<u32>::new());
}

#[test]
fn social_network_later_links_follow_joining_order() {
    for _ in 0..20 {
        let network = generate_social_network(2, 12);
        assert_grown(&network, 2, 12);
        assert_eq!(network[&0][0], 1);
        assert_eq!(network[&1][0], 0);
    }
}

#[test]
fn link_agents_groups_neighbourhoods_by_id() {
    // neighbourhoods 0 and 2 share an id, so their residents form one neighbourhood
    let mut agents: Vec<Agent> = vec![agent(0), agent(2), agent(0), agent(2), agent(1), agent(1)];
    let ids = vec!["n".to_string(), "m".to_string(), "n".to_string()];
    link_agents(&mut agents, 2, HashMap::new(), &ids);
    // the first two residents of the shared neighbourhood are linked to each other
    assert_eq!(agents[0].neighbours[0], 1);
    assert_eq!(agents[1].neighbours[0], 0);
    assert_eq!(agents[4].neighbours, vec![5]);
    assert_eq!(agents[5].neighbours, vec![4]);
    for x in agents.iter() {
        for n in &x.neighbours {
            assert_eq!(ids[agents[*n].neighbourhood], ids[x.neighbourhood]);
        }
    }
}

#[test]
fn network_is_read_from_yaml() {
    let network = parse_network(b"0: [1, 2]\n1: [0]\n2: [0]\n").unwrap();
    assert_eq!(network.len(), 3);
    assert_eq!(network[&0], vec![1, 2]);
    assert_eq!(network[&1], vec![0]);
    assert_eq!(network[&2], vec![0]);
    let generated = generate_social_network(2, 6);
    let text = serde_yaml::to_string(&generated).unwrap();
    assert_eq!(parse_network(text.as_bytes()).unwrap(), generated);
    assert_eq!(parse_network(b"0: [a, b]\n"), Err(NetworkError::NotANetwork));
    assert_eq!(parse_network(b"- 1\n- 2\n"), Err(NetworkError::NotANetwork));
}
