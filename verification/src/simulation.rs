use crate::agent::Agent;
use crate::grouping::{group_pairs, values_with_key};
use crate::intervention::{first_sharing_id, id_group, ids_of, lemma_id_group};
use crate::journey_type::JourneyType;
use crate::transport_mode::TransportMode;
use crate::weather::Weather;
use crate::social_network::{
    drawn_by_link_count, generate_social_network, is_grown_network, network_can_grow, network_rows,
};
use std::collections::HashMap;
use vstd::prelude::*;
use vstd::std_specs::iter::IteratorSpec;

verus! {

broadcast use vstd::std_specs::hash::group_hash_axioms;

/// Whether a day is a weekday, day 0 being a Monday: the first five days of every week.
pub open spec fn is_weekday(day: nat) -> bool {
    day % 7 < 5
}

/// Calculate whether a given day is a weekday
/// * day: The day number, day 0 being a Monday
/// * Returns: true iff day is a weekday
pub fn weekday(day: u32) -> (is_weekday_day: bool)
    ensures
        is_weekday_day == is_weekday(day as nat),
{
    day % 7 < 5
}

/// The weekdays repeat every week: a day and the same day a week later are both weekdays
/// or both not.
pub proof fn lemma_weekdays_repeat_weekly(day: nat)
    ensures
        is_weekday(day) == is_weekday(day + 7),
{
    assert((day + 7) % 7 == day % 7);
}

/// What the simulation does on a day after the first.
#[derive(Debug, Clone, Copy, PartialEq, Eq, Structural)]
pub struct DayPlan {
    /// The scenario's intervention is applied, before anything else that day.
    pub intervene: bool,
    /// The agents update their habits, choose how to travel, and the day's rows are
    /// written.
    pub simulate: bool,
}

/// Decides what the simulation does on `day`: the intervention takes place on its day,
/// whatever day of the week it is, and the agents travel, and the day is written out, on
/// weekdays only.
pub fn plan_day(day: u32, intervention_day: u32) -> (plan: DayPlan)
    ensures
        plan.intervene == (day == intervention_day),
        plan.simulate == is_weekday(day as nat),
{
    DayPlan { intervene: day == intervention_day, simulate: weekday(day) }
}

/// Generate the header for the csv file
/// * Returns: The header for the csv file
pub fn generate_csv_header() -> (header: String)
    ensures
        header@ == "Day,Rain,AgentID,Mode,Subculture,Neighbourhood,CommuteLength,Norm,OwnsBike,OwnsCar\n"@,
{
    String::from_str("Day,Rain,AgentID,Mode,Subculture,Neighbourhood,CommuteLength,Norm,OwnsBike,OwnsCar\n")
}

/// The decimal digits of `n`, most significant first.
pub open spec fn decimal(n: nat) -> Seq<char>
    decreases n,
{
    if n < 10 {
        seq![digit_char(n)]
    } else {
        decimal(n / 10).push(digit_char(n % 10))
    }
}

/// The character of a decimal digit.
pub open spec fn digit_char(d: nat) -> char {
    seq!['0', '1', '2', '3', '4', '5', '6', '7', '8', '9'][d as int]
}

/// Whether a character is a decimal digit, '0' to '9'.
pub open spec fn is_digit(c: char) -> bool {
    '0' as int <= c as int <= '9' as int
}

/// The number that a text of decimal digits spells: each digit counts its distance from
/// '0', and each place counts ten times the next.
pub open spec fn decimal_value(text: Seq<char>) -> int
    decreases text.len(),
{
    if text.len() == 0 {
        0
    } else {
        decimal_value(text.drop_last()) * 10 + (text.last() as int - '0' as int)
    }
}

/// The character of a decimal digit is the digit's distance from '0'.
pub proof fn lemma_digit_char(d: nat)
    requires
        d < 10,
    ensures
        digit_char(d) as int == '0' as int + d,
{
    if d == 0 {
        assert(digit_char(d) == '0');
    } else if d == 1 {
        assert(digit_char(d) == '1');
    } else if d == 2 {
        assert(digit_char(d) == '2');
    } else if d == 3 {
        assert(digit_char(d) == '3');
    } else if d == 4 {
        assert(digit_char(d) == '4');
    } else if d == 5 {
        assert(digit_char(d) == '5');
    } else if d == 6 {
        assert(digit_char(d) == '6');
    } else if d == 7 {
        assert(digit_char(d) == '7');
    } else if d == 8 {
        assert(digit_char(d) == '8');
    } else {
        assert(digit_char(d) == '9');
    }
}

/// The text of a number in the output is its standard decimal representation: it is made
/// of decimal digits, reading it back gives the number, and it has no leading zero.
pub proof fn lemma_decimal_spells_the_number(n: nat)
    ensures
        decimal(n).len() >= 1,
        forall|k: int| 0 <= k < decimal(n).len() ==> is_digit(#[trigger] decimal(n)[k]),
        decimal_value(decimal(n)) == n,
        decimal(n)[0] == '0' ==> n == 0,
    decreases n,
{
    lemma_digit_char(n % 10);
    if n >= 10 {
        lemma_decimal_spells_the_number(n / 10);
        let t = decimal(n);
        assert(t.drop_last() =~= decimal(n / 10));
        assert(t[0] == decimal(n / 10)[0]);
        assert forall|k: int| 0 <= k < t.len() implies is_digit(#[trigger] t[k]) by {
            if k < t.len() - 1 {
                assert(t[k] == decimal(n / 10)[k]);
            }
        }
        assert(t.last() == digit_char(n % 10));
        assert(decimal_value(t) == decimal_value(decimal(n / 10)) * 10 + (n % 10));
        assert((n / 10) * 10 + n % 10 == n) by (nonlinear_arith);
    } else {
        assert(decimal(n).drop_last() =~= Seq::<char>::empty());
        assert(decimal_value(Seq::<char>::empty()) == 0);
        assert(decimal(n).last() == digit_char(n));
    }
}

fn append_digit(s: &mut String, d: u64)
    requires
        d < 10,
    ensures
        final(s)@ == old(s)@.push(digit_char(d as nat)),
{
    let digit: &str = match d {
        0 => "0",
        1 => "1",
        2 => "2",
        3 => "3",
        4 => "4",
        5 => "5",
        6 => "6",
        7 => "7",
        8 => "8",
        _ => "9",
    };
    proof {
        reveal_strlit("0");
        reveal_strlit("1");
        reveal_strlit("2");
        reveal_strlit("3");
        reveal_strlit("4");
        reveal_strlit("5");
        reveal_strlit("6");
        reveal_strlit("7");
        reveal_strlit("8");
        reveal_strlit("9");
    }
    s.append(digit);
    assert(s@ =~= old(s)@.push(digit_char(d as nat)));
}

/// Appends the decimal digits of `n`.
fn append_decimal(s: &mut String, n: u64)
    ensures
        final(s)@ == old(s)@ + decimal(n as nat),
    decreases n,
{
    if n >= 10 {
        append_decimal(s, n / 10);
    }
    append_digit(s, n % 10);
    assert(s@ =~= old(s)@ + decimal(n as nat));
}

/// The name of a transport mode in the CSV output.
pub open spec fn mode_name(mode: TransportMode) -> Seq<char> {
    match mode {
        TransportMode::Car => seq!['C', 'a', 'r'],
        TransportMode::PublicTransport => seq![
            'P',
            'u',
            'b',
            'l',
            'i',
            'c',
            'T',
            'r',
            'a',
            'n',
            's',
            'p',
            'o',
            'r',
            't',
        ],
        TransportMode::Cycle => seq!['C', 'y', 'c', 'l', 'e'],
        TransportMode::Walk => seq!['W', 'a', 'l', 'k'],
    }
}

/// The name of a commute length in the CSV output.
pub open spec fn journey_name(journey: JourneyType) -> Seq<char> {
    match journey {
        JourneyType::LocalCommute => seq!['L', 'o', 'c', 'a', 'l', 'C', 'o', 'm', 'm', 'u', 't', 'e'],
        JourneyType::CityCommute => seq!['C', 'i', 't', 'y', 'C', 'o', 'm', 'm', 'u', 't', 'e'],
        JourneyType::DistantCommute => seq![
            'D',
            'i',
            's',
            't',
            'a',
            'n',
            't',
            'C',
            'o',
            'm',
            'm',
            'u',
            't',
            'e',
        ],
    }
}

/// The text of a boolean in the CSV output.
pub open spec fn bool_name(b: bool) -> Seq<char> {
    if b {
        seq!['t', 'r', 'u', 'e']
    } else {
        seq!['f', 'a', 'l', 's', 'e']
    }
}

fn append_mode(s: &mut String, mode: TransportMode)
    ensures
        final(s)@ == old(s)@ + mode_name(mode),
{
    proof {
        reveal_strlit("Car");
        reveal_strlit("PublicTransport");
        reveal_strlit("Cycle");
        reveal_strlit("Walk");
    }
    match mode {
        TransportMode::Car => s.append("Car"),
        TransportMode::PublicTransport => s.append("PublicTransport"),
        TransportMode::Cycle => s.append("Cycle"),
        TransportMode::Walk => s.append("Walk"),
    }
    assert(s@ =~= old(s)@ + mode_name(mode));
}

fn append_journey(s: &mut String, journey: JourneyType)
    ensures
        final(s)@ == old(s)@ + journey_name(journey),
{
    proof {
        reveal_strlit("LocalCommute");
        reveal_strlit("CityCommute");
        reveal_strlit("DistantCommute");
    }
    match journey {
        JourneyType::LocalCommute => s.append("LocalCommute"),
        JourneyType::CityCommute => s.append("CityCommute"),
        JourneyType::DistantCommute => s.append("DistantCommute"),
    }
    assert(s@ =~= old(s)@ + journey_name(journey));
}

fn append_bool(s: &mut String, b: bool)
    ensures
        final(s)@ == old(s)@ + bool_name(b),
{
    proof {
        reveal_strlit("true");
        reveal_strlit("false");
    }
    if b {
        s.append("true");
    } else {
        s.append("false");
    }
    assert(s@ =~= old(s)@ + bool_name(b));
}

/// The rain column: 1 if the weather is bad, else 0.
pub open spec fn rain_of(weather: Weather) -> nat {
    if weather == Weather::Good {
        0
    } else {
        1
    }
}

/// The first columns of a CSV row: day, rain and the agent's position.
pub open spec fn csv_row_start(day: nat, weather: Weather, i: nat) -> Seq<char> {
    decimal(day) + seq![','] + decimal(rain_of(weather)) + seq![','] + decimal(i) + seq![',']
}

/// The middle columns of a CSV row: mode, subculture id and neighbourhood id.
pub open spec fn csv_row_middle(a: Agent, subculture_ids: Seq<String>, neighbourhood_ids: Seq<String>) -> Seq<char> {
    mode_name(a.current_mode) + seq![','] + subculture_ids[a.subculture as int]@ + seq![',']
        + neighbourhood_ids[a.neighbourhood as int]@ + seq![',']
}

/// The last columns of a CSV row: commute length, norm, and whether the agent owns a bike
/// and a car.
pub open spec fn csv_row_end(a: Agent) -> Seq<char> {
    journey_name(a.commute_length) + seq![','] + mode_name(a.norm) + seq![','] + bool_name(
        a.owns_bike,
    ) + seq![','] + bool_name(a.owns_car)
}

/// The CSV row of agent `i`: day, rain (1 if the weather is bad, else 0), the agent's
/// position, mode, subculture id, neighbourhood id, commute length, norm, and whether it
/// owns a bike and a car, separated by commas.
pub open spec fn csv_row(
    day: nat,
    weather: Weather,
    i: nat,
    a: Agent,
    subculture_ids: Seq<String>,
    neighbourhood_ids: Seq<String>,
) -> Seq<char> {
    csv_row_start(day, weather, i) + csv_row_middle(a, subculture_ids, neighbourhood_ids)
        + csv_row_end(a)
}

fn append_row_start(s: &mut String, day: u32, weather: Weather, i: usize)
    ensures
        final(s)@ == old(s)@ + csv_row_start(day as nat, weather, i as nat),
{
    proof {
        reveal_strlit(",");
    }
    let rain: u64 = if weather == Weather::Good {
        0
    } else {
        1
    };
    append_decimal(s, day as u64);
    s.append(",");
    append_decimal(s, rain);
    s.append(",");
    append_decimal(s, i as u64);
    s.append(",");
    assert(s@ =~= old(s)@ + csv_row_start(day as nat, weather, i as nat));
}

fn append_row_middle(s: &mut String, a: &Agent, subculture_ids: &Vec<String>, neighbourhood_ids: &Vec<String>)
    requires
        a.subculture < subculture_ids.len(),
        a.neighbourhood < neighbourhood_ids.len(),
    ensures
        final(s)@ == old(s)@ + csv_row_middle(*a, subculture_ids@, neighbourhood_ids@),
{
    proof {
        reveal_strlit(",");
    }
    append_mode(s, a.current_mode);
    s.append(",");
    s.append(subculture_ids[a.subculture].as_str());
    s.append(",");
    s.append(neighbourhood_ids[a.neighbourhood].as_str());
    s.append(",");
    assert(s@ =~= old(s)@ + csv_row_middle(*a, subculture_ids@, neighbourhood_ids@));
}

fn append_row_end(s: &mut String, a: &Agent)
    ensures
        final(s)@ == old(s)@ + csv_row_end(*a),
{
    proof {
        reveal_strlit(",");
    }
    append_journey(s, a.commute_length);
    s.append(",");
    append_mode(s, a.norm);
    s.append(",");
    append_bool(s, a.owns_bike);
    s.append(",");
    append_bool(s, a.owns_car);
    assert(s@ =~= old(s)@ + csv_row_end(*a));
}

/// The rows of the first `n` agents, each followed by a line break.
pub open spec fn csv_rows(
    day: nat,
    weather: Weather,
    agents: Seq<Agent>,
    subculture_ids: Seq<String>,
    neighbourhood_ids: Seq<String>,
    n: nat,
) -> Seq<char>
    decreases n,
{
    if n == 0 {
        Seq::empty()
    } else {
        csv_rows(day, weather, agents, subculture_ids, neighbourhood_ids, (n - 1) as nat) + csv_row(
            day,
            weather,
            (n - 1) as nat,
            agents[n - 1],
            subculture_ids,
            neighbourhood_ids,
        ) + seq!['\n']
    }
}

/// Generate CSV output that conforms to the header generated in generate_csv_header(...)
/// * day: The day number
/// * weather: The current weather
/// * agents: The agents in the network
/// * subculture_ids, neighbourhood_ids: the ids of the subcultures and neighbourhoods that
///   the agents refer to by position
/// * Returns: The csv output for the day: one row per agent, each followed by a line
///   break (a single line break when there are no agents)
pub fn generate_csv_output_per_agent(
    day: u32,
    weather: &Weather,
    agents: &[Agent],
    subculture_ids: &Vec<String>,
    neighbourhood_ids: &Vec<String>,
) -> (output: String)
    requires
        forall|k: int|
            0 <= k < agents.len() ==> (#[trigger] agents@[k]).subculture < subculture_ids.len()
                && agents@[k].neighbourhood < neighbourhood_ids.len(),
    ensures
        output@ == if agents.len() == 0 {
            seq!['\n']
        } else {
            csv_rows(day as nat, *weather, agents@, subculture_ids@, neighbourhood_ids@, agents.len() as nat)
        },
{
    proof {
        reveal_strlit(",");
        reveal_strlit("\n");
    }
    let mut output = String::new();
    let mut i: usize = 0;
    while i < agents.len()
        invariant
            i <= agents.len(),
            forall|k: int|
                0 <= k < agents.len() ==> (#[trigger] agents@[k]).subculture < subculture_ids.len()
                    && agents@[k].neighbourhood < neighbourhood_ids.len(),
            output@ == csv_rows(
                day as nat,
                *weather,
                agents@,
                subculture_ids@,
                neighbourhood_ids@,
                i as nat,
            ),
        decreases agents.len() - i,
    {
        let ghost before = output@;
        proof {
            reveal_strlit(",");
            reveal_strlit("\n");
        }
        let a = &agents[i];
        append_row_start(&mut output, day, *weather, i);
        append_row_middle(&mut output, a, subculture_ids, neighbourhood_ids);
        append_row_end(&mut output, a);
        output.append("\n");
        assert(output@ =~= before + csv_row(
            day as nat,
            *weather,
            i as nat,
            agents@[i as int],
            subculture_ids@,
            neighbourhood_ids@,
        ) + seq!['\n']);
        i = i + 1;
    }
    if agents.len() == 0 {
        output.append("\n");
        assert(output@ =~= seq!['\n']);
    }
    output
}

/// Which of an agent's networks a set of links goes to.
#[derive(Debug, Clone, Copy, PartialEq, Eq, Structural)]
pub enum Links {
    /// The agent's social network (friends).
    Social,
    /// The agent's neighbourhood network (neighbours).
    Neighbours,
}

/// The agent's links of the given kind.
pub open spec fn links_of(a: Agent, kind: Links) -> Seq<usize> {
    match kind {
        Links::Social => a.social_network@,
        Links::Neighbours => a.neighbours@,
    }
}

/// The two agents are the same but for their links of the given kind.
pub open spec fn same_but_links(a: Agent, b: Agent, kind: Links) -> bool {
    &&& same_traits(a, b)
    &&& kind == Links::Social ==> a.neighbours@ == b.neighbours@
    &&& kind == Links::Neighbours ==> a.social_network@ == b.social_network@
}

/// The two agents are the same but for their links.
pub open spec fn same_traits(a: Agent, b: Agent) -> bool {
    &&& a.subculture == b.subculture
    &&& a.neighbourhood == b.neighbourhood
    &&& a.commute_length == b.commute_length
    &&& a.current_mode == b.current_mode
    &&& a.last_mode == b.last_mode
    &&& a.norm == b.norm
    &&& a.owns_bike == b.owns_bike
    &&& a.owns_car == b.owns_car
}

/// The agents that the ids of a network stand for: id `j` stands for the agent at
/// position `members[j]`.
pub open spec fn members_of(ids: Seq<u32>, members: Seq<usize>) -> Seq<usize> {
    Seq::new(ids.len(), |j: int| members[ids[j] as int])
}

/// The links that the network gives the member with id `p`: none when the network has no
/// entry for `p`.
pub open spec fn network_links(network: Map<u32, Vec<u32>>, members: Seq<usize>, p: int) -> Seq<
    usize,
> {
    if p <= u32::MAX && network.contains_key(p as u32) {
        members_of(network[p as u32]@, members)
    } else {
        Seq::empty()
    }
}

/// Link agents to a predefined network
/// * agents: the population
/// * members: the agents of the network, by position in the population: id `j` of the
///   network stands for the agent at position `members[j]`
/// * network: A map from id, to a vector of friend ids
/// * kind: the agents' network that the links are added to
///
/// Each member's links of the given kind are extended with the members its entry in the
/// network lists, in the order listed.
pub fn link_agents_from_predefined_network(
    agents: &mut Vec<Agent>,
    members: &Vec<usize>,
    network: &HashMap<u32, Vec<u32>>,
    kind: Links,
)
    requires
        forall|k: u32| #[trigger] network@.contains_key(k) ==> k < members.len(),
        forall|k: u32, j: int|
            network@.contains_key(k) && 0 <= j < network@[k]@.len() ==> #[trigger] network@[k]@[j]
                < members.len(),
        forall|p: int| 0 <= p < members.len() ==> #[trigger] members@[p] < old(agents).len(),
        members@.no_duplicates(),
    ensures
        final(agents).len() == old(agents).len(),
        forall|a: int|
            0 <= a < final(agents).len() ==> same_but_links(
                #[trigger] final(agents)@[a],
                old(agents)@[a],
                kind,
            ),
        forall|p: int|
            0 <= p < members.len() ==> #[trigger] links_of(final(agents)@[members@[p] as int], kind)
                == links_of(old(agents)@[members@[p] as int], kind) + network_links(
                network@,
                members@,
                p,
            ),
        forall|a: int|
            0 <= a < final(agents).len() && !members@.contains(a as usize) ==> links_of(
                #[trigger] final(agents)@[a],
                kind,
            ) == links_of(old(agents)@[a], kind),
{
    let ghost start = agents@;
    let mut p: usize = 0;
    while p < members.len()
        invariant
            p <= members.len(),
            agents.len() == start.len(),
            forall|k: u32| #[trigger] network@.contains_key(k) ==> k < members.len(),
            forall|k: u32, j: int|
                network@.contains_key(k) && 0 <= j < network@[k]@.len() ==> #[trigger] network@[k]@[j]
                    < members.len(),
            forall|q: int| 0 <= q < members.len() ==> #[trigger] members@[q] < start.len(),
            members@.no_duplicates(),
            forall|a: int|
                0 <= a < agents.len() ==> same_but_links(#[trigger] agents@[a], start[a], kind),
            forall|q: int|
                0 <= q < p ==> #[trigger] links_of(agents@[members@[q] as int], kind) == links_of(
                    start[members@[q] as int],
                    kind,
                ) + network_links(network@, members@, q),
            forall|a: int|
                0 <= a < agents.len() && !members@.take(p as int).contains(a as usize) ==> links_of(
                    #[trigger] agents@[a],
                    kind,
                ) == links_of(start[a], kind),
        decreases members.len() - p,
    {
        let ghost before_p = agents@;
        let a = members[p];
        if p <= u32::MAX as usize {
            match network.get(&(p as u32)) {
                Some(ids) => {
                    let mut j: usize = 0;
                    while j < ids.len()
                        invariant
                            j <= ids.len(),
                            a == members@[p as int],
                            a < agents.len(),
                            agents.len() == before_p.len(),
                            forall|i: int|
                                0 <= i < ids.len() ==> #[trigger] ids@[i] < members.len(),
                            forall|q: int|
                                0 <= q < members.len() ==> #[trigger] members@[q] < start.len(),
                            start.len() == before_p.len(),
                            forall|b: int|
                                0 <= b < agents.len() && b != a ==> #[trigger] agents@[b]
                                    == before_p[b],
                            same_but_links(agents@[a as int], before_p[a as int], kind),
                            links_of(agents@[a as int], kind) == links_of(
                                before_p[a as int],
                                kind,
                            ) + members_of(ids@.take(j as int), members@),
                        decreases ids.len() - j,
                    {
                        let friend = members[ids[j] as usize];
                        match kind {
                            Links::Social => agents[a].social_network.push(friend),
                            Links::Neighbours => agents[a].neighbours.push(friend),
                        }
                        proof {
                            assert(members_of(ids@.take(j + 1), members@) =~= members_of(
                                ids@.take(j as int),
                                members@,
                            ).push(friend));
                        }
                        j = j + 1;
                    }
                    proof {
                        assert(ids@.take(ids.len() as int) =~= ids@);
                    }
                },
                None => {
                    proof {
                        assert(network_links(network@, members@, p as int) =~= Seq::empty());
                        assert(links_of(agents@[a as int], kind) =~= links_of(
                            before_p[a as int],
                            kind,
                        ) + network_links(network@, members@, p as int));
                    }
                },
            }
        }
        proof {
            assert(members@.take(p + 1) =~= members@.take(p as int).push(a));
            assert forall|q: int| 0 <= q < p implies members@[q] != a by {}
            assert forall|b: int|
                0 <= b < agents.len() && !members@.take(p + 1).contains(
                    b as usize,
                ) implies links_of(#[trigger] agents@[b], kind) == links_of(start[b], kind) by {
                assert(members@.take(p + 1)[p as int] == a);
                if members@.take(p as int).contains(b as usize) {
                    let i = choose|i: int| 0 <= i < p && members@.take(p as int)[i] == b as usize;
                    assert(members@.take(p + 1)[i] == b as usize);
                }
                assert(b != a);
                assert(agents@[b] == before_p[b]);
            }
        }
        p = p + 1;
    }
    proof {
        assert(members@.take(members.len() as int) =~= members@);
    }
}

/// The members (positions in the population) were given the links of a network grown by
/// preferential attachment with at least `min` links per joining member, each drawn with
/// the link counts of the time as weights: member `p` of
/// `members` gained, after its links in `before`, the members that row `p` of the network
/// names.
pub open spec fn linked_by_grown_network(
    before: Seq<Agent>,
    after: Seq<Agent>,
    members: Seq<usize>,
    min: nat,
    kind: Links,
) -> bool {
    exists|rows: Seq<Seq<u32>>|
        {
            &&& rows.len() == members.len()
            &&& is_grown_network(rows, min)
            &&& drawn_by_link_count(rows, min)
            &&& forall|p: int|
                0 <= p < members.len() ==> #[trigger] links_of(after[members[p] as int], kind)
                    == links_of(before[members[p] as int], kind) + members_of(rows[p], members)
        }
}

/// Link agents to a neighbourhood network
/// <https://en.wikipedia.org/wiki/Barab%C3%A1si%E2%80%93Albert_model>
/// * agents: the population
/// * members: the agents of the neighbourhood, by position in the population
/// * n: the minimum number of links
///
/// A network over the members is grown by preferential attachment and each member's
/// neighbours are extended with the members it is linked to.
pub fn link_agents_to_neighbours(agents: &mut Vec<Agent>, members: &Vec<usize>, n: u32)
    requires
        members.len() <= u32::MAX,
        network_can_grow(n as nat, members.len() as nat),
        forall|p: int| 0 <= p < members.len() ==> #[trigger] members@[p] < old(agents).len(),
        members@.no_duplicates(),
    ensures
        final(agents).len() == old(agents).len(),
        forall|a: int|
            0 <= a < final(agents).len() ==> same_but_links(
                #[trigger] final(agents)@[a],
                old(agents)@[a],
                Links::Neighbours,
            ),
        linked_by_grown_network(old(agents)@, final(agents)@, members@, n as nat, Links::Neighbours),
        forall|a: int|
            0 <= a < final(agents).len() && !members@.contains(a as usize) ==> links_of(
                #[trigger] final(agents)@[a],
                Links::Neighbours,
            ) == links_of(old(agents)@[a], Links::Neighbours),
{
    let network = generate_social_network(n, members.len() as u32);
    let ghost rows = network_rows(network@, members.len() as nat);
    proof {
        assert forall|k: u32, j: int|
            network@.contains_key(k) && 0 <= j < network@[k]@.len() implies #[trigger] network@[k]@[j]
            < members.len() by {
            assert(rows[k as int] == network@[k]@);
        }
    }
    link_agents_from_predefined_network(agents, members, &network, Links::Neighbours);
    proof {
        assert forall|p: int| 0 <= p < members.len() implies #[trigger] network_links(
            network@,
            members@,
            p,
        ) == members_of(rows[p], members@) by {
            assert(network@.contains_key(p as u32));
        }
        assert(forall|p: int|
            0 <= p < members.len() ==> #[trigger] links_of(agents@[members@[p] as int], Links::Neighbours)
                == links_of(old(agents)@[members@[p] as int], Links::Neighbours) + members_of(
                rows[p],
                members@,
            ));
    }
}

/// The neighbourhood an agent lives in, as a group of neighbourhoods: neighbourhoods are
/// equal when they share an id, and a group is named by the position of the first
/// neighbourhood with its id (`ids` are the ids of the neighbourhoods, by position).
pub open spec fn home(ids: Seq<Seq<char>>, a: Agent) -> usize {
    id_group(ids, a.neighbourhood)
}

/// Each agent paired with the neighbourhood it lives in: (neighbourhood, position).
pub open spec fn neighbourhood_pairs(agents: Seq<Agent>, ids: Seq<Seq<char>>) -> Seq<
    (usize, usize),
> {
    Seq::new(agents.len(), |k: int| (home(ids, agents[k]), k as usize))
}

/// The positions of the agents living in the given neighbourhood (a group of
/// neighbourhoods sharing an id), in order.
pub open spec fn neighbourhood_members(
    agents: Seq<Agent>,
    ids: Seq<Seq<char>>,
    neighbourhood: usize,
) -> Seq<usize> {
    values_with_key(neighbourhood_pairs(agents, ids), neighbourhood)
}

proof fn lemma_neighbourhood_members(agents: Seq<Agent>, ids: Seq<Seq<char>>, h: usize)
    requires
        agents.len() <= usize::MAX,
    ensures
        ({
            let m = neighbourhood_members(agents, ids, h);
            &&& forall|i: int|
                0 <= i < m.len() ==> #[trigger] m[i] < agents.len() && home(ids, agents[m[i] as int])
                    == h
            &&& forall|i: int, j: int| 0 <= i < j < m.len() ==> #[trigger] m[i] < #[trigger] m[j]
            &&& forall|a: int|
                0 <= a < agents.len() && home(ids, #[trigger] agents[a]) == h ==> m.contains(
                    a as usize,
                )
            &&& m.no_duplicates()
        }),
    decreases agents.len(),
{
    let m = neighbourhood_members(agents, ids, h);
    if agents.len() > 0 {
        let rest = agents.drop_last();
        assert(neighbourhood_pairs(rest, ids) =~= neighbourhood_pairs(agents, ids).drop_last());
        lemma_neighbourhood_members(rest, ids, h);
        let mr = neighbourhood_members(rest, ids, h);
        let last = (agents.len() - 1) as int;
        if home(ids, agents[last]) == h {
            assert(m == mr.push(last as usize));
            assert(m[mr.len() as int] == last as usize);
        } else {
            assert(m == mr);
        }
        assert forall|a: int|
            0 <= a < agents.len() && home(ids, #[trigger] agents[a]) == h implies m.contains(
            a as usize,
        ) by {
            if a < last {
                assert(rest[a] == agents[a]);
                let i = choose|i: int| 0 <= i < mr.len() && mr[i] == a as usize;
                assert(m[i] == a as usize);
            } else {
                assert(m[mr.len() as int] == last as usize);
            }
        }
    }
    assert forall|i: int, j: int| 0 <= i < m.len() && 0 <= j < m.len() && i != j implies m[i]
        != m[j] by {
        if i < j {
            assert(m[i] < m[j]);
        } else {
            assert(m[j] < m[i]);
        }
    }
}

proof fn lemma_neighbourhood_pairs_same(a1: Seq<Agent>, a2: Seq<Agent>, ids: Seq<Seq<char>>)
    requires
        a1.len() == a2.len(),
        forall|k: int| 0 <= k < a1.len() ==> home(ids, #[trigger] a1[k]) == home(ids, a2[k]),
    ensures
        neighbourhood_pairs(a1, ids) == neighbourhood_pairs(a2, ids),
{
    assert(neighbourhood_pairs(a1, ids) =~= neighbourhood_pairs(a2, ids));
}

/// The number of agents living in the given neighbourhood (a group of neighbourhoods
/// sharing an id).
pub open spec fn neighbourhood_size(
    agents: Seq<Agent>,
    ids: Seq<Seq<char>>,
    neighbourhood: usize,
) -> nat {
    neighbourhood_members(agents, ids, neighbourhood).len()
}

proof fn lemma_linked_transfer(
    before1: Seq<Agent>,
    after1: Seq<Agent>,
    before2: Seq<Agent>,
    after2: Seq<Agent>,
    members: Seq<usize>,
    min: nat,
    kind: Links,
)
    requires
        linked_by_grown_network(before1, after1, members, min, kind),
        forall|p: int|
            0 <= p < members.len() ==> links_of(before2[#[trigger] members[p] as int], kind)
                == links_of(before1[members[p] as int], kind) && links_of(
                after2[members[p] as int],
                kind,
            ) == links_of(after1[members[p] as int], kind),
    ensures
        linked_by_grown_network(before2, after2, members, min, kind),
{
    let rows = choose|rows: Seq<Seq<u32>>|
        {
            &&& rows.len() == members.len()
            &&& is_grown_network(rows, min)
            &&& drawn_by_link_count(rows, min)
            &&& forall|p: int|
                0 <= p < members.len() ==> #[trigger] links_of(after1[members[p] as int], kind)
                    == links_of(before1[members[p] as int], kind) + members_of(rows[p], members)
        };
    assert forall|p: int| 0 <= p < members.len() implies #[trigger] links_of(
        after2[members[p] as int],
        kind,
    ) == links_of(before2[members[p] as int], kind) + members_of(rows[p], members) by {
        assert(links_of(after1[members[p] as int], kind) == links_of(before1[members[p] as int], kind)
            + members_of(rows[p], members));
    }
}

/// The positions `0..n`.
pub open spec fn positions(n: nat) -> Seq<usize> {
    Seq::new(n, |k: int| k as usize)
}

/// Link some agents (loading the social network from `network`, and creating a
/// neighbourhood network)
/// * agents: The agents to link
/// * number_of_neighbour_links: The minimum number of links each agent should have in the
///   neighbourhood network
/// * network: The social network, from an agent's position to the positions of its friends
/// * neighbourhood_ids: The ids of the neighbourhoods, by position; neighbourhoods are equal
///   when they have the same id
///
/// Each agent's social network is extended with the friends `network` lists for it. The
/// agents are then grouped by the id of their neighbourhood, and within each neighbourhood a network is
/// grown by preferential attachment; each agent's neighbours are extended with the
/// residents of its neighbourhood that it is linked to.
pub fn link_agents(
    agents: &mut Vec<Agent>,
    number_of_neighbour_links: u32,
    network: HashMap<u32, Vec<u32>>,
    neighbourhood_ids: &Vec<String>,
)
    requires
        forall|k: u32| #[trigger] network@.contains_key(k) ==> k < old(agents).len(),
        forall|k: u32, j: int|
            network@.contains_key(k) && 0 <= j < network@[k]@.len() ==> #[trigger] network@[k]@[j]
                < old(agents).len(),
        forall|a: int|
            0 <= a < old(agents).len() ==> (#[trigger] old(agents)@[a]).neighbourhood
                < neighbourhood_ids.len(),
        forall|a: int|
            0 <= a < old(agents).len() ==> neighbourhood_size(
                old(agents)@,
                ids_of(neighbourhood_ids@),
                home(ids_of(neighbourhood_ids@), #[trigger] old(agents)@[a]),
            ) <= u32::MAX && network_can_grow(
                number_of_neighbour_links as nat,
                neighbourhood_size(
                    old(agents)@,
                    ids_of(neighbourhood_ids@),
                    home(ids_of(neighbourhood_ids@), old(agents)@[a]),
                ),
            ),
    ensures
        final(agents).len() == old(agents).len(),
        forall|a: int|
            0 <= a < final(agents).len() ==> same_traits(#[trigger] final(agents)@[a], old(agents)@[a]),
        forall|a: int|
            0 <= a < final(agents).len() ==> #[trigger] final(agents)@[a].social_network@
                == old(agents)@[a].social_network@ + network_links(
                network@,
                positions(old(agents).len() as nat),
                a,
            ),
        forall|a: int|
            0 <= a < final(agents).len() ==> linked_by_grown_network(
                old(agents)@,
                final(agents)@,
                neighbourhood_members(
                    old(agents)@,
                    ids_of(neighbourhood_ids@),
                    home(ids_of(neighbourhood_ids@), #[trigger] old(agents)@[a]),
                ),
                number_of_neighbour_links as nat,
                Links::Neighbours,
            ),
{
    let ghost ids = ids_of(neighbourhood_ids@);
    let ghost start = agents@;
    let mut everyone: Vec<usize> = Vec::new();
    let mut k: usize = 0;
    while k < agents.len()
        invariant
            k <= agents.len(),
            everyone@ == positions(k as nat),
        decreases agents.len() - k,
    {
        everyone.push(k);
        proof {
            assert(everyone@ =~= positions((k + 1) as nat));
        }
        k = k + 1;
    }
    proof {
        assert forall|i: int, j: int|
            0 <= i < everyone.len() && 0 <= j < everyone.len() && i != j implies everyone@[i]
            != everyone@[j] by {}
    }
    link_agents_from_predefined_network(agents, &everyone, &network, Links::Social);
    let ghost socially_linked = agents@;
    proof {
        assert forall|a: int| 0 <= a < socially_linked.len() implies #[trigger] socially_linked[a].social_network@
            == start[a].social_network@ + network_links(network@, positions(start.len() as nat), a) by {
            assert(everyone@[a] as int == a);
            assert(links_of(socially_linked[everyone@[a] as int], Links::Social) == links_of(
                start[everyone@[a] as int],
                Links::Social,
            ) + network_links(network@, everyone@, a));
        }
    }
    let mut pairs: Vec<(usize, usize)> = Vec::new();
    let mut k: usize = 0;
    while k < agents.len()
        invariant
            k <= agents.len(),
            ids == ids_of(neighbourhood_ids@),
            forall|j: int| 0 <= j < agents.len() ==> (#[trigger] agents@[j]).neighbourhood
                < neighbourhood_ids.len(),
            pairs@ == neighbourhood_pairs(agents@, ids).take(k as int),
        decreases agents.len() - k,
    {
        pairs.push((first_sharing_id(neighbourhood_ids, agents[k].neighbourhood), k));
        proof {
            assert(pairs@ =~= neighbourhood_pairs(agents@, ids).take(k + 1));
        }
        k = k + 1;
    }
    proof {
        assert(pairs@ =~= neighbourhood_pairs(agents@, ids));
        lemma_neighbourhood_pairs_same(start, socially_linked, ids);
    }
    let ghost pair_seq = pairs@;
    let groups = group_pairs(pairs);
    proof {
        assert forall|k: usize| #[trigger] groups@.contains_key(k) <==> exists|i: int|
            0 <= i < socially_linked.len() && home(ids, socially_linked[i]) == k by {
            if groups@.contains_key(k) {
                let i = choose|i: int| 0 <= i < pair_seq.len() && pair_seq[i].0 == k;
                assert(home(ids, socially_linked[i]) == k);
            }
            if exists|i: int| 0 <= i < socially_linked.len() && home(ids, socially_linked[i]) == k {
                let i = choose|i: int|
                    0 <= i < socially_linked.len() && home(ids, socially_linked[i]) == k;
                assert(pair_seq[i].0 == k);
            }
        }
    }
    let ghost entries = groups.iter().remaining();
    let ghost mut done: int = 0;
    for (h, group) in it: groups.iter()
        invariant
            done == it.index(),
            it.seq() == entries,
            entries == groups.iter().remaining(),
            entries.no_duplicates(),
            agents.len() == socially_linked.len(),
            socially_linked.len() == start.len(),
            neighbourhood_pairs(start, ids) == neighbourhood_pairs(socially_linked, ids),
            forall|k: usize| #[trigger]
                groups@.contains_key(k) <==> exists|i: int|
                    0 <= i < socially_linked.len() && home(ids, socially_linked[i]) == k,
            forall|k: usize| #[trigger]
                groups@.contains_key(k) ==> groups@[k]@ == neighbourhood_members(socially_linked, ids, k),
            forall|a: int|
                0 <= a < start.len() ==> neighbourhood_size(start, ids, home(ids, #[trigger] start[a])) <= u32::MAX && network_can_grow(
                    number_of_neighbour_links as nat,
                    neighbourhood_size(start, ids, home(ids, start[a])),
                ),
            forall|a: int|
                0 <= a < agents.len() ==> same_but_links(
                    #[trigger] agents@[a],
                    socially_linked[a],
                    Links::Neighbours,
                ),
            forall|key: usize|
                #[trigger] seen_group(entries, done, key) ==> linked_by_grown_network(
                    socially_linked,
                    agents@,
                    neighbourhood_members(socially_linked, ids, key),
                    number_of_neighbour_links as nat,
                    Links::Neighbours,
                ),
            forall|a: int|
                0 <= a < agents.len() && !seen_group(
                    entries,
                    done,
                    home(ids, socially_linked[a]),
                ) ==> links_of(#[trigger] agents@[a], Links::Neighbours) == links_of(
                    socially_linked[a],
                    Links::Neighbours,
                ),
    {
        let ghost before = agents@;
        let ghost key = *h;
        proof {
            assert(groups@.contains_key(*entries[done].0) && groups@[*entries[done].0]
                == *entries[done].1);
            let i = choose|i: int|
                0 <= i < socially_linked.len() && home(ids, socially_linked[i]) == key;
            assert(neighbourhood_pairs(start, ids)[i] == neighbourhood_pairs(socially_linked, ids)[i]);
            assert(home(ids, start[i]) == key);
            lemma_neighbourhood_members(socially_linked, ids, key);
            assert(neighbourhood_members(start, ids, key) == neighbourhood_members(socially_linked, ids, key));
        }
        link_agents_to_neighbours(agents, group, number_of_neighbour_links);
        proof {
            let members = neighbourhood_members(socially_linked, ids, key);
            assert(!seen_group(entries, done, key)) by {
                if seen_group(entries, done, key) {
                    let j = choose|j: int| 0 <= j < done && *(#[trigger] entries[j]).0 == key;
                    assert(groups@.contains_key(*entries[j].0) && groups@[*entries[j].0]
                        == *entries[j].1);
                    assert(entries[j] == entries[done]);
                }
            }
            lemma_linked_transfer(
                before,
                agents@,
                socially_linked,
                agents@,
                members,
                number_of_neighbour_links as nat,
                Links::Neighbours,
            );
            assert forall|other: usize|
                #[trigger] seen_group(entries, done + 1, other) implies linked_by_grown_network(
                socially_linked,
                agents@,
                neighbourhood_members(socially_linked, ids, other),
                number_of_neighbour_links as nat,
                Links::Neighbours,
            ) by {
                if other != key {
                    let j = choose|j: int| 0 <= j < done + 1 && *(#[trigger] entries[j]).0 == other;
                    assert(seen_group(entries, done, other));
                    let others = neighbourhood_members(socially_linked, ids, other);
                    lemma_neighbourhood_members(socially_linked, ids, other);
                    lemma_neighbourhood_members(socially_linked, ids, key);
                    assert forall|p: int| 0 <= p < others.len() implies !members.contains(
                        #[trigger] others[p],
                    ) by {
                        if members.contains(others[p]) {
                            let q = choose|q: int| 0 <= q < members.len() && members[q] == others[p];
                            assert(home(ids, socially_linked[members[q] as int]) == key);
                        }
                    }
                    lemma_linked_transfer(
                        socially_linked,
                        before,
                        socially_linked,
                        agents@,
                        others,
                        number_of_neighbour_links as nat,
                        Links::Neighbours,
                    );
                }
            }
            assert forall|a: int|
                0 <= a < agents.len() && !seen_group(
                    entries,
                    done + 1,
                    home(ids, socially_linked[a]),
                ) implies links_of(#[trigger] agents@[a], Links::Neighbours) == links_of(
                socially_linked[a],
                Links::Neighbours,
            ) by {
                assert(!seen_group(entries, done, home(ids, socially_linked[a])));
                if members.contains(a as usize) {
                    lemma_neighbourhood_members(socially_linked, ids, key);
                    let q = choose|q: int| 0 <= q < members.len() && members[q] == a as usize;
                    assert(home(ids, socially_linked[a]) == key);
                    assert(seen_group(entries, done + 1, key));
                }
            }
            done = done + 1;
        }
    }
    proof {
        assert forall|a: int| 0 <= a < agents.len() implies linked_by_grown_network(
            start,
            agents@,
            neighbourhood_members(start, ids, home(ids, #[trigger] start[a])),
            number_of_neighbour_links as nat,
            Links::Neighbours,
        ) by {
            let key = home(ids, start[a]);
            assert(neighbourhood_pairs(start, ids)[a] == neighbourhood_pairs(socially_linked, ids)[a]);
            assert(home(ids, socially_linked[a]) == key);
            assert(groups@.contains_key(key));
            assert(entries.contains((&key, &groups@[key])));
            assert(seen_group(entries, done, key));
            assert(neighbourhood_members(start, ids, key) == neighbourhood_members(socially_linked, ids, key));
            let members = neighbourhood_members(start, ids, key);
            lemma_neighbourhood_members(start, ids, key);
            assert forall|p: int| 0 <= p < members.len() implies links_of(
                start[#[trigger] members[p] as int],
                Links::Neighbours,
            ) == links_of(socially_linked[members[p] as int], Links::Neighbours) by {
                assert(same_but_links(
                    socially_linked[members[p] as int],
                    start[members[p] as int],
                    Links::Social,
                ));
            }
            lemma_linked_transfer(
                socially_linked,
                agents@,
                start,
                agents@,
                neighbourhood_members(start, ids, key),
                number_of_neighbour_links as nat,
                Links::Neighbours,
            );
        }
    }
}

/// Linking by a grown network within a neighbourhood only links residents of that
/// neighbourhood to each other: every neighbour gained by a resident lives in a
/// neighbourhood with the same id.
pub proof fn lemma_neighbours_live_alike(
    before: Seq<Agent>,
    after: Seq<Agent>,
    ids: Seq<Seq<char>>,
    neighbourhood: usize,
    min: nat,
    p: int,
    j: int,
)
    requires
        before.len() <= usize::MAX,
        forall|a: int| 0 <= a < before.len() ==> (#[trigger] before[a]).neighbourhood < ids.len(),
        linked_by_grown_network(
            before,
            after,
            neighbourhood_members(before, ids, neighbourhood),
            min,
            Links::Neighbours,
        ),
        0 <= p < neighbourhood_members(before, ids, neighbourhood).len(),
        ({
            let m = neighbourhood_members(before, ids, neighbourhood)[p] as int;
            &&& before[m].neighbours.len() <= j < after[m].neighbours.len()
        }),
    ensures
        ({
            let m = neighbourhood_members(before, ids, neighbourhood)[p] as int;
            &&& after[m].neighbours@[j] < before.len()
            &&& home(ids, before[after[m].neighbours@[j] as int]) == neighbourhood
            &&& home(ids, before[m]) == neighbourhood
            &&& ids[before[after[m].neighbours@[j] as int].neighbourhood as int]
                == ids[before[m].neighbourhood as int]
        }),
{
    let members = neighbourhood_members(before, ids, neighbourhood);
    lemma_neighbourhood_members(before, ids, neighbourhood);
    let rows = choose|rows: Seq<Seq<u32>>|
        {
            &&& rows.len() == members.len()
            &&& is_grown_network(rows, min)
            &&& drawn_by_link_count(rows, min)
            &&& forall|q: int|
                0 <= q < members.len() ==> #[trigger] links_of(after[members[q] as int], Links::Neighbours)
                    == links_of(before[members[q] as int], Links::Neighbours) + members_of(
                    rows[q],
                    members,
                )
        };
    let m = members[p] as int;
    assert(links_of(after[members[p] as int], Links::Neighbours) == links_of(
        before[members[p] as int],
        Links::Neighbours,
    ) + members_of(rows[p], members));
    let k = j - before[m].neighbours.len();
    assert(after[m].neighbours@[j] == members_of(rows[p], members)[k]);
    assert(rows[p][k] < rows.len());
    let nb = after[m].neighbours@[j] as int;
    assert(before[nb] == before[members[rows[p][k] as int] as int]);
    lemma_id_group(ids, before[nb].neighbourhood, before[m].neighbourhood);
}

/// Whether one of the first `n` entries of `entries` has the key `k`.
pub open spec fn seen_group(entries: Seq<(&usize, &Vec<usize>)>, n: int, k: usize) -> bool {
    exists|j: int| 0 <= j < n && *(#[trigger] entries[j]).0 == k
}

} // verus!
