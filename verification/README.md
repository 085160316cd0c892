# travel_mode_sim

An agent-based model of commuters choosing how to travel (car, public transport,
cycling, walking) under the influence of their social network, neighbours,
subculture, habits and the weather.

- `src/` is the verified library: the discrete state of agents, the preferential
  attachment networks that link them (each random draw is handed, as weights, the link
  counts of the time, which the verified `degree_weights` computes and the drawing step
  requires; the public contract of `generate_social_network` states that every node
  drawn had links when it was drawn; which node a draw picks is left to chance), how
  they are linked socially and within neighbourhoods (neighbourhoods and subcultures
  that share an id count as one), congestion of each mode in a neighbourhood,
  interventions on capacities and vehicle ownership, the statistics and the CSV output
  of each day, what each day of the run does, reading a network from YAML text,
  seasons, weekdays and the weather chain.
- `app/` is the program around it: reading the YAML configuration, the
  floating-point weighing of budgets, costs and habits, random draws of weather and
  agents, and writing the output files.
- `tests/` exercises the library on concrete values.
