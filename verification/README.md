# mutuals_graph

A verified library for small directed graphs and the program around it that
builds a graph of mutual followers from the replies of a helper script and
reports the shortest route between two users.

## Layout

- `src/` — the library, verified with Verus:
  - `graph.rs`: the adjacency-list `Graph`, breadth-first search stopping at
    a target, and path reconstruction from parent links;
  - `explore.rs`: breadth-first search over everything the start reaches;
  - `search.rs`: the search itself, its first-in-first-out characterisation,
    shortest-path trees and the proofs about them;
  - `walks.rs`: walks through an adjacency list, their ends and weights;
  - `dijkstra.rs`, `priority.rs`: shortest distances with non-negative
    weights and the queue order they use;
  - `json.rs`: the node/edge model of a graph and the conversions to and
    from it;
  - `undirected.rs`: graphs whose edges stand beside their reverses, and
    how they come back from an undirected export and import;
  - `index.rs`: the map from user names to node ids;
  - `social.rs`: canonical user names, linking mutual followers, and route
    finding;
  - `prompt.rs`, `text.rs`: reading answers and names typed by a user.
- `tests/` — tests of the library on concrete values.
- `app/` — the program: the helper-script conversation, terminal prompts,
  and JSON files through serde.
