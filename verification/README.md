# execution_graph

Scheduling graphs with machine-checked contracts.

- `graph`: a graph of nodes that hold one another back. `Graph::new` builds it from a world of
  identifiers and a list of links, leaving out links from a node to itself and links that would
  close a cycle; `find_leaves` lists the nodes that can run now and `complete` releases the nodes
  that wait for one. The build is proved to give a well-formed graph (counts equal to the links
  held against each node, no cycle, one node per identifier), and a graph with work left always
  has a leaf.
- `execution_graph`: a dependency graph built from per-node orderings (what a node runs before and
  after, and its priority). Cycles are broken by cutting, on each cycle found, the link at its
  highest priority; the result is proved acyclic, and every cut link lies on a closed walk on
  which it leaves the identifier of highest priority. A run that finishes leaves one after another
  finishes every node exactly once.
- `ordering`, `node`, `link`: the orderings, paths and links the graphs are built from.

`src/` is the verified library; `app/` holds handles that threads can share (behind
`parking_lot` locks) and the conversion of floating-point priorities to the integer keys the
library orders by.
