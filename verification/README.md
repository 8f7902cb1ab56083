# edge_orbit

Codes graphs onto a message, as sets of edges: the order of the edges costs nothing, because the
choice of the next edge to take away comes off the message.

Each step takes an edge away from what is left of the graph:

1. The edges that are left are put in orbits, by the colors and degrees of their nodes.
2. An orbit comes off the message, each as likely as it has edges.
3. The first edge of the orbit is taken away.
4. That edge goes onto the message, coded by a model that knows the graph without it.

What is left in the end are the numbers of nodes and edges, which go onto the message last.

| Module | What it holds |
| --- | --- |
| `message`, `codec` | the message, and the basic codecs |
| `graph`, `color_refinement`, `relabeling` | graphs, node colors, and what renaming nodes does to them |
| `counting`, `prefix_orbit` | orbits of list elements, and the codec for them |
| `edge_prefix`, `edge_signature` | edge lists whose edges are taken away, and the orbits of their edges |
| `candidates`, `removal_model` | models for the edge that was taken away |
| `slice_codecs`, `autoregressive`, `edge_orbit` | the codecs for edge lists and graphs |

`app/` holds the code lengths, which are floating point.
