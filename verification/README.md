# scooter_routing

A router for 50cc scooters and licence-free cars ("voiturettes") over
OpenStreetMap data. It keeps these vehicles off motorways and off
expressways, including trunk roads that are expressways in all but their
tags: closed to pedestrians and cyclists, on a bridge or a raised layer, or
signposted at 80 km/h or more.

The library in `src/` is verified with Verus. All coordinates are
fixed-point integers in units of 1e-7 degree, lengths are in steps of 5 m
and travel times in microseconds (held in `u128`, so that no route's time
can overflow), so every decision can be stated and proved
exactly.

| Module | Contents |
|--------|----------|
| `graph` | highway classes, nodes, compact edges, the adjacency-list graph |
| `profile` | vehicle profiles: blocked roads and the speed used on each class |
| `queue` | a binary min-heap, the search's priority queue |
| `routing` | A* search and the summary of the route found |
| `spatial` | nearest-node lookup over an `rstar` r-tree |
| `pbf` | tag tables, classification of drivable ways, the graph builder |
| `api` | request logic: profile choice, snapping, routing, URL encoding |
| `laws` | properties that span several functions |
| `text` | string equality |

What the search guarantees: a route it returns is a walk from the departure
to the arrival over edges the profile may ride, with its length and duration
computed from those edges; it returns nothing exactly when no such walk exists;
and when the time estimate it is given never overestimates, the route is a
fastest one.

`app/` holds the program around the library: the command line, reading
`.osm.pbf` extracts, the great-circle geometry (floating point), the graph
file format and the HTTP service.

```bash
scooter-routing import region.osm.pbf --output region.graph
scooter-routing serve --graph region.graph --bind 0.0.0.0:3000
```
