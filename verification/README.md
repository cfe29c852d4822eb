# ecs_world

An archetype-based store of entities and their components, written in Verus.

Entities that have the same set of component types share an *archetype*: a table with one column
for each type and one row for each entity. `World` keeps the archetypes, an index from type sets to
archetypes, and an allocator of entity handles.

What a world holds is a map from entities to their components by type (the view of `World`).
Contracts are stated over that map, over the state of the allocator (`IdState`) and over the type
sets of the archetypes (`World::layout`).

- `src/entities.rs`: handles, and the allocator that hands them out
- `src/types.rs`, `src/bundle.rs`, `src/column_batch.rs`: component types and groups of components
- `src/archetype.rs`: tables of entities with the same component types
- `src/links.rs`: how ids and rows point at each other
- `src/type_index.rs`: the hash tables, which come from `hashbrown`
- `src/world.rs` and `src/world/`: the world and its operations
- `src/query.rs`, `src/world/search.rs`: queries
- `src/model.rs`: a world as a value, and what each operation makes of it
- `src/laws.rs`: what holds across operations
- `app/`: a front in which component types are Rust types
