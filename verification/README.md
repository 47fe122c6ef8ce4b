# voxoil

A sparse 64-tree for voxel data, written in Verus. Every branch of the tree holds a
64-bit address and a 64-bit mask of the children it has; the children of a branch live
together in one fixed-size block of a slab allocator, chosen by the number of children.

Layout:

- `src/pool.rs`: slabs of fixed-size blocks with a free list, and pools of seven slabs
  (blocks of 1 to 64 slots). Their operations are stated over an abstract state (blocks
  and free list), with laws for reading back a pushed block and for reusing freed indices.
- `src/util.rs`: coordinates, packing a local coordinate into a child slot, localizing a
  coordinate to one depth of the tree, and pushing values to the fitting slab of a pool.
- `src/tree/branch.rs`: addresses, child masks and branches, with the bit-level laws of
  setting, unsetting, counting and dense indexing.
- `src/tree/traversal.rs`: child slots, traversal steps and the stack of steps (an
  `arrayvec::ArrayVec` behind trusted wrappers).
- `src/tree/mod.rs`: the tree, its traversal (stated by the spec function `walk`) and its
  rendering as text.
- `src/tree/builder.rs`: building trees, including trees filled from one 64-bit mask of
  random choices per leaf-level branch; built trees are proved well formed, so that
  traversing them never meets a missing block.
- `src/text.rs`: decimal and hexadecimal rendering used by the debug renderings.
- `app/`: the edges: `glam` vectors, drawing the random choices with `rand_chacha`, and
  `bytemuck` copies of the branch types.
