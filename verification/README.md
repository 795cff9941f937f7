# storytree

A 3D visualiser of a directory tree. The directories of a walk become the
nodes of a spiralling tree that the user can fly through, pick and label.

- `src/` is the verified library (Verus):
  - `paths`: parent paths and node labels, cut at the last `/`;
  - `database`: the branch table (`Branch`, `Tree`), how a directory walk is
    recorded in it, the subtree counts (`dive_to_count`) and the ordering of
    children by subtree size (`dive_to_sort`);
  - `forest`, `building`: the specifications and lemmas behind them;
  - `sorting`: the stable sort by count that orders the children;
  - `spiral`: how many spiral steps each child gets and which step places it;
  - `generator`, `treebuilder`, `listing`: the integer parts of the meshes
    (triangle indices, the counters of the ground-marker walk, the layout of
    the on-screen file listing) and the angle step of a path character.
- `app/` is the bevy program: directory walks, the floating-point geometry,
  rendering and input.
- `tests/` runs the library on concrete trees.
