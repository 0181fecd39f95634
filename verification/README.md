# arnis structures

Verified generation of elevated structures for a Minecraft world built from
OpenStreetMap data: bridges, railways and roller coasters.

`src/` is the library, checked by Verus:

- `text`: reading tag values (`i32` numbers, the numeric part of a height).
- `tags`: an element's tags, viewed as a map from key to value.
- `elevation`: how high a structure stands, from `layer`, `level` and `bridge*` tags.
- `bresenham`: block lines between two positions.
- `rails`: corner blocks in diagonal steps, and the shape of each rail.
- `blocks`, `way`: blocks and where they go; nodes and ways.
- `bridges`, `railways`: the blocks of each structure, in the order they are set.

The library plans; it does not touch a world. Given the ground level under each
block of a structure's path, it returns the list of blocks to set. `app/` reads
the ground from the world editor, does the floating-point parts (parsing a height
such as `5.2m`, scaling widths), and sets the planned blocks.
