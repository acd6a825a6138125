# net_topology

The decision logic of five small peer-to-peer demonstrations — a two-peer
chat, a full mesh, a star, a ring and a bus — written in Verus and proved
against its contracts. Sockets, threads and the terminal stay in `app/`,
which runs the programs (`app <chat|mesh|star|ring|bus> ...`) and hands the
library plain strings.

`src/`:

- `text`, `split`, `order`, `number`: character-level building blocks
  (trimming, splitting, the order of `str`, decimal numbers) with their
  specifications.
- `roster`: reading a `Name:ip:port,...` roster; what a mesh node dials and
  who a ring node's neighbours are; the mesh link count.
- `status`, `links`, `peers`: the link-state table every screen shows and
  the set of open links a hub, segment or mesh node writes to.
- `message`, `ring`: the line formats (chat, bus topology, ring frames) and
  what a node does with a received line; delivery laws.
- `screen`: the exact text of every topology screen.
- `command`: the programs' command lines.
