# spacegame

The deterministic core of a space game that runs on a mesh of nodes, with its behaviour stated in
contracts and proved by Verus.

The galaxy is a plane that is divided into cells. Every cell is simulated by one node; where it gets
crowded it splits in four, and where it empties the four merge again. No node is in charge: each one
computes the same decisions from the same inputs. What has to agree everywhere is therefore written as
functions on plain values, and proved.

## The library (`src/`)

| Modules | What they hold |
| --- | --- |
| `galaxy`, `partition`, `galaxywire`, `commit`, `galaxymap` | the tree of cells, how entities are shared out on a split, the commits that reshape it, and its map |
| `autoscale`, `fleet`, `orchestrator`, `gateway`, `cosmos`, `cloud_hetzner`, `node`, `cell` | when cells split, merge and move, on which nodes they run, and what a node does about it |
| `shard`, `director`, `hosting` | which node a sector falls to, what is announced and adopted, the loop of a hosted sector |
| `sim`, `tech`, `room`, `replica`, `replication`, `auth`, `wire` | the roster of a sector, what a ship can buy and mount, messages in and snapshots out, replicas that agree, and who vouches for a player |
| `leaderboard`, `json` | the standings, their canonical bytes and their seal |
| `aabb`, `domain`, `coords`, `mapview`, `physics` | boxes and the trees over them, who sees whom, places in an unbounded galaxy |
| `ai`, `effects`, `hazard`, `noise`, `frontier` | what ships decide, what afflicts them, what lies in a sector, who found it first |
| `blueprint`, `editor`, `procgen`, `client` | ships that are designed, edited and grown, and what clients are asked for |
| `order`, `sort`, `text`, `hash` | sorted maps and sets, a stable sort, decimal and hexadecimal text, FNV hashes |

Quantities that vary continuously are whole numbers of a small unit, which the documentation of each
type names: thousandths, microradians, eighths of a unit. The same inputs then give the same state on
every machine.

Functions named `law_...` are theorems about several functions at once, such as that a merge undoes a
split, that the order of arrival of inputs does not matter, or that a query of a tree finds exactly what
a scan would.

## The program (`app/`)

Everything that talks to the mesh, reads the clock or the disk, or computes in floating point: the
command line, the loop that carries out what the library decides, the JSON messages, and the rigid
bodies of the physics.

## Tests (`tests/`)

Scenarios on concrete values, for every module.
