# fireweed

A priority-queue engine's projections, as a library whose functions are stated by contract and
proved with Verus.

A queue is a log of commands. Its state, the *projection*, is what the commands make of an empty
queue: items with their lifecycle, leases, gates, indexes, counts and the order in which they are
handed out. The library holds

- the projection in memory (`model`, `apply`, `projection`, `room`), what it can be asked (`reads`,
  `pending`, `queries`, `scan`, `groups`, `scopes`, `claims`, `sweep`), how requests are planned
  against it (`planning`, `mutation`, `bounded`, `indexing`, `lookup`), and how it is exported, recovered and
  reaped (`image`, `rebuild`, `stores`, `terminal`, `log`);
- the same commands as told to a store of tables (`relational`, `sql`). A contract there names the
  conversation that is held with the store: each statement with its parameters, and what is made of
  each reply;
- the rules on the evidence of a release (`attestation`, `digest`, `evidence_io`, `path`,
  `source_boundary`, `transaction`).

`consistency`, `counts`, `places`, `uniqueness`, `history` and `checked` state what holds of every state and
every command, `lifetime` what holds of a queue after any number of them, and further laws stand beside the
functions that they are about: public proof functions whose names begin with `law_`.

What is not proved stands in few places: `shared` (buffers and hash tables), `digest` (SHA-256),
`relational::codec` and `lookup` (JSON text), `encoding` and `text` (UTF-8 and debug text). Each item there says
what is taken on trust of the function that it calls.

A store is a driver's own (`relational::exec`). That each statement on a session's record was put to the
store, and answered so, is an invariant of the session; what the store makes of a statement is not stated.

Typed index keys, and the text of JSON columns, are worked out by the host: where a plan needs the
keys of a document that it has not been given, it hands the document back and is asked again.

`tests/` runs the library, and `app/` holds the command line around the evidence rules.
