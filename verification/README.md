# Oracle

A query language whose results are attack paths across identity and network graphs. You ask how a
principal can reach a capability, and Oracle returns the concrete chains of permissions and trust
that get them there. The engine is written in Verus: what each function returns is stated in its
contract and proved.

## Layout

- `src/` is the verified library.
  - `model`, `graph`, `store`: the graph document, the loaded graph and the `petgraph` store under it
  - `search`, `reach`, `glob`: bounded attack-path search, reachability, wildcards
  - `lexer`, `query`: OQL
  - `technique`, `render`, `report`: exploit techniques on a path, paths as text
  - `run`, `server`, `mcp`: answers to queries as JSON, over HTTP and over the Model Context Protocol
  - `import_aws`: an AWS account as a graph document
  - `json`, `text`, `message`: JSON values, strings, error messages
  - the modules that end in `_laws` hold what is proved of these functions together
- `app/` is the `oracle` command: arguments, files, the HTTP server, standard input and output, and the
  JSON forms of documents.
- `tests/` runs the library.

What is not proved are the contracts of the functions that call `petgraph`, `serde_json` and a few
functions of the standard library. They are marked `external_body` or `assume_specification`, in
`store`, `json`, `text`, `lexer` and `message`.

## OQL

- `PATHS FROM <node> TO <node>`: the attack paths between two nodes.
- `PATHS FROM <node> TO action("<pattern>")`: the paths that end on an edge which grants a matching
  action (`*` and `?` are wildcards).
- `ESCALATE FROM <node>`: the identities (user, group, role) that a node can reach.
- `BLAST <node>`: everything that a node can reach.

Clauses on `PATHS`, in this order:

- `VIA <kind>[, <kind>...]` keeps to those edge kinds.
- `WITHIN n HOPS` caps the length of paths.
- `ON resource("<arn>")` scopes an action to a resource.

A node is `kind("id")`, such as `user("alice")`. A search goes 8 hops deep and returns 1000 paths
unless the query says otherwise, and it says whether something was cut off.

## Import

`oracle import-aws --input authdetails.json --output graph.json` reads what
`aws iam get-account-authorization-details` prints. `Deny` statements and statements with `NotAction`
or `NotResource` are not evaluated, so the paths in such a graph are potential ones.
