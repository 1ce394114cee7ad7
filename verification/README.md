# microknot_core

A local-first workflow engine. A workflow is a JSON document of knots
(nodes) connected by typed ports; each knot receives a list of JSON items,
processes them and passes the results downstream. Runs start from a seed item
(the body of the run request, or an empty object).

The library is written in Verus: every function carries a contract, and the
laws that hold of every workflow (the run order is topological and exists
exactly when the graph is acyclic, validation reports a cycle exactly when
there is one, a knot's input is what its upstream knots delivered) are proved.

## Layout

- `src/` — the verified library
  - `text`, `number`, `json`, `item`, `templ`: strings, JSON values and
    `{{ $json.path }}` / `{{ $env.VAR }}` templates
  - `model`, `validate`, `builder`: workflows, their checks, and a builder
  - `graph`: Kahn's algorithm on node indices, with its laws
  - `engine`: the run order
  - `run`: a run as a state machine that asks its caller to print, sleep,
    read the environment, send HTTP requests or run one of its own knots
  - `knot`, `knots/*`, `schema`: the registry, the bundled knots and their
    parameter schemas
  - `api`: the status and error rules of the REST API
- `app/` — the `microknot` command: CLI, SQLite store, HTTP server, the loop
  that performs a run's actions (reading the environment once for the
  templates, reading response bodies of at most 5 MB), and the sending part
  of the `ai.call` knot

## Your own knots

Register a kind with `KnotFactory::Custom(n)`. When a knot of that kind is
due, the run answers `Action::RunKnot` with `n`, the knot's parameters, its
context and its input; run the knot and step with `Event::Outputs`, one list
of items per output, or the knot's error. In `app/`, `run_workflow_with`
takes a table of factories and makes the `n`-th one's knot.
- `tests/` — tests of the library

## Usage

```
microknot serve                    Start the API server and dashboard
microknot serve --addr 127.0.0.1:5050 --db ./microknot.db
microknot validate <file.json>     Validate a workflow definition
microknot list                     List stored workflows
```
