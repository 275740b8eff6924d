# deploy_server

Deploys stress-net Nomad jobs and generates polkajam test networks. The logic
is a library verified with Verus; a thin program around it runs the HTTP
server and the `deploy-cli` command line.

## Layout

- `src/` — the verified library
  - `text.rs` — characters, trimming, splitting, decimal numbers, text order
  - `strmap.rs` — a text-keyed map kept in key order (the order JSON objects
    hand out their entries); its entry order is determined by its contents
  - `hcl.rs` — reading a parameterized job file (meta key lists, `meta { }`
    defaults, job name, group count), filtering dispatch meta, and rewriting a
    job file for another count and name
  - `nomad.rs` — `nomad` command lines and what a finished command reports
  - `nodes.rs` — Nomad nodes: availability, dynamic-metadata role, host IP,
    and choosing one host per IP
  - `paths.rs` — where the job files and generated chains live
  - `stress.rs` — the dispatch plan for a validator target, the meta of each
    group dispatch, and a run's plan and report
  - `chain.rs` — test-network requests: IPv4 ranges, validator key files and
    network addresses, the chainspec and its text, key seeds in base64,
    output file names
  - `polkajam.rs` — `polkajam` command lines and reading `gen-keys` output
  - `archive.rs` — the zip archive of a generated chain
  - `requests.rs` — `KEY=VALUE` meta arguments and request defaults
- `app/` — the program: file and process I/O, the Nomad HTTP API, JSON,
  the axum server and the clap command line
- `tests/` — tests of the library
