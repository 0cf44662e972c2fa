# manifestdiff

Compares two Kubernetes Deployment manifests and reports the changes that carry operational
risk: a removed env var, a swapped image tag, replicas scaled down, a dropped volume mount, a
lost or altered probe. Labels, annotations, the order of containers, variables and mounts, and
every field that is not modelled are not compared.

Containers, variables and mounts are compared by name. Containers that share a name are paired
with their equals first and then in their order; a volume mounted at several paths is compared
path by path; of a variable that is given twice the last one counts.

- `src/` is the library, verified with Verus.
  - `yaml` — YAML values and their equality
  - `manifest` — the slice of the Deployment schema that is looked at
  - `names` — looking items up by name and walking them in the order of their names
  - `pairing` — pairing the items of two lists by their places
  - `image` — image references
  - `findings` — findings, severities, exit codes
  - `diff` — the checks; its spec functions say what the findings are
  - `report` — the text and the JSON report, and a run as a whole
  - `laws` — what holds of the findings as a whole: when each severity occurs, when there is
    nothing to report
  - `order` — that the order of containers, variables and mounts makes no difference, nor
    which of equal manifests is compared
  - `swap` — what comparing two containers the other way round does
- `tests/` runs the library.
- `app/` is the command line program: it reads the files, parses the YAML, prints and exits.

The exit code is `0` if nothing risky or breaking was found, `1` if the worst finding is risky
and `2` if anything is breaking, or a file could not be read or does not parse.

The library calls one function of another crate, `serde_json::to_string_pretty`, which writes
out the JSON report; that it does is taken on trust.
