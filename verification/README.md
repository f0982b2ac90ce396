# tier

Layered configuration loading, verified with Verus.

`src/` is the verified library. Configuration values are a JSON model
(`json`), paths are dot-delimited (`path`, `syntax`), and layers come from
files (`parse`, `files`), command-line overrides (`args`), environment
values (`env`, `overrides`, routed by `sources`) and typed patches (`patch`). Layers are checked
for sparse array writes (`sparse`) and merged in a fixed order over the
defaults (`assemble`, `merge`), following per-field metadata (`field`,
`config`, `metadata`) and the cross-field checks it carries (`metachecks`),
all of which `vetting` checks before use. Migrations (`migrate`), declarative rules and checks
(`rules`, `checks`, `validate`) and path suggestions (`suggest`) work on the
merged value.

`app/` holds what needs the operating system or floating point: reading
files and the process environment, the platform's path lists, and the
numeric and address probes that some validation rules ask for.

Loading (`load`) checks the metadata and the registrations, merges the
file and custom layers (`valuelayer`), the environment layer (`envlayer`,
fed by the routing in `sources`) and the command-line layer over the
defaults, and migrates the result; `readiness` tells whether a layer fits
this machine's limits. `envdocs` derives environment variable
documentation from a JSON schema.

`tests/` exercises the library on concrete values.
