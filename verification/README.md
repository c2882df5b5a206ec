# config_kit

Layered typed configuration: a base file, then environment variables, then
in-process overrides, deep-merged key by key in the order the layers were
added. Later layers win on colliding keys; tables merge, so a late layer can
override one nested field without clobbering its siblings. Every value a
layer puts in place is attributed to that layer (and whatever was attributed
below a value goes when the value is replaced), so a value that does not fit
the target type is reported against the file, `<env:VARIABLE>` or
`<overrides>` that supplied it.

`src/` is the library, with its contracts and proofs: the value model and
its deep merge, provenance and error attribution, environment-variable
collection and type inference, format selection by extension and the
parsers behind it, strict unknown-key reporting, the redacting
`Sensitive<T>`, and the debounce decisions of hot reload. Public proof
functions state its laws: precedence and sibling preservation
(`value::merge_lookup`, `value::layered_precedence`), idempotence of the
merge (`value::merge_is_idempotent`), that merging keeps keys unique
(`value::merge_keeps_keys_unique`), what adding a layer does
(`builder::adding_a_layer_merges_its_value`), attribution at any depth
(`builder::load_blames_the_last_supplier`,
`builder::failure_names_supplying_layer`,
`builder::failure_elsewhere_keeps_its_attribution`,
`builder::attribution_follows_last_supplier`,
`builder::env_failure_names_the_variable`), and that printed integers and
booleans read back (`env::printed_integer_reads_back`,
`env::printed_boolean_reads_back`). The attribution laws hold for layers
whose tables hold no key twice: the TOML, JSON and YAML parsers state it
of every document they read, `ConfigBuilder::merged` states it of every
file layer it merged, and `ConfigLayer::overrides` normalizes its table to
that shape.

`app/` is the process-facing side: reading files and the environment layer
by layer, serde deserialization into the caller's types (`Load::load`,
`Load::load_strict`), the `std::error::Error` form of `ConfigError`,
`Sensitive<T>` with `Debug`, `Display`, `Serialize` and `Deserialize`, and
the `notify`-backed `watch`.
