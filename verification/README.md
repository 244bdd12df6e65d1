# dioxus_sugar

Property macros for custom Dioxus elements, split into a verified library and
a thin token layer.

- `src/` (verified with Verus) holds what the macros decide:
  - `class`: the `classes` macro's `Display` plan (selected fields, format
    string, refusals for unsupported arguments, repeated and missing fields);
  - `extend`: the `attributes` and `events` macros (argument parsing and
    checking, expansion of tags, categories and `global`, de-duplication,
    exclusion netting, lifetime planning, the fields to add), `checks`,
    the argument checks that add no field, and `listings`, why the outcome
    of `attributes` does not depend on the order of its arguments (that of
    `events` does: events are told apart by name alone, and the last listing
    of a name wins);
  - `apply`: the properties an attribute list applies to an element;
  - `specs`: the table of HTML attributes, tags and events the names are
    checked against; `common`: the attributes a tag takes;
  - `meta`: the macros' arguments; `text`, `named`, `sort`: names, lookups
    and ordering.
- `app/` parses the token streams with `syn`, hands the library plain models,
  and writes the planned items back with `quote`.
