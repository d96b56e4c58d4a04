# gutenberg

The structure of a static site and the plan of its build, verified with Verus.

- `src/` is the library. `site` holds pages and sections and finds out how they belong together,
  `taxonomy` files pages under tags and categories, `render` says which templates are rendered and
  from what, `stages` and `plan` say what is done to the file system, in which order, and where a
  build stops if something cannot be rendered. `content_laws` and `output_laws` state what holds of
  every site.
- `app/` reads content files, runs `tera` templates and performs the plans on disk.
- `tests/` runs the library on concrete sites.

The outside code that proofs rely on is named where it is called: contexts and values of `tera` in
`src/template.rs`, slugs in `src/taxonomy.rs`, `String::push` in `src/text.rs`.
