# wiki_builder

The verified core of a static-site builder for a game wiki.

- `src/text.rs`: character-sequence helpers (splitting, joining, title case, replacement).
- `src/markup.rs`: the item/NPC reference markup (`<item name="key">text</item>`,
  `<item:key>`, and the autolinks markdown makes of them), the links they become,
  and `linkify_references`.
- `src/lookup.rs`: the tables that resolve references to pages and icons.
- `src/data.rs`: item, NPC and page records, drop enrichment, page slugs and titles,
  markdown rendering.
- `src/order.rs`: stable ordering of records by name.
- `app/lib.rs`: file loading, the process-wide lookup table and the template filters.
