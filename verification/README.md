# blocker_engine

Context-aware domain blocking: a radix tree over reversed domain labels,
Adblock Plus filter lists, cosmetic (element hiding and scriptlet) rules, and
a binary cache of the tree. The library under `src/` is verified with Verus;
`app/` holds the program around it (the C interface, files, downloads).

Layout of `src/`:

- `text.rs` — character-sequence helpers (splitting, searching, trimming) and
  the few trusted calls into `std` (lower-casing, `is_alphanumeric`,
  `String::push`).
- `domain.rs` — label reversal (`ads.example.com` ↔ `com.example.ads`) and its
  laws.
- `rule.rs`, `resource_type.rs` — rules, origin constraints, resource masks.
- `tree.rs` — the radix tree (`DomainTree`), its view as a multiset of
  (reversed domain, rule) entries, queries, and the blocking laws.
- `cache.rs` — the `DOMTREE3` cache format: encoder, decoder, round trip.
- `ip.rs`, `abp.rs` — IP literals and network filter lines.
- `js.rs`, `cosmetic.rs` — scriptlets, the injected script, and the
  cosmetic rule engine.
- `filter_list.rs` — the registry of installed lists and the live tree.
