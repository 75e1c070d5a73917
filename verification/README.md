# megastore_search

Product catalogue search with hash-table indexes, written in Verus. Every
function of the library carries a contract that Verus proves, except three
small trusted wrappers around std whose contracts Verus takes on trust:
`char_is_alphanumeric` (`char::is_alphanumeric`), `str_to_lowercase`
(`str::to_lowercase`) and `string_push` (`String::push`), all in
`src/text.rs`. The library also relies on vstd's own trusted `StringHashMap`
and its specifications of `HashMap` and `HashSet`.

- `src/text.rs` — trimming, lower-casing and splitting names into words.
- `src/product.rs` — `Product` and its price shown in reais.
- `src/key_index.rs` — an inverted index from text keys to sets of ids.
- `src/catalog.rs` — `Catalog`: products by id, indexes by brand, category and
  name words kept exactly in step with the products; lookups, name search and
  combined search.
- `src/laws.rs` — properties of the catalogue across operations.
- `src/demo.rs` — the demonstration catalogue.
- `app/main.rs` — the demonstration program with timings (not verified).
- `tests/` — scenario tests.
