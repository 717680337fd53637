# uu_langpack

A loader for simple language files, verified with Verus. Each line of a file
has the form `key=lang="value"`; blank lines and lines starting with `#` are
ignored, and lines that do not follow the format are skipped silently.
Lookups fall back on a default language.

Layout of `src/`:

- `text.rs`: whitespace, trimming and the split of a text into lines;
- `line.rs`: the format of one line and its parser;
- `order.rs`: the order of texts used to sort languages;
- `assoc.rs`: vectors of key/value pairs read as maps;
- `model.rs`: what a file means, the lookup with fallback, and the laws of loading;
- `pack.rs`: `LangPack` and its operations.

`app/` turns the per-language translations into a `HashMap`.
