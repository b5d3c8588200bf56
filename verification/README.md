# stroki

Keeps stable keys for the paragraphs of a text across its revisions. Given the
keyed paragraphs of the previous revision (`key -> text`), the keys used
before, and the new text, it gives each new paragraph a key: a paragraph takes
over the key of a similar old paragraph, new paragraphs get keys between their
neighbours' keys (`x:1`, `x:10`, `x:2`, ...), and keys out of order are
replaced. The keys no paragraph took are reported together with the used ones.

Layout:

- `src/` — the library, verified with Verus:
  - `text.rs`: characters of strings, the order on texts, splitting a text
    into paragraphs;
  - `keys.rs`: reading a key's number, moving it by an offset, writing it back
    with zero padding;
  - `unique.rs`: choosing a key for a place between two keys;
  - `sort.rs`: the pass that replaces keys out of order;
  - `entries.rs`, `counts.rs`: the ordered set of old entries and the counts of
    texts;
  - `fill.rs`: matching paragraphs with old entries, then keying the rest;
  - `pipeline.rs`: the whole update;
  - `stability.rs`: what the update keeps: the same old entries in any order
    give the same result, and an unchanged text gives its keys back.
- `app/` — the command line program: arguments, files, JSON, and the
  similarity test (Jaro similarity above 0.8), which is floating point.
- `tests/` — tests of the library.
