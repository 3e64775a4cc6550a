# teacher

A handwriting teacher for Chinese characters, run as a WeChat mini program:
the learner picks a poem or lesson text (or types one in) and writes it
character by character; each stroke is compared with a template stroke, bad
strokes are pointed at, and finished texts are kept as practice records.

The library in `src/` is verified with Verus:

- `controller` — the practice session: which character is written, the
  strokes written so far, the stroke demonstration, scoring verdicts, and
  the effects the page has to carry out after each event.
- `catalog` — the poems and lesson texts, their title indexes and search.
- `strokes` — the stroke templates and the text they ship in.
- `dictionary` — the character dictionary, the pinyin and grouped archives,
  and the characters that lack an entry.
- `archive` — the parser of the source texts and the archives built from
  them.
- `storage` — what is kept between sessions, and the date of a record.
- `codec` — the base64, bzip2, bincode and chrono calls, with the contracts
  the rest of the library relies on.
- `table`, `text` — text-keyed maps and text helpers.

`app/` holds the page itself (stdweb bindings, drawing, the $P+ stroke
recognizer, which computes in floating point) and the `gendict` tool that
builds the data files. The program embeds the `POEMS` and `ARTICLS`
archives from the crate root, as `gendict` writes them.
