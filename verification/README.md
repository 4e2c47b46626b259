# japannik

Finds the unknown Japanese words that occur most often in a text and writes
them, with readings and translations from JMdict, to a `|`-delimited file for
import into Anki.

- `src/` — the library, verified with Verus: Anki field cleaning and export
  parsing (`known_words`), the JMdict entry reader (`dictionary`), the
  frequency table (`frequency`), the database schema (`db`), lemma counting
  and ranking (`ranking`), word sets (`word_set`), translations and the
  vocabulary rows (`words`), settings (`config`), menu choices (`cli`), and
  the character-level text functions they share (`text`).
- `app/` — the program around it: files, the database (rusqlite), the XML
  reader (quick-xml), the tokenizer (sudachi), the menus (dialoguer) and the
  settings file (serde, toml).
- `tests/` — tests of the library.
