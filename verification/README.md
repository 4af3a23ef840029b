# gdse

gdse recolors Grim Dawn's localization text: it infers each tag's kind and
rarity from the game database, bakes `{^X}` color codes into the names of items
and affixes that can roll a name-altering prefix/suffix, colors damage-type
stat labels by element, and writes the rewritten tag files to the game's
`settings/` folder.

## Layout

- `src/`: the library, written in Verus; every function carries a contract
  that Verus proves.
  - `text`, `strmap`: character-sequence helpers and a sorted string-keyed map.
  - `keywords`, `infer`, `color`, `property`: the keyword vocabularies, the
    inference over database records, and the color rules.
  - `colorize`: the placement cascade for color codes and the rewriting of
    whole tag files.
  - `history`: the run history file (`gdse-db-hash.txt`) line format and
    reading back the latest logged database hash.
  - `conflicts`, `loot_refs`, `mi_signal`, `validate`, `tags`: the analyses.
  - `db`: database records as plain values.
- `app/`: the command-line program: opening the `.arz` databases and `.arc`
  text bundles, converting their records, writing files, printing reports.
- `tests/`: tests of the library on concrete inputs.
