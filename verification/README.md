# wizard

A fuzzy-aware `which`: it finds an executable on `PATH`, or suggests the
closest executable names when the command was misspelled.

The library under `src/` is verified with Verus:

- `cli` — the command-line grammar, stated as a fold over the arguments,
  with laws on operands, `--` and `--tty-only`;
- `search` — which `PATH` entries and file names are candidates (with the
  `PATHEXT` rules of Windows), one candidate per name (the earliest), and
  the ranking of scored suggestions;
- `similarity` — the grapheme-level counts behind the Jaro-Winkler score,
  and the prepared (lower-case, segmented) query;
- `output` — the suggestion report, with ANSI colouring and padding by
  visible width;
- `text` — character-level helpers (trimming, searching, case folding).

Scores are floating-point numbers; the library handles them by their bit
patterns, and the program (`app/`) forms them from the library's counts,
computes the weighted Levenshtein distance, reads numeric options, and
does all file-system and terminal work.
