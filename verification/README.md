# Flash Launch

The parts of a launcher that can be stated and proved: how names are matched and scored,
how results are ranked, stored and shown, how search folders share what is in them, how
searches are run and refined, and how the settings are read and written.

- `src/` is the library. Every function has a contract that Verus proves, but for a few
  calls of the standard library in `text`, `bytes` and `wide`, which say what they take on
  trust. Paths are texts with the rules of Windows; what the world outside decides (which
  paths are directories, the time, the environment, the sizes of things, the phrases of a
  language) comes in as arguments.
- `tests/` holds tests of the library.
- `app/` is a console program around the library: files, threads, the desktop, and the
  scores of launched items, which are floating-point numbers.

The modules, from the bottom up:

| Modules | Content |
| --- | --- |
| `text`, `arith`, `bytes`, `wide`, `keyset`, `document`, `wording` | texts, numbers, bytes, UTF-16, sets of texts, documents of lines, phrases of a language |
| `winpath`, `aliases`, `root_ownership`, `search_roots`, `index_roots` | paths, path aliases, search folders and what belongs to which |
| `fuzzy`, `wildcard`, `scoring`, `breakdown`, `explanation` | scores and how they come about |
| `scoring_rules`, `scoring_text`, `query`, `query_rules`, `recents`, `recent_paths` | settings, queries and what was launched before |
| `types`, `items`, `results`, `ordering`, `collect` | items, results and their order |
| `store_codec`, `result_store`, `store_builder`, `store_reader`, `store_history` | results on disk, and that what was handed in is what is read |
| `scan`, `scan_tasks`, `search_progress`, `streaming`, `scan_runs`, `refinement`, `search_worker`, `debug_search` | searches at work, alone and with many workers |
| `keys`, `presentation`, `settings_model`, `title` | what is pressed and shown |
| `shell`, `shell_context_menu`, `shell_helper`, `startup_options` | the shell and the start of the program |
