# ai_listen

The logic of AI Listen RS, a meeting and listening notes app, as a Verus
library: the public functions under `src/` carry contracts, and Verus
proves every function there against the contracts of what it calls.

- `text`: scanning chars (trimming, lines, words, splitting, sorting, UTF-8
  byte positions) shared by the other modules.
- `slug`: session titles to folder names.
- `sessions`: session folders, the notes texts the store writes, the offline
  summary, and what a folder holds.
- `index`: tokens, term counts, scores, snippets and the ranked search.
- `tasks`: the background task board and the reports of transcription and
  screenshot jobs.
- `users`: registration, sign-in, password hashes and verification codes.
- `oauth`: social sign-in links, the callback's code, profiles and accounts.
- `tokens`: the token usage log and its report.
- `export`: the printable HTML page and the mind map of the notes.
- `ai`: data URLs, prompts, response texts, transcripts and previews.
- `audio`, `capture`, `command`: the devices and the external commands for
  recording and screenshots.
- `notify`: SMTP settings, mail texts and the text-message service.
- `cli`: the command line's commands and help.

`app/` is the program around the library: the command line, file and network
I/O, processes and threads. `tests/` runs the library on concrete values.
