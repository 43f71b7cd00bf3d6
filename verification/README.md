# phrasewatch

A speech watcher's core, verified with Verus: it normalises transcripts and
phrases, finds the watched phrase a transcript contains, debounces repeated
hits, and computes hit statistics over local-time buckets (15 minutes, hours,
days, Monday-based weeks and calendar months).

- `src/` is the verified library: `matcher` (normal form, phrase matching,
  debouncing), `stats` (statistics of the hit log), `calendar` (civil dates
  and local-time arithmetic), `engine` (which transcribed speech is a hit,
  the notification text), `models` (settings, file locations, fetching the
  speech models), `log` (framing of the hit log), `updates` (the update
  check's message) and `text` (string helpers).
- `tests/` runs the library on concrete inputs.
- `app/` is the program around it: audio capture, speech recognition,
  files and network.
