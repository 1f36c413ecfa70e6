# log_cleaner

Cleans Minecraft role-play chat logs. Lines that carry a `[CHAT]` or `[PM]`
marker are cut down to the message after the marker; empty messages, messages
holding an excluded phrase and, on request, out-of-character messages wrapped
in `((` `))` are dropped; the rest is saved, optionally with an empty line after
each message.

- `src/text.rs`: character-sequence operations (trimming, searching, removal,
  splitting, joining) with their specifications.
- `src/cleaner.rs`: the cleaning of a log, the preview, file names, the base
  list of phrases, and the laws these keep.
- `src/archive.rs`: reading gzip-compressed logs.
- `src/config.rs`: the settings and the text form of the excluded phrases.
- `app/`: the command-line program: files, settings on disk, the base-list
  download.
