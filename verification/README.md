# poodle

A Discord bot that watches Moodle course pages for new material, runs timers
and splits groups into random teams. The decisions it takes are a verified
library (`src/`); the program around it (`app/`) talks to Discord and Moodle.

- `src/text.rs` – splitting, searching, decimal numbers, with their laws
  (split/join, decimal read-back).
- `src/moodle.rs` – course snapshots, reading course pages and login pages,
  summarising changes, updating snapshots, and the session check that decides
  when to probe, when to log in and when to give up.
- `src/bot.rs` – the commands the bot understands, the watch lists of the
  channels, and the bot's replies.
- `src/groups.rs` – team size, random draws and dealing members into teams.
- `app/main.rs` – configuration, the Discord event handler, HTTP requests to
  Moodle, timers.
