# ccfolia_tweaks

A tool for ccfolia (an online tabletop role-playing room): it reads chat logs,
collects them into a list of characters and messages, shows them a page at a
time, writes them out again, and replays them into a ccfolia room through a
browser driven by WebDriver.

The library under `src/` is verified with Verus:

- `text`: Unicode white space and trimming, UTF-8 facts, slicing strings by byte range.
- `markers`, `bytes`: the fixed texts of the log formats and byte searches.
- `log_parser`: the readers of exported HTML logs and of text copied from the
  chat pane, each specified by a grammar on the log's UTF-8 bytes.
- `log_analyser`: the character list and the log, with the laws of adding messages.
- `paging`: which records each page shows.
- `ccfolia`: the browser steps that post one message.
- `round_trip`: an export, read back as an HTML log, gives the records again
  with names and texts trimmed, when no name holds `:` and no text holds `[main]`.

`app/` holds the desktop window (gpui), the file dialogs and the WebDriver
session; it calls the library for every decision.
