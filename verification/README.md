# lkml-reader

A terminal reader for the mailing lists of lore.kernel.org. It mirrors the git
archives that lore serves and shows their mails page by page: patch series are
pulled together into blocks, and subject, author and date constraints narrow
what is shown.

## Layout

- `src/` is the library, written in Verus: the logic, with contracts that are
  proved. What is believed without proof stands in `src/outside.rs`.
- `app/` is the program around it: the terminal, git, the network and the scan
  thread.
- `tests/` are the library's tests.

## The library

| Module | What it holds |
|---|---|
| `text` | searching, trimming, splitting, decimal numbers |
| `outside` | what is taken from std, `chrono` and `flate2`, and what is believed of it |
| `clock` | points in time, half-open ranges, how dates are shown |
| `parse` | header fields, quoted-printable bodies, written date ranges |
| `archive` | paths and addresses, the catalog of epochs, git's arguments and answers, encoded words |
| `mail`, `message` | mails as the archive and the lists hold them |
| `filter`, `constraints` | what a mail has to satisfy |
| `series` | grouping of patch series, and where a page ends |
| `source`, `stream`, `scan`, `mail_source` | pages of the stream and of a filtered scan, and the negotiation of missing epochs |
| `stream_laws` | what the pages of the stream are together |
| `pages` | which page is showing, the way back, the selection |
| `ui` | what is painted where |
| `app` | what every key does |
| `patch`, `reply`, `tui` | applying a series, replying, the terminal's answers |

Work that leaves the library (git, the network, the user) is done in steps: the
library asks a question, the program answers it, and the library goes on from
there. The contracts say what a walk comes to whatever the archive is like, as
long as it answers as it is.

Public proof functions whose names start with `law_` state what holds of several
functions together.
