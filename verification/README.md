# devport

A terminal tool that lists the processes listening on common development
ports (frontend and backend dev servers, databases, the Node debugger),
describes what each one is, groups them by project or parent process, and lets
the user stop one.

The logic is a Verus library under `src/`, with its contracts proved:

- `text` — characters of text, substring search, splitting into pieces, lines
  and words, reading and writing decimal numbers, lexicographic order.
- `project` — the project name that a command line names.
- `describe` — the description and emoji of a service, and the label of a
  watched port.
- `process` — the process records, reading an `lsof` listing, the process
  table lookup, the stable sort by port, and the scan of the watched ports.
- `order` — strict orders and sorted sequences of distinct elements.
- `groups` — grouping the processes by project, then by shared parent, then
  the rest.
- `app` — the state of the port list: rows, selection and its movement,
  refreshes, keys, messages.
- `screen` — the texts and colours that the screen shows.
- `laws` — properties that relate several operations.

`app/main.rs` is the program around it: command-line arguments, running
`lsof`, reading the process table, sending signals, and drawing the screen.
