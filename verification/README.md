# nvmux

Detachable Neovim sessions: create named sessions, attach to them, detach, and come back
later. nvmux does not render Neovim's interface. Neovim ships a client that does, so nvmux
runs it on a pseudoterminal, watches for its prefix key, and passes everything else through.

`src/` is the logic, in Verus. Its functions have contracts and are proved to keep them, but
for the small ones that call other code, which are marked as trusted (see below). `app/` is
the program around it: arguments, files, processes and the terminal. It performs what the
library decides and hands back what came of it.

## The library

| Module | What it decides |
|---|---|
| `keys`, `keyseq` | which of the bytes typed are commands and which go to the session |
| `boundary` | where a stream of terminal output may be written between |
| `ledger` | what a client told its terminal, and what to tell it again |
| `announce`, `hint`, `draw` | the notice and the reminder row over a session's screen |
| `fade`, `palette` | the dissolve between screens, and the colours it runs between |
| `session`, `session_loop`, `pool` | which session is in front, and which client shows it |
| `mux` | many channels over one connection, each with its window |
| `proc` | scripts run one after another through one shell |
| `launch`, `config`, `cli` | the command line of a session, the settings, the arguments |
| `paths`, `ids`, `ipc`, `dirs`, `nested`, `nvim` | names, addresses and checks |
| `error` | what the user is told |
| `text`, `bytes`, `clock` | what the others share |

What holds of several functions at once is stated as public proof functions whose names
begin with `law_`.

Time is a number of nanoseconds that the caller hands in, and a client, a file or a terminal
is known by what was read of it. Where the library calls another crate (`vte`,
`unicode-width`, `getrandom`) or a part of std that has no specification, it does so in a
small function marked as trusted, with what is taken on trust written above it.

## While attached

`<prefix>` is `Ctrl-Space` unless the config says otherwise.

| Keys | Action |
|---|---|
| `<prefix>` `d` | detach: leaves the session running, exits nvmux |
| `<prefix>` `Space` | back to the picker, session still attached |
| `<prefix>` `1`, `2`, … `12` | switch straight to that session |
| `<prefix>` `n` | next session by number (wraps) |
| `<prefix>` `p` | previous session by number (wraps) |
| `<prefix>` `c` | set up a new session and attach to it |
| `<prefix>` `?` | show these keys |
| `<prefix>` `<prefix>` | send a literal `<prefix>` to Neovim |

`:q` ends the session: the editor is the session.

## Configuration

An optional TOML file overrides the defaults: `$NVMUX_CONFIG` if set, else
`$XDG_CONFIG_HOME/nvmux/config.toml`, else `~/.config/nvmux/config.toml`. An unknown key or a
bad value is a startup error.

```toml
[keys]
prefix     = "Ctrl-Space"
timeout_ms = 1000

[session]
command = "nvim --headless --listen {sock}"

[client]
per_session = false

[fade]
enabled     = true
duration_ms = 200
session     = true
excursions  = true

[ssh]
transport = "control-master"   # on Windows: "relay"
```

The program manages sessions on this machine. Sessions on another host need the scripts that
run there, which are not part of it yet.
