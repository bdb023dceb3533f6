# codewhale_tui

The discovery logic of the CodeWhale terminal workspace, verified with Verus.

CodeWhale reads three kinds of markdown files from `~/.codewhale/`:

- **agents** (`agents/*.md`): role agents, and specialist agents whose file
  names start with `specialist-`; an agent's description is the first heading
  of its file;
- **contexts** (`contexts/*.md`): optional text for the system prompt;
- **rules** (`rules/<namespace>/*.md` and `rules/*.md`): rules grouped by
  language; the rules of the `common` and `root` namespaces and of the
  project's languages are injected into the system prompt, up to 8000 bytes.

Layout:

- `src/` — the verified library: file-name handling (`files`), first-heading
  extraction (`markdown`), the byte order of strings (`text`), stable sorting
  by key (`sorting`), the three registries (`agents`, `contexts`, `rules`) and
  the welcome screen's text (`welcome`).
- `app/` — the unverified shell: listing directories and reading files,
  locating the home directory, and drawing the welcome screen with ratatui.
  Which listed files become agents, contexts or rules, and under which
  names and namespaces, is decided by the library's `from_listing`
  constructors.
- `tests/` — tests of the library on concrete inputs.
