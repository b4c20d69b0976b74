# rsahp

A group decision-support system built on the Analytic Hierarchy Process: a
server that keeps accounts, groups, documents (criteria hierarchies with
pairwise comparisons) and folders, and a desktop client whose windows edit
those documents.

`src/` is the library, verified with Verus: every public function states what
it returns or changes, and the properties that relate several functions are
proved as lemmas.

- `accounts` — registration (bcrypt hashing), login, signed session tokens
  and their claims, bearer headers, the
  administration views of users, the schema start-up decision and the
  development seed.
- `docs` — which documents a user may see, the parent-first order in which an
  imported or saved hierarchy is written (with the law that it is stored as
  given, renamed to the new ids), the nodes and comparisons of a duplicate,
  folder moves, and copy names.
- `matrices` — the shape rules for the AHP calculation requests.
- `config`, `datadir` — the settings of the two programs, the per-user local
  data directory of the desktop application with its files, and the database
  URL built from the database file's path.
- `criteria`, `explorer`, `groups` — the criteria hierarchy, the project
  explorer's folder tree and the group hierarchy, with their edits.
- `document`, `comparisons`, `save_load` — a document window: its state and
  dialogs, the comparisons to answer, and what saving and loading exchange
  (with the law that a saved document loads back as it was).
- `session`, `dashboard`, `workspace` — the login dialog, the task list and
  the desktop that holds the windows.
- `release` — reading and bumping the version of the manifests.
- `text` — the string functions the others are stated with.

`app/` is the server program around the library: the HTTP endpoints, the
database tables and migration, the clock for the session tokens, and the AHP arithmetic,
which is on floating-point numbers.

`tests/` runs the library on concrete values.
