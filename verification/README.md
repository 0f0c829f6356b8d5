# gta_mo

A mod organizer for GTA San Andreas (run through Proton over an overlay of mod
folders), written in Verus: the library states in `requires`/`ensures` what each
function does and Verus proves it.

## Layout

- `src/` — the verified library:
  - `meta`, `paths`, `text`, `order` — manifests (`mod.toml`), path joining, text
    and sorting primitives with their specifications;
  - `resolver`, `enabling`, `constraints`, `registry` — dependency graph, load
    order, variant families, declared conflicts, lookups of mods, profiles and
    groups;
  - `conflicts`, `userdata`, `modloader` — file conflicts between overlay layers,
    the profile's user data, `modloader.ini` priorities;
  - `launcher`, `config`, `games` — launch plan, derived directories,
    environment, dry-run report;
  - `cli`, `info`, `health`, `profiles`, `transfer`, `discovery` — what the
    command line computes (listings, info rows, health report, profile diff,
    export/import plan, directory scan);
  - `view`, `settings`, `theme`, `fonts`, `color`, `log` — the GUI's model
    (filters, sorting, reordering, gallery), settings, colors and log lines;
  - `panels`, `runner` — what the desktop panels show and which commands their
    buttons run, and the queue that runs those commands one at a time.
- `tests/` — tests run against the compiled library.
- `app/` — the `gta-mo` command line: configuration and manifest files, walking
  mod folders, printing.
