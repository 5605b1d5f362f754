# sts2_manager

The verified core of a mod manager for Slay the Spire 2 that also prepares and applies
translations of mods. The library decides; a thin command-line front end (`app/`) reads
and writes files and hands the library plain values.

Layout of `src/`:

- `text`, `paths`, `order`: characters, paths and their order, as the rest speaks of them.
- `settings`, `roots`, `setup`: the settings file, the managed folders, setup checks.
- `deleted`, `names`: the deleted-mods index and tombstones, and free names for backups.
- `model`, `manifest`, `json`, `retarget`: scanned mods, their manifests, JSON values.
- `rows`, `toggles`, `dashboard`, `diagnostics`, `logs`: the mods table and the dashboard.
- `sheet`, `apply`, `node`, `package`, `patching`, `patches`, `replace`: translation sheets,
  applying them, PCK patches and translation-patch mods.
- `detect`, `preview_cache`, `tree`, `resources`, `extract`, `walk`, `cache`: language
  previews, their cache, extraction trees, resource paths and folder walks.

Each public function states its result in `ensures`; the laws that span functions
(round trips of the files the manager writes, what removing or adding keeps) are public
proof functions beside them.
