# pkgcraft (verified core)

The logic of a Gentoo package toolkit, written in Verus with its behaviour
stated as `requires`/`ensures` contracts and proved.

What it covers:

- the atom grammar (`names`, `version`, `cpv`, `dep`) and the orderings of
  versions, dependencies and versioned packages (`order`);
- dependency specifications (`depset`): LICENSE, PROPERTIES, REQUIRED_USE,
  RESTRICT, SRC_URI and package dependencies, with their parsing, display,
  iteration, sorting, set operations and in-place replacement;
- the `ver_cut`/`ver_rs` range logic (`ver_cut`), shell builtins and commands
  (`builtins`, `commands`, `cli`, `shell`, `phases`);
- ebuild repository logic (`repo`, `restrict`, `ordered_set`, `ordered_map`,
  `reorder`, `eclass_usage`, `sorted_set`): resolving a repo's masters
  (given the ids of the configured repos), categories, packages, versions,
  whole-repo walks over given directory listings, path restrictions,
  inherited metadata and eclasses, results put back in order, eclass usage,
  and sets compared by their sorted names;
- the decisions of the `pk` tool (`pk`, `manifest`, `cache`, `files`,
  `timing`, `sets`), as functions from the outcomes of the outside work
  (listings, fetches, sourcing) to what happens next.

The library does not load repositories, source ebuilds or fetch files.

Where the logic needs an outside crate (`indexmap`, `camino`, `nix`,
`humantime`), the call stands behind a small trusted wrapper whose doc comment
says what its contract claims.

Layout:

- `src/`: the verified library;
- `tests/`: tests of the library, run against the real outside crates;
- `app/`: a `pk` command line for the dependency and versioned-package
  commands (`dep compare`, `dep parse`, `dep set`, `cpv compare`) and for
  removing a repo's metadata cache (`repo metadata remove`): argument
  parsing, reading standard input, printing and file removal, around calls
  into the library. The commands that source ebuilds or fetch files are not
  part of it.
