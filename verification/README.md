# vcv48

Discrete core of the VCV48 (vacuum crystallography) kernels, verified with
Verus, and the Python bindings around it.

`src/` is the verified library:

- `smooth`, `band`, `audit`, `axion` — numbers `2^a · 3^b · rest`, the
  48-adic valuation, the scans of 3-smooth states in a band and the audit of
  the catalog of denominators.
- `octahedral`, `lattice` — the group O_h as signed permutation matrices,
  its verification, and the 48 operations the braid engine applies to the
  lattice points of a word.
- `braid`, `species`, `perturb` — braid words, their reduction by the
  Reidemeister moves and the braid relation, stable words, particle names,
  fragmentation and random words.
- `fraction`, `stream` — rational crossing numbers, continued-fraction
  convergents and the streaming search engine with its top lists.
- `spectrum`, `catalog`, `rng`, `text`, `random` — tables of the spectrum,
  sky patches and shuffles, the deterministic generators, decimal rendering
  and the calls into `rand`.

`tests/` exercises the library on concrete values. `app/` holds the Python
modules (pyo3): the floating-point physics and the glue that hands plain
values to the library.
