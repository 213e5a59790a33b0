# pathdoc

A read-only auditor for the Windows `PATH`, with its logic verified in Verus.

It reports which directories are on `PATH` in the order Windows actually resolves them,
which entries are dead or duplicated, which executables are shadowing which, and which
names a shell answers to before `PATH` is ever searched. It never writes.

## Layout

```
src/      the verified library: works on plain data, never reads, writes or prints
tests/    its tests
app/      the `pathdoc` command: arguments, registry, filesystem, shells, output
```

| Module | What it decides |
| --- | --- |
| `winenv`, `registry` | what a registry read amounts to, and which stored value is a `PATH` |
| `compose` | splitting, expanding, ordering, duplicates, live positions |
| `probe` | what the filesystem's answer means for an entry |
| `pathext` | which files are programs |
| `resolution` | which copy of a name wins |
| `executables` | which directories are read, and what reading them turns up |
| `constructs`, `masking` | which shells to ask, and what their answers mask |
| `audit` | every step in order, from the stored value to the report |
| `report`, `envelope`, `json` | the report and its JSON form |
| `options`, `style`, `table` | narrowing, exit codes and the table |
| `text` | text primitives |

The registry, the environment, the filesystem and the shells are reached through functions
that the front end hands in. Where a contract depends on what such a function answered, it
holds for every answer; for surroundings that stand still, `audit` has the law that the
outcome is worked out from them alone.

Exit codes are `0` clean, `1` findings reported, `2` fatal.
