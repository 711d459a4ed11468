# mold-macho

A Mach-O linker whose logic is verified with Verus. It takes the command line
of Apple's ld64, links arm64 and x86-64 objects, static archives, dylibs and
text-based stub files, and writes executables, dylibs, bundles and relocatable
objects.

## Layout

`src/` is the library. Verus proves its functions against their contracts,
but for the few wrappers named below, which it trusts.

| Modules | What they do |
| --- | --- |
| `cmdline`, `options`, `args` | the command line and response files |
| `json`, `tapi` | text-based stub files |
| `archive_file`, `filetype`, `mapped_file` | containers of inputs |
| `input_files`, `input_sections`, `inputs` | object files and dylibs, from bytes to sections, symbols, relocations and unwind records |
| `symbol`, `name_map`, `name_set` | the symbol table |
| `arch` | what differs between arm64 and x86-64 |
| `passes` | the passes: resolution, literals, weak definitions, dead stripping, folding, slots, sections, layout, tables, output |
| `thunks` | range-extension thunks |
| `output_chunks`, `chunks` | the encoded tables: export trie, rebase and bind streams, chained fixups, unwind info, references between sections, symbol and string table, load commands |
| `relocatable` | merging of objects with -r |
| `mapfile` | reports |
| `checks` | run-time tests of what the passes require |
| `util` | bytes, text, numbers, sorting, graphs, globs, hashes |

The passes run in this order: `passes::read_inputs` and
`passes::resolve_inputs`, `passes::pipeline`, `passes::planning`, then
`passes::finish`, which lays the image out and writes it. `passes::identity`
then stamps the UUID.

Laws that relate several functions are public proof functions named `lemma_*`.
Among them: names in the export trie are found and no others are; chunks lie
in their segments, apart from each other, and growing tables move none of
them; the best-ranked definition wins; only functions that are the same code,
compared part by part, share one copy; live sections keep what they refer to;
an unwind record keeps its frame when frames of folded functions go; what
tables of rebases, binds and references between sections list can be read
back; the UUID is the only part of an image that stamping it changes.

Three crates are called from the library, each behind a small trusted
wrapper: `hashbrown` for the map from names to ids, `xxhash-rust` for the
hash of a name, and `memchr`. So is one function of std,
`String::from_utf8_lossy`, for names that are not text.

`app/` is the executable: files, processes and messages. It leaves the output
unsigned; `codesign` signs it. `tests/` runs the library, up to whole links.
