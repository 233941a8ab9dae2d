# solc_artifacts

Types that the Solidity compiler takes and gives, with the rules that go with them: how sources are
parted by language, which outputs are selected, which EVM version a compiler takes, how contracts
are found in an output and how outputs are cut down and merged.

- `src/` is the library. Every function states what it does, and Verus proves it of all but those
  that hand a call on to another crate. `ord_map` holds the map that keeps its entries in the order
  of their keys, and `path` the paths of source files; the other modules follow the compiler's
  JSON.
- `tests/` runs the library on concrete values.
- `app/` reads source files and turns the artifacts into JSON and back.

What other crates do is trusted: comparing versions (`semver`), digests (`md-5`), hexadecimal text
(`hex`), colours on a terminal (`colored`), reading contract interfaces from JSON (`serde_json` and
`ethabi`), and lower case (the standard library). The contracts of the functions that call
them say what is believed.
