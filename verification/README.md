# cargo-hole

Find `todo!()` placeholders that carry a written specification, and fill them in
with a model.

```rust
pub fn resize(img: &Image) -> Image {
    todo!("spec: scale to fit within 1024px on the longest side, keep the aspect
           ratio, never upscale; 1920x1080 -> 1024x576")
}
```

A hole is `todo!("spec: ...")` or `unimplemented!("spec: ...")`. `todo!()`'s type
coerces to anything, so the type a hole should have is found by replacing it with
`()` and reading the error that rustc answers with. What the model replies is
spliced over the hole, the generated tree is put through `cargo check`, and only
what compiles is written and recorded.

The library under `src/` is written in Verus: what its functions return is stated
in their contracts and proved. It does no I/O. Whatever alternates decisions with
reading, writing, compiling or asking is a state machine there: it says what to
do next, and the program under `app/` does it.

## What is proved

- `splice`, `patching`: replacements land exactly on their spans, in whatever
  order they are given, and nothing else in the file changes.
- `finder`, `scan`, `hole`, `listing`: which macro calls are holes, where they
  are, and what identifies them.
- `prober`, `blame`: which of rustc's errors belong to which hole, that an error
  is kept from a hole only for one at least as close, and that one and the same
  set of diagnostics, where it settles a hole of a batch, settles it as it would
  had that hole been probed alone.
- `probe`, `gate`, `locking`: whatever happens on the way, a patched file is put
  back.
- `walk`, `tree`, `leftovers`: a walk finds exactly the files it looks for, each
  once; every backup that a hard kill left behind is put back, and after that
  there is none, unless one was a backup of a backup
  (`a.rs.cargo-hole.bak.cargo-hole.bak`).
- `fill`, `fill_run`, `fill_steps`: nothing is written before it has compiled,
  what is written is what was compiled, nothing else is recorded, and a pinned
  hole is left alone throughout.
- `storage`, `record`, `json`: a recorded answer is read back as it was written,
  the newest one wins, a line that was cut short loses nothing else, and
  generated code stays below `.cargo-hole/patch/`.
- `filler`, `agent`: prompts, replies, the number of attempts, and the layers of
  settings.
- `render`, `wrap`, `unstyled`: the listing, that wrapped lines fit, are filled
  greedily and lose no text, and that colour adds nothing but emphasis.
- `cmdline`, `cargo_check`, `diagnostics`, `path`, `order`, `groups`, `util`,
  `bytes`, `text`: the parts the others are made of.

The calls into `blake3`, `serde`, `serde_json` and `syn`, and into the few
functions of the standard library that have no contract of their own, are
declared next to the code that makes them, with what is relied on.
