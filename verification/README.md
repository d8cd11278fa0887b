# mdbook-obgraph

An mdbook preprocessor for `obgraph` blocks: observational graphs of objects,
their properties, the anchors between them and the constraints that carry
trust from one property to another.

The library under `src/` is written in Verus. Every function in it is
verified against its contract but one: `text::push_char`, which appends a
character through std's `String::push` and whose contract is trusted.

- `ast`: the syntax tree of one block, with structural equality of
  derivation expressions.
- `model::graph`: construction of a graph from a syntax tree (`build`), with
  sharing of equal derivations, and the proof that what it builds is well
  formed; `model::sharing` states the sharing as a law.
- `model::validate`: the validation rules, including the cycle check over
  anchors, derivation inputs and constraints.
- `model::types`: the graph and its adjacency indices; `model::adjacency`
  states what those indices hold, element by element.
- `markdown`: finding the ```` ```obgraph ```` fences of a chapter and putting
  the rendered blocks in their place.
- `book`: the book JSON that mdbook hands a preprocessor, the chapter walk,
  and the laws of reading and writing chapter texts.
- `install`: registering the preprocessor in `book.toml`.
- `render`: the inline CSS and JavaScript of a rendered graph.

`app/` is the command itself: argument handling, stdin and stdout, the JSON
conversion with `serde_json`, and file access for `install`. The stages that
turn a block's source into a figure (parsing, layout and SVG output) are not
part of this crate, so the command reports every obgraph block as not
rendered, with its source kept in place.
