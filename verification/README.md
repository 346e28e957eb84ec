# maisimai

A Simai (maimai) chart library whose text handling is verified with Verus.

- `src/` is the verified library: cleaning and splitting chart bodies
  (`chart_text`), the byte-level lexer for bracketed blocks, modifiers,
  slide arcs and duration blocks (`lexer`), the fragment parser that turns
  one `,`-separated fragment into its events (`fragment`), the `&KEY=VALUE`
  block structure of `maidata.txt` files (`maidata`), the text renderer and
  chart writer (`render`), the mapping of an error's position in a
  fragment back to a character of the chart body (`locate`), and integer
  helpers (`arith`, `text`). The
  modules `fragment_round_trip` and `maidata_round_trip` prove that what the
  renderer writes reads back.
- `app/` holds the chart model with its `f32` timing, and the public parse
  and export entry points, which evaluate the numbers that the library
  locates in the text.
- `tests/` runs the library on concrete charts.
