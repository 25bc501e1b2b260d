# mdx

A terminal Markdown viewer: Markdown is turned into Typst by `pandoc`,
typeset into PNG pages by `typst`, and shown through the Kitty graphics
protocol in an interactive pager that re-renders when the file changes.

- `src/` is the verified library (Verus): the stream splitter
  (`parser`), the lazy paging state machine, key decoding and screen
  drawing (`pager`), terminal replies, colors, sizes and the graphics
  escape sequences (`term`), PNG headers and image placement
  (`render::image`), page geometry (`render::typst_block`), and number
  formatting (`text`).
- `app/` is the program around it: argument handling, the external
  `pandoc`/`typst` processes, raw terminal mode, reading keys and
  watching the file.
- `tests/` exercises the library on concrete inputs.
