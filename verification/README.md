# autonomo_arabic_reshaper

Arabic text shaping and visual right-to-left reordering for game engines that
only render left to right (Unity, RimWorld and the like), proved against its
contracts in Verus. Two small wrappers around std are trusted rather than
proved: `text::string_push` (`String::push`: the string gets the character
appended) and `char_class::char_is_alphanumeric` (`char::is_alphanumeric`,
whose Unicode tables are only named, not stated).

- `shaping` — contextual forms (isolated, initial, medial, final) in Arabic
  Presentation Forms-B and the four mandatory Lam-Alef ligatures; diacritics
  pass through and letters join across them.
- `tokens` — splits a line into protected tags (`{…}`, `<…>`, `[…]`, XML
  entities, backslash escapes), left-to-right runs, quoted ASCII spans,
  right-to-left runs, neutral runs and line breaks.
- `reordering` — visual order: token order reversed per line, Arabic runs
  reversed, a space at direction changes; and `reshape_arabic`, the whole
  pipeline, line by line.
- `normalize` — collapses white space, tidies slashes and `&quot;`, moves a
  trailing step marker `1)` … `9)` to the front.
- `laws` — properties of the whole, each under the conditions its
  statement gives: Arabic words come out shaped and reversed, and lines of
  Arabic each reversed on their own, in their order; lines come out one for
  one, a blank line as an empty one; a plain ASCII line that starts with a
  letter or digit and holds no bracket stays as it is; real newlines are always kept, escaped
  `\n` are kept when every backslash starts one; without backslashes,
  reordering only moves characters and adds spaces; tokens (tags, entities,
  left-to-right runs) survive reordering whole, and a curly tag `{name}`
  (a name of ASCII letters, digits and `_`)
  survives reshaping wherever it stands; words are never glued across
  directions when no tag holds Arabic letters; shaping works in place apart
  from Lam-Alef ligatures, each letter takes the form its neighbours call
  for, and a trailing Lam-Alef takes its final or
  isolated form by the letter before it; post-processed text is tidy, and
  without `/`, `&quot;` or a step marker it is the words joined by single
  spaces; and reshaping always ends on text without `&` and backslashes.

Reordering does not end on a line where a token would start at an `&` that
opens no entity or at a backslash that opens no escape; `manual_rtl_for_unity`
and `reshape_arabic` require that this does not happen, and
`try_manual_rtl_for_unity` and `try_reshape_arabic` answer `None` there.
