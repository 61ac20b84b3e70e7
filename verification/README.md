# termide_logic

The decision-making core of several termide panels, written in Verus and
proved against its contracts:

- `stash`: parsing `git stash list` output and building the git invocations
  that push, pop, apply and drop stashes;
- `protocol`: JSON-RPC message types and LSP `Content-Length` framing;
- `hover_popup`: turning LSP hover contents into word-wrapped lines, scrolling,
  and laying the popup out at a click (position, cells written);
- `color_popup`: finding the hex color under a column and laying out its
  preview popup;
- `click_tracker`: double-click detection;
- `selection_style`: item, cursor and button styles;
- `filter`, `format`: filter operator menus, value coercion, and row export as
  JSON, SQL `INSERT` and TSV;
- `text`, `geometry`, `unicode`: shared character-level helpers, rectangles,
  and the display-width and grapheme functions of `unicode-width` and
  `unicode-segmentation`.

`app/` holds what stays outside the verified library: running git, serde forms
of the JSON-RPC types, conversion from `lsp-types` and drawing into a
`ratatui` buffer, and floating-point parsing.
