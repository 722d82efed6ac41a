# ansi_paint

A terminal editor for pictures made of coloured characters (the text that image-to-ANSI
converters produce). The picture is read from a text with true-colour control sequences,
edited with a pen, a paint brush or typed text, and saved back as such a text.

- `src/` is the library, verified with Verus: reading and writing picture texts
  (`parser`), the character sheet (`char_view`), the colour palette (`colours_view`), the
  picture view and its tools (`image_view`), the editor's key handling and screen
  (`editor`), and the proof that a saved picture reads back (`save_load`) when its cells
  hold neither an escape character nor a newline and each row starts in colours that
  reading gets right (reading starts every row white on black, while writing carries the
  colours written last, black on black before the first row). Colours come back by their
  components; a `default` mark is not saved. The control
  sequences themselves are written by termion (`terminal`).
- `app/main.rs` reads `mem1.txt` and `character_sheet.txt`, runs the key loop in raw
  mode, writes what the library draws, and saves on Ctrl+s.
- `tests/` runs the library on examples.

Keys: Tab switches between picture and palette, Ctrl+e between picture and character sheet,
Ctrl+s saves, Ctrl+c or Ctrl+q quits. On the picture, `p`, `o` and `t` choose pen, paint and
text, enter lowers or lifts the pen, `g` takes the colours under the cursor and `h` also its
character. On the palette, enter and backspace pick foreground and background, `r` and `R`
mark them default, `#` and `~` start typing a hexadecimal colour.
