# isotopes

The chart of the nuclides in a terminal: neutrons across, protons up, one
cell per nuclide, coloured by decay mode, half-life, binding energy, natural
abundance or year of discovery.

- `src/` is the verified library. `decay` reads the evaluators' decay codes
  into families; `record` reads a line of the table into its fields;
  `nuclide` and `table` hold the nuclides and the (Z, N) index, the decay
  chains and `search` the lookup by what a person types; `app` is the cursor,
  what each key does to it, and the window that follows it; `views` builds
  the chart's rows, rulers, the braille overview and the words of the
  decay-chain popup; `export` gives the order and the text of the CSV rows,
  and `ask` the context put to an assistant and how its reply is read.
  Real-valued fields are carried as the bit patterns of the doubles they
  were read into, and ordered by IEEE-754's total order.
- `app/` is the terminal program around it: the key loop, drawing, the
  floating-point work (reading the real fields, half-lives in human units,
  colour gradients), the image overview, file and process I/O.
- `tests/` exercises the library on a few dozen rows of the table: the
  uranium and thorium series, potassium-40, the iron peak, technetium.

The program reads the table from `$ISOTOPES_DATA` (default
`data/isotopes.csv`), and asks the command named by `$ISOTOPES_ASSISTANT`.
