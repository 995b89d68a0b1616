# rktop

A system monitor for Rockchip boards in the terminal: processors, memory, the
graphics unit, the neural unit and the scaler, network rates, temperatures and
processes.

`src/` is the library, verified with Verus. It takes the contents of the files
under `/proc` and `/sys` and the readings of the system as plain values, and
gives back readings, the state that is kept from one screen to the next, and the
panels that are shown. Nothing in it reads or writes.

| Module | What it holds |
| --- | --- |
| `text`, `number` | cuts, searches and numbers in texts |
| `rounding`, `bounds` | binary numbers of limited precision, and how large they get |
| `units`, `usage` | amounts, percentages, bars and histories as they are shown |
| `order`, `name_table` | stable order of items, values by name |
| `file_cache` | which files stay open, and numbers in files |
| `hardware`, `versions`, `thermal` | readings of the board |
| `sysinfo_ext`, `process` | memory, counters, users and processes |
| `cpu_rates`, `io_rates`, `history`, `controls`, `state` | what is kept between two screens |
| `screen`, `panels`, `info_panels`, `process_table`, `layout` | what stands on the screen, and where |
| `outside` | what is taken from regex, goblin, ratatui and std without proof |

Usages are the bit patterns of single precision numbers; times, rates and load
averages are those of double precision numbers. The library computes with them in
whole numbers and rounds as floating point does.

The library is made for 64-bit machines, as these boards are.

`app/` is the program around the library: it reads files and the system, runs
the loop and draws with ratatui. `tests/` holds the tests of the library.
