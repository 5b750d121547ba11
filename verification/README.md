# data_collect

Tools for ship monitoring data: a data-channel-list (DP) XML document is read
into rows (local id, origin tag, description, device id, unit, type), a day's
zipped CSV files are keyed by the time stamps in their names, and the settings
of a run (hull number, date, data directories) are derived from the command
line and the environment.

Layout:

- `src/` is the library, with its contracts and proofs:
  - `xml.rs`: an element tree of plain values read with minidom, and the
    lookups made on it (`get_child`, `children`, `text`, `is`);
  - `dp.rs`: the extraction of rows from a DP document (`parse_dp`) and the
    table from local id to origin tag;
  - `table.rs`: a table from text keys to values, a later insert replacing an
    earlier one;
  - `text.rs`: splitting, line breaking, replacing, file stems and extensions,
    path joining;
  - `dates.rs`: dates and date-times read with chrono, and their text forms;
  - `config.rs`: the settings of a run;
  - `files.rs`: directory listings, the CSV export's name, and the zip archives
    of CSV files, whose entries become data frames keyed by their time stamps.
- `app/` holds the programs (`dp_to_csv`, `concat_data`, `data_concat`): argument
  parsing, reading files, processes, logging and CSV output.
- `tests/` exercises the library on concrete documents and names.
