# class_dump

Reads the Objective-C metadata of a thin Mach-O image and prints it as
Objective-C declarations: the structure typedefs, a comment block describing
the file, then every protocol, class and category with its instance
variables, methods and properties.

The library under `src/` is verified with Verus: each function states what it
returns over a mathematical model (byte sequences, spec functions of the
Mach-O data), and the laws of the library (the orders and sorts it uses, the
dictionary it keeps, merging and naming of record types, how properties fold
into their accessors) are proved as public proof functions.

## Layout

- `cursor`, `uleb`, `consts`: reading integers, strings and LEB128 values.
- `macho`, `loadcmd`, `bind`, `chained`: the Mach-O header and load commands,
  `LC_DYLD_INFO` binds and `LC_DYLD_CHAINED_FIXUPS`.
- `objc`: classes, categories and protocols from the `__objc_*` sections.
- `typ`, `parse`, `render`: `@encode` types, their parser, and their C
  declarations.
- `dict`, `table`, `order`, `typecontroller`, `checksum`: the phases that merge
  record types and name them (`CDStruct_`/`CDUnion_` plus a SHA-1 suffix).
- `property`, `visit`, `header`, `output`: the text that is printed.
- `text`: byte-string helpers.

`app/main.rs` reads the file named on the command line, warns about each
segment whose chained-pointer format the fixups pass skipped
(`MachOFile::unsupported_chain_formats`), and prints the dump.
