# ensourcel

The front end of the Ensource language: its types, rituals (records) and
files, and the reading of a file's declarations from its parse tree, verified
with Verus.

- `src/ast.rs`: the language's data, the primitive types and their sizes, the
  size of a ritual.
- `src/types.rs`: reading a type from its parse-tree node.
- `src/declarations.rs`: reading attachments, ritual declarations and literal
  expressions; `pre_parse` reads a whole file's declarations.
- `src/todo.rs`: the tables of ritual fields whose type names a ritual that is
  not sized yet.
- `src/resolve.rs`: `do_todo` and `resolve_todos`, which size those fields once
  every file is read, and the laws that resolution settles what it resolves.
- `src/rerun.rs`: resolving the same pending ritual twice in a row changes
  nothing the second time.
- `src/files.rs`: the loaded files (unique by name and type), and the paths of
  attached files.
- `src/load.rs`: the walk over attached files, one step at a time: which file
  is read next and which are passed over; once the walk is done, the files
  read are closed under attachment.
- `src/literal.rs`: reading integer literals.
- `src/laws.rs`: further laws of the library.
- `app/`: the program around the library: it runs the walk and reads the files, parses them with
  the grammar (`grammar.pest`, through `pest_derive`), hands the parse trees to
  the library as `Node`s and prints the result.
