# rox

A front end and bytecode assembler for the Lox language, written in Verus:
every function of the library carries a contract that Verus proves.

## Layout

- `src/` — the verified library.
  - `chars`, `token`, `lexer`, `scanner`: two lexers; each produces exactly
    the tokens and errors that a specification of the token grammar gives
    for the source bytes.
  - `span`, `punctuated`, `ast`, `decoration`, `parser`: the syntax tree and
    the recursive-descent parser. Each statement it returns is made of
    exactly its own tokens, in order (for input without `for`; a `for`
    loop becomes a block holding a `while` loop). A statement that fails to
    parse always leaves an error, unless parsing stopped at a function whose
    parameters are not followed by a body; so no more of the stretches of
    a program that are skipped hold no `)` than errors are reported. An
    expression that is
    a single name or literal, with nothing after it that could continue
    it, is always accepted, and a prompt line made of one is printed. A
    program that the grammar of the `simple_*` specifications reads
    (expressions with every operator, calls, field reads and assignments;
    `print`, expression and `return` statements; variable, function and
    class declarations; `if`, `while` and `for` statements and blocks)
    parses with no error, into one statement per declaration, and so does
    a prompt line that begins with such a declaration or expression. A
    class whose name is followed by `;`, then such a program, gives exactly
    one error, at that `;`, and no statement of its own. A `for` loop with an empty condition is not
    in that grammar: its `;` is left for the increment, which no expression
    begins with.
  - `name_resolution`, `name_pass`, `resolvability`, `resolver`, `context`:
    name resolution (locals, captured variables, globals) and the check that
    a program can be resolved. The tables' sizes, the functions and classes
    recorded, and the resolution of top-level names are specified. For a
    program that declares no function or class, `flat_resolution` gives
    exactly the resolution of every name, the locals of every block and the
    error list, and compiling returns exactly those errors. Inside
    functions, each use of a name is recorded as what the resolver's scopes
    give at that point (the slot of its innermost declaration in the
    current function, the function's capture of it, or a global only where
    no enclosing scope declares it), but this is not restated over the
    program text, and the exact error list is not specified.
  - `op`, `codec`, `rle`, `chunk`, `executable`, `assembly`, `compile`,
    `collect_fun_decls`: the instruction set and its encoding, the chunk of
    code with a span for every byte, the assembler and its listing. The code
    assembled for a program is exactly what the specification `asm_program`
    gives; `assembled` proves that this code, from its first byte and from
    each function's entry, is a run of whole instructions that each decode
    back to themselves.
  - `diagnostic`, `reports`: error reports rendered as text, with the source
    lines they point into.
  - `printer`: expressions and expression or print statements in prefix
    form.
- `tests/` — tests of the library on concrete programs.
- `app/` — the command-line driver: reads a file or a prompt line, reports
  errors and prints the listing of the assembled program.
