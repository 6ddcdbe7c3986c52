# libpack

Concatenates the modules of a library into one `.js` file with one `.d.ts` file
beside it.

- The JavaScript output is close to the input. Each module but the root becomes a
  function that is called once, and an object with a getter for each of its
  exports. Modules on the web stay external, and what the root exports of them it
  exports still.
- The declaration file holds the public API of the root, and whatever that refers
  to. Nothing is inferred but the types of literals: a function that returns
  something and does not say of what type is reported.

`src/` is the library. Its contracts are stated over the mathematical models of its
types, and Verus proves them.

| module         | what is in it                                                     |
| -------------- | ----------------------------------------------------------------- |
| `syntax`       | nodes of syntax, and the trees that they stand for                |
| `text`         | strings as sequences of characters                                |
| `collections`  | maps that keep the order of their keys                            |
| `comments`     | comments by position, and how they move between files             |
| `helpers`      | builders of syntax, and how spans move                            |
| `specifier`    | URLs of modules                                                   |
| `resolver`     | import maps                                                       |
| `pack_js`      | what modules import and export, and the code that they become     |
| `dts`          | the symbols of modules, the public API, and its declarations      |

In `dts`, `binder` and `tracer` find which symbols are public, `transformer` takes
the code out of declarations, `namespaces` puts each file into a namespace of the
declaration file, and `bundler` puts all declarations at its top level instead.

`app/` loads and parses modules, runs the library on them, and prints what comes
out. `tests/` holds the library's tests.
