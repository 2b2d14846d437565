# rmdigest

Digests of the annotations that a reader leaves in a PDF on a reMarkable device. From a
notebook it makes two documents: the *digest*, with every highlight in its context and
every handwritten note as an image, and the *annotated* PDF, with the digest in front of
the book, the ink flattened onto the pages, the inserted pages at their places and a link
from each highlight to its page.

`src/` is the library. Its contracts are proved with Verus.

| module | what it holds |
| --- | --- |
| `config` | the configuration and what is wrong with one |
| `state`, `ingest` | what is remembered between runs, and which pages changed |
| `textlayer` | the words of a PDF, and those under a region |
| `ink` | strokes of ink as images |
| `extract` | the marks of a notebook's pages |
| `theme`, `markup` | colours, and text in Typst sources |
| `digest_doc`, `linked_doc` | the sources of digests |
| `reading` | the bytes of a PDF, and reading them |
| `pdf`, `annotate` | PDF documents, and the assembly of the annotated one |
| `placement` | where the pages of an assembled document stand, and what stays as it was |
| `deploy` | listing, fetching and uploading with `rmapi` |
| `text` | text primitives |

What the library takes on trust of `lopdf`, `image`, `tiny-skia`, `sha2` and `std` stands
in the doc comments of `reading`, `pdf`, `ink`, `ingest`, `linked_doc` and `text`. Coordinates are
floating-point numbers, which the library does not hold: it takes them as integers in
their order, as values of a PDF or as paths, and `app/` does the arithmetic.

`app/` is the program around the library: files, processes, Typst and notebooks.
`tests/` holds the tests.
