# existence

Tools for ontologies of terms, one markdown node per term, organised in
scoping rings: lint, term index, RDF (SKOS) export, SPARQL queries, the
external sources that nodes cite, and an audit over all of it.

`src/` is the library. It works on values only (the text of the nodes, the
manifest, what was fetched, what a model replied), and every function in it is
verified with Verus against its contract:

- `markdown`, `config`, `pattern`: nodes, their sections and links, the
  manifest, the regular expressions of the markup.
- `commands::lint`, `commands::toc`, `commands::waivers`, `commands::audit`:
  checks of single nodes, the term index, accepted findings, the report.
- `commands::export`: the ontology as a graph, in Turtle and JSON-LD.
- `commands::sparql`: queries over the exported graph, and the answers of the
  SPARQL endpoint.
- `commands::sources`: the sources of a node and the lockfile.
- `commands::source_check`: the network pass as a run that asks for one page
  at a time and goes on with what was fetched.
- `commands::pace`: when a request may go out, and when it is tried again.
- `commands::semantic`: the pass that asks a model for contradictions, again
  as a run that asks and is answered.
- `text`, `order`, `number`, `calendar`, `table`, `digest`, `json`: what the
  commands are built from.

`app/` is the command line around it: files, HTTP, the endpoint's socket, and
the JSON shapes of the lockfile, the cache and the reports.

`tests/` runs the library on examples.
