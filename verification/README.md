# pies

Readers for PIES product-information documents and XML Schema documents,
written in Verus.

`document` runs the `xml` crate's pull parser over a document's bytes and
hands its events over as plain values. Each reader is a state machine fed
one event at a time; its step is proved against a specification of the
transition (`pies_next`, `schema_next`), and `pies_entries` /
`schema_entries` read a whole document, proved against a fold of those
steps over the parser's events. The fold, its lemmas and the loop that
drives a reader over a document are written once, in `stream`, for any
reader that implements `EntryReader`. Laws about runs of events (depth and name
table follow the open elements, segments never go back, which closings
produce entries, which documents are read without a refusal) are proved next
to each reader. `xsd::data_types` holds the XML Schema string conversions
(`to_norm`, `to_token`) with their laws; `statement` builds the printed line
of a result-set row.

`app/` is the program around it: it reads a file into bytes and prints, and
runs SQL statements over ODBC.
