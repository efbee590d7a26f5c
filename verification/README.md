# rcc

A client for network devices that are configured by YANG data models over
CoAP. The library holds everything that can be decided without a device at
hand, and states and proves what it does; the program around it reads and
writes.

## The library (`src/`)

- `cbor`: data items as bytes, and bytes as data items.
- `mup1`: frames on a serial line, their checksums, and what a device string
  means.
- `coap`: messages, blockwise transfer, and the state of an exchange.
- `yang`: the text of models, SID files, the schema that they make, data under
  a schema as JSON and as CBOR, and the JSON Schema of a model.
- `command`: options, formats, conversions, requests, the lines that are shown
  beside a result, and the catalog of
  models.
- `json`, `text`, `bytes`: what the others are made of.

Modules named `laws`, or ending in `_laws`, hold what is proved of several
functions together: that what was encoded is decoded to the same data, that
frames come out in the order in which they went in, and the like.

Calls into other crates stand behind small functions marked
`external_body`, each with a note on what is claimed of the call.

Decimals are shown by floating point, which the library does not do: who
decodes a response hands in a table of texts for the decimals in it
(`yang::codec::list_decimals` lists them).

## The program (`app/`)

Arguments, files, the serial port and TCP, running `curl`, and printing.
