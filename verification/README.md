# iso_8583_message

Reading and writing ISO 8583 messages: a four-character MTI, one to three
64-bit bitmaps announcing the data elements present, then each data element
packed as its field describes (fixed length, or a length given by leading
ASCII digits; text, or bytes written as hexadecimal text).

The library under `src/` is verified with Verus:

- `bitmaps` builds bitmaps from a message's keys, writes and reads them, and
  lists the data elements they announce;
- `field` packs and unpacks one data element; `fields` reads the fields of
  the base format;
- the crate root holds `IsoMessage`, which reads a message from a buffer,
  writes it back, and turns a request into its response;
- `spec`, `spec_builder` and `iso_message` describe message specs and read
  messages with them; `message_types` lists the MTIs.

The main proved properties: bitmaps read back from the bytes they are
written as, and are written back as the bytes they were read from; the
bitmaps built from a message's keys announce exactly those keys, where the
keys are the MTI and data elements from 2 to 192 other than 65 and 129, one
of them at most 128, and one from 66 to 128 wherever one from 130 to 192 is
held (otherwise an empty bitmap between two others is left out and the
first does not announce the next); a field reads back the value it wrote
(hexadecimal text in lowercase) and writes back the bytes it read; a message reads back from the bytes it writes; and writing
the message read from a canonical buffer gives the buffer back. Functions
that panic on some inputs have `try_` counterparts that return `None` there.

`app/` reads formats and specs from JSON text with serde and gives the
errors their texts.
