# localbench_core

File tools that run on the user's own machine, written in Rust and verified with
Verus: PDF page operations, image transforms, ZIP archives, metadata inspection
and removal, and text recognition.

## Layout

- `src/` is the verified library.
  - `pdf`: documents as plain values; merging, organizing and compressing them.
  - `images`: decoding, encoding, resizing, converting, compressing, and images
    put into a PDF.
  - `archive`: listing, extracting and creating ZIP archives.
  - `metadata`: what a JPEG, a PNG or a PDF carries besides its content, its
    removal, and a structural check of the result.
  - `ocr`: the picture that text is read from, and the steps of loading an engine.
  - `text`, `bytes`, `encoding`, `checksum`, `inflate`, `notices`: what the others
    are built from.
- `app/` is ordinary Rust around it: the functions that a browser calls, page
  geometry in floating point, and the engine that reads text, which runs the
  models that its caller brings.
- `tests/` runs the library with the real codecs.

## What is proved

The functions of the library state what they return, each refusal with its words
included, on the inputs that their `requires` admits. Where an outside call decides
a result that differs between machines, such as the samples of a resized picture,
the contract says which results are possible and no more. The modules named `laws`
and `*_laws`, and the public proof functions beside the operations, state what holds
of the library as a whole: a scrubbed image passes the structural check and is
scrubbed to itself, its image data stays byte for byte, an empty report means that a
file passes that check, merged pages keep their order, their content and numbers of
their own, removed pages leave no reference behind, turns add up, and nothing that is
compressed grows. An archive gives back what was put into it, where its 64-bit end
record, if it has one, is the last thing that looks like one. Bytes in front of an archive shift nothing, as long as the archive keeps to the 16-bit
and 32-bit fields of the format: fewer than 65,535 files, and no more than four
gigabytes.

## What is trusted

The codecs are called in the modules named `outside`, in `inflate` and in
`encoding`. Each call states in its doc comment what is taken for granted of it.
A result that takes pages to describe is given a name that stands for it in the
contracts.
