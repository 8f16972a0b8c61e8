# imgmeta

Dimensions and embedded tags out of JPEG and PNG files, without buffering
pixel data: JPEG width/height from the SOF segment and the IFD0 Exif tags of
an APP1 segment; PNG width/height from IHDR and its tEXt, zTXt and iTXt
chunks, with a small DEFLATE/zlib decoder for the compressed ones.

## Layout

- `src/` is the library, proved with Verus.
  - `inflate.rs`: bit reader, canonical Huffman tables, DEFLATE blocks and
    the zlib wrapper, each against a specification of RFC 1951/1950 over
    the input's bit stream; also the laws that decompression never exceeds
    its output cap, and that the cap only decides success; that nothing
    after the final block (the checksum included) is read; that a stored
    block gives back its payload; and that every canonical code decodes
    to its symbol.
  - `exif.rs`: TIFF byte orders, field types and the IFD0 walk.
  - `png.rs`, `jpeg.rs`: the text-chunk decoders and the two container
    walkers. A walker never reads by itself: it says how many bytes it
    needs next or how many to skip, and is handed them.
  - `json.rs`: JSON string quoting, and the law that reading a quoted
    string back gives the original characters; `report.rs`: the JSON
    report, with Exif floats handed in already written out;
    `text.rs`: NUL search and lossy UTF-8.
- `app/` is the command-line program and `read_metadata`, which runs the
  walkers over any `std::io::Read` and writes out Exif floats.
- `tests/` runs the library on concrete inputs.
