# prefill_router

Routes prefill requests by estimated token load. The library in `src/` is verified with Verus:
the weight of a request, the token estimate of its images and the choice of the router's entry
point carry contracts that are proved. The wiring in `app/` reads the environment and awaits
the engines.

The estimate follows the vision processor's resize formula, which is floating-point. The library
computes it with integers, to the bit: `src/binary64.rs` implements the positive binary64
operations and proves each to be the exact result rounded to nearest, ties to even.

Two outside calls are trusted, both in `src/data_uri.rs`: base64 decoding, and reading the
dimensions from an image header. The formats that are read are the features of the `image` crate
in `Cargo.toml`. TIFF is left out, because its reader panics on some headers: such an image adds
no more than its placeholder token. Bytes on which a reader's counters would overflow are not
handed to it either.

Tests that compare with hardware floating point are in `tests/resize.rs`.
