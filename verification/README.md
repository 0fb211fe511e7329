# gift_swop

Verified core of an anonymous gift-exchange ("swop") web application.

- `src/` is the library, verified with Verus:
  - `assignment`: assignments of earlier rounds and forbidden pairs;
  - `constraints`: which gifts forbidden pairs rule out, which earlier
    receivers are penalised, and the check that no returned cycle makes a
    forbidden gift;
  - `moves`: the moves on gift cycles (2-opt, swap, insertion, shuffle) and
    the enumeration of all cycles of a small group;
  - `sampling`: the choice of search strategy, the iteration budget and the
    integer steps of the pseudo-random stream;
  - `url_encoding`: the compact URL-safe codecs for messages and state;
  - `transport`: the trusted calls into `flate2`, `base32` and std's text
    functions that the codecs rest on.
- `app/` is the WebAssembly front: JavaScript conversions and the
  floating-point weighting and sampling around the library.
- `tests/` exercises the library.
