# rust_wasm_demo

Small computations behind a set of WebAssembly and async demonstration
programs, written in Verus with their contracts proved.

- `src/arith.rs` — `add`, the Fibonacci numbers (`fibonacci`, valid up to
  index 93, the last that fits in a `u64`), and the small arithmetic steps
  `add_one`, `double`, `compute`, `nested`.
- `src/array.rs` — `array_sum` and `try_array_sum` over `i64` slices.
- `src/text.rs` — `reverse_string`, `greet`, `list_item_html`.
- `src/number_list.rs` — the Unicode white-space test and the
  comma-separated number list format: split
  into trimmed fields, join fields with a separator.
- `src/primes.rs` — `is_prime` (trial division over `6k ± 1`),
  `count_primes`, `try_count_primes`, `primes_up_to`, and the laws relating
  them.
- `app/` — the programs themselves: the WASI demo, the functions exported
  to JavaScript through `wasm-bindgen`/`web-sys`, the tokio demonstrations,
  and a hand-written `block_on` executor.
- `tests/` — example-based tests of the library.
