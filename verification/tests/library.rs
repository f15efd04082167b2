use rust_wasm_demo::arith::{add, add_one, compute, double, fibonacci, nested};
use rust_wasm_demo::array::{array_sum, try_array_sum};
use rust_wasm_demo::number_list::{is_white_space, join_fields, split_fields};
use rust_wasm_demo::primes::{count_primes, is_prime, primes_up_to, try_count_primes};
use rust_wasm_demo::text::{chars_of, greet, list_item_html, reverse_string};

#[test]
fn add_examples() {
    assert_eq!(add(3, 4), 7);
    assert_eq!(add(-10, 25), 15);
    assert_eq!(add(i32::MAX, i32::MIN), -1);
}

#[test]
fn fibonacci_examples() {
    let expected = [(0u32, 0u64), (1, 1), (5, 5), (10, 55), (20, 6765), (30, 832040)];
    for (n, f) in expected {
        assert_eq!(fibonacci(n), f);
    }
}

#[test]
fn fibonacci_largest_fitting() {
    assert_eq!(fibonacci(93), 12200160415121876738);
    assert_eq!(fibonacci(92) + fibonacci(91), fibonacci(93));
}

#[test]
fn future_arithmetic() {
    assert_eq!(add_one(4), 5);
    assert_eq!(double(21), 42);
    assert_eq!(compute(5), 12);
    assert_eq!(nested(5), 38);
    assert_eq!(add_one(double(add_one(3))), 9);
}

#[test]
fn array_sum_examples() {
    assert_eq!(array_sum(&[10, 20, 30, 40, 50]), 150);
    assert_eq!(array_sum(&[]), 0);
    assert_eq!(array_sum(&[-5, 5, i64::MAX, -1]), i64::MAX - 1);
    let totals: Vec<i64> = vec![
        array_sum(&[1, 2, 3, 4, 5]),
        array_sum(&[10, 20, 30, 40, 50]),
        array_sum(&[100, 200, 300, 400, 500]),
    ];
    assert_eq!(totals, vec![15, 150, 1500]);
    assert_eq!(array_sum(&totals), 1665);
}

#[test]
fn try_array_sum_overflow() {
    assert_eq!(try_array_sum(&[1, 2, 3]), Some(6));
    assert_eq!(try_array_sum(&[]), Some(0));
    assert_eq!(try_array_sum(&[i64::MAX, 1, -1]), None);
    assert_eq!(try_array_sum(&[i64::MIN, -1]), None);
    assert_eq!(try_array_sum(&[i64::MIN, 1]), Some(i64::MIN + 1));
}

#[test]
fn reverse_examples() {
    assert_eq!(reverse_string("hello"), "olleh");
    assert_eq!(reverse_string("WebAssembly"), "ylbmessAbeW");
    assert_eq!(reverse_string("Rust WASI"), "ISAW tsuR");
    assert_eq!(reverse_string("racecar"), "racecar");
    assert_eq!(reverse_string(""), "");
    assert_eq!(reverse_string("añb🦀"), "🦀bña");
}

#[test]
fn reverse_twice_is_identity() {
    for s in ["hello", "", "x", "ab cd", "日本語"] {
        assert_eq!(reverse_string(&reverse_string(s)), s);
    }
}

#[test]
fn chars_in_order() {
    assert_eq!(chars_of("añ🦀"), vec!['a', 'ñ', '🦀']);
}

#[test]
fn greeting() {
    assert_eq!(greet("Ferris"), "Hello, Ferris! Welcome to Rust + WebAssembly 🦀🕸️");
    assert_eq!(greet(""), "Hello, ! Welcome to Rust + WebAssembly 🦀🕸️");
}

#[test]
fn list_item_markup() {
    assert_eq!(list_item_html("first"), "🦀 first");
    assert_eq!(list_item_html(""), "🦀 ");
}

#[test]
fn is_prime_examples() {
    for n in [2u64, 3, 5, 7, 13, 97, 7919, 1_000_000_007] {
        assert!(is_prime(n), "{} is prime", n);
    }
    for n in [0u64, 1, 4, 9, 25, 35, 49, 100, 121, 1_000_000_007 * 3] {
        assert!(!is_prime(n), "{} is not prime", n);
    }
}

#[test]
fn is_prime_matches_trial_division() {
    for n in 0u64..2000 {
        let naive = n >= 2 && (2..n).all(|d| n % d != 0);
        assert_eq!(is_prime(n), naive, "n = {}", n);
    }
}

#[test]
fn is_prime_large() {
    // 2^61 - 1 is a Mersenne prime.
    assert!(is_prime((1u64 << 61) - 1));
    assert!(!is_prime((1u64 << 61) + 1));
}

#[test]
fn prime_counts() {
    assert_eq!(count_primes(100), 25);
    assert_eq!(count_primes(1000), 168);
    assert_eq!(count_primes(0), 0);
    assert_eq!(count_primes(1), 0);
    assert_eq!(count_primes(2), 1);
}

#[test]
fn primes_list() {
    assert_eq!(
        primes_up_to(50),
        vec![2, 3, 5, 7, 11, 13, 17, 19, 23, 29, 31, 37, 41, 43, 47]
    );
    assert_eq!(primes_up_to(1), Vec::<u64>::new());
    assert_eq!(primes_up_to(2), vec![2]);
}

#[test]
fn count_is_list_length() {
    for n in [0u64, 1, 2, 10, 50, 100, 997, 1000] {
        let list = primes_up_to(n);
        assert_eq!(count_primes(n), list.len());
        assert!(list.windows(2).all(|w| w[0] < w[1]));
        assert!(list.iter().all(|&p| p <= n && is_prime(p)));
    }
}

#[test]
fn split_number_fields() {
    assert_eq!(
        split_fields("3.14, 1.41 ,2.72,  0.58 , 1.73"),
        vec!["3.14", "1.41", "2.72", "0.58", "1.73"]
    );
    assert_eq!(split_fields(""), vec![""]);
    assert_eq!(split_fields("a,,b,"), vec!["a", "", "b", ""]);
    assert_eq!(split_fields(" \t x y \n"), vec!["x y"]);
    assert_eq!(split_fields("\u{3000}1\u{a0},2"), vec!["1", "2"]);
}

#[test]
fn join_number_fields() {
    let parts: Vec<String> = vec!["0.58".to_string(), "1.41".to_string(), "3.14".to_string()];
    assert_eq!(join_fields(&parts, ", "), "0.58, 1.41, 3.14");
    assert_eq!(join_fields(&Vec::new(), ", "), "");
    assert_eq!(join_fields(&vec!["x".to_string()], ", "), "x");
}

#[test]
fn white_space_matches_std() {
    for v in 0u32..=0x10FFFF {
        if let Some(c) = char::from_u32(v) {
            assert_eq!(is_white_space(c), c.is_whitespace(), "U+{:04X}", v);
        }
    }
}

#[test]
fn split_simple_pair() {
    assert_eq!(split_fields("1, 2"), vec!["1", "2"]);
}

#[test]
fn try_count_primes_examples() {
    assert_eq!(try_count_primes(100), Some(25));
    assert_eq!(try_count_primes(1000), Some(168));
    assert_eq!(try_count_primes(0), Some(0));
    for n in [0u64, 1, 2, 3, 10, 97, 500] {
        assert_eq!(try_count_primes(n), Some(count_primes(n)));
    }
}

#[test]
fn prime_count_steps() {
    for n in 1u64..300 {
        let step = if is_prime(n) { 1 } else { 0 };
        assert_eq!(count_primes(n), count_primes(n - 1) + step);
    }
}
