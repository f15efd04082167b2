//! Small verified computations: integer arithmetic, Fibonacci numbers,
//! slice sums, string reversal and greetings, the comma-separated number
//! list format, and prime numbers.

pub mod arith;
pub mod primes;
pub mod array;
pub mod text;
pub mod number_list;
