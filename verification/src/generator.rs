//! Verified generators: step-by-step producers of Fibonacci and Collatz
//! numbers.

use vstd::prelude::*;

verus! {

/// The internal state of a generator: which sequence it produces and
/// where it stands in it.
#[derive(Debug, Clone, Copy, PartialEq, Eq, Structural)]
pub enum GeneratorState {
    /// The next two Fibonacci values.
    Fib(usize, usize),
    /// The current Collatz value; zero means the run has finished.
    Collatz(usize),
}

/// A generator: each call of `next` yields the next value of its
/// sequence, or `None` once the sequence stops.
#[derive(Debug, Clone, Copy, PartialEq, Eq, Structural)]
pub struct Generator {
    /// The state the next value is computed from.
    pub state: GeneratorState,
}

impl Generator {
    /// Yields the next value of the sequence.  A Fibonacci generator
    /// never stops on its own but ends when the next value would
    /// overflow; a Collatz generator ends after yielding `1`.
    pub fn next(&mut self) -> (r: Option<usize>)
        ensures
            match old(self).state {
                GeneratorState::Fib(a, b) => if a + b <= usize::MAX {
                    r == Some(a) && final(self).state == GeneratorState::Fib(b, (a + b) as usize)
                } else {
                    r is None && final(self).state == old(self).state
                },
                GeneratorState::Collatz(n) => if n == 1 {
                    r == Some(1usize) && final(self).state == GeneratorState::Collatz(0)
                } else if n == 0 {
                    r is None && final(self).state == old(self).state
                } else if n % 2 == 0 {
                    r == Some(n) && final(self).state == GeneratorState::Collatz((n / 2) as usize)
                } else if 3 * n + 1 <= usize::MAX {
                    r == Some(n) && final(self).state == GeneratorState::Collatz(
                        (3 * n + 1) as usize,
                    )
                } else {
                    r is None && final(self).state == old(self).state
                },
            },
    {
        match self.state {
            GeneratorState::Fib(a, b) => {
                if a <= usize::MAX - b {
                    self.state = GeneratorState::Fib(b, a + b);
                    Some(a)
                } else {
                    None
                }
            },
            GeneratorState::Collatz(n) => {
                if n == 1 {
                    self.state = GeneratorState::Collatz(0);
                    Some(1)
                } else if n == 0 {
                    None
                } else if n % 2 == 0 {
                    self.state = GeneratorState::Collatz(n / 2);
                    Some(n)
                } else if n <= (usize::MAX - 1) / 3 {
                    self.state = GeneratorState::Collatz(3 * n + 1);
                    Some(n)
                } else {
                    None
                }
            },
        }
    }
}

/// Returns a generator that yields the Fibonacci numbers starting from
/// the two given seeds.
pub fn fib_generator(first: usize, second: usize) -> (r: Generator)
    ensures
        r.state == GeneratorState::Fib(first, second),
{
    Generator { state: GeneratorState::Fib(first, second) }
}

/// Returns a generator that yields the Collatz sequence of `start`,
/// ending after it reaches `1`.
pub fn collatz_conjecture(start: usize) -> (r: Generator)
    ensures
        r.state == GeneratorState::Collatz(start),
{
    Generator { state: GeneratorState::Collatz(start) }
}

} // verus!
