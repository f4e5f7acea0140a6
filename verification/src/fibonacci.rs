//! Fibonacci numbers: a wrapping closed form on bytes and a checked stream
//! that ends where `u128` does.

use vstd::prelude::*;

verus! {

/// The n-th Fibonacci number, with `fib(0) == 0` and `fib(1) == 1`.
pub open spec fn fib(n: nat) -> nat
    decreases n,
{
    if n == 0 {
        0
    } else if n == 1 {
        1
    } else {
        fib((n - 1) as nat) + fib((n - 2) as nat)
    }
}

/// The Fibonacci sequence never decreases.
pub proof fn lemma_fib_monotonic(i: nat, j: nat)
    requires
        i <= j,
    ensures
        fib(i) <= fib(j),
    decreases j,
{
    if i < j {
        if j >= 2 {
            lemma_fib_monotonic(i, (j - 1) as nat);
        }
    }
}

/// A stream of Fibonacci numbers that stops at the first one that does not
/// fit in a `u128`.
pub struct Fibonacci {
    v_iter_curr: Option<u128>,
    v_iter_prev: u128,
    position: Ghost<nat>,
}

impl Fibonacci {
    /// How many numbers the stream has handed out or skipped so far.
    pub closed spec fn position(&self) -> nat {
        self.position@
    }

    /// The fields hold the number at `position()` and the one before it.
    pub closed spec fn wf(&self) -> bool {
        let i = self.position@;
        &&& self.v_iter_curr == (if fib(i) <= u128::MAX {
            Some(fib(i) as u128)
        } else {
            None::<u128>
        })
        &&& i == 0 ==> self.v_iter_prev == 1
        &&& i > 0 ==> fib((i - 1) as nat) <= u128::MAX && self.v_iter_prev == fib((i - 1) as nat)
    }

    /// Create new `Fibonacci`.
    pub fn new() -> (r: Fibonacci)
        ensures
            r.wf(),
            r.position() == 0,
    {
        Fibonacci { v_iter_curr: Some(0), v_iter_prev: 1, position: Ghost(0) }
    }

    /// Calculate the n-th Fibonacci number, wrapping around at the boundary
    /// of `u8`. The state of a stream is not involved.
    pub fn fibonacci(n: usize) -> (r: u8)
        ensures
            r == fib(n as nat) % 256,
    {
        if n < 2 {
            return n as u8;
        }
        let mut prev: u8 = 0;
        let mut curr: u8 = 1;
        let mut i: usize = 1;
        while i < n
            invariant
                1 <= i <= n,
                prev == fib((i - 1) as nat) % 256,
                curr == fib(i as nat) % 256,
            decreases n - i,
        {
            let next = prev.wrapping_add(curr);
            assert(next == fib((i + 1) as nat) % 256) by {
                let a = fib((i - 1) as nat);
                let b = fib(i as nat);
                assert(fib((i + 1) as nat) == b + a);
                assert((a % 256 + b % 256) % 256 == (a + b) % 256) by (nonlinear_arith);
            }
            prev = curr;
            curr = next;
            i = i + 1;
        }
        curr
    }

    /// Calculate the next Fibonacci number. The first call returns `fib(0)`;
    /// once a number does not fit in a `u128` the stream has ended and every
    /// later call returns `None`.
    pub fn next(&mut self) -> (r: Option<u128>)
        requires
            old(self).wf(),
        ensures
            final(self).wf(),
            r == (if fib(old(self).position()) <= u128::MAX {
                Some(fib(old(self).position()) as u128)
            } else {
                None::<u128>
            }),
            r is Some ==> final(self).position() == old(self).position() + 1,
            r is None ==> *final(self) == *old(self),
    {
        match self.v_iter_curr {
            Some(v_iter_curr_val) => {
                let v_next = self.v_iter_prev.checked_add(v_iter_curr_val);
                proof {
                    let i = self.position@;
                    if i > 0 {
                        assert(fib(i + 1) == fib(i) + fib((i - 1) as nat));
                    } else {
                        assert(fib(1) == 1);
                    }
                }
                self.v_iter_prev = v_iter_curr_val;
                self.v_iter_curr = v_next;
                self.position = Ghost((self.position@ + 1) as nat);
                Some(self.v_iter_prev)
            },
            None => None,
        }
    }

    /// Skip `n` numbers and return the one after them, as an iterator's `nth`
    /// does: `None` as soon as the stream has ended, and the stream then
    /// stands at the first number that does not fit in a `u128`.
    pub fn nth(&mut self, n: usize) -> (r: Option<u128>)
        requires
            old(self).wf(),
        ensures
            final(self).wf(),
            r == (if fib(old(self).position() + n as nat) <= u128::MAX {
                Some(fib(old(self).position() + n as nat) as u128)
            } else {
                None::<u128>
            }),
            r is Some ==> final(self).position() == old(self).position() + n + 1,
            r is None ==> old(self).position() <= final(self).position() <= old(self).position()
                + n && fib(final(self).position()) > u128::MAX,
    {
        let ghost start = self.position@;
        let mut k: usize = 0;
        while k < n
            invariant
                k <= n,
                self.wf(),
                start == old(self).position(),
                self.position() == start + k,
                k > 0 ==> fib((start + k - 1) as nat) <= u128::MAX,
            decreases n - k,
        {
            let step = self.next();
            if step.is_none() {
                proof {
                    lemma_fib_monotonic((start + k) as nat, (start + n) as nat);
                    assert(fib((start + k) as nat) > u128::MAX);
                    assert(fib((start + n) as nat) > u128::MAX);
                }
                return None;
            }
            k = k + 1;
        }
        self.next()
    }
}

} // verus!
