//! The credential pool: interchangeable API credentials and a rotation
//! cursor. Rate-limited calls advance the cursor one slot at a time, modulo
//! the pool size; completing a full cycle (landing back on slot 0) is the
//! signal to sleep a fixed cooldown before retrying.
use vstd::prelude::*;

verus! {

/// The slot the rotation cursor moves to from slot `i` in a pool of `len`.
pub open spec fn next_slot(i: int, len: int) -> int {
    if i + 1 >= len {
        0
    } else {
        i + 1
    }
}

/// The slot reached after `n` successive rotations starting from `i`.
pub open spec fn slot_after(i: int, len: int, n: nat) -> int
    decreases n,
{
    if n == 0 {
        i
    } else {
        next_slot(slot_after(i, len, (n - 1) as nat), len)
    }
}

/// Closed form of `slot_after` over a single cycle.
proof fn lemma_slot_after_closed(i: int, len: int, n: nat)
    requires
        0 <= i < len,
        n <= len,
    ensures
        slot_after(i, len, n) == if i + n < len {
            i + n
        } else {
            i + n - len
        },
    decreases n,
{
    if n > 0 {
        lemma_slot_after_closed(i, len, (n - 1) as nat);
    }
}

/// Slot `j` is reached at some point during one full cycle of rotations
/// that starts from slot `i`.
pub open spec fn visited_in_cycle(i: int, len: int, j: int) -> bool {
    exists|n: nat| 1 <= n <= len && #[trigger] slot_after(i, len, n) == j
}

/// One full cycle of rotations against a pool of `len` credentials visits
/// each of the `len` slots exactly once; in particular it lands on slot 0 —
/// the wrap that triggers the cooldown sleep — exactly once per cycle.
pub proof fn lemma_rotation_cycle(i: int, len: int)
    requires
        0 <= i < len,
    ensures
        forall|j: int| 0 <= j < len ==> #[trigger] visited_in_cycle(i, len, j),
        forall|n1: nat, n2: nat|
            1 <= n1 <= len && 1 <= n2 <= len && #[trigger] slot_after(i, len, n1)
                == #[trigger] slot_after(i, len, n2) ==> n1 == n2,
{
    assert forall|j: int| 0 <= j < len implies #[trigger] visited_in_cycle(i, len, j) by {
        if j > i {
            let n = (j - i) as nat;
            lemma_slot_after_closed(i, len, n);
            assert(1 <= n <= len && slot_after(i, len, n) == j);
        } else {
            let n = (len - i + j) as nat;
            lemma_slot_after_closed(i, len, n);
            assert(1 <= n <= len && slot_after(i, len, n) == j);
        }
    }
    assert forall|n1: nat, n2: nat|
        1 <= n1 <= len && 1 <= n2 <= len && #[trigger] slot_after(i, len, n1)
            == #[trigger] slot_after(i, len, n2) implies n1 == n2 by {
        lemma_slot_after_closed(i, len, n1);
        lemma_slot_after_closed(i, len, n2);
    }
}

/// A pool of interchangeable API credentials with the shared rotation
/// cursor. Exposes only "current credential" and "advance, report whether
/// the advance wrapped", as the rotation design requires.
pub struct CredentialPool {
    pub tokens: Vec<String>,
    pub index: usize,
}

impl CredentialPool {
    pub open spec fn wf(&self) -> bool {
        self.tokens@.len() > 0 && (self.index as int) < self.tokens@.len()
    }

    pub fn new(tokens: Vec<String>) -> (r: CredentialPool)
        requires
            tokens@.len() > 0,
        ensures
            r.wf(),
            r.tokens == tokens,
            r.index == 0,
    {
        CredentialPool { tokens, index: 0 }
    }

    /// The credential the next request must carry.
    pub fn current(&self) -> (r: &String)
        requires
            self.wf(),
        ensures
            r == self.tokens@[self.index as int],
    {
        &self.tokens[self.index]
    }

    /// Advances the rotation cursor one slot, wrapping past the last
    /// credential, and reports whether it wrapped — the caller sleeps the
    /// cooldown exactly on a wrap.
    pub fn advance(&mut self) -> (wrapped: bool)
        requires
            old(self).wf(),
        ensures
            final(self).wf(),
            final(self).tokens == old(self).tokens,
            final(self).index as int == next_slot(
                old(self).index as int,
                old(self).tokens@.len() as int,
            ),
            wrapped == (old(self).index + 1 >= old(self).tokens@.len()),
            wrapped == (final(self).index == 0),
    {
        if self.index >= self.tokens.len() - 1 {
            self.index = 0;
            true
        } else {
            self.index = self.index + 1;
            false
        }
    }
}

} // verus!
