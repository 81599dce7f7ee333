//! Ready-made collaborators: a counter-based key source and a length-matched
//! bitwise-OR round function.
//!
//! Together with [`crate::padding::Pkcs7`] these are enough to run the
//! engine end to end: encipher with an ascending counter, decipher with a
//! descending counter started at the last counter value drawn, and the
//! per-block key sequences reverse each other as [`crate::decipher`]
//! requires.

use vstd::prelude::*;

verus! {

use crate::{KeySource, RoundFunction};
use vstd::arithmetic::div_mod::{lemma_mod_add_multiples_vanish, lemma_small_mod};

/// The counter byte drawn `delta` steps after `counter`, stepping down when
/// `descending` and up otherwise, wrapping modulo 256.
pub open spec fn spec_counter_byte(counter: u8, descending: bool, delta: int) -> u8 {
    if descending {
        (((counter - delta) % 256) as u8)
    } else {
        (((counter + delta) % 256) as u8)
    }
}

/// A fixed key XORed byte by byte with one counter byte.
pub open spec fn spec_counter_key(key: Seq<u8>, counter: u8) -> Seq<u8> {
    Seq::new(key.len(), |j: int| key[j] ^ counter)
}

/// A key source that XORs a fixed key with a per-call counter.  The counter
/// starts at a caller-chosen value and steps by one per draw — up for
/// enciphering, down for deciphering — wrapping modulo 256.
pub struct CounterKeySource {
    key: Vec<u8>,
    counter: u8,
    descending: bool,
    issued: Ghost<nat>,
}

impl CounterKeySource {
    /// A source whose counter counts `start`, `start + 1`, and so on.
    pub fn ascending(key: Vec<u8>, start: u8) -> (source: Self)
        ensures
            source.drawn() == 0,
            forall|i: nat| #[trigger] source.key_at(i) == spec_counter_key(
                key@,
                spec_counter_byte(start, false, i as int),
            ),
    {
        CounterKeySource { key, counter: start, descending: false, issued: Ghost(0nat) }
    }

    /// A source whose counter counts `start`, `start - 1`, and so on.
    pub fn descending(key: Vec<u8>, start: u8) -> (source: Self)
        ensures
            source.drawn() == 0,
            forall|i: nat| #[trigger] source.key_at(i) == spec_counter_key(
                key@,
                spec_counter_byte(start, true, i as int),
            ),
    {
        CounterKeySource { key, counter: start, descending: true, issued: Ghost(0nat) }
    }
}

impl KeySource for CounterKeySource {
    closed spec fn key_at(&self, i: nat) -> Seq<u8> {
        spec_counter_key(
            self.key@,
            spec_counter_byte(self.counter, self.descending, i - self.issued@),
        )
    }

    closed spec fn drawn(&self) -> nat {
        self.issued@
    }

    #[verifier::loop_isolation(false)]
    fn next_key(&mut self) -> (key: Vec<u8>) {
        let mut key: Vec<u8> = Vec::new();
        let mut j: usize = 0;
        while j < self.key.len()
            invariant
                j <= self.key@.len(),
                key@ == spec_counter_key(self.key@, self.counter).take(j as int),
            decreases self.key@.len() - j,
        {
            key.push(self.key[j] ^ self.counter);
            assert(key@ =~= spec_counter_key(self.key@, self.counter).take(j as int + 1));
            j += 1;
        }
        assert(key@ =~= spec_counter_key(self.key@, self.counter));
        proof {
            lemma_small_mod(self.counter as nat, 256);
            assert(spec_counter_byte(self.counter, self.descending, 0) == self.counter);
        }
        let next_counter: u8 = if self.descending {
            if self.counter == 0 {
                255
            } else {
                self.counter - 1
            }
        } else {
            if self.counter == 255 {
                0
            } else {
                self.counter + 1
            }
        };
        self.counter = next_counter;
        self.issued = Ghost(self.issued@ + 1);
        proof {
            assert forall|i: nat| #[trigger] self.key_at(i) == old(self).key_at(i) by {
                let delta = i - old(self).issued@;
                if old(self).descending {
                    if old(self).counter == 0 {
                        lemma_mod_add_multiples_vanish(0 - delta, 256);
                    }
                } else {
                    if old(self).counter == 255 {
                        lemma_mod_add_multiples_vanish(delta - 1, 256);
                    }
                }
            };
        }
        key
    }
}

/// The length-matched byte-wise OR of a half-block and a key: bytes beyond
/// the key's length pass through unchanged, key bytes beyond the
/// half-block's length are dropped.
pub open spec fn spec_or_bytes(half: Seq<u8>, key: Seq<u8>) -> Seq<u8> {
    Seq::new(half.len(), |i: int| if i < key.len() { half[i] | key[i] } else { half[i] })
}

/// A round function that ORs the round key onto the half-block,
/// length-matched.  It is not invertible — no round function needs to be.
pub struct OrRoundFunction;

impl RoundFunction for OrRoundFunction {
    open spec fn spec_apply(&self, half: Seq<u8>, key: Seq<u8>) -> Seq<u8> {
        spec_or_bytes(half, key)
    }

    #[verifier::loop_isolation(false)]
    fn apply(&self, half: &[u8], key: &[u8]) -> (out: Vec<u8>) {
        let mut out: Vec<u8> = Vec::new();
        let mut i: usize = 0;
        while i < half.len()
            invariant
                i <= half@.len(),
                out@ == spec_or_bytes(half@, key@).take(i as int),
            decreases half@.len() - i,
        {
            if i < key.len() {
                out.push(half[i] | key[i]);
            } else {
                out.push(half[i]);
            }
            assert(out@ =~= spec_or_bytes(half@, key@).take(i as int + 1));
            i += 1;
        }
        assert(out@ =~= spec_or_bytes(half@, key@));
        out
    }
}

} // verus!
