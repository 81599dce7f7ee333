//! A generic, pluggable Feistel-network execution engine.
//!
//! The engine walks a byte buffer in fixed-size blocks and applies, to each
//! block, a sequence of Feistel rounds driven by two caller-supplied
//! collaborators: a [`KeySource`] that hands out one key per round, and a
//! [`RoundFunction`] that mixes a half-block with a key.  The transformation
//! is reversible for *any* round function: deciphering replays, per block,
//! the exact key sequence of enciphering in reverse order.  The [`padding`]
//! module supplies the reversible PKCS#7-style padding scheme that lets
//! messages of arbitrary length be split into whole blocks.

use vstd::prelude::*;

pub mod basic;
pub mod padding;

verus! {

use crate::padding::PaddingError;
use vstd::arithmetic::div_mod::{
    lemma_fundamental_div_mod, lemma_div_multiples_vanish, lemma_mod_add_multiples_vanish,
};
use vstd::arithmetic::mul::{
    lemma_mul_inequality, lemma_mul_strict_inequality, lemma_mul_is_distributive_add,
};
use crate::padding::{
    spec_add_padding, spec_pad_len, spec_remove_padding, lemma_padded_len_multiple,
    lemma_padding_round_trip,
};

/// A caller-supplied pure mixing function: maps a half-block and a round key
/// to a new half-block of the same length.  It need not be invertible.
pub trait RoundFunction {
    /// The mathematical function that `apply` computes.
    spec fn spec_apply(&self, half: Seq<u8>, key: Seq<u8>) -> Seq<u8>;

    /// Computes the mixed half-block.  The result must have exactly the
    /// length of the input half-block, whatever the key length.
    fn apply(&self, half: &[u8], key: &[u8]) -> (out: Vec<u8>)
        ensures
            out@ == self.spec_apply(half@, key@),
            out@.len() == half@.len(),
    ;
}

/// A stateful capability producing one key per round invocation.  The keys it
/// will hand out form a stream, fixed at construction: `key_at(i)` is the key
/// of the `i`-th draw overall, and `drawn()` counts the draws so far.
pub trait KeySource {
    /// The key returned by the `i`-th call to `next_key` over the source's
    /// whole lifetime.
    spec fn key_at(&self, i: nat) -> Seq<u8>;

    /// How many keys have been drawn so far.
    spec fn drawn(&self) -> nat;

    /// Draws the next key of the stream.  Callable an unbounded number of
    /// times; the stream itself never changes.
    fn next_key(&mut self) -> (key: Vec<u8>)
        ensures
            key@ == old(self).key_at(old(self).drawn()),
            final(self).drawn() == old(self).drawn() + 1,
            forall|i: nat| #[trigger] final(self).key_at(i) == old(self).key_at(i),
    ;
}

/// A pluggable padding scheme: extends a message so that its length becomes
/// a multiple of the block size.
pub trait Padder {
    /// Which block sizes the scheme accepts.
    spec fn pad_ok(&self, block_size: nat) -> bool;

    /// The mathematical function that `pad` computes.
    spec fn spec_pad(&self, message: Seq<u8>, block_size: nat) -> Seq<u8>;

    /// Returns the padded message; its length is a multiple of the block
    /// size.
    fn pad(&self, message: &[u8], block_size: usize) -> (padded: Vec<u8>)
        requires
            0 < block_size,
            self.pad_ok(block_size as nat),
        ensures
            padded@ == self.spec_pad(message@, block_size as nat),
            padded@.len() % block_size as nat == 0,
    ;
}

/// A pluggable padding remover: validates the padding of a message and
/// truncates it away in place.
pub trait PadRemover {
    /// What removal yields: the unpadded message, or `None` when the padding
    /// is not well formed.
    spec fn spec_unpad(&self, message: Seq<u8>) -> Option<Seq<u8>>;

    /// The reason reported when removal fails on `message`.
    spec fn unpad_reason(&self, message: Seq<u8>) -> Seq<char>;

    /// Validates and strips the padding, truncating the message in place.
    fn unpad(&self, message: &mut Vec<u8>) -> (result: Result<(), PaddingError>)
        ensures
            match result {
                Ok(()) => self.spec_unpad(old(message)@) == Some(final(message)@),
                Err(e) => self.spec_unpad(old(message)@) is None && e.reason_spec()
                    == self.unpad_reason(old(message)@),
            },
    ;
}

// ---------------------------------------------------------------------------
// The mathematical model of the round engine.
// ---------------------------------------------------------------------------

/// Byte-wise XOR of `b` onto `a`; the result has the length of `a`.
pub open spec fn xor_halves(a: Seq<u8>, b: Seq<u8>) -> Seq<u8> {
    Seq::new(a.len(), |i: int| a[i] ^ b[i])
}

/// One Feistel round: the right half moves to the left, and the new right
/// half is the old left half XORed with the round function of the old right
/// half and the round key.
pub open spec fn feistel_step<F: RoundFunction>(
    rf: &F,
    left: Seq<u8>,
    right: Seq<u8>,
    key: Seq<u8>,
) -> (Seq<u8>, Seq<u8>) {
    (right, xor_halves(left, rf.spec_apply(right, key)))
}

/// The two halves after applying one round per key, in order.
pub open spec fn feistel_rounds<F: RoundFunction>(
    rf: &F,
    left: Seq<u8>,
    right: Seq<u8>,
    keys: Seq<Seq<u8>>,
) -> (Seq<u8>, Seq<u8>)
    decreases keys.len(),
{
    if keys.len() == 0 {
        (left, right)
    } else {
        let prev = feistel_rounds(rf, left, right, keys.drop_last());
        feistel_step(rf, prev.0, prev.1, keys.last())
    }
}

/// One whole block through the engine: split at the midpoint, run one round
/// per key, then swap the halves once more.  The final swap undoes the swap
/// that the last round performed, so the same code path inverts itself for
/// any round count.
pub open spec fn spec_cipher_block<F: RoundFunction>(
    rf: &F,
    block: Seq<u8>,
    keys: Seq<Seq<u8>>,
) -> Seq<u8> {
    let half = block.len() as int / 2;
    let fin = feistel_rounds(rf, block.take(half), block.skip(half), keys);
    fin.1 + fin.0
}

/// The whole buffer through the engine: blocks are processed left to right,
/// each consuming the next `rounds` keys of the stream.  A trailing fragment
/// shorter than a block (absent when the buffer length is a multiple of the
/// block size) is left untouched.
pub open spec fn spec_execute_rounds<F: RoundFunction>(
    rf: &F,
    buffer: Seq<u8>,
    block_size: nat,
    keys: Seq<Seq<u8>>,
    rounds: nat,
) -> Seq<u8>
    decreases buffer.len(),
{
    if block_size == 0 || buffer.len() < block_size {
        buffer
    } else {
        spec_cipher_block(rf, buffer.take(block_size as int), keys.take(rounds as int))
            + spec_execute_rounds(
            rf,
            buffer.skip(block_size as int),
            block_size,
            keys.skip(rounds as int),
            rounds,
        )
    }
}

/// How many keys a full run of the engine draws.
pub open spec fn total_keys(buffer_len: nat, block_size: nat, rounds: nat) -> nat {
    (buffer_len / block_size) * rounds
}

/// The `count` keys that `source` will hand out starting with draw `start`.
pub open spec fn stream_segment<K: KeySource>(source: K, start: nat, count: nat) -> Seq<Seq<u8>> {
    Seq::new(count, |i: int| source.key_at((start + i) as nat))
}

/// The keys that block `b` consumes out of a whole-run key sequence.
pub open spec fn block_segment(keys: Seq<Seq<u8>>, b: int, rounds: nat) -> Seq<Seq<u8>> {
    keys.subrange(b * (rounds as int), (b + 1) * (rounds as int))
}

/// The deciphering key sequence mirrors the enciphering one block by block:
/// for every block, the keys drawn while deciphering are the keys drawn while
/// enciphering that same block, in reverse order.
pub open spec fn blockwise_reversed(
    enc_keys: Seq<Seq<u8>>,
    dec_keys: Seq<Seq<u8>>,
    rounds: nat,
) -> bool {
    &&& dec_keys.len() == enc_keys.len()
    &&& forall|b: int|
        0 <= b && (b + 1) * (rounds as int) <= enc_keys.len() ==> #[trigger] block_segment(
            dec_keys,
            b,
            rounds,
        ) == block_segment(enc_keys, b, rounds).reverse()
}

/// Runs the Feistel round sequence over every block of the buffer, in
/// place.  Each block, left to right, consumes the next `rounds` keys of
/// the source; the engine itself never reorders or reverses keys.
#[verifier::loop_isolation(false)]
pub fn execute_rounds<K: KeySource, F: RoundFunction>(
    buffer: &mut Vec<u8>,
    block_size: usize,
    key_source: &mut K,
    round_function: &F,
    rounds: usize,
)
    requires
        0 < block_size,
        block_size % 2 == 0,
        old(buffer)@.len() % block_size as nat == 0,
    ensures
        final(buffer)@ == spec_execute_rounds(
            round_function,
            old(buffer)@,
            block_size as nat,
            stream_segment(
                *old(key_source),
                old(key_source).drawn(),
                total_keys(old(buffer)@.len(), block_size as nat, rounds as nat),
            ),
            rounds as nat,
        ),
        final(key_source).drawn() == old(key_source).drawn() + total_keys(
            old(buffer)@.len(),
            block_size as nat,
            rounds as nat,
        ),
        forall|i: nat| #[trigger] final(key_source).key_at(i) == old(key_source).key_at(i),
{
    let ghost buf0 = buffer@;
    let ghost ks0 = *key_source;
    let ghost d0 = key_source.drawn();
    let ghost nblocks = buf0.len() / block_size as nat;
    let ghost all_keys = stream_segment(
        ks0,
        d0,
        total_keys(buf0.len(), block_size as nat, rounds as nat),
    );
    proof {
        lemma_fundamental_div_mod(buf0.len() as int, block_size as int);
        assert(buf0.len() == nblocks * block_size);
        assert(all_keys.len() == nblocks * (rounds as nat));
    }
    let half: usize = block_size / 2;
    proof {
        lemma_fundamental_div_mod(block_size as int, 2);
        assert(half + half == block_size);
    }
    let mut out: Vec<u8> = Vec::new();
    let mut start: usize = 0;
    let ghost mut done: nat = 0;
    proof {
        assert(buf0.skip(0) =~= buf0);
        assert(all_keys.skip(0) =~= all_keys);
    }
    while start < buffer.len()
        invariant
            start == done * (block_size as nat),
            start <= buf0.len(),
            done <= nblocks,
            out@.len() == start,
            key_source.drawn() == d0 + done * (rounds as nat),
            forall|i: nat| #[trigger] key_source.key_at(i) == ks0.key_at(i),
            out@ + spec_execute_rounds(
                round_function,
                buf0.skip(start as int),
                block_size as nat,
                all_keys.skip((done * (rounds as nat)) as int),
                rounds as nat,
            ) == spec_execute_rounds(
                round_function,
                buf0,
                block_size as nat,
                all_keys,
                rounds as nat,
            ),
        decreases buf0.len() - start,
    {
        proof {
            assert(done < nblocks) by {
                if done >= nblocks {
                    lemma_mul_inequality(nblocks as int, done as int, block_size as int);
                }
            };
            lemma_mul_is_distributive_add(block_size as int, done as int, 1);
            lemma_mul_inequality(done as int + 1, nblocks as int, block_size as int);
            assert(start + block_size <= buf0.len());
            lemma_mul_is_distributive_add(rounds as int, done as int, 1);
            assert(done * (rounds as nat) + rounds <= all_keys.len()) by (nonlinear_arith)
                requires
                    done < nblocks,
                    all_keys.len() == nblocks * (rounds as nat),
            ;
        }
        let mut left: Vec<u8> = Vec::new();
        let mut i: usize = 0;
        while i < half
            invariant
                i <= half,
                left@ == buf0.subrange(start as int, start as int + i as int),
            decreases half - i,
        {
            left.push(buffer[start + i]);
            assert(left@ =~= buf0.subrange(start as int, start as int + i as int + 1));
            i += 1;
        }
        let mut right: Vec<u8> = Vec::new();
        let mut j: usize = 0;
        while j < half
            invariant
                j <= half,
                right@ == buf0.subrange(
                    start as int + half as int,
                    start as int + half as int + j as int,
                ),
            decreases half - j,
        {
            right.push(buffer[start + half + j]);
            assert(right@ =~= buf0.subrange(
                start as int + half as int,
                start as int + half as int + j as int + 1,
            ));
            j += 1;
        }
        let ghost l0 = left@;
        let ghost r0 = right@;
        let ghost bkeys = all_keys.subrange(
            (done * (rounds as nat)) as int,
            (done * (rounds as nat)) as int + rounds as int,
        );
        let mut round: usize = 0;
        while round < rounds
            invariant
                round <= rounds,
                left@.len() == half as nat,
                right@.len() == half as nat,
                key_source.drawn() == d0 + done * (rounds as nat) + round,
                forall|i: nat| #[trigger] key_source.key_at(i) == ks0.key_at(i),
                (left@, right@) == feistel_rounds(round_function, l0, r0, bkeys.take(round as int)),
            decreases rounds - round,
        {
            let ghost pre_l = left@;
            let ghost pre_r = right@;
            let key = key_source.next_key();
            proof {
                assert(key@ == ks0.key_at(d0 + done * (rounds as nat) + round as nat));
                assert(bkeys[round as int] == ks0.key_at(
                    d0 + done * (rounds as nat) + round as nat,
                ));
            }
            let fo = round_function.apply(right.as_slice(), key.as_slice());
            let mut new_right: Vec<u8> = Vec::new();
            let mut k: usize = 0;
            while k < half
                invariant
                    k <= half,
                    left@ == pre_l,
                    fo@.len() == half as nat,
                    new_right@ == xor_halves(pre_l, fo@).take(k as int),
                decreases half - k,
            {
                new_right.push(left[k] ^ fo[k]);
                assert(new_right@ =~= xor_halves(pre_l, fo@).take(k as int + 1));
                k += 1;
            }
            assert(new_right@ =~= xor_halves(pre_l, fo@));
            let prev_right = right;
            right = new_right;
            left = prev_right;
            proof {
                let taken = bkeys.take(round as int + 1);
                assert(taken.drop_last() =~= bkeys.take(round as int));
                assert(taken.last() == bkeys[round as int]);
                assert(feistel_step(round_function, pre_l, pre_r, bkeys[round as int])
                    == (left@, right@));
                assert((left@, right@) == feistel_rounds(round_function, l0, r0, taken));
            }
            round += 1;
        }
        proof {
            assert(bkeys.take(rounds as int) =~= bkeys);
        }
        let ghost fin_l = left@;
        let ghost fin_r = right@;
        let ghost out_pre = out@;
        out.append(&mut right);
        out.append(&mut left);
        proof {
            let block = buf0.subrange(start as int, start as int + block_size as int);
            assert(block.len() == block_size);
            lemma_div_multiples_vanish(half as int, 2);
            assert(block.len() as int / 2 == half as int);
            assert(block.take(half as int) =~= l0);
            assert(block.skip(half as int) =~= r0);
            assert(spec_cipher_block(round_function, block, bkeys) == fin_r + fin_l);
            let rest = buf0.skip(start as int);
            let rkeys = all_keys.skip((done * (rounds as nat)) as int);
            assert(rest.take(block_size as int) =~= block);
            assert(rest.skip(block_size as int) =~= buf0.skip(
                start as int + block_size as int,
            ));
            assert(rkeys.take(rounds as int) =~= bkeys);
            assert(rkeys.skip(rounds as int) =~= all_keys.skip(
                (done * (rounds as nat)) as int + rounds as int,
            ));
            assert(spec_execute_rounds(
                round_function,
                rest,
                block_size as nat,
                rkeys,
                rounds as nat,
            ) == spec_cipher_block(round_function, block, bkeys) + spec_execute_rounds(
                round_function,
                buf0.skip(start as int + block_size as int),
                block_size as nat,
                all_keys.skip((done * (rounds as nat)) as int + rounds as int),
                rounds as nat,
            ));
            assert((out_pre + (fin_r + fin_l)) + spec_execute_rounds(
                round_function,
                buf0.skip(start as int + block_size as int),
                block_size as nat,
                all_keys.skip((done * (rounds as nat)) as int + rounds as int),
                rounds as nat,
            ) =~= out_pre + spec_execute_rounds(
                round_function,
                rest,
                block_size as nat,
                rkeys,
                rounds as nat,
            ));
            assert(out@ =~= out_pre + (fin_r + fin_l));
            let done_pre = done;
            done = done + 1;
            assert(done * (rounds as nat) == done_pre * (rounds as nat) + rounds)
                by (nonlinear_arith)
                requires
                    done == done_pre + 1,
            ;
            assert(done * (block_size as nat) == done_pre * (block_size as nat) + block_size)
                by (nonlinear_arith)
                requires
                    done == done_pre + 1,
            ;
            assert(key_source.drawn() == d0 + done * (rounds as nat));
            assert(out@ + spec_execute_rounds(
                round_function,
                buf0.skip(start as int + block_size as int),
                block_size as nat,
                all_keys.skip((done * (rounds as nat)) as int),
                rounds as nat,
            ) == spec_execute_rounds(
                round_function,
                buf0,
                block_size as nat,
                all_keys,
                rounds as nat,
            ));
        }
        start = start + block_size;
    }
    proof {
        assert(start == buf0.len());
        assert(done == nblocks) by {
            if done < nblocks {
                lemma_mul_strict_inequality(done as int, nblocks as int, block_size as int);
            }
            if done > nblocks {
                lemma_mul_strict_inequality(nblocks as int, done as int, block_size as int);
            }
        };
        assert(buf0.skip(buf0.len() as int) =~= Seq::<u8>::empty());
        assert(all_keys.skip((done * (rounds as nat)) as int) =~= all_keys.skip(
            all_keys.len() as int,
        ));
        assert(out@ + Seq::<u8>::empty() =~= out@);
    }
    *buffer = out;
}

// ---------------------------------------------------------------------------
// Reversibility of the engine.
// ---------------------------------------------------------------------------

/// Both halves keep the half-block length through any number of rounds.
proof fn lemma_feistel_rounds_len<F: RoundFunction>(
    rf: &F,
    l: Seq<u8>,
    r: Seq<u8>,
    keys: Seq<Seq<u8>>,
)
    requires
        l.len() == r.len(),
    ensures
        feistel_rounds(rf, l, r, keys).0.len() == l.len(),
        feistel_rounds(rf, l, r, keys).1.len() == l.len(),
    decreases keys.len(),
{
    if keys.len() != 0 {
        lemma_feistel_rounds_len(rf, l, r, keys.drop_last());
    }
}

/// Applying one round and then a key list equals applying the list with
/// that key prepended.
proof fn lemma_feistel_rounds_cons<F: RoundFunction>(
    rf: &F,
    l: Seq<u8>,
    r: Seq<u8>,
    key: Seq<u8>,
    keys: Seq<Seq<u8>>,
)
    ensures
        ({
            let s = feistel_step(rf, l, r, key);
            feistel_rounds(rf, l, r, seq![key] + keys) == feistel_rounds(rf, s.0, s.1, keys)
        }),
    decreases keys.len(),
{
    let full = seq![key] + keys;
    let s = feistel_step(rf, l, r, key);
    if keys.len() == 0 {
        assert(full.drop_last() =~= Seq::<Seq<u8>>::empty());
        assert(full.last() == key);
        assert(feistel_rounds(rf, l, r, full.drop_last()) == (l, r));
        assert(feistel_rounds(rf, l, r, full) == feistel_step(rf, l, r, key));
        assert(feistel_rounds(rf, s.0, s.1, keys) == s);
    } else {
        let rest = keys.drop_last();
        assert(full.drop_last() =~= seq![key] + rest);
        assert(full.last() == keys.last());
        lemma_feistel_rounds_cons(rf, l, r, key, rest);
        let prev = feistel_rounds(rf, s.0, s.1, rest);
        assert(feistel_rounds(rf, l, r, full.drop_last()) == prev);
        assert(feistel_rounds(rf, l, r, full) == feistel_step(rf, prev.0, prev.1, full.last()));
        assert(feistel_rounds(rf, s.0, s.1, keys) == feistel_step(rf, prev.0, prev.1, keys.last()));
    }
}

/// XORing the same sequence onto a sequence twice restores the original.
proof fn lemma_xor_cancel(a: Seq<u8>, b: Seq<u8>)
    ensures
        xor_halves(xor_halves(a, b), b) == a,
{
    assert forall|i: int| 0 <= i < a.len() implies #[trigger] xor_halves(
        xor_halves(a, b),
        b,
    )[i] == a[i] by {
        let x = a[i];
        let y = b[i];
        assert((x ^ y) ^ y == x) by (bit_vector);
    };
    assert(xor_halves(xor_halves(a, b), b) =~= a);
}

/// Replaying the keys in reverse order walks the rounds backwards: started
/// from the swapped final halves, it ends in the swapped initial halves.
proof fn lemma_feistel_rounds_invert<F: RoundFunction>(
    rf: &F,
    l: Seq<u8>,
    r: Seq<u8>,
    keys: Seq<Seq<u8>>,
)
    ensures
        ({
            let fin = feistel_rounds(rf, l, r, keys);
            feistel_rounds(rf, fin.1, fin.0, keys.reverse()) == (r, l)
        }),
    decreases keys.len(),
{
    if keys.len() == 0 {
        assert(keys.reverse() =~= keys);
    } else {
        let rest = keys.drop_last();
        let kl = keys.last();
        let g = feistel_rounds(rf, l, r, rest);
        let fin = feistel_rounds(rf, l, r, keys);
        assert(fin == feistel_step(rf, g.0, g.1, kl));
        assert(keys.reverse() =~= seq![kl] + rest.reverse());
        lemma_feistel_rounds_cons(rf, fin.1, fin.0, kl, rest.reverse());
        lemma_xor_cancel(g.0, rf.spec_apply(g.1, kl));
        assert(feistel_step(rf, fin.1, fin.0, kl) == (g.1, g.0));
        lemma_feistel_rounds_invert(rf, l, r, rest);
        assert(feistel_rounds(rf, fin.1, fin.0, keys.reverse()) == (r, l));
    }
}

/// A whole block keeps its length through the engine.
proof fn lemma_cipher_block_len<F: RoundFunction>(rf: &F, block: Seq<u8>, keys: Seq<Seq<u8>>)
    requires
        block.len() % 2 == 0,
    ensures
        spec_cipher_block(rf, block, keys).len() == block.len(),
{
    let h = block.len() as int / 2;
    lemma_fundamental_div_mod(block.len() as int, 2);
    lemma_feistel_rounds_len(rf, block.take(h), block.skip(h), keys);
}

/// One block enciphered with a key list and enciphered again with the
/// reversed list comes back unchanged.
proof fn lemma_cipher_block_invert<F: RoundFunction>(rf: &F, block: Seq<u8>, keys: Seq<Seq<u8>>)
    requires
        block.len() % 2 == 0,
    ensures
        spec_cipher_block(rf, spec_cipher_block(rf, block, keys), keys.reverse()) == block,
{
    let h = block.len() as int / 2;
    let l = block.take(h);
    let r = block.skip(h);
    lemma_fundamental_div_mod(block.len() as int, 2);
    let fin = feistel_rounds(rf, l, r, keys);
    lemma_feistel_rounds_len(rf, l, r, keys);
    let ct = fin.1 + fin.0;
    assert(spec_cipher_block(rf, block, keys) == ct);
    lemma_div_multiples_vanish(h, 2);
    assert(ct.len() as int / 2 == h);
    assert(ct.take(h) =~= fin.1);
    assert(ct.skip(h) =~= fin.0);
    lemma_feistel_rounds_invert(rf, l, r, keys);
    assert(feistel_rounds(rf, fin.1, fin.0, keys.reverse()) == (r, l));
    assert(spec_cipher_block(rf, ct, keys.reverse()) == l + r);
    assert(l + r =~= block);
}

/// The engine never changes the length of a buffer made of whole blocks.
pub proof fn lemma_execute_rounds_len<F: RoundFunction>(
    rf: &F,
    buffer: Seq<u8>,
    block_size: nat,
    keys: Seq<Seq<u8>>,
    rounds: nat,
)
    requires
        0 < block_size,
        block_size % 2 == 0,
        buffer.len() % block_size == 0,
    ensures
        spec_execute_rounds(rf, buffer, block_size, keys, rounds).len() == buffer.len(),
    decreases buffer.len(),
{
    if buffer.len() >= block_size {
        lemma_cipher_block_len(rf, buffer.take(block_size as int), keys.take(rounds as int));
        assert((buffer.len() - block_size) % block_size as int == 0) by {
            lemma_mod_add_multiples_vanish(buffer.len() - block_size, block_size as int);
        };
        lemma_execute_rounds_len(
            rf,
            buffer.skip(block_size as int),
            block_size,
            keys.skip(rounds as int),
            rounds,
        );
    }
}

/// Running the engine and then running it again with the key sequence
/// reversed block by block restores the buffer exactly, for every round
/// function, every round count and every buffer made of whole blocks.  This
/// is the central correctness invariant of the whole system: the engine
/// never inverts anything itself; reversibility comes only from the key
/// order.
pub proof fn lemma_engine_inverts<F: RoundFunction>(
    rf: &F,
    buffer: Seq<u8>,
    block_size: nat,
    rounds: nat,
    nblocks: nat,
    enc_keys: Seq<Seq<u8>>,
    dec_keys: Seq<Seq<u8>>,
)
    requires
        0 < block_size,
        block_size % 2 == 0,
        buffer.len() == nblocks * block_size,
        enc_keys.len() == nblocks * rounds,
        blockwise_reversed(enc_keys, dec_keys, rounds),
    ensures
        spec_execute_rounds(
            rf,
            spec_execute_rounds(rf, buffer, block_size, enc_keys, rounds),
            block_size,
            dec_keys,
            rounds,
        ) == buffer,
    decreases nblocks,
{
    if nblocks == 0 {
        assert(buffer.len() == 0) by (nonlinear_arith)
            requires
                nblocks == 0,
                buffer.len() == nblocks * block_size,
        ;
    } else {
        assert(block_size <= buffer.len()) by {
            lemma_mul_inequality(1, nblocks as int, block_size as int);
        };
        assert(rounds <= enc_keys.len()) by {
            lemma_mul_inequality(1, nblocks as int, rounds as int);
        };
        let block = buffer.take(block_size as int);
        let tail = buffer.skip(block_size as int);
        let ekb = enc_keys.take(rounds as int);
        let ektail = enc_keys.skip(rounds as int);
        let dkb = dec_keys.take(rounds as int);
        let dktail = dec_keys.skip(rounds as int);
        assert(block_segment(dec_keys, 0, rounds) == block_segment(enc_keys, 0, rounds).reverse());
        assert(block_segment(dec_keys, 0, rounds) =~= dkb);
        assert(block_segment(enc_keys, 0, rounds) =~= ekb);
        assert(dkb == ekb.reverse());
        assert forall|b: int|
            0 <= b && (b + 1) * (rounds as int) <= ektail.len() implies #[trigger] block_segment(
            dktail,
            b,
            rounds,
        ) == block_segment(ektail, b, rounds).reverse() by {
            lemma_mul_is_distributive_add(rounds as int, b, 1);
            lemma_mul_is_distributive_add(rounds as int, b + 1, 1);
            assert(b * (rounds as int) + (rounds as int) == (b + 1) * (rounds as int));
            assert((b + 1) * (rounds as int) + (rounds as int) == (b + 2) * (rounds as int)) by {
                lemma_mul_is_distributive_add(rounds as int, b + 1, 1);
                lemma_mul_is_distributive_add(rounds as int, b, 2);
                lemma_mul_is_distributive_add(rounds as int, b, 1);
            };
            assert(block_segment(dktail, b, rounds) =~= block_segment(dec_keys, b + 1, rounds));
            assert(block_segment(ektail, b, rounds) =~= block_segment(enc_keys, b + 1, rounds));
            assert(block_segment(dec_keys, b + 1, rounds) == block_segment(
                enc_keys,
                b + 1,
                rounds,
            ).reverse());
        };
        let cb = spec_cipher_block(rf, block, ekb);
        let itail = spec_execute_rounds(rf, tail, block_size, ektail, rounds);
        let inner = spec_execute_rounds(rf, buffer, block_size, enc_keys, rounds);
        assert(inner == cb + itail);
        lemma_cipher_block_len(rf, block, ekb);
        assert((cb + itail).take(block_size as int) =~= cb);
        assert((cb + itail).skip(block_size as int) =~= itail);
        lemma_cipher_block_invert(rf, block, ekb);
        assert(spec_cipher_block(rf, cb, dkb) == block);
        assert(tail.len() == ((nblocks - 1) as nat) * block_size) by (nonlinear_arith)
            requires
                nblocks >= 1,
                tail.len() == buffer.len() - block_size,
                buffer.len() == nblocks * block_size,
        ;
        assert(ektail.len() == ((nblocks - 1) as nat) * rounds) by (nonlinear_arith)
            requires
                nblocks >= 1,
                rounds <= enc_keys.len(),
                ektail.len() == enc_keys.len() - rounds,
                enc_keys.len() == nblocks * rounds,
        ;
        lemma_engine_inverts(rf, tail, block_size, rounds, (nblocks - 1) as nat, ektail, dktail);
        assert(spec_execute_rounds(rf, inner, block_size, dec_keys, rounds) == block + tail);
        assert(block + tail =~= buffer);
    }
}

/// The engine is deterministic: its output is a function of the buffer, the
/// block size, the key sequence, the round function and the round count
/// alone, so two runs over identical inputs give byte-identical outputs.
pub proof fn lemma_engine_deterministic<F: RoundFunction>(
    rf: &F,
    buffer: Seq<u8>,
    block_size: nat,
    keys: Seq<Seq<u8>>,
    rounds: nat,
    first: Seq<u8>,
    second: Seq<u8>,
)
    requires
        first == spec_execute_rounds(rf, buffer, block_size, keys, rounds),
        second == spec_execute_rounds(rf, buffer, block_size, keys, rounds),
    ensures
        first == second,
{
}

/// The full round trip: enciphering a message of any length with PKCS#7
/// padding and then deciphering with the key sequence reversed block by
/// block restores the message exactly, for every round function, every even
/// block size up to 256 and every round count — except for block size 256
/// on a message whose length is a multiple of 256, where the padding count
/// does not fit in its tag byte.
pub proof fn lemma_cipher_decipher_round_trip<F: RoundFunction>(
    rf: &F,
    message: Seq<u8>,
    block_size: nat,
    rounds: nat,
    enc_keys: Seq<Seq<u8>>,
    dec_keys: Seq<Seq<u8>>,
)
    requires
        0 < block_size <= 256,
        block_size % 2 == 0,
        rounds >= 1,
        spec_pad_len(message, block_size) <= 255,
        enc_keys.len() == total_keys(
            spec_add_padding(message, block_size).len(),
            block_size,
            rounds,
        ),
        blockwise_reversed(enc_keys, dec_keys, rounds),
    ensures
        spec_remove_padding(
            spec_execute_rounds(
                rf,
                spec_execute_rounds(
                    rf,
                    spec_add_padding(message, block_size),
                    block_size,
                    enc_keys,
                    rounds,
                ),
                block_size,
                dec_keys,
                rounds,
            ),
        ) == Some(message),
{
    let padded = spec_add_padding(message, block_size);
    lemma_padded_len_multiple(message, block_size);
    lemma_fundamental_div_mod(padded.len() as int, block_size as int);
    let nblocks = padded.len() / block_size;
    assert(padded.len() == nblocks * block_size);
    lemma_engine_inverts(rf, padded, block_size, rounds, nblocks, enc_keys, dec_keys);
    lemma_padding_round_trip(message, block_size);
}

/// Returns the enciphered message: the message is padded by `padder` to a
/// whole number of blocks, and the round engine is run over the result.
pub fn cipher<P: Padder, K: KeySource, F: RoundFunction>(
    message: &[u8],
    block_size: usize,
    padder: &P,
    key_source: &mut K,
    round_function: &F,
    rounds: usize,
) -> (ciphertext: Vec<u8>)
    requires
        0 < block_size,
        block_size % 2 == 0,
        padder.pad_ok(block_size as nat),
    ensures
        ciphertext@ == spec_execute_rounds(
            round_function,
            padder.spec_pad(message@, block_size as nat),
            block_size as nat,
            stream_segment(
                *old(key_source),
                old(key_source).drawn(),
                total_keys(
                    padder.spec_pad(message@, block_size as nat).len(),
                    block_size as nat,
                    rounds as nat,
                ),
            ),
            rounds as nat,
        ),
        final(key_source).drawn() == old(key_source).drawn() + total_keys(
            padder.spec_pad(message@, block_size as nat).len(),
            block_size as nat,
            rounds as nat,
        ),
        forall|i: nat| #[trigger] final(key_source).key_at(i) == old(key_source).key_at(i),
{
    let mut result = padder.pad(message, block_size);
    execute_rounds(&mut result, block_size, key_source, round_function, rounds);
    result
}

/// Returns the deciphered message: the round engine is run over a copy of
/// the ciphertext (whose length must be a multiple of the block size), and
/// `padding_remover` then strips the padding, whose failure is propagated.
///
/// Deciphering inverts enciphering exactly when the key source replays, per
/// block, the enciphering keys in reverse order; see
/// [`lemma_cipher_decipher_round_trip`].
pub fn decipher<K: KeySource, F: RoundFunction, R: PadRemover>(
    message: &[u8],
    block_size: usize,
    key_source: &mut K,
    round_function: &F,
    rounds: usize,
    padding_remover: &R,
) -> (plaintext: Result<Vec<u8>, PaddingError>)
    requires
        0 < block_size,
        block_size % 2 == 0,
        message@.len() % block_size as nat == 0,
    ensures
        ({
            let decrypted = spec_execute_rounds(
                round_function,
                message@,
                block_size as nat,
                stream_segment(
                    *old(key_source),
                    old(key_source).drawn(),
                    total_keys(message@.len(), block_size as nat, rounds as nat),
                ),
                rounds as nat,
            );
            match plaintext {
                Ok(p) => padding_remover.spec_unpad(decrypted) == Some(p@),
                Err(e) => padding_remover.spec_unpad(decrypted) is None && e.reason_spec()
                    == padding_remover.unpad_reason(decrypted),
            }
        }),
        final(key_source).drawn() == old(key_source).drawn() + total_keys(
            message@.len(),
            block_size as nat,
            rounds as nat,
        ),
        forall|i: nat| #[trigger] final(key_source).key_at(i) == old(key_source).key_at(i),
{
    let mut result: Vec<u8> = Vec::new();
    result.extend_from_slice(message);
    assert(result@ =~= message@);
    execute_rounds(&mut result, block_size, key_source, round_function, rounds);
    match padding_remover.unpad(&mut result) {
        Ok(()) => Ok(result),
        Err(e) => Err(e),
    }
}

} // verus!
