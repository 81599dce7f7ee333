//! Reversible PKCS#7-style byte padding.
//!
//! [`add_padding`] extends a message to the next multiple of the block size;
//! a message whose length already is a multiple still receives a full block
//! of padding, so removal is always unambiguous.  Every padding byte carries
//! the number of padding bytes appended.  [`remove_padding`] validates and
//! strips the padding again, reporting a [`PaddingError`] on malformed input.

use vstd::prelude::*;
use vstd::string::StringExecFns;
use vstd::arithmetic::div_mod::{
    lemma_fundamental_div_mod, lemma_mod_multiples_basic, lemma_small_mod,
};
use vstd::arithmetic::mul::lemma_mul_is_distributive_add;

verus! {

/// An anomaly found while removing padding from a message, carrying a
/// human-readable reason.
#[derive(Debug)]
pub struct PaddingError(String);

impl PaddingError {
    /// The reason text, as a sequence of characters.
    pub closed spec fn reason_spec(&self) -> Seq<char> {
        self.0@
    }

    /// The human-readable reason for the failure.
    pub fn reason(&self) -> (text: String)
        ensures
            text@ == self.reason_spec(),
    {
        self.0.clone()
    }
}

/// How many padding bytes `add_padding` appends: the distance to the next
/// multiple of the block size, or a full block when the message length is a
/// multiple already.  Ranges over `1..=block_size` for a positive block size.
pub open spec fn spec_pad_len(message: Seq<u8>, block_size: nat) -> int {
    block_size - message.len() % block_size
}

/// The padded message: the original followed by `spec_pad_len` bytes, each
/// holding the padding length itself, truncated to one byte.
pub open spec fn spec_add_padding(message: Seq<u8>, block_size: nat) -> Seq<u8> {
    let pad = spec_pad_len(message, block_size);
    message + Seq::new(pad as nat, |i: int| ((pad % 256) as u8))
}

/// The length of the longest suffix of `message` whose bytes all equal `v`.
pub open spec fn trailing_run(message: Seq<u8>, v: u8) -> nat
    decreases message.len(),
{
    if message.len() == 0 || message.last() != v {
        0
    } else {
        1 + trailing_run(message.drop_last(), v)
    }
}

/// What removing padding yields: `Some` of the unpadded message when the
/// last byte is a nonzero count `pad` and the message ends in at least `pad`
/// copies of it, `None` otherwise.
pub open spec fn spec_remove_padding(message: Seq<u8>) -> Option<Seq<u8>> {
    if message.len() == 0 {
        None
    } else if message.last() == 0 {
        None
    } else if trailing_run(message, message.last()) >= message.last() as nat {
        Some(message.take(message.len() - message.last() as int))
    } else {
        None
    }
}

/// What is left in the buffer when `remove_padding` fails on a malformed
/// padding run: the bytes are popped one at a time, so the run of trailing
/// copies of the tag is gone, and so is the first mismatching byte below it.
pub open spec fn spec_malformed_rest(message: Seq<u8>) -> Seq<u8> {
    let run = trailing_run(message, message.last()) as int;
    if message.len() - run >= 1 {
        message.take(message.len() - run - 1)
    } else {
        Seq::empty()
    }
}

/// Produces a padded message to fit the given block size, PKCS#7 style.
///
/// Only block sizes from 1 to 256 keep the padding count representable in a
/// single byte; note that a count of 256 is stored truncated, as byte 0.
pub fn add_padding(message: &[u8], block_size: usize) -> (padded: Vec<u8>)
    requires
        0 < block_size <= 256,
    ensures
        padded@ == spec_add_padding(message@, block_size as nat),
{
    let needed: usize = block_size - message.len() % block_size;
    let tag: u8 = (needed % 256) as u8;
    let mut padded: Vec<u8> = Vec::new();
    padded.extend_from_slice(message);
    assert(padded@ =~= message@ + Seq::new(0, |j: int| tag));
    let mut i: usize = 0;
    while i < needed
        invariant
            i <= needed,
            needed == spec_pad_len(message@, block_size as nat),
            tag == ((spec_pad_len(message@, block_size as nat) % 256) as u8),
            padded@ == message@ + Seq::new(i as nat, |j: int| tag),
        decreases needed - i,
    {
        padded.push(tag);
        assert(padded@ =~= message@ + Seq::new((i + 1) as nat, |j: int| tag));
        i += 1;
    }
    assert(padded@ =~= spec_add_padding(message@, block_size as nat));
    padded
}

/// The last `count` bytes of `message` all equal `v` exactly when the
/// trailing run of `v` covers them: popping them off shortens the run.
proof fn lemma_trailing_run_split(message: Seq<u8>, v: u8, count: nat)
    requires
        count <= message.len(),
        forall|i: int| message.len() - count <= i < message.len() ==> message[i] == v,
    ensures
        trailing_run(message, v) == count + trailing_run(
            message.take(message.len() - count),
            v,
        ),
    decreases count,
{
    if count == 0 {
        assert(message.take(message.len() as int) =~= message);
    } else {
        assert(message.last() == v);
        assert(message.drop_last() =~= message.take(message.len() - 1));
        let shorter = message.drop_last();
        assert(forall|i: int|
            shorter.len() - (count - 1) <= i < shorter.len() ==> shorter[i] == v);
        lemma_trailing_run_split(shorter, v, (count - 1) as nat);
        assert(shorter.take(shorter.len() - (count - 1)) =~= message.take(
            message.len() - count,
        ));
    }
}

/// Deletes padding from a message, PKCS#7 style, truncating it in place.
///
/// Fails when the message is empty, when the final byte (the padding count)
/// is zero, and when the message does not end in `count` copies of the count
/// byte; in the last case the bytes popped before the mismatch was found
/// stay removed.
pub fn remove_padding(message: &mut Vec<u8>) -> (result: Result<(), PaddingError>)
    ensures
        result is Ok <==> spec_remove_padding(old(message)@) is Some,
        (match result {
            Ok(()) => spec_remove_padding(old(message)@) == Some(final(message)@),
            Err(e) => {
                &&& spec_remove_padding(old(message)@) is None
                &&& (old(message)@.len() == 0 ==> e.reason_spec() == "Empty message."@
                    && final(message)@ == old(message)@)
                &&& (old(message)@.len() > 0 && old(message)@.last() == 0 ==> e.reason_spec()
                    == "Padding number cannot be 0."@ && final(message)@ == old(message)@)
                &&& (old(message)@.len() > 0 && old(message)@.last() != 0 ==> e.reason_spec()
                    == "Malformed padding."@ && final(message)@ == spec_malformed_rest(
                    old(message)@,
                ))
            },
        }),
{
    let ghost m0 = message@;
    let n = message.len();
    if n == 0 {
        return Err(PaddingError(String::from_str("Empty message.")));
    }
    let padding: u8 = message[n - 1];
    if padding == 0 {
        return Err(PaddingError(String::from_str("Padding number cannot be 0.")));
    }
    let mut popped: usize = 0;
    while popped < padding as usize
        invariant
            old(message)@ == m0,
            n == m0.len(),
            1 <= n,
            popped <= n,
            popped <= padding as usize,
            padding == m0.last(),
            padding > 0,
            message@ == m0.take(n - popped),
            forall|i: int| n - popped <= i < n ==> m0[i] == padding,
        decreases padding as int - popped,
    {
        match message.pop() {
            Some(value) => {
                if value != padding {
                    proof {
                        lemma_trailing_run_split(m0, padding, popped as nat);
                        assert(m0.take(n - popped).last() == m0[n - popped - 1]);
                        assert(trailing_run(m0.take(n - popped), padding) == 0);
                        assert(trailing_run(m0, m0.last()) == popped);
                        assert(spec_remove_padding(m0) is None);
                        assert(spec_malformed_rest(m0) =~= m0.take(n - popped - 1));
                        assert(message@ =~= m0.take(n - popped - 1));
                    }
                    return Err(PaddingError(String::from_str("Malformed padding.")));
                }
                assert(value == m0[n - popped - 1]);
                assert(message@ =~= m0.take(n - (popped + 1)));
            },
            None => {
                proof {
                    assert(popped == n);
                    lemma_trailing_run_split(m0, padding, popped as nat);
                    assert(m0.take(0).len() == 0);
                    assert(trailing_run(m0, m0.last()) == n);
                    assert(spec_remove_padding(m0) is None);
                    assert(spec_malformed_rest(m0) =~= Seq::<u8>::empty());
                    assert(message@ =~= Seq::<u8>::empty());
                }
                return Err(PaddingError(String::from_str("Malformed padding.")));
            },
        }
        popped += 1;
    }
    proof {
        lemma_trailing_run_split(m0, padding, padding as nat);
        assert(trailing_run(m0, m0.last()) >= padding as nat);
        assert(spec_remove_padding(m0) == Some(message@));
    }
    Ok(())
}

/// Padding always extends the message to a multiple of the block size.
pub proof fn lemma_padded_len_multiple(message: Seq<u8>, block_size: nat)
    requires
        0 < block_size,
    ensures
        spec_add_padding(message, block_size).len() % block_size == 0,
{
    let q = message.len() as int / block_size as int;
    let pad = spec_pad_len(message, block_size);
    assert(1 <= pad <= block_size);
    assert(spec_add_padding(message, block_size).len() == message.len() + pad);
    lemma_fundamental_div_mod(message.len() as int, block_size as int);
    lemma_mul_is_distributive_add(block_size as int, q, 1);
    assert(spec_add_padding(message, block_size).len() == block_size * (q + 1));
    lemma_mod_multiples_basic(q + 1, block_size as int);
}

/// Removing the padding that `add_padding` appended restores the message
/// exactly, whenever the padding count fits in one byte — that is, except
/// for a block size of 256 on a message whose length is a multiple of 256.
pub proof fn lemma_padding_round_trip(message: Seq<u8>, block_size: nat)
    requires
        0 < block_size <= 256,
        spec_pad_len(message, block_size) <= 255,
    ensures
        spec_remove_padding(spec_add_padding(message, block_size)) == Some(message),
{
    let pad = spec_pad_len(message, block_size);
    let padded = spec_add_padding(message, block_size);
    lemma_small_mod(pad as nat, 256);
    let tag = (pad % 256) as u8;
    assert(tag as int == pad);
    assert(padded.len() == message.len() + pad);
    assert(padded.last() == tag);
    assert(forall|i: int| padded.len() - pad <= i < padded.len() ==> padded[i] == tag);
    lemma_trailing_run_split(padded, tag, pad as nat);
    assert(trailing_run(padded, padded.last()) >= padded.last() as nat);
    assert(padded.take(padded.len() - padded.last() as int) =~= message);
}

/// A message whose length is already a multiple of the block size receives
/// a full extra block of padding.
pub proof fn lemma_full_block_padding(message: Seq<u8>, block_size: nat)
    requires
        0 < block_size <= 256,
        message.len() % block_size == 0,
    ensures
        spec_add_padding(message, block_size).len() == message.len() + block_size,
{
}

/// The PKCS#7 scheme as a pluggable collaborator for `cipher` and
/// `decipher`.
pub struct Pkcs7;

impl crate::Padder for Pkcs7 {
    open spec fn pad_ok(&self, block_size: nat) -> bool {
        block_size <= 256
    }

    open spec fn spec_pad(&self, message: Seq<u8>, block_size: nat) -> Seq<u8> {
        spec_add_padding(message, block_size)
    }

    fn pad(&self, message: &[u8], block_size: usize) -> (padded: Vec<u8>) {
        let padded = add_padding(message, block_size);
        proof {
            lemma_padded_len_multiple(message@, block_size as nat);
        }
        padded
    }
}

impl crate::PadRemover for Pkcs7 {
    open spec fn spec_unpad(&self, message: Seq<u8>) -> Option<Seq<u8>> {
        spec_remove_padding(message)
    }

    open spec fn unpad_reason(&self, message: Seq<u8>) -> Seq<char> {
        if message.len() == 0 {
            "Empty message."@
        } else if message.last() == 0 {
            "Padding number cannot be 0."@
        } else {
            "Malformed padding."@
        }
    }

    fn unpad(&self, message: &mut Vec<u8>) -> (result: Result<(), PaddingError>) {
        remove_padding(message)
    }
}

} // verus!
