//! Label allocation.
//!
//! Each anchor kind draws from its own namespace: the spawn gets a reserved
//! arrow symbol, the door a reserved heart symbol, chapters sequential
//! decimal labels starting at 1, and warps sequential alphabetic words
//! starting at the second word of the alphabet.  The namespaces are disjoint,
//! so labels never collide across kinds.

use vstd::prelude::*;

verus! {

/// The reserved spawn label: the UTF-8 bytes of an arrow symbol.
pub open spec fn spawn_label() -> Seq<u8> {
    seq![0xe2u8, 0x86, 0xba]
}

/// The reserved door label: the UTF-8 bytes of a heart symbol.
pub open spec fn door_label() -> Seq<u8> {
    seq![0xe2u8, 0x99, 0xa5]
}

/// The reserved spawn label, as bytes.
pub fn spawn_label_bytes() -> (r: Vec<u8>)
    ensures
        r@ == spawn_label(),
{
    let r: Vec<u8> = vec![0xe2u8, 0x86, 0xba];
    assert(r@ =~= spawn_label());
    r
}

/// The reserved door label, as bytes.
pub fn door_label_bytes() -> (r: Vec<u8>)
    ensures
        r@ == door_label(),
{
    let r: Vec<u8> = vec![0xe2u8, 0x99, 0xa5];
    assert(r@ =~= door_label());
    r
}

/// The decimal digits of `n`, most significant first.
pub open spec fn dec_digits(n: nat) -> Seq<u8>
    decreases n,
{
    if n < 10 {
        seq![(0x30 + n) as u8]
    } else {
        dec_digits(n / 10) + seq![(0x30 + n % 10) as u8]
    }
}

/// The chapter label for one-based index `n`: its decimal digits.
pub fn dec_label(n: u64) -> (r: Vec<u8>)
    ensures
        r@ == dec_digits(n as nat),
{
    let mut out: Vec<u8> = Vec::new();
    dec_label_append(n, &mut out);
    out
}

/// Appends the decimal digits of `n`.
pub fn dec_label_append(n: u64, out: &mut Vec<u8>)
    ensures
        final(out)@ == old(out)@ + dec_digits(n as nat),
    decreases n,
{
    if n < 10 {
        out.push(0x30 + n as u8);
        proof {
            assert(out@ =~= old(out)@ + dec_digits(n as nat));
        }
    } else {
        dec_label_append(n / 10, out);
        out.push(0x30 + (n % 10) as u8);
        proof {
            assert(out@ =~= old(out)@ + dec_digits(n as nat));
        }
    }
}

/// The alphabetic word for zero-based index `n`: words run through the
/// single letters first, then two-letter words, in bijective base 26.
pub open spec fn alpha_word(n: nat) -> Seq<u8>
    decreases n,
{
    if n < 26 {
        seq![(0x41 + n) as u8]
    } else {
        alpha_word((n / 26 - 1) as nat) + seq![(0x41 + n % 26) as u8]
    }
}

/// The warp label for zero-based extraction index `i`: the alphabetic word
/// at position `i + 1`, skipping the alphabet's first word.
pub fn alpha_label(i: u64) -> (r: Vec<u8>)
    requires
        i < 0xffff_ffff,
    ensures
        r@ == alpha_word((i + 1) as nat),
{
    let mut out: Vec<u8> = Vec::new();
    push_alpha(i + 1, &mut out);
    out
}

/// Appends the alphabetic word at position `n`.
fn push_alpha(n: u64, out: &mut Vec<u8>)
    ensures
        final(out)@ == old(out)@ + alpha_word(n as nat),
    decreases n,
{
    if n < 26 {
        out.push(0x41 + n as u8);
        proof {
            assert(out@ =~= old(out)@ + alpha_word(n as nat));
        }
    } else {
        push_alpha(n / 26 - 1, out);
        out.push(0x41 + (n % 26) as u8);
        proof {
            assert(out@ =~= old(out)@ + alpha_word(n as nat));
        }
    }
}

/// Every byte of a decimal label is a digit, and the label is not empty.
pub proof fn lemma_dec_digits_shape(n: nat)
    ensures
        dec_digits(n).len() >= 1,
        forall|i: int| 0 <= i < dec_digits(n).len() ==> 0x30 <= #[trigger] dec_digits(n)[i]
            <= 0x39,
    decreases n,
{
    if n >= 10 {
        lemma_dec_digits_shape(n / 10);
    }
}

/// Every byte of an alphabetic word is an upper-case letter, and the word is
/// not empty.
pub proof fn lemma_alpha_word_shape(n: nat)
    ensures
        alpha_word(n).len() >= 1,
        forall|i: int| 0 <= i < alpha_word(n).len() ==> 0x41 <= #[trigger] alpha_word(n)[i]
            <= 0x5a,
    decreases n,
{
    if n >= 26 {
        lemma_alpha_word_shape((n / 26 - 1) as nat);
    }
}

/// Distinct indices get distinct decimal labels.
pub proof fn lemma_dec_digits_injective(a: nat, b: nat)
    requires
        a != b,
    ensures
        dec_digits(a) != dec_digits(b),
    decreases a + b,
{
    lemma_dec_digits_shape(a);
    lemma_dec_digits_shape(b);
    if a < 10 && b < 10 {
        assert(dec_digits(a)[0] != dec_digits(b)[0]);
    } else if a < 10 && b >= 10 {
        lemma_dec_digits_shape(b / 10);
        assert(dec_digits(b).len() >= 2);
    } else if a >= 10 && b < 10 {
        lemma_dec_digits_shape(a / 10);
        assert(dec_digits(a).len() >= 2);
    } else {
        if dec_digits(a) == dec_digits(b) {
            let da = dec_digits(a);
            let db = dec_digits(b);
            assert(da.last() == db.last());
            assert(a % 10 == b % 10);
            assert(da.drop_last() =~= dec_digits(a / 10));
            assert(db.drop_last() =~= dec_digits(b / 10));
            if a / 10 == b / 10 {
                assert(a == 10 * (a / 10) + a % 10);
                assert(b == 10 * (b / 10) + b % 10);
                assert(false);
            } else {
                lemma_dec_digits_injective(a / 10, b / 10);
                assert(false);
            }
        }
    }
}

/// Distinct indices get distinct alphabetic words.
pub proof fn lemma_alpha_word_injective(a: nat, b: nat)
    requires
        a != b,
    ensures
        alpha_word(a) != alpha_word(b),
    decreases a + b,
{
    lemma_alpha_word_shape(a);
    lemma_alpha_word_shape(b);
    if a < 26 && b < 26 {
        assert(alpha_word(a)[0] != alpha_word(b)[0]);
    } else if a < 26 && b >= 26 {
        lemma_alpha_word_shape((b / 26 - 1) as nat);
        assert(alpha_word(b).len() >= 2);
    } else if a >= 26 && b < 26 {
        lemma_alpha_word_shape((a / 26 - 1) as nat);
        assert(alpha_word(a).len() >= 2);
    } else {
        if alpha_word(a) == alpha_word(b) {
            let wa = alpha_word(a);
            let wb = alpha_word(b);
            assert(wa.last() == wb.last());
            assert(a % 26 == b % 26);
            assert(wa.drop_last() =~= alpha_word((a / 26 - 1) as nat));
            assert(wb.drop_last() =~= alpha_word((b / 26 - 1) as nat));
            if a / 26 == b / 26 {
                assert(a == 26 * (a / 26) + a % 26);
                assert(b == 26 * (b / 26) + b % 26);
                assert(false);
            } else {
                lemma_alpha_word_injective((a / 26 - 1) as nat, (b / 26 - 1) as nat);
                assert(false);
            }
        }
    }
}

/// Labels of different namespaces never collide: decimal labels, alphabetic
/// words, the spawn label and the door label are pairwise distinct.
pub proof fn lemma_namespaces_disjoint(a: nat, b: nat)
    ensures
        dec_digits(a) != alpha_word(b),
        dec_digits(a) != spawn_label(),
        dec_digits(a) != door_label(),
        alpha_word(b) != spawn_label(),
        alpha_word(b) != door_label(),
        spawn_label() != door_label(),
{
    lemma_dec_digits_shape(a);
    lemma_alpha_word_shape(b);
    assert(dec_digits(a)[0] != alpha_word(b)[0]);
    assert(dec_digits(a)[0] != spawn_label()[0]);
    assert(dec_digits(a)[0] != door_label()[0]);
    assert(alpha_word(b)[0] != spawn_label()[0]);
    assert(alpha_word(b)[0] != door_label()[0]);
    assert(spawn_label()[1] != door_label()[1]);
}

} // verus!
