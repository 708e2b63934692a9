//! Encrypted parts of a font, told by the key of each byte.

use crate::text::{blanks_end, find_from, is_blank};
use crate::type1::crypt::{
    as_binary, clear_byte, decrypted, font_parts, hex_value, is_hex, key_at, linear,
};
use vstd::prelude::*;
use vstd::string::StringSliceAdditionalSpecFns;

verus! {

/// The cipher is the encryption of the text under these keys: each byte is
/// combined with the high byte of its key, and the next key is the sum of
/// the cipher byte and the key, times 52845, plus 22719, modulo 65536.
pub open spec fn encrypts(plain: Seq<u8>, cipher: Seq<u8>, keys: Seq<int>, key: int) -> bool {
    &&& cipher.len() == plain.len()
    &&& keys.len() == plain.len() + 1
    &&& keys[0] == key
    &&& forall|i: int| 0 <= i < keys.len() ==> 0 <= #[trigger] keys[i] < 0x1_0000
    &&& forall|i: int|
        0 <= i < plain.len() ==> keys[i + 1] == ((#[trigger] cipher[i] + keys[i]) * 52845 + 22719)
            % 0x1_0000
    &&& forall|i: int|
        0 <= i < plain.len() ==> #[trigger] cipher[i] == plain[i] ^ ((keys[i] / 0x100) as u8)
}

proof fn lemma_keys(plain: Seq<u8>, cipher: Seq<u8>, keys: Seq<int>, key: u16, i: int)
    requires
        encrypts(plain, cipher, keys, key as int),
        0 <= i <= plain.len(),
    ensures
        key_at(cipher, key, i) == keys[i],
    decreases i,
{
    if i > 0 {
        lemma_keys(plain, cipher, keys, key, i - 1);
        let k = keys[i - 1];
        let c = cipher[i - 1] as int;
        assert(cipher[i - 1] == cipher[i - 1]);
        lemma_next(c + k);
        assert(keys[i - 1 + 1] == ((cipher[i - 1] + keys[i - 1]) * 52845 + 22719) % 0x1_0000);
    }
}

proof fn lemma_next(x: int)
    ensures
        (x % 0x1_0000 * 52845 % 0x1_0000 + 22719) % 0x1_0000 == (x * 52845 + 22719) % 0x1_0000,
{
    vstd::arithmetic::div_mod::lemma_mul_mod_noop_left(x, 52845, 0x1_0000);
    vstd::arithmetic::div_mod::lemma_add_mod_noop(x * 52845, 22719, 0x1_0000);
}

/// Decrypting gives back the text of which the cipher is the encryption, less
/// the bytes that are dropped in front.
pub proof fn ciphers_are_decrypted(
    plain: Seq<u8>,
    cipher: Seq<u8>,
    keys: Seq<int>,
    key: u16,
    skip: int,
)
    requires
        encrypts(plain, cipher, keys, key as int),
        0 <= skip <= plain.len(),
    ensures
        decrypted(cipher, key, skip) == Some(plain.skip(skip)),
{
    assert forall|i: int| 0 <= i < plain.len() implies #[trigger] clear_byte(cipher, key, i)
        == plain[i] by {
        lemma_keys(plain, cipher, keys, key, i);
        let k: u16 = key_at(cipher, key, i);
        let p: u8 = plain[i];
        assert((k >> 8) == k / 0x100) by (bit_vector);
        let h: u8 = (k / 0x100) as u8;
        assert(cipher[i] == p ^ h);
        assert((p ^ h) ^ h == p) by (bit_vector);
    }
    assert(decrypted(cipher, key, skip)->0 =~= plain.skip(skip));
}

/// The part of a font behind `eexec` is decrypted under the key 55665, and
/// four bytes of it are dropped; what stands before is left as it is.
pub proof fn private_part_is_decrypted(
    clear: Seq<u8>,
    plain: Seq<u8>,
    cipher: Seq<u8>,
    keys: Seq<int>,
)
    requires
        encrypts(plain, cipher, keys, 55665),
        find_from(clear + "eexec".spec_bytes() + seq![0x0Au8] + cipher, "eexec".spec_bytes(), 0)
            == Some(clear.len() as int),
        clear.len() > 0 && clear[0] != 0x80,
        cipher.len() >= 8,
        !is_blank(cipher[0]),
        exists|i: int| 0 <= i < 4 && hex_value(#[trigger] cipher[i]) is None,
    ensures
        font_parts(clear + "eexec".spec_bytes() + seq![0x0Au8] + cipher) == Some(
            (clear, plain.skip(4)),
        ),
{
    let s = clear + "eexec".spec_bytes() + seq![0x0Au8] + cipher;
    reveal_strlit("eexec");
    assert("eexec".is_ascii());
    assert("eexec".spec_bytes().len() == 5);
    let at = clear.len() as int;
    assert(s[0] == clear[0]);
    assert(linear(s) == Some(s));
    assert(s[at + 5] == 0x0A && s[at + 6] == cipher[0]);
    reveal_with_fuel(blanks_end, 3);
    assert(blanks_end(s, at + 5) == at + 6);
    assert(s.skip(at + 6) =~= cipher);
    assert(!is_hex(cipher));
    assert(as_binary(cipher) == cipher);
    assert(s.take(at) =~= clear);
    ciphers_are_decrypted(plain, cipher, keys, 55665, 4);
}

} // verus!
