//! The illustrative keystream of the encrypted-channel demo and its hex
//! rendering.

use vstd::prelude::*;
use vstd::string::StringSliceAdditionalSpecFns;

verus! {

/// The byte mixed into position `i` of the keystream: the low byte of `i * 37`.
pub open spec fn position_mask(i: int) -> u8 {
    ((i * 37) % 256) as u8
}

/// Byte `i` of the ciphertext of `text` under `key`.
pub open spec fn cipher_byte(text: Seq<u8>, key: Seq<u8>, i: int) -> u8 {
    text[i] ^ key[i % key.len() as int] ^ position_mask(i)
}

/// The ciphertext of `text` under `key`: one byte per text byte.
pub open spec fn spec_cipher(text: Seq<u8>, key: Seq<u8>) -> Seq<u8> {
    Seq::new(text.len(), |i: int| cipher_byte(text, key, i))
}

/// The length of the keys the demo draws.
pub const KEY_LEN: usize = 32;

/// Encrypts `bytes`: byte `i` is xored with the key byte `i % key.len()` and
/// with the low byte of `i * 37`. The same call decrypts.
pub fn cipher_bytes(bytes: &[u8], key: &[u8]) -> (out: Vec<u8>)
    requires
        key@.len() > 0 || bytes@.len() == 0,
    ensures
        out@ == spec_cipher(bytes@, key@),
{
    let n = bytes.len();
    let mut out: Vec<u8> = Vec::new();
    let mut mask: u8 = 0;
    let mut i: usize = 0;
    while i < n
        invariant
            n == bytes@.len(),
            key@.len() > 0 || n == 0,
            i <= n,
            mask == position_mask(i as int),
            out@ =~= spec_cipher(bytes@, key@).take(i as int),
        decreases n - i,
    {
        let k = key[i % key.len()];
        out.push(bytes[i] ^ k ^ mask);
        assert(position_mask(i + 1) == ((mask as int + 37) % 256) as u8);
        mask = ((mask as u32 + 37) % 256) as u8;
        i = i + 1;
    }
    out
}

/// Encrypts the UTF-8 bytes of `text` (see `cipher_bytes`).
pub fn enc_cipher(text: &str, key: &[u8]) -> (out: Vec<u8>)
    requires
        key@.len() > 0 || text.spec_bytes().len() == 0,
    ensures
        out@ == spec_cipher(text.spec_bytes(), key@),
{
    cipher_bytes(text.as_bytes(), key)
}

/// Encrypting twice under the same key gives the text back: the cipher is its
/// own inverse, so the receiving side of the channel decrypts with the same
/// call.
pub proof fn lemma_cipher_involution(text: Seq<u8>, key: Seq<u8>)
    requires
        key.len() > 0 || text.len() == 0,
    ensures
        spec_cipher(spec_cipher(text, key), key) == text,
{
    let once = spec_cipher(text, key);
    let twice = spec_cipher(once, key);
    assert forall|i: int| 0 <= i < text.len() implies #[trigger] twice[i] == text[i] by {
        let a = text[i];
        let b = key[i % key.len() as int];
        let c = position_mask(i);
        assert(((a ^ b ^ c) ^ b ^ c) == a) by (bit_vector);
    }
    assert(twice =~= text);
}

/// The lowercase hex digit of a nibble.
pub open spec fn hex_char(n: int) -> char {
    if n < 10 {
        (n + 48) as char
    } else {
        (n + 87) as char
    }
}

/// The two lowercase hex digits of a byte, high nibble first.
pub open spec fn hex_pair(b: u8) -> Seq<char> {
    seq![hex_char(b as int / 16), hex_char(b as int % 16)]
}

/// The lowercase hex digits of a byte string, two per byte, with nothing
/// between them.
pub open spec fn hex_string(bytes: Seq<u8>) -> Seq<char>
    decreases bytes.len(),
{
    if bytes.len() == 0 {
        Seq::empty()
    } else {
        hex_string(bytes.drop_last()) + hex_pair(bytes.last())
    }
}

pub(crate) fn hex_digit(n: u8) -> (s: &'static str)
    requires
        n < 16,
    ensures
        s@ == seq![hex_char(n as int)],
{
    match n {
        0 => { proof { reveal_strlit("0"); } "0" },
        1 => { proof { reveal_strlit("1"); } "1" },
        2 => { proof { reveal_strlit("2"); } "2" },
        3 => { proof { reveal_strlit("3"); } "3" },
        4 => { proof { reveal_strlit("4"); } "4" },
        5 => { proof { reveal_strlit("5"); } "5" },
        6 => { proof { reveal_strlit("6"); } "6" },
        7 => { proof { reveal_strlit("7"); } "7" },
        8 => { proof { reveal_strlit("8"); } "8" },
        9 => { proof { reveal_strlit("9"); } "9" },
        10 => { proof { reveal_strlit("a"); } "a" },
        11 => { proof { reveal_strlit("b"); } "b" },
        12 => { proof { reveal_strlit("c"); } "c" },
        13 => { proof { reveal_strlit("d"); } "d" },
        14 => { proof { reveal_strlit("e"); } "e" },
        _ => { proof { reveal_strlit("f"); } "f" },
    }
}

/// Appends the two hex digits of `b` to `out`.
fn push_hex_pair(out: &mut String, b: u8)
    ensures
        final(out)@ == old(out)@ + hex_pair(b),
{
    out.append(hex_digit(b / 16));
    out.append(hex_digit(b % 16));
}

/// The byte as two lowercase hex digits, as `format!("{:02x}", b)` writes it.
pub fn hex_byte(b: u8) -> (s: String)
    ensures
        s@ == hex_pair(b),
{
    let mut s = String::new();
    push_hex_pair(&mut s, b);
    s
}

/// The key as lowercase hex, two digits per byte.
pub fn key_hex(key: &[u8]) -> (s: String)
    ensures
        s@ == hex_string(key@),
{
    let mut s = String::new();
    let mut i: usize = 0;
    while i < key.len()
        invariant
            i <= key@.len(),
            s@ == hex_string(key@.take(i as int)),
        decreases key@.len() - i,
    {
        push_hex_pair(&mut s, key[i]);
        assert(key@.take(i + 1).drop_last() =~= key@.take(i as int));
        i = i + 1;
    }
    assert(key@.take(key@.len() as int) =~= key@);
    s
}


/// Joins tokens with one space between neighbours.
pub open spec fn join_spaced(tokens: Seq<Seq<char>>) -> Seq<char>
    decreases tokens.len(),
{
    if tokens.len() == 0 {
        Seq::empty()
    } else if tokens.len() == 1 {
        tokens[0]
    } else {
        join_spaced(tokens.drop_last()) + seq![' '] + tokens.last()
    }
}

/// Token `i` of the scramble animation: the real hex of ciphertext byte `i`
/// once the reveal has reached it, two noise digits before that.
pub open spec fn scramble_token(cipher: Seq<u8>, step: int, noise: Seq<u8>, i: int) -> Seq<char> {
    if i <= step {
        hex_pair(cipher[i])
    } else {
        seq![hex_char(noise[2 * i] as int), hex_char(noise[2 * i + 1] as int)]
    }
}

/// All tokens of the scramble animation at reveal step `step`.
pub open spec fn scramble_tokens(cipher: Seq<u8>, step: int, noise: Seq<u8>) -> Seq<Seq<char>> {
    Seq::new(cipher.len(), |i: int| scramble_token(cipher, step, noise, i))
}

/// One frame of the scramble animation of the encrypted-channel demo: the
/// ciphertext of `text` under `key` as space-separated hex bytes, where the
/// bytes after position `step` still show noise digits. The two noise
/// nibbles of position `i` are `noise[2 * i]` and `noise[2 * i + 1]`.
pub fn render_now(text: &str, key: &[u8], step: usize, noise: &[u8]) -> (s: String)
    requires
        key@.len() > 0 || text.spec_bytes().len() == 0,
        noise@.len() == 2 * text.spec_bytes().len(),
        forall|k: int| 0 <= k < noise@.len() ==> #[trigger] noise@[k] < 16,
    ensures
        s@ == join_spaced(
            scramble_tokens(spec_cipher(text.spec_bytes(), key@), step as int, noise@),
        ),
{
    let target = enc_cipher(text, key);
    let ghost tokens = scramble_tokens(target@, step as int, noise@);
    let noise_len = noise.len();
    let mut s = String::new();
    let mut i: usize = 0;
    while i < target.len()
        invariant
            noise_len == noise@.len(),
            i <= target@.len(),
            noise@.len() == 2 * target@.len(),
            forall|k: int| 0 <= k < noise@.len() ==> #[trigger] noise@[k] < 16,
            tokens == scramble_tokens(target@, step as int, noise@),
            s@ == join_spaced(tokens.take(i as int)),
        decreases target@.len() - i,
    {
        let ghost before = s@;
        if i > 0 {
            proof { reveal_strlit(" "); }
            s.append(" ");
        }
        if i <= step {
            push_hex_pair(&mut s, target[i]);
        } else {
            let hi = noise[2 * i];
            let lo = noise[2 * i + 1];
            s.append(hex_digit(hi));
            s.append(hex_digit(lo));
        }
        assert(tokens.take(i + 1).drop_last() =~= tokens.take(i as int));
        assert(s@ =~= join_spaced(tokens.take(i + 1)));
        i = i + 1;
    }
    assert(tokens.take(target@.len() as int) =~= tokens);
    s
}

/// The next reveal step of the scramble animation: `None` once the step has
/// reached the ciphertext's length (the animation is done), else two bytes
/// further.
pub fn next_reveal_step(step: usize, len: usize) -> (next: Option<usize>)
    requires
        len < usize::MAX,
    ensures
        step >= len ==> next is None,
        step < len ==> next == Some((step + 2) as usize),
{
    if step >= len {
        None
    } else {
        Some(step + 2)
    }
}


/// The scramble animation settles on the ciphertext: once the reveal step has
/// reached the last byte, every token is the real hex of its byte, whatever
/// the noise.
pub proof fn lemma_scramble_settles(cipher: Seq<u8>, step: int, noise: Seq<u8>)
    requires
        step + 1 >= cipher.len(),
    ensures
        scramble_tokens(cipher, step, noise) == Seq::new(cipher.len(), |i: int| hex_pair(cipher[i])),
{
    assert(scramble_tokens(cipher, step, noise) =~= Seq::new(cipher.len(), |i: int| hex_pair(cipher[i])));
}


/// The scramble animation after `k` animation frames on a ciphertext of
/// `len` bytes, started from step 0: the reveal step and whether it is
/// done. Each frame that is not done renders the current step and then
/// moves on as `next_reveal_step` says.
pub open spec fn reveal_state(len: int, k: nat) -> (int, bool)
    decreases k,
{
    if k == 0 {
        (0, false)
    } else {
        let prev = reveal_state(len, (k - 1) as nat);
        if prev.1 {
            prev
        } else if prev.0 >= len {
            (prev.0, true)
        } else {
            (prev.0 + 2, false)
        }
    }
}

proof fn lemma_reveal_early(len: int, j: nat)
    requires
        0 <= len,
        j <= (len + 1) / 2,
    ensures
        reveal_state(len, j) == (2 * (j as int), false),
    decreases j,
{
    if j > 0 {
        lemma_reveal_early(len, (j - 1) as nat);
    }
}

proof fn lemma_reveal_stays_done(len: int, from: nat, k: nat)
    requires
        reveal_state(len, from).1,
        from <= k,
    ensures
        reveal_state(len, k) == reveal_state(len, from),
    decreases k - from,
{
    if k > from {
        lemma_reveal_stays_done(len, from, (k - 1) as nat);
    }
}

/// Typing starts the scramble and it always ends on the ciphertext: on a
/// ciphertext of `len` bytes, animation frame `ceil(len / 2) + 1` renders
/// every byte as its real hex (whatever the noise) and marks the animation
/// done; the frames before it are still running, and nothing changes after.
pub proof fn lemma_reveal_completes(cipher: Seq<u8>, noise: Seq<u8>, k: nat)
    ensures
        ({
            let len = cipher.len() as int;
            let last = ((len + 1) / 2 + 1) as nat;
            &&& !reveal_state(len, (last - 1) as nat).1
            &&& reveal_state(len, last).1
            &&& scramble_tokens(cipher, reveal_state(len, (last - 1) as nat).0, noise) == Seq::new(
                cipher.len(),
                |i: int| hex_pair(cipher[i]),
            )
            &&& k >= last ==> reveal_state(len, k) == reveal_state(len, last)
        }),
{
    let len = cipher.len() as int;
    let last = ((len + 1) / 2 + 1) as nat;
    lemma_reveal_early(len, (last - 1) as nat);
    lemma_scramble_settles(cipher, reveal_state(len, (last - 1) as nat).0, noise);
    if k >= last {
        lemma_reveal_stays_done(len, last, k);
    }
}


/// `n` zero bytes.
pub open spec fn zero_bytes(n: nat) -> Seq<u8> {
    Seq::new(n, |k: int| 0u8)
}

/// The keystream's structure: ciphertext byte `i` depends on the key only
/// through key byte `i % key.len()` (changing keys changes byte `i` by
/// exactly the change of that key byte), on the text only through text byte
/// `i` (likewise), and with text and key all zero it is the low byte of
/// `37 * i`. Together: byte `i` is `text[i] ^ key[i % key.len()] ^ (37 * i
/// mod 256)`.
pub proof fn lemma_keystream(text: Seq<u8>, other: Seq<u8>, key: Seq<u8>, key2: Seq<u8>)
    requires
        key.len() > 0,
        key2.len() == key.len(),
        other.len() == text.len(),
    ensures
        spec_cipher(text, key).len() == text.len(),
        forall|i: int|
            0 <= i < text.len() ==> #[trigger] spec_cipher(text, key)[i] ^ spec_cipher(text, key2)[i]
                == key[i % key.len() as int] ^ key2[i % key.len() as int],
        forall|i: int|
            0 <= i < text.len() ==> #[trigger] spec_cipher(text, key)[i] ^ spec_cipher(other, key)[i]
                == text[i] ^ other[i],
        forall|i: int|
            0 <= i < text.len() ==> #[trigger] spec_cipher(zero_bytes(text.len()), zero_bytes(key.len()))[i]
                == ((37 * i) % 256) as u8,
{
    let zt = zero_bytes(text.len());
    let zk = zero_bytes(key.len());
    assert forall|i: int| 0 <= i < text.len() implies #[trigger] spec_cipher(text, key)[i]
        ^ spec_cipher(text, key2)[i] == key[i % key.len() as int] ^ key2[i % key.len() as int] by {
        let a = text[i];
        let b = key[i % key.len() as int];
        let d = key2[i % key.len() as int];
        let c = position_mask(i);
        assert((a ^ b ^ c) ^ (a ^ d ^ c) == b ^ d) by (bit_vector);
    }
    assert forall|i: int| 0 <= i < text.len() implies #[trigger] spec_cipher(text, key)[i]
        ^ spec_cipher(other, key)[i] == text[i] ^ other[i] by {
        let a = text[i];
        let e = other[i];
        let b = key[i % key.len() as int];
        let c = position_mask(i);
        assert((a ^ b ^ c) ^ (e ^ b ^ c) == a ^ e) by (bit_vector);
    }
    assert forall|i: int| 0 <= i < text.len() implies #[trigger] spec_cipher(zt, zk)[i] == ((37 * i)
        % 256) as u8 by {
        let c = position_mask(i);
        assert(zt[i] == 0u8);
        assert(zk[i % key.len() as int] == 0u8);
        assert((0u8 ^ 0u8 ^ c) == c) by (bit_vector);
    }
}

/// A scramble frame at reveal step `s` shows, for every byte up to `s`, the
/// real hex of the ciphertext byte, and for every byte after `s` its two
/// noise digits: one token per ciphertext byte.
pub proof fn lemma_scramble_reveals_up_to_step(cipher: Seq<u8>, step: int, noise: Seq<u8>)
    ensures
        scramble_tokens(cipher, step, noise).len() == cipher.len(),
        forall|i: int|
            0 <= i < cipher.len() && i <= step ==> #[trigger] scramble_tokens(cipher, step, noise)[i]
                == hex_pair(cipher[i]),
        forall|i: int|
            0 <= i < cipher.len() && step < i ==> #[trigger] scramble_tokens(cipher, step, noise)[i]
                == seq![hex_char(noise[2 * i] as int), hex_char(noise[2 * i + 1] as int)],
{
}

/// The layout of the scramble text: with two-character tokens, token `i`
/// sits at characters `3i` and `3i + 1`, each followed by a space except the
/// last, and nothing else is written.
pub proof fn lemma_join_layout(tokens: Seq<Seq<char>>)
    requires
        forall|i: int| 0 <= i < tokens.len() ==> #[trigger] tokens[i].len() == 2,
    ensures
        tokens.len() == 0 ==> join_spaced(tokens).len() == 0,
        tokens.len() > 0 ==> join_spaced(tokens).len() == 3 * tokens.len() - 1,
        forall|i: int|
            0 <= i < tokens.len() ==> #[trigger] tokens[i][0] == join_spaced(tokens)[3 * i]
                && tokens[i][1] == join_spaced(tokens)[3 * i + 1],
        forall|i: int|
            0 <= i < tokens.len() - 1 ==> #[trigger] tokens[i].len() == 2 && join_spaced(tokens)[3 * i
                + 2] == ' ',
    decreases tokens.len(),
{
    let n = tokens.len();
    if n >= 2 {
        let init = tokens.drop_last();
        lemma_join_layout(init);
        let j0 = join_spaced(init);
        let j = join_spaced(tokens);
        assert(j == j0 + seq![' '] + tokens.last());
        assert forall|i: int| 0 <= i < n implies #[trigger] tokens[i][0] == j[3 * i] && tokens[i][1]
            == j[3 * i + 1] by {
            if i < n - 1 {
                assert(init[i] == tokens[i]);
            }
        }
        assert forall|i: int| 0 <= i < n - 1 implies #[trigger] tokens[i].len() == 2 && j[3 * i + 2]
            == ' ' by {
            if i < n - 2 {
                assert(init[i] == tokens[i]);
            }
        }
    }
}

} // verus!
