use portfolio::cipher::{cipher_bytes, enc_cipher, hex_byte, key_hex, next_reveal_step, render_now, KEY_LEN};

#[test]
fn cipher_formula_exact_bytes() {
    // byte i: text[i] ^ key[i % len] ^ ((i * 37) & 0xff)
    let out = enc_cipher("abc", &[0x10, 0x20]);
    assert_eq!(out, vec![b'a' ^ 0x10 ^ 0, b'b' ^ 0x20 ^ 37, b'c' ^ 0x10 ^ 74]);
}

#[test]
fn cipher_position_mask_wraps_at_256() {
    let text = vec![0u8; 8];
    let out = cipher_bytes(&text, &[0]);
    assert_eq!(out, vec![0, 37, 74, 111, 148, 185, 222, 3]);
}

#[test]
fn cipher_empty_text_with_empty_key() {
    assert_eq!(enc_cipher("", &[]), Vec::<u8>::new());
}

#[test]
fn cipher_uses_utf8_bytes() {
    let out = enc_cipher("é", &[0]);
    assert_eq!(out, vec![0xc3, 0xa9 ^ 37]);
}

#[test]
fn cipher_decrypts_with_same_call() {
    let key: Vec<u8> = (0..KEY_LEN as u32).map(|i| (i * 7 + 3) as u8).collect();
    let text = "hello from the metal";
    let once = enc_cipher(text, &key);
    let twice = cipher_bytes(&once, &key);
    assert_eq!(twice, text.as_bytes().to_vec());
    assert_ne!(once, text.as_bytes().to_vec());
}

#[test]
fn hex_byte_matches_format() {
    for b in [0u8, 9, 10, 15, 16, 0xa0, 0x7f, 0xff] {
        assert_eq!(hex_byte(b), format!("{:02x}", b));
    }
}

#[test]
fn key_hex_concatenates_pairs() {
    assert_eq!(key_hex(&[0xde, 0xad, 0x01]), "dead01");
    assert_eq!(key_hex(&[]), "");
}

#[test]
fn render_now_reveals_up_to_step() {
    // "hi" under key [1]: 'h' ^ 1 ^ 0 = 0x69, 'i' ^ 1 ^ 37 = 0x4d
    let noise = [1u8, 2, 10, 15];
    assert_eq!(render_now("hi", &[1], 0, &noise), "69 af");
    assert_eq!(render_now("hi", &[1], 1, &noise), "69 4d");
    assert_eq!(render_now("hi", &[1], 5, &noise), "69 4d");
}

#[test]
fn render_now_empty_text() {
    assert_eq!(render_now("", &[1], 0, &[]), "");
}

#[test]
fn reveal_steps_by_two_until_done() {
    assert_eq!(next_reveal_step(0, 5), Some(2));
    assert_eq!(next_reveal_step(4, 5), Some(6));
    assert_eq!(next_reveal_step(6, 5), None);
    assert_eq!(next_reveal_step(0, 0), None);
}

#[test]
fn reveal_completes_after_half_length_plus_one_frames() {
    let key = [7u8, 200, 13];
    for text in ["", "a", "ab", "abc", "hello from the metal"] {
        let noise: Vec<u8> = (0..2 * text.len()).map(|k| (k % 16) as u8).collect();
        let full: Vec<String> = enc_cipher(text, &key).into_iter().map(hex_byte).collect();
        let full = full.join(" ");
        let (mut step, mut done, mut frames, mut shown) = (0usize, false, 0usize, String::new());
        while !done {
            shown = render_now(text, &key, step, &noise);
            frames += 1;
            match next_reveal_step(step, text.len()) {
                None => done = true,
                Some(n) => step = n,
            }
        }
        assert_eq!(frames, (text.len() + 1) / 2 + 1);
        assert_eq!(shown, full);
    }
}
