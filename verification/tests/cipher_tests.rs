use lattice::matrix::decrypt::{can_decrypt_bit, can_decrypt_char, decrypt_account, decrypt_bit, decrypt_char, decrypt_field};
use lattice::matrix::encrypt::{can_encrypt_char, encrypt_account, encrypt_bit, encrypt_char};
use lattice::matrix::keygen::generate_keys;
use lattice::matrix::{Equation, Matrix, Row};
use lattice::FIELD;

fn values(r: &Row) -> Vec<i64> {
    let mut v = Vec::new();
    for i in 0..r.len() {
        v.push(*r.index(i));
    }
    v
}

fn program_key() -> Vec<i64> {
    "secret".bytes().map(|b| b as i64).collect()
}

fn program_equation() -> Equation {
    let key = program_key();
    generate_keys(&key, 314159265, 100, key.len(), 2521)
}

#[test]
fn decrypt_bit_reads_distance() {
    assert_eq!(decrypt_bit(5, 5 + 1260, 2521), 1);
    assert_eq!(decrypt_bit(5, 8, 2521), 0);
    assert_eq!(decrypt_bit(-7, 100, 2521), 0);
    assert_eq!(decrypt_bit(0, 2521 - 3, 2521), 0);
    assert_eq!(decrypt_bit(0, -1262, 2521), 1);
}

#[test]
fn can_decrypt_bit_refuses_overflow() {
    assert!(can_decrypt_bit(0, 5, 2521));
    assert!(!can_decrypt_bit(i64::MIN, 5, 2521));
    assert!(!can_decrypt_bit(0, 5, 0));
    assert!(!can_decrypt_bit(0, i64::MIN, 7));
}

#[test]
fn encrypter_calls_sum_pseudo_random_runs() {
    let e = program_equation();
    let mut enc = encrypt_bit(&e);
    assert!(enc.can_call(1));
    let (row, v) = enc.call(1);
    assert_eq!(values(&row), vec![1507, 2080, 2234, 744, -598, -615]);
    assert_eq!(v, -773);
    let (row, v) = enc.call(0);
    assert_eq!(values(&row), vec![-1833, 1846, -1205, 115, 958, -1786]);
    assert_eq!(v, -1457);
    assert!(!enc.can_call(2));
}

#[test]
fn encrypter_refuses_short_equations() {
    let a = Matrix::from_slice(&[1, 2], 1);
    let r = Matrix::from_slice(&[3], 1);
    let e = Equation::from_matrices(a, r, 97);
    let enc = encrypt_bit(&e);
    assert!(!enc.can_call(0));
    assert!(!can_encrypt_char(&"a".to_string(), &enc));
}

#[test]
fn encrypt_char_then_decrypt_char() {
    let e = program_equation();
    let mut enc = encrypt_bit(&e);
    assert!(can_encrypt_char(&"A".to_string(), &enc));
    let (m, r) = encrypt_char(&e, "A".to_string(), &mut enc);
    assert_eq!(m.get_matrix_height(), 8);
    assert_eq!(m.num_rows(), 8);
    assert_eq!(values(m.index(0)), vec![1507, 2080, 2234, 744, -598, -615]);
    assert_eq!(r.to_text(), b"-2033 -197 -354 1791 -914 -446 2083 -1287".to_vec());
    let key = Matrix::from_slice(&program_key(), 6);
    assert!(can_decrypt_char(&m, &r, &key, 2521));
    assert_eq!(decrypt_char(m, r, &key, 2521).unwrap(), "A");
}

#[test]
fn encrypt_char_uses_first_byte_only() {
    let e = program_equation();
    let mut enc = encrypt_bit(&e);
    let (m, r) = encrypt_char(&e, "é".to_string(), &mut enc);
    let key = Matrix::from_slice(&program_key(), 6);
    assert!(decrypt_char(m, r, &key, 2521).is_err());
}

#[test]
fn can_encrypt_char_refuses_empty_text() {
    let e = program_equation();
    let enc = encrypt_bit(&e);
    assert!(!can_encrypt_char(&String::new(), &enc));
}

#[test]
fn wrong_key_does_not_give_back_the_character() {
    let e = program_equation();
    let mut enc = encrypt_bit(&e);
    let (m, r) = encrypt_char(&e, "A".to_string(), &mut enc);
    let key = Matrix::from_slice(&[1, 2, 3, 4, 5, 6], 6);
    let out = decrypt_char(m, r, &key, 2521);
    assert!(out.is_err() || out.unwrap() != "A");
}

#[test]
fn account_encrypts_and_decrypts() {
    let e = program_equation();
    let text = encrypt_account(&e, "ab", "z").unwrap();
    assert_eq!(text.len(), 813);
    assert_eq!(text.iter().map(|b| *b as u64).sum::<u64>(), 38092);
    let s = String::from_utf8(text).unwrap();
    let lines: Vec<String> = s.lines().map(|l| l.to_string()).collect();
    assert_eq!(lines[0], "2521");
    assert_eq!(lines[1], "2");
    assert_eq!(lines[6], "1");
    let key = program_key();
    assert_eq!(decrypt_account(&lines, &key, FIELD::USERNAME).unwrap(), "ab");
    assert_eq!(decrypt_account(&lines, &key, FIELD::PASSWORD).unwrap(), "z");
}

#[test]
fn decrypt_field_reports_next_line() {
    let e = program_equation();
    let s = String::from_utf8(encrypt_account(&e, "ab", "z").unwrap()).unwrap();
    let lines: Vec<String> = s.lines().map(|l| l.to_string()).collect();
    let key = Matrix::from_slice(&program_key(), 6);
    let (user, next) = decrypt_field(&lines, 1, &key, 2521).unwrap();
    assert_eq!(user, "ab");
    assert_eq!(next, 6);
    let (pass, end) = decrypt_field(&lines, next, &key, 2521).unwrap();
    assert_eq!(pass, "z");
    assert_eq!(end, 9);
    assert!(decrypt_field(&lines, 9, &key, 2521).is_none());
}

#[test]
fn decrypt_account_refuses_bad_input() {
    let e = program_equation();
    let s = String::from_utf8(encrypt_account(&e, "ab", "z").unwrap()).unwrap();
    let mut lines: Vec<String> = s.lines().map(|l| l.to_string()).collect();
    assert!(decrypt_account(&lines, &[], FIELD::USERNAME).is_none());
    lines.truncate(7);
    assert!(decrypt_account(&lines, &program_key(), FIELD::USERNAME).is_none());
    assert!(decrypt_account(&Vec::new(), &program_key(), FIELD::USERNAME).is_none());
    let bad = vec!["x".to_string()];
    assert!(decrypt_account(&bad, &program_key(), FIELD::PASSWORD).is_none());
}

#[test]
fn encrypt_account_refuses_narrow_keys() {
    let a = Matrix::matrix_builder(4, 0);
    let r = Matrix::matrix_builder(4, 1);
    let e = Equation::from_matrices(a, r, 97);
    assert!(encrypt_account(&e, "a", "b").is_none());
}

#[test]
fn every_ascii_character_reads_back() {
    let e = program_equation();
    let key = Matrix::from_slice(&program_key(), 6);
    let mut enc = encrypt_bit(&e);
    for b in 0u8..128 {
        let c = (b as char).to_string();
        assert!(can_encrypt_char(&c, &enc));
        let (m, r) = encrypt_char(&e, c.clone(), &mut enc);
        assert!(can_decrypt_char(&m, &r, &key, 2521));
        assert_eq!(decrypt_char(m, r, &key, 2521).unwrap(), c);
    }
}

#[test]
fn stored_accounts_read_back() {
    let e = program_equation();
    let key = program_key();
    let fields = ["", "a", "user name", "p@ssw0rd!", "0123456789", "~ tab\tand\nline"];
    for user in fields {
        for pass in fields {
            let text = encrypt_account(&e, user, pass).unwrap();
            let s = String::from_utf8(text).unwrap();
            let lines: Vec<String> = s.split_terminator('\n').map(|l| l.to_string()).collect();
            assert_eq!(lines.len(), 3 + 2 * user.len() + 2 * pass.len());
            assert_eq!(decrypt_account(&lines, &key, FIELD::USERNAME).unwrap(), user);
            assert_eq!(decrypt_account(&lines, &key, FIELD::PASSWORD).unwrap(), pass);
        }
    }
}

#[test]
fn stored_records_follow_one_encrypter() {
    let e = program_equation();
    let s = String::from_utf8(encrypt_account(&e, "ab", "z").unwrap()).unwrap();
    let lines: Vec<String> = s.lines().map(|l| l.to_string()).collect();
    let mut enc = encrypt_bit(&e);
    for (c, line) in [("a", 2), ("b", 4), ("z", 7)] {
        let (m, r) = encrypt_char(&e, c.to_string(), &mut enc);
        assert_eq!(lines[line].as_bytes(), m.to_text().as_slice());
        assert_eq!(lines[line + 1].as_bytes(), r.to_text().as_slice());
    }
}

#[test]
fn keys_written_and_read_store_accounts() {
    let key = program_key();
    let e = program_equation();
    let text = String::from_utf8(e.to_text()).unwrap();
    let kl: Vec<&str> = text.lines().collect();
    let read = Equation::from_text(kl[0], kl[1], kl[2]).unwrap();
    let s = String::from_utf8(encrypt_account(&read, "alice", "s3cret!").unwrap()).unwrap();
    let lines: Vec<String> = s.lines().map(|l| l.to_string()).collect();
    assert_eq!(decrypt_account(&lines, &key, FIELD::USERNAME).unwrap(), "alice");
    assert_eq!(decrypt_account(&lines, &key, FIELD::PASSWORD).unwrap(), "s3cret!");
}
