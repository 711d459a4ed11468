//! Small helpers.
use mold_macho::macho::encode_version;
use mold_macho::util::glob::{check_pattern, glob_match, match_any, pattern_match};
use mold_macho::util::graph::walk;
use mold_macho::util::numbers::{push_aligned, push_decimal, push_hexadecimal};
use mold_macho::util::order::{is_lex_before, sort_distinct, sort_values};
use mold_macho::util::siphash::{hash_message, SipHash13_128};
use mold_macho::util::text::{split_at, split_once, split_words, symbol_list};
use mold_macho::util::{
    align_to, align_to_mod, align_to_p2, bits, find_place, name_sort_key, sign_extend, uleb_len,
    write_sleb, write_uleb,
};

#[test]
fn uleb_uses_seven_bits_per_byte() {
    let mut buf: Vec<u8> = Vec::new();
    write_uleb(&mut buf, 624485);
    assert_eq!(buf, vec![0xe5, 0x8e, 0x26]);
    assert_eq!(uleb_len(624485), 3);
    assert_eq!(uleb_len(0), 1);
    assert_eq!(uleb_len(u64::MAX), 10);
}

#[test]
fn sleb_keeps_the_sign() {
    let mut buf: Vec<u8> = Vec::new();
    write_sleb(&mut buf, -123456);
    assert_eq!(buf, vec![0xc0, 0xbb, 0x78]);
    let mut buf: Vec<u8> = Vec::new();
    write_sleb(&mut buf, 64);
    assert_eq!(buf, vec![0xc0, 0x00]);
}

#[test]
fn align_rounds_up() {
    assert_eq!(align_to(0x1001, 0x1000), 0x2000);
    assert_eq!(align_to(0x1000, 0x1000), 0x1000);
    assert_eq!(align_to_p2(5, 3), 8);
    assert_eq!(align_to_mod(5, 8, 3), 11);
    assert_eq!(align_to_mod(11, 8, 3), 11);
    assert_eq!(find_place(5, 2), Some(8));
    assert_eq!(find_place(u64::MAX, 2), None);
}

#[test]
fn bit_fields_are_cut_out() {
    assert_eq!(bits(0xabcd, 11, 4), 0xbc);
    assert_eq!(sign_extend(0xff, 7), -1);
    assert_eq!(sign_extend(0x7f, 7), 127);
}

#[test]
fn versions_are_packed() {
    assert_eq!(encode_version(12, 3, 1), 0x000c_0301);
}

#[test]
fn sort_key_orders_as_bytes_do() {
    let names: [&[u8]; 5] = [b"", b"_a", b"_abcdefg", b"_abcdefgh", b"_b"];
    for w in names.windows(2) {
        assert!(name_sort_key(w[0]) < name_sort_key(w[1]));
        assert!(is_lex_before(w[0], w[1]));
    }
}

#[test]
fn values_are_sorted() {
    assert_eq!(sort_values(&[3, 1, 3, 2]), vec![1, 2, 3, 3]);
    assert_eq!(sort_distinct(&[3, 1, 3, 2]), vec![1, 2, 3]);
}

#[test]
fn patterns_match_whole_names() {
    // Without `?` and `[` a pattern is a glob.
    for pat in ["_foo*", "_*o*r", "_*o*z", "ab*ba", "_foo", "*", "", "a**b", "*a*a*b"] {
        for name in ["_foobar", "_foo", "aba", "abba", "", "aaaaaaab", "ab"] {
            let (pat, name) = (pat.as_bytes(), name.as_bytes());
            assert_eq!(pattern_match(pat, name), glob_match(pat, name));
        }
    }
    assert!(pattern_match(b"_f?o", b"_foo"));
    assert!(!pattern_match(b"_f?", b"_f"));
    assert!(pattern_match(b"_[a-cx]z", b"_bz"));
    assert!(pattern_match(b"_[a-cx]z", b"_xz"));
    assert!(!pattern_match(b"_[a-cx]z", b"_dz"));
    assert!(pattern_match(b"[a-]", b"-"));
    assert!(pattern_match(b"*[0-9]?*z", b"_a1b22z"));
    assert!(!pattern_match(b"*[0-9]?*z", b"_a1z"));
    assert!(!pattern_match(b"[]", b"]"));
    assert!(check_pattern(b"_[a]*?"));
    assert!(check_pattern(b"]"));
    assert!(!check_pattern(b"_[a]["));
    let list = vec![b"_a".to_vec(), b"_b*".to_vec()];
    assert!(match_any(&list, b"_bc"));
    assert!(!match_any(&list, b"_ac"));
}

#[test]
fn glob_matches_whole_names() {
    assert!(glob_match(b"_foo*", b"_foobar"));
    assert!(glob_match(b"_*o*r", b"_foobar"));
    assert!(!glob_match(b"_*o*z", b"_foobar"));
    assert!(!glob_match(b"ab*ba", b"aba"));
    assert!(!glob_match(b"_foo", b"_foobar"));
    assert!(glob_match(b"*", b""));
}

#[test]
fn siphash_of_a_known_message() {
    let key: Vec<u8> = (0..16).collect();
    let msg: Vec<u8> = (0..15).collect();
    let d = hash_message(&key, &msg);
    assert_eq!((d.hi, d.lo), (0x6c52_bdb2_0555_7ec1, 0x0901_7e1e_eccd_2129));
}

#[test]
fn siphash_takes_messages_in_parts() {
    let key: Vec<u8> = (0..16).collect();
    let msg: Vec<u8> = (0..100).collect();
    let whole = hash_message(&key, &msg);
    let mut h = SipHash13_128::new(&key);
    h.update(&msg[..7]);
    h.update(&msg[7..50]);
    h.update(&msg[50..]);
    let parts = h.finish();
    assert_eq!((whole.hi, whole.lo), (parts.hi, parts.lo));
    let other = hash_message(&key, &msg[..99]);
    assert_ne!((whole.hi, whole.lo), (other.hi, other.lo));
}

#[test]
fn walk_finds_what_is_reachable() {
    let w = walk(&vec![vec![1], vec![2], vec![0], vec![0]], &vec![1]);
    assert_eq!(w.live, vec![true, true, true, false]);
    assert_eq!(w.found, vec![1, 2, 0]);
    assert_eq!(w.pred[2], 1);
}

#[test]
fn walk_takes_the_last_found_node_first() {
    let edges = vec![vec![2, 3], vec![3], vec![4], vec![4], vec![]];
    let w = walk(&edges, &vec![1, 0]);
    assert_eq!(w.found, vec![1, 0, 2, 3, 4]);
    assert_eq!(w.pred, vec![usize::MAX, usize::MAX, 0, 0, 3]);
    let again = walk(&edges, &vec![1, 0]);
    assert_eq!((w.live, w.found, w.pred), (again.live, again.found, again.pred));
}

#[test]
fn numbers_are_written_out() {
    let mut buf: Vec<u8> = Vec::new();
    push_decimal(&mut buf, 1230);
    buf.push(b' ');
    push_hexadecimal(&mut buf, 0x1f0);
    buf.push(b' ');
    push_aligned(&mut buf, b"7", 3, b' ');
    assert_eq!(buf, b"1230 1F0   7");
}

#[test]
fn text_is_split() {
    assert_eq!(split_at(b"a,,b", b','), vec![b"a".to_vec(), b"".to_vec(), b"b".to_vec()]);
    assert_eq!(split_once(b"a:b:c", b':'), Some((b"a".to_vec(), b"b:c".to_vec())));
    assert_eq!(split_once(b"abc", b':'), None);
    assert_eq!(split_words(b" a\t b\n"), vec![b"a".to_vec(), b"b".to_vec()]);
    assert_eq!(symbol_list(b"# x\n_a # y\n\n_b\n"), vec![b"_a".to_vec(), b"_b".to_vec()]);
}
