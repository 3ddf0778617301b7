use blake2::Digest;
use dupfinder::digest::blake2_hash;
use dupfinder::report::{quote_path, render_group};

#[test]
fn empty_input_digest_matches_known_vector() {
    let expected = "786A02F742015903C6C6FD852552D272912F4740E15847618A86E217F71F5419\
D25E1031AFEE585313896444934EB04B903A685B1448B755D56F701AFE9BE2CE";
    assert_eq!(blake2_hash(b""), String::from(expected));
}

#[test]
fn digest_matches_blake2_crate_rendering() {
    let data = b"The quick brown fox jumps over the lazy dog";
    let raw = blake2::Blake2b512::digest(data);
    let expected: Vec<String> = raw.iter().map(|b| format!("{:02X}", b)).collect();
    assert_eq!(blake2_hash(data), expected.join(""));
}

#[test]
fn digest_is_128_hex_chars_and_input_sensitive() {
    let h1 = blake2_hash(b"a");
    let h2 = blake2_hash(b"b");
    assert_eq!(h1.len(), 128);
    assert_eq!(h2.len(), 128);
    assert_ne!(h1, h2);
    assert!(h1.chars().all(|c| c.is_ascii_hexdigit() && !c.is_ascii_lowercase()));
}

#[test]
fn quoting_escapes_specials() {
    assert_eq!(quote_path("plain/path"), String::from("\"plain/path\""));
    assert_eq!(quote_path("a\"b"), String::from("\"a\\\"b\""));
    assert_eq!(quote_path("a\\b"), String::from("\"a\\\\b\""));
    assert_eq!(quote_path("a\nb\tc\rd"), String::from("\"a\\nb\\tc\\rd\""));
}

#[test]
fn group_rendering_shape() {
    let digest = String::from("ABC");
    let paths = vec![String::from("x/y"), String::from("z")];
    let text = render_group(&digest, &paths);
    assert_eq!(text, String::from("ABC\n\t\"x/y\"\n\t\"z\"\n\n"));
}
