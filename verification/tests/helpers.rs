//! The shared helpers: byte formatting and the default input model.

use matchgen::fmt_byte;
use matchgen::Input;
use matchgen::TreeNode;

#[test]
fn fmt_byte_printable_ascii() {
    assert_eq!(fmt_byte(b'a'), "b'a'");
    assert_eq!(fmt_byte(b'!'), "b'!'");
    assert_eq!(fmt_byte(b'~'), "b'~'");
    assert_eq!(fmt_byte(b' '), "b' '");
}

#[test]
fn fmt_byte_named_escapes() {
    assert_eq!(fmt_byte(b'\n'), "\\n");
    assert_eq!(fmt_byte(b'\r'), "\\r");
    assert_eq!(fmt_byte(b'\t'), "\\t");
}

#[test]
fn fmt_byte_decimal_fallback() {
    assert_eq!(fmt_byte(0), "0");
    assert_eq!(fmt_byte(7), "7");
    assert_eq!(fmt_byte(127), "127");
    assert_eq!(fmt_byte(200), "200");
    assert_eq!(fmt_byte(255), "255");
}

#[test]
fn input_defaults_to_slice() {
    assert_eq!(Input::default(), Input::Slice);
}

#[test]
fn node_extend_applies_pairs_in_order() {
    let mut node = TreeNode::default();
    let pairs: Vec<(Vec<u8>, String)> = vec![
        (b"ab".to_vec(), String::from("2")),
        (b"a".to_vec(), String::from("1")),
        (b"ab".to_vec(), String::from("3")),
    ];
    node.extend(&pairs);
    let out = node.render_slice("fn m", "u64");
    assert_eq!(
        out,
        "fn m(slice: &[u8]) -> (Option<u64>, &[u8]) {\n\
         \x20   match slice {\n\
         \x20       [97, ..] => match &slice[1..] {\n\
         \x20           [98, ..] => (Some(3), &slice[2..]),\n\
         \x20           _ => (Some(1), &slice[1..]),\n\
         \x20       }\n\
         \x20       _ => (None, slice),\n\
         \x20   }\n\
         }\n",
    );
}

// A byte above the ASCII range still gets a decimal pattern.
#[test]
fn high_byte_key() {
    let mut node = TreeNode::default();
    node.add(&[200u8], "1");
    let out = node.render_slice("fn m", "u64");
    assert_eq!(
        out,
        "fn m(slice: &[u8]) -> (Option<u64>, &[u8]) {\n\
         \x20   match slice {\n\
         \x20       [200, ..] => (Some(1), &slice[1..]),\n\
         \x20       _ => (None, slice),\n\
         \x20   }\n\
         }\n",
    );
}
