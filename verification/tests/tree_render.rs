//! The tree compiler's output, pinned byte for byte.

use matchgen::TreeMatcher;
use matchgen::TreeNode;
use matchgen::Input;

#[test]
fn empty_trie_iter_reports_no_match() {
    let node = TreeNode::default();
    let out = node.render_iter("pub fn match_nothing", "u8");
    assert_eq!(
        out,
        "pub fn match_nothing<'a, I>(_iter: &mut I) -> Option<u8>\n\
         where\n\
         \x20   I: core::iter::Iterator<Item = &'a u8> + core::clone::Clone,\n\
         {\n\
         \x20   None\n\
         }\n",
    );
}

#[test]
fn empty_trie_slice_reports_no_match() {
    let node = TreeNode::default();
    let out = node.render_slice("pub fn match_nothing_slice", "u8");
    assert_eq!(
        out,
        "pub fn match_nothing_slice(slice: &[u8]) -> (Option<u8>, &[u8]) {\n\
         \x20   (None, slice)\n\
         }\n",
    );
}

#[test]
fn empty_key_iter_matches_without_consuming() {
    let mut node = TreeNode::default();
    node.add(b"", "true");
    let out = node.render_iter("pub fn match_nothing_true", "bool");
    assert_eq!(
        out,
        "pub fn match_nothing_true<'a, I>(_iter: &mut I) -> Option<bool>\n\
         where\n\
         \x20   I: core::iter::Iterator<Item = &'a u8> + core::clone::Clone,\n\
         {\n\
         \x20   Some(true)\n\
         }\n",
    );
}

#[test]
fn empty_key_slice_matches_without_consuming() {
    let mut node = TreeNode::default();
    node.add(b"", "true");
    let out = node.render_slice("pub fn match_nothing_slice_true", "bool");
    assert_eq!(
        out,
        "pub fn match_nothing_slice_true(slice: &[u8]) -> (Option<bool>, &[u8]) {\n\
         \x20   (Some(true), slice)\n\
         }\n",
    );
}

#[test]
fn single_key_slice() {
    let mut node = TreeNode::default();
    node.add(b"a", "1");
    let out = node.render_slice("fn match_bytes", "u64");
    assert_eq!(
        out,
        "fn match_bytes(slice: &[u8]) -> (Option<u64>, &[u8]) {\n\
         \x20   match slice {\n\
         \x20       [97, ..] => (Some(1), &slice[1..]),\n\
         \x20       _ => (None, slice),\n\
         \x20   }\n\
         }\n",
    );
}

#[test]
fn single_key_iter() {
    let mut node = TreeNode::default();
    node.add(b"a", "1");
    let out = node.render_iter("fn match_bytes", "u64");
    assert_eq!(
        out,
        "fn match_bytes<'a, I>(iter: &mut I) -> Option<u64>\n\
         where\n\
         \x20   I: core::iter::Iterator<Item = &'a u8> + core::clone::Clone,\n\
         {\n\
         \x20   let fallback_iter = iter.clone();\n\
         \x20   match iter.next() {\n\
         \x20       Some(97) => Some(1),\n\
         \x20       _ => {\n\
         \x20           *iter = fallback_iter;\n\
         \x20           None\n\
         \x20       }\n\
         \x20   }\n\
         }\n",
    );
}

// A key and a longer key it prefixes: the emitted code tries the longer
// branch first and falls back to the shorter confirmed match, never to
// no-match.
#[test]
fn overlapping_keys_slice_fall_back_to_shorter_match() {
    let mut node = TreeNode::default();
    node.add(b"a", "1");
    node.add(b"ab", "2");
    let out = node.render_slice("fn m", "u64");
    assert_eq!(
        out,
        "fn m(slice: &[u8]) -> (Option<u64>, &[u8]) {\n\
         \x20   match slice {\n\
         \x20       [97, ..] => match &slice[1..] {\n\
         \x20           [98, ..] => (Some(2), &slice[2..]),\n\
         \x20           _ => (Some(1), &slice[1..]),\n\
         \x20       }\n\
         \x20       _ => (None, slice),\n\
         \x20   }\n\
         }\n",
    );
}

#[test]
fn overlapping_keys_iter_snapshot_and_rollback() {
    let mut node = TreeNode::default();
    node.add(b"a", "1");
    node.add(b"ab", "2");
    let out = node.render_iter("fn m", "u64");
    assert_eq!(
        out,
        "fn m<'a, I>(iter: &mut I) -> Option<u64>\n\
         where\n\
         \x20   I: core::iter::Iterator<Item = &'a u8> + core::clone::Clone,\n\
         {\n\
         \x20   let fallback_iter = iter.clone();\n\
         \x20   match iter.next() {\n\
         \x20       Some(97) => {\n\
         \x20           let fallback_iter = iter.clone();\n\
         \x20           match iter.next() {\n\
         \x20               Some(98) => Some(2),\n\
         \x20               _ => {\n\
         \x20                   *iter = fallback_iter;\n\
         \x20                   Some(1)\n\
         \x20               }\n\
         \x20           }\n\
         \x20       }\n\
         \x20       _ => {\n\
         \x20           *iter = fallback_iter;\n\
         \x20           None\n\
         \x20       }\n\
         \x20   }\n\
         }\n",
    );
}

// The four overlapping keys of the deepest scenario: two levels of
// committed fallbacks, each restored at the right offset.
#[test]
fn four_overlapping_keys_slice() {
    let mut m = TreeMatcher::new("pub fn slice_in_tuple", "(bool, &'static [u8])");
    m.must_use(false);
    m.add(b"aab", "(true, &[1, 1])");
    m.add(b"aa", "(false, &[1, 1])");
    m.add(b"ab", "(true, &[1])");
    m.add(b"a", "(false, &[1])");
    let out = m.render();
    assert_eq!(
        out,
        "#[allow(clippy::too_many_lines, clippy::single_match_else)]\n\
         pub fn slice_in_tuple(slice: &[u8]) -> (Option<(bool, &'static [u8])>, &[u8]) {\n\
         \x20   match slice {\n\
         \x20       [97, ..] => match &slice[1..] {\n\
         \x20           [97, ..] => match &slice[2..] {\n\
         \x20               [98, ..] => (Some((true, &[1, 1])), &slice[3..]),\n\
         \x20               _ => (Some((false, &[1, 1])), &slice[2..]),\n\
         \x20           }\n\
         \x20           [98, ..] => (Some((true, &[1])), &slice[2..]),\n\
         \x20           _ => (Some((false, &[1])), &slice[1..]),\n\
         \x20       }\n\
         \x20       _ => (None, slice),\n\
         \x20   }\n\
         }\n",
    );
}

// Registering the same key twice keeps only the second payload.
#[test]
fn overwrite_keeps_second_payload() {
    let mut node = TreeNode::default();
    node.add(b"a", "1");
    node.add(b"a", "2");
    let out = node.render_slice("fn m", "u64");
    assert_eq!(
        out,
        "fn m(slice: &[u8]) -> (Option<u64>, &[u8]) {\n\
         \x20   match slice {\n\
         \x20       [97, ..] => (Some(2), &slice[1..]),\n\
         \x20       _ => (None, slice),\n\
         \x20   }\n\
         }\n",
    );
}

// Children are emitted sorted by byte, whatever the insertion order.
#[test]
fn deterministic_child_order() {
    let mut first = TreeNode::default();
    first.add(b"b", "2");
    first.add(b"a", "1");
    let mut second = TreeNode::default();
    second.add(b"a", "1");
    second.add(b"b", "2");
    let one = first.render_slice("fn m", "u64");
    let two = second.render_slice("fn m", "u64");
    assert_eq!(one, two);
    assert_eq!(
        one,
        "fn m(slice: &[u8]) -> (Option<u64>, &[u8]) {\n\
         \x20   match slice {\n\
         \x20       [97, ..] => (Some(1), &slice[1..]),\n\
         \x20       [98, ..] => (Some(2), &slice[1..]),\n\
         \x20       _ => (None, slice),\n\
         \x20   }\n\
         }\n",
    );
}

#[test]
fn matcher_defaults_and_must_use() {
    let mut m = TreeMatcher::new("fn match_bytes", "u64");
    m.must_use(false);
    m.add(b"a", "1");
    let out = m.render();
    assert_eq!(
        out,
        "#[allow(clippy::too_many_lines, clippy::single_match_else)]\n\
         fn match_bytes(slice: &[u8]) -> (Option<u64>, &[u8]) {\n\
         \x20   match slice {\n\
         \x20       [97, ..] => (Some(1), &slice[1..]),\n\
         \x20       _ => (None, slice),\n\
         \x20   }\n\
         }\n",
    );
}

#[test]
fn matcher_remove_doc_keeps_must_use() {
    let mut m = TreeMatcher::new("fn match_bytes", "u64");
    m.remove_doc();
    m.add(b"a", "1");
    let out = m.render();
    assert_eq!(
        out,
        "#[allow(clippy::too_many_lines, clippy::single_match_else)]\n\
         #[must_use]\n\
         fn match_bytes(slice: &[u8]) -> (Option<u64>, &[u8]) {\n\
         \x20   match slice {\n\
         \x20       [97, ..] => (Some(1), &slice[1..]),\n\
         \x20       _ => (None, slice),\n\
         \x20   }\n\
         }\n",
    );
}

#[test]
fn matcher_doc_escapes_string() {
    let mut m = TreeMatcher::new("fn match_bytes", "u64");
    m.doc("Match the first bytes of a slice.\n\n        Matches only the string `\"a\"` and returns `1`.");
    m.add(b"a", "1");
    let out = m.render();
    assert_eq!(
        out,
        "#[allow(clippy::too_many_lines, clippy::single_match_else)]\n\
         #[doc = \"Match the first bytes of a slice.\\n\\n        Matches only the string `\\\"a\\\"` and returns `1`.\"]\n\
         #[must_use]\n\
         fn match_bytes(slice: &[u8]) -> (Option<u64>, &[u8]) {\n\
         \x20   match slice {\n\
         \x20       [97, ..] => (Some(1), &slice[1..]),\n\
         \x20       _ => (None, slice),\n\
         \x20   }\n\
         }\n",
    );
}

#[test]
fn matcher_doc_raw_splices_expression() {
    let mut m = TreeMatcher::new("fn match_bytes", "u64");
    m.doc_raw("include_str!(\"match_bytes.md\")");
    m.add(b"a", "1");
    let out = m.render();
    assert!(out.starts_with(
        "#[allow(clippy::too_many_lines, clippy::single_match_else)]\n\
         #[doc = include_str!(\"match_bytes.md\")]\n\
         #[must_use]\n",
    ));
}

#[test]
fn matcher_doc_option() {
    let mut m = TreeMatcher::new("fn match_bytes", "u64");
    m.doc_option("hidden");
    let out = m.render();
    assert_eq!(
        out,
        "#[allow(clippy::too_many_lines, clippy::single_match_else)]\n\
         #[doc(hidden)]\n\
         #[must_use]\n\
         fn match_bytes(slice: &[u8]) -> (Option<u64>, &[u8]) {\n\
         \x20   (None, slice)\n\
         }\n",
    );
}

#[test]
fn matcher_disable_clippy_adds_stub() {
    let mut m = TreeMatcher::new("fn match_bytes", "u64");
    m.disable_clippy(true);
    m.add(b"a", "1");
    let out = m.render();
    assert_eq!(
        out,
        "#[cfg(not(clippy))]\n\
         #[must_use]\n\
         fn match_bytes(slice: &[u8]) -> (Option<u64>, &[u8]) {\n\
         \x20   match slice {\n\
         \x20       [97, ..] => (Some(1), &slice[1..]),\n\
         \x20       _ => (None, slice),\n\
         \x20   }\n\
         }\n\
         \n\
         #[cfg(clippy)]\n\
         #[must_use]\n\
         fn match_bytes(slice: &[u8]) -> (Option<u64>, &[u8]) {\n\
         \x20   (None, slice)\n\
         }\n",
    );
}

#[test]
fn matcher_iterator_input_stub() {
    let mut m = TreeMatcher::new("fn match_bytes", "u64");
    m.input_type(Input::Iterator);
    m.disable_clippy(true);
    m.add(b"a", "1");
    let out = m.render();
    assert!(out.starts_with("#[cfg(not(clippy))]\n#[must_use]\nfn match_bytes<'a, I>(iter: &mut I) -> Option<u64>\n"));
    assert!(out.ends_with(
        "#[cfg(clippy)]\n\
         #[must_use]\n\
         fn match_bytes<'a, I>(_iter: &mut I) -> Option<u64>\n\
         where\n\
         \x20   I: core::iter::Iterator<Item = &'a u8> + core::clone::Clone,\n\
         {\n\
         \x20   None\n\
         }\n",
    ));
}

#[test]
fn matcher_extend_registers_in_order() {
    let mut m = TreeMatcher::new("fn m", "u64");
    m.must_use(false);
    let pairs: Vec<(Vec<u8>, String)> = vec![
        (b"a".to_vec(), String::from("1")),
        (b"a".to_vec(), String::from("2")),
    ];
    m.extend(&pairs);
    let out = m.render();
    assert_eq!(
        out,
        "#[allow(clippy::too_many_lines, clippy::single_match_else)]\n\
         fn m(slice: &[u8]) -> (Option<u64>, &[u8]) {\n\
         \x20   match slice {\n\
         \x20       [97, ..] => (Some(2), &slice[1..]),\n\
         \x20       _ => (None, slice),\n\
         \x20   }\n\
         }\n",
    );
}
