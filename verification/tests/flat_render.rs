//! The flat compiler's output, pinned byte for byte.

use matchgen::FlatMatcher;

#[test]
fn single_key_default_must_use() {
    let mut m = FlatMatcher::new("fn match_bytes", "u64");
    m.add(b"a", "1");
    let out = m.render();
    assert_eq!(
        out,
        "#[must_use]\n\
         fn match_bytes(slice: &[u8]) -> (Option<u64>, &[u8]) {\n\
         \x20   #[allow(unreachable_patterns)]\n\
         \x20   match slice {\n\
         \x20       [97, ..] => (Some(1), &slice[1..]),\n\
         \x20       _ => (None, slice),\n\
         \x20   }\n\
         }\n",
    );
}

#[test]
fn single_key_without_must_use() {
    let mut m = FlatMatcher::new("fn match_bytes", "u64");
    m.must_use(false);
    m.add(b"a", "1");
    let out = m.render();
    assert_eq!(
        out,
        "fn match_bytes(slice: &[u8]) -> (Option<u64>, &[u8]) {\n\
         \x20   #[allow(unreachable_patterns)]\n\
         \x20   match slice {\n\
         \x20       [97, ..] => (Some(1), &slice[1..]),\n\
         \x20       _ => (None, slice),\n\
         \x20   }\n\
         }\n",
    );
}

// The arm for a longer key comes first, so that a key that is a prefix of
// another can never shadow it.
#[test]
fn longest_keys_first() {
    let mut m = FlatMatcher::new("fn m", "u64");
    m.must_use(false);
    m.add(b"a", "1");
    m.add(b"ab", "2");
    let out = m.render();
    assert_eq!(
        out,
        "fn m(slice: &[u8]) -> (Option<u64>, &[u8]) {\n\
         \x20   #[allow(unreachable_patterns)]\n\
         \x20   match slice {\n\
         \x20       [97, 98, ..] => (Some(2), &slice[2..]),\n\
         \x20       [97, ..] => (Some(1), &slice[1..]),\n\
         \x20       _ => (None, slice),\n\
         \x20   }\n\
         }\n",
    );
}

// Equal-length keys are emitted in lexicographic order, whatever the
// insertion order.
#[test]
fn equal_length_keys_in_lexicographic_order() {
    let mut first = FlatMatcher::new("fn m", "u64");
    first.must_use(false);
    first.add(b"b", "2");
    first.add(b"a", "1");
    let mut second = FlatMatcher::new("fn m", "u64");
    second.must_use(false);
    second.add(b"a", "1");
    second.add(b"b", "2");
    let one = first.render();
    let two = second.render();
    assert_eq!(one, two);
    assert_eq!(
        one,
        "fn m(slice: &[u8]) -> (Option<u64>, &[u8]) {\n\
         \x20   #[allow(unreachable_patterns)]\n\
         \x20   match slice {\n\
         \x20       [97, ..] => (Some(1), &slice[1..]),\n\
         \x20       [98, ..] => (Some(2), &slice[1..]),\n\
         \x20       _ => (None, slice),\n\
         \x20   }\n\
         }\n",
    );
}

// Registering the same key twice keeps only the second payload.
#[test]
fn overwrite_keeps_second_payload_flat() {
    let mut m = FlatMatcher::new("fn m", "u64");
    m.must_use(false);
    m.add(b"a", "1");
    m.add(b"a", "2");
    let out = m.render();
    assert_eq!(
        out,
        "fn m(slice: &[u8]) -> (Option<u64>, &[u8]) {\n\
         \x20   #[allow(unreachable_patterns)]\n\
         \x20   match slice {\n\
         \x20       [97, ..] => (Some(2), &slice[1..]),\n\
         \x20       _ => (None, slice),\n\
         \x20   }\n\
         }\n",
    );
}

// Zero entries: the emitted procedure always reports no match, with no
// degenerate pattern.
#[test]
fn zero_entries_report_no_match() {
    let m = FlatMatcher::new("fn m", "u64");
    let out = m.render();
    assert_eq!(
        out,
        "#[must_use]\n\
         fn m(slice: &[u8]) -> (Option<u64>, &[u8]) {\n\
         \x20   #[allow(unreachable_patterns)]\n\
         \x20   match slice {\n\
         \x20       _ => (None, slice),\n\
         \x20   }\n\
         }\n",
    );
}

// The empty key gets a pattern that matches anything, even empty input.
#[test]
fn empty_key_matches_everything() {
    let mut m = FlatMatcher::new("fn m", "u64");
    m.must_use(false);
    m.add(b"", "0");
    let out = m.render();
    assert_eq!(
        out,
        "fn m(slice: &[u8]) -> (Option<u64>, &[u8]) {\n\
         \x20   #[allow(unreachable_patterns)]\n\
         \x20   match slice {\n\
         \x20       [..] => (Some(0), &slice[0..]),\n\
         \x20       _ => (None, slice),\n\
         \x20   }\n\
         }\n",
    );
}

#[test]
fn return_index_makes_const_fn() {
    let mut m = FlatMatcher::new("fn match_bytes", "u64");
    m.return_index();
    m.add(b"a", "1");
    let out = m.render();
    assert_eq!(
        out,
        "#[must_use]\n\
         const fn match_bytes(slice: &[u8]) -> (Option<u64>, usize) {\n\
         \x20   #[allow(unreachable_patterns)]\n\
         \x20   match slice {\n\
         \x20       [97, ..] => (Some(1), 1),\n\
         \x20       _ => (None, 0),\n\
         \x20   }\n\
         }\n",
    );
}

#[test]
fn return_index_rewrites_inner_fn_keyword() {
    let mut m = FlatMatcher::new("pub fn match_bytes", "u64");
    m.return_index();
    let out = m.render();
    assert!(out.contains("pub const fn match_bytes(slice: &[u8]) -> (Option<u64>, usize) {"));
}

#[test]
fn return_slice_restores_default() {
    let mut m = FlatMatcher::new("fn m", "u64");
    m.return_index();
    m.return_slice();
    let out = m.render();
    assert!(out.contains("fn m(slice: &[u8]) -> (Option<u64>, &[u8]) {"));
    assert!(!out.contains("const"));
}

#[test]
fn disable_clippy_adds_stub() {
    let mut m = FlatMatcher::new("fn match_bytes", "u64");
    m.disable_clippy(true);
    let pairs: Vec<(Vec<u8>, String)> = vec![(b"a".to_vec(), String::from("1"))];
    m.extend(&pairs);
    let out = m.render();
    assert_eq!(
        out,
        "#[cfg(not(clippy))]\n\
         #[must_use]\n\
         fn match_bytes(slice: &[u8]) -> (Option<u64>, &[u8]) {\n\
         \x20   #[allow(unreachable_patterns)]\n\
         \x20   match slice {\n\
         \x20       [97, ..] => (Some(1), &slice[1..]),\n\
         \x20       _ => (None, slice),\n\
         \x20   }\n\
         }\n\
         \n\
         #[cfg(clippy)]\n\
         #[must_use]\n\
         fn match_bytes(slice: &[u8]) -> (Option<u64>, &[u8]) {\n\
         \x20   (None, slice)\n\
         }\n",
    );
}

#[test]
fn stub_for_index_model_ignores_input() {
    let mut m = FlatMatcher::new("fn m", "u64");
    m.return_index();
    let out = m.render_stub();
    assert_eq!(
        out,
        "#[must_use]\n\
         const fn m(_: &[u8]) -> (Option<u64>, usize) {\n\
         \x20   (None, 0)\n\
         }\n",
    );
}

#[test]
fn doc_option_hidden() {
    let mut m = FlatMatcher::new("fn match_bytes", "u64");
    m.doc_option("hidden");
    let out = m.render();
    assert_eq!(
        out,
        "#[doc(hidden)]\n\
         #[must_use]\n\
         fn match_bytes(slice: &[u8]) -> (Option<u64>, &[u8]) {\n\
         \x20   #[allow(unreachable_patterns)]\n\
         \x20   match slice {\n\
         \x20       _ => (None, slice),\n\
         \x20   }\n\
         }\n",
    );
}

#[test]
fn doc_escapes_and_doc_raw_splices() {
    let mut m = FlatMatcher::new("fn m", "u64");
    m.doc("say \"hi\"\tnow\r\n\\done");
    let out = m.render();
    assert!(out.starts_with(
        "#[doc = \"say \\\"hi\\\"\\tnow\\r\\n\\\\done\"]\n#[must_use]\n",
    ));
    let mut r = FlatMatcher::new("fn m", "u64");
    r.doc_raw("include_str!(\"m.md\")");
    let out2 = r.render();
    assert!(out2.starts_with("#[doc = include_str!(\"m.md\")]\n"));
    r.remove_doc();
    let out3 = r.render();
    assert!(out3.starts_with("#[must_use]\n"));
}

// A key of several bytes is joined with a comma and a space between the
// decimal values.
#[test]
fn multi_byte_key_pattern() {
    let mut m = FlatMatcher::new("fn m", "&'static str");
    m.must_use(false);
    m.add(b"abc", "\"x\"");
    let out = m.render();
    assert_eq!(
        out,
        "fn m(slice: &[u8]) -> (Option<&'static str>, &[u8]) {\n\
         \x20   #[allow(unreachable_patterns)]\n\
         \x20   match slice {\n\
         \x20       [97, 98, 99, ..] => (Some(\"x\"), &slice[3..]),\n\
         \x20       _ => (None, slice),\n\
         \x20   }\n\
         }\n",
    );
}
