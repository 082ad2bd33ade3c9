//! The matching semantics shared by everything the two compilers emit, and
//! the theorems that pin it down: the scan is a longest-match, it never
//! over-consumes, the flat and tree strategies agree, and the cursor and
//! buffer input models agree.

use vstd::prelude::*;
use crate::tree::TreeNode;
use crate::tree::assoc_find;

verus! {

/// What the emitted buffer-model code computes at a node reached after `i`
/// bytes, with `fb` the best match committed so far (payload and the index
/// just past its bytes): the matched payload, if any, and the index of the
/// next unmatched byte.
pub open spec fn run_slice(
    node: TreeNode,
    input: Seq<u8>,
    i: nat,
    fb: Option<(Seq<char>, nat)>,
) -> (Option<Seq<char>>, nat)
    decreases input.len() - i,
{
    if node.branch.len() == 0 {
        match node.leaf_view() {
            Some(l) => (Some(l), i),
            None => match fb {
                Some(p) => (Some(p.0), p.1),
                None => (None, 0),
            },
        }
    } else {
        let fb2 = match node.leaf_view() {
            Some(l) => Some((l, i)),
            None => fb,
        };
        if i < input.len() && assoc_find(node.branch@, input[i as int]) is Some {
            run_slice(assoc_find(node.branch@, input[i as int])->Some_0, input, (i + 1) as nat, fb2)
        } else {
            match fb2 {
                Some(p) => (Some(p.0), p.1),
                None => (None, 0),
            }
        }
    }
}

/// What the emitted cursor-model code computes at a node reached after
/// `pos` bytes, where `fb` is the committed payload and `fb_pos` the cursor
/// snapshot taken with it: the matched payload, if any, and the cursor
/// position when the function returns.
pub open spec fn run_iter(
    node: TreeNode,
    input: Seq<u8>,
    pos: nat,
    fb: Option<Seq<char>>,
    fb_pos: nat,
) -> (Option<Seq<char>>, nat)
    decreases input.len() - pos,
{
    if node.branch.len() == 0 {
        match node.leaf_view() {
            Some(l) => (Some(l), pos),
            None => (fb, pos),
        }
    } else {
        let fb2 = match node.leaf_view() {
            Some(l) => Some(l),
            None => fb,
        };
        let fb_pos2: nat = if node.leaf_view() is Some {
            pos
        } else {
            fb_pos
        };
        if pos < input.len() && assoc_find(node.branch@, input[pos as int]) is Some {
            run_iter(
                assoc_find(node.branch@, input[pos as int])->Some_0,
                input,
                (pos + 1) as nat,
                fb2,
                fb_pos2,
            )
        } else {
            (fb2, fb_pos2)
        }
    }
}

/// Longest match: the scan returns the payload of the key of maximal
/// length that is a prefix of the input, or nothing when no registered key
/// is a prefix.
pub proof fn lemma_scan_longest_match(node: TreeNode, input: Seq<u8>)
    ensures
        match node.scan(input) {
            Some(r) => {
                &&& r.1 <= input.len()
                &&& node.lookup(input.take(r.1 as int)) == Some(r.0)
                &&& forall|m: int|
                    r.1 < m <= input.len() ==> node.lookup(#[trigger] input.take(m)) is None
            },
            None => forall|m: int| 0 <= m <= input.len() ==> node.lookup(#[trigger] input.take(m)) is None,
        },
    decreases input.len(),
{
    if input.len() > 0 && assoc_find(node.branch@, input[0]) is Some {
        let child = assoc_find(node.branch@, input[0])->Some_0;
        let tail = input.drop_first();
        lemma_scan_longest_match(child, tail);
        assert forall|m: int| 1 <= m <= input.len() implies node.lookup(#[trigger] input.take(m))
            == child.lookup(tail.take(m - 1)) by {
            assert(input.take(m)[0] == input[0]);
            assert(input.take(m).drop_first() =~= tail.take(m - 1));
        }
        assert(input.take(0) =~= Seq::<u8>::empty());
        match child.scan(tail) {
            Some(r) => {
                assert(node.lookup(input.take(r.1 as int + 1)) == child.lookup(tail.take(r.1 as int)));
            },
            None => {},
        }
    } else {
        assert forall|m: int| 1 <= m <= input.len() implies node.lookup(
            #[trigger] input.take(m),
        ) is None by {
            assert(input.take(m)[0] == input[0]);
        }
        assert(input.take(0) =~= Seq::<u8>::empty());
    }
}

/// A registered key fed to the scan as the whole input is matched in full.
pub proof fn lemma_scan_exact_key(node: TreeNode, key: Seq<u8>, v: Seq<char>)
    requires
        node.lookup(key) == Some(v),
    ensures
        node.scan(key) == Some((v, key.len())),
{
    lemma_scan_longest_match(node, key);
    assert(key.take(key.len() as int) =~= key);
    match node.scan(key) {
        Some(r) => {
            if r.1 < key.len() {
                assert(node.lookup(key.take(key.len() as int)) is None);
            }
            assert(r.1 == key.len());
        },
        None => {
            assert(node.lookup(key.take(key.len() as int)) is None);
        },
    }
}

/// Overwrite semantics: registering `key` once with one payload and again
/// with another leaves a trie whose scan of `key` itself produces the
/// second payload, consuming the whole key. The two hypotheses are exactly
/// what [`TreeNode::add`] ensures of each insertion.
pub proof fn lemma_overwrite(
    n0: TreeNode,
    n1: TreeNode,
    n2: TreeNode,
    key: Seq<u8>,
    v1: Seq<char>,
    v2: Seq<char>,
)
    requires
        forall|k: Seq<u8>|
            n1.lookup(k) == (if k == key {
                Some(v1)
            } else {
                n0.lookup(k)
            }),
        forall|k: Seq<u8>|
            n2.lookup(k) == (if k == key {
                Some(v2)
            } else {
                n1.lookup(k)
            }),
    ensures
        n2.lookup(key) == Some(v2),
        n2.scan(key) == Some((v2, key.len())),
{
    lemma_scan_exact_key(n2, key, v2);
}

/// Empty-trie determinism: over zero entries, every strategy reports no
/// match and leaves the input where it was, whatever the input.
pub proof fn lemma_empty_no_match(node: TreeNode, input: Seq<u8>)
    requires
        node.leaf is None,
        node.branch@.len() == 0,
    ensures
        node.scan(input) is None,
        run_slice(node, input, 0, None) == (None::<Seq<char>>, 0nat),
        run_iter(node, input, 0, None, 0) == (None::<Seq<char>>, 0nat),
        flat_run(Seq::empty(), input) == (None::<Seq<char>>, 0nat),
{
}

/// The buffer model agrees with the scan: the generalized form, for any
/// node reached after `i` bytes with `fb` committed.
proof fn lemma_run_slice_scan_gen(
    node: TreeNode,
    input: Seq<u8>,
    i: nat,
    fb: Option<(Seq<char>, nat)>,
)
    requires
        i <= input.len(),
    ensures
        run_slice(node, input, i, fb) == (match node.scan(input.skip(i as int)) {
            Some(r) => (Some(r.0), (i + r.1) as nat),
            None => match fb {
                Some(p) => (Some(p.0), p.1),
                None => (None::<Seq<char>>, 0nat),
            },
        }),
    decreases input.len() - i,
{
    let rest = input.skip(i as int);
    if node.branch.len() == 0 {
        assert(assoc_find(node.branch@, if rest.len() > 0 {
            rest[0]
        } else {
            0
        }) is None);
    } else {
        let fb2 = match node.leaf_view() {
            Some(l) => Some((l, i)),
            None => fb,
        };
        if i < input.len() && assoc_find(node.branch@, input[i as int]) is Some {
            let child = assoc_find(node.branch@, input[i as int])->Some_0;
            lemma_run_slice_scan_gen(child, input, (i + 1) as nat, fb2);
            assert(rest[0] == input[i as int]);
            assert(rest.drop_first() =~= input.skip(i as int + 1));
        } else {
            if rest.len() > 0 {
                assert(assoc_find(node.branch@, rest[0]) is None);
            }
        }
    }
}

/// No over-consumption, buffer model: on a match the returned index covers
/// exactly the matched key; on no match the index is exactly zero.
pub proof fn lemma_run_slice_scan(node: TreeNode, input: Seq<u8>)
    ensures
        run_slice(node, input, 0, None) == (match node.scan(input) {
            Some(r) => (Some(r.0), r.1),
            None => (None::<Seq<char>>, 0nat),
        }),
{
    lemma_run_slice_scan_gen(node, input, 0, None);
    assert(input.skip(0) =~= input);
}

/// Cursor/buffer equivalence, generalized: from the same node, committed
/// payload and snapshot, the cursor model reports the same match as the
/// buffer model, leaves the cursor exactly at the buffer model's index on
/// a match, and restores it to the snapshot on no match.
proof fn lemma_run_iter_gen(
    node: TreeNode,
    input: Seq<u8>,
    pos: nat,
    fb: Option<Seq<char>>,
    fb_pos: nat,
)
    requires
        pos <= input.len(),
        node.wf(),
        node.has_value() || (node.leaf is None && node.branch@.len() == 0 && fb is None
            && fb_pos == pos),
    ensures
        ({
            let ri = run_iter(node, input, pos, fb, fb_pos);
            let rs = run_slice(
                node,
                input,
                pos,
                match fb {
                    Some(v) => Some((v, fb_pos)),
                    None => None,
                },
            );
            &&& ri.0 == rs.0
            &&& ri.0 is Some ==> ri.1 == rs.1
            &&& ri.0 is None ==> ri.1 == fb_pos && fb is None
        }),
    decreases input.len() - pos,
{
    let pfb: Option<(Seq<char>, nat)> = match fb {
        Some(v) => Some((v, fb_pos)),
        None => None,
    };
    if node.branch.len() == 0 {
        assert(node.has_value() ==> node.leaf is Some);
    } else {
        let fb2 = match node.leaf_view() {
            Some(l) => Some(l),
            None => fb,
        };
        let fb_pos2: nat = if node.leaf_view() is Some {
            pos
        } else {
            fb_pos
        };
        if pos < input.len() && assoc_find(node.branch@, input[pos as int]) is Some {
            let child = assoc_find(node.branch@, input[pos as int])->Some_0;
            lemma_assoc_find_is_child(node.branch@, input[pos as int]);
            let t = choose|t: int|
                0 <= t < node.branch@.len() && (#[trigger] node.branch@[t]).1 == child;
            assert(child.wf() && child.has_value());
            lemma_run_iter_gen(child, input, (pos + 1) as nat, fb2, fb_pos2);
            let ri = run_iter(child, input, (pos + 1) as nat, fb2, fb_pos2);
            if ri.0 is None {
                assert(fb2 is None);
                assert(node.leaf_view() is None);
                assert(fb_pos2 == fb_pos);
            }
        }
    }
}

/// `assoc_find` only ever returns one of the listed nodes.
proof fn lemma_assoc_find_is_child(s: Seq<(u8, TreeNode)>, b: u8)
    requires
        assoc_find(s, b) is Some,
    ensures
        exists|t: int| 0 <= t < s.len() && (#[trigger] s[t]).1 == assoc_find(s, b)->Some_0,
    decreases s.len(),
{
    if s.len() > 0 && s[0].0 != b {
        lemma_assoc_find_is_child(s.drop_first(), b);
        let t = choose|t: int|
            0 <= t < s.drop_first().len() && (#[trigger] s.drop_first()[t]).1 == assoc_find(
                s.drop_first(),
                b,
            )->Some_0;
        assert(s[t + 1].1 == assoc_find(s, b)->Some_0);
    }
}

/// Cursor/buffer equivalence: for the same trie and input, the cursor
/// model and the buffer model report the same match, and the cursor ends
/// where the buffer model's index points - just past the match, or back at
/// the start when nothing matched.
pub proof fn lemma_cursor_buffer_equiv(node: TreeNode, input: Seq<u8>)
    requires
        node.wf(),
    ensures
        run_iter(node, input, 0, None, 0).0 == run_slice(node, input, 0, None).0,
        run_iter(node, input, 0, None, 0).1 == run_slice(node, input, 0, None).1,
{
    if node.branch.len() == 0 && node.leaf is None {
    } else {
        assert(node.has_value() || (node.leaf is None && node.branch@.len() == 0)) by {
            if node.branch@.len() > 0 {
                assert(node.branch@[0].1.has_value());
            }
        }
        lemma_run_iter_gen(node, input, 0, None, 0);
        lemma_run_slice_scan(node, input);
    }
}

/// What the emitted flat code computes: the arms are tried in order, and
/// the first whose key is a prefix of the input wins.
pub open spec fn flat_run(es: Seq<(Seq<u8>, Seq<char>)>, input: Seq<u8>) -> (
    Option<Seq<char>>,
    nat,
)
    decreases es.len(),
{
    if es.len() == 0 {
        (None, 0)
    } else if is_prefix(es[0].0, input) {
        (Some(es[0].1), es[0].0.len())
    } else {
        flat_run(es.drop_first(), input)
    }
}

/// Whether `p` is a byte-for-byte prefix of `s`.
pub open spec fn is_prefix(p: Seq<u8>, s: Seq<u8>) -> bool {
    p.len() <= s.len() && p == s.take(p.len() as int)
}

/// The payload of the first listed entry whose key is exactly `k`.
pub open spec fn es_lookup(es: Seq<(Seq<u8>, Seq<char>)>, k: Seq<u8>) -> Option<Seq<char>>
    decreases es.len(),
{
    if es.len() == 0 {
        None
    } else if es[0].0 == k {
        Some(es[0].1)
    } else {
        es_lookup(es.drop_first(), k)
    }
}

/// Entries sorted by key length, longest first.
pub open spec fn sorted_len_desc(es: Seq<(Seq<u8>, Seq<char>)>) -> bool {
    forall|i: int, j: int|
        0 <= i < j < es.len() ==> (#[trigger] es[i]).0.len() >= (#[trigger] es[j]).0.len()
}

/// With the longest keys first, trying the arms in order yields the
/// longest-match characterization, exactly as the scan does.
proof fn lemma_flat_run_char(es: Seq<(Seq<u8>, Seq<char>)>, input: Seq<u8>)
    requires
        sorted_len_desc(es),
    ensures
        match flat_run(es, input) {
            (Some(v), n) => {
                &&& n <= input.len()
                &&& es_lookup(es, input.take(n as int)) == Some(v)
                &&& forall|m: int|
                    n < m <= input.len() ==> es_lookup(es, #[trigger] input.take(m)) is None
            },
            (None, n) => {
                &&& n == 0
                &&& forall|m: int|
                    0 <= m <= input.len() ==> es_lookup(es, #[trigger] input.take(m)) is None
            },
        },
    decreases es.len(),
{
    if es.len() == 0 {
    } else {
        let k0 = es[0].0;
        if is_prefix(k0, input) {
            assert(input.take(k0.len() as int) == k0);
            assert(es_lookup(es, input.take(k0.len() as int)) == Some(es[0].1));
            assert forall|m: int|
                k0.len() < m <= input.len() implies es_lookup(es, #[trigger] input.take(m)) is None by {
                lemma_es_lookup_len(es, input.take(m));
            }
        } else {
            lemma_flat_run_char(es.drop_first(), input);
            assert forall|m: int|
                0 <= m <= input.len() && es_lookup(es.drop_first(), #[trigger] input.take(m)) is None implies es_lookup(
                es,
                input.take(m),
            ) is None by {
                if input.take(m) == k0 {
                    assert(is_prefix(k0, input)) by {
                        assert(k0 =~= input.take(k0.len() as int));
                    }
                }
            }
        }
    }
}

/// A key longer than every listed key is never found.
proof fn lemma_es_lookup_len(es: Seq<(Seq<u8>, Seq<char>)>, k: Seq<u8>)
    requires
        forall|i: int| 0 <= i < es.len() ==> (#[trigger] es[i]).0.len() < k.len(),
    ensures
        es_lookup(es, k) is None,
    decreases es.len(),
{
    if es.len() > 0 {
        lemma_es_lookup_len(es.drop_first(), k);
    }
}

/// Flat/tree equivalence: over the same entry set - every listed entry is
/// in the trie with the same payload, and every key in the trie is listed -
/// the flat strategy and the tree strategy produce the same match and the
/// same consumed length for every input.
pub proof fn lemma_flat_tree_equiv(es: Seq<(Seq<u8>, Seq<char>)>, node: TreeNode, input: Seq<u8>)
    requires
        sorted_len_desc(es),
        forall|k: Seq<u8>| #[trigger] es_lookup(es, k) == node.lookup(k),
    ensures
        flat_run(es, input) == (match node.scan(input) {
            Some(r) => (Some(r.0), r.1),
            None => (None::<Seq<char>>, 0nat),
        }),
{
    lemma_flat_run_char(es, input);
    lemma_scan_longest_match(node, input);
    let rf = flat_run(es, input);
    match node.scan(input) {
        Some(r) => {
            match rf {
                (Some(v), n) => {
                    if n < r.1 {
                        assert(es_lookup(es, input.take(r.1 as int)) is None);
                    }
                    if r.1 < n {
                        assert(node.lookup(input.take(n as int)) is None);
                    }
                    assert(n == r.1);
                },
                (None, n) => {
                    assert(es_lookup(es, input.take(r.1 as int)) is None);
                    assert(false);
                },
            }
        },
        None => {
            match rf {
                (Some(v), n) => {
                    assert(node.lookup(input.take(n as int)) is None);
                    assert(false);
                },
                (None, n) => {},
            }
        },
    }
}

/// No over-consumption: on a match, the index (buffer model) and the
/// cursor (cursor model) sit exactly `len(matched key)` bytes in; on no
/// match both are exactly where they started.
pub proof fn lemma_no_over_consumption(node: TreeNode, input: Seq<u8>)
    requires
        node.wf(),
    ensures
        match node.scan(input) {
            Some(r) => {
                &&& run_slice(node, input, 0, None) == (Some(r.0), r.1)
                &&& run_iter(node, input, 0, None, 0) == (Some(r.0), r.1)
                &&& node.lookup(input.take(r.1 as int)) == Some(r.0)
            },
            None => {
                &&& run_slice(node, input, 0, None) == (None::<Seq<char>>, 0nat)
                &&& run_iter(node, input, 0, None, 0) == (None::<Seq<char>>, 0nat)
            },
        },
{
    lemma_run_slice_scan(node, input);
    lemma_cursor_buffer_equiv(node, input);
    lemma_scan_longest_match(node, input);
}

} // verus!
