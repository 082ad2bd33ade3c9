//! The compiler that emits a single `match` statement with one
//! fixed-width arm per registered entry, longest keys first.

use vstd::prelude::*;
use vstd::string::StringExecFns;
use crate::text;
use crate::laws::es_lookup;
use crate::laws::sorted_len_desc;

verus! {

/// Lexicographic order on byte sequences of equal length.
pub open spec fn lex_lt(a: Seq<u8>, b: Seq<u8>) -> bool
    decreases a.len(),
{
    if a.len() == 0 || b.len() == 0 {
        false
    } else if a[0] < b[0] {
        true
    } else if a[0] == b[0] {
        lex_lt(a.drop_first(), b.drop_first())
    } else {
        false
    }
}

/// The emission order of the flat compiler: longer keys first, and ties
/// of equal length in lexicographic order, so that output is
/// deterministic and a key that is a prefix of a longer key is tested
/// after it.
pub open spec fn key_lt(a: Seq<u8>, b: Seq<u8>) -> bool {
    a.len() > b.len() || (a.len() == b.len() && lex_lt(a, b))
}

proof fn lemma_lex_lt_irrefl(a: Seq<u8>)
    ensures
        !lex_lt(a, a),
    decreases a.len(),
{
    if a.len() > 0 {
        lemma_lex_lt_irrefl(a.drop_first());
    }
}

proof fn lemma_lex_lt_connex(a: Seq<u8>, b: Seq<u8>)
    requires
        a.len() == b.len(),
        a != b,
    ensures
        lex_lt(a, b) || lex_lt(b, a),
    decreases a.len(),
{
    if a.len() > 0 {
        if a[0] == b[0] {
            assert(a.drop_first() != b.drop_first()) by {
                if a.drop_first() == b.drop_first() {
                    assert forall|t: int| 0 <= t < a.len() implies a[t] == b[t] by {
                        if t > 0 {
                            assert(a[t] == a.drop_first()[t - 1]);
                            assert(b[t] == b.drop_first()[t - 1]);
                        }
                    }
                    assert(a =~= b);
                }
            }
            lemma_lex_lt_connex(a.drop_first(), b.drop_first());
        }
    } else {
        assert(a =~= b);
    }
}

proof fn lemma_lex_lt_trans(a: Seq<u8>, b: Seq<u8>, c: Seq<u8>)
    requires
        a.len() == b.len(),
        b.len() == c.len(),
        lex_lt(a, b),
        lex_lt(b, c),
    ensures
        lex_lt(a, c),
    decreases a.len(),
{
    if a.len() > 0 {
        if a[0] == b[0] && b[0] == c[0] {
            lemma_lex_lt_trans(a.drop_first(), b.drop_first(), c.drop_first());
        }
    }
}

/// The emission order relates any two distinct keys.
proof fn lemma_key_lt_connex(a: Seq<u8>, b: Seq<u8>)
    requires
        a != b,
    ensures
        key_lt(a, b) || key_lt(b, a),
{
    if a.len() == b.len() {
        lemma_lex_lt_connex(a, b);
    }
}

/// The emission order is irreflexive.
proof fn lemma_key_lt_irrefl(a: Seq<u8>)
    ensures
        !key_lt(a, a),
{
    lemma_lex_lt_irrefl(a);
}

/// The emission order is transitive.
proof fn lemma_key_lt_trans(a: Seq<u8>, b: Seq<u8>, c: Seq<u8>)
    requires
        key_lt(a, b),
        key_lt(b, c),
    ensures
        key_lt(a, c),
{
    if a.len() == b.len() && b.len() == c.len() {
        lemma_lex_lt_trans(a, b, c);
    }
}

/// Build a function with a single `match` statement that maps byte
/// sequences to values, longest registered sequence first.
///
/// Entries are registered with [`Self::add`] or [`Self::extend`]; the
/// Rust source text then comes from [`Self::render`]. The emitted
/// function tries one fixed-width arm per entry, longest keys first, so
/// it implements the same longest-match scan as the tree compiler; see
/// [`crate::laws::lemma_flat_tree_equiv`].
#[derive(Debug)]
pub struct FlatMatcher {
    /// The first part of the emitted function definition, e.g.
    /// `"pub fn matcher"`.
    pub fn_name: String,
    /// The return type (spliced verbatim, wrapped in `Option`), e.g.
    /// `"&'static str"`.
    pub return_type: String,
    /// Whether the emitted function returns the remainder as a slice
    /// (`true`) or as the index of the next unmatched byte (`false`,
    /// which makes the emitted function `const`).
    pub return_slice: bool,
    /// Whether to hide the emitted matcher from the `clippy` pass behind
    /// `cfg` guards and emit an always-no-match stub in its place.
    pub disable_clippy: bool,
    /// Whether to mark the emitted function `#[must_use]`.
    pub must_use: bool,
    /// A ready-made documentation attribute to put above the function.
    pub doc: Option<String>,
    /// The entries, kept in emission order: longest key first, ties in
    /// lexicographic order, no key twice.
    pub arms: Vec<(Vec<u8>, String)>,
}

/// The entries of a flat matcher as sequences.
pub open spec fn arms_view(arms: Seq<(Vec<u8>, String)>) -> Seq<(Seq<u8>, Seq<char>)> {
    arms.map(|i: int, e: (Vec<u8>, String)| (e.0@, e.1@))
}

impl FlatMatcher {
    /// The entries in emission order.
    pub open spec fn entries(self) -> Seq<(Seq<u8>, Seq<char>)> {
        arms_view(self.arms@)
    }

    /// Well-formed: the entries are strictly ordered by the emission
    /// order, which makes them unique and sorted longest-first.
    pub open spec fn wf(self) -> bool {
        forall|i: int, j: int|
            0 <= i < j < self.entries().len() ==> key_lt(
                (#[trigger] self.entries()[i]).0,
                (#[trigger] self.entries()[j]).0,
            )
    }

    /// Create a matcher that will emit a function whose definition starts
    /// with `fn_name` and whose match arms produce values of
    /// `return_type`.
    pub fn new(fn_name: &str, return_type: &str) -> (r: Self)
        ensures
            r.fn_name@ == fn_name@,
            r.return_type@ == return_type@,
            r.return_slice == true,
            r.disable_clippy == false,
            r.must_use == true,
            r.doc is None,
            r.wf(),
            r.entries().len() == 0,
    {
        FlatMatcher {
            fn_name: String::from_str(fn_name),
            return_type: String::from_str(return_type),
            return_slice: true,
            disable_clippy: false,
            must_use: true,
            doc: None,
            arms: Vec::new(),
        }
    }

    /// Register a match: `key` will produce `value`, overwriting any
    /// payload registered for `key` before.
    pub fn add(&mut self, key: &[u8], value: &str)
        requires
            old(self).wf(),
        ensures
            final(self).wf(),
            forall|k: Seq<u8>|
                es_lookup(final(self).entries(), k) == (if k == key@ {
                    Some(value@)
                } else {
                    es_lookup(old(self).entries(), k)
                }),
            final(self).fn_name == old(self).fn_name,
            final(self).return_type == old(self).return_type,
            final(self).return_slice == old(self).return_slice,
            final(self).disable_clippy == old(self).disable_clippy,
            final(self).must_use == old(self).must_use,
            final(self).doc == old(self).doc,
    {
        let ghost old_self = *old(self);
        let j = self.find_at_least(key);
        let eq_here = j < self.arms.len() && bytes_eq(&self.arms[j].0, key);
        proof {
            if !eq_here {
                assert forall|t: int| 0 <= t < old_self.entries().len() implies (
                #[trigger] old_self.entries()[t]).0 != key@ by {
                    if t < j {
                    } else if t == j {
                    } else {
                        if old_self.entries()[t].0 == key@ {
                            assert(key_lt(old_self.entries()[j as int].0, old_self.entries()[t].0));
                        }
                    }
                    lemma_key_lt_irrefl(old_self.entries()[t].0);
                }
            }
        }
        if eq_here {
            let (kk, _) = self.arms.remove(j);
            self.arms.insert(j, (kk, value.to_owned()));
            proof {
                assert(self.entries() =~= old_self.entries().update(
                    j as int,
                    (key@, value@),
                ));
                assert forall|i: int, t: int|
                    0 <= i < t < old_self.entries().len() implies (#[trigger] old_self.entries()[i]).0
                    != (#[trigger] old_self.entries()[t]).0 by {
                    lemma_key_lt_irrefl(old_self.entries()[i].0);
                }
                lemma_es_lookup_update(old_self.entries(), j as int, value@);
                assert(final(self).wf()) by {
                    assert forall|i: int, t: int|
                        0 <= i < t < self.entries().len() implies key_lt(
                        (#[trigger] self.entries()[i]).0,
                        (#[trigger] self.entries()[t]).0,
                    ) by {
                        assert(old_self.entries()[i as int].0 == self.entries()[i as int].0
                            || i == j);
                        assert(key_lt(old_self.entries()[i].0, old_self.entries()[t].0));
                    }
                }
            }
        } else {
            let kv = to_vec_bytes(key);
            self.arms.insert(j, (kv, value.to_owned()));
            proof {
                assert(self.entries() =~= old_self.entries().insert(j as int, (key@, value@)));
                lemma_es_lookup_insert(old_self.entries(), j as int, key@, value@);
                assert(final(self).wf()) by {
                    if j < old_self.entries().len() {
                        lemma_key_lt_connex(key@, old_self.entries()[j as int].0);
                    }
                    assert forall|i: int, t: int|
                        0 <= i < t < self.entries().len() implies key_lt(
                        (#[trigger] self.entries()[i]).0,
                        (#[trigger] self.entries()[t]).0,
                    ) by {
                        let es = old_self.entries();
                        if i < j && t == j {
                        } else if i == j && t > j {
                            assert(key_lt(key@, es[t - 1].0)) by {
                                if t - 1 > j {
                                    lemma_key_lt_trans(key@, es[j as int].0, es[t - 1].0);
                                }
                            }
                        } else if i < j && t > j {
                            assert(key_lt(es[i].0, es[t - 1].0));
                        } else if i > j && t > j {
                            assert(key_lt(es[i - 1].0, es[t - 1].0));
                        } else {
                            assert(key_lt(es[i].0, es[t].0));
                        }
                    }
                }
            }
        }
    }

    /// The first entry position whose key is not before `key` in the
    /// emission order.
    fn find_at_least(&self, key: &[u8]) -> (j: usize)
        requires
            self.wf(),
        ensures
            j <= self.entries().len(),
            forall|i: int| 0 <= i < j ==> key_lt((#[trigger] self.entries()[i]).0, key@),
            j < self.entries().len() ==> !key_lt(self.entries()[j as int].0, key@),
    {
        let mut j: usize = 0;
        while j < self.arms.len() && key_lt_exec(&self.arms[j].0, key)
            invariant
                j <= self.entries().len(),
                forall|i: int| 0 <= i < j ==> key_lt((#[trigger] self.entries()[i]).0, key@),
            decreases self.arms@.len() - j,
        {
            j = j + 1;
        }
        j
    }
}

/// Whether `a` comes before `b` in the emission order.
fn key_lt_exec(a: &Vec<u8>, b: &[u8]) -> (r: bool)
    ensures
        r == key_lt(a@, b@),
{
    if a.len() > b.len() {
        return true;
    }
    if a.len() < b.len() {
        return false;
    }
    let mut i: usize = 0;
    while i < a.len()
        invariant
            i <= a@.len(),
            a@.len() == b@.len(),
            forall|t: int| 0 <= t < i ==> a@[t] == b@[t],
        decreases a@.len() - i,
    {
        if a[i] < b[i] {
            proof {
                lemma_lex_lt_index(a@, b@, i as int);
            }
            return true;
        }
        if a[i] > b[i] {
            proof {
                lemma_lex_lt_index(b@, a@, i as int);
                if lex_lt(a@, b@) {
                    lemma_lex_lt_trans(a@, b@, a@);
                    lemma_lex_lt_irrefl(a@);
                }
            }
            return false;
        }
        i = i + 1;
    }
    proof {
        assert(a@ =~= b@);
        lemma_lex_lt_irrefl(a@);
    }
    false
}

/// With equal prefixes before `i` and a smaller byte at `i`, the first
/// sequence is lexicographically smaller.
proof fn lemma_lex_lt_index(a: Seq<u8>, b: Seq<u8>, i: int)
    requires
        a.len() == b.len(),
        0 <= i < a.len(),
        forall|t: int| 0 <= t < i ==> a[t] == b[t],
        a[i] < b[i],
    ensures
        lex_lt(a, b),
    decreases i,
{
    if i > 0 {
        lemma_lex_lt_index(a.drop_first(), b.drop_first(), i - 1);
    }
}

/// A fresh vector holding the bytes of a slice.
fn to_vec_bytes(b: &[u8]) -> (v: Vec<u8>)
    ensures
        v@ == b@,
{
    let mut v: Vec<u8> = Vec::new();
    let mut i: usize = 0;
    while i < b.len()
        invariant
            i <= b@.len(),
            v@ == b@.take(i as int),
        decreases b@.len() - i,
    {
        v.push(b[i]);
        proof {
            assert(v@ =~= b@.take(i as int + 1));
        }
        i = i + 1;
    }
    proof {
        assert(b@.take(b@.len() as int) =~= b@);
    }
    v
}

/// Whether a vector and a slice hold the same bytes.
fn bytes_eq(a: &Vec<u8>, b: &[u8]) -> (r: bool)
    ensures
        r == (a@ == b@),
{
    if a.len() != b.len() {
        proof {
            assert(a@ != b@);
        }
        return false;
    }
    let mut i: usize = 0;
    while i < a.len()
        invariant
            i <= a@.len(),
            a@.len() == b@.len(),
            forall|t: int| 0 <= t < i ==> a@[t] == b@[t],
        decreases a@.len() - i,
    {
        if a[i] != b[i] {
            return false;
        }
        i = i + 1;
    }
    proof {
        assert(a@ =~= b@);
    }
    true
}

/// Replacing the payload at `j` changes only what that entry's key maps
/// to, provided no other entry shares the key.
proof fn lemma_es_lookup_update(es: Seq<(Seq<u8>, Seq<char>)>, j: int, v: Seq<char>)
    requires
        0 <= j < es.len(),
        forall|i: int, t: int|
            0 <= i < t < es.len() ==> (#[trigger] es[i]).0 != (#[trigger] es[t]).0,
    ensures
        forall|k: Seq<u8>|
            es_lookup(es.update(j, (es[j].0, v)), k) == (if k == es[j].0 {
                Some(v)
            } else {
                es_lookup(es, k)
            }),
    decreases es.len(),
{
    assert forall|k: Seq<u8>|
        es_lookup(es.update(j, (es[j].0, v)), k) == (if k == es[j].0 {
            Some(v)
        } else {
            es_lookup(es, k)
        }) by {
        lemma_es_lookup_update_one(es, j, v, k);
    }
}

proof fn lemma_es_lookup_update_one(es: Seq<(Seq<u8>, Seq<char>)>, j: int, v: Seq<char>, k: Seq<u8>)
    requires
        0 <= j < es.len(),
        forall|i: int, t: int|
            0 <= i < t < es.len() ==> (#[trigger] es[i]).0 != (#[trigger] es[t]).0,
    ensures
        es_lookup(es.update(j, (es[j].0, v)), k) == (if k == es[j].0 {
            Some(v)
        } else {
            es_lookup(es, k)
        }),
    decreases es.len(),
{
    let t = es.update(j, (es[j].0, v));
    if j == 0 {
        if k == es[0].0 {
        } else {
            assert(t.drop_first() =~= es.drop_first());
        }
    } else {
        assert(t[0] == es[0]);
        assert(t.drop_first() =~= es.drop_first().update(j - 1, (es[j].0, v)));
        assert(es.drop_first()[j - 1] == es[j]);
        if k == es[0].0 {
            assert(es[0].0 != es[j].0);
        } else {
            lemma_es_lookup_update_one(es.drop_first(), j - 1, v, k);
        }
    }
}

/// Inserting an absent key makes the lookup find its payload and leaves
/// every other key alone.
proof fn lemma_es_lookup_insert(es: Seq<(Seq<u8>, Seq<char>)>, j: int, key: Seq<u8>, v: Seq<char>)
    requires
        0 <= j <= es.len(),
        forall|i: int| 0 <= i < es.len() ==> (#[trigger] es[i]).0 != key,
    ensures
        forall|k: Seq<u8>|
            es_lookup(es.insert(j, (key, v)), k) == (if k == key {
                Some(v)
            } else {
                es_lookup(es, k)
            }),
    decreases es.len(),
{
    assert forall|k: Seq<u8>|
        es_lookup(es.insert(j, (key, v)), k) == (if k == key {
            Some(v)
        } else {
            es_lookup(es, k)
        }) by {
        lemma_es_lookup_insert_one(es, j, key, v, k);
    }
}

proof fn lemma_es_lookup_insert_one(
    es: Seq<(Seq<u8>, Seq<char>)>,
    j: int,
    key: Seq<u8>,
    v: Seq<char>,
    k: Seq<u8>,
)
    requires
        0 <= j <= es.len(),
        forall|i: int| 0 <= i < es.len() ==> (#[trigger] es[i]).0 != key,
    ensures
        es_lookup(es.insert(j, (key, v)), k) == (if k == key {
            Some(v)
        } else {
            es_lookup(es, k)
        }),
    decreases es.len(),
{
    let t = es.insert(j, (key, v));
    if j == 0 {
        assert(t[0] == (key, v));
        assert(t.drop_first() =~= es);
    } else {
        assert(t[0] == es[0]);
        assert(t.drop_first() =~= es.drop_first().insert(j - 1, (key, v)));
        lemma_es_lookup_insert_one(es.drop_first(), j - 1, key, v, k);
    }
}

/// An ordered entry list is in particular sorted longest-first, which is
/// what the flat/tree equivalence theorem asks of it.
pub proof fn lemma_wf_sorted(m: FlatMatcher)
    requires
        m.wf(),
    ensures
        sorted_len_desc(m.entries()),
{
}

/// The bytes of a key as they appear inside a pattern: decimal values
/// with `", "` between neighbours.
pub open spec fn spec_join_dec(key: Seq<u8>) -> Seq<char>
    decreases key.len(),
{
    if key.len() == 0 {
        Seq::empty()
    } else if key.len() == 1 {
        text::spec_dec(key[0] as nat)
    } else {
        text::spec_dec(key[0] as nat) + ", "@ + spec_join_dec(key.drop_first())
    }
}

/// Relies on `itertools::join`: writes each byte with its `Display`
/// implementation, which for `u8` is its decimal value, and puts the
/// separator `", "` between neighbours; an empty iterator gives an empty
/// string.
#[verifier::external_body]
fn join_dec(key: &Vec<u8>) -> (r: String)
    ensures
        r@ == spec_join_dec(key@),
{
    itertools::join(key.iter(), ", ")
}

/// The function name with `const` added when the matcher returns an
/// index: unchanged when it returns a slice; prefixed when the name
/// starts with `fn `; otherwise every ` fn ` becomes ` const fn `.
pub open spec fn spec_flat_fn_name(m: FlatMatcher) -> Seq<char> {
    if m.return_slice {
        m.fn_name@
    } else if "fn "@.len() <= m.fn_name@.len() && m.fn_name@.take("fn "@.len() as int) == "fn "@ {
        "const "@ + m.fn_name@
    } else {
        text::spec_replace(m.fn_name@, " fn "@, " const fn "@)
    }
}

/// The attribute lines above an emitted flat matcher or stub.
pub open spec fn spec_flat_attributes(m: FlatMatcher) -> Seq<char> {
    (match m.doc {
        Some(d) => d@ + "\n"@,
        None => Seq::empty(),
    }) + (if m.must_use {
        "#[must_use]\n"@
    } else {
        Seq::empty()
    })
}

/// The attribute lines and the signature line shared by the emitted flat
/// matcher and its stub; `param` is the name the input parameter gets.
pub open spec fn spec_flat_fn_start(m: FlatMatcher, param: Seq<char>) -> Seq<char> {
    spec_flat_attributes(m) + spec_flat_fn_name(m) + "("@ + param + ": &[u8]) -> (Option<"@
        + m.return_type@ + ">, "@ + (if m.return_slice {
        "&[u8]"@
    } else {
        "usize"@
    }) + ") {\n"@
}

/// One arm of the emitted `match`: a fixed-width pattern for the key and
/// the result tuple with the payload and the remainder.
pub open spec fn spec_flat_arm(key: Seq<u8>, value: Seq<char>, return_slice: bool) -> Seq<char> {
    "        ["@ + (if key.len() == 0 {
        Seq::<char>::empty()
    } else {
        spec_join_dec(key) + ", "@
    }) + "..] => (Some("@ + value + "), "@ + (if return_slice {
        "&slice["@ + text::spec_dec(key.len()) + "..]"@
    } else {
        text::spec_dec(key.len())
    }) + "),\n"@
}

/// The arms for the entries from position `k` on, in emission order.
pub open spec fn spec_flat_arms(es: Seq<(Seq<u8>, Seq<char>)>, k: nat, return_slice: bool) -> Seq<
    char,
>
    decreases es.len() - k,
{
    if k >= es.len() {
        Seq::empty()
    } else {
        spec_flat_arm(es[k as int].0, es[k as int].1, return_slice) + spec_flat_arms(
            es,
            (k + 1) as nat,
            return_slice,
        )
    }
}

/// The whole emitted flat matcher function, attributes included.
pub open spec fn spec_flat_func(m: FlatMatcher) -> Seq<char> {
    spec_flat_fn_start(m, "slice"@) + "    #[allow(unreachable_patterns)]\n    match slice {\n"@
        + spec_flat_arms(m.entries(), 0, m.return_slice) + "        _ => (None, "@ + (
    if m.return_slice {
        "slice"@
    } else {
        "0"@
    }) + "),\n    }\n}\n"@
}

/// The always-no-match stub with the same signature.
pub open spec fn spec_flat_stub(m: FlatMatcher) -> Seq<char> {
    spec_flat_fn_start(m, if m.return_slice {
        "slice"@
    } else {
        "_"@
    }) + "    (None, "@ + (if m.return_slice {
        "slice"@
    } else {
        "0"@
    }) + ")\n}\n"@
}

/// Everything [`FlatMatcher::render`] writes.
pub open spec fn spec_flat_render(m: FlatMatcher) -> Seq<char> {
    if m.disable_clippy {
        "#[cfg(not(clippy))]\n"@ + spec_flat_func(m) + "\n#[cfg(clippy)]\n"@ + spec_flat_stub(m)
    } else {
        spec_flat_func(m)
    }
}

/// What the entry lookup becomes after registering `pairs` in order on
/// top of the entries `base`: the last pair for a key wins.
pub open spec fn fold_es_lookup(
    base: Seq<(Seq<u8>, Seq<char>)>,
    pairs: Seq<(Seq<u8>, Seq<char>)>,
    k: Seq<u8>,
) -> Option<Seq<char>>
    decreases pairs.len(),
{
    if pairs.len() == 0 {
        es_lookup(base, k)
    } else if pairs.last().0 == k {
        Some(pairs.last().1)
    } else {
        fold_es_lookup(base, pairs.drop_last(), k)
    }
}

impl FlatMatcher {
    /// Register every pair in order; a later pair with the same key
    /// overwrites the earlier payload.
    pub fn extend(&mut self, pairs: &Vec<(Vec<u8>, String)>)
        requires
            old(self).wf(),
        ensures
            final(self).wf(),
            forall|k: Seq<u8>|
                es_lookup(final(self).entries(), k) == fold_es_lookup(
                    old(self).entries(),
                    crate::tree::pairs_view(pairs@),
                    k,
                ),
            final(self).fn_name == old(self).fn_name,
            final(self).return_type == old(self).return_type,
            final(self).return_slice == old(self).return_slice,
            final(self).disable_clippy == old(self).disable_clippy,
            final(self).must_use == old(self).must_use,
            final(self).doc == old(self).doc,
    {
        let ghost base = old(self).entries();
        let mut i: usize = 0;
        while i < pairs.len()
            invariant
                i <= pairs@.len(),
                self.wf(),
                forall|k: Seq<u8>|
                    es_lookup(self.entries(), k) == fold_es_lookup(
                        base,
                        crate::tree::pairs_view(pairs@).take(i as int),
                        k,
                    ),
                self.fn_name == old(self).fn_name,
                self.return_type == old(self).return_type,
                self.return_slice == old(self).return_slice,
                self.disable_clippy == old(self).disable_clippy,
                self.must_use == old(self).must_use,
                self.doc == old(self).doc,
            decreases pairs@.len() - i,
        {
            let pair = &pairs[i];
            self.add(pair.0.as_slice(), pair.1.as_str());
            proof {
                let pv = crate::tree::pairs_view(pairs@);
                assert(pv.take(i as int + 1).drop_last() =~= pv.take(i as int));
                assert(pv.take(i as int + 1).last() == pv[i as int]);
            }
            i = i + 1;
        }
        proof {
            assert(crate::tree::pairs_view(pairs@).take(pairs@.len() as int)
                =~= crate::tree::pairs_view(pairs@));
        }
    }

    /// Emit a function that returns the remainder of the input as a
    /// slice. This is the default.
    pub fn return_slice(&mut self)
        ensures
            *final(self) == (FlatMatcher { return_slice: true, ..*old(self) }),
    {
        self.return_slice = true;
    }

    /// Emit a `const` function that returns the index of the next
    /// unmatched byte instead of a slice. The index can sit just past the
    /// end of the input when all of it was matched.
    pub fn return_index(&mut self)
        ensures
            *final(self) == (FlatMatcher { return_slice: false, ..*old(self) }),
    {
        self.return_slice = false;
    }

    /// Set whether to hide the emitted matcher from `clippy` and emit an
    /// always-no-match stub for that pass instead.
    pub fn disable_clippy(&mut self, disable: bool)
        ensures
            *final(self) == (FlatMatcher { disable_clippy: disable, ..*old(self) }),
    {
        self.disable_clippy = disable;
    }

    /// Set whether to mark the emitted function `#[must_use]`.
    pub fn must_use(&mut self, must_use: bool)
        ensures
            *final(self) == (FlatMatcher { must_use: must_use, ..*old(self) }),
    {
        self.must_use = must_use;
    }

    /// Emit no documentation attribute. This is the default.
    pub fn remove_doc(&mut self)
        ensures
            *final(self) == (FlatMatcher { doc: None, ..*old(self) }),
    {
        self.doc = None;
    }

    /// Document the emitted function with a string: produces an attribute
    /// of the shape `#[doc = "..."]`, with the quote, the backslash and
    /// the common control characters escaped.
    pub fn doc(&mut self, doc: &str)
        ensures
            final(self).doc is Some,
            final(self).doc->Some_0@ == "#[doc = \""@ + text::spec_esc(doc@) + "\"]"@,
            final(self).fn_name == old(self).fn_name,
            final(self).return_type == old(self).return_type,
            final(self).return_slice == old(self).return_slice,
            final(self).disable_clippy == old(self).disable_clippy,
            final(self).must_use == old(self).must_use,
            final(self).arms == old(self).arms,
    {
        let mut d = String::from_str("#[doc = \"");
        text::append_esc(&mut d, doc);
        d.append("\"]");
        self.doc = Some(d);
    }

    /// Document the emitted function with a Rust expression, spliced
    /// verbatim: produces `#[doc = <expression>]`.
    pub fn doc_raw(&mut self, doc: &str)
        ensures
            final(self).doc is Some,
            final(self).doc->Some_0@ == "#[doc = "@ + doc@ + "]"@,
            final(self).fn_name == old(self).fn_name,
            final(self).return_type == old(self).return_type,
            final(self).return_slice == old(self).return_slice,
            final(self).disable_clippy == old(self).disable_clippy,
            final(self).must_use == old(self).must_use,
            final(self).arms == old(self).arms,
    {
        let mut d = String::from_str("#[doc = ");
        d.append(doc);
        d.append("]");
        self.doc = Some(d);
    }

    /// Document the emitted function with a doc option: produces
    /// `#[doc(<option>)]`, e.g. `#[doc(hidden)]`.
    pub fn doc_option(&mut self, doc: &str)
        ensures
            final(self).doc is Some,
            final(self).doc->Some_0@ == "#[doc("@ + doc@ + ")]"@,
            final(self).fn_name == old(self).fn_name,
            final(self).return_type == old(self).return_type,
            final(self).return_slice == old(self).return_slice,
            final(self).disable_clippy == old(self).disable_clippy,
            final(self).must_use == old(self).must_use,
            final(self).arms == old(self).arms,
    {
        let mut d = String::from_str("#[doc(");
        d.append(doc);
        d.append(")]");
        self.doc = Some(d);
    }

    /// Render the matcher into Rust code: the matcher function, and, when
    /// the `clippy` bypass is on, the always-no-match stub under the
    /// opposite `cfg` guard.
    pub fn render(&self) -> (out: String)
        ensures
            out@ == spec_flat_render(*self),
    {
        let mut out = String::new();
        if self.disable_clippy {
            out.append("#[cfg(not(clippy))]\n");
        }
        let body = self.render_func();
        out.append(body.as_str());
        if self.disable_clippy {
            out.append("\n#[cfg(clippy)]\n");
            let stub = self.render_stub();
            out.append(stub.as_str());
        }
        proof {
            assert(out@ =~= spec_flat_render(*self));
        }
        out
    }

    /// Render the matching function alone: attributes, the signature, and
    /// one arm per entry, longest keys first, with the default arm
    /// reporting no match.
    pub fn render_func(&self) -> (out: String)
        ensures
            out@ == spec_flat_func(*self),
    {
        let mut out = String::new();
        self.render_fn_start(&mut out, "slice");
        out.append("    #[allow(unreachable_patterns)]\n    match slice {\n");
        render_flat_arms(&self.arms, 0, self.return_slice, &mut out);
        out.append("        _ => (None, ");
        if self.return_slice {
            out.append("slice");
        } else {
            out.append("0");
        }
        out.append("),\n    }\n}\n");
        proof {
            assert(out@ =~= spec_flat_func(*self));
        }
        out
    }

    /// Render the always-no-match stub alone.
    pub fn render_stub(&self) -> (out: String)
        ensures
            out@ == spec_flat_stub(*self),
    {
        let mut out = String::new();
        if self.return_slice {
            self.render_fn_start(&mut out, "slice");
        } else {
            self.render_fn_start(&mut out, "_");
        }
        out.append("    (None, ");
        if self.return_slice {
            out.append("slice");
        } else {
            out.append("0");
        }
        out.append(")\n}\n");
        proof {
            assert(out@ =~= spec_flat_stub(*self));
        }
        out
    }

    /// The function name with `const` added in the right place when the
    /// emitted function can be `const`.
    fn fn_name(&self) -> (r: String)
        ensures
            r@ == spec_flat_fn_name(*self),
    {
        if self.return_slice {
            self.fn_name.clone()
        } else if text::str_starts_with(self.fn_name.as_str(), "fn ") {
            let mut r = String::from_str("const ");
            r.append(self.fn_name.as_str());
            r
        } else {
            text::replace(self.fn_name.as_str(), " fn ", " const fn ")
        }
    }

    /// Append the attribute lines and the signature line.
    fn render_fn_start(&self, out: &mut String, param: &str)
        ensures
            final(out)@ == old(out)@ + spec_flat_fn_start(*self, param@),
    {
        match &self.doc {
            Some(d) => {
                out.append(d.as_str());
                out.append("\n");
            },
            None => {},
        }
        if self.must_use {
            out.append("#[must_use]\n");
        }
        let name = self.fn_name();
        out.append(name.as_str());
        out.append("(");
        out.append(param);
        out.append(": &[u8]) -> (Option<");
        out.append(self.return_type.as_str());
        out.append(">, ");
        if self.return_slice {
            out.append("&[u8]");
        } else {
            out.append("usize");
        }
        out.append(") {\n");
        proof {
            assert(out@ =~= old(out)@ + spec_flat_fn_start(*self, param@));
        }
    }
}

/// Append the arms for the entries from position `k` on.
fn render_flat_arms(v: &Vec<(Vec<u8>, String)>, k: usize, return_slice: bool, out: &mut String)
    requires
        k <= v@.len(),
    ensures
        final(out)@ == old(out)@ + spec_flat_arms(arms_view(v@), k as nat, return_slice),
    decreases v@.len() - k,
{
    if k < v.len() {
        let pair = &v[k];
        out.append("        [");
        if pair.0.len() > 0 {
            let joined = join_dec(&pair.0);
            out.append(joined.as_str());
            out.append(", ");
        }
        out.append("..] => (Some(");
        out.append(pair.1.as_str());
        out.append("), ");
        if return_slice {
            out.append("&slice[");
            text::append_dec(out, pair.0.len() as u64);
            out.append("..]");
        } else {
            text::append_dec(out, pair.0.len() as u64);
        }
        out.append("),\n");
        proof {
            assert(out@ =~= old(out)@ + spec_flat_arm(pair.0@, pair.1@, return_slice));
        }
        render_flat_arms(v, k + 1, return_slice, out);
        proof {
            assert(out@ =~= old(out)@ + spec_flat_arms(arms_view(v@), k as nat, return_slice));
        }
    }
}

} // verus!
