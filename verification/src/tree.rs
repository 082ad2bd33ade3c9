//! The trie of registered keys and the compiler that emits nested `match`
//! statements walking it byte by byte.

use vstd::prelude::*;
use vstd::string::StringExecFns;
use crate::text;

verus! {

/// A node in the prefix trie built from the registered keys.
///
/// A key of length `L` corresponds to the path of `L` bytes from the root;
/// the node the path ends at holds the key's payload in [`Self::leaf`].
/// The children are kept sorted by byte so that emission is deterministic.
#[derive(Debug)]
pub struct TreeNode {
    /// The payload produced when some registered key ends exactly at this
    /// node. `None` means no key ends here.
    pub leaf: Option<String>,
    /// The children, one per possible next byte, sorted by byte value with
    /// no byte repeated.
    pub branch: Vec<(u8, TreeNode)>,
}

/// The first node associated with byte `b`, scanning left to right.
pub open spec fn assoc_find(s: Seq<(u8, TreeNode)>, b: u8) -> Option<TreeNode>
    decreases s.len(),
{
    if s.len() == 0 {
        None
    } else if s[0].0 == b {
        Some(s[0].1)
    } else {
        assoc_find(s.drop_first(), b)
    }
}

impl TreeNode {
    /// The payload stored at this node, as a sequence of characters.
    pub open spec fn leaf_view(self) -> Option<Seq<char>> {
        match self.leaf {
            Some(s) => Some(s@),
            None => None,
        }
    }

    /// Well-formed: children sorted strictly by byte, each child
    /// well-formed, and each child's subtree holding at least one payload.
    pub open spec fn wf(self) -> bool
        decreases self,
    {
        &&& (forall|i: int, j: int|
            0 <= i < j < self.branch.len() ==> (#[trigger] self.branch@[i]).0 < (
            #[trigger] self.branch@[j]).0)
        &&& (forall|i: int|
            0 <= i < self.branch.len() ==> (#[trigger] self.branch@[i]).1.wf())
        &&& (forall|i: int|
            0 <= i < self.branch.len() ==> (#[trigger] self.branch@[i]).1.has_value())
    }

    /// Whether some key ends in this subtree.
    pub open spec fn has_value(self) -> bool
        decreases self,
    {
        self.leaf is Some || exists|i: int|
            0 <= i < self.branch.len() && (#[trigger] self.branch@[i]).1.has_value()
    }

    /// The payload registered for `key` below this node, if any.
    pub open spec fn lookup(self, key: Seq<u8>) -> Option<Seq<char>>
        decreases key.len(),
    {
        if key.len() == 0 {
            self.leaf_view()
        } else {
            match assoc_find(self.branch@, key[0]) {
                Some(child) => child.lookup(key.drop_first()),
                None => None,
            }
        }
    }

    /// The longest-match scan below this node: the payload of the longest
    /// key that is a prefix of `input`, together with the number of bytes
    /// that key covers. This is the matching discipline every emitted
    /// scanner implements.
    pub open spec fn scan(self, input: Seq<u8>) -> Option<(Seq<char>, nat)>
        decreases input.len(),
    {
        let deeper = if input.len() > 0 {
            match assoc_find(self.branch@, input[0]) {
                Some(child) => match child.scan(input.drop_first()) {
                    Some(r) => Some((r.0, (r.1 + 1) as nat)),
                    None => None,
                },
                None => None,
            }
        } else {
            None
        };
        if deeper is Some {
            deeper
        } else {
            match self.leaf_view() {
                Some(p) => Some((p, 0)),
                None => None,
            }
        }
    }

    /// Add a match rooted in this node: walk or create one child per byte
    /// of `key` and set the payload on the final node, overwriting any
    /// payload registered for `key` before.
    pub fn add(&mut self, key: &[u8], value: &str)
        requires
            old(self).wf(),
        ensures
            final(self).wf(),
            final(self).has_value(),
            final(self).depth() <= max_nat(old(self).depth(), key@.len()),
            forall|k: Seq<u8>|
                final(self).lookup(k) == (if k == key@ {
                    Some(value@)
                } else {
                    old(self).lookup(k)
                }),
    {
        self.add_from(key, 0, value);
        proof {
            assert(key@.subrange(0, key@.len() as int) =~= key@);
        }
    }

    /// Add the suffix of `key` that starts at `i`, rooted in this node.
    fn add_from(&mut self, key: &[u8], i: usize, value: &str)
        requires
            old(self).wf(),
            i <= key@.len(),
        ensures
            final(self).wf(),
            final(self).has_value(),
            final(self).depth() <= max_nat(old(self).depth(), (key@.len() - i) as nat),
            forall|k: Seq<u8>|
                final(self).lookup(k) == (if k == key@.subrange(i as int, key@.len() as int) {
                    Some(value@)
                } else {
                    old(self).lookup(k)
                }),
        decreases key@.len() - i,
    {
        if i == key.len() {
            self.leaf = Some(value.to_owned());
            proof {
                assert(key@.subrange(i as int, key@.len() as int).len() == 0);
                assert forall|k: Seq<u8>|
                    self.lookup(k) == (if k == key@.subrange(
                        i as int,
                        key@.len() as int,
                    ) {
                        Some(value@)
                    } else {
                        old(self).lookup(k)
                    }) by {
                    if k.len() == 0 {
                        assert(k =~= key@.subrange(i as int, key@.len() as int));
                    }
                }
            }
        } else {
            let b = key[i];
            let j = self.find_at_least(b);
            let ghost old_self = *self;
            let ghost suffix = key@.subrange(i as int, key@.len() as int);
            let ghost child_suffix = key@.subrange(i as int + 1, key@.len() as int);
            proof {
                assert(suffix.len() > 0);
                assert(suffix[0] == b);
                assert(suffix.drop_first() =~= child_suffix);
            }
            if j < self.branch.len() && self.branch[j].0 == b {
                let (bb, mut child) = self.branch.remove(j);
                let ghost old_child = child;
                child.add_from(key, i + 1, value);
                self.branch.insert(j, (bb, child));
                proof {
                    assert(self.branch@ =~= old_self.branch@.update(j as int, (b, child)));
                    lemma_assoc_find_update(old_self.branch@, j as int, child);
                    lemma_assoc_find_present(old_self.branch@, j as int);
                    lemma_depth_arms_update(old_self.branch@, j as int, (b, child));
                    lemma_depth_arms(old_self.branch@, j as int);
                    assert forall|k: Seq<u8>|
                        self.lookup(k) == (if k == suffix {
                            Some(value@)
                        } else {
                            old_self.lookup(k)
                        }) by {
                        if k.len() == 0 {
                            assert(k != suffix);
                            assert(self.lookup(k) == old_self.lookup(k));
                        } else if k[0] == b {
                            assert(assoc_find(self.branch@, k[0]) == Some(child));
                            assert(assoc_find(old_self.branch@, k[0]) == Some(old_child));
                            assert(self.lookup(k) == child.lookup(k.drop_first()));
                            assert(old_self.lookup(k) == old_child.lookup(k.drop_first()));
                            if k == suffix {
                                assert(k.drop_first() =~= child_suffix);
                                assert(child.lookup(k.drop_first()) == Some(value@));
                            } else {
                                assert(k.drop_first() != child_suffix) by {
                                    if k.drop_first() == child_suffix {
                                        assert(k.len() == suffix.len());
                                        assert forall|t: int| 0 <= t < k.len() implies k[t]
                                            == suffix[t] by {
                                            if t > 0 {
                                                assert(k[t] == k.drop_first()[t - 1]);
                                                assert(suffix[t] == suffix.drop_first()[t - 1]);
                                            }
                                        }
                                        assert(k =~= suffix);
                                    }
                                }
                            }
                        } else {
                            assert(assoc_find(self.branch@, k[0]) == assoc_find(
                                old_self.branch@,
                                k[0],
                            ));
                            assert(k != suffix);
                        }
                    }
                }
            } else {
                let mut child = TreeNode { leaf: None, branch: Vec::new() };
                let ghost empty_child = child;
                child.add_from(key, i + 1, value);
                self.branch.insert(j, (b, child));
                proof {
                    lemma_depth_arms_insert(old_self.branch@, j as int, (b, child));
                    assert(forall|k: Seq<u8>| empty_child.lookup(k) is None);
                    assert forall|i: int| 0 <= i < old_self.branch@.len() implies (
                    #[trigger] old_self.branch@[i]).0 != b by {
                        if i >= j {
                            assert(old_self.branch@[j as int].0 > b || i > j);
                        }
                    }
                    lemma_assoc_find_absent(old_self.branch@, b);
                    lemma_assoc_find_insert(old_self.branch@, j as int, b, child);
                    assert forall|k: Seq<u8>|
                        self.lookup(k) == (if k == suffix {
                            Some(value@)
                        } else {
                            old_self.lookup(k)
                        }) by {
                        if k.len() == 0 {
                            assert(k != suffix);
                        } else if k[0] == b {
                            assert(assoc_find(self.branch@, k[0]) == Some(child));
                            assert(assoc_find(old_self.branch@, k[0]) is None);
                            if k == suffix {
                                assert(k.drop_first() =~= child_suffix);
                            } else {
                                assert(k.drop_first() != child_suffix) by {
                                    if k.drop_first() == child_suffix {
                                        assert(k.len() == suffix.len());
                                        assert forall|t: int| 0 <= t < k.len() implies k[t]
                                            == suffix[t] by {
                                            if t > 0 {
                                                assert(k[t] == k.drop_first()[t - 1]);
                                                assert(suffix[t] == suffix.drop_first()[t - 1]);
                                            }
                                        }
                                        assert(k =~= suffix);
                                    }
                                }
                                assert(child.lookup(k.drop_first()) == empty_child.lookup(
                                    k.drop_first(),
                                ));
                            }
                        } else {
                            assert(assoc_find(self.branch@, k[0]) == assoc_find(
                                old_self.branch@,
                                k[0],
                            ));
                            assert(k != suffix);
                        }
                    }
                }
            }
        }
    }

    /// The first child position whose byte is at least `b`.
    fn find_at_least(&self, b: u8) -> (j: usize)
        requires
            self.wf(),
        ensures
            j <= self.branch@.len(),
            forall|i: int| 0 <= i < j ==> (#[trigger] self.branch@[i]).0 < b,
            j < self.branch@.len() ==> self.branch@[j as int].0 >= b,
    {
        let mut j: usize = 0;
        while j < self.branch.len() && self.branch[j].0 < b
            invariant
                j <= self.branch@.len(),
                forall|i: int| 0 <= i < j ==> (#[trigger] self.branch@[i]).0 < b,
            decreases self.branch@.len() - j,
        {
            j = j + 1;
        }
        j
    }
}

impl Default for TreeNode {
    /// The empty trie: no payload, no children.
    fn default() -> (r: Self)
        ensures
            r.wf(),
            !r.has_value(),
            r.leaf is None,
            r.branch@.len() == 0,
    {
        TreeNode { leaf: None, branch: Vec::new() }
    }
}

/// A byte that is present is found, provided no earlier entry shares it.
proof fn lemma_assoc_find_present(s: Seq<(u8, TreeNode)>, j: int)
    requires
        0 <= j < s.len(),
        forall|i: int| 0 <= i < j ==> (#[trigger] s[i]).0 != s[j].0,
    ensures
        assoc_find(s, s[j].0) == Some(s[j].1),
    decreases s.len(),
{
    if j > 0 {
        assert(s.drop_first()[j - 1] == s[j]);
        lemma_assoc_find_present(s.drop_first(), j - 1);
    }
}

/// A byte that no entry carries is not found.
proof fn lemma_assoc_find_absent(s: Seq<(u8, TreeNode)>, b: u8)
    requires
        forall|i: int| 0 <= i < s.len() ==> (#[trigger] s[i]).0 != b,
    ensures
        assoc_find(s, b) is None,
    decreases s.len(),
{
    if s.len() > 0 {
        lemma_assoc_find_absent(s.drop_first(), b);
    }
}

/// If every entry's byte differs from every other and position `j` keeps
/// its byte, replacing the node at `j` changes only what that byte maps to.
proof fn lemma_assoc_find_update(s: Seq<(u8, TreeNode)>, j: int, n: TreeNode)
    requires
        0 <= j < s.len(),
        forall|i: int, k: int|
            0 <= i < k < s.len() ==> (#[trigger] s[i]).0 != (#[trigger] s[k]).0,
    ensures
        forall|c: u8|
            assoc_find(s.update(j, (s[j].0, n)), c) == (if c == s[j].0 {
                Some(n)
            } else {
                assoc_find(s, c)
            }),
    decreases s.len(),
{
    assert forall|c: u8|
        assoc_find(s.update(j, (s[j].0, n)), c) == (if c == s[j].0 {
            Some(n)
        } else {
            assoc_find(s, c)
        }) by {
        lemma_assoc_find_update_one(s, j, n, c);
    }
}

proof fn lemma_assoc_find_update_one(s: Seq<(u8, TreeNode)>, j: int, n: TreeNode, c: u8)
    requires
        0 <= j < s.len(),
        forall|i: int, k: int|
            0 <= i < k < s.len() ==> (#[trigger] s[i]).0 != (#[trigger] s[k]).0,
    ensures
        assoc_find(s.update(j, (s[j].0, n)), c) == (if c == s[j].0 {
            Some(n)
        } else {
            assoc_find(s, c)
        }),
    decreases s.len(),
{
    let t = s.update(j, (s[j].0, n));
    if j == 0 {
        if c == s[0].0 {
        } else {
            assert(t.drop_first() =~= s.drop_first());
        }
    } else {
        assert(t[0] == s[0]);
        assert(t.drop_first() =~= s.drop_first().update(j - 1, (s[j].0, n)));
        assert(s.drop_first()[j - 1] == s[j]);
        if c == s[0].0 {
            assert(s[0].0 != s[j].0);
        } else {
            lemma_assoc_find_update_one(s.drop_first(), j - 1, n, c);
        }
    }
}

/// Inserting a byte that is absent from the list makes `assoc_find` return
/// the new node for that byte and leaves every other byte alone.
proof fn lemma_assoc_find_insert(s: Seq<(u8, TreeNode)>, j: int, b: u8, n: TreeNode)
    requires
        0 <= j <= s.len(),
        forall|i: int| 0 <= i < s.len() ==> (#[trigger] s[i]).0 != b,
    ensures
        forall|c: u8|
            assoc_find(s.insert(j, (b, n)), c) == (if c == b {
                Some(n)
            } else {
                assoc_find(s, c)
            }),
    decreases s.len(),
{
    assert forall|c: u8|
        assoc_find(s.insert(j, (b, n)), c) == (if c == b {
            Some(n)
        } else {
            assoc_find(s, c)
        }) by {
        lemma_assoc_find_insert_one(s, j, b, n, c);
    }
}

proof fn lemma_assoc_find_insert_one(s: Seq<(u8, TreeNode)>, j: int, b: u8, n: TreeNode, c: u8)
    requires
        0 <= j <= s.len(),
        forall|i: int| 0 <= i < s.len() ==> (#[trigger] s[i]).0 != b,
    ensures
        assoc_find(s.insert(j, (b, n)), c) == (if c == b {
            Some(n)
        } else {
            assoc_find(s, c)
        }),
    decreases s.len(),
{
    let t = s.insert(j, (b, n));
    if j == 0 {
        assert(t[0] == (b, n));
        assert(t.drop_first() =~= s);
    } else {
        assert(t[0] == s[0]);
        assert(t.drop_first() =~= s.drop_first().insert(j - 1, (b, n)));
        lemma_assoc_find_insert_one(s.drop_first(), j - 1, b, n, c);
    }
}


/// The ghost image of a fallback: the payload committed so far and the
/// offset just past the bytes it covers.
pub open spec fn view_fb(fb: Option<(String, usize)>) -> Option<(Seq<char>, nat)> {
    match fb {
        Some(p) => Some((p.0@, p.1 as nat)),
        None => None,
    }
}

/// The longest path below this node, in edges.
pub open spec fn depth_arms(s: Seq<(u8, TreeNode)>) -> nat
    decreases s,
{
    if s.len() == 0 {
        0
    } else {
        let d = 1 + s[0].1.depth();
        let r = depth_arms(s.drop_first());
        if d > r {
            d
        } else {
            r
        }
    }
}

proof fn lemma_depth_arms(s: Seq<(u8, TreeNode)>, t: int)
    requires
        0 <= t < s.len(),
    ensures
        depth_arms(s) >= 1 + s[t].1.depth(),
    decreases s.len(),
{
    if t > 0 {
        lemma_depth_arms(s.drop_first(), t - 1);
    }
}

/// The larger of two lengths.
pub open spec fn max_nat(a: nat, b: nat) -> nat {
    if a >= b {
        a
    } else {
        b
    }
}

proof fn lemma_depth_arms_update(s: Seq<(u8, TreeNode)>, j: int, e: (u8, TreeNode))
    requires
        0 <= j < s.len(),
    ensures
        depth_arms(s.update(j, e)) <= max_nat(depth_arms(s), 1 + e.1.depth()),
    decreases s.len(),
{
    let t = s.update(j, e);
    if j == 0 {
        assert(t[0] == e);
        assert(t.drop_first() =~= s.drop_first());
    } else {
        assert(t[0] == s[0]);
        assert(t.drop_first() =~= s.drop_first().update(j - 1, e));
        lemma_depth_arms_update(s.drop_first(), j - 1, e);
    }
}

proof fn lemma_depth_arms_insert(s: Seq<(u8, TreeNode)>, j: int, e: (u8, TreeNode))
    requires
        0 <= j <= s.len(),
    ensures
        depth_arms(s.insert(j, e)) <= max_nat(depth_arms(s), 1 + e.1.depth()),
    decreases s.len(),
{
    let t = s.insert(j, e);
    if j == 0 {
        assert(t[0] == e);
        assert(t.drop_first() =~= s);
    } else {
        assert(t[0] == s[0]);
        assert(t.drop_first() =~= s.drop_first().insert(j - 1, e));
        lemma_depth_arms_insert(s.drop_first(), j - 1, e);
    }
}

/// The result tuple the emitted slice matcher produces for a committed
/// match, or for no match at all.
pub open spec fn spec_result_expr(res: Option<(Seq<char>, nat)>) -> Seq<char> {
    match res {
        Some(p) => "(Some("@ + p.0 + "), "@ + text::spec_slice_str(p.1) + ")"@,
        None => "(None, slice)"@,
    }
}

/// What one node contributes to the emitted slice matcher: a result tuple
/// at a dead end, otherwise a `match` on the byte at `index` with one arm
/// per child and a default arm that produces the best match committed so
/// far.
pub open spec fn spec_slice_child(
    node: TreeNode,
    index: nat,
    fb: Option<(Seq<char>, nat)>,
) -> Seq<char>
    decreases node, 1nat,
{
    let res = match node.leaf_view() {
        Some(l) => Some((l, index)),
        None => fb,
    };
    if node.branch.len() == 0 {
        let comma: Seq<char> = if index > 0 {
            ","@
        } else {
            Seq::empty()
        };
        spec_result_expr(res) + comma + "\n"@
    } else {
        spec_slice_branch(node, index, res)
    }
}

/// The `match` statement for a node with children: one arm per child and
/// a default arm that produces the best match committed so far.
pub open spec fn spec_slice_branch(
    node: TreeNode,
    index: nat,
    res: Option<(Seq<char>, nat)>,
) -> Seq<char>
    decreases node, 0nat,
{
    "match "@ + text::spec_slice_str(index) + " {\n"@ + spec_slice_arms(
        node.branch@,
        0,
        (index + 1) as nat,
        res,
    ) + text::spec_ind((index + 1) as nat) + "    _ => "@ + spec_result_expr(res) + ",\n"@
        + text::spec_ind((index + 1) as nat) + "}\n"@
}

/// The arms for the children from position `k` on, each matching one byte
/// and continuing with that child's contribution.
pub open spec fn spec_slice_arms(
    s: Seq<(u8, TreeNode)>,
    k: nat,
    next: nat,
    fb: Option<(Seq<char>, nat)>,
) -> Seq<char>
    decreases s, s.len() - k,
{
    if k >= s.len() {
        Seq::empty()
    } else {
        text::spec_ind(next) + "    ["@ + text::spec_dec(s[k as int].0 as nat) + ", ..] => "@
            + spec_slice_child(s[k as int].1, next, fb) + spec_slice_arms(s, (k + 1) as nat, next, fb)
    }
}

/// The whole emitted slice matcher: signature, body, closing brace.
pub open spec fn spec_render_slice(node: TreeNode, fn_name: Seq<char>, ret: Seq<char>) -> Seq<
    char,
> {
    fn_name + "(slice: &[u8]) -> (Option<"@ + ret + ">, &[u8]) {\n    "@ + spec_slice_child(
        node,
        0,
        None,
    ) + "}\n"@
}

/// Append the result tuple for a committed match (or for no match).
fn append_result_expr(out: &mut String, res: &Option<(String, usize)>)
    ensures
        final(out)@ == old(out)@ + spec_result_expr(view_fb(*res)),
{
    match res {
        Some(p) => {
            out.append("(Some(");
            out.append(p.0.as_str());
            out.append("), ");
            text::append_slice_str(out, p.1);
            out.append(")");
            proof {
                assert(out@ =~= old(out)@ + spec_result_expr(view_fb(*res)));
            }
        },
        None => {
            out.append("(None, slice)");
        },
    }
}

impl TreeNode {
    /// The longest registered key below this node, in bytes.
    pub open spec fn depth(self) -> nat
        decreases self,
    {
        depth_arms(self.branch@)
    }

    /// Render the matcher into Rust code that works on a slice.
    ///
    /// The generated function takes `slice: &[u8]` and returns the matched
    /// payload, if any, together with the remainder of the slice; its
    /// behaviour is [`Self::scan`]. The text is pinned exactly by
    /// [`spec_render_slice`].
    pub fn render_slice(&self, fn_name: &str, return_type: &str) -> (out: String)
        requires
            self.depth() <= usize::MAX as nat,
        ensures
            out@ == spec_render_slice(*self, fn_name@, return_type@),
    {
        let mut out = String::new();
        out.append(fn_name);
        out.append("(slice: &[u8]) -> (Option<");
        out.append(return_type);
        out.append(">, &[u8]) {\n    ");
        let fb: Option<(String, usize)> = None;
        self.render_slice_child(&mut out, 0, &fb);
        out.append("}\n");
        proof {
            assert(out@ =~= spec_render_slice(*self, fn_name@, return_type@));
        }
        out
    }

    /// Emit this node's contribution to the slice matcher.
    fn render_slice_child(&self, out: &mut String, index: usize, fb: &Option<(String, usize)>)
        requires
            index as nat + self.depth() <= usize::MAX as nat,
        ensures
            final(out)@ == old(out)@ + spec_slice_child(*self, index as nat, view_fb(*fb)),
        decreases *self, 1nat,
    {
        let with_leaf: Option<(String, usize)>;
        let res: &Option<(String, usize)> = match &self.leaf {
            Some(l) => {
                with_leaf = Some((l.clone(), index));
                &with_leaf
            },
            None => fb,
        };
        proof {
            assert(view_fb(*res) == (match self.leaf_view() {
                Some(l) => Some((l, index as nat)),
                None => view_fb(*fb),
            }));
        }
        if self.branch.len() == 0 {
            append_result_expr(out, res);
            if index > 0 {
                out.append(",");
            }
            out.append("\n");
            proof {
                assert(out@ =~= old(out)@ + spec_slice_child(*self, index as nat, view_fb(*fb)));
            }
        } else {
            self.render_slice_branch(out, index, res);
        }
    }

    /// Emit the `match` statement for a node with children.
    fn render_slice_branch(&self, out: &mut String, index: usize, res: &Option<(String, usize)>)
        requires
            self.branch@.len() > 0,
            index as nat + self.depth() <= usize::MAX as nat,
        ensures
            final(out)@ == old(out)@ + spec_slice_branch(*self, index as nat, view_fb(*res)),
        decreases *self, 0nat,
    {
        out.append("match ");
        text::append_slice_str(out, index);
        out.append(" {\n");
        proof {
            assert forall|t: int| 0 <= t < self.branch@.len() implies (index + 1) as nat + (
            #[trigger] self.branch@[t]).1.depth() <= usize::MAX as nat by {
                lemma_depth_arms(self.branch@, t);
            }
        }
        render_slice_arms(&self.branch, 0, index + 1, out, res);
        text::append_ind(out, index + 1);
        out.append("    _ => ");
        append_result_expr(out, res);
        out.append(",\n");
        text::append_ind(out, index + 1);
        out.append("}\n");
        proof {
            assert(out@ =~= old(out)@ + spec_slice_branch(*self, index as nat, view_fb(*res)));
        }
    }
}

/// Emit the arms for the children from position `k` on.
fn render_slice_arms(
    v: &Vec<(u8, TreeNode)>,
    k: usize,
    next: usize,
    out: &mut String,
    fb: &Option<(String, usize)>,
)
    requires
        k <= v@.len(),
        forall|t: int|
            0 <= t < v@.len() ==> next as nat + (#[trigger] v@[t]).1.depth() <= usize::MAX as nat,
    ensures
        final(out)@ == old(out)@ + spec_slice_arms(v@, k as nat, next as nat, view_fb(*fb)),
    decreases v@, v@.len() - k,
{
    if k < v.len() {
        let pair = &v[k];
        text::append_ind(out, next);
        out.append("    [");
        text::append_dec(out, pair.0 as u64);
        out.append(", ..] => ");
        pair.1.render_slice_child(out, next, fb);
        render_slice_arms(v, k + 1, next, out, fb);
        proof {
            assert(out@ =~= old(out)@ + spec_slice_arms(v@, k as nat, next as nat, view_fb(*fb)));
        }
    }
}

/// `Some(payload)` or `None`, as the emitted iterator matcher writes a
/// result.
pub open spec fn spec_leaf_str(res: Option<Seq<char>>) -> Seq<char> {
    match res {
        Some(l) => "Some("@ + l + ")"@,
        None => "None"@,
    }
}

/// What one node contributes to the emitted iterator matcher: a result at
/// a dead end; a bare `match` on the next byte where nothing new can be
/// committed; otherwise a block that snapshots the iterator before
/// branching, so that a failed deeper attempt can roll back to just after
/// the bytes consumed so far.
pub open spec fn spec_iter_child(node: TreeNode, level: nat, fb: Option<Seq<char>>) -> Seq<char>
    decreases node, 2nat,
{
    if node.branch.len() == 0 {
        spec_leaf_str(match node.leaf_view() {
            Some(l) => Some(l),
            None => fb,
        })
    } else if node.leaf_view() is None && level > 0 {
        spec_iter_match(node, level, fb)
    } else {
        spec_iter_block(node, level)
    }
}

/// The block that snapshots the iterator before branching, emitted for
/// the root and for every node where a key ends.
pub open spec fn spec_iter_block(node: TreeNode, level: nat) -> Seq<char>
    decreases node, 1nat,
{
    "{\n"@ + text::spec_ind(level) + "    let fallback_iter = iter.clone();\n"@
        + text::spec_ind(level) + "    "@ + spec_iter_match(
        node,
        (level + 1) as nat,
        node.leaf_view(),
    ) + "\n"@ + text::spec_ind(level) + "}"@
}

/// The `match iter.next()` statement for a node's children, with the
/// default arm restoring the snapshot and producing the committed match.
pub open spec fn spec_iter_match(node: TreeNode, level: nat, fb: Option<Seq<char>>) -> Seq<char>
    decreases node, 0nat,
{
    "match iter.next() {\n"@ + spec_iter_arms(node.branch@, 0, level, fb) + text::spec_ind(level)
        + "    _ => {\n"@ + text::spec_ind(level) + "        *iter = fallback_iter;\n"@
        + text::spec_ind(level) + "        "@ + spec_leaf_str(fb) + "\n"@ + text::spec_ind(level)
        + "    }\n"@ + text::spec_ind(level) + "}"@
}

/// The arms for the children from position `k` on.
pub open spec fn spec_iter_arms(
    s: Seq<(u8, TreeNode)>,
    k: nat,
    level: nat,
    fb: Option<Seq<char>>,
) -> Seq<char>
    decreases s, s.len() - k,
{
    if k >= s.len() {
        Seq::empty()
    } else {
        text::spec_ind(level) + "    Some("@ + text::spec_dec(s[k as int].0 as nat) + ") => "@
            + spec_iter_child(s[k as int].1, (level + 1) as nat, fb) + (if s[k as int].1.branch.len()
            == 0 {
            ",\n"@
        } else {
            "\n"@
        }) + spec_iter_arms(s, (k + 1) as nat, level, fb)
    }
}

/// The whole emitted iterator matcher. An empty trie gets a signature
/// whose parameter is spelled `_iter` and a body that is just `None`.
pub open spec fn spec_render_iter(node: TreeNode, fn_name: Seq<char>, ret: Seq<char>) -> Seq<
    char,
> {
    if node.branch.len() == 0 {
        fn_name + "<'a, I>(_iter: &mut I) -> Option<"@ + ret
            + ">\nwhere\n    I: core::iter::Iterator<Item = &'a u8> + core::clone::Clone,\n{\n    "@
            + spec_iter_child(node, 0, None) + "\n}\n"@
    } else {
        fn_name + "<'a, I>(iter: &mut I) -> Option<"@ + ret
            + ">\nwhere\n    I: core::iter::Iterator<Item = &'a u8> + core::clone::Clone,\n"@
            + spec_iter_child(node, 0, None) + "\n"@
    }
}

/// Append `Some(payload)` or `None`.
fn append_leaf_str(out: &mut String, res: &Option<String>)
    ensures
        final(out)@ == old(out)@ + spec_leaf_str(view_leaf(*res)),
{
    match res {
        Some(l) => {
            out.append("Some(");
            out.append(l.as_str());
            out.append(")");
            proof {
                assert(out@ =~= old(out)@ + spec_leaf_str(view_leaf(*res)));
            }
        },
        None => {
            out.append("None");
        },
    }
}

/// The ghost image of an owned fallback payload.
pub open spec fn view_leaf(res: Option<String>) -> Option<Seq<char>> {
    match res {
        Some(l) => Some(l@),
        None => None,
    }
}

impl TreeNode {
    /// Render the matcher into Rust code that works on an iterator over
    /// bytes.
    ///
    /// The generated function takes `iter: &mut I` for any clonable byte
    /// iterator and returns the matched payload, if any, leaving the
    /// iterator advanced past exactly the matched bytes; its behaviour is
    /// [`Self::scan`]. The text is pinned exactly by [`spec_render_iter`].
    pub fn render_iter(&self, fn_name: &str, return_type: &str) -> (out: String)
        requires
            2 * self.depth() + 2 <= usize::MAX as nat,
        ensures
            out@ == spec_render_iter(*self, fn_name@, return_type@),
    {
        let mut out = String::new();
        out.append(fn_name);
        if self.branch.len() == 0 {
            out.append("<'a, I>(_iter: &mut I) -> Option<");
            out.append(return_type);
            out.append(
                ">\nwhere\n    I: core::iter::Iterator<Item = &'a u8> + core::clone::Clone,\n{\n    ",
            );
            let fb: Option<String> = None;
            self.render_iter_child(&mut out, 0, &fb);
            out.append("\n}\n");
        } else {
            out.append("<'a, I>(iter: &mut I) -> Option<");
            out.append(return_type);
            out.append(
                ">\nwhere\n    I: core::iter::Iterator<Item = &'a u8> + core::clone::Clone,\n",
            );
            let fb: Option<String> = None;
            self.render_iter_child(&mut out, 0, &fb);
            out.append("\n");
        }
        proof {
            assert(out@ =~= spec_render_iter(*self, fn_name@, return_type@));
        }
        out
    }

    /// Emit this node's contribution to the iterator matcher.
    fn render_iter_child(&self, out: &mut String, level: usize, fb: &Option<String>)
        requires
            level as nat + 2 * self.depth() + 2 <= usize::MAX as nat,
        ensures
            final(out)@ == old(out)@ + spec_iter_child(*self, level as nat, view_leaf(*fb)),
        decreases *self, 2nat,
    {
        if self.branch.len() == 0 {
            let res: &Option<String> = match &self.leaf {
                Some(_) => &self.leaf,
                None => fb,
            };
            append_leaf_str(out, res);
            proof {
                assert(out@ =~= old(out)@ + spec_iter_child(*self, level as nat, view_leaf(*fb)));
            }
        } else if self.leaf.is_none() && level > 0 {
            self.render_iter_match(out, level, fb);
        } else {
            self.render_iter_block(out, level);
        }
    }

    /// Emit the snapshot block for the root or for a node where a key
    /// ends.
    fn render_iter_block(&self, out: &mut String, level: usize)
        requires
            self.branch@.len() > 0,
            level as nat + 2 * self.depth() + 2 <= usize::MAX as nat,
        ensures
            final(out)@ == old(out)@ + spec_iter_block(*self, level as nat),
        decreases *self, 1nat,
    {
        out.append("{\n");
        text::append_ind(out, level);
        out.append("    let fallback_iter = iter.clone();\n");
        text::append_ind(out, level);
        out.append("    ");
        self.render_iter_match(out, level + 1, &self.leaf);
        out.append("\n");
        text::append_ind(out, level);
        out.append("}");
        proof {
            assert(out@ =~= old(out)@ + spec_iter_block(*self, level as nat));
        }
    }

    /// Emit the `match iter.next()` statement for this node's children.
    fn render_iter_match(&self, out: &mut String, level: usize, fb: &Option<String>)
        requires
            level as nat + 2 * self.depth() + 1 <= usize::MAX as nat,
        ensures
            final(out)@ == old(out)@ + spec_iter_match(*self, level as nat, view_leaf(*fb)),
        decreases *self, 0nat,
    {
        out.append("match iter.next() {\n");
        proof {
            assert forall|t: int| 0 <= t < self.branch@.len() implies level as nat + 1 + 2 * (
            #[trigger] self.branch@[t]).1.depth() + 2 <= usize::MAX as nat by {
                lemma_depth_arms(self.branch@, t);
            }
        }
        render_iter_arms(&self.branch, 0, level, out, fb);
        text::append_ind(out, level);
        out.append("    _ => {\n");
        text::append_ind(out, level);
        out.append("        *iter = fallback_iter;\n");
        text::append_ind(out, level);
        out.append("        ");
        append_leaf_str(out, fb);
        out.append("\n");
        text::append_ind(out, level);
        out.append("    }\n");
        text::append_ind(out, level);
        out.append("}");
        proof {
            assert(out@ =~= old(out)@ + spec_iter_match(*self, level as nat, view_leaf(*fb)));
        }
    }
}

/// Emit the iterator-matcher arms for the children from position `k` on.
fn render_iter_arms(
    v: &Vec<(u8, TreeNode)>,
    k: usize,
    level: usize,
    out: &mut String,
    fb: &Option<String>,
)
    requires
        k <= v@.len(),
        forall|t: int|
            0 <= t < v@.len() ==> level as nat + 1 + 2 * (#[trigger] v@[t]).1.depth() + 2
                <= usize::MAX as nat,
    ensures
        final(out)@ == old(out)@ + spec_iter_arms(v@, k as nat, level as nat, view_leaf(*fb)),
    decreases v@, v@.len() - k,
{
    if k < v.len() {
        let pair = &v[k];
        text::append_ind(out, level);
        out.append("    Some(");
        text::append_dec(out, pair.0 as u64);
        out.append(") => ");
        pair.1.render_iter_child(out, level + 1, fb);
        if pair.1.branch.len() == 0 {
            out.append(",\n");
        } else {
            out.append("\n");
        }
        render_iter_arms(v, k + 1, level, out, fb);
        proof {
            assert(out@ =~= old(out)@ + spec_iter_arms(v@, k as nat, level as nat, view_leaf(*fb)));
        }
    }
}

/// What kind of input the emitted matcher should accept: a byte slice or
/// an iterator over bytes.
#[derive(Clone, Copy, Debug, PartialEq, Eq, Structural)]
pub enum Input {
    /// Accept `slice: &[u8]` and return the match together with the
    /// remainder of the slice.
    Slice,
    /// Accept `iter: &mut I` for a clonable byte iterator, return the
    /// match, and leave the iterator just past the matched bytes.
    Iterator,
}

impl Default for Input {
    /// Matchers accept a slice unless told otherwise.
    fn default() -> (r: Self)
        ensures
            r == Input::Slice,
    {
        Input::Slice
    }
}

/// The view of a sequence of owned (key, payload) pairs.
pub open spec fn pairs_view(pairs: Seq<(Vec<u8>, String)>) -> Seq<(Seq<u8>, Seq<char>)> {
    pairs.map(|i: int, e: (Vec<u8>, String)| (e.0@, e.1@))
}

/// The length of the longest key among the pairs.
pub open spec fn max_key_len(pairs: Seq<(Seq<u8>, Seq<char>)>) -> nat
    decreases pairs.len(),
{
    if pairs.len() == 0 {
        0
    } else {
        max_nat(max_key_len(pairs.drop_last()), pairs.last().0.len())
    }
}

/// What a trie's lookup becomes after registering `pairs` in order on top
/// of `base`: the last pair for a key wins.
pub open spec fn fold_lookup(
    base: TreeNode,
    pairs: Seq<(Seq<u8>, Seq<char>)>,
    k: Seq<u8>,
) -> Option<Seq<char>>
    decreases pairs.len(),
{
    if pairs.len() == 0 {
        base.lookup(k)
    } else if pairs.last().0 == k {
        Some(pairs.last().1)
    } else {
        fold_lookup(base, pairs.drop_last(), k)
    }
}

impl TreeNode {
    /// Register every pair in order; a later pair with the same key
    /// overwrites the earlier payload.
    pub fn extend(&mut self, pairs: &Vec<(Vec<u8>, String)>)
        requires
            old(self).wf(),
        ensures
            final(self).wf(),
            final(self).depth() <= max_nat(old(self).depth(), max_key_len(pairs_view(pairs@))),
            forall|k: Seq<u8>|
                final(self).lookup(k) == fold_lookup(*old(self), pairs_view(pairs@), k),
    {
        let ghost base = *self;
        let mut i: usize = 0;
        while i < pairs.len()
            invariant
                i <= pairs@.len(),
                self.wf(),
                self.depth() <= max_nat(base.depth(), max_key_len(pairs_view(pairs@).take(i as int))),
                forall|k: Seq<u8>|
                    self.lookup(k) == fold_lookup(base, pairs_view(pairs@).take(i as int), k),
            decreases pairs@.len() - i,
        {
            let pair = &pairs[i];
            self.add(pair.0.as_slice(), pair.1.as_str());
            proof {
                let pv = pairs_view(pairs@);
                assert(pv.take(i as int + 1).drop_last() =~= pv.take(i as int));
                assert(pv.take(i as int + 1).last() == pv[i as int]);
            }
            i = i + 1;
        }
        proof {
            assert(pairs_view(pairs@).take(pairs@.len() as int) =~= pairs_view(pairs@));
        }
    }
}

/// Build a function with nested `match` statements that maps byte
/// sequences to values, longest registered sequence first.
///
/// Entries are registered with [`Self::add`] or [`Self::extend`]; the
/// Rust source text for the matcher then comes from [`Self::render`].
/// The emitted function implements exactly the longest-match scan
/// specified by [`TreeNode::scan`] over [`Self::root`].
#[derive(Debug)]
pub struct TreeMatcher {
    /// The first part of the emitted function definition, e.g.
    /// `"pub fn matcher"`.
    pub fn_name: String,
    /// The return type (spliced verbatim, wrapped in `Option`), e.g.
    /// `"&'static str"`.
    pub return_type: String,
    /// The kind of input the emitted matcher accepts.
    pub input_type: Input,
    /// Whether to hide the emitted matcher from the `clippy` pass behind
    /// `cfg` guards and emit an always-no-match stub in its place.
    pub disable_clippy: bool,
    /// Whether to mark the emitted function `#[must_use]`.
    pub must_use: bool,
    /// A ready-made documentation attribute to put above the function.
    pub doc: Option<String>,
    /// The root of the trie of registered keys.
    pub root: TreeNode,
}

/// The attribute lines above an emitted matcher or stub: the doc
/// attribute, if any, then `#[must_use]`, if asked for.
pub open spec fn spec_tm_attributes(m: TreeMatcher) -> Seq<char> {
    (match m.doc {
        Some(d) => d@ + "\n"@,
        None => Seq::empty(),
    }) + (if m.must_use {
        "#[must_use]\n"@
    } else {
        Seq::empty()
    })
}

/// The emitted matcher function, attributes included.
pub open spec fn spec_tm_func(m: TreeMatcher) -> Seq<char> {
    (if !m.disable_clippy {
        "#[allow(clippy::too_many_lines, clippy::single_match_else)]\n"@
    } else {
        Seq::empty()
    }) + spec_tm_attributes(m) + (match m.input_type {
        Input::Slice => spec_render_slice(m.root, m.fn_name@, m.return_type@),
        Input::Iterator => spec_render_iter(m.root, m.fn_name@, m.return_type@),
    })
}

/// The always-no-match stub for the slice model: the same signature, a
/// body that reports no match and leaves the slice untouched.
pub open spec fn spec_stub_slice(fn_name: Seq<char>, ret: Seq<char>) -> Seq<char> {
    fn_name + "(slice: &[u8]) -> (Option<"@ + ret + ">, &[u8]) {\n    (None, slice)\n}\n"@
}

/// The always-no-match stub for the iterator model.
pub open spec fn spec_stub_iter(fn_name: Seq<char>, ret: Seq<char>) -> Seq<char> {
    fn_name + "<'a, I>(_iter: &mut I) -> Option<"@ + ret
        + ">\nwhere\n    I: core::iter::Iterator<Item = &'a u8> + core::clone::Clone,\n{\n    None\n}\n"@
}

/// The emitted stub, attributes included.
pub open spec fn spec_tm_stub(m: TreeMatcher) -> Seq<char> {
    spec_tm_attributes(m) + (match m.input_type {
        Input::Slice => spec_stub_slice(m.fn_name@, m.return_type@),
        Input::Iterator => spec_stub_iter(m.fn_name@, m.return_type@),
    })
}

/// Everything [`TreeMatcher::render`] writes: the matcher alone, or the
/// matcher and its stub under opposite `cfg(clippy)` guards.
pub open spec fn spec_tm_render(m: TreeMatcher) -> Seq<char> {
    if m.disable_clippy {
        "#[cfg(not(clippy))]\n"@ + spec_tm_func(m) + "\n#[cfg(clippy)]\n"@ + spec_tm_stub(m)
    } else {
        spec_tm_func(m)
    }
}

impl TreeMatcher {
    /// Create a matcher that will emit a function whose definition starts
    /// with `fn_name` and whose match arms produce values of
    /// `return_type`.
    pub fn new(fn_name: &str, return_type: &str) -> (r: Self)
        ensures
            r.fn_name@ == fn_name@,
            r.return_type@ == return_type@,
            r.input_type == Input::Slice,
            r.disable_clippy == false,
            r.must_use == true,
            r.doc is None,
            r.root.wf(),
            r.root.leaf is None,
            r.root.branch@.len() == 0,
    {
        TreeMatcher {
            fn_name: String::from_str(fn_name),
            return_type: String::from_str(return_type),
            input_type: Input::Slice,
            disable_clippy: false,
            must_use: true,
            doc: None,
            root: TreeNode::default(),
        }
    }

    /// Register a match: `key` will produce `value`, overwriting any
    /// payload registered for `key` before.
    pub fn add(&mut self, key: &[u8], value: &str)
        requires
            old(self).root.wf(),
        ensures
            final(self).root.wf(),
            final(self).root.depth() <= max_nat(old(self).root.depth(), key@.len()),
            forall|k: Seq<u8>|
                final(self).root.lookup(k) == (if k == key@ {
                    Some(value@)
                } else {
                    old(self).root.lookup(k)
                }),
            final(self).fn_name == old(self).fn_name,
            final(self).return_type == old(self).return_type,
            final(self).input_type == old(self).input_type,
            final(self).disable_clippy == old(self).disable_clippy,
            final(self).must_use == old(self).must_use,
            final(self).doc == old(self).doc,
    {
        self.root.add(key, value);
    }

    /// Register every pair in order; a later pair with the same key
    /// overwrites the earlier payload.
    pub fn extend(&mut self, pairs: &Vec<(Vec<u8>, String)>)
        requires
            old(self).root.wf(),
        ensures
            final(self).root.wf(),
            final(self).root.depth() <= max_nat(
                old(self).root.depth(),
                max_key_len(pairs_view(pairs@)),
            ),
            forall|k: Seq<u8>|
                final(self).root.lookup(k) == fold_lookup(old(self).root, pairs_view(pairs@), k),
            final(self).fn_name == old(self).fn_name,
            final(self).return_type == old(self).return_type,
            final(self).input_type == old(self).input_type,
            final(self).disable_clippy == old(self).disable_clippy,
            final(self).must_use == old(self).must_use,
            final(self).doc == old(self).doc,
    {
        self.root.extend(pairs);
    }

    /// Set whether to hide the emitted matcher from `clippy` and emit an
    /// always-no-match stub for that pass instead.
    pub fn disable_clippy(&mut self, disable: bool)
        ensures
            *final(self) == (TreeMatcher { disable_clippy: disable, ..*old(self) }),
    {
        self.disable_clippy = disable;
    }

    /// Set whether to mark the emitted function `#[must_use]`.
    pub fn must_use(&mut self, must_use: bool)
        ensures
            *final(self) == (TreeMatcher { must_use: must_use, ..*old(self) }),
    {
        self.must_use = must_use;
    }

    /// Set what kind of input the emitted matcher accepts.
    pub fn input_type(&mut self, input_type: Input)
        ensures
            *final(self) == (TreeMatcher { input_type: input_type, ..*old(self) }),
    {
        self.input_type = input_type;
    }

    /// Emit no documentation attribute. This is the default.
    pub fn remove_doc(&mut self)
        ensures
            *final(self) == (TreeMatcher { doc: None, ..*old(self) }),
    {
        self.doc = None;
    }

    /// Document the emitted function with a string: produces an attribute
    /// of the shape `#[doc = "..."]`, with the quote, the backslash and
    /// the common control characters escaped.
    pub fn doc(&mut self, doc: &str)
        ensures
            final(self).doc is Some,
            final(self).doc->Some_0@ == "#[doc = \""@ + text::spec_esc(doc@) + "\"]"@,
            final(self).fn_name == old(self).fn_name,
            final(self).return_type == old(self).return_type,
            final(self).input_type == old(self).input_type,
            final(self).disable_clippy == old(self).disable_clippy,
            final(self).must_use == old(self).must_use,
            final(self).root == old(self).root,
    {
        let mut d = String::from_str("#[doc = \"");
        text::append_esc(&mut d, doc);
        d.append("\"]");
        self.doc = Some(d);
    }

    /// Document the emitted function with a Rust expression, spliced
    /// verbatim: produces `#[doc = <expression>]`.
    pub fn doc_raw(&mut self, doc: &str)
        ensures
            final(self).doc is Some,
            final(self).doc->Some_0@ == "#[doc = "@ + doc@ + "]"@,
            final(self).fn_name == old(self).fn_name,
            final(self).return_type == old(self).return_type,
            final(self).input_type == old(self).input_type,
            final(self).disable_clippy == old(self).disable_clippy,
            final(self).must_use == old(self).must_use,
            final(self).root == old(self).root,
    {
        let mut d = String::from_str("#[doc = ");
        d.append(doc);
        d.append("]");
        self.doc = Some(d);
    }

    /// Document the emitted function with a doc option: produces
    /// `#[doc(<option>)]`, e.g. `#[doc(hidden)]`.
    pub fn doc_option(&mut self, doc: &str)
        ensures
            final(self).doc is Some,
            final(self).doc->Some_0@ == "#[doc("@ + doc@ + ")]"@,
            final(self).fn_name == old(self).fn_name,
            final(self).return_type == old(self).return_type,
            final(self).input_type == old(self).input_type,
            final(self).disable_clippy == old(self).disable_clippy,
            final(self).must_use == old(self).must_use,
            final(self).root == old(self).root,
    {
        let mut d = String::from_str("#[doc(");
        d.append(doc);
        d.append(")]");
        self.doc = Some(d);
    }

    /// Render the matcher into Rust code: the matcher function, and, when
    /// the `clippy` bypass is on, the always-no-match stub under the
    /// opposite `cfg` guard.
    pub fn render(&self) -> (out: String)
        requires
            2 * self.root.depth() + 2 <= usize::MAX as nat,
        ensures
            out@ == spec_tm_render(*self),
    {
        let mut out = String::new();
        if self.disable_clippy {
            out.append("#[cfg(not(clippy))]\n");
        }
        self.render_func(&mut out);
        if self.disable_clippy {
            out.append("\n#[cfg(clippy)]\n");
            self.render_stub(&mut out);
        }
        proof {
            assert(out@ =~= spec_tm_render(*self));
        }
        out
    }

    /// Append the matcher function itself.
    fn render_func(&self, out: &mut String)
        requires
            2 * self.root.depth() + 2 <= usize::MAX as nat,
        ensures
            final(out)@ == old(out)@ + spec_tm_func(*self),
    {
        if !self.disable_clippy {
            out.append("#[allow(clippy::too_many_lines, clippy::single_match_else)]\n");
        }
        self.render_attributes(out);
        let body = match self.input_type {
            Input::Slice => self.root.render_slice(self.fn_name.as_str(), self.return_type.as_str()),
            Input::Iterator => self.root.render_iter(self.fn_name.as_str(), self.return_type.as_str()),
        };
        out.append(body.as_str());
        proof {
            assert(out@ =~= old(out)@ + spec_tm_func(*self));
        }
    }

    /// Append the always-no-match stub: the empty trie rendered under the
    /// same name, attributes and input model.
    fn render_stub(&self, out: &mut String)
        ensures
            final(out)@ == old(out)@ + spec_tm_stub(*self),
    {
        self.render_attributes(out);
        let empty = TreeNode::default();
        let body = match self.input_type {
            Input::Slice => empty.render_slice(self.fn_name.as_str(), self.return_type.as_str()),
            Input::Iterator => empty.render_iter(self.fn_name.as_str(), self.return_type.as_str()),
        };
        out.append(body.as_str());
        proof {
            reveal_strlit("(None, slice)");
            reveal_strlit("\n");
            reveal_strlit("}\n");
            reveal_strlit(">, &[u8]) {\n    ");
            reveal_strlit(">, &[u8]) {\n    (None, slice)\n}\n");
            reveal_strlit("None");
            reveal_strlit("\n}\n");
            reveal_strlit(">\nwhere\n    I: core::iter::Iterator<Item = &'a u8> + core::clone::Clone,\n{\n    ");
            reveal_strlit(">\nwhere\n    I: core::iter::Iterator<Item = &'a u8> + core::clone::Clone,\n{\n    None\n}\n");
            assert(out@ =~= old(out)@ + spec_tm_stub(*self));
        }
    }

    /// Append the attribute lines shared by the matcher and its stub.
    fn render_attributes(&self, out: &mut String)
        ensures
            final(out)@ == old(out)@ + spec_tm_attributes(*self),
    {
        match &self.doc {
            Some(d) => {
                out.append(d.as_str());
                out.append("\n");
            },
            None => {},
        }
        if self.must_use {
            out.append("#[must_use]\n");
        }
        proof {
            assert(out@ =~= old(out)@ + spec_tm_attributes(*self));
        }
    }
}

} // verus!
