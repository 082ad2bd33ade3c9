//! Small text-building helpers shared by the two compilers: decimal
//! rendering of numbers, indentation, and appending single characters.

use vstd::prelude::*;
use vstd::string::StringExecFns;

verus! {

/// The decimal digit character for a value below ten.
pub open spec fn spec_digit(d: nat) -> char {
    if d == 0 {
        '0'
    } else if d == 1 {
        '1'
    } else if d == 2 {
        '2'
    } else if d == 3 {
        '3'
    } else if d == 4 {
        '4'
    } else if d == 5 {
        '5'
    } else if d == 6 {
        '6'
    } else if d == 7 {
        '7'
    } else if d == 8 {
        '8'
    } else {
        '9'
    }
}

/// The decimal rendering of a natural number, most significant digit first.
pub open spec fn spec_dec(n: nat) -> Seq<char>
    decreases n,
{
    if n < 10 {
        seq![spec_digit(n)]
    } else {
        spec_dec(n / 10) + seq![spec_digit(n % 10)]
    }
}

/// Relies on `String::push`: appends the given character to the end of the
/// string.
#[verifier::external_body]
pub fn push_char(s: &mut String, c: char)
    ensures
        final(s)@ == old(s)@ + seq![c],
{
    s.push(c);
}

fn digit_str(d: u64) -> (r: &'static str)
    requires
        d < 10,
    ensures
        r@ == seq![spec_digit(d as nat)],
{
    let r: &'static str = if d == 0 {
        "0"
    } else if d == 1 {
        "1"
    } else if d == 2 {
        "2"
    } else if d == 3 {
        "3"
    } else if d == 4 {
        "4"
    } else if d == 5 {
        "5"
    } else if d == 6 {
        "6"
    } else if d == 7 {
        "7"
    } else if d == 8 {
        "8"
    } else {
        "9"
    };
    proof {
        reveal_strlit("0");
        reveal_strlit("1");
        reveal_strlit("2");
        reveal_strlit("3");
        reveal_strlit("4");
        reveal_strlit("5");
        reveal_strlit("6");
        reveal_strlit("7");
        reveal_strlit("8");
        reveal_strlit("9");
        assert(r@ =~= seq![spec_digit(d as nat)]);
    }
    r
}

/// Append the decimal rendering of `n` to `out`.
pub fn append_dec(out: &mut String, n: u64)
    ensures
        final(out)@ == old(out)@ + spec_dec(n as nat),
    decreases n,
{
    if n < 10 {
        out.append(digit_str(n));
    } else {
        proof {
            assert(n / 10 < n && n / 10 >= 1) by (nonlinear_arith)
                requires
                    n >= 10,
            ;
        }
        append_dec(out, n / 10);
        out.append(digit_str(n % 10));
        proof {
            assert(out@ =~= old(out)@ + spec_dec(n as nat));
        }
    }
}

/// The decimal rendering of a byte as a fresh string.
pub fn dec_u8(n: u8) -> (r: String)
    ensures
        r@ == spec_dec(n as nat),
{
    let mut r = String::new();
    append_dec(&mut r, n as u64);
    proof {
        assert(r@ =~= spec_dec(n as nat));
    }
    r
}

/// Four spaces of indentation per nesting level.
pub open spec fn spec_ind(level: nat) -> Seq<char>
    decreases level,
{
    if level == 0 {
        Seq::empty()
    } else {
        spec_ind((level - 1) as nat) + "    "@
    }
}

/// Append `level` levels of four-space indentation to `out`.
pub fn append_ind(out: &mut String, level: usize)
    ensures
        final(out)@ == old(out)@ + spec_ind(level as nat),
{
    let mut k: usize = 0;
    while k < level
        invariant
            k <= level,
            out@ == old(out)@ + spec_ind(k as nat),
        decreases level - k,
    {
        out.append("    ");
        k = k + 1;
    }
}

/// The expression for the input that remains after `i` bytes: the slice
/// itself at zero, an index expression beyond that.
pub open spec fn spec_slice_str(i: nat) -> Seq<char> {
    if i > 0 {
        "&slice["@ + spec_dec(i) + "..]"@
    } else {
        "slice"@
    }
}

/// Append the remaining-input expression for offset `i` to `out`.
pub fn append_slice_str(out: &mut String, i: usize)
    ensures
        final(out)@ == old(out)@ + spec_slice_str(i as nat),
{
    if i > 0 {
        out.append("&slice[");
        append_dec(out, i as u64);
        out.append("..]");
        proof {
            assert(out@ =~= old(out)@ + spec_slice_str(i as nat));
        }
    } else {
        out.append("slice");
    }
}

/// How one byte is written in Rust source by [`crate::fmt_byte`].
pub open spec fn spec_fmt_byte(b: u8) -> Seq<char> {
    if (0x21 <= b && b <= 0x7e) || b == 0x20 {
        seq!['b', '\''] + seq![b as char] + seq!['\'']
    } else if b == 0x0a {
        seq!['\\', 'n']
    } else if b == 0x0d {
        seq!['\\', 'r']
    } else if b == 0x09 {
        seq!['\\', 't']
    } else {
        spec_dec(b as nat)
    }
}

/// The characters of a string, one vector element each.
pub fn chars_vec(s: &str) -> (v: Vec<char>)
    ensures
        v@ == s@,
{
    broadcast use vstd::string::axiom_spec_iter;

    let mut v: Vec<char> = Vec::new();
    for c in it: s.chars()
        invariant
            it.seq() == s@,
            v@ == it.seq().take(it.index() as int),
    {
        v.push(c);
    }
    proof {
        assert(v@ =~= s@);
    }
    v
}

/// How one character of a documentation string is escaped inside the
/// emitted string literal: the quote, the backslash and the three common
/// control characters get a backslash escape; everything else stands as it
/// is.
pub open spec fn spec_esc_char(c: char) -> Seq<char> {
    if c == '"' {
        seq!['\\', '"']
    } else if c == '\\' {
        seq!['\\', '\\']
    } else if c == '\n' {
        seq!['\\', 'n']
    } else if c == '\r' {
        seq!['\\', 'r']
    } else if c == '\t' {
        seq!['\\', 't']
    } else {
        seq![c]
    }
}

/// A documentation string escaped for splicing between quotes.
pub open spec fn spec_esc(s: Seq<char>) -> Seq<char>
    decreases s.len(),
{
    if s.len() == 0 {
        Seq::empty()
    } else {
        spec_esc_char(s[0]) + spec_esc(s.drop_first())
    }
}

proof fn lemma_esc_snoc(t: Seq<char>, c: char)
    ensures
        spec_esc(t.push(c)) == spec_esc(t) + spec_esc_char(c),
    decreases t.len(),
{
    if t.len() == 0 {
        assert(t.push(c)[0] == c);
        assert(t.push(c).drop_first() =~= t);
        assert(spec_esc(t.push(c)) =~= spec_esc(t) + spec_esc_char(c));
    } else {
        assert(t.push(c)[0] == t[0]);
        assert(t.push(c).drop_first() =~= t.drop_first().push(c));
        lemma_esc_snoc(t.drop_first(), c);
        assert(spec_esc(t.push(c)) =~= spec_esc(t) + spec_esc_char(c));
    }
}

fn append_esc_char(out: &mut String, c: char)
    ensures
        final(out)@ == old(out)@ + spec_esc_char(c),
{
    if c == '"' {
        out.append("\\\"");
        proof {
            reveal_strlit("\\\"");
            assert(out@ =~= old(out)@ + spec_esc_char(c));
        }
    } else if c == '\\' {
        out.append("\\\\");
        proof {
            reveal_strlit("\\\\");
            assert(out@ =~= old(out)@ + spec_esc_char(c));
        }
    } else if c == '\n' {
        out.append("\\n");
        proof {
            reveal_strlit("\\n");
            assert(out@ =~= old(out)@ + spec_esc_char(c));
        }
    } else if c == '\r' {
        out.append("\\r");
        proof {
            reveal_strlit("\\r");
            assert(out@ =~= old(out)@ + spec_esc_char(c));
        }
    } else if c == '\t' {
        out.append("\\t");
        proof {
            reveal_strlit("\\t");
            assert(out@ =~= old(out)@ + spec_esc_char(c));
        }
    } else {
        push_char(out, c);
    }
}

/// Append `s` with every character escaped as in a Rust string literal.
pub fn append_esc(out: &mut String, s: &str)
    ensures
        final(out)@ == old(out)@ + spec_esc(s@),
{
    let v = chars_vec(s);
    let mut i: usize = 0;
    while i < v.len()
        invariant
            i <= v@.len(),
            v@ == s@,
            out@ == old(out)@ + spec_esc(v@.take(i as int)),
        decreases v@.len() - i,
    {
        append_esc_char(out, v[i]);
        proof {
            lemma_esc_snoc(v@.take(i as int), v@[i as int]);
            assert(v@.take(i as int + 1) =~= v@.take(i as int).push(v@[i as int]));
            assert(out@ =~= old(out)@ + spec_esc(v@.take(i as int + 1)));
        }
        i = i + 1;
    }
    proof {
        assert(v@.take(v@.len() as int) =~= s@);
    }
}

/// `s` with every occurrence of `pat` replaced by `rep`, scanning left to
/// right without overlap.
pub open spec fn spec_replace(s: Seq<char>, pat: Seq<char>, rep: Seq<char>) -> Seq<char>
    decreases s.len(),
{
    if pat.len() == 0 || s.len() < pat.len() {
        s
    } else if s.take(pat.len() as int) == pat {
        rep + spec_replace(s.skip(pat.len() as int), pat, rep)
    } else {
        seq![s[0]] + spec_replace(s.skip(1), pat, rep)
    }
}

/// Whether `pat` occurs in `v` starting at position `i`.
fn chars_match(v: &Vec<char>, i: usize, pat: &Vec<char>) -> (r: bool)
    requires
        i <= v@.len(),
    ensures
        r == (i + pat@.len() <= v@.len() && v@.subrange(
            i as int,
            i as int + pat@.len() as int,
        ) == pat@),
{
    if pat.len() > v.len() - i {
        return false;
    }
    let mut t: usize = 0;
    while t < pat.len()
        invariant
            t <= pat@.len(),
            i + pat@.len() <= v@.len(),
            v@.len() <= usize::MAX as nat,
            forall|u: int| 0 <= u < t ==> v@[i + u] == pat@[u],
        decreases pat@.len() - t,
    {
        proof {
            assert(i + t < v@.len());
        }
        if v[i + t] != pat[t] {
            proof {
                assert(v@.subrange(i as int, i as int + pat@.len() as int)[t as int] != pat@[t as int]);
            }
            return false;
        }
        t = t + 1;
    }
    proof {
        assert(v@.subrange(i as int, i as int + pat@.len() as int) =~= pat@);
    }
    true
}

/// Replace every occurrence of `pat` in `s` by `rep`, scanning left to
/// right without overlap.
pub fn replace(s: &str, pat: &str, rep: &str) -> (r: String)
    ensures
        r@ == spec_replace(s@, pat@, rep@),
{
    let v = chars_vec(s);
    let pv = chars_vec(pat);
    let mut out = String::new();
    let mut i: usize = 0;
    proof {
        assert(v@.skip(0) =~= v@);
        assert(out@ + spec_replace(v@.skip(0), pat@, rep@) =~= spec_replace(v@, pat@, rep@));
    }
    while i < v.len()
        invariant
            i <= v@.len(),
            v@ == s@,
            pv@ == pat@,
            out@ + spec_replace(v@.skip(i as int), pat@, rep@) == spec_replace(v@, pat@, rep@),
        decreases v@.len() - i,
    {
        if pv.len() > 0 && chars_match(&v, i, &pv) {
            out.append(rep);
            proof {
                assert(v@.skip(i as int).take(pat@.len() as int) =~= v@.subrange(
                    i as int,
                    i as int + pat@.len() as int,
                ));
                assert(v@.skip(i as int).skip(pat@.len() as int) =~= v@.skip(
                    i as int + pat@.len() as int,
                ));
                assert(out@ + spec_replace(v@.skip(i as int + pat@.len() as int), pat@, rep@)
                    =~= spec_replace(v@, pat@, rep@));
            }
            i = i + pv.len();
        } else {
            push_char(&mut out, v[i]);
            proof {
                let rest = v@.skip(i as int);
                assert(rest[0] == v@[i as int]);
                assert(rest.skip(1) =~= v@.skip(i as int + 1));
                assert(rest =~= seq![rest[0]] + rest.skip(1));
                if pat@.len() > 0 && rest.len() >= pat@.len() {
                    assert(rest.take(pat@.len() as int) =~= v@.subrange(
                        i as int,
                        i as int + pat@.len() as int,
                    ));
                    assert(spec_replace(rest, pat@, rep@) == seq![rest[0]] + spec_replace(
                        rest.skip(1),
                        pat@,
                        rep@,
                    ));
                } else {
                    assert(spec_replace(rest, pat@, rep@) == rest);
                    assert(spec_replace(rest.skip(1), pat@, rep@) == rest.skip(1));
                }
                assert(out@ + spec_replace(v@.skip(i as int + 1), pat@, rep@) =~= spec_replace(
                    v@,
                    pat@,
                    rep@,
                ));
            }
            i = i + 1;
        }
    }
    proof {
        assert(v@.skip(v@.len() as int) =~= Seq::<char>::empty());
        assert(out@ =~= spec_replace(s@, pat@, rep@));
    }
    out
}

/// Whether `s` begins with `p`, character for character.
pub fn str_starts_with(s: &str, p: &str) -> (r: bool)
    ensures
        r == (p@.len() <= s@.len() && s@.take(p@.len() as int) == p@),
{
    let v = chars_vec(s);
    let pv = chars_vec(p);
    let r = chars_match(&v, 0, &pv);
    proof {
        if p@.len() <= s@.len() {
            assert(v@.subrange(0, p@.len() as int) =~= s@.take(p@.len() as int));
        }
    }
    r
}

} // verus!
