//! Builders that turn a set of (byte sequence, payload) pairs into Rust
//! source text for a deterministic longest-match scanner: a function that
//! looks for the longest registered byte sequence at the start of its input
//! and maps it to the registered payload.
//!
//! [`TreeMatcher`] emits nested `match` statements that walk the input byte
//! by byte, falling back to the longest match confirmed so far; in return
//! for the more complicated code it usually matches faster. [`FlatMatcher`]
//! emits a single `match` with one fixed-width arm per entry, longest keys
//! first; the code is simpler but often slower.
//!
//! Both builders state exactly what text they emit, and the matching
//! discipline that text implements is itself specified and proved here: see
//! [`TreeNode::scan`] for the reference semantics and the lemmas in [`laws`]
//! for the longest-match, no-over-consumption and equivalence theorems.

use vstd::prelude::*;

pub mod text;
pub mod tree;
pub mod flat;
pub mod laws;

pub use tree::TreeMatcher;
pub use tree::TreeNode;
pub use tree::Input;
pub use flat::FlatMatcher;

verus! {

/// Format one byte the way it would be written in Rust source: printable
/// ASCII as a byte literal such as `b'a'`, the common escapes by their
/// two-character names, and anything else in decimal.
pub fn fmt_byte(b: u8) -> (r: String)
    ensures
        r@ == text::spec_fmt_byte(b),
{
    if (0x21 <= b && b <= 0x7e) || b == 0x20 {
        let mut r = String::from_str("b'");
        text::push_char(&mut r, b as char);
        r.append("'");
        proof {
            reveal_strlit("b'");
            reveal_strlit("'");
            assert(r@ =~= text::spec_fmt_byte(b));
        }
        r
    } else if b == 0x0a {
        let r = String::from_str("\\n");
        proof {
            reveal_strlit("\\n");
            assert(r@ =~= text::spec_fmt_byte(b));
        }
        r
    } else if b == 0x0d {
        let r = String::from_str("\\r");
        proof {
            reveal_strlit("\\r");
            assert(r@ =~= text::spec_fmt_byte(b));
        }
        r
    } else if b == 0x09 {
        let r = String::from_str("\\t");
        proof {
            reveal_strlit("\\t");
            assert(r@ =~= text::spec_fmt_byte(b));
        }
        r
    } else {
        text::dec_u8(b)
    }
}

} // verus!
