//! Colouring of matched text.

use vstd::prelude::*;
use vstd::string::StringExecFns;

verus! {

/// The escape sequence that starts bold red text on a terminal.
pub open spec fn color_start() -> Seq<char> {
    seq!['\x1b', '[', '0', '1', ';', '3', '1', 'm']
}

/// The escape sequence that ends coloured text.
pub open spec fn color_reset() -> Seq<char> {
    seq!['\x1b', '[', 'm']
}

/// `s` wrapped in the colour escapes when `on`, else `s` itself.
pub open spec fn highlight(s: Seq<char>, on: bool) -> Seq<char> {
    if on {
        color_start() + s + color_reset()
    } else {
        s
    }
}

/// `s`, wrapped in the escapes that colour it red when `use_color` holds.
pub fn maybe_colorize(s: &str, use_color: bool) -> (r: String)
    ensures
        r@ == highlight(s@, use_color),
{
    if use_color {
        let mut r = String::from_str("\x1b[01;31m");
        r.append(s);
        r.append("\x1b[m");
        proof {
            reveal_strlit("\x1b[01;31m");
            reveal_strlit("\x1b[m");
            assert(r@ =~= highlight(s@, use_color));
        }
        r
    } else {
        String::from_str(s)
    }
}

} // verus!
