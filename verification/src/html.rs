//! Rendering of the fixed page template around caller-supplied body
//! content.

use vstd::prelude::*;
use vstd::string::StringExecFns;

verus! {

/// The page text before the body content.
pub open spec fn header_prefix() -> Seq<char> {
    "<html>\n  <head>\n    <title>CCH23 Day 14</title>\n  </head>\n  <body>\n    "@
}

/// The page text after the body content.
pub open spec fn header_suffix() -> Seq<char> {
    "\n  </body>\n</html>"@
}

/// Wraps `content` in the page template, unchanged between the fixed
/// prefix and suffix.
pub fn render_header_from_template(content: &str) -> (r: String)
    ensures
        r@ == header_prefix() + content@ + header_suffix(),
{
    let mut s = String::from_str(
        "<html>\n  <head>\n    <title>CCH23 Day 14</title>\n  </head>\n  <body>\n    ",
    );
    s.append(content);
    s.append("\n  </body>\n</html>");
    proof {
        assert(s@ =~= header_prefix() + content@ + header_suffix());
    }
    s
}

} // verus!
