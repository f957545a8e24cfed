use vstd::prelude::*;
use vstd::string::*;

verus! {

/// The OSC 8 terminal escape sequence that shows `text` as a link to `link`.
pub open spec fn hyperlink_text(link: Seq<char>, text: Seq<char>) -> Seq<char> {
    "\x1b]8;;"@ + link + "\x1b\\"@ + text + "\x1b]8;;\x1b\\"@
}

/// A terminal hyperlink: `text` shown as a link to `link`.
pub fn hyperlink(link: &str, text: &str) -> (r: String)
    ensures
        r@ == hyperlink_text(link@, text@),
{
    let mut out = String::from_str("\x1b]8;;");
    out.append(link);
    out.append("\x1b\\");
    out.append(text);
    out.append("\x1b]8;;\x1b\\");
    out
}

} // verus!
