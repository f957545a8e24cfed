use vstd::prelude::*;

verus! {

/// The tones of a palette scale, lightest step first.
pub fn tonal_steps() -> (r: [u8; 11])
    ensures
        r@ == seq![5u8, 10, 20, 30, 40, 50, 60, 70, 80, 90, 95],
{
    let r: [u8; 11] = [5, 10, 20, 30, 40, 50, 60, 70, 80, 90, 95];
    assert(r@ =~= seq![5u8, 10, 20, 30, 40, 50, 60, 70, 80, 90, 95]);
    r
}

/// The kinds of palette token, each with its template name.
#[derive(Debug, Clone, Copy, PartialEq, Eq)]
pub enum TokenType {
    Color,
    Base,
    Key,
}

impl TokenType {
    pub open spec fn name_spec(&self) -> Seq<char> {
        match self {
            TokenType::Color => "COLOR_TOKEN"@,
            TokenType::Base => "COLOR_BASE"@,
            TokenType::Key => "COLOR_KEY"@,
        }
    }

    /// The template name of the kind.
    pub fn as_str(&self) -> (r: &'static str)
        ensures
            r@ == self.name_spec(),
    {
        match self {
            TokenType::Color => "COLOR_TOKEN",
            TokenType::Base => "COLOR_BASE",
            TokenType::Key => "COLOR_KEY",
        }
    }
}

/// The base color variable of a palette.
#[derive(Debug)]
pub struct CSSBaseToken {
    pub prefix: Option<String>,
    pub palette_name: String,
    pub value: String,
}

impl CSSBaseToken {
    pub fn new(prefix: Option<String>, palette_name: String, value: String) -> (r: Self)
        ensures
            r.prefix == prefix,
            r.palette_name == palette_name,
            r.value == value,
    {
        CSSBaseToken { prefix, palette_name, value }
    }
}

/// The key tone variable of a palette.
#[derive(Debug)]
pub struct CSSKeyToken {
    pub prefix: Option<String>,
    pub palette_name: String,
    pub value: u8,
}

impl CSSKeyToken {
    pub fn new(prefix: Option<String>, palette_name: String, value: u8) -> (r: Self)
        ensures
            r.prefix == prefix,
            r.palette_name == palette_name,
            r.value == value,
    {
        CSSKeyToken { prefix, palette_name, value }
    }
}

/// Whether a design-token entry carries a value or groups other entries.
#[derive(Debug, Clone, Copy, PartialEq, Eq)]
pub enum TokenKind {
    Token,
    Group,
}

impl Default for TokenKind {
    fn default() -> (r: Self)
        ensures
            r == TokenKind::Token,
    {
        TokenKind::Token
    }
}

} // verus!
