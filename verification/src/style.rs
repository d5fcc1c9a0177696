use vstd::prelude::*;

verus! {

/// A terminal colour, with the same variants as the terminal backend's colour type.
#[derive(Clone, Copy, Debug, PartialEq, Eq, Structural, Hash)]
pub enum Color {
    Reset,
    Black,
    DarkGrey,
    Red,
    DarkRed,
    Green,
    DarkGreen,
    Yellow,
    DarkYellow,
    Blue,
    DarkBlue,
    Magenta,
    DarkMagenta,
    Cyan,
    DarkCyan,
    White,
    Grey,
    Rgb { r: u8, g: u8, b: u8 },
    AnsiValue(u8),
}

/// A bitset of text attributes (bold, italic, ...), laid out as the terminal
/// backend lays out its attribute set: the attribute with index `n` in its
/// list of attributes is bit `n + 1`.
#[derive(Clone, Copy, Debug, PartialEq, Eq, Structural)]
pub struct Attributes(pub u32);

impl Attributes {
    /// The set with no attribute in it.
    pub open spec fn empty_spec() -> Attributes {
        Attributes(0)
    }
}

impl Default for Attributes {
    fn default() -> (r: Attributes)
        ensures
            r == Attributes::empty_spec(),
    {
        Attributes(0)
    }
}

/// The style of a piece of content: colours and attributes.
#[derive(Clone, Copy, Debug, PartialEq, Eq, Structural)]
pub struct ContentStyle {
    pub foreground_color: Option<Color>,
    pub background_color: Option<Color>,
    pub underline_color: Option<Color>,
    pub attributes: Attributes,
}

impl ContentStyle {
    /// The default style: no colour of any kind and no attribute.
    pub open spec fn plain() -> ContentStyle {
        ContentStyle {
            foreground_color: None,
            background_color: None,
            underline_color: None,
            attributes: Attributes::empty_spec(),
        }
    }

    /// Creates the default style.
    pub fn new() -> (r: ContentStyle)
        ensures
            r == ContentStyle::plain(),
    {
        ContentStyle {
            foreground_color: None,
            background_color: None,
            underline_color: None,
            attributes: Attributes(0),
        }
    }
}

impl Default for ContentStyle {
    fn default() -> (r: ContentStyle)
        ensures
            r == ContentStyle::plain(),
    {
        ContentStyle::new()
    }
}

/// One character cell: a character together with the style it is drawn in.
#[derive(Clone, Copy, Debug, PartialEq, Eq, Structural)]
pub struct StyledChar {
    pub char: char,
    pub style: ContentStyle,
}

impl StyledChar {
    /// A character in the given style.
    pub open spec fn styled(c: char, style: ContentStyle) -> StyledChar {
        StyledChar { char: c, style: style }
    }

    /// A character in the default style.
    pub open spec fn plain(c: char) -> StyledChar {
        StyledChar { char: c, style: ContentStyle::plain() }
    }
}

impl From<char> for StyledChar {
    fn from(char: char) -> (r: StyledChar) {
        StyledChar { char, style: ContentStyle::new() }
    }
}

impl vstd::std_specs::convert::FromSpecImpl<char> for StyledChar {
    open spec fn obeys_from_spec() -> bool {
        true
    }

    open spec fn from_spec(v: char) -> StyledChar {
        StyledChar::plain(v)
    }
}

impl Default for StyledChar {
    /// An empty (space) character with no colouring or attributes.
    fn default() -> (r: StyledChar)
        ensures
            r == StyledChar::plain(' '),
    {
        StyledChar { char: ' ', style: ContentStyle::new() }
    }
}

} // verus!
