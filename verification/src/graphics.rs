//! Colors, text modifiers, styles and rectangles.
use vstd::prelude::*;
use vstd::string::StringSliceAdditionalSpecFns;
use crate::text::str_eq;

verus! {

/// ASCII codes of the characters that spell hexadecimal colors.
pub const UPPER_A: u8 = 65;
pub const UPPER_F: u8 = 70;
pub const LOWER_A: u8 = 97;
pub const LOWER_F: u8 = 102;
pub const DIGIT_0: u8 = 48;
pub const DIGIT_9: u8 = 57;
pub const HASH: u8 = 35;

/// Value of one hexadecimal digit, or `0xff` when `h` is not a hex digit.
pub open spec fn nibble_value(h: u8) -> u8 {
    if 65 <= h <= 70 {
        (h - 65 + 10) as u8
    } else if 97 <= h <= 102 {
        (h - 97 + 10) as u8
    } else if 48 <= h <= 57 {
        (h - 48) as u8
    } else {
        0xff
    }
}

/// Decodes one hexadecimal digit (either case); `0xff` marks an invalid digit.
pub fn from_nibble(h: u8) -> (r: u8)
    ensures
        r == nibble_value(h),
        r <= 15 || r == 0xff,
{
    if UPPER_A <= h && h <= UPPER_F {
        h - UPPER_A + 10
    } else if LOWER_A <= h && h <= LOWER_F {
        h - LOWER_A + 10
    } else if DIGIT_0 <= h && h <= DIGIT_9 {
        h - DIGIT_0
    } else {
        0xff
    }
}

/// Decodes a nibble and repeats it in both halves of a byte (`"a"` gives `0xaa`).
pub fn dupe_from_nibble(h: u8) -> (r: Option<u8>)
    ensures
        r == (if nibble_value(h) <= 15 {
            Some((nibble_value(h) * 17) as u8)
        } else {
            None::<u8>
        }),
{
    let h = from_nibble(h);
    if h > 0xf {
        return None;
    }
    assert(h <= 15 ==> (h << 4u8) | h == h * 17) by (bit_vector);
    Some((h << 4) | h)
}

/// Decodes a big-endian pair of hexadecimal digits into one byte.
pub fn byte_from_hex(h: [u8; 2]) -> (r: Option<u8>)
    ensures
        r == (if nibble_value(h@[0]) <= 15 && nibble_value(h@[1]) <= 15 {
            Some((nibble_value(h@[0]) * 16 + nibble_value(h@[1])) as u8)
        } else {
            None::<u8>
        }),
{
    let hi = from_nibble(h[0]);
    let lo = from_nibble(h[1]);
    if hi > 0xf || lo > 0xf {
        return None;
    }
    assert(hi <= 15 && lo <= 15 ==> (hi << 4u8) | lo == hi * 16 + lo) by (bit_vector);
    Some((hi << 4) | lo)
}


/// Shape of the terminal cursor.
#[derive(Debug, Clone, Copy, PartialEq, Eq, Structural, Default)]
pub enum CursorKind {
    /// █
    #[default]
    Block,
    /// |
    Bar,
    /// _
    Underline,
    /// Hidden cursor, whose position still lets an input method place its popup.
    Hidden,
}

/// A terminal color: one of the named ANSI colors, a true color or a palette index.
#[derive(Debug, Clone, Copy, PartialEq, Eq, Structural)]
pub enum Color {
    Reset,
    Black,
    Red,
    Green,
    Yellow,
    Blue,
    Magenta,
    Cyan,
    Gray,
    LightRed,
    LightGreen,
    LightYellow,
    LightBlue,
    LightMagenta,
    LightCyan,
    LightGray,
    White,
    Rgb(u8, u8, u8),
    Indexed(u8),
}

/// Why a hex color code was rejected.
#[derive(Debug, Clone, Copy, PartialEq, Eq, Structural)]
pub enum MalformedHex {
    NoHash,
    LenOOB,
    NotANibble,
}

impl MalformedHex {
    /// The human-readable message of this error.
    pub fn message(&self) -> (r: &'static str)
        ensures
            r@ == malformed_hex_message(*self),
    {
        match self {
            MalformedHex::NoHash => "Malformed hex color code: Missing hash prefix",
            MalformedHex::LenOOB => "Malformed hex color code: Must be 12 or 24 bit RGB",
            MalformedHex::NotANibble => "Malformed hex color code: One or more chars is not hex digit (nibble)",
        }
    }
}

/// The message of each hex color error.
pub open spec fn malformed_hex_message(e: MalformedHex) -> Seq<char> {
    match e {
        MalformedHex::NoHash => "Malformed hex color code: Missing hash prefix"@,
        MalformedHex::LenOOB => "Malformed hex color code: Must be 12 or 24 bit RGB"@,
        MalformedHex::NotANibble => "Malformed hex color code: One or more chars is not hex digit (nibble)"@,
    }
}

/// A byte decoded from the hex pair at `b[i]`, `b[i + 1]`, if both are digits.
pub open spec fn hex_pair(b: Seq<u8>, i: int) -> Option<u8> {
    if nibble_value(b[i]) <= 15 && nibble_value(b[i + 1]) <= 15 {
        Some((nibble_value(b[i]) * 16 + nibble_value(b[i + 1])) as u8)
    } else {
        None
    }
}

/// A byte decoded from the single digit at `b[i]`, repeated in both halves.
pub open spec fn hex_single(b: Seq<u8>, i: int) -> Option<u8> {
    if nibble_value(b[i]) <= 15 {
        Some((nibble_value(b[i]) * 17) as u8)
    } else {
        None
    }
}

/// The color that the bytes `#RRGGBB` or `#RGB` denote, or why they denote none.
pub open spec fn color_from_hex_bytes(b: Seq<u8>) -> Result<Color, MalformedHex> {
    if b.len() == 0 || b[0] != HASH {
        Err(MalformedHex::NoHash)
    } else if b.len() == 7 {
        match (hex_pair(b, 1), hex_pair(b, 3), hex_pair(b, 5)) {
            (Some(r), Some(g), Some(bl)) => Ok(Color::Rgb(r, g, bl)),
            _ => Err(MalformedHex::NotANibble),
        }
    } else if b.len() == 4 {
        match (hex_single(b, 1), hex_single(b, 2), hex_single(b, 3)) {
            (Some(r), Some(g), Some(bl)) => Ok(Color::Rgb(r, g, bl)),
            _ => Err(MalformedHex::NotANibble),
        }
    } else {
        Err(MalformedHex::LenOOB)
    }
}

impl Color {
    /// Creates a `Color` from a hex string of the form "#RRGGBB" or "#RGB".
    pub fn from_hex(h: &str) -> (r: Result<Color, MalformedHex>)
        ensures
            r == color_from_hex_bytes(h.spec_bytes()),
    {
        let h = h.as_bytes();
        if h.len() == 0 || h[0] != HASH {
            return Err(MalformedHex::NoHash);
        }
        if h.len() == 7 {
            let r = byte_from_hex([h[1], h[2]]);
            let g = byte_from_hex([h[3], h[4]]);
            let b = byte_from_hex([h[5], h[6]]);
            match (r, g, b) {
                (Some(r), Some(g), Some(b)) => Ok(Color::Rgb(r, g, b)),
                _ => Err(MalformedHex::NotANibble),
            }
        } else if h.len() == 4 {
            let r = dupe_from_nibble(h[1]);
            let g = dupe_from_nibble(h[2]);
            let b = dupe_from_nibble(h[3]);
            match (r, g, b) {
                (Some(r), Some(g), Some(b)) => Ok(Color::Rgb(r, g, b)),
                _ => Err(MalformedHex::NotANibble),
            }
        } else {
            Err(MalformedHex::LenOOB)
        }
    }
}


/// Modifier changes the way a piece of text is displayed; the flags compose as a bit set.
#[derive(Debug, Clone, Copy, PartialEq, Eq, Structural)]
pub struct Modifier {
    pub bits: u16,
}

/// The bits of every modifier flag together.
pub const MODIFIER_ALL_BITS: u16 = 0x01f7;

impl Modifier {
    /// Bold text.
    pub fn bold() -> (r: Modifier)
        ensures
            r.bits == 0x0001,
    {
        Modifier { bits: 0x0001 }
    }

    /// Faint text.
    pub fn dim() -> (r: Modifier)
        ensures
            r.bits == 0x0002,
    {
        Modifier { bits: 0x0002 }
    }

    /// Italic text.
    pub fn italic() -> (r: Modifier)
        ensures
            r.bits == 0x0004,
    {
        Modifier { bits: 0x0004 }
    }

    /// Slowly blinking text.
    pub fn slow_blink() -> (r: Modifier)
        ensures
            r.bits == 0x0010,
    {
        Modifier { bits: 0x0010 }
    }

    /// Rapidly blinking text.
    pub fn rapid_blink() -> (r: Modifier)
        ensures
            r.bits == 0x0020,
    {
        Modifier { bits: 0x0020 }
    }

    /// Foreground and background swapped.
    pub fn reversed() -> (r: Modifier)
        ensures
            r.bits == 0x0040,
    {
        Modifier { bits: 0x0040 }
    }

    /// Hidden text.
    pub fn hidden() -> (r: Modifier)
        ensures
            r.bits == 0x0080,
    {
        Modifier { bits: 0x0080 }
    }

    /// Struck-through text.
    pub fn crossed_out() -> (r: Modifier)
        ensures
            r.bits == 0x0100,
    {
        Modifier { bits: 0x0100 }
    }


    /// No flag set.
    pub fn empty() -> (r: Modifier)
        ensures
            r.bits == 0,
    {
        Modifier { bits: 0 }
    }

    /// Every flag set.
    pub fn all() -> (r: Modifier)
        ensures
            r.bits == MODIFIER_ALL_BITS,
    {
        Modifier { bits: MODIFIER_ALL_BITS }
    }

    /// The raw bits of the set.
    pub fn bits(&self) -> (r: u16)
        ensures
            r == self.bits,
    {
        self.bits
    }

    /// Whether no flag is set.
    pub fn is_empty(&self) -> (r: bool)
        ensures
            r == (self.bits == 0),
    {
        self.bits == 0
    }

    /// Whether every flag of `other` is set in `self`.
    pub fn contains(&self, other: Modifier) -> (r: bool)
        ensures
            r == (self.bits & other.bits == other.bits),
    {
        self.bits & other.bits == other.bits
    }

    /// The flags set in either operand.
    pub fn union(self, other: Modifier) -> (r: Modifier)
        ensures
            r.bits == self.bits | other.bits,
    {
        Modifier { bits: self.bits | other.bits }
    }

    /// The flags set in `self` but not in `other`.
    pub fn difference(self, other: Modifier) -> (r: Modifier)
        ensures
            r.bits == self.bits & !other.bits,
    {
        Modifier { bits: self.bits & !other.bits }
    }

    /// Sets every flag of `other`.
    pub fn insert(&mut self, other: Modifier)
        ensures
            final(self).bits == old(self).bits | other.bits,
    {
        self.bits = self.bits | other.bits;
    }

    /// Clears every flag of `other`.
    pub fn remove(&mut self, other: Modifier)
        ensures
            final(self).bits == old(self).bits & !other.bits,
    {
        self.bits = self.bits & !other.bits;
    }

    /// Parses a modifier name such as `"bold"`.
    pub fn from_name(name: &str) -> (r: Result<Modifier, &'static str>)
        ensures
            r matches Ok(m) ==> m.bits == modifier_name_bits(name@),
            r is Ok <==> modifier_name_bits(name@) != 0,
            r matches Err(e) ==> e@ == "Invalid modifier"@,
    {
        if str_eq(name, "bold") {
            Ok(Modifier::bold())
        } else if str_eq(name, "dim") {
            Ok(Modifier::dim())
        } else if str_eq(name, "italic") {
            Ok(Modifier::italic())
        } else if str_eq(name, "slow_blink") {
            Ok(Modifier::slow_blink())
        } else if str_eq(name, "rapid_blink") {
            Ok(Modifier::rapid_blink())
        } else if str_eq(name, "reversed") {
            Ok(Modifier::reversed())
        } else if str_eq(name, "hidden") {
            Ok(Modifier::hidden())
        } else if str_eq(name, "crossed_out") {
            Ok(Modifier::crossed_out())
        } else {
            Err("Invalid modifier")
        }
    }
}

impl std::str::FromStr for Modifier {
    type Err = &'static str;

    fn from_str(modifier: &str) -> (r: Result<Modifier, &'static str>)
        ensures
            r matches Ok(m) ==> m.bits == modifier_name_bits(modifier@),
            r is Ok <==> modifier_name_bits(modifier@) != 0,
            r matches Err(e) ==> e@ == "Invalid modifier"@,
    {
        Modifier::from_name(modifier)
    }
}

/// The flag that each modifier name stands for, or 0 for an unknown name.
pub open spec fn modifier_name_bits(name: Seq<char>) -> u16 {
    if name == "bold"@ {
        0x0001
    } else if name == "dim"@ {
        0x0002
    } else if name == "italic"@ {
        0x0004
    } else if name == "slow_blink"@ {
        0x0010
    } else if name == "rapid_blink"@ {
        0x0020
    } else if name == "reversed"@ {
        0x0040
    } else if name == "hidden"@ {
        0x0080
    } else if name == "crossed_out"@ {
        0x0100
    } else {
        0
    }
}


/// Each modifier name stands for the flag of the same name, and no two names stand for the
/// same flag; any other name stands for none.
pub proof fn lemma_modifier_names()
    ensures
        modifier_name_bits("bold"@) == 0x0001,
        modifier_name_bits("dim"@) == 0x0002,
        modifier_name_bits("italic"@) == 0x0004,
        modifier_name_bits("slow_blink"@) == 0x0010,
        modifier_name_bits("rapid_blink"@) == 0x0020,
        modifier_name_bits("reversed"@) == 0x0040,
        modifier_name_bits("hidden"@) == 0x0080,
        modifier_name_bits("crossed_out"@) == 0x0100,
        forall|a: Seq<char>, b: Seq<char>|
            modifier_name_bits(a) != 0 && #[trigger] modifier_name_bits(a)
                == #[trigger] modifier_name_bits(b) ==> a == b,
{
    reveal_strlit("bold");
    reveal_strlit("dim");
    reveal_strlit("italic");
    reveal_strlit("slow_blink");
    reveal_strlit("rapid_blink");
    reveal_strlit("reversed");
    reveal_strlit("hidden");
    reveal_strlit("crossed_out");
    assert("dim"@.len() != "bold"@.len());
    assert("dim"@ != "bold"@);
    assert("italic"@.len() != "bold"@.len());
    assert("italic"@ != "bold"@);
    assert("italic"@.len() != "dim"@.len());
    assert("italic"@ != "dim"@);
    assert("slow_blink"@.len() != "bold"@.len());
    assert("slow_blink"@ != "bold"@);
    assert("slow_blink"@.len() != "dim"@.len());
    assert("slow_blink"@ != "dim"@);
    assert("slow_blink"@.len() != "italic"@.len());
    assert("slow_blink"@ != "italic"@);
    assert("rapid_blink"@.len() != "bold"@.len());
    assert("rapid_blink"@ != "bold"@);
    assert("rapid_blink"@.len() != "dim"@.len());
    assert("rapid_blink"@ != "dim"@);
    assert("rapid_blink"@.len() != "italic"@.len());
    assert("rapid_blink"@ != "italic"@);
    assert("rapid_blink"@.len() != "slow_blink"@.len());
    assert("rapid_blink"@ != "slow_blink"@);
    assert("reversed"@.len() != "bold"@.len());
    assert("reversed"@ != "bold"@);
    assert("reversed"@.len() != "dim"@.len());
    assert("reversed"@ != "dim"@);
    assert("reversed"@.len() != "italic"@.len());
    assert("reversed"@ != "italic"@);
    assert("reversed"@.len() != "slow_blink"@.len());
    assert("reversed"@ != "slow_blink"@);
    assert("reversed"@.len() != "rapid_blink"@.len());
    assert("reversed"@ != "rapid_blink"@);
    assert("hidden"@.len() != "bold"@.len());
    assert("hidden"@ != "bold"@);
    assert("hidden"@.len() != "dim"@.len());
    assert("hidden"@ != "dim"@);
    assert("hidden"@[0] != "italic"@[0]);
    assert("hidden"@ != "italic"@);
    assert("hidden"@.len() != "slow_blink"@.len());
    assert("hidden"@ != "slow_blink"@);
    assert("hidden"@.len() != "rapid_blink"@.len());
    assert("hidden"@ != "rapid_blink"@);
    assert("hidden"@.len() != "reversed"@.len());
    assert("hidden"@ != "reversed"@);
    assert("crossed_out"@.len() != "bold"@.len());
    assert("crossed_out"@ != "bold"@);
    assert("crossed_out"@.len() != "dim"@.len());
    assert("crossed_out"@ != "dim"@);
    assert("crossed_out"@.len() != "italic"@.len());
    assert("crossed_out"@ != "italic"@);
    assert("crossed_out"@.len() != "slow_blink"@.len());
    assert("crossed_out"@ != "slow_blink"@);
    assert("crossed_out"@[0] != "rapid_blink"@[0]);
    assert("crossed_out"@ != "rapid_blink"@);
    assert("crossed_out"@.len() != "reversed"@.len());
    assert("crossed_out"@ != "reversed"@);
    assert("crossed_out"@.len() != "hidden"@.len());
    assert("crossed_out"@ != "hidden"@);
}

/// The shape of an underline.
#[derive(Debug, Clone, Copy, PartialEq, Eq, Structural)]
pub enum UnderlineStyle {
    Reset,
    Line,
    Curl,
    Dotted,
    Dashed,
    DoubleLine,
}

/// The terminal layer's `UNDERLINED` modifier bit.
pub const RATATUI_UNDERLINED: u16 = 0x0008;

/// Modifier bits that the terminal layer leaves unused and that carry the underline shape.
pub const RATATUI_UNDERLINE_STYLE_MASK: u16 = 0x0e00;

/// The shape bits that encode each underline style.
pub open spec fn underline_shape_bits(u: UnderlineStyle) -> u16 {
    match u {
        UnderlineStyle::Reset | UnderlineStyle::Line => 0,
        UnderlineStyle::Curl => 0x0200,
        UnderlineStyle::Dotted => 0x0400,
        UnderlineStyle::Dashed => 0x0600,
        UnderlineStyle::DoubleLine => 0x0800,
    }
}

/// The terminal-layer modifier bits that encode an underline style.
pub open spec fn underline_encoding(u: UnderlineStyle) -> u16 {
    if u == UnderlineStyle::Reset {
        underline_shape_bits(u)
    } else {
        underline_shape_bits(u) | RATATUI_UNDERLINED
    }
}

/// The underline style that a set of terminal-layer modifier bits encodes.
pub open spec fn underline_decoding(bits: u16) -> UnderlineStyle {
    if bits & RATATUI_UNDERLINED != RATATUI_UNDERLINED {
        UnderlineStyle::Reset
    } else {
        let shape = bits & RATATUI_UNDERLINE_STYLE_MASK;
        if shape == 0x0200 {
            UnderlineStyle::Curl
        } else if shape == 0x0400 {
            UnderlineStyle::Dotted
        } else if shape == 0x0600 {
            UnderlineStyle::Dashed
        } else if shape == 0x0800 {
            UnderlineStyle::DoubleLine
        } else {
            UnderlineStyle::Line
        }
    }
}

/// The underline style that each name stands for.
pub open spec fn underline_style_named(name: Seq<char>) -> Option<UnderlineStyle> {
    if name == "line"@ {
        Some(UnderlineStyle::Line)
    } else if name == "curl"@ {
        Some(UnderlineStyle::Curl)
    } else if name == "dotted"@ {
        Some(UnderlineStyle::Dotted)
    } else if name == "dashed"@ {
        Some(UnderlineStyle::Dashed)
    } else if name == "double_line"@ {
        Some(UnderlineStyle::DoubleLine)
    } else {
        None
    }
}

impl UnderlineStyle {
    /// Encodes this style in terminal-layer modifier bits: the shape in the spare bits,
    /// together with `UNDERLINED` unless the style resets the underline.
    pub fn ratatui_modifier(self) -> (r: u16)
        ensures
            r == underline_encoding(self),
    {
        let bits: u16 = match self {
            UnderlineStyle::Reset | UnderlineStyle::Line => 0,
            UnderlineStyle::Curl => 0x0200,
            UnderlineStyle::Dotted => 0x0400,
            UnderlineStyle::Dashed => 0x0600,
            UnderlineStyle::DoubleLine => 0x0800,
        };
        if self == UnderlineStyle::Reset {
            bits
        } else {
            bits | RATATUI_UNDERLINED
        }
    }

    /// Decodes the underline style from terminal-layer modifier bits.
    pub fn from_ratatui_modifier(modifier: u16) -> (r: UnderlineStyle)
        ensures
            r == underline_decoding(modifier),
    {
        if modifier & RATATUI_UNDERLINED != RATATUI_UNDERLINED {
            return UnderlineStyle::Reset;
        }
        let shape = modifier & RATATUI_UNDERLINE_STYLE_MASK;
        if shape == 0x0200 {
            UnderlineStyle::Curl
        } else if shape == 0x0400 {
            UnderlineStyle::Dotted
        } else if shape == 0x0600 {
            UnderlineStyle::Dashed
        } else if shape == 0x0800 {
            UnderlineStyle::DoubleLine
        } else {
            UnderlineStyle::Line
        }
    }

    /// Parses an underline style name such as `"curl"`.
    pub fn from_name(name: &str) -> (r: Result<UnderlineStyle, &'static str>)
        ensures
            r matches Ok(u) ==> underline_style_named(name@) == Some(u),
            r is Ok <==> underline_style_named(name@) is Some,
            r matches Err(e) ==> e@ == "Invalid underline style"@,
    {
        if str_eq(name, "line") {
            Ok(UnderlineStyle::Line)
        } else if str_eq(name, "curl") {
            Ok(UnderlineStyle::Curl)
        } else if str_eq(name, "dotted") {
            Ok(UnderlineStyle::Dotted)
        } else if str_eq(name, "dashed") {
            Ok(UnderlineStyle::Dashed)
        } else if str_eq(name, "double_line") {
            Ok(UnderlineStyle::DoubleLine)
        } else {
            Err("Invalid underline style")
        }
    }
}

impl std::str::FromStr for UnderlineStyle {
    type Err = &'static str;

    fn from_str(modifier: &str) -> (r: Result<UnderlineStyle, &'static str>)
        ensures
            r matches Ok(u) ==> underline_style_named(modifier@) == Some(u),
            r is Ok <==> underline_style_named(modifier@) is Some,
            r matches Err(e) ==> e@ == "Invalid underline style"@,
    {
        UnderlineStyle::from_name(modifier)
    }
}

/// Each underline name stands for the style of the same name, and no two names stand for
/// the same style; any other name stands for none.
pub proof fn lemma_underline_names()
    ensures
        underline_style_named("line"@) == Some(UnderlineStyle::Line),
        underline_style_named("curl"@) == Some(UnderlineStyle::Curl),
        underline_style_named("dotted"@) == Some(UnderlineStyle::Dotted),
        underline_style_named("dashed"@) == Some(UnderlineStyle::Dashed),
        underline_style_named("double_line"@) == Some(UnderlineStyle::DoubleLine),
        forall|a: Seq<char>, b: Seq<char>|
            #[trigger] underline_style_named(a) is Some && underline_style_named(a)
                == #[trigger] underline_style_named(b) ==> a == b,
{
    reveal_strlit("line");
    reveal_strlit("curl");
    reveal_strlit("dotted");
    reveal_strlit("dashed");
    reveal_strlit("double_line");
    assert("curl"@[0] != "line"@[0]);
    assert("curl"@ != "line"@);
    assert("dotted"@.len() != "line"@.len());
    assert("dotted"@ != "line"@);
    assert("dotted"@.len() != "curl"@.len());
    assert("dotted"@ != "curl"@);
    assert("dashed"@.len() != "line"@.len());
    assert("dashed"@ != "line"@);
    assert("dashed"@.len() != "curl"@.len());
    assert("dashed"@ != "curl"@);
    assert("dashed"@[1] != "dotted"@[1]);
    assert("dashed"@ != "dotted"@);
    assert("double_line"@.len() != "line"@.len());
    assert("double_line"@ != "line"@);
    assert("double_line"@.len() != "curl"@.len());
    assert("double_line"@ != "curl"@);
    assert("double_line"@.len() != "dotted"@.len());
    assert("double_line"@ != "dotted"@);
    assert("double_line"@.len() != "dashed"@.len());
    assert("double_line"@ != "dashed"@);
}

/// Encoding an underline style and decoding it gives the style back.
pub proof fn lemma_underline_round_trip(u: UnderlineStyle)
    ensures
        underline_decoding(underline_encoding(u)) == u,
{
    assert(0x0200u16 & 0x0008u16 != 0x0008u16) by (bit_vector);
    assert((0u16 | 0x0008u16) & 0x0008u16 == 0x0008u16 && (0u16 | 0x0008u16) & 0x0e00u16 == 0)
        by (bit_vector);
    assert((0x0200u16 | 0x0008u16) & 0x0008u16 == 0x0008u16 && (0x0200u16 | 0x0008u16)
        & 0x0e00u16 == 0x0200) by (bit_vector);
    assert((0x0400u16 | 0x0008u16) & 0x0008u16 == 0x0008u16 && (0x0400u16 | 0x0008u16)
        & 0x0e00u16 == 0x0400) by (bit_vector);
    assert((0x0600u16 | 0x0008u16) & 0x0008u16 == 0x0008u16 && (0x0600u16 | 0x0008u16)
        & 0x0e00u16 == 0x0600) by (bit_vector);
    assert((0x0800u16 | 0x0008u16) & 0x0008u16 == 0x0008u16 && (0x0800u16 | 0x0008u16)
        & 0x0e00u16 == 0x0800) by (bit_vector);
    assert(0u16 & 0x0008u16 != 0x0008u16) by (bit_vector);
}


/// An incremental change of the way text is displayed: applying styles S1, S2, S3 to a
/// cell gives the merge of S1, S2 and S3, not S3 alone.
#[derive(Debug, Clone, Copy, PartialEq, Eq, Structural)]
pub struct Style {
    pub fg: Option<Color>,
    pub bg: Option<Color>,
    pub underline_color: Option<Color>,
    pub underline_style: Option<UnderlineStyle>,
    pub add_modifier: Modifier,
    pub sub_modifier: Modifier,
}

/// `a` when it is set, `b` otherwise.
pub open spec fn or_else<T>(a: Option<T>, b: Option<T>) -> Option<T> {
    match a {
        Some(x) => Some(x),
        None => b,
    }
}

/// The style that applying `other` on top of `s` amounts to.
pub open spec fn patched(s: Style, other: Style) -> Style {
    Style {
        fg: or_else(other.fg, s.fg),
        bg: or_else(other.bg, s.bg),
        underline_color: or_else(other.underline_color, s.underline_color),
        underline_style: or_else(other.underline_style, s.underline_style),
        add_modifier: Modifier {
            bits: (s.add_modifier.bits & !other.sub_modifier.bits) | other.add_modifier.bits,
        },
        sub_modifier: Modifier {
            bits: (s.sub_modifier.bits & !other.add_modifier.bits) | other.sub_modifier.bits,
        },
    }
}

/// The style that changes nothing.
pub open spec fn style_none() -> Style {
    Style {
        fg: None,
        bg: None,
        underline_color: None,
        underline_style: None,
        add_modifier: Modifier { bits: 0 },
        sub_modifier: Modifier { bits: 0 },
    }
}

impl Default for Style {
    fn default() -> (r: Style)
        ensures
            r == style_none(),
    {
        Style::new()
    }
}

impl Style {
    /// The style that changes nothing.
    pub fn new() -> (r: Style)
        ensures
            r == style_none(),
    {
        Style {
            fg: None,
            bg: None,
            underline_color: None,
            underline_style: None,
            add_modifier: Modifier::empty(),
            sub_modifier: Modifier::empty(),
        }
    }

    /// A style that resets colors and clears every modifier.
    pub fn reset() -> (r: Style)
        ensures
            r == (Style {
                fg: Some(Color::Reset),
                bg: Some(Color::Reset),
                underline_color: None,
                underline_style: None,
                add_modifier: Modifier { bits: 0 },
                sub_modifier: Modifier { bits: MODIFIER_ALL_BITS },
            }),
    {
        Style {
            fg: Some(Color::Reset),
            bg: Some(Color::Reset),
            underline_color: None,
            underline_style: None,
            add_modifier: Modifier::empty(),
            sub_modifier: Modifier::all(),
        }
    }

    /// Changes the foreground color.
    pub fn fg(self, color: Color) -> (r: Style)
        ensures
            r == (Style { fg: Some(color), ..self }),
    {
        Style { fg: Some(color), ..self }
    }

    /// Changes the background color.
    pub fn bg(self, color: Color) -> (r: Style)
        ensures
            r == (Style { bg: Some(color), ..self }),
    {
        Style { bg: Some(color), ..self }
    }

    /// Changes the underline color.
    pub fn underline_color(self, color: Color) -> (r: Style)
        ensures
            r == (Style { underline_color: Some(color), ..self }),
    {
        Style { underline_color: Some(color), ..self }
    }

    /// Changes the underline style.
    pub fn underline_style(self, style: UnderlineStyle) -> (r: Style)
        ensures
            r == (Style { underline_style: Some(style), ..self }),
    {
        Style { underline_style: Some(style), ..self }
    }

    /// Adds the given modifier to the style, and stops removing it.
    pub fn add_modifier(self, modifier: Modifier) -> (r: Style)
        ensures
            r == (Style {
                add_modifier: Modifier { bits: self.add_modifier.bits | modifier.bits },
                sub_modifier: Modifier { bits: self.sub_modifier.bits & !modifier.bits },
                ..self
            }),
    {
        let mut s = self;
        s.sub_modifier.remove(modifier);
        s.add_modifier.insert(modifier);
        s
    }

    /// Removes the given modifier from the style, and stops adding it.
    pub fn remove_modifier(self, modifier: Modifier) -> (r: Style)
        ensures
            r == (Style {
                add_modifier: Modifier { bits: self.add_modifier.bits & !modifier.bits },
                sub_modifier: Modifier { bits: self.sub_modifier.bits | modifier.bits },
                ..self
            }),
    {
        let mut s = self;
        s.add_modifier.remove(modifier);
        s.sub_modifier.insert(modifier);
        s
    }

    /// The combined style that applying `self` and then `other` amounts to.
    pub fn patch(self, other: Style) -> (r: Style)
        ensures
            r == patched(self, other),
    {
        let mut s = self;
        s.fg = match other.fg {
            Some(c) => Some(c),
            None => s.fg,
        };
        s.bg = match other.bg {
            Some(c) => Some(c),
            None => s.bg,
        };
        s.underline_color = match other.underline_color {
            Some(c) => Some(c),
            None => s.underline_color,
        };
        s.underline_style = match other.underline_style {
            Some(u) => Some(u),
            None => s.underline_style,
        };
        s.add_modifier.remove(other.sub_modifier);
        s.add_modifier.insert(other.add_modifier);
        s.sub_modifier.remove(other.add_modifier);
        s.sub_modifier.insert(other.sub_modifier);
        s
    }
}

/// Patching with a combined style is the same as patching with its parts one after the other.
pub proof fn lemma_patch_associative(s: Style, a: Style, b: Style)
    ensures
        patched(patched(s, a), b) == patched(s, patched(a, b)),
{
    let (sa, ss, aa, asub, ba, bs) = (
        s.add_modifier.bits,
        s.sub_modifier.bits,
        a.add_modifier.bits,
        a.sub_modifier.bits,
        b.add_modifier.bits,
        b.sub_modifier.bits,
    );
    assert(((((sa & !asub) | aa) & !bs) | ba) == ((sa & !((asub & !ba) | bs)) | ((aa & !bs) | ba)))
        by (bit_vector);
    assert(((((ss & !aa) | asub) & !ba) | bs) == ((ss & !((aa & !bs) | ba)) | ((asub & !ba) | bs)))
        by (bit_vector);
}

/// Patching with the style that changes nothing leaves a style as it is.
pub proof fn lemma_patch_identity(s: Style)
    ensures
        patched(s, style_none()) == s,
        patched(style_none(), s) == s,
{
    let (sa, ss) = (s.add_modifier.bits, s.sub_modifier.bits);
    assert((sa & !0u16) | 0u16 == sa && (ss & !0u16) | 0u16 == ss) by (bit_vector);
    assert((0u16 & !ss) | sa == sa && (0u16 & !sa) | ss == ss) by (bit_vector);
}


/// What a cell holds for one attribute after a style sets it or leaves it: the style's
/// value when it has one, else what the cell held.
pub open spec fn overlay<T>(current: T, set: Option<T>) -> T {
    match set {
        Some(v) => v,
        None => current,
    }
}

/// The modifiers of a cell after a style's added and removed modifiers are applied: added
/// flags are set, then removed flags are cleared.
pub open spec fn modifiers_after(m: u16, s: Style) -> u16 {
    (m | s.add_modifier.bits) & !s.sub_modifier.bits
}

/// Applying the patched style to a cell gives what applying the first style and then the
/// second gives, for every cell: each color and the underline style come from the later
/// style when it sets them, and every modifier ends as the two styles leave it one after
/// the other (so a modifier that the later style adds is shown even if the earlier one
/// removed it, and one that the later style removes is not shown).
pub proof fn lemma_patch_applies_in_order(
    s: Style,
    o: Style,
    m: u16,
    fg: Color,
    bg: Color,
    underline_color: Color,
    underline_style: UnderlineStyle,
)
    ensures
        modifiers_after(m, patched(s, o)) == modifiers_after(modifiers_after(m, s), o),
        overlay(fg, patched(s, o).fg) == overlay(overlay(fg, s.fg), o.fg),
        overlay(bg, patched(s, o).bg) == overlay(overlay(bg, s.bg), o.bg),
        overlay(underline_color, patched(s, o).underline_color) == overlay(
            overlay(underline_color, s.underline_color),
            o.underline_color,
        ),
        overlay(underline_style, patched(s, o).underline_style) == overlay(
            overlay(underline_style, s.underline_style),
            o.underline_style,
        ),
        patched(s, o).add_modifier.bits & o.add_modifier.bits == o.add_modifier.bits,
        patched(s, o).sub_modifier.bits & o.sub_modifier.bits == o.sub_modifier.bits,
        patched(s, o).sub_modifier.bits & (o.add_modifier.bits & !o.sub_modifier.bits) == 0,
        patched(s, o).add_modifier.bits & (o.sub_modifier.bits & !o.add_modifier.bits) == 0,
{
    let (sa, ss, oa, os) = (
        s.add_modifier.bits,
        s.sub_modifier.bits,
        o.add_modifier.bits,
        o.sub_modifier.bits,
    );
    assert((m | ((sa & !os) | oa)) & !((ss & !oa) | os) == (((m | sa) & !ss) | oa) & !os)
        by (bit_vector);
    assert(((sa & !os) | oa) & oa == oa) by (bit_vector);
    assert(((ss & !oa) | os) & os == os) by (bit_vector);
    assert(((ss & !oa) | os) & (oa & !os) == 0) by (bit_vector);
    assert(((sa & !os) | oa) & (os & !oa) == 0) by (bit_vector);
}

/// The terminal-layer modifier bits that each Helix modifier maps to: every Helix flag has
/// the bit of the terminal layer's flag of the same name.
pub open spec fn ratatui_bits_of(m: Modifier) -> u16 {
    m.bits & MODIFIER_ALL_BITS
}

/// The modifiers that a terminal-layer style gets from a Helix style: its own modifiers,
/// with the underline flag and shape bits set from the underline style when it has one.
pub open spec fn ratatui_modifiers_of(s: Style) -> (u16, u16) {
    let add = ratatui_bits_of(s.add_modifier);
    let sub = ratatui_bits_of(s.sub_modifier);
    let underline_bits = RATATUI_UNDERLINED | RATATUI_UNDERLINE_STYLE_MASK;
    match s.underline_style {
        Some(UnderlineStyle::Reset) => (add & !underline_bits, sub | underline_bits),
        Some(u) => (
            (add & !underline_bits) | underline_encoding(u),
            (sub | underline_bits) & !underline_encoding(u),
        ),
        None => (add, sub),
    }
}

/// The modifier of a terminal cell after a style with modifiers `(add, sub)` is applied to it.
pub open spec fn cell_modifier_after(m: u16, add_sub: (u16, u16)) -> u16 {
    (m | add_sub.0) & !add_sub.1
}

impl Modifier {
    /// The terminal-layer modifier bits of this set.
    pub fn to_ratatui_bits(self) -> (r: u16)
        ensures
            r == ratatui_bits_of(self),
    {
        self.bits & MODIFIER_ALL_BITS
    }
}

impl Style {
    /// The `(add, sub)` modifier bits of the terminal-layer style that this style converts to.
    pub fn ratatui_modifiers(self) -> (r: (u16, u16))
        ensures
            r == ratatui_modifiers_of(self),
    {
        let mut add = self.add_modifier.to_ratatui_bits();
        let mut sub = self.sub_modifier.to_ratatui_bits();
        let underline_bits = RATATUI_UNDERLINED | RATATUI_UNDERLINE_STYLE_MASK;
        match self.underline_style {
            Some(UnderlineStyle::Reset) => {
                add = add & !underline_bits;
                sub = sub | underline_bits;
            },
            Some(underline_style) => {
                let encoded = underline_style.ratatui_modifier();
                add = add & !underline_bits;
                add = add | encoded;
                sub = sub | underline_bits;
                sub = sub & !encoded;
            },
            None => {},
        }
        (add, sub)
    }
}

/// The terminal style keeps every Helix modifier flag of the style: on the flag bits its
/// added and removed modifiers are the style's own, and applying it to a terminal cell
/// leaves the flags as applying the style itself would, whatever the underline style.
pub proof fn lemma_terminal_style_keeps_modifiers(s: Style, m: u16)
    ensures
        ratatui_modifiers_of(s).0 & MODIFIER_ALL_BITS == s.add_modifier.bits & MODIFIER_ALL_BITS,
        ratatui_modifiers_of(s).1 & MODIFIER_ALL_BITS == s.sub_modifier.bits & MODIFIER_ALL_BITS,
        cell_modifier_after(m, ratatui_modifiers_of(s)) & MODIFIER_ALL_BITS == modifiers_after(
            m,
            s,
        ) & MODIFIER_ALL_BITS,
{
    let a = s.add_modifier.bits;
    let b = s.sub_modifier.bits;
    assert(RATATUI_UNDERLINED | RATATUI_UNDERLINE_STYLE_MASK == 0x0e08u16) by (bit_vector);
    match s.underline_style {
        Some(UnderlineStyle::Reset) => {
            assert({
                let add = (a & 0x01f7u16) & !0x0e08u16;
                let sub = (b & 0x01f7u16) | 0x0e08u16;
                &&& add & 0x01f7u16 == a & 0x01f7u16
                &&& sub & 0x01f7u16 == b & 0x01f7u16
                &&& ((m | add) & !sub) & 0x01f7u16 == ((m | a) & !b) & 0x01f7u16
            }) by (bit_vector);
        },
        Some(u) => {
            let enc = underline_encoding(u);
            assert(enc & 0x01f7u16 == 0) by {
                let shape = underline_shape_bits(u);
                assert(underline_encoding(u) == shape | 0x0008u16);
                assert((shape == 0 || shape == 0x0200 || shape == 0x0400 || shape == 0x0600
                    || shape == 0x0800) ==> (shape | 0x0008u16) & 0x01f7u16 == 0)
                    by (bit_vector);
            }
            assert(enc & 0x01f7u16 == 0 ==> {
                let add = ((a & 0x01f7u16) & !0x0e08u16) | enc;
                let sub = ((b & 0x01f7u16) | 0x0e08u16) & !enc;
                &&& add & 0x01f7u16 == a & 0x01f7u16
                &&& sub & 0x01f7u16 == b & 0x01f7u16
                &&& ((m | add) & !sub) & 0x01f7u16 == ((m | a) & !b) & 0x01f7u16
            }) by (bit_vector);
        },
        None => {
            assert({
                let add = a & 0x01f7u16;
                let sub = b & 0x01f7u16;
                &&& add & 0x01f7u16 == a & 0x01f7u16
                &&& sub & 0x01f7u16 == b & 0x01f7u16
                &&& ((m | add) & !sub) & 0x01f7u16 == ((m | a) & !b) & 0x01f7u16
            }) by (bit_vector);
        },
    }
}

/// Applying a style with an underline style to a terminal cell leaves the cell with that
/// underline style, whatever the cell held before.
pub proof fn lemma_cell_takes_underline_style(m: u16, s: Style)
    requires
        s.underline_style is Some,
    ensures
        underline_decoding(cell_modifier_after(m, ratatui_modifiers_of(s)))
            == s.underline_style.unwrap(),
{
    let add = ratatui_bits_of(s.add_modifier);
    let sub = ratatui_bits_of(s.sub_modifier);
    let u = s.underline_style.unwrap();
    assert(RATATUI_UNDERLINED | RATATUI_UNDERLINE_STYLE_MASK == 0x0e08u16) by (bit_vector);
    let r = cell_modifier_after(m, ratatui_modifiers_of(s));
    match u {
        UnderlineStyle::Reset => {
            assert(((m | (add & !0x0e08u16)) & !(sub | 0x0e08u16)) & 0x0008u16 != 0x0008u16)
                by (bit_vector);
        },
        _ => {
            let shape = underline_shape_bits(u);
            assert(underline_encoding(u) == shape | 0x0008u16);
            assert((shape == 0 || shape == 0x0200 || shape == 0x0400 || shape == 0x0600
                || shape == 0x0800) ==> {
                let enc = shape | 0x0008u16;
                let r = (m | ((add & !0x0e08u16) | enc)) & !((sub | 0x0e08u16) & !enc);
                &&& r & 0x0008u16 == 0x0008u16
                &&& r & 0x0e00u16 == shape
            }) by (bit_vector);
        },
    }
}


/// A rectangle of terminal cells: the top-left corner and the size.
#[derive(Debug, Clone, Copy, PartialEq, Eq, Structural, Default)]
pub struct Rect {
    pub x: u16,
    pub y: u16,
    pub width: u16,
    pub height: u16,
}

/// The smaller of two numbers.
pub open spec fn min_u16(a: u16, b: u16) -> u16 {
    if a <= b {
        a
    } else {
        b
    }
}

/// `a + b`, or `u16::MAX` when the sum does not fit.
pub open spec fn sat_add(a: u16, b: u16) -> u16 {
    if a + b > u16::MAX {
        u16::MAX
    } else {
        (a + b) as u16
    }
}

/// `a - b`, or 0 when `b` is larger.
pub open spec fn sat_sub(a: u16, b: u16) -> u16 {
    if a < b {
        0
    } else {
        (a - b) as u16
    }
}

/// The rectangle that the terminal layer builds: the size is cut so that the right and
/// bottom edges stay within `u16`.
pub open spec fn rect_new(x: u16, y: u16, width: u16, height: u16) -> Rect {
    Rect {
        x,
        y,
        width: min_u16(width, (u16::MAX - x) as u16),
        height: min_u16(height, (u16::MAX - y) as u16),
    }
}

/// Builds a rectangle through the terminal layer's `Rect::new`, which cuts the width and
/// height so that `x + width` and `y + height` stay within `u16`.
#[verifier::external_body]
fn ratatui_rect_new(x: u16, y: u16, width: u16, height: u16) -> (r: Rect)
    ensures
        r == rect_new(x, y, width, height),
{
    let r = ratatui::layout::Rect::new(x, y, width, height);
    Rect { x: r.x, y: r.y, width: r.width, height: r.height }
}

impl Rect {
    /// A rectangle at `(x, y)` of the given size, cut to stay within the `u16` plane.
    pub fn new(x: u16, y: u16, width: u16, height: u16) -> (r: Rect)
        ensures
            r == rect_new(x, y, width, height),
    {
        ratatui_rect_new(x, y, width, height)
    }

    /// The number of cells in the rectangle.
    pub fn area(self) -> (r: u32)
        ensures
            r == self.width * self.height,
    {
        assert(self.width * self.height <= 0xffff * 0xffff) by (nonlinear_arith)
            requires
                self.width <= 0xffff,
                self.height <= 0xffff,
        ;
        (self.width as u32) * (self.height as u32)
    }

    /// The first column left of the rectangle.
    pub fn left(self) -> (r: u16)
        ensures
            r == self.x,
    {
        self.x
    }

    /// The first column right of the rectangle, at most `u16::MAX`.
    pub fn right(self) -> (r: u16)
        ensures
            r == sat_add(self.x, self.width),
    {
        self.x.saturating_add(self.width)
    }

    /// The top row of the rectangle.
    pub fn top(self) -> (r: u16)
        ensures
            r == self.y,
    {
        self.y
    }

    /// The first row below the rectangle, at most `u16::MAX`.
    pub fn bottom(self) -> (r: u16)
        ensures
            r == sat_add(self.y, self.height),
    {
        self.y.saturating_add(self.height)
    }

}

/// Rectangle conveniences: cutting off sides and changing the size.
pub trait RectExt {
    fn clip_left(self, width: u16) -> Rect;
    fn clip_right(self, width: u16) -> Rect;
    fn clip_top(self, height: u16) -> Rect;
    fn clip_bottom(self, height: u16) -> Rect;
    fn with_height(self, height: u16) -> Rect;
    fn with_width(self, width: u16) -> Rect;
}

impl RectExt for Rect {
    /// Cuts `width` columns off the left side; the cut is at most the rectangle's width.
    fn clip_left(self, width: u16) -> (r: Rect)
        ensures
            r == (Rect {
                x: sat_add(self.x, min_u16(width, self.width)),
                width: sat_sub(self.width, min_u16(width, self.width)),
                ..self
            }),
    {
        let width = if width < self.width { width } else { self.width };
        Rect { x: self.x.saturating_add(width), width: self.width.saturating_sub(width), ..self }
    }

    /// Cuts `width` columns off the right side.
    fn clip_right(self, width: u16) -> (r: Rect)
        ensures
            r == (Rect { width: sat_sub(self.width, width), ..self }),
    {
        Rect { width: self.width.saturating_sub(width), ..self }
    }

    /// Cuts `height` rows off the top; the cut is at most the rectangle's height.
    fn clip_top(self, height: u16) -> (r: Rect)
        ensures
            r == (Rect {
                y: sat_add(self.y, min_u16(height, self.height)),
                height: sat_sub(self.height, min_u16(height, self.height)),
                ..self
            }),
    {
        let height = if height < self.height { height } else { self.height };
        Rect { y: self.y.saturating_add(height), height: self.height.saturating_sub(height), ..self }
    }

    /// Cuts `height` rows off the bottom.
    fn clip_bottom(self, height: u16) -> (r: Rect)
        ensures
            r == (Rect { height: sat_sub(self.height, height), ..self }),
    {
        Rect { height: self.height.saturating_sub(height), ..self }
    }

    /// The same corner with another height.
    fn with_height(self, height: u16) -> (r: Rect)
        ensures
            r == rect_new(self.x, self.y, self.width, height),
    {
        Rect::new(self.x, self.y, self.width, height)
    }

    /// The same corner with another width.
    fn with_width(self, width: u16) -> (r: Rect)
        ensures
            r == rect_new(self.x, self.y, width, self.height),
    {
        Rect::new(self.x, self.y, width, self.height)
    }
}

/// A rectangle whose right and bottom edges stay within the `u16` plane keeps the size it is
/// built with.
pub proof fn lemma_rect_new_keeps_fitting_size(x: u16, y: u16, width: u16, height: u16)
    requires
        x + width <= u16::MAX,
        y + height <= u16::MAX,
    ensures
        rect_new(x, y, width, height) == (Rect { x, y, width, height }),
{
}

/// Clipping from the left never moves the right edge of a rectangle that fits the plane,
/// and never grows it.
pub proof fn lemma_clip_left_keeps_right_edge(r: Rect, width: u16)
    requires
        r.x + r.width <= u16::MAX,
    ensures
        ({
            let c = Rect {
                x: sat_add(r.x, min_u16(width, r.width)),
                width: sat_sub(r.width, min_u16(width, r.width)),
                ..r
            };
            &&& c.x + c.width == r.x + r.width
            &&& c.width <= r.width
            &&& c.y == r.y && c.height == r.height
        }),
{
}

/// Clipping from the top never moves the bottom edge of a rectangle that fits the plane,
/// and never grows it.
pub proof fn lemma_clip_top_keeps_bottom_edge(r: Rect, height: u16)
    requires
        r.y + r.height <= u16::MAX,
    ensures
        ({
            let c = Rect {
                y: sat_add(r.y, min_u16(height, r.height)),
                height: sat_sub(r.height, min_u16(height, r.height)),
                ..r
            };
            &&& c.y + c.height == r.y + r.height
            &&& c.height <= r.height
            &&& c.x == r.x && c.width == r.width
        }),
{
}

} // verus!
