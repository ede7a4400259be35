//! Immutable terminal style descriptors, rendered to ANSI escape
//! sequences only at final string assembly.

use vstd::prelude::*;
use vstd::string::StringExecFns;

verus! {

/// Foreground colors of the basic ANSI palette.
#[derive(Clone, Copy, PartialEq, Eq, Debug)]
pub enum Color {
    Black,
    Red,
    Green,
    Yellow,
    Blue,
    Purple,
    Cyan,
    White,
}

/// A terminal style: effect flags plus an optional foreground color.
#[derive(Clone, Copy, PartialEq, Eq, Debug)]
pub struct Style {
    /// Increased intensity.
    pub bold: bool,
    /// Decreased intensity.
    pub dimmed: bool,
    /// Italic type.
    pub italic: bool,
    /// Underlined text.
    pub underline: bool,
    /// Blinking text.
    pub blink: bool,
    /// Reverse video.
    pub reverse: bool,
    /// Foreground color, if any.
    pub fg: Option<Color>,
}

/// The ANSI parameter digits of a foreground color.
pub open spec fn color_code(c: Color) -> Seq<char> {
    match c {
        Color::Black => seq!['3', '0'],
        Color::Red => seq!['3', '1'],
        Color::Green => seq!['3', '2'],
        Color::Yellow => seq!['3', '3'],
        Color::Blue => seq!['3', '4'],
        Color::Purple => seq!['3', '5'],
        Color::Cyan => seq!['3', '6'],
        Color::White => seq!['3', '7'],
    }
}

/// The ANSI parameter list of a style: effects in fixed order, then color.
pub open spec fn style_codes(s: Style) -> Seq<Seq<char>> {
    let l: Seq<Seq<char>> = Seq::empty();
    let l = if s.bold {
        l.push(seq!['1'])
    } else {
        l
    };
    let l = if s.dimmed {
        l.push(seq!['2'])
    } else {
        l
    };
    let l = if s.italic {
        l.push(seq!['3'])
    } else {
        l
    };
    let l = if s.underline {
        l.push(seq!['4'])
    } else {
        l
    };
    let l = if s.blink {
        l.push(seq!['5'])
    } else {
        l
    };
    let l = if s.reverse {
        l.push(seq!['7'])
    } else {
        l
    };
    match s.fg {
        Some(c) => l.push(color_code(c)),
        None => l,
    }
}

/// A style with no effects and no color paints text unchanged.
pub open spec fn is_plain(s: Style) -> bool {
    !s.bold && !s.dimmed && !s.italic && !s.underline && !s.blink && !s.reverse && s.fg is None
}

/// Sequences joined by a separator.
pub open spec fn seq_join(parts: Seq<Seq<char>>, sep: Seq<char>) -> Seq<char>
    decreases parts.len(),
{
    if parts.len() == 0 {
        Seq::empty()
    } else if parts.len() == 1 {
        parts[0]
    } else {
        seq_join(parts.drop_last(), sep) + sep + parts.last()
    }
}

/// Appending one part extends the join by a separator and the part.
proof fn lemma_seq_join_push(parts: Seq<Seq<char>>, p: Seq<char>, sep: Seq<char>)
    ensures
        parts.len() == 0 ==> seq_join(parts.push(p), sep) == p,
        parts.len() > 0 ==> seq_join(parts.push(p), sep) == seq_join(parts, sep) + sep + p,
{
    let w = parts.push(p);
    assert(w.drop_last() =~= parts);
    assert(w.last() == p);
    if parts.len() == 0 {
        assert(w.len() == 1);
        assert(seq_join(w, sep) == w[0]);
    }
}

/// The escape prefix a style paints before its text: empty when plain.
pub open spec fn spec_prefix(s: Style) -> Seq<char> {
    if is_plain(s) {
        Seq::empty()
    } else {
        seq!['\u{1b}', '['] + seq_join(style_codes(s), seq![';']) + seq!['m']
    }
}

/// The reset that closes every non-plain painted span.
pub open spec fn spec_reset() -> Seq<char> {
    seq!['\u{1b}', '[', '0', 'm']
}

/// Text wrapped in a style's escape prefix and the reset; plain styles
/// add nothing, and every application is self-terminating.
pub open spec fn spec_paint(s: Style, t: Seq<char>) -> Seq<char> {
    if is_plain(s) {
        t
    } else {
        spec_prefix(s) + t + spec_reset()
    }
}

impl Style {
    /// The plain style: no effects, no color.
    pub fn plain() -> (r: Style)
        ensures
            r == (Style {
                bold: false,
                dimmed: false,
                italic: false,
                underline: false,
                blink: false,
                reverse: false,
                fg: None,
            }),
            is_plain(r),
    {
        Style {
            bold: false,
            dimmed: false,
            italic: false,
            underline: false,
            blink: false,
            reverse: false,
            fg: None,
        }
    }

    /// The plain style with a foreground color.
    pub fn colored(c: Color) -> (r: Style)
        ensures
            r == (Style {
                bold: false,
                dimmed: false,
                italic: false,
                underline: false,
                blink: false,
                reverse: false,
                fg: Some(c),
            }),
    {
        Style {
            bold: false,
            dimmed: false,
            italic: false,
            underline: false,
            blink: false,
            reverse: false,
            fg: Some(c),
        }
    }

    /// This style with increased intensity.
    pub fn bold(self) -> (r: Style)
        ensures
            r == (Style { bold: true, ..self }),
    {
        Style { bold: true, ..self }
    }

    /// This style with decreased intensity.
    pub fn dimmed(self) -> (r: Style)
        ensures
            r == (Style { dimmed: true, ..self }),
    {
        Style { dimmed: true, ..self }
    }

    /// This style with italic type.
    pub fn italic(self) -> (r: Style)
        ensures
            r == (Style { italic: true, ..self }),
    {
        Style { italic: true, ..self }
    }

    /// This style with underlined text.
    pub fn underline(self) -> (r: Style)
        ensures
            r == (Style { underline: true, ..self }),
    {
        Style { underline: true, ..self }
    }

    /// This style with blinking text.
    pub fn blink(self) -> (r: Style)
        ensures
            r == (Style { blink: true, ..self }),
    {
        Style { blink: true, ..self }
    }

    /// This style with reverse video.
    pub fn reverse(self) -> (r: Style)
        ensures
            r == (Style { reverse: true, ..self }),
    {
        Style { reverse: true, ..self }
    }
}

fn color_str(c: Color) -> (s: &'static str)
    ensures
        s@ =~= color_code(c),
{
    proof {
        reveal_strlit("30");
        reveal_strlit("31");
        reveal_strlit("32");
        reveal_strlit("33");
        reveal_strlit("34");
        reveal_strlit("35");
        reveal_strlit("36");
        reveal_strlit("37");
    }
    match c {
        Color::Black => "30",
        Color::Red => "31",
        Color::Green => "32",
        Color::Yellow => "33",
        Color::Blue => "34",
        Color::Purple => "35",
        Color::Cyan => "36",
        Color::White => "37",
    }
}

/// Paint text in a style: escape prefix, text, reset — or the text alone
/// for the plain style.
pub fn paint(st: Style, text: &str) -> (r: String)
    ensures
        r@ == spec_paint(st, text@),
{
    let plain = !st.bold && !st.dimmed && !st.italic && !st.underline && !st.blink && !st.reverse
        && st.fg.is_none();
    if plain {
        return text.to_owned();
    }
    let ghost semi: Seq<char> = seq![';'];
    let mut codes = String::new();
    let ghost mut parts: Seq<Seq<char>> = Seq::empty();
    let mut first: bool = true;
    proof {
        reveal_strlit(";");
        assert(";"@ =~= semi);
    }
    if st.bold {
        if !first {
            codes.append(";");
        }
        codes.append("1");
        proof {
            reveal_strlit("1");
            lemma_seq_join_push(parts, "1"@, semi);
            parts = parts.push("1"@);
            assert("1"@ =~= seq!['1']);
        }
        first = false;
    }
    if st.dimmed {
        if !first {
            codes.append(";");
        }
        codes.append("2");
        proof {
            reveal_strlit("2");
            lemma_seq_join_push(parts, "2"@, semi);
            parts = parts.push("2"@);
            assert("2"@ =~= seq!['2']);
        }
        first = false;
    }
    if st.italic {
        if !first {
            codes.append(";");
        }
        codes.append("3");
        proof {
            reveal_strlit("3");
            lemma_seq_join_push(parts, "3"@, semi);
            parts = parts.push("3"@);
            assert("3"@ =~= seq!['3']);
        }
        first = false;
    }
    if st.underline {
        if !first {
            codes.append(";");
        }
        codes.append("4");
        proof {
            reveal_strlit("4");
            lemma_seq_join_push(parts, "4"@, semi);
            parts = parts.push("4"@);
            assert("4"@ =~= seq!['4']);
        }
        first = false;
    }
    if st.blink {
        if !first {
            codes.append(";");
        }
        codes.append("5");
        proof {
            reveal_strlit("5");
            lemma_seq_join_push(parts, "5"@, semi);
            parts = parts.push("5"@);
            assert("5"@ =~= seq!['5']);
        }
        first = false;
    }
    if st.reverse {
        if !first {
            codes.append(";");
        }
        codes.append("7");
        proof {
            reveal_strlit("7");
            lemma_seq_join_push(parts, "7"@, semi);
            parts = parts.push("7"@);
            assert("7"@ =~= seq!['7']);
        }
        first = false;
    }
    match st.fg {
        Some(c) => {
            if !first {
                codes.append(";");
            }
            let cs = color_str(c);
            codes.append(cs);
            proof {
                lemma_seq_join_push(parts, cs@, semi);
                parts = parts.push(cs@);
            }
        },
        None => {},
    }
    proof {
        assert(parts =~= style_codes(st));
        assert(codes@ == seq_join(style_codes(st), semi));
    }
    let mut out = String::from_str("\u{1b}[");
    out.append(codes.as_str());
    out.append("m");
    out.append(text);
    out.append("\u{1b}[0m");
    proof {
        reveal_strlit("\u{1b}[");
        reveal_strlit("m");
        reveal_strlit("\u{1b}[0m");
        assert("\u{1b}["@ =~= seq!['\u{1b}', '[']);
        assert("m"@ =~= seq!['m']);
        assert("\u{1b}[0m"@ =~= spec_reset());
        assert(out@ =~= spec_paint(st, text@));
    }
    out
}

} // verus!
