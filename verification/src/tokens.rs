//! The token vocabulary of the markup language: styled text sections, timing
//! commands, and nested token sequences, together with the parsing of a single
//! inline command.
//!
//! Numeric command arguments (pause durations, speed multipliers) are stored
//! as fixed-point values in thousandths, so `1.5` is stored as `1500`.  A
//! numeric literal is a non-negative decimal number with an optional
//! fractional part; fractional digits beyond the third are truncated.

pub mod parse;

use crate::strutil::str_eq;
use vstd::prelude::*;

verus! {

/// A color a text section can carry.
#[derive(Debug, Clone, Copy, PartialEq, Eq)]
pub enum TextColor {
    Red,
    Green,
    Blue,
}

/// A visual effect a text section can carry.
#[derive(Debug, Clone, Copy, PartialEq, Eq)]
pub enum TextEffect {
    Wave,
}

/// A directive embedded in the authored text.  Durations and the speed
/// multiplier are fixed-point values in thousandths.
#[derive(Debug, Clone, Copy, PartialEq, Eq)]
pub enum TextCommand {
    Clear,
    AwaitClear,
    ClearAfter(u32),
    Speed(u32),
    Pause(u32),
    Delete(usize),
}

/// A run of text with optional styling.
#[derive(Debug, Clone, PartialEq, Eq)]
pub struct TextSection {
    pub text: String,
    pub color: Option<TextColor>,
    pub effects: Vec<TextEffect>,
}

/// Text that is either borrowed for the whole program or owned.
#[derive(Debug, Clone)]
pub enum RawText {
    Str(&'static str),
    Owned(String),
}

/// Effect lists that are either owned or borrowed for the whole program.
#[derive(Debug, Clone)]
pub enum Effects {
    NonConst(Vec<TextEffect>),
    Const(&'static [TextEffect]),
}

/// One node of authored dialogue: a styled text run, a command, or a
/// precomputed sequence of further tokens.
#[derive(Debug, PartialEq, Eq)]
pub enum DialogueBoxToken {
    Section(TextSection),
    Command(TextCommand),
    Sequence(Vec<DialogueBoxToken>),
}

/// A parse failure: every way an authored string can be rejected.
#[derive(Debug, Clone, PartialEq, Eq)]
pub enum ParseError {
    /// The command name is not in the fixed vocabulary.  A command whose
    /// name cannot be read at all (its `(`…`)` part is missing or unclosed)
    /// is reported with the name read so far, possibly empty.
    UnknownCommand { name: String },
    /// The command's argument is absent or fails numeric parsing.  A command
    /// whose `[`…`]` part is unclosed is reported with an empty command name
    /// and the argument text read so far.
    InvalidArgument { command: String, raw_argument: String },
    /// A `{` group whose closing `}` is missing; `position` is the character
    /// offset of the opening `{`.
    UnterminatedGroup { position: usize },
}

/// The mathematical value of a [`TextSection`].
pub ghost struct SectionView {
    pub text: Seq<char>,
    pub color: Option<TextColor>,
    pub effects: Seq<TextEffect>,
}

/// The mathematical value of a [`DialogueBoxToken`].
pub ghost enum TokenView {
    Section(SectionView),
    Command(TextCommand),
    Sequence(Seq<TokenView>),
}

/// The mathematical value of a [`ParseError`].
pub ghost enum ParseErrorView {
    UnknownCommand { name: Seq<char> },
    InvalidArgument { command: Seq<char>, raw_argument: Seq<char> },
    UnterminatedGroup { position: int },
}

impl View for TextSection {
    type V = SectionView;

    open spec fn view(&self) -> SectionView {
        SectionView { text: self.text@, color: self.color, effects: self.effects@ }
    }
}

pub open spec fn token_view(tok: DialogueBoxToken) -> TokenView
    decreases tok,
{
    match tok {
        DialogueBoxToken::Section(s) => TokenView::Section(s@),
        DialogueBoxToken::Command(c) => TokenView::Command(c),
        DialogueBoxToken::Sequence(v) => TokenView::Sequence(tokens_view(v@)),
    }
}

pub open spec fn tokens_view(toks: Seq<DialogueBoxToken>) -> Seq<TokenView>
    decreases toks,
{
    if toks.len() == 0 {
        Seq::empty()
    } else {
        seq![token_view(toks[0])] + tokens_view(toks.drop_first())
    }
}

impl View for DialogueBoxToken {
    type V = TokenView;

    open spec fn view(&self) -> TokenView {
        token_view(*self)
    }
}

impl View for ParseError {
    type V = ParseErrorView;

    open spec fn view(&self) -> ParseErrorView {
        match *self {
            ParseError::UnknownCommand { name } => ParseErrorView::UnknownCommand {
                name: name@,
            },
            ParseError::InvalidArgument { command, raw_argument } => {
                ParseErrorView::InvalidArgument {
                    command: command@,
                    raw_argument: raw_argument@,
                }
            },
            ParseError::UnterminatedGroup { position } => ParseErrorView::UnterminatedGroup {
                position: position as int,
            },
        }
    }
}

/// Whether `c` is a decimal digit.
pub open spec fn is_digit(c: char) -> bool {
    '0' <= c && c <= '9'
}

/// The value of a decimal digit.
pub open spec fn digit_val(c: char) -> int {
    c as int - '0' as int
}

/// Whether every character of `s` is a decimal digit.
pub open spec fn all_digits(s: Seq<char>) -> bool {
    forall|i: int| 0 <= i < s.len() ==> is_digit(#[trigger] s[i])
}

/// The value of a digit string read in base ten.
pub open spec fn digits_val(s: Seq<char>) -> int
    decreases s.len(),
{
    if s.len() == 0 {
        0
    } else {
        digits_val(s.drop_last()) * 10 + digit_val(s.last())
    }
}

/// The value in thousandths of a fractional digit string; digits beyond the
/// third are truncated.
pub open spec fn frac_thousandths(s: Seq<char>) -> int {
    (if s.len() > 0 {
        digit_val(s[0]) * 100
    } else {
        0
    }) + (if s.len() > 1 {
        digit_val(s[1]) * 10
    } else {
        0
    }) + (if s.len() > 2 {
        digit_val(s[2])
    } else {
        0
    })
}

/// The index of the first occurrence of `c` in `s` at or after `from`, or
/// `s.len()` if there is none.
pub open spec fn find_char(s: Seq<char>, c: char, from: int) -> int
    decreases s.len() - from,
{
    if from < 0 || from >= s.len() {
        s.len() as int
    } else if s[from] == c {
        from
    } else {
        find_char(s, c, from + 1)
    }
}

/// The fixed-point value in thousandths of a decimal literal, or `None` if
/// the text is not a well-formed non-negative decimal number or its value
/// exceeds `u32::MAX` thousandths.
pub open spec fn parse_fixed_spec(s: Seq<char>) -> Option<u32> {
    let dot = find_char(s, '.', 0);
    let ip = s.subrange(0, dot);
    let fp = if dot < s.len() {
        s.subrange(dot + 1, s.len() as int)
    } else {
        Seq::empty()
    };
    if s.len() == 0 {
        None
    } else if !all_digits(ip) || !all_digits(fp) {
        None
    } else if ip.len() == 0 && fp.len() == 0 {
        None
    } else {
        let v = digits_val(ip) * 1000 + frac_thousandths(fp);
        if v > u32::MAX {
            None
        } else {
            Some(v as u32)
        }
    }
}

/// What [`DialogueBoxToken::parse_command`] returns for given argument text
/// and command name.
pub open spec fn parse_command_spec(args: Option<Seq<char>>, cmd: Seq<char>) -> Result<
    TokenView,
    ParseErrorView,
> {
    match args {
        None => Err(
            ParseErrorView::InvalidArgument { command: cmd, raw_argument: Seq::empty() },
        ),
        Some(a) => {
            if cmd == "red"@ {
                Ok(
                    TokenView::Section(
                        SectionView { text: a, color: Some(TextColor::Red), effects: Seq::empty() },
                    ),
                )
            } else if cmd == "green"@ {
                Ok(
                    TokenView::Section(
                        SectionView {
                            text: a,
                            color: Some(TextColor::Green),
                            effects: Seq::empty(),
                        },
                    ),
                )
            } else if cmd == "blue"@ {
                Ok(
                    TokenView::Section(
                        SectionView {
                            text: a,
                            color: Some(TextColor::Blue),
                            effects: Seq::empty(),
                        },
                    ),
                )
            } else if cmd == "wave"@ {
                Ok(
                    TokenView::Section(
                        SectionView { text: a, color: None, effects: seq![TextEffect::Wave] },
                    ),
                )
            } else if cmd == "pause"@ {
                match parse_fixed_spec(a) {
                    Some(v) => Ok(TokenView::Command(TextCommand::Pause(v))),
                    None => Err(
                        ParseErrorView::InvalidArgument { command: cmd, raw_argument: a },
                    ),
                }
            } else if cmd == "speed"@ {
                match parse_fixed_spec(a) {
                    Some(v) => Ok(TokenView::Command(TextCommand::Speed(v))),
                    None => Err(
                        ParseErrorView::InvalidArgument { command: cmd, raw_argument: a },
                    ),
                }
            } else {
                Err(ParseErrorView::UnknownCommand { name: cmd })
            }
        },
    }
}

/// `digits_val` is non-negative on digit strings.
proof fn lemma_digits_val_nonneg(s: Seq<char>)
    requires
        all_digits(s),
    ensures
        0 <= digits_val(s),
    decreases s.len(),
{
    if s.len() > 0 {
        assert(all_digits(s.drop_last()));
        lemma_digits_val_nonneg(s.drop_last());
        assert(is_digit(s.last()));
    }
}

/// On a digit string, the value of a prefix never exceeds the value of the
/// whole string.
proof fn lemma_digits_val_take_le(s: Seq<char>, i: int)
    requires
        all_digits(s),
        0 <= i <= s.len(),
    ensures
        digits_val(s.take(i)) <= digits_val(s),
    decreases s.len() - i,
{
    if i == s.len() {
        assert(s.take(i) =~= s);
    } else {
        let t = s.take(i + 1);
        assert(t.drop_last() =~= s.take(i));
        assert(t.last() == s[i]);
        assert(all_digits(s.take(i)));
        lemma_digits_val_nonneg(s.take(i));
        assert(is_digit(s[i]));
        assert(digits_val(s.take(i + 1)) == digits_val(s.take(i)) * 10 + digit_val(s[i]));
        lemma_digits_val_take_le(s, i + 1);
    }
}

/// `frac_thousandths` is non-negative on digit strings.
proof fn lemma_frac_nonneg(s: Seq<char>)
    requires
        all_digits(s),
    ensures
        0 <= frac_thousandths(s),
{
    if s.len() > 0 {
        assert(is_digit(s[0]));
    }
    if s.len() > 1 {
        assert(is_digit(s[1]));
    }
    if s.len() > 2 {
        assert(is_digit(s[2]));
    }
}

/// Reads a non-negative fixed-point decimal literal, in thousandths.
pub fn parse_fixed(s: &str) -> (r: Option<u32>)
    ensures
        r == parse_fixed_spec(s@),
{
    let len = s.unicode_len();
    if len == 0 {
        return None;
    }
    // Locate the first '.'.
    let mut i: usize = 0;
    while i < len && s.get_char(i) != '.'
        invariant
            0 <= i <= len,
            len == s@.len(),
            find_char(s@, '.', 0) == find_char(s@, '.', i as int),
        decreases len - i,
    {
        i = i + 1;
    }
    let dot: usize = i;
    proof {
        if dot < len {
            assert(find_char(s@, '.', dot as int) == dot);
        }
        assert(dot == find_char(s@, '.', 0));
    }
    let ghost ip = s@.subrange(0, dot as int);
    let ghost fp = if (dot as int) < s@.len() {
        s@.subrange(dot + 1, s@.len() as int)
    } else {
        Seq::<char>::empty()
    };
    // Check that the integer part is all digits.
    let mut j: usize = 0;
    while j < dot
        invariant
            0 <= j <= dot <= len,
            len == s@.len(),
            s@.len() > 0,
            dot == find_char(s@, '.', 0),
            ip == s@.subrange(0, dot as int),
            forall|k: int| 0 <= k < j ==> is_digit(#[trigger] ip[k]),
        decreases dot - j,
    {
        let c = s.get_char(j);
        if !(c >= '0' && c <= '9') {
            proof {
                assert(ip[j as int] == s@[j as int]);
                assert(!is_digit(ip[j as int]));
            }
            return None;
        }
        j = j + 1;
    }
    proof {
        assert(all_digits(ip));
    }
    // Check that the fractional part is all digits.
    if dot < len {
        let mut k: usize = dot + 1;
        while k < len
            invariant
                dot + 1 <= k <= len,
                dot < len,
                len == s@.len(),
                s@.len() > 0,
                dot == find_char(s@, '.', 0),
                fp == s@.subrange(dot + 1, s@.len() as int),
                forall|m: int| dot + 1 <= m < k ==> is_digit(#[trigger] s@[m]),
            decreases len - k,
        {
            let c = s.get_char(k);
            if !(c >= '0' && c <= '9') {
                proof {
                    assert(fp[k - dot - 1] == s@[k as int]);
                    assert(!is_digit(fp[k - dot - 1]));
                }
                return None;
            }
            k = k + 1;
        }
        proof {
            assert forall|m: int| 0 <= m < fp.len() implies is_digit(#[trigger] fp[m]) by {
                assert(fp[m] == s@[dot + 1 + m]);
            }
        }
    }
    proof {
        assert(all_digits(fp));
    }
    if dot == 0 && len == 1 {
        // The input is just ".".
        proof {
            assert(ip.len() == 0 && fp.len() == 0);
        }
        return None;
    }
    proof {
        assert(ip.len() != 0 || fp.len() != 0);
    }
    // Value of the integer part, bailing out early on overflow.
    let mut acc: u64 = 0;
    let mut j: usize = 0;
    while j < dot
        invariant
            0 <= j <= dot <= len,
            len == s@.len(),
            s@.len() > 0,
            dot == find_char(s@, '.', 0),
            ip == s@.subrange(0, dot as int),
            fp == (if (dot as int) < s@.len() {
                s@.subrange(dot + 1, s@.len() as int)
            } else {
                Seq::<char>::empty()
            }),
            all_digits(ip),
            all_digits(fp),
            ip.len() != 0 || fp.len() != 0,
            acc == digits_val(ip.take(j as int)),
            acc <= u32::MAX,
        decreases dot - j,
    {
        proof {
            assert(ip[j as int] == s@[j as int]);
            assert(is_digit(ip[j as int]));
        }
        let c = s.get_char(j);
        let d = (c as u32) - ('0' as u32);
        proof {
            assert(d == digit_val(ip[j as int]));
            let t = ip.take(j + 1);
            assert(t.drop_last() =~= ip.take(j as int));
            assert(t.last() == ip[j as int]);
        }
        let next = acc * 10 + (d as u64);
        proof {
            assert(next == digits_val(ip.take(j + 1)));
        }
        if next > 0xffff_ffff {
            proof {
                lemma_digits_val_take_le(ip, j + 1);
                assert(digits_val(ip) > u32::MAX);
                lemma_frac_nonneg(fp);
                assert(digits_val(ip) * 1000 + frac_thousandths(fp) > u32::MAX);
            }
            return None;
        }
        acc = next;
        j = j + 1;
    }
    proof {
        assert(ip.take(dot as int) =~= ip);
        assert(acc == digits_val(ip));
    }
    // Value in thousandths of the first three fractional digits.
    let mut fr: u32 = 0;
    if dot < len {
        let remaining = len - dot - 1;
        if remaining >= 1 {
            proof {
                assert(fp[0] == s@[dot + 1]);
                assert(is_digit(fp[0]));
            }
            let d = (s.get_char(dot + 1) as u32) - ('0' as u32);
            fr = fr + d * 100;
        }
        if remaining >= 2 {
            proof {
                assert(fp[1] == s@[dot + 2]);
                assert(is_digit(fp[1]));
            }
            let d = (s.get_char(dot + 2) as u32) - ('0' as u32);
            fr = fr + d * 10;
        }
        if remaining >= 3 {
            proof {
                assert(fp[2] == s@[dot + 3]);
                assert(is_digit(fp[2]));
            }
            let d = (s.get_char(dot + 3) as u32) - ('0' as u32);
            fr = fr + d;
        }
    }
    proof {
        assert(fr == frac_thousandths(fp));
    }
    let v = acc * 1000 + (fr as u64);
    if v > 0xffff_ffff {
        None
    } else {
        Some(v as u32)
    }
}

/// Conversion of authoring-side values into dialogue tokens.
pub trait IntoDialogueBoxToken: Sized {
    /// The token this value stands for.
    spec fn token_spec(&self) -> TokenView;

    fn into_token(self) -> (t: DialogueBoxToken)
        ensures
            t@ == self.token_spec(),
    ;
}

impl IntoDialogueBoxToken for &'static str {
    open spec fn token_spec(&self) -> TokenView {
        TokenView::Section(SectionView { text: self@, color: None, effects: Seq::empty() })
    }

    fn into_token(self) -> (t: DialogueBoxToken) {
        DialogueBoxToken::Section(
            TextSection { text: self.to_owned(), color: None, effects: Vec::new() },
        )
    }
}

impl IntoDialogueBoxToken for String {
    open spec fn token_spec(&self) -> TokenView {
        TokenView::Section(SectionView { text: self@, color: None, effects: Seq::empty() })
    }

    fn into_token(self) -> (t: DialogueBoxToken) {
        DialogueBoxToken::Section(TextSection { text: self, color: None, effects: Vec::new() })
    }
}

impl IntoDialogueBoxToken for DialogueBoxToken {
    open spec fn token_spec(&self) -> TokenView {
        token_view(*self)
    }

    fn into_token(self) -> (t: DialogueBoxToken) {
        self
    }
}

impl DialogueBoxToken {
    /// Turns a command name and its optional raw argument into a token, or
    /// reports why the command is rejected.
    pub fn parse_command(args: Option<&str>, cmd: &str) -> (r: Result<
        DialogueBoxToken,
        ParseError,
    >)
        ensures
            ({
                let sr = parse_command_spec(
                    match args {
                        Some(a) => Some(a@),
                        None => None,
                    },
                    cmd@,
                );
                match r {
                    Ok(t) => sr == Ok::<TokenView, ParseErrorView>(t@),
                    Err(e) => sr == Err::<TokenView, ParseErrorView>(e@),
                }
            }),
    {
        match args {
            None => Err(
                ParseError::InvalidArgument {
                    command: cmd.to_owned(),
                    raw_argument: String::new(),
                },
            ),
            Some(a) => {
                if str_eq(cmd, "red") {
                    Ok(
                        DialogueBoxToken::Section(
                            TextSection {
                                text: a.to_owned(),
                                color: Some(TextColor::Red),
                                effects: Vec::new(),
                            },
                        ),
                    )
                } else if str_eq(cmd, "green") {
                    Ok(
                        DialogueBoxToken::Section(
                            TextSection {
                                text: a.to_owned(),
                                color: Some(TextColor::Green),
                                effects: Vec::new(),
                            },
                        ),
                    )
                } else if str_eq(cmd, "blue") {
                    Ok(
                        DialogueBoxToken::Section(
                            TextSection {
                                text: a.to_owned(),
                                color: Some(TextColor::Blue),
                                effects: Vec::new(),
                            },
                        ),
                    )
                } else if str_eq(cmd, "wave") {
                    let mut effects: Vec<TextEffect> = Vec::new();
                    effects.push(TextEffect::Wave);
                    proof {
                        assert(effects@ =~= seq![TextEffect::Wave]);
                    }
                    Ok(
                        DialogueBoxToken::Section(
                            TextSection { text: a.to_owned(), color: None, effects },
                        ),
                    )
                } else if str_eq(cmd, "pause") {
                    match parse_fixed(a) {
                        Some(v) => Ok(DialogueBoxToken::Command(TextCommand::Pause(v))),
                        None => Err(
                            ParseError::InvalidArgument {
                                command: cmd.to_owned(),
                                raw_argument: a.to_owned(),
                            },
                        ),
                    }
                } else if str_eq(cmd, "speed") {
                    match parse_fixed(a) {
                        Some(v) => Ok(DialogueBoxToken::Command(TextCommand::Speed(v))),
                        None => Err(
                            ParseError::InvalidArgument {
                                command: cmd.to_owned(),
                                raw_argument: a.to_owned(),
                            },
                        ),
                    }
                } else {
                    Err(ParseError::UnknownCommand { name: cmd.to_owned() })
                }
            },
        }
    }
}

} // verus!
