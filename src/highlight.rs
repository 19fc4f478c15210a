use vstd::prelude::*;
use vstd::string::StringSliceAdditionalSpecFns;
use vstd::utf8::*;

use two_face::re_exports::syntect::highlighting::{
    HighlightState, Highlighter, RangedHighlightIterator, Theme,
};
use two_face::re_exports::syntect::parsing::{ParseState, ScopeStack, SyntaxSet};
use two_face::theme::EmbeddedThemeName;

use crate::diff::FileDiff;
use crate::logic::LogicError;
use crate::render::{
    cleanup_commands, frags_view, lemma_renderable_concat, renderable, sort_by_offset, weave,
    CommandView,
    DiffRenderCommand, DiffRenderFragment, FragmentView, Rgba,
};

verus! {

// ----- style runs -----
/// The style of one highlighted token: where it starts in the text, its font style bits
/// (bold 1, underline 2, italic 4) and its foreground colour.
#[derive(Clone, Copy, Debug, PartialEq, Eq, Structural)]
pub struct TokenStyle {
    pub offset: usize,
    pub font_bits: u8,
    pub color: Rgba,
}

/// Bold, italic, underline and colour, as last set.
pub type StyleState = (bool, bool, bool, Rgba);

pub open spec fn is_bold(t: TokenStyle) -> bool {
    t.font_bits & 1u8 != 0
}

pub open spec fn is_underline(t: TokenStyle) -> bool {
    t.font_bits & 2u8 != 0
}

pub open spec fn is_italic(t: TokenStyle) -> bool {
    t.font_bits & 4u8 != 0
}

/// The style in effect before the first token: plain, transparent.
pub open spec fn initial_style() -> StyleState {
    (false, false, false, Rgba { r: 0, g: 0, b: 0, a: 0 })
}

/// A one-element sequence when `changed`, else an empty one.
pub open spec fn event_if(changed: bool, e: FragmentView) -> Seq<FragmentView> {
    if changed {
        seq![e]
    } else {
        Seq::empty()
    }
}

/// The style of token `t`.
pub open spec fn style_of(t: TokenStyle) -> StyleState {
    (is_bold(t), is_italic(t), is_underline(t), t.color)
}

/// The instructions at token `t` after style `last`: one for each of bold, italic,
/// underline and colour (in that order) whose value differs from the one last set.
pub open spec fn token_events(t: TokenStyle, last: StyleState) -> Seq<FragmentView> {
    let o = t.offset as int;
    let (b, i, u, c) = style_of(t);
    event_if(b != last.0, (o, CommandView::SetBold(b))) + event_if(
        i != last.1,
        (o, CommandView::SetItalic(i)),
    ) + event_if(u != last.2, (o, CommandView::SetUnderline(u))) + event_if(
        c != last.3,
        (o, CommandView::SetColor(c)),
    )
}

/// The style instructions for the tokens `toks`, starting from style `last`.
pub open spec fn style_events(toks: Seq<TokenStyle>, last: StyleState) -> Seq<FragmentView>
    decreases toks.len(),
{
    if toks.len() == 0 {
        Seq::empty()
    } else {
        token_events(toks[0], last) + style_events(toks.drop_first(), style_of(toks[0]))
    }
}

/// Every token starts within the text `bytes`, on a character boundary.
pub open spec fn tokens_in_text(bytes: Seq<u8>, toks: Seq<TokenStyle>) -> bool {
    forall|i: int|
        0 <= i < toks.len() ==> #[trigger] toks[i].offset <= bytes.len() && is_char_boundary(
            bytes,
            toks[i].offset as int,
        )
}

fn push_if(commands: &mut Vec<DiffRenderFragment>, changed: bool, f: DiffRenderFragment)
    ensures
        frags_view(final(commands)@) == frags_view(old(commands)@) + event_if(changed, f@),
{
    let ghost fv = f@;
    if changed {
        commands.push(f);
        proof {
            assert(frags_view(commands@) =~= frags_view(old(commands)@) + seq![fv]);
        }
    } else {
        proof {
            assert(frags_view(commands@) =~= frags_view(old(commands)@) + Seq::<FragmentView>::empty());
        }
    }
}

fn push_token_events(t: TokenStyle, last: StyleState, commands: &mut Vec<DiffRenderFragment>) -> (r:
    StyleState)
    ensures
        r == style_of(t),
        frags_view(final(commands)@) == frags_view(old(commands)@) + token_events(t, last),
{
    let bold = t.font_bits & 1u8 != 0;
    let italic = t.font_bits & 4u8 != 0;
    let underline = t.font_bits & 2u8 != 0;
    let ghost before = frags_view(commands@);
    push_if(commands, bold != last.0, DiffRenderFragment(t.offset, DiffRenderCommand::SetBold(bold)));
    push_if(
        commands,
        italic != last.1,
        DiffRenderFragment(t.offset, DiffRenderCommand::SetItalic(italic)),
    );
    push_if(
        commands,
        underline != last.2,
        DiffRenderFragment(t.offset, DiffRenderCommand::SetUnderline(underline)),
    );
    push_if(commands, t.color != last.3, DiffRenderFragment(t.offset, DiffRenderCommand::SetColor(t.color)));
    proof {
        assert(frags_view(commands@) =~= before + token_events(t, last));
    }
    (bold, italic, underline, t.color)
}

/// Appends the style instructions for `toks` to `commands`.
pub fn push_style_events(toks: &Vec<TokenStyle>, commands: &mut Vec<DiffRenderFragment>)
    ensures
        frags_view(final(commands)@) == frags_view(old(commands)@) + style_events(
            toks@,
            initial_style(),
        ),
{
    let mut last: StyleState = (false, false, false, Rgba { r: 0, g: 0, b: 0, a: 0 });
    let mut i: usize = 0;
    proof {
        assert(toks@.skip(0) =~= toks@);
        assert(frags_view(old(commands)@) + style_events(toks@, initial_style()) =~= frags_view(
            commands@,
        ) + style_events(toks@.skip(0), initial_style()));
    }
    while i < toks.len()
        invariant
            i <= toks@.len(),
            frags_view(commands@) + style_events(toks@.skip(i as int), last) == frags_view(
                old(commands)@,
            ) + style_events(toks@, initial_style()),
        decreases toks@.len() - i,
    {
        let t = toks[i];
        let ghost before = frags_view(commands@);
        let ghost prev = last;
        let ghost rest = toks@.skip(i as int);
        last = push_token_events(t, last, commands);
        proof {
            assert(rest[0] == t);
            assert(rest.drop_first() =~= toks@.skip(i + 1));
            assert(frags_view(commands@) + style_events(toks@.skip(i + 1), last) =~= before
                + style_events(rest, prev));
        }
        i = i + 1;
    }
    proof {
        assert(toks@.skip(i as int) =~= Seq::<TokenStyle>::empty());
        assert(frags_view(commands@) + Seq::<FragmentView>::empty() =~= frags_view(commands@));
    }
}

// ----- structural highlights -----
/// Both ends of a changed byte range lie within the text, on character boundaries.
pub open spec fn range_in_text(bytes: Seq<u8>, r: (usize, usize)) -> bool {
    &&& r.0 <= bytes.len()
    &&& r.1 <= bytes.len()
    &&& is_char_boundary(bytes, r.0 as int)
    &&& is_char_boundary(bytes, r.1 as int)
}

/// Highlight on at the start and off at the end of each changed range that lies within
/// the text; other ranges are ignored.
pub open spec fn structural_events(bytes: Seq<u8>, ranges: Seq<(usize, usize)>) -> Seq<
    FragmentView,
>
    decreases ranges.len(),
{
    if ranges.len() == 0 {
        Seq::empty()
    } else {
        let r = ranges[0];
        let here = if range_in_text(bytes, r) {
            seq![
                (r.0 as int, CommandView::SetHighlight(true)),
                (r.1 as int, CommandView::SetHighlight(false)),
            ]
        } else {
            Seq::empty()
        };
        here + structural_events(bytes, ranges.drop_first())
    }
}

/// Appends the highlight instructions for the changed byte ranges of `src`.
pub fn parse_diff(src: &str, ranges: &Vec<(usize, usize)>, commands: &mut Vec<DiffRenderFragment>)
    ensures
        frags_view(final(commands)@) == frags_view(old(commands)@) + structural_events(
            src.spec_bytes(),
            ranges@,
        ),
{
    let ghost bytes = src.spec_bytes();
    let size = src.as_bytes().len();
    let mut i: usize = 0;
    proof {
        assert(ranges@.skip(0) =~= ranges@);
        assert(frags_view(commands@) + structural_events(bytes, ranges@.skip(0)) =~= frags_view(
            old(commands)@,
        ) + structural_events(bytes, ranges@));
    }
    while i < ranges.len()
        invariant
            bytes == src.spec_bytes(),
            size == bytes.len(),
            i <= ranges@.len(),
            frags_view(commands@) + structural_events(bytes, ranges@.skip(i as int))
                == frags_view(old(commands)@) + structural_events(bytes, ranges@),
        decreases ranges@.len() - i,
    {
        let (start, end) = ranges[i];
        let ghost before = frags_view(commands@);
        let ghost rest = ranges@.skip(i as int);
        proof {
            assert(rest[0] == (start, end));
            assert(rest.drop_first() =~= ranges@.skip(i + 1));
        }
        if start <= size && end <= size && src.is_char_boundary(start) && src.is_char_boundary(
            end,
        ) {
            commands.push(DiffRenderFragment(start, DiffRenderCommand::SetHighlight(true)));
            commands.push(DiffRenderFragment(end, DiffRenderCommand::SetHighlight(false)));
            proof {
                assert(frags_view(commands@) =~= before + seq![
                    (start as int, CommandView::SetHighlight(true)),
                    (end as int, CommandView::SetHighlight(false)),
                ]);
            }
        }
        proof {
            assert(frags_view(commands@) + structural_events(bytes, ranges@.skip(i + 1))
                =~= before + structural_events(bytes, rest));
        }
        i = i + 1;
    }
    proof {
        assert(ranges@.skip(i as int) =~= Seq::<(usize, usize)>::empty());
        assert(frags_view(commands@) + Seq::<FragmentView>::empty() =~= frags_view(commands@));
    }
}

// ----- lines -----
/// `i` is the position of the first line feed in `b`.
pub open spec fn is_first_newline(b: Seq<u8>, i: int) -> bool {
    &&& 0 <= i < b.len()
    &&& b[i] == 10
    &&& forall|j: int| 0 <= j < i ==> b[j] != 10
}

/// Where the first line of `b` ends: just after its first line feed, or at the end.
pub open spec fn line_end(b: Seq<u8>) -> int {
    if exists|i: int| is_first_newline(b, i) {
        (choose|i: int| is_first_newline(b, i)) + 1
    } else {
        b.len() as int
    }
}

proof fn lemma_boundary_after_ascii(b: Seq<u8>, i: int)
    requires
        valid_utf8(b),
        0 <= i < b.len(),
        is_char_boundary(b, i),
        b[i] <= 0x7f,
    ensures
        is_char_boundary(b, i + 1),
    decreases b.len(),
{
    let l = length_of_first_scalar(b);
    let rest = pop_first_scalar(b);
    assert(valid_first_scalar(b) && valid_utf8(rest));
    assert(rest.len() == b.len() - l);
    if i == 0 {
        assert(l == 1);
        assert(is_char_boundary(rest, 0));
    } else {
        assert(is_char_boundary(rest, i - l));
        assert(i - l >= 0);
        assert(rest[i - l] == b[i]);
        lemma_boundary_after_ascii(rest, i - l);
        assert(i + 1 - l == i - l + 1);
    }
}

/// Splits a text into lines that keep their line ending, reporting the byte offset at
/// which each line starts.
pub struct LinesWithEndings<'a> {
    input: &'a str,
    consumed: usize,
}

impl<'a> LinesWithEndings<'a> {
    /// The bytes not yet handed out.
    pub closed spec fn rest(&self) -> Seq<u8> {
        self.input.spec_bytes()
    }

    /// How many bytes were handed out.
    pub closed spec fn consumed(&self) -> int {
        self.consumed as int
    }

    pub closed spec fn wf(&self) -> bool {
        self.consumed + self.input.spec_bytes().len() <= usize::MAX
    }

    pub fn from(input: &'a str) -> (r: Self)
        ensures
            r.wf(),
            r.rest() == input.spec_bytes(),
            r.consumed() == 0,
    {
        // The byte length of a string fits in `usize`.
        let _len = input.as_bytes().len();
        LinesWithEndings { input, consumed: 0 }
    }

    /// The next line, up to and including its `\n` (the last line may have none), and
    /// the offset at which it starts.
    pub fn next(&mut self) -> (r: Option<(&'a str, usize)>)
        requires
            old(self).wf(),
        ensures
            final(self).wf(),
            r is None <==> old(self).rest().len() == 0,
            r is None ==> final(self).rest() == old(self).rest() && final(self).consumed() == old(
                self,
            ).consumed(),
            r matches Some((line, offset)) ==> {
                &&& offset == old(self).consumed()
                &&& line.spec_bytes() == old(self).rest().take(line_end(old(self).rest()))
                &&& line.spec_bytes().len() > 0
                &&& old(self).rest() == line.spec_bytes() + final(self).rest()
                &&& final(self).consumed() == old(self).consumed() + line.spec_bytes().len()
            },
    {
        broadcast use group_utf8_lib;

        let bytes = self.input.as_bytes();
        let n = bytes.len();
        if n == 0 {
            return None;
        }
        let mut j: usize = 0;
        while j < n && bytes[j] != 10u8
            invariant
                n == bytes@.len(),
                j <= n,
                forall|k: int| 0 <= k < j ==> bytes@[k] != 10,
            decreases n - j,
        {
            j = j + 1;
        }
        let split = if j < n {
            j + 1
        } else {
            n
        };
        proof {
            let b = self.input.spec_bytes();
            assert(valid_utf8(encode_utf8(self.input@)));
            is_char_boundary_start_end_of_seq(b);
            if j < n {
                assert(is_first_newline(b, j as int));
                let c = choose|c: int| is_first_newline(b, c);
                if c < j {
                    assert(b[c] != 10);
                }
                if j < c {
                    assert(b[j as int] != 10);
                }
                is_char_boundary_iff_not_is_continuation_byte(b, j as int);
                lemma_boundary_after_ascii(b, j as int);
            } else {
                if exists|c: int| is_first_newline(b, c) {
                    let c = choose|c: int| is_first_newline(b, c);
                    assert(b[c] == 10);
                }
            }
            assert(split == line_end(b));
        }
        let (line, rest) = self.input.split_at(split);
        let offset = self.consumed;
        proof {
            assert(line.spec_bytes() + rest.spec_bytes() =~= old(self).rest());
            assert(line.spec_bytes() =~= old(self).rest().take(split as int));
        }
        self.consumed = self.consumed + split;
        self.input = rest;
        Some((line, offset))
    }
}

// ----- syntax highlighting -----
#[verifier::external_type_specification]
#[verifier::external_body]
pub struct ExSyntaxSet(SyntaxSet);

#[verifier::external_type_specification]
#[verifier::external_body]
pub struct ExTheme(Theme);

/// Relies on two_face's `syntax::extra_newlines`: its bundled syntax definitions, for
/// lines that keep their line ending.
#[verifier::external_body]
fn load_syntaxes() -> SyntaxSet {
    two_face::syntax::extra_newlines()
}

/// Relies on two_face's `theme::extra` and `EmbeddedLazyThemeSet::get`: its bundled
/// Catppuccin Mocha theme.
#[verifier::external_body]
fn load_theme() -> Theme {
    two_face::theme::extra().get(EmbeddedThemeName::CatppuccinMocha).clone()
}

/// The syntax definitions and the colour theme that syntax highlighting uses: always the
/// bundled ones, loaded once and only read afterwards.
pub struct Highlighting {
    syntaxes: SyntaxSet,
    theme: Theme,
}

impl Highlighting {
    pub fn new() -> Self {
        Highlighting { syntaxes: load_syntaxes(), theme: load_theme() }
    }
}

/// Names what highlighting the lines `lines` of a text, in order, with the bundled syntax
/// for the file extension `extension` and the bundled theme gives: for each line, the
/// style of each of its tokens with the byte offset in the line at which it starts; or
/// nothing, when there is no syntax for the extension or a line does not parse.
pub uninterp spec fn highlight_lines(extension: Seq<char>, lines: Seq<Seq<char>>) -> Option<
    Seq<Seq<TokenStyle>>,
>;

/// The token starts `ts` never decrease and all lie before `len`.
pub open spec fn line_tokens_ordered(ts: Seq<TokenStyle>, len: int) -> bool {
    &&& forall|c: int| 0 <= c < ts.len() ==> (#[trigger] ts[c]).offset < len
    &&& offsets_ordered(ts)
}

/// The offsets of `ts` never decrease.
pub open spec fn offsets_ordered(ts: Seq<TokenStyle>) -> bool {
    forall|a: int, c: int| 0 <= a <= c < ts.len() ==> (#[trigger] ts[a]).offset <= (#[trigger] ts[c]).offset
}

/// The offsets of the instructions `evs` never decrease.
pub open spec fn events_ordered(evs: Seq<FragmentView>) -> bool {
    forall|a: int, c: int| 0 <= a <= c < evs.len() ==> (#[trigger] evs[a]).0 <= (#[trigger] evs[c]).0
}

pub open spec fn lines_view(lines: Seq<&str>) -> Seq<Seq<char>> {
    lines.map_values(|l: &str| l@)
}

/// The style of a token that starts at `offset`, with font style bits `font_bits` and
/// the colour `(r, g, b, a)`.
pub fn token_style(offset: usize, font_bits: u8, r: u8, g: u8, b: u8, a: u8) -> (t: TokenStyle)
    ensures
        t == (TokenStyle { offset, font_bits, color: Rgba { r, g, b, a } }),
{
    TokenStyle { offset, font_bits, color: Rgba { r, g, b, a } }
}

/// Relies on syntect: `SyntaxSet::find_syntax_by_extension`, then, line after line with one
/// `ParseState` and one `HighlightState`, `ParseState::parse_line` and
/// `RangedHighlightIterator` (one token list per line; nothing when the syntax is missing
/// or a line fails to parse). The iterator slices each line from one token's start to the
/// next's (`&text[pos..end]`, then `pos = end`) and skips empty pieces, so the starts it
/// hands out never decrease and all lie before the line's end.
#[verifier::external_body]
fn tokens_of_lines(hl: &Highlighting, extension: &str, lines: &Vec<&str>) -> (r: Option<
    Vec<Vec<TokenStyle>>,
>)
    ensures
        match highlight_lines(extension@, lines_view(lines@)) {
            Some(t) => r matches Some(v) && v@.len() == t.len() && t.len() == lines@.len() && (
            forall|i: int| 0 <= i < t.len() ==> #[trigger] v@[i]@ == t[i]) && (forall|i: int|
                0 <= i < t.len() ==> line_tokens_ordered(#[trigger] t[i], lines@[i].spec_bytes().len() as int)),
            None => r is None,
        },
{
    let syntax = hl.syntaxes.find_syntax_by_extension(extension)?;
    let highlighter = Highlighter::new(&hl.theme);
    let mut parse = ParseState::new(syntax);
    let mut state = HighlightState::new(&highlighter, ScopeStack::new());
    let mut out = Vec::new();
    for line in lines {
        let ops = parse.parse_line(line, &hl.syntaxes).ok()?;
        let iter = RangedHighlightIterator::new(&mut state, &ops, line, &highlighter);
        out.push(iter.map(|(s, _, r)| {
            let c = s.foreground;
            token_style(r.start, s.font_style.bits(), c.r, c.g, c.b, c.a)
        }).collect());
    }
    Some(out)
}

/// The lines of the text `b` from byte `from` on, each with the offset at which it starts:
/// each runs up to and including its first line feed, the last one up to the end.
pub open spec fn lines_from(b: Seq<u8>, from: int) -> Seq<(int, Seq<u8>)>
    decreases b.len() - from,
{
    if from < 0 || from >= b.len() {
        Seq::empty()
    } else {
        let rest = b.subrange(from, b.len() as int);
        let e = line_end(rest);
        if e <= 0 {
            Seq::empty()
        } else {
            seq![(from, rest.take(e))] + lines_from(b, from + e)
        }
    }
}

/// The lines of the UTF-8 text `b`, as characters.
pub open spec fn lines_of(b: Seq<u8>) -> Seq<Seq<char>> {
    lines_from(b, 0).map_values(|l: (int, Seq<u8>)| decode_utf8(l.1))
}

/// A token starting `base` bytes into the text is kept when it starts within the text
/// `b`, on a character boundary.
pub open spec fn keep_token(b: Seq<u8>, base: int, t: TokenStyle) -> bool {
    base + t.offset <= b.len() && is_char_boundary(b, base + t.offset)
}

pub open spec fn shifted(t: TokenStyle, base: int) -> TokenStyle {
    TokenStyle { offset: (base + t.offset) as usize, font_bits: t.font_bits, color: t.color }
}

/// The tokens `ts` of a line that starts at byte `base`, at their offsets in the whole
/// text, those outside it left out.
pub open spec fn line_tokens(b: Seq<u8>, ts: Seq<TokenStyle>, base: int) -> Seq<TokenStyle>
    decreases ts.len(),
{
    if ts.len() == 0 {
        Seq::empty()
    } else {
        let prev = line_tokens(b, ts.drop_last(), base);
        if keep_token(b, base, ts.last()) {
            prev.push(shifted(ts.last(), base))
        } else {
            prev
        }
    }
}

/// The tokens of the first `n` lines `ls`, at their offsets in the whole text.
pub open spec fn tokens_upto(
    b: Seq<u8>,
    ls: Seq<(int, Seq<u8>)>,
    t: Seq<Seq<TokenStyle>>,
    n: int,
) -> Seq<TokenStyle>
    decreases n,
{
    if n <= 0 {
        Seq::empty()
    } else {
        tokens_upto(b, ls, t, n - 1) + line_tokens(b, t[n - 1], ls[n - 1].0)
    }
}

/// The tokens `t` that highlighting gave for the lines of `b`, at their offsets in `b`.
pub open spec fn absolute_tokens(b: Seq<u8>, t: Seq<Seq<TokenStyle>>) -> Seq<TokenStyle> {
    tokens_upto(b, lines_from(b, 0), t, lines_from(b, 0).len() as int)
}

/// The style instructions that highlighting the text `b` with the syntax for `extension`
/// gives; none when highlighting fails.
pub open spec fn highlight_events(extension: Seq<char>, b: Seq<u8>) -> Seq<FragmentView> {
    match highlight_lines(extension, lines_of(b)) {
        Some(t) => style_events(absolute_tokens(b, t), initial_style()),
        None => Seq::empty(),
    }
}

proof fn lemma_line_end_positive(rest: Seq<u8>)
    requires
        rest.len() > 0,
    ensures
        1 <= line_end(rest) <= rest.len(),
{
    if exists|i: int| is_first_newline(rest, i) {
        let i = choose|i: int| is_first_newline(rest, i);
        assert(is_first_newline(rest, i));
    }
}

proof fn lemma_line_tokens_in_text(b: Seq<u8>, ts: Seq<TokenStyle>, base: int)
    requires
        0 <= base,
        b.len() <= usize::MAX,
    ensures
        tokens_in_text(b, line_tokens(b, ts, base)),
    decreases ts.len(),
{
    if ts.len() > 0 {
        lemma_line_tokens_in_text(b, ts.drop_last(), base);
        let prev = line_tokens(b, ts.drop_last(), base);
        if keep_token(b, base, ts.last()) {
            let x = shifted(ts.last(), base);
            assert forall|i: int| 0 <= i < prev.push(x).len() implies #[trigger] prev.push(x)[i].offset
                <= b.len() && is_char_boundary(b, prev.push(x)[i].offset as int) by {
                if i < prev.len() {
                    assert(prev.push(x)[i] == prev[i]);
                } else {
                    assert(prev.push(x)[i] == x);
                }
            }
        }
    }
}

proof fn lemma_tokens_upto_in_text(
    b: Seq<u8>,
    ls: Seq<(int, Seq<u8>)>,
    t: Seq<Seq<TokenStyle>>,
    n: int,
)
    requires
        forall|i: int| 0 <= i < ls.len() ==> 0 <= (#[trigger] ls[i]).0,
        n <= ls.len(),
        b.len() <= usize::MAX,
    ensures
        tokens_in_text(b, tokens_upto(b, ls, t, n)),
    decreases n,
{
    if n > 0 {
        lemma_tokens_upto_in_text(b, ls, t, n - 1);
        let a = tokens_upto(b, ls, t, n - 1);
        let c = line_tokens(b, t[n - 1], ls[n - 1].0);
        lemma_line_tokens_in_text(b, t[n - 1], ls[n - 1].0);
        assert forall|i: int| 0 <= i < (a + c).len() implies #[trigger] (a + c)[i].offset <= b.len()
            && is_char_boundary(b, (a + c)[i].offset as int) by {
            if i < a.len() {
                assert((a + c)[i] == a[i]);
            } else {
                assert((a + c)[i] == c[i - a.len()]);
            }
        }
    }
}

proof fn lemma_lines_from_starts(b: Seq<u8>, from: int)
    requires
        0 <= from,
    ensures
        forall|i: int| 0 <= i < lines_from(b, from).len() ==> 0 <= (#[trigger] lines_from(b, from)[i]).0,
    decreases b.len() - from,
{
    if from < b.len() {
        let rest = b.subrange(from, b.len() as int);
        let e = line_end(rest);
        lemma_line_end_positive(rest);
        lemma_lines_from_starts(b, from + e);
        let tail = lines_from(b, from + e);
        assert forall|i: int| 0 <= i < lines_from(b, from).len() implies 0 <= (
        #[trigger] lines_from(b, from)[i]).0 by {
            if i > 0 {
                assert(lines_from(b, from)[i] == tail[i - 1]);
            }
        }
    }
}

/// The style instructions that highlighting gives lie within the text.
pub proof fn lemma_highlight_events_renderable(extension: Seq<char>, b: Seq<u8>)
    requires
        b.len() <= usize::MAX,
    ensures
        renderable(b, highlight_events(extension, b)),
{
    match highlight_lines(extension, lines_of(b)) {
        Some(t) => {
            lemma_lines_from_starts(b, 0);
            lemma_tokens_upto_in_text(b, lines_from(b, 0), t, lines_from(b, 0).len() as int);
            lemma_style_events_renderable(b, absolute_tokens(b, t), initial_style());
        },
        None => {
            assert(renderable(b, Seq::<FragmentView>::empty()));
        },
    }
}

/// All instructions of `evs` stand at offset `o`.
pub open spec fn all_at(evs: Seq<FragmentView>, o: int) -> bool {
    forall|a: int| 0 <= a < evs.len() ==> (#[trigger] evs[a]).0 == o
}

proof fn lemma_all_at_concat(x: Seq<FragmentView>, y: Seq<FragmentView>, o: int)
    requires
        all_at(x, o),
        all_at(y, o),
    ensures
        all_at(x + y, o),
{
    assert forall|a: int| 0 <= a < (x + y).len() implies (#[trigger] (x + y)[a]).0 == o by {
        if a < x.len() {
            assert((x + y)[a] == x[a]);
        } else {
            assert((x + y)[a] == y[a - x.len()]);
        }
    }
}

proof fn lemma_token_events_at(t: TokenStyle, last: StyleState)
    ensures
        all_at(token_events(t, last), t.offset as int),
{
    let o = t.offset as int;
    let (b, i, u, c) = style_of(t);
    let e1 = event_if(b != last.0, (o, CommandView::SetBold(b)));
    let e2 = event_if(i != last.1, (o, CommandView::SetItalic(i)));
    let e3 = event_if(u != last.2, (o, CommandView::SetUnderline(u)));
    let e4 = event_if(c != last.3, (o, CommandView::SetColor(c)));
    assert(all_at(e1, o) && all_at(e2, o) && all_at(e3, o) && all_at(e4, o)) by {
        assert(seq![(o, CommandView::SetBold(b))][0].0 == o);
        assert(seq![(o, CommandView::SetItalic(i))][0].0 == o);
        assert(seq![(o, CommandView::SetUnderline(u))][0].0 == o);
        assert(seq![(o, CommandView::SetColor(c))][0].0 == o);
    }
    lemma_all_at_concat(e1, e2, o);
    lemma_all_at_concat(e1 + e2, e3, o);
    lemma_all_at_concat(e1 + e2 + e3, e4, o);
}

/// Style instructions of tokens in offset order are in offset order.
pub proof fn lemma_style_events_ordered(toks: Seq<TokenStyle>, last: StyleState)
    requires
        offsets_ordered(toks),
    ensures
        events_ordered(style_events(toks, last)),
        toks.len() > 0 ==> forall|a: int|
            0 <= a < style_events(toks, last).len() ==> (#[trigger] style_events(toks, last)[a]).0
                >= toks[0].offset,
    decreases toks.len(),
{
    if toks.len() > 0 {
        let t0 = toks[0];
        let rest = toks.drop_first();
        assert(offsets_ordered(rest)) by {
            assert forall|a: int, c: int| 0 <= a <= c < rest.len() implies (#[trigger] rest[a]).offset
                <= (#[trigger] rest[c]).offset by {
                assert(rest[a] == toks[a + 1] && rest[c] == toks[c + 1]);
            }
        }
        lemma_style_events_ordered(rest, style_of(t0));
        lemma_token_events_at(t0, last);
        let x = token_events(t0, last);
        let y = style_events(rest, style_of(t0));
        if rest.len() > 0 {
            assert(rest[0] == toks[1]);
            assert(toks[0].offset <= toks[1].offset);
        }
        assert forall|a: int, c: int| 0 <= a <= c < (x + y).len() implies (#[trigger] (x + y)[a]).0
            <= (#[trigger] (x + y)[c]).0 by {
            if a < x.len() {
                assert((x + y)[a] == x[a]);
            } else {
                assert((x + y)[a] == y[a - x.len()]);
            }
            if c < x.len() {
                assert((x + y)[c] == x[c]);
            } else {
                assert((x + y)[c] == y[c - x.len()]);
            }
        }
        assert forall|a: int| 0 <= a < (x + y).len() implies (#[trigger] (x + y)[a]).0 >= toks[0].offset by {
            if a < x.len() {
                assert((x + y)[a] == x[a]);
            } else {
                assert((x + y)[a] == y[a - x.len()]);
            }
        }
    }
}

proof fn lemma_line_tokens_ordered(b: Seq<u8>, ts: Seq<TokenStyle>, base: int, len: int)
    requires
        line_tokens_ordered(ts, len),
        0 <= base,
        b.len() <= usize::MAX,
    ensures
        offsets_ordered(line_tokens(b, ts, base)),
        forall|a: int|
            0 <= a < line_tokens(b, ts, base).len() ==> base <= (#[trigger] line_tokens(
                b,
                ts,
                base,
            )[a]).offset < base + len,
        ts.len() > 0 ==> forall|a: int|
            0 <= a < line_tokens(b, ts, base).len() ==> (#[trigger] line_tokens(b, ts, base)[a]).offset
                <= base + ts.last().offset,
    decreases ts.len(),
{
    if ts.len() > 0 {
        let init = ts.drop_last();
        assert(line_tokens_ordered(init, len)) by {
            assert forall|c: int| 0 <= c < init.len() implies (#[trigger] init[c]).offset < len by {
                assert(init[c] == ts[c]);
            }
            assert forall|a: int, c: int| 0 <= a <= c < init.len() implies (#[trigger] init[a]).offset
                <= (#[trigger] init[c]).offset by {
                assert(init[a] == ts[a] && init[c] == ts[c]);
            }
        }
        lemma_line_tokens_ordered(b, init, base, len);
        let prev = line_tokens(b, init, base);
        let l = ts.last();
        assert(l == ts[ts.len() - 1]);
        assert(l.offset < len);
        if init.len() > 0 {
            assert(init.last() == ts[ts.len() - 2]);
            assert(init.last().offset <= l.offset);
        }
        if keep_token(b, base, l) {
            let x = shifted(l, base);
            assert(x.offset == base + l.offset);
            let s2 = prev.push(x);
            assert forall|a: int, c: int| 0 <= a <= c < s2.len() implies (#[trigger] s2[a]).offset
                <= (#[trigger] s2[c]).offset by {
                if c < prev.len() {
                    assert(s2[a] == prev[a] && s2[c] == prev[c]);
                } else if a < prev.len() {
                    assert(s2[a] == prev[a]);
                }
            }
            assert forall|a: int| 0 <= a < s2.len() implies base <= (#[trigger] s2[a]).offset < base
                + len && s2[a].offset <= base + l.offset by {
                if a < prev.len() {
                    assert(s2[a] == prev[a]);
                }
            }
        }
    }
}

/// Every instruction of `evs` lies before `len`.
pub open spec fn events_below(evs: Seq<FragmentView>, len: int) -> bool {
    forall|a: int| 0 <= a < evs.len() ==> (#[trigger] evs[a]).0 < len
}

/// Every token of `ts` starts before `len`.
pub open spec fn tokens_below(ts: Seq<TokenStyle>, len: int) -> bool {
    forall|a: int| 0 <= a < ts.len() ==> (#[trigger] ts[a]).offset < len
}

proof fn lemma_style_events_below(toks: Seq<TokenStyle>, last: StyleState, len: int)
    requires
        tokens_below(toks, len),
    ensures
        events_below(style_events(toks, last), len),
    decreases toks.len(),
{
    if toks.len() > 0 {
        let t0 = toks[0];
        let rest = toks.drop_first();
        assert(tokens_below(rest, len)) by {
            assert forall|a: int| 0 <= a < rest.len() implies (#[trigger] rest[a]).offset < len by {
                assert(rest[a] == toks[a + 1]);
            }
        }
        lemma_style_events_below(rest, style_of(t0), len);
        lemma_token_events_at(t0, last);
        let x = token_events(t0, last);
        let y = style_events(rest, style_of(t0));
        assert forall|a: int| 0 <= a < (x + y).len() implies (#[trigger] (x + y)[a]).0 < len by {
            if a < x.len() {
                assert((x + y)[a] == x[a]);
            } else {
                assert((x + y)[a] == y[a - x.len()]);
            }
        }
    }
}

proof fn lemma_lines_within(b: Seq<u8>, from: int)
    requires
        0 <= from,
    ensures
        forall|i: int|
            0 <= i < lines_from(b, from).len() ==> (#[trigger] lines_from(b, from)[i]).0
                + lines_from(b, from)[i].1.len() <= b.len(),
    decreases b.len() - from,
{
    if from < b.len() {
        let rest = b.subrange(from, b.len() as int);
        let e = line_end(rest);
        lemma_line_end_positive(rest);
        lemma_lines_within(b, from + e);
        let tail = lines_from(b, from + e);
        let ls = lines_from(b, from);
        assert(ls =~= seq![(from, rest.take(e))] + tail);
        assert forall|i: int| 0 <= i < ls.len() implies (#[trigger] ls[i]).0 + ls[i].1.len() <= b.len() by {
            if i > 0 {
                assert(ls[i] == tail[i - 1]);
            }
        }
    }
}

proof fn lemma_lines_consecutive(b: Seq<u8>, from: int)
    requires
        0 <= from,
    ensures
        lines_from(b, from).len() > 0 ==> lines_from(b, from)[0].0 == from,
        forall|i: int, j: int|
            0 <= i && j == i + 1 && j < lines_from(b, from).len() ==> (#[trigger] lines_from(b, from)[j]).0
                == (#[trigger] lines_from(b, from)[i]).0 + lines_from(b, from)[i].1.len(),
    decreases b.len() - from,
{
    if from < b.len() {
        let rest = b.subrange(from, b.len() as int);
        let e = line_end(rest);
        lemma_line_end_positive(rest);
        lemma_lines_consecutive(b, from + e);
        let tail = lines_from(b, from + e);
        let ls = lines_from(b, from);
        assert(ls =~= seq![(from, rest.take(e))] + tail);
        assert forall|i: int, j: int|
            0 <= i && j == i + 1 && j < ls.len() implies (#[trigger] ls[j]).0 == (#[trigger] ls[i]).0
                + ls[i].1.len() by {
            assert(ls[j] == tail[j - 1]);
            if i > 0 {
                assert(ls[i] == tail[i - 1]);
            }
        }
    }
}

proof fn lemma_tokens_upto_ordered(
    b: Seq<u8>,
    ls: Seq<(int, Seq<u8>)>,
    t: Seq<Seq<TokenStyle>>,
    n: int,
)
    requires
        b.len() <= usize::MAX,
        0 <= n <= ls.len(),
        ls.len() <= t.len(),
        forall|i: int| 0 <= i < ls.len() ==> 0 <= (#[trigger] ls[i]).0,
        forall|i: int, j: int|
            0 <= i && j == i + 1 && j < ls.len() ==> (#[trigger] ls[j]).0 == (#[trigger] ls[i]).0
                + ls[i].1.len(),
        forall|i: int| 0 <= i < ls.len() ==> line_tokens_ordered(#[trigger] t[i], ls[i].1.len() as int),
    ensures
        offsets_ordered(tokens_upto(b, ls, t, n)),
        n > 0 ==> forall|a: int|
            0 <= a < tokens_upto(b, ls, t, n).len() ==> (#[trigger] tokens_upto(b, ls, t, n)[a]).offset
                < ls[n - 1].0 + ls[n - 1].1.len(),
    decreases n,
{
    if n > 0 {
        lemma_tokens_upto_ordered(b, ls, t, n - 1);
        let x = tokens_upto(b, ls, t, n - 1);
        let base = ls[n - 1].0;
        let len = ls[n - 1].1.len() as int;
        assert(line_tokens_ordered(t[n - 1], len));
        lemma_line_tokens_ordered(b, t[n - 1], base, len);
        let y = line_tokens(b, t[n - 1], base);
        if n > 1 {
            assert(ls[n - 1].0 == ls[n - 2].0 + ls[n - 2].1.len());
        }
        assert forall|a: int, c: int| 0 <= a <= c < (x + y).len() implies (#[trigger] (x + y)[a]).offset
            <= (#[trigger] (x + y)[c]).offset by {
            if a < x.len() {
                assert((x + y)[a] == x[a]);
            } else {
                assert((x + y)[a] == y[a - x.len()]);
            }
            if c < x.len() {
                assert((x + y)[c] == x[c]);
            } else {
                assert((x + y)[c] == y[c - x.len()]);
            }
        }
        assert forall|a: int| 0 <= a < (x + y).len() implies (#[trigger] (x + y)[a]).offset < base
            + len by {
            if a < x.len() {
                assert((x + y)[a] == x[a]);
            } else {
                assert((x + y)[a] == y[a - x.len()]);
            }
        }
    }
}

/// Splits `src` into its lines, with the offset at which each starts.
fn split_lines<'a>(src: &'a str) -> (r: (Vec<&'a str>, Vec<usize>))
    ensures
        r.0@.len() == r.1@.len(),
        r.0@.len() == lines_from(src.spec_bytes(), 0).len(),
        forall|i: int|
            0 <= i < r.0@.len() ==> (r.1@[i] as int, (#[trigger] r.0@[i]).spec_bytes()) == lines_from(
                src.spec_bytes(),
                0,
            )[i],
{
    let ghost b = src.spec_bytes();
    let mut iter = LinesWithEndings::from(src);
    let mut lines: Vec<&'a str> = Vec::new();
    let mut starts: Vec<usize> = Vec::new();
    let ghost mut done_lines: Seq<(int, Seq<u8>)> = Seq::empty();
    let mut done = false;
    proof {
        assert(b.subrange(0, b.len() as int) =~= b);
        assert(done_lines + lines_from(b, 0) =~= lines_from(b, 0));
    }
    while !done
        invariant
            b == src.spec_bytes(),
            iter.wf(),
            0 <= iter.consumed() <= b.len(),
            iter.rest() == b.subrange(iter.consumed(), b.len() as int),
            done ==> iter.consumed() == b.len(),
            lines@.len() == starts@.len(),
            done_lines.len() == lines@.len(),
            forall|i: int|
                0 <= i < lines@.len() ==> (starts@[i] as int, (#[trigger] lines@[i]).spec_bytes())
                    == done_lines[i],
            done_lines + lines_from(b, iter.consumed()) == lines_from(b, 0),
        decreases b.len() - iter.consumed() + if done {
            0int
        } else {
            1int
        },
    {
        let ghost c = iter.consumed();
        let ghost rest = iter.rest();
        match iter.next() {
            None => {
                done = true;
            },
            Some((line, offset)) => {
                proof {
                    lemma_line_end_positive(rest);
                    let e = line_end(rest);
                    assert(line.spec_bytes().len() == e);
                    assert(lines_from(b, c) =~= seq![(c, rest.take(e))] + lines_from(b, c + e));
                    let fr = iter.rest();
                    assert(rest == line.spec_bytes() + fr);
                    assert(fr =~= rest.subrange(e, rest.len() as int));
                    assert(rest.subrange(e, rest.len() as int) =~= b.subrange(c + e, b.len() as int));
                    let old_done = done_lines;
                    done_lines = done_lines.push((c, line.spec_bytes()));
                    assert(done_lines + lines_from(b, c + e) =~= old_done + lines_from(b, c));
                }
                lines.push(line);
                starts.push(offset);
                proof {
                    assert forall|i: int|
                        0 <= i < lines@.len() implies (starts@[i] as int, (#[trigger] lines@[i]).spec_bytes())
                            == done_lines[i] by {}
                }
            },
        }
    }
    proof {
        assert(lines_from(b, b.len() as int) =~= Seq::<(int, Seq<u8>)>::empty());
        assert(done_lines =~= lines_from(b, 0));
    }
    (lines, starts)
}

/// Runs syntax highlighting over `src` with the syntax for the file extension
/// `extension`. It succeeds exactly when highlighting the lines of `src` does; it then
/// appends the style instructions of the tokens found, at their offsets in `src`, and
/// otherwise appends nothing.
pub fn do_syntax_highlighting(
    hl: &Highlighting,
    src: &str,
    extension: &str,
    commands: &mut Vec<DiffRenderFragment>,
) -> (r: Result<(), LogicError>)
    ensures
        r is Ok <==> highlight_lines(extension@, lines_of(src.spec_bytes())) is Some,
        r is Err ==> final(commands)@ == old(commands)@,
        r is Ok ==> frags_view(final(commands)@) == frags_view(old(commands)@) + highlight_events(
            extension@,
            src.spec_bytes(),
        ),
        r is Ok ==> events_ordered(highlight_events(extension@, src.spec_bytes())),
        r is Ok ==> events_below(highlight_events(extension@, src.spec_bytes()), src.spec_bytes().len() as int),
{
    broadcast use group_utf8_lib;

    let ghost b = src.spec_bytes();
    let ghost ls = lines_from(b, 0);
    let size = src.as_bytes().len();
    let (lines, starts) = split_lines(src);
    proof {
        assert forall|i: int| 0 <= i < lines@.len() implies #[trigger] lines_view(lines@)[i] == lines_of(
            b,
        )[i] by {
            encode_utf8_decode_utf8(lines@[i]@);
            assert(lines@[i].spec_bytes() == ls[i].1);
        }
        assert(lines_view(lines@) =~= lines_of(b));
    }
    proof {
        assert forall|q: int| 0 <= q < ls.len() implies starts@[q] as int == (#[trigger] ls[q]).0 by {
            assert((starts@[q] as int, lines@[q].spec_bytes()) == ls[q]);
        }
    }
    let per_line = match tokens_of_lines(hl, extension, &lines) {
        Some(v) => v,
        None => {
            return Err(LogicError::new("couldn't highlight the text".to_owned()));
        },
    };
    let ghost t = highlight_lines(extension@, lines_of(b))->Some_0;
    let mut toks: Vec<TokenStyle> = Vec::new();
    let mut i: usize = 0;
    while i < per_line.len()
        invariant
            b == src.spec_bytes(),
            size == b.len(),
            ls == lines_from(b, 0),
            per_line@.len() == t.len(),
            t.len() == ls.len(),
            starts@.len() == ls.len(),
            forall|q: int| 0 <= q < t.len() ==> #[trigger] per_line@[q]@ == t[q],
            forall|q: int| 0 <= q < ls.len() ==> starts@[q] as int == (#[trigger] ls[q]).0,
            i <= per_line@.len(),
            toks@ == tokens_upto(b, ls, t, i as int),
        decreases per_line@.len() - i,
    {
        let line_toks = &per_line[i];
        let base = starts[i];
        let ghost ts = t[i as int];
        let ghost before = toks@;
        proof {
            assert(line_toks@ == ts);
            assert(starts@[i as int] as int == ls[i as int].0);
        }
        let mut k: usize = 0;
        proof {
            assert(ts.take(0) =~= Seq::<TokenStyle>::empty());
            assert(toks@ =~= before + line_tokens(b, ts.take(0), base as int));
        }
        while k < line_toks.len()
            invariant
                b == src.spec_bytes(),
                size == b.len(),
                line_toks@ == ts,
                k <= ts.len(),
                toks@ == before + line_tokens(b, ts.take(k as int), base as int),
            decreases ts.len() - k,
        {
            let tok = line_toks[k];
            proof {
                assert(ts.take(k + 1).drop_last() =~= ts.take(k as int));
                assert(ts.take(k + 1).last() == tok);
            }
            if let Some(abs) = base.checked_add(tok.offset) {
                if abs <= size && src.is_char_boundary(abs) {
                    toks.push(TokenStyle { offset: abs, font_bits: tok.font_bits, color: tok.color });
                    proof {
                        assert(toks@ =~= before + line_tokens(b, ts.take(k + 1), base as int));
                    }
                }
            }
            k = k + 1;
        }
        proof {
            assert(ts.take(k as int) =~= ts);
            assert(tokens_upto(b, ls, t, i + 1) == before + line_tokens(b, ts, base as int));
        }
        i = i + 1;
    }
    proof {
        lemma_lines_from_starts(b, 0);
        lemma_lines_consecutive(b, 0);
        assert forall|q: int| 0 <= q < ls.len() implies line_tokens_ordered(
            #[trigger] t[q],
            ls[q].1.len() as int,
        ) by {
            assert(lines@[q].spec_bytes() == ls[q].1);
        }
        lemma_tokens_upto_ordered(b, ls, t, ls.len() as int);
        lemma_style_events_ordered(absolute_tokens(b, t), initial_style());
        lemma_lines_within(b, 0);
        let at = absolute_tokens(b, t);
        if ls.len() > 0 {
            assert(ls[ls.len() - 1].0 + ls[ls.len() - 1].1.len() <= b.len());
        } else {
            assert(at =~= Seq::<TokenStyle>::empty());
        }
        assert(tokens_below(at, b.len() as int));
        lemma_style_events_below(at, initial_style(), b.len() as int);
    }
    push_style_events(&toks, commands);
    Ok(())
}

} // verus!

verus! {

proof fn lemma_event_if_renderable(bytes: Seq<u8>, changed: bool, e: FragmentView)
    requires
        0 <= e.0 <= bytes.len(),
        is_char_boundary(bytes, e.0),
        !(e.1 is Text),
    ensures
        renderable(bytes, event_if(changed, e)),
{
    if changed {
        assert(seq![e][0] == e);
    }
}

/// The style instructions of tokens within a text lie within it.
pub proof fn lemma_style_events_renderable(bytes: Seq<u8>, toks: Seq<TokenStyle>, last: StyleState)
    requires
        tokens_in_text(bytes, toks),
    ensures
        renderable(bytes, style_events(toks, last)),
    decreases toks.len(),
{
    if toks.len() > 0 {
        let t = toks[0];
        let o = t.offset as int;
        let (b, i, u, c) = style_of(t);
        assert(t.offset <= bytes.len() && is_char_boundary(bytes, o));
        let rest = toks.drop_first();
        assert(tokens_in_text(bytes, rest)) by {
            assert forall|k: int| 0 <= k < rest.len() implies #[trigger] rest[k].offset <= bytes.len()
                && is_char_boundary(bytes, rest[k].offset as int) by {
                assert(rest[k] == toks[k + 1]);
            }
        }
        lemma_style_events_renderable(bytes, rest, style_of(t));
        let e1 = event_if(b != last.0, (o, CommandView::SetBold(b)));
        let e2 = event_if(i != last.1, (o, CommandView::SetItalic(i)));
        let e3 = event_if(u != last.2, (o, CommandView::SetUnderline(u)));
        let e4 = event_if(c != last.3, (o, CommandView::SetColor(c)));
        lemma_event_if_renderable(bytes, b != last.0, (o, CommandView::SetBold(b)));
        lemma_event_if_renderable(bytes, i != last.1, (o, CommandView::SetItalic(i)));
        lemma_event_if_renderable(bytes, u != last.2, (o, CommandView::SetUnderline(u)));
        lemma_event_if_renderable(bytes, c != last.3, (o, CommandView::SetColor(c)));
        lemma_renderable_concat(bytes, e1, e2);
        lemma_renderable_concat(bytes, e1 + e2, e3);
        lemma_renderable_concat(bytes, e1 + e2 + e3, e4);
        lemma_renderable_concat(bytes, token_events(t, last), style_events(rest, style_of(t)));
    } else {
        assert(renderable(bytes, Seq::<FragmentView>::empty()));
    }
}

/// The highlight instructions of changed ranges lie within the text.
pub proof fn lemma_structural_events_renderable(bytes: Seq<u8>, ranges: Seq<(usize, usize)>)
    ensures
        renderable(bytes, structural_events(bytes, ranges)),
    decreases ranges.len(),
{
    if ranges.len() > 0 {
        let r = ranges[0];
        lemma_structural_events_renderable(bytes, ranges.drop_first());
        let here = if range_in_text(bytes, r) {
            seq![
                (r.0 as int, CommandView::SetHighlight(true)),
                (r.1 as int, CommandView::SetHighlight(false)),
            ]
        } else {
            Seq::empty()
        };
        assert(renderable(bytes, here)) by {
            if range_in_text(bytes, r) {
                assert(here[0].0 == r.0 as int);
                assert(here[1].0 == r.1 as int);
            }
        }
        lemma_renderable_concat(bytes, here, structural_events(bytes, ranges.drop_first()));
    } else {
        assert(renderable(bytes, Seq::<FragmentView>::empty()));
    }
}

/// How a file shown on its own renders: its highlighting woven into its text, or, when
/// highlighting fails, the whole text as one fragment.
pub open spec fn single_render(extension: Seq<char>, src: &str) -> Seq<FragmentView> {
    match highlight_lines(extension, lines_of(src.spec_bytes())) {
        Some(_) => weave(src.spec_bytes(), sort_by_offset(highlight_events(extension, src.spec_bytes())), 0),
        None => seq![(0int, CommandView::Text(src@))],
    }
}

/// How one side of a compared file renders: its highlighting (none when that fails) and
/// the highlights of its changed byte ranges, woven into its text by offset.
pub open spec fn side_render(extension: Seq<char>, b: Seq<u8>, ranges: Seq<(usize, usize)>) -> Seq<
    FragmentView,
> {
    weave(b, sort_by_offset(highlight_events(extension, b) + structural_events(b, ranges)), 0)
}

/// Renders one whole file on its own: its syntax highlighting woven into its text, or the
/// whole text as one fragment when highlighting fails (no syntax for the extension, a line
/// that does not parse).
pub fn highlight_single_file(hl: &Highlighting, src: &str, extension: &str) -> (r: Vec<
    DiffRenderFragment,
>)
    ensures
        frags_view(r@) == single_render(extension@, src),
{
    let mut commands: Vec<DiffRenderFragment> = Vec::new();
    match do_syntax_highlighting(hl, src, extension, &mut commands) {
        Ok(()) => {},
        Err(_) => {
            let whole = DiffRenderFragment(0, DiffRenderCommand::Text(src.to_owned()));
            let r = vec![whole];
            proof {
                assert(frags_view(r@) =~= seq![(0int, CommandView::Text(src@))]);
            }
            return r;
        },
    }
    // The byte length of a string fits in `usize`.
    let _len = src.as_bytes().len();
    proof {
        lemma_highlight_events_renderable(extension@, src.spec_bytes());
        assert(frags_view(commands@) =~= highlight_events(extension@, src.spec_bytes()));
    }
    cleanup_commands(src, &mut commands)
}

/// Renders both sides of a changed file: for each side, its syntax highlighting (if that
/// succeeds) and the highlights of its structurally changed byte ranges, woven into its
/// text.
pub fn calculate_file_diff_inner(
    hl: &Highlighting,
    old_str: &str,
    new_str: &str,
    extension: &str,
    old_ranges: &Vec<(usize, usize)>,
    new_ranges: &Vec<(usize, usize)>,
) -> (r: FileDiff)
    ensures
        frags_view(r.old@) == side_render(extension@, old_str.spec_bytes(), old_ranges@),
        frags_view(r.new@) == side_render(extension@, new_str.spec_bytes(), new_ranges@),
{
    let old = render_side(hl, old_str, extension, old_ranges);
    let new = render_side(hl, new_str, extension, new_ranges);
    FileDiff { old, new }
}

fn render_side(hl: &Highlighting, src: &str, extension: &str, ranges: &Vec<(usize, usize)>) -> (r: Vec<
    DiffRenderFragment,
>)
    ensures
        frags_view(r@) == side_render(extension@, src.spec_bytes(), ranges@),
{
    let ghost bytes = src.spec_bytes();
    let mut commands: Vec<DiffRenderFragment> = Vec::new();
    // Highlighting is best effort: when it fails, the side has no style instructions.
    let _ = do_syntax_highlighting(hl, src, extension, &mut commands);
    let ghost s = frags_view(commands@);
    // The byte length of a string fits in `usize`.
    let _len = src.as_bytes().len();
    proof {
        assert(s =~= highlight_events(extension@, bytes));
        lemma_highlight_events_renderable(extension@, bytes);
        lemma_structural_events_renderable(bytes, ranges@);
    }
    parse_diff(src, ranges, &mut commands);
    proof {
        lemma_renderable_concat(bytes, s, structural_events(bytes, ranges@));
    }
    cleanup_commands(src, &mut commands)
}

/// Renders a file that may be missing on one side: a file only on one side is rendered
/// on its own on that side, the other side staying empty; a file on both sides is
/// compared. A file on neither side renders as nothing.
pub fn calculate_file_diff(
    hl: &Highlighting,
    old: Option<&str>,
    new: Option<&str>,
    extension: &str,
    old_ranges: &Vec<(usize, usize)>,
    new_ranges: &Vec<(usize, usize)>,
) -> (r: FileDiff)
    ensures
        old is None ==> r.old@.len() == 0,
        new is None ==> r.new@.len() == 0,
        old is None && new is Some ==> frags_view(r.new@) == single_render(
            extension@,
            new->Some_0,
        ),
        old is Some && new is None ==> frags_view(r.old@) == single_render(
            extension@,
            old->Some_0,
        ),
        old is Some && new is Some ==> frags_view(r.old@) == side_render(
            extension@,
            old->Some_0.spec_bytes(),
            old_ranges@,
        ) && frags_view(r.new@) == side_render(extension@, new->Some_0.spec_bytes(), new_ranges@),
{
    match (old, new) {
        (Some(o), Some(n)) => calculate_file_diff_inner(hl, o, n, extension, old_ranges, new_ranges),
        (None, Some(n)) => FileDiff { old: Vec::new(), new: highlight_single_file(hl, n, extension) },
        (Some(o), None) => FileDiff { old: highlight_single_file(hl, o, extension), new: Vec::new() },
        (None, None) => FileDiff { old: Vec::new(), new: Vec::new() },
    }
}

} // verus!
