//! The declarative form of a pipeline and its codec.
//!
//! A pipeline is written down as a JSON value: an object
//! `{"module": .., "command": .., "parameters"?: [..]}` is a command, an
//! array is a composite node, and nesting alternates serial and parallel
//! composition, the outermost level being serial. The codec is a lexer
//! from bytes to tokens and a recursive-descent parser from tokens to the
//! graph, together with a serializer back to the canonical text; parsing
//! enforces the construction rules (nonempty names, no empty arrays), and
//! serializing a graph and reparsing it yields the graph again.

use vstd::prelude::*;

use crate::bytes::clone_bytes;
use crate::pipeline::{
    CommandView, ParallelView, Pipeline, PipelineCommand, PipelineNodeParallel,
    PipelineNodeSerial, SerialView,
};

verus! {

broadcast use crate::bytes::lemma_bytes_deep_view;

/// One token of the declarative text.
pub enum Token {
    LBracket,
    RBracket,
    LBrace,
    RBrace,
    Colon,
    Comma,
    Str(Vec<u8>),
}

/// The mathematical shape of a token.
pub ghost enum TokenView {
    LBracket,
    RBracket,
    LBrace,
    RBrace,
    Colon,
    Comma,
    Str(Seq<u8>),
}

pub open spec fn spec_token_view(t: Token) -> TokenView {
    match t {
        Token::LBracket => TokenView::LBracket,
        Token::RBracket => TokenView::RBracket,
        Token::LBrace => TokenView::LBrace,
        Token::RBrace => TokenView::RBrace,
        Token::Colon => TokenView::Colon,
        Token::Comma => TokenView::Comma,
        Token::Str(v) => TokenView::Str(v@),
    }
}

// ------------------------------------------------------------------
// The lexer.
// ------------------------------------------------------------------

pub open spec fn spec_is_ws(b: u8) -> bool {
    b == 32 || b == 9 || b == 10 || b == 13
}

/// The byte an escape letter stands for.
pub open spec fn spec_unescape(b: u8) -> Option<u8> {
    if b == 34 {
        Option::Some(34u8)
    } else if b == 92 {
        Option::Some(92u8)
    } else if b == 47 {
        Option::Some(47u8)
    } else if b == 110 {
        Option::Some(10u8)
    } else if b == 114 {
        Option::Some(13u8)
    } else if b == 116 {
        Option::Some(9u8)
    } else if b == 98 {
        Option::Some(8u8)
    } else if b == 102 {
        Option::Some(12u8)
    } else {
        Option::None
    }
}

/// Scan a string body starting after the opening quote; yields the
/// unescaped content and the index after the closing quote.
pub open spec fn spec_scan_string(s: Seq<u8>, i: int) -> Option<(Seq<u8>, int)>
    decreases s.len() - i,
        when 0 <= i <= s.len()
{
    if i >= s.len() {
        Option::None
    } else if s[i] == 34 {
        Option::Some((Seq::empty(), i + 1))
    } else if s[i] == 92 {
        if i + 1 >= s.len() {
            Option::None
        } else {
            match spec_unescape(s[i + 1]) {
                Option::None => Option::None,
                Option::Some(b) => match spec_scan_string(s, i + 2) {
                    Option::None => Option::None,
                    Option::Some((rest, j)) => Option::Some((seq![b] + rest, j)),
                },
            }
        }
    } else if s[i] < 32 {
        Option::None
    } else {
        match spec_scan_string(s, i + 1) {
            Option::None => Option::None,
            Option::Some((rest, j)) => Option::Some((seq![s[i]] + rest, j)),
        }
    }
}

/// The token starting at `i` (not whitespace), and the index after it.
pub open spec fn spec_next_token(s: Seq<u8>, i: int) -> Option<(TokenView, int)> {
    if i >= s.len() {
        Option::None
    } else if s[i] == 91 {
        Option::Some((TokenView::LBracket, i + 1))
    } else if s[i] == 93 {
        Option::Some((TokenView::RBracket, i + 1))
    } else if s[i] == 123 {
        Option::Some((TokenView::LBrace, i + 1))
    } else if s[i] == 125 {
        Option::Some((TokenView::RBrace, i + 1))
    } else if s[i] == 58 {
        Option::Some((TokenView::Colon, i + 1))
    } else if s[i] == 44 {
        Option::Some((TokenView::Comma, i + 1))
    } else if s[i] == 34 {
        match spec_scan_string(s, i + 1) {
            Option::None => Option::None,
            Option::Some((content, j)) => Option::Some((TokenView::Str(content), j)),
        }
    } else {
        Option::None
    }
}

/// The string scan moves forward.
pub proof fn lemma_scan_string_advances(s: Seq<u8>, i: int)
    requires
        0 <= i <= s.len(),
    ensures
        spec_scan_string(s, i) matches Option::Some((_, j)) ==> i < j <= s.len(),
    decreases s.len() - i,
{
    if i < s.len() {
        if s[i] == 92 {
            if i + 1 < s.len() && spec_unescape(s[i + 1]) is Some {
                lemma_scan_string_advances(s, i + 2);
            }
        } else if s[i] != 34 && s[i] >= 32 {
            lemma_scan_string_advances(s, i + 1);
        }
    }
}

/// The token list of the text from `i` on, if it lexes.
pub open spec fn spec_lex(s: Seq<u8>, i: int) -> Option<Seq<TokenView>>
    decreases s.len() - i,
        when 0 <= i <= s.len()
{
    if i >= s.len() {
        Option::Some(Seq::empty())
    } else if spec_is_ws(s[i]) {
        spec_lex(s, i + 1)
    } else {
        match spec_next_token(s, i) {
            Option::None => Option::None,
            Option::Some((t, j)) => if i < j <= s.len() {
                match spec_lex(s, j) {
                    Option::None => Option::None,
                    Option::Some(ts) => Option::Some(seq![t] + ts),
                }
            } else {
                Option::None
            },
        }
    }
}

// ------------------------------------------------------------------
// The parser, over tokens.
// ------------------------------------------------------------------

pub open spec fn spec_parse_serial(ts: Seq<TokenView>, i: int) -> Option<(SerialView, int)>
    decreases ts.len() - i, 1int,
        when 0 <= i <= ts.len()
{
    if i >= ts.len() {
        Option::None
    } else {
        match ts[i] {
            TokenView::LBrace => match spec_parse_command(ts, i) {
                Option::None => Option::None,
                Option::Some((c, j)) => Option::Some((SerialView::Single(c), j)),
            },
            TokenView::LBracket => if i + 1 <= ts.len() {
                match spec_parse_parallel_list(ts, i + 1) {
                    Option::None => Option::None,
                    Option::Some((children, j)) => Option::Some(
                        (SerialView::Multiple(children), j),
                    ),
                }
            } else {
                Option::None
            },
            _ => Option::None,
        }
    }
}

/// One or more parallel nodes separated by commas, up to and including
/// the closing bracket.
pub open spec fn spec_parse_parallel_list(ts: Seq<TokenView>, i: int) -> Option<
    (Seq<ParallelView>, int),
>
    decreases ts.len() - i, 2int,
        when 0 <= i <= ts.len()
{
    match spec_parse_parallel(ts, i) {
        Option::None => Option::None,
        Option::Some((v, j)) => if i < j <= ts.len() {
            if j < ts.len() && ts[j] == TokenView::Comma {
                match spec_parse_parallel_list(ts, j + 1) {
                    Option::None => Option::None,
                    Option::Some((rest, k)) => Option::Some((seq![v] + rest, k)),
                }
            } else if j < ts.len() && ts[j] == TokenView::RBracket {
                Option::Some((seq![v], j + 1))
            } else {
                Option::None
            }
        } else {
            Option::None
        },
    }
}

pub open spec fn spec_parse_parallel(ts: Seq<TokenView>, i: int) -> Option<(ParallelView, int)>
    decreases ts.len() - i, 1int,
        when 0 <= i <= ts.len()
{
    if i >= ts.len() {
        Option::None
    } else {
        match ts[i] {
            TokenView::LBrace => match spec_parse_command(ts, i) {
                Option::None => Option::None,
                Option::Some((c, j)) => Option::Some((ParallelView::Single(c), j)),
            },
            TokenView::LBracket => if i + 1 <= ts.len() {
                match spec_parse_serial_list(ts, i + 1) {
                    Option::None => Option::None,
                    Option::Some((children, j)) => Option::Some(
                        (ParallelView::Multiple(children), j),
                    ),
                }
            } else {
                Option::None
            },
            _ => Option::None,
        }
    }
}

/// One or more serial nodes separated by commas, up to and including the
/// closing bracket.
pub open spec fn spec_parse_serial_list(ts: Seq<TokenView>, i: int) -> Option<
    (Seq<SerialView>, int),
>
    decreases ts.len() - i, 2int,
        when 0 <= i <= ts.len()
{
    match spec_parse_serial(ts, i) {
        Option::None => Option::None,
        Option::Some((v, j)) => if i < j <= ts.len() {
            if j < ts.len() && ts[j] == TokenView::Comma {
                match spec_parse_serial_list(ts, j + 1) {
                    Option::None => Option::None,
                    Option::Some((rest, k)) => Option::Some((seq![v] + rest, k)),
                }
            } else if j < ts.len() && ts[j] == TokenView::RBracket {
                Option::Some((seq![v], j + 1))
            } else {
                Option::None
            }
        } else {
            Option::None
        },
    }
}

/// The member key tokens.
pub open spec fn spec_key_module() -> Seq<u8> {
    seq![109u8, 111u8, 100u8, 117u8, 108u8, 101u8]
}

pub open spec fn spec_key_command() -> Seq<u8> {
    seq![99u8, 111u8, 109u8, 109u8, 97u8, 110u8, 100u8]
}

pub open spec fn spec_key_parameters() -> Seq<u8> {
    seq![112u8, 97u8, 114u8, 97u8, 109u8, 101u8, 116u8, 101u8, 114u8, 115u8]
}

/// A command object: `module` and `command` members, and optionally a
/// `parameters` array, in that order. Empty names are rejected.
pub open spec fn spec_parse_command(ts: Seq<TokenView>, i: int) -> Option<(CommandView, int)> {
    if i + 8 <= ts.len() && ts[i] == TokenView::LBrace && ts[i + 1] == TokenView::Str(
        spec_key_module(),
    ) && ts[i + 2] == TokenView::Colon && (ts[i + 3] matches TokenView::Str(_)) && ts[i + 4]
        == TokenView::Comma && ts[i + 5] == TokenView::Str(spec_key_command()) && ts[i + 6]
        == TokenView::Colon && (ts[i + 7] matches TokenView::Str(_)) {
        let m = ts[i + 3]->Str_0;
        let c = ts[i + 7]->Str_0;
        if m.len() == 0 || c.len() == 0 {
            Option::None
        } else if i + 8 < ts.len() && ts[i + 8] == TokenView::RBrace {
            Option::Some(
                (CommandView { module: m, command: c, parameters: Option::None }, i + 9),
            )
        } else if i + 12 <= ts.len() && ts[i + 8] == TokenView::Comma && ts[i + 9]
            == TokenView::Str(spec_key_parameters()) && ts[i + 10] == TokenView::Colon && ts[i
            + 11] == TokenView::LBracket {
            match spec_parse_strings(ts, i + 12) {
                Option::None => Option::None,
                Option::Some((ps, j)) => if j < ts.len() && ts[j] == TokenView::RBrace {
                    Option::Some(
                        (
                            CommandView {
                                module: m,
                                command: c,
                                parameters: Option::Some(ps),
                            },
                            j + 1,
                        ),
                    )
                } else {
                    Option::None
                },
            }
        } else {
            Option::None
        }
    } else {
        Option::None
    }
}

/// A possibly empty string array body, up to and including the closing
/// bracket.
pub open spec fn spec_parse_strings(ts: Seq<TokenView>, i: int) -> Option<(Seq<Seq<u8>>, int)>
    decreases ts.len() - i,
        when 0 <= i <= ts.len()
{
    if i >= ts.len() {
        Option::None
    } else if ts[i] == TokenView::RBracket {
        Option::Some((Seq::empty(), i + 1))
    } else {
        match ts[i] {
            TokenView::Str(v) => spec_parse_strings_tail(ts, i + 1, seq![v]),
            _ => Option::None,
        }
    }
}

pub open spec fn spec_parse_strings_tail(
    ts: Seq<TokenView>,
    i: int,
    acc: Seq<Seq<u8>>,
) -> Option<(Seq<Seq<u8>>, int)>
    decreases ts.len() - i,
        when 0 <= i <= ts.len()
{
    if i >= ts.len() {
        Option::None
    } else if ts[i] == TokenView::RBracket {
        Option::Some((acc, i + 1))
    } else if ts[i] == TokenView::Comma {
        if i + 1 < ts.len() {
            match ts[i + 1] {
                TokenView::Str(v) => spec_parse_strings_tail(ts, i + 2, acc.push(v)),
                _ => Option::None,
            }
        } else {
            Option::None
        }
    } else {
        Option::None
    }
}

/// A whole pipeline: the text lexes, parses as a serial node, and leaves
/// nothing behind.
pub open spec fn spec_parse_pipeline(s: Seq<u8>) -> Option<SerialView> {
    match spec_lex(s, 0) {
        Option::None => Option::None,
        Option::Some(ts) => match spec_parse_serial(ts, 0) {
            Option::None => Option::None,
            Option::Some((v, j)) => if j == ts.len() {
                Option::Some(v)
            } else {
                Option::None
            },
        },
    }
}

// ------------------------------------------------------------------
// The serializer.
// ------------------------------------------------------------------

pub open spec fn spec_tokens_command(c: CommandView) -> Seq<TokenView> {
    seq![
        TokenView::LBrace,
        TokenView::Str(spec_key_module()),
        TokenView::Colon,
        TokenView::Str(c.module),
        TokenView::Comma,
        TokenView::Str(spec_key_command()),
        TokenView::Colon,
        TokenView::Str(c.command),
    ] + (match c.parameters {
        Option::None => Seq::empty(),
        Option::Some(ps) => seq![
            TokenView::Comma,
            TokenView::Str(spec_key_parameters()),
            TokenView::Colon,
            TokenView::LBracket,
        ] + spec_tokens_strings(ps) + seq![TokenView::RBracket],
    }) + seq![TokenView::RBrace]
}

pub open spec fn spec_tokens_strings(ps: Seq<Seq<u8>>) -> Seq<TokenView>
    decreases ps.len(),
{
    if ps.len() == 0 {
        Seq::empty()
    } else if ps.len() == 1 {
        seq![TokenView::Str(ps[0])]
    } else {
        seq![TokenView::Str(ps[0]), TokenView::Comma] + spec_tokens_strings(ps.drop_first())
    }
}

pub open spec fn spec_tokens_serial(v: SerialView) -> Seq<TokenView>
    decreases v, 1int,
{
    match v {
        SerialView::Single(c) => spec_tokens_command(c),
        SerialView::Multiple(children) => seq![TokenView::LBracket] + spec_tokens_parallel_list(
            children,
        ) + seq![TokenView::RBracket],
    }
}

pub open spec fn spec_tokens_parallel_list(children: Seq<ParallelView>) -> Seq<TokenView>
    decreases children, 2int,
{
    if children.len() == 0 {
        Seq::empty()
    } else if children.len() == 1 {
        spec_tokens_parallel(children[0])
    } else {
        spec_tokens_parallel(children[0]) + seq![TokenView::Comma] + spec_tokens_parallel_list(
            children.drop_first(),
        )
    }
}

pub open spec fn spec_tokens_parallel(v: ParallelView) -> Seq<TokenView>
    decreases v, 1int,
{
    match v {
        ParallelView::Single(c) => spec_tokens_command(c),
        ParallelView::Multiple(children) => seq![TokenView::LBracket] + spec_tokens_serial_list(
            children,
        ) + seq![TokenView::RBracket],
    }
}

pub open spec fn spec_tokens_serial_list(children: Seq<SerialView>) -> Seq<TokenView>
    decreases children, 2int,
{
    if children.len() == 0 {
        Seq::empty()
    } else if children.len() == 1 {
        spec_tokens_serial(children[0])
    } else {
        spec_tokens_serial(children[0]) + seq![TokenView::Comma] + spec_tokens_serial_list(
            children.drop_first(),
        )
    }
}

/// The escape sequence for one content byte.
pub open spec fn spec_escape_byte(b: u8) -> Seq<u8> {
    if b == 34 {
        seq![92u8, 34u8]
    } else if b == 92 {
        seq![92u8, 92u8]
    } else if b == 10 {
        seq![92u8, 110u8]
    } else if b == 13 {
        seq![92u8, 114u8]
    } else if b == 9 {
        seq![92u8, 116u8]
    } else if b == 8 {
        seq![92u8, 98u8]
    } else if b == 12 {
        seq![92u8, 102u8]
    } else {
        seq![b]
    }
}

pub open spec fn spec_escape(v: Seq<u8>) -> Seq<u8>
    decreases v.len(),
{
    if v.len() == 0 {
        Seq::empty()
    } else {
        spec_escape_byte(v[0]) + spec_escape(v.drop_first())
    }
}

/// The bytes of one token.
pub open spec fn spec_render_token(t: TokenView) -> Seq<u8> {
    match t {
        TokenView::LBracket => seq![91u8],
        TokenView::RBracket => seq![93u8],
        TokenView::LBrace => seq![123u8],
        TokenView::RBrace => seq![125u8],
        TokenView::Colon => seq![58u8],
        TokenView::Comma => seq![44u8],
        TokenView::Str(v) => seq![34u8] + spec_escape(v) + seq![34u8],
    }
}

pub open spec fn spec_render(ts: Seq<TokenView>) -> Seq<u8>
    decreases ts.len(),
{
    if ts.len() == 0 {
        Seq::empty()
    } else {
        spec_render_token(ts[0]) + spec_render(ts.drop_first())
    }
}

/// The canonical text of a pipeline.
pub open spec fn spec_serialize_pipeline(v: SerialView) -> Seq<u8> {
    spec_render(spec_tokens_serial(v))
}

// ------------------------------------------------------------------
// Round trip: serializing a graph and reparsing it yields the graph.
// ------------------------------------------------------------------

/// A byte the serializer can write into a string: printable, or one of
/// the control bytes that have a short escape.
pub open spec fn spec_renderable_byte(b: u8) -> bool {
    b >= 32 || b == 8 || b == 9 || b == 10 || b == 12 || b == 13
}

pub open spec fn spec_string_renderable(v: Seq<u8>) -> bool {
    forall|i: int| 0 <= i < v.len() ==> spec_renderable_byte(#[trigger] v[i])
}

pub open spec fn spec_command_renderable(c: CommandView) -> bool {
    &&& spec_string_renderable(c.module)
    &&& spec_string_renderable(c.command)
    &&& (c.parameters matches Option::Some(ps) ==> forall|i: int|
        0 <= i < ps.len() ==> spec_string_renderable(#[trigger] ps[i]))
}

pub open spec fn spec_serial_renderable(v: SerialView) -> bool
    decreases v,
{
    match v {
        SerialView::Single(c) => spec_command_renderable(c),
        SerialView::Multiple(children) => forall|i: int|
            0 <= i < children.len() ==> spec_parallel_renderable(#[trigger] children[i]),
    }
}

pub open spec fn spec_parallel_renderable(v: ParallelView) -> bool
    decreases v,
{
    match v {
        ParallelView::Single(c) => spec_command_renderable(c),
        ParallelView::Multiple(children) => forall|i: int|
            0 <= i < children.len() ==> spec_serial_renderable(#[trigger] children[i]),
    }
}

/// Scanning the escaped form of a string finds the string again.
proof fn lemma_scan_escape(s: Seq<u8>, i: int, v: Seq<u8>)
    requires
        spec_string_renderable(v),
        0 <= i,
        i + spec_escape(v).len() + 1 <= s.len(),
        s.subrange(i, i + spec_escape(v).len() + 1) == spec_escape(v) + seq![34u8],
    ensures
        spec_scan_string(s, i) == Option::Some((v, i + spec_escape(v).len() + 1)),
    decreases v.len(),
{
    let esc = spec_escape(v);
    let whole = esc + seq![34u8];
    if v.len() == 0 {
        assert(s[i] == whole[0]);
        assert(s[i] == 34);
    } else {
        let b = v[0];
        let eb = spec_escape_byte(b);
        let rest = v.drop_first();
        let erest = spec_escape(rest);
        assert(esc == eb + erest);
        assert(v[0] == b && spec_renderable_byte(b));
        assert forall|k: int| 0 <= k < rest.len() implies spec_renderable_byte(
            #[trigger] rest[k],
        ) by {
            assert(rest[k] == v[k + 1]);
        }
        if eb.len() == 2 {
            assert(s[i] == whole[0]);
            assert(s[i + 1] == whole[1]);
            assert(whole[0] == eb[0] && whole[1] == eb[1]);
            assert(eb[0] == 92);
            assert(spec_unescape(eb[1]) == Option::Some(b));
            assert(s.subrange(i + 2, i + 2 + erest.len() + 1) =~= erest + seq![34u8]) by {
                assert forall|k: int| 0 <= k < erest.len() + 1 implies s.subrange(
                    i + 2,
                    i + 2 + erest.len() + 1,
                )[k] == (erest + seq![34u8])[k] by {
                    assert(s.subrange(i + 2, i + 2 + erest.len() + 1)[k] == s[i + 2 + k]);
                    assert(s[i + 2 + k] == whole[2 + k]);
                    assert(whole[2 + k] == (erest + seq![34u8])[k]);
                }
            }
            lemma_scan_escape(s, i + 2, rest);
            assert(seq![b] + rest =~= v);
        } else {
            assert(eb.len() == 1);
            assert(eb[0] == b);
            assert(s[i] == whole[0]);
            assert(s[i] == b);
            assert(b != 34 && b != 92 && b >= 32);
            assert(s.subrange(i + 1, i + 1 + erest.len() + 1) =~= erest + seq![34u8]) by {
                assert forall|k: int| 0 <= k < erest.len() + 1 implies s.subrange(
                    i + 1,
                    i + 1 + erest.len() + 1,
                )[k] == (erest + seq![34u8])[k] by {
                    assert(s.subrange(i + 1, i + 1 + erest.len() + 1)[k] == s[i + 1 + k]);
                    assert(s[i + 1 + k] == whole[1 + k]);
                    assert(whole[1 + k] == (erest + seq![34u8])[k]);
                }
            }
            lemma_scan_escape(s, i + 1, rest);
            assert(seq![b] + rest =~= v);
        }
    }
}

/// Every string token in the list is renderable.
pub open spec fn spec_tokens_renderable(ts: Seq<TokenView>) -> bool {
    forall|i: int|
        0 <= i < ts.len() ==> ((#[trigger] ts[i]) matches TokenView::Str(v)
            ==> spec_string_renderable(v))
}

/// Lexing the rendered form of a token list, up to the end of the text,
/// finds the token list again.
proof fn lemma_lex_render(s: Seq<u8>, i: int, ts: Seq<TokenView>)
    requires
        spec_tokens_renderable(ts),
        0 <= i,
        i + spec_render(ts).len() == s.len(),
        s.subrange(i, s.len() as int) == spec_render(ts),
    ensures
        spec_lex(s, i) == Option::Some(ts),
    decreases ts.len(),
{
    if ts.len() == 0 {
        assert(i == s.len());
    } else {
        let t0 = ts[0];
        let r0 = spec_render_token(t0);
        let rest = ts.drop_first();
        let rrest = spec_render(rest);
        assert(spec_render(ts) == r0 + rrest);
        let j = i + r0.len();
        assert forall|k: int| 0 <= k < r0.len() implies s[i + k] == r0[k] by {
            assert(s.subrange(i, s.len() as int)[k] == s[i + k]);
            assert((r0 + rrest)[k] == r0[k]);
        }
        assert(s.subrange(j, s.len() as int) =~= rrest) by {
            assert forall|k: int| 0 <= k < rrest.len() implies s.subrange(
                j,
                s.len() as int,
            )[k] == rrest[k] by {
                assert(s.subrange(i, s.len() as int)[r0.len() + k] == s[j + k]);
                assert((r0 + rrest)[r0.len() + k] == rrest[k]);
            }
        }
        assert(spec_tokens_renderable(rest)) by {
            assert forall|k: int| 0 <= k < rest.len() implies ((#[trigger] rest[k])
                matches TokenView::Str(v) ==> spec_string_renderable(v)) by {
                assert(rest[k] == ts[k + 1]);
            }
        }
        match t0 {
            TokenView::Str(v) => {
                assert(spec_string_renderable(v));
                assert(r0 == seq![34u8] + spec_escape(v) + seq![34u8]);
                assert(s[i] == r0[0]);
                assert(s[i] == 34);
                assert(!spec_is_ws(s[i]));
                assert(s.subrange(i + 1, i + 1 + spec_escape(v).len() + 1) =~= spec_escape(v)
                    + seq![34u8]) by {
                    assert forall|k: int| 0 <= k < spec_escape(v).len() + 1 implies s.subrange(
                        i + 1,
                        i + 1 + spec_escape(v).len() + 1,
                    )[k] == (spec_escape(v) + seq![34u8])[k] by {
                        assert(s.subrange(i + 1, i + 1 + spec_escape(v).len() + 1)[k] == s[i + 1
                            + k]);
                        assert(s[i + 1 + k] == r0[1 + k]);
                        assert(r0[1 + k] == (spec_escape(v) + seq![34u8])[k]);
                    }
                }
                lemma_scan_escape(s, i + 1, v);
                assert(spec_next_token(s, i) == Option::Some((t0, j)));
                lemma_lex_render(s, j, rest);
                assert(seq![t0] + rest =~= ts);
            },
            TokenView::LBracket => {
                assert(s[i + 0] == r0[0]);
                assert(s[i] == 91);
                lemma_lex_render(s, j, rest);
                assert(seq![t0] + rest =~= ts);
            },
            TokenView::RBracket => {
                assert(s[i + 0] == r0[0]);
                assert(s[i] == 93);
                lemma_lex_render(s, j, rest);
                assert(seq![t0] + rest =~= ts);
            },
            TokenView::LBrace => {
                assert(s[i + 0] == r0[0]);
                assert(s[i] == 123);
                lemma_lex_render(s, j, rest);
                assert(seq![t0] + rest =~= ts);
            },
            TokenView::RBrace => {
                assert(s[i + 0] == r0[0]);
                assert(s[i] == 125);
                lemma_lex_render(s, j, rest);
                assert(seq![t0] + rest =~= ts);
            },
            TokenView::Colon => {
                assert(s[i + 0] == r0[0]);
                assert(s[i] == 58);
                lemma_lex_render(s, j, rest);
                assert(seq![t0] + rest =~= ts);
            },
            TokenView::Comma => {
                assert(s[i + 0] == r0[0]);
                assert(s[i] == 44);
                lemma_lex_render(s, j, rest);
                assert(seq![t0] + rest =~= ts);
            },
        }
    }
}

/// The tokens the tail of a parameter list serializes to: a comma before
/// each further string.
pub open spec fn spec_tokens_strings_tail(ps: Seq<Seq<u8>>) -> Seq<TokenView>
    decreases ps.len(),
{
    if ps.len() == 0 {
        Seq::empty()
    } else {
        seq![TokenView::Comma, TokenView::Str(ps[0])] + spec_tokens_strings_tail(
            ps.drop_first(),
        )
    }
}

proof fn lemma_tokens_strings_tail_shape(ps: Seq<Seq<u8>>)
    requires
        ps.len() > 0,
    ensures
        spec_tokens_strings_tail(ps) == seq![TokenView::Comma] + spec_tokens_strings(ps),
        spec_tokens_strings(ps) == seq![TokenView::Str(ps[0])] + spec_tokens_strings_tail(
            ps.drop_first(),
        ),
    decreases ps.len(),
{
    if ps.len() == 1 {
        assert(spec_tokens_strings_tail(ps.drop_first()) == Seq::<TokenView>::empty());
        assert(spec_tokens_strings_tail(ps) =~= seq![TokenView::Comma] + spec_tokens_strings(
            ps,
        ));
        assert(spec_tokens_strings(ps) =~= seq![TokenView::Str(ps[0])]
            + spec_tokens_strings_tail(ps.drop_first()));
    } else {
        lemma_tokens_strings_tail_shape(ps.drop_first());
        assert(spec_tokens_strings_tail(ps) =~= seq![TokenView::Comma] + spec_tokens_strings(
            ps,
        ));
        assert(spec_tokens_strings(ps) =~= seq![TokenView::Str(ps[0])]
            + spec_tokens_strings_tail(ps.drop_first()));
    }
}

proof fn lemma_parse_strings_tail_of_tokens(
    rest: Seq<Seq<u8>>,
    acc: Seq<Seq<u8>>,
    ts: Seq<TokenView>,
    i: int,
)
    requires
        0 <= i,
        i + spec_tokens_strings_tail(rest).len() + 1 <= ts.len(),
        ts.subrange(i, i + spec_tokens_strings_tail(rest).len() + 1)
            == spec_tokens_strings_tail(rest) + seq![TokenView::RBracket],
    ensures
        spec_parse_strings_tail(ts, i, acc) == Option::Some(
            (acc + rest, i + spec_tokens_strings_tail(rest).len() + 1),
        ),
    decreases rest.len(),
{
    let tail = spec_tokens_strings_tail(rest);
    let whole = tail + seq![TokenView::RBracket];
    if rest.len() == 0 {
        assert(ts[i + 0] == whole[0]);
        assert(ts[i] == TokenView::RBracket);
        assert(acc + rest =~= acc);
    } else {
        assert(ts[i + 0] == whole[0]);
        assert(ts[i + 1] == whole[1]);
        assert(whole[0] == TokenView::Comma);
        assert(whole[1] == TokenView::Str(rest[0]));
        assert(!(TokenView::Comma == TokenView::RBracket));
        let sub = spec_tokens_strings_tail(rest.drop_first());
        assert(ts.subrange(i + 2, i + 2 + sub.len() + 1) =~= sub + seq![
            TokenView::RBracket,
        ]) by {
            assert forall|k: int| 0 <= k < sub.len() + 1 implies ts.subrange(
                i + 2,
                i + 2 + sub.len() + 1,
            )[k] == (sub + seq![TokenView::RBracket])[k] by {
                assert(ts.subrange(i + 2, i + 2 + sub.len() + 1)[k] == ts[i + 2 + k]);
                assert(ts[i + 2 + k] == whole[2 + k]);
                assert(whole[2 + k] == (sub + seq![TokenView::RBracket])[k]);
            }
        }
        lemma_parse_strings_tail_of_tokens(rest.drop_first(), acc.push(rest[0]), ts, i + 2);
        assert(acc.push(rest[0]) + rest.drop_first() =~= acc + rest);
    }
}

proof fn lemma_parse_strings_of_tokens(ps: Seq<Seq<u8>>, ts: Seq<TokenView>, i: int)
    requires
        0 <= i,
        i + spec_tokens_strings(ps).len() + 1 <= ts.len(),
        ts.subrange(i, i + spec_tokens_strings(ps).len() + 1) == spec_tokens_strings(ps)
            + seq![TokenView::RBracket],
    ensures
        spec_parse_strings(ts, i) == Option::Some(
            (ps, i + spec_tokens_strings(ps).len() + 1),
        ),
{
    let toks = spec_tokens_strings(ps);
    let whole = toks + seq![TokenView::RBracket];
    if ps.len() == 0 {
        assert(ts[i + 0] == whole[0]);
        assert(ts[i] == TokenView::RBracket);
    } else {
        lemma_tokens_strings_tail_shape(ps);
        assert(ts[i + 0] == whole[0]);
        assert(whole[0] == TokenView::Str(ps[0]));
        let tail = spec_tokens_strings_tail(ps.drop_first());
        assert(toks == seq![TokenView::Str(ps[0])] + tail);
        assert(ts.subrange(i + 1, i + 1 + tail.len() + 1) =~= tail + seq![
            TokenView::RBracket,
        ]) by {
            assert forall|k: int| 0 <= k < tail.len() + 1 implies ts.subrange(
                i + 1,
                i + 1 + tail.len() + 1,
            )[k] == (tail + seq![TokenView::RBracket])[k] by {
                assert(ts.subrange(i + 1, i + 1 + tail.len() + 1)[k] == ts[i + 1 + k]);
                assert(ts[i + 1 + k] == whole[1 + k]);
                assert(whole[1 + k] == (tail + seq![TokenView::RBracket])[k]);
            }
        }
        lemma_parse_strings_tail_of_tokens(ps.drop_first(), seq![ps[0]], ts, i + 1);
        assert(seq![ps[0]] + ps.drop_first() =~= ps);
    }
}

proof fn lemma_parse_command_of_tokens(c: CommandView, ts: Seq<TokenView>, i: int)
    requires
        crate::pipeline::spec_command_valid(c),
        0 <= i,
        i + spec_tokens_command(c).len() <= ts.len(),
        ts.subrange(i, i + spec_tokens_command(c).len()) == spec_tokens_command(c),
    ensures
        spec_parse_command(ts, i) == Option::Some((c, i + spec_tokens_command(c).len())),
{
    let toks = spec_tokens_command(c);
    assert forall|k: int| 0 <= k < toks.len() implies ts[i + k] == toks[k] by {
        assert(ts.subrange(i, i + toks.len())[k] == ts[i + k]);
    }
    assert(ts[i + 0] == toks[0]);
    assert(ts[i + 1] == toks[1]);
    assert(ts[i + 2] == toks[2]);
    assert(ts[i + 3] == toks[3]);
    assert(ts[i + 4] == toks[4]);
    assert(ts[i + 5] == toks[5]);
    assert(ts[i + 6] == toks[6]);
    assert(ts[i + 7] == toks[7]);
    match c.parameters {
        Option::None => {
            assert(toks.len() == 9);
            assert(ts[i + 8] == toks[8]);
            assert(toks[8] == TokenView::RBrace);
        },
        Option::Some(ps) => {
            let strs = spec_tokens_strings(ps);
            assert(toks.len() == 8 + 4 + strs.len() + 1 + 1);
            assert(ts[i + 8] == toks[8]);
            assert(toks[8] == TokenView::Comma);
            assert(ts[i + 9] == toks[9]);
            assert(toks[9] == TokenView::Str(spec_key_parameters()));
            assert(ts[i + 10] == toks[10]);
            assert(toks[10] == TokenView::Colon);
            assert(ts[i + 11] == toks[11]);
            assert(toks[11] == TokenView::LBracket);
            assert(ts.subrange(i + 12, i + 12 + strs.len() + 1) =~= strs + seq![
                TokenView::RBracket,
            ]) by {
                assert forall|k: int| 0 <= k < strs.len() + 1 implies ts.subrange(
                    i + 12,
                    i + 12 + strs.len() + 1,
                )[k] == (strs + seq![TokenView::RBracket])[k] by {
                    assert(ts.subrange(i + 12, i + 12 + strs.len() + 1)[k] == ts[i + 12 + k]);
                    assert(ts[i + 12 + k] == toks[12 + k]);
                    assert(toks[12 + k] == (strs + seq![TokenView::RBracket])[k]);
                }
            }
            lemma_parse_strings_of_tokens(ps, ts, i + 12);
            let j = i + 12 + strs.len() + 1;
            assert(ts[i + 12 + strs.len() + 1] == toks[12 + strs.len() as int + 1]);
            assert(toks[12 + strs.len() as int + 1] == TokenView::RBrace);
            assert(ts[j] == TokenView::RBrace);
        },
    }
}

proof fn lemma_parse_serial_of_tokens(v: SerialView, ts: Seq<TokenView>, i: int)
    requires
        crate::pipeline::spec_serial_valid(v),
        0 <= i,
        i + spec_tokens_serial(v).len() <= ts.len(),
        ts.subrange(i, i + spec_tokens_serial(v).len()) == spec_tokens_serial(v),
    ensures
        spec_parse_serial(ts, i) == Option::Some((v, i + spec_tokens_serial(v).len())),
    decreases v, 1int,
{
    let toks = spec_tokens_serial(v);
    match v {
        SerialView::Single(c) => {
            lemma_parse_command_of_tokens(c, ts, i);
            assert(ts.subrange(i, i + toks.len())[0] == ts[i]);
            assert(toks[0] == TokenView::LBrace);
        },
        SerialView::Multiple(children) => {
            let list = spec_tokens_parallel_list(children);
            assert(toks == seq![TokenView::LBracket] + list + seq![TokenView::RBracket]);
            assert(ts.subrange(i, i + toks.len())[0] == ts[i]);
            assert(ts[i] == toks[0]);
            assert(toks[0] == TokenView::LBracket);
            assert(ts.subrange(i + 1, i + 1 + list.len() + 1) =~= list + seq![
                TokenView::RBracket,
            ]) by {
                assert forall|k: int| 0 <= k < list.len() + 1 implies ts.subrange(
                    i + 1,
                    i + 1 + list.len() + 1,
                )[k] == (list + seq![TokenView::RBracket])[k] by {
                    assert(ts.subrange(i + 1, i + 1 + list.len() + 1)[k] == ts[i + 1 + k]);
                    assert(ts.subrange(i, i + toks.len())[1 + k] == ts[i + 1 + k]);
                    assert(toks[1 + k] == (list + seq![TokenView::RBracket])[k]);
                }
            }
            lemma_parse_parallel_list_of_tokens(children, ts, i + 1);
        },
    }
}

proof fn lemma_parse_parallel_list_of_tokens(
    children: Seq<ParallelView>,
    ts: Seq<TokenView>,
    i: int,
)
    requires
        children.len() > 0,
        forall|k: int|
            0 <= k < children.len() ==> crate::pipeline::spec_parallel_valid(
                #[trigger] children[k],
            ),
        0 <= i,
        i + spec_tokens_parallel_list(children).len() + 1 <= ts.len(),
        ts.subrange(i, i + spec_tokens_parallel_list(children).len() + 1)
            == spec_tokens_parallel_list(children) + seq![TokenView::RBracket],
    ensures
        spec_parse_parallel_list(ts, i) == Option::Some(
            (children, i + spec_tokens_parallel_list(children).len() + 1),
        ),
    decreases children, 2int,
{
    let list = spec_tokens_parallel_list(children);
    let whole = list + seq![TokenView::RBracket];
    let head = spec_tokens_parallel(children[0]);
    lemma_tokens_parallel_nonempty(children[0]);
    if children.len() == 1 {
        assert(list == head);
        assert(ts.subrange(i, i + head.len()) =~= head) by {
            assert forall|k: int| 0 <= k < head.len() implies ts.subrange(
                i,
                i + head.len(),
            )[k] == head[k] by {
                assert(ts.subrange(i, i + head.len())[k] == ts[i + k]);
                assert(ts.subrange(i, i + list.len() + 1)[k] == ts[i + k]);
                assert(whole[k] == head[k]);
            }
        }
        lemma_parse_parallel_of_tokens(children[0], ts, i);
        let j = i + head.len();
        assert(ts.subrange(i, i + list.len() + 1)[head.len() as int] == ts[j]);
        assert(whole[head.len() as int] == TokenView::RBracket);
        assert(ts[j] == TokenView::RBracket);
        assert(!(TokenView::RBracket == TokenView::Comma));
        assert(seq![children[0]] =~= children);
    } else {
        let rest = spec_tokens_parallel_list(children.drop_first());
        assert(list == head + seq![TokenView::Comma] + rest);
        assert(ts.subrange(i, i + head.len()) =~= head) by {
            assert forall|k: int| 0 <= k < head.len() implies ts.subrange(
                i,
                i + head.len(),
            )[k] == head[k] by {
                assert(ts.subrange(i, i + head.len())[k] == ts[i + k]);
                assert(ts.subrange(i, i + list.len() + 1)[k] == ts[i + k]);
                assert(whole[k] == (head + seq![TokenView::Comma] + rest)[k]);
            }
        }
        lemma_parse_parallel_of_tokens(children[0], ts, i);
        let j = i + head.len();
        assert(ts.subrange(i, i + list.len() + 1)[head.len() as int] == ts[j]);
        assert(whole[head.len() as int] == TokenView::Comma);
        assert(ts[j] == TokenView::Comma);
        assert(ts.subrange(j + 1, j + 1 + rest.len() + 1) =~= rest + seq![
            TokenView::RBracket,
        ]) by {
            assert forall|k: int| 0 <= k < rest.len() + 1 implies ts.subrange(
                j + 1,
                j + 1 + rest.len() + 1,
            )[k] == (rest + seq![TokenView::RBracket])[k] by {
                assert(ts.subrange(j + 1, j + 1 + rest.len() + 1)[k] == ts[j + 1 + k]);
                assert(ts.subrange(i, i + list.len() + 1)[head.len() + 1 + k] == ts[j + 1
                    + k]);
                assert(whole[head.len() + 1 + k] == (rest + seq![TokenView::RBracket])[k]);
            }
        }
        assert forall|k: int| 0 <= k < children.drop_first().len() implies crate::pipeline::spec_parallel_valid(
            #[trigger] children.drop_first()[k],
        ) by {
            assert(children.drop_first()[k] == children[k + 1]);
        }
        lemma_parse_parallel_list_of_tokens(children.drop_first(), ts, j + 1);
        assert(seq![children[0]] + children.drop_first() =~= children);
    }
}

proof fn lemma_parse_parallel_of_tokens(v: ParallelView, ts: Seq<TokenView>, i: int)
    requires
        crate::pipeline::spec_parallel_valid(v),
        0 <= i,
        i + spec_tokens_parallel(v).len() <= ts.len(),
        ts.subrange(i, i + spec_tokens_parallel(v).len()) == spec_tokens_parallel(v),
    ensures
        spec_parse_parallel(ts, i) == Option::Some((v, i + spec_tokens_parallel(v).len())),
    decreases v, 1int,
{
    let toks = spec_tokens_parallel(v);
    match v {
        ParallelView::Single(c) => {
            lemma_parse_command_of_tokens(c, ts, i);
            assert(ts.subrange(i, i + toks.len())[0] == ts[i]);
            assert(toks[0] == TokenView::LBrace);
        },
        ParallelView::Multiple(children) => {
            let list = spec_tokens_serial_list(children);
            assert(toks == seq![TokenView::LBracket] + list + seq![TokenView::RBracket]);
            assert(ts.subrange(i, i + toks.len())[0] == ts[i]);
            assert(ts[i] == toks[0]);
            assert(toks[0] == TokenView::LBracket);
            assert(ts.subrange(i + 1, i + 1 + list.len() + 1) =~= list + seq![
                TokenView::RBracket,
            ]) by {
                assert forall|k: int| 0 <= k < list.len() + 1 implies ts.subrange(
                    i + 1,
                    i + 1 + list.len() + 1,
                )[k] == (list + seq![TokenView::RBracket])[k] by {
                    assert(ts.subrange(i + 1, i + 1 + list.len() + 1)[k] == ts[i + 1 + k]);
                    assert(ts.subrange(i, i + toks.len())[1 + k] == ts[i + 1 + k]);
                    assert(toks[1 + k] == (list + seq![TokenView::RBracket])[k]);
                }
            }
            lemma_parse_serial_list_of_tokens(children, ts, i + 1);
        },
    }
}

proof fn lemma_parse_serial_list_of_tokens(
    children: Seq<SerialView>,
    ts: Seq<TokenView>,
    i: int,
)
    requires
        children.len() > 0,
        forall|k: int|
            0 <= k < children.len() ==> crate::pipeline::spec_serial_valid(
                #[trigger] children[k],
            ),
        0 <= i,
        i + spec_tokens_serial_list(children).len() + 1 <= ts.len(),
        ts.subrange(i, i + spec_tokens_serial_list(children).len() + 1)
            == spec_tokens_serial_list(children) + seq![TokenView::RBracket],
    ensures
        spec_parse_serial_list(ts, i) == Option::Some(
            (children, i + spec_tokens_serial_list(children).len() + 1),
        ),
    decreases children, 2int,
{
    let list = spec_tokens_serial_list(children);
    let whole = list + seq![TokenView::RBracket];
    let head = spec_tokens_serial(children[0]);
    lemma_tokens_serial_nonempty(children[0]);
    if children.len() == 1 {
        assert(list == head);
        assert(ts.subrange(i, i + head.len()) =~= head) by {
            assert forall|k: int| 0 <= k < head.len() implies ts.subrange(
                i,
                i + head.len(),
            )[k] == head[k] by {
                assert(ts.subrange(i, i + head.len())[k] == ts[i + k]);
                assert(ts.subrange(i, i + list.len() + 1)[k] == ts[i + k]);
                assert(whole[k] == head[k]);
            }
        }
        lemma_parse_serial_of_tokens(children[0], ts, i);
        let j = i + head.len();
        assert(ts.subrange(i, i + list.len() + 1)[head.len() as int] == ts[j]);
        assert(whole[head.len() as int] == TokenView::RBracket);
        assert(ts[j] == TokenView::RBracket);
        assert(!(TokenView::RBracket == TokenView::Comma));
        assert(seq![children[0]] =~= children);
    } else {
        let rest = spec_tokens_serial_list(children.drop_first());
        assert(list == head + seq![TokenView::Comma] + rest);
        assert(ts.subrange(i, i + head.len()) =~= head) by {
            assert forall|k: int| 0 <= k < head.len() implies ts.subrange(
                i,
                i + head.len(),
            )[k] == head[k] by {
                assert(ts.subrange(i, i + head.len())[k] == ts[i + k]);
                assert(ts.subrange(i, i + list.len() + 1)[k] == ts[i + k]);
                assert(whole[k] == (head + seq![TokenView::Comma] + rest)[k]);
            }
        }
        lemma_parse_serial_of_tokens(children[0], ts, i);
        let j = i + head.len();
        assert(ts.subrange(i, i + list.len() + 1)[head.len() as int] == ts[j]);
        assert(whole[head.len() as int] == TokenView::Comma);
        assert(ts[j] == TokenView::Comma);
        assert(ts.subrange(j + 1, j + 1 + rest.len() + 1) =~= rest + seq![
            TokenView::RBracket,
        ]) by {
            assert forall|k: int| 0 <= k < rest.len() + 1 implies ts.subrange(
                j + 1,
                j + 1 + rest.len() + 1,
            )[k] == (rest + seq![TokenView::RBracket])[k] by {
                assert(ts.subrange(j + 1, j + 1 + rest.len() + 1)[k] == ts[j + 1 + k]);
                assert(ts.subrange(i, i + list.len() + 1)[head.len() + 1 + k] == ts[j + 1
                    + k]);
                assert(whole[head.len() + 1 + k] == (rest + seq![TokenView::RBracket])[k]);
            }
        }
        assert forall|k: int| 0 <= k < children.drop_first().len() implies crate::pipeline::spec_serial_valid(
            #[trigger] children.drop_first()[k],
        ) by {
            assert(children.drop_first()[k] == children[k + 1]);
        }
        lemma_parse_serial_list_of_tokens(children.drop_first(), ts, j + 1);
        assert(seq![children[0]] + children.drop_first() =~= children);
    }
}

proof fn lemma_tokens_renderable_concat(a: Seq<TokenView>, b: Seq<TokenView>)
    requires
        spec_tokens_renderable(a),
        spec_tokens_renderable(b),
    ensures
        spec_tokens_renderable(a + b),
{
    assert forall|i: int| 0 <= i < (a + b).len() implies ((#[trigger] (a + b)[i])
        matches TokenView::Str(v) ==> spec_string_renderable(v)) by {
        if i < a.len() {
            assert((a + b)[i] == a[i]);
        } else {
            assert((a + b)[i] == b[i - a.len()]);
        }
    }
}

proof fn lemma_keys_renderable()
    ensures
        spec_string_renderable(spec_key_module()),
        spec_string_renderable(spec_key_command()),
        spec_string_renderable(spec_key_parameters()),
{
}

proof fn lemma_tokens_strings_renderable(ps: Seq<Seq<u8>>)
    requires
        forall|i: int| 0 <= i < ps.len() ==> spec_string_renderable(#[trigger] ps[i]),
    ensures
        spec_tokens_renderable(spec_tokens_strings(ps)),
    decreases ps.len(),
{
    if ps.len() == 0 {
    } else if ps.len() == 1 {
        assert(spec_tokens_strings(ps) == seq![TokenView::Str(ps[0])]);
        assert forall|i: int| 0 <= i < 1 implies ((#[trigger] spec_tokens_strings(ps)[i])
            matches TokenView::Str(v) ==> spec_string_renderable(v)) by {
            assert(spec_tokens_strings(ps)[0] == TokenView::Str(ps[0]));
        }
    } else {
        assert forall|k: int| 0 <= k < ps.drop_first().len() implies spec_string_renderable(
            #[trigger] ps.drop_first()[k],
        ) by {
            assert(ps.drop_first()[k] == ps[k + 1]);
        }
        lemma_tokens_strings_renderable(ps.drop_first());
        let head = seq![TokenView::Str(ps[0]), TokenView::Comma];
        assert(spec_tokens_renderable(head)) by {
            assert forall|i: int| 0 <= i < head.len() implies ((#[trigger] head[i])
                matches TokenView::Str(v) ==> spec_string_renderable(v)) by {
                if i == 0 {
                    assert(head[0] == TokenView::Str(ps[0]));
                }
            }
        }
        lemma_tokens_renderable_concat(head, spec_tokens_strings(ps.drop_first()));
    }
}

proof fn lemma_tokens_command_renderable(c: CommandView)
    requires
        spec_command_renderable(c),
    ensures
        spec_tokens_renderable(spec_tokens_command(c)),
{
    lemma_keys_renderable();
    let head = seq![
        TokenView::LBrace,
        TokenView::Str(spec_key_module()),
        TokenView::Colon,
        TokenView::Str(c.module),
        TokenView::Comma,
        TokenView::Str(spec_key_command()),
        TokenView::Colon,
        TokenView::Str(c.command),
    ];
    assert(spec_tokens_renderable(head)) by {
        assert forall|i: int| 0 <= i < head.len() implies ((#[trigger] head[i])
            matches TokenView::Str(v) ==> spec_string_renderable(v)) by {
            assert(head[1] == TokenView::Str(spec_key_module()));
            assert(head[3] == TokenView::Str(c.module));
            assert(head[5] == TokenView::Str(spec_key_command()));
            assert(head[7] == TokenView::Str(c.command));
        }
    }
    match c.parameters {
        Option::None => {
            assert(spec_tokens_renderable(Seq::<TokenView>::empty()));
            lemma_tokens_renderable_concat(head, Seq::empty());
            assert(spec_tokens_renderable(seq![TokenView::RBrace]));
            lemma_tokens_renderable_concat(head + Seq::empty(), seq![TokenView::RBrace]);
        },
        Option::Some(ps) => {
            let mid = seq![
                TokenView::Comma,
                TokenView::Str(spec_key_parameters()),
                TokenView::Colon,
                TokenView::LBracket,
            ];
            assert(spec_tokens_renderable(mid)) by {
                assert forall|i: int| 0 <= i < mid.len() implies ((#[trigger] mid[i])
                    matches TokenView::Str(v) ==> spec_string_renderable(v)) by {
                    assert(mid[1] == TokenView::Str(spec_key_parameters()));
                }
            }
            lemma_tokens_strings_renderable(ps);
            lemma_tokens_renderable_concat(mid, spec_tokens_strings(ps));
            assert(spec_tokens_renderable(seq![TokenView::RBracket]));
            lemma_tokens_renderable_concat(
                mid + spec_tokens_strings(ps),
                seq![TokenView::RBracket],
            );
            lemma_tokens_renderable_concat(
                head,
                mid + spec_tokens_strings(ps) + seq![TokenView::RBracket],
            );
            assert(spec_tokens_renderable(seq![TokenView::RBrace]));
            lemma_tokens_renderable_concat(
                head + (mid + spec_tokens_strings(ps) + seq![TokenView::RBracket]),
                seq![TokenView::RBrace],
            );
        },
    }
}

proof fn lemma_tokens_serial_renderable(v: SerialView)
    requires
        spec_serial_renderable(v),
    ensures
        spec_tokens_renderable(spec_tokens_serial(v)),
    decreases v, 1int,
{
    match v {
        SerialView::Single(c) => {
            lemma_tokens_command_renderable(c);
        },
        SerialView::Multiple(children) => {
            lemma_tokens_parallel_list_renderable(children);
            assert(spec_tokens_renderable(seq![TokenView::LBracket]));
            lemma_tokens_renderable_concat(
                seq![TokenView::LBracket],
                spec_tokens_parallel_list(children),
            );
            assert(spec_tokens_renderable(seq![TokenView::RBracket]));
            lemma_tokens_renderable_concat(
                seq![TokenView::LBracket] + spec_tokens_parallel_list(children),
                seq![TokenView::RBracket],
            );
        },
    }
}

proof fn lemma_tokens_parallel_list_renderable(children: Seq<ParallelView>)
    requires
        forall|i: int|
            0 <= i < children.len() ==> spec_parallel_renderable(#[trigger] children[i]),
    ensures
        spec_tokens_renderable(spec_tokens_parallel_list(children)),
    decreases children, 2int,
{
    if children.len() == 0 {
    } else if children.len() == 1 {
        lemma_tokens_parallel_renderable(children[0]);
    } else {
        lemma_tokens_parallel_renderable(children[0]);
        assert forall|k: int| 0 <= k < children.drop_first().len() implies spec_parallel_renderable(
            #[trigger] children.drop_first()[k],
        ) by {
            assert(children.drop_first()[k] == children[k + 1]);
        }
        lemma_tokens_parallel_list_renderable(children.drop_first());
        assert(spec_tokens_renderable(seq![TokenView::Comma]));
        lemma_tokens_renderable_concat(
            spec_tokens_parallel(children[0]),
            seq![TokenView::Comma],
        );
        lemma_tokens_renderable_concat(
            spec_tokens_parallel(children[0]) + seq![TokenView::Comma],
            spec_tokens_parallel_list(children.drop_first()),
        );
    }
}

proof fn lemma_tokens_parallel_renderable(v: ParallelView)
    requires
        spec_parallel_renderable(v),
    ensures
        spec_tokens_renderable(spec_tokens_parallel(v)),
    decreases v, 1int,
{
    match v {
        ParallelView::Single(c) => {
            lemma_tokens_command_renderable(c);
        },
        ParallelView::Multiple(children) => {
            lemma_tokens_serial_list_renderable(children);
            assert(spec_tokens_renderable(seq![TokenView::LBracket]));
            lemma_tokens_renderable_concat(
                seq![TokenView::LBracket],
                spec_tokens_serial_list(children),
            );
            assert(spec_tokens_renderable(seq![TokenView::RBracket]));
            lemma_tokens_renderable_concat(
                seq![TokenView::LBracket] + spec_tokens_serial_list(children),
                seq![TokenView::RBracket],
            );
        },
    }
}

proof fn lemma_tokens_serial_list_renderable(children: Seq<SerialView>)
    requires
        forall|i: int|
            0 <= i < children.len() ==> spec_serial_renderable(#[trigger] children[i]),
    ensures
        spec_tokens_renderable(spec_tokens_serial_list(children)),
    decreases children, 2int,
{
    if children.len() == 0 {
    } else if children.len() == 1 {
        lemma_tokens_serial_renderable(children[0]);
    } else {
        lemma_tokens_serial_renderable(children[0]);
        assert forall|k: int| 0 <= k < children.drop_first().len() implies spec_serial_renderable(
            #[trigger] children.drop_first()[k],
        ) by {
            assert(children.drop_first()[k] == children[k + 1]);
        }
        lemma_tokens_serial_list_renderable(children.drop_first());
        assert(spec_tokens_renderable(seq![TokenView::Comma]));
        lemma_tokens_renderable_concat(
            spec_tokens_serial(children[0]),
            seq![TokenView::Comma],
        );
        lemma_tokens_renderable_concat(
            spec_tokens_serial(children[0]) + seq![TokenView::Comma],
            spec_tokens_serial_list(children.drop_first()),
        );
    }
}

/// Serializing a valid graph and parsing the text back yields the same
/// graph. The only graphs left out are those whose names or parameters
/// hold control bytes that have no short escape in the text form.
pub proof fn lemma_pipeline_round_trip(v: SerialView)
    requires
        crate::pipeline::spec_serial_valid(v),
        spec_serial_renderable(v),
    ensures
        spec_parse_pipeline(spec_serialize_pipeline(v)) == Option::Some(v),
{
    let ts = spec_tokens_serial(v);
    let s = spec_render(ts);
    lemma_tokens_serial_renderable(v);
    assert(s.subrange(0, s.len() as int) =~= s);
    lemma_lex_render(s, 0, ts);
    assert(ts.subrange(0, ts.len() as int) =~= ts);
    lemma_parse_serial_of_tokens(v, ts, 0);
}

proof fn lemma_tokens_serial_nonempty(v: SerialView)
    ensures
        spec_tokens_serial(v).len() > 0,
{
    match v {
        SerialView::Single(c) => {},
        SerialView::Multiple(_) => {},
    }
}

proof fn lemma_tokens_parallel_nonempty(v: ParallelView)
    ensures
        spec_tokens_parallel(v).len() > 0,
{
    match v {
        ParallelView::Single(c) => {},
        ParallelView::Multiple(_) => {},
    }
}

// ------------------------------------------------------------------
// A parsed graph is always valid.
// ------------------------------------------------------------------

pub proof fn lemma_parse_serial_valid(ts: Seq<TokenView>, i: int)
    requires
        0 <= i <= ts.len(),
    ensures
        spec_parse_serial(ts, i) matches Option::Some((v, _))
            ==> crate::pipeline::spec_serial_valid(v),
    decreases ts.len() - i, 1int,
{
    if i < ts.len() {
        match ts[i] {
            TokenView::LBrace => {},
            TokenView::LBracket => {
                lemma_parse_parallel_list_valid(ts, i + 1);
            },
            _ => {},
        }
    }
}

proof fn lemma_parse_parallel_list_valid(ts: Seq<TokenView>, i: int)
    requires
        0 <= i <= ts.len(),
    ensures
        spec_parse_parallel_list(ts, i) matches Option::Some((children, _)) ==> {
            &&& children.len() > 0
            &&& forall|k: int|
                0 <= k < children.len() ==> crate::pipeline::spec_parallel_valid(
                    #[trigger] children[k],
                )
        },
    decreases ts.len() - i, 2int,
{
    lemma_parse_parallel_valid(ts, i);
    match spec_parse_parallel(ts, i) {
        Option::None => {},
        Option::Some((v, j)) => {
            if i < j <= ts.len() {
                if j < ts.len() && ts[j] == TokenView::Comma {
                    lemma_parse_parallel_list_valid(ts, j + 1);
                    match spec_parse_parallel_list(ts, j + 1) {
                        Option::None => {},
                        Option::Some((rest, _)) => {
                            assert forall|k: int|
                                0 <= k < (seq![v] + rest).len() implies crate::pipeline::spec_parallel_valid(
                                #[trigger] (seq![v] + rest)[k],
                            ) by {
                                if k == 0 {
                                    assert((seq![v] + rest)[0] == v);
                                } else {
                                    assert((seq![v] + rest)[k] == rest[k - 1]);
                                }
                            }
                        },
                    }
                }
            }
        },
    }
}

proof fn lemma_parse_parallel_valid(ts: Seq<TokenView>, i: int)
    requires
        0 <= i <= ts.len(),
    ensures
        spec_parse_parallel(ts, i) matches Option::Some((v, _))
            ==> crate::pipeline::spec_parallel_valid(v),
    decreases ts.len() - i, 1int,
{
    if i < ts.len() {
        match ts[i] {
            TokenView::LBrace => {},
            TokenView::LBracket => {
                lemma_parse_serial_list_valid(ts, i + 1);
            },
            _ => {},
        }
    }
}

proof fn lemma_parse_serial_list_valid(ts: Seq<TokenView>, i: int)
    requires
        0 <= i <= ts.len(),
    ensures
        spec_parse_serial_list(ts, i) matches Option::Some((children, _)) ==> {
            &&& children.len() > 0
            &&& forall|k: int|
                0 <= k < children.len() ==> crate::pipeline::spec_serial_valid(
                    #[trigger] children[k],
                )
        },
    decreases ts.len() - i, 2int,
{
    lemma_parse_serial_valid(ts, i);
    match spec_parse_serial(ts, i) {
        Option::None => {},
        Option::Some((v, j)) => {
            if i < j <= ts.len() {
                if j < ts.len() && ts[j] == TokenView::Comma {
                    lemma_parse_serial_list_valid(ts, j + 1);
                    match spec_parse_serial_list(ts, j + 1) {
                        Option::None => {},
                        Option::Some((rest, _)) => {
                            assert forall|k: int|
                                0 <= k < (seq![v] + rest).len() implies crate::pipeline::spec_serial_valid(
                                #[trigger] (seq![v] + rest)[k],
                            ) by {
                                if k == 0 {
                                    assert((seq![v] + rest)[0] == v);
                                } else {
                                    assert((seq![v] + rest)[k] == rest[k - 1]);
                                }
                            }
                        },
                    }
                }
            }
        },
    }
}

// ------------------------------------------------------------------
// The executable lexer.
// ------------------------------------------------------------------

/// The views of a token list.
pub open spec fn spec_tokens_of(ts: Seq<Token>) -> Seq<TokenView> {
    Seq::new(ts.len(), |i: int| spec_token_view(ts[i]))
}

/// Appending a token appends its view.
pub broadcast proof fn lemma_tokens_of_push(ts: Seq<Token>, t: Token)
    ensures
        #[trigger] spec_tokens_of(ts.push(t)) == spec_tokens_of(ts).push(spec_token_view(t)),
{
    assert(spec_tokens_of(ts.push(t)) =~= spec_tokens_of(ts).push(spec_token_view(t)));
}

/// Scan an executable string body from just after the opening quote.
fn scan_string(s: &Vec<u8>, start: usize) -> (r: Option<(Vec<u8>, usize)>)
    requires
        start <= s@.len(),
    ensures
        match r {
            Option::Some((content, j)) => {
                &&& spec_scan_string(s@, start as int) == Option::Some(
                    (content@, j as int),
                )
                &&& start < j <= s@.len()
            },
            Option::None => spec_scan_string(s@, start as int) is None,
        },
{
    let mut out: Vec<u8> = Vec::new();
    let mut i: usize = start;
    proof {
        lemma_scan_string_advances(s@, start as int);
        match spec_scan_string(s@, start as int) {
            Option::Some((rest, _)) => {
                assert(out@ + rest =~= rest);
            },
            Option::None => {},
        }
    }
    loop
        invariant
            start <= i <= s@.len(),
            (match spec_scan_string(s@, i as int) {
                Option::Some((rest, j)) => spec_scan_string(s@, start as int)
                    == Option::Some((out@ + rest, j)) && i < j <= s@.len(),
                Option::None => spec_scan_string(s@, start as int) is None,
            }),
        decreases s@.len() - i,
    {
        if i >= s.len() {
            return Option::None;
        }
        let b = s[i];
        if b == 34 {
            proof {
                assert(out@ + Seq::<u8>::empty() =~= out@);
            }
            return Option::Some((out, i + 1));
        } else if b == 92 {
            if i + 1 >= s.len() {
                return Option::None;
            }
            let e = s[i + 1];
            let unescaped: u8 = if e == 34 {
                34u8
            } else if e == 92 {
                92u8
            } else if e == 47 {
                47u8
            } else if e == 110 {
                10u8
            } else if e == 114 {
                13u8
            } else if e == 116 {
                9u8
            } else if e == 98 {
                8u8
            } else if e == 102 {
                12u8
            } else {
                return Option::None;
            };
            proof {
                assert(spec_unescape(s@[i + 1]) == Option::Some(unescaped));
                lemma_scan_string_advances(s@, i + 2);
                match spec_scan_string(s@, i + 2) {
                    Option::Some((rest2, j2)) => {
                        assert(out@ + (seq![unescaped] + rest2) =~= out@.push(unescaped)
                            + rest2);
                    },
                    Option::None => {},
                }
            }
            out.push(unescaped);
            i = i + 2;
        } else if b < 32 {
            return Option::None;
        } else {
            proof {
                lemma_scan_string_advances(s@, i + 1);
                match spec_scan_string(s@, i + 1) {
                    Option::Some((rest2, j2)) => {
                        assert(out@ + (seq![s@[i as int]] + rest2) =~= out@.push(
                            s@[i as int],
                        ) + rest2);
                    },
                    Option::None => {},
                }
            }
            out.push(b);
            i = i + 1;
        }
    }
}

/// Lex the whole text.
fn lex(s: &Vec<u8>) -> (r: Option<Vec<Token>>)
    ensures
        match r {
            Option::Some(ts) => spec_lex(s@, 0) == Option::Some(spec_tokens_of(ts@)),
            Option::None => spec_lex(s@, 0) is None,
        },
{
    broadcast use lemma_tokens_of_push;

    let mut out: Vec<Token> = Vec::new();
    let mut i: usize = 0;
    loop
        invariant
            0 <= i <= s@.len(),
            (match spec_lex(s@, i as int) {
                Option::Some(rest) => spec_lex(s@, 0) == Option::Some(
                    spec_tokens_of(out@) + rest,
                ),
                Option::None => spec_lex(s@, 0) is None,
            }),
        decreases s@.len() - i,
    {
        if i >= s.len() {
            proof {
                assert(spec_tokens_of(out@) + Seq::<TokenView>::empty() =~= spec_tokens_of(
                    out@,
                ));
            }
            return Option::Some(out);
        }
        let b = s[i];
        if b == 32 || b == 9 || b == 10 || b == 13 {
            i = i + 1;
            continue;
        }
        let ghost prev = out@;
        let next_i: usize;
        if b == 91 {
            out.push(Token::LBracket);
            next_i = i + 1;
        } else if b == 93 {
            out.push(Token::RBracket);
            next_i = i + 1;
        } else if b == 123 {
            out.push(Token::LBrace);
            next_i = i + 1;
        } else if b == 125 {
            out.push(Token::RBrace);
            next_i = i + 1;
        } else if b == 58 {
            out.push(Token::Colon);
            next_i = i + 1;
        } else if b == 44 {
            out.push(Token::Comma);
            next_i = i + 1;
        } else if b == 34 {
            match scan_string(s, i + 1) {
                Option::None => {
                    return Option::None;
                },
                Option::Some((content, j)) => {
                    out.push(Token::Str(content));
                    next_i = j;
                },
            }
        } else {
            return Option::None;
        }
        proof {
            let t = (spec_next_token(s@, i as int)->0).0;
            assert(spec_tokens_of(out@) =~= spec_tokens_of(prev).push(t));
            match spec_lex(s@, next_i as int) {
                Option::Some(rest2) => {
                    assert(spec_tokens_of(prev) + (seq![t] + rest2) =~= spec_tokens_of(out@)
                        + rest2);
                },
                Option::None => {},
            }
        }
        i = next_i;
    }
}

// ------------------------------------------------------------------
// The executable parser.
// ------------------------------------------------------------------

fn key_module() -> (r: Vec<u8>)
    ensures
        r@ =~= spec_key_module(),
{
    let mut k: Vec<u8> = Vec::new();
    k.push(109);
    k.push(111);
    k.push(100);
    k.push(117);
    k.push(108);
    k.push(101);
    k
}

fn key_command() -> (r: Vec<u8>)
    ensures
        r@ =~= spec_key_command(),
{
    let mut k: Vec<u8> = Vec::new();
    k.push(99);
    k.push(111);
    k.push(109);
    k.push(109);
    k.push(97);
    k.push(110);
    k.push(100);
    k
}

fn key_parameters() -> (r: Vec<u8>)
    ensures
        r@ =~= spec_key_parameters(),
{
    let mut k: Vec<u8> = Vec::new();
    k.push(112);
    k.push(97);
    k.push(114);
    k.push(97);
    k.push(109);
    k.push(101);
    k.push(116);
    k.push(101);
    k.push(114);
    k.push(115);
    k
}

/// Is this token a string with exactly these bytes?
fn token_is_str(t: &Token, key: &Vec<u8>) -> (r: bool)
    ensures
        r <==> spec_token_view(*t) == TokenView::Str(key@),
{
    match t {
        Token::Str(v) => crate::bytes::bytes_eq(v, key),
        _ => false,
    }
}

fn token_str_content(t: &Token) -> (r: Option<&Vec<u8>>)
    ensures
        match r {
            Option::Some(v) => spec_token_view(*t) == TokenView::Str(v@),
            Option::None => !(spec_token_view(*t) matches TokenView::Str(_)),
        },
{
    match t {
        Token::Str(v) => Option::Some(v),
        _ => Option::None,
    }
}

fn parse_command_at(ts: &Vec<Token>, i: usize) -> (r: Option<(PipelineCommand, usize)>)
    requires
        i <= ts@.len(),
    ensures
        match r {
            Option::Some((c, j)) => {
                &&& spec_parse_command(spec_tokens_of(ts@), i as int) == Option::Some(
                    (crate::pipeline::spec_command_view(c), j as int),
                )
                &&& i < j <= ts@.len()
            },
            Option::None => spec_parse_command(spec_tokens_of(ts@), i as int) is None,
        },
{
    let ghost views = spec_tokens_of(ts@);
    if ts.len() - i < 8 {
        return Option::None;
    }
    let km = key_module();
    let kc = key_command();
    let kp = key_parameters();
    proof {
        assert(views[i as int] == spec_token_view(ts@[i as int]));
        assert(views[i + 1] == spec_token_view(ts@[i + 1]));
        assert(views[i + 2] == spec_token_view(ts@[i + 2]));
        assert(views[i + 3] == spec_token_view(ts@[i + 3]));
        assert(views[i + 4] == spec_token_view(ts@[i + 4]));
        assert(views[i + 5] == spec_token_view(ts@[i + 5]));
        assert(views[i + 6] == spec_token_view(ts@[i + 6]));
        assert(views[i + 7] == spec_token_view(ts@[i + 7]));
    }
    let shape_ok = matches!(&ts[i], Token::LBrace) && token_is_str(&ts[i + 1], &km)
        && matches!(&ts[i + 2], Token::Colon) && matches!(&ts[i + 4], Token::Comma)
        && token_is_str(&ts[i + 5], &kc) && matches!(&ts[i + 6], Token::Colon);
    if !shape_ok {
        return Option::None;
    }
    let m: Vec<u8> = match token_str_content(&ts[i + 3]) {
        Option::Some(v) => clone_bytes(v),
        Option::None => {
            return Option::None;
        },
    };
    let c: Vec<u8> = match token_str_content(&ts[i + 7]) {
        Option::Some(v) => clone_bytes(v),
        Option::None => {
            return Option::None;
        },
    };
    if m.len() == 0 || c.len() == 0 {
        return Option::None;
    }
    if ts.len() - i > 8 && matches!(&ts[i + 8], Token::RBrace) {
        proof {
            assert(views[i + 8] == spec_token_view(ts@[i + 8]));
        }
        return Option::Some(
            (PipelineCommand { module: m, command: c, parameters: Option::None }, i + 9),
        );
    }
    if ts.len() - i >= 12 && matches!(&ts[i + 8], Token::Comma) && token_is_str(
        &ts[i + 9],
        &kp,
    ) && matches!(&ts[i + 10], Token::Colon) && matches!(&ts[i + 11], Token::LBracket) {
        proof {
            assert(views[i + 8] == spec_token_view(ts@[i + 8]));
            assert(views[i + 9] == spec_token_view(ts@[i + 9]));
            assert(views[i + 10] == spec_token_view(ts@[i + 10]));
            assert(views[i + 11] == spec_token_view(ts@[i + 11]));
        }
        match parse_strings_at(ts, i + 12) {
            Option::None => {
                return Option::None;
            },
            Option::Some((ps, j)) => {
                if j < ts.len() && matches!(&ts[j], Token::RBrace) {
                    proof {
                        assert(views[j as int] == spec_token_view(ts@[j as int]));
                        assert(ps.deep_view() == (spec_parse_strings(views, i + 12)->0).0);
                    }
                    return Option::Some(
                        (
                            PipelineCommand {
                                module: m,
                                command: c,
                                parameters: Option::Some(ps),
                            },
                            j + 1,
                        ),
                    );
                }
                proof {
                    if (j as int) < ts@.len() {
                        assert(views[j as int] == spec_token_view(ts@[j as int]));
                    }
                }
                return Option::None;
            },
        }
    }
    proof {
        if i + 8 < ts@.len() {
            assert(views[i + 8] == spec_token_view(ts@[i + 8]));
        }
        if i + 9 < ts@.len() {
            assert(views[i + 9] == spec_token_view(ts@[i + 9]));
        }
        if i + 10 < ts@.len() {
            assert(views[i + 10] == spec_token_view(ts@[i + 10]));
        }
        if i + 11 < ts@.len() {
            assert(views[i + 11] == spec_token_view(ts@[i + 11]));
        }
    }
    Option::None
}

fn parse_strings_at(ts: &Vec<Token>, i: usize) -> (r: Option<(Vec<Vec<u8>>, usize)>)
    requires
        i <= ts@.len(),
    ensures
        match r {
            Option::Some((ps, j)) => {
                &&& spec_parse_strings(spec_tokens_of(ts@), i as int) == Option::Some(
                    (ps.deep_view(), j as int),
                )
                &&& i < j <= ts@.len()
            },
            Option::None => spec_parse_strings(spec_tokens_of(ts@), i as int) is None,
        },
{
    let ghost views = spec_tokens_of(ts@);
    if i >= ts.len() {
        return Option::None;
    }
    proof {
        assert(views[i as int] == spec_token_view(ts@[i as int]));
    }
    if matches!(&ts[i], Token::RBracket) {
        let empty: Vec<Vec<u8>> = Vec::new();
        proof {
            assert(empty.deep_view() =~= Seq::<Seq<u8>>::empty());
        }
        return Option::Some((empty, i + 1));
    }
    let first: Vec<u8> = match token_str_content(&ts[i]) {
        Option::Some(v) => clone_bytes(v),
        Option::None => {
            return Option::None;
        },
    };
    let mut acc: Vec<Vec<u8>> = Vec::new();
    acc.push(first);
    let mut k: usize = i + 1;
    proof {
        assert(acc.deep_view() =~= seq![views[i as int]->Str_0]);
    }
    loop
        invariant
            i < k <= ts@.len() || k == i + 1,
            k <= ts@.len(),
            views == spec_tokens_of(ts@),
            views.len() == ts@.len(),
            spec_parse_strings(views, i as int) == spec_parse_strings_tail(
                views,
                k as int,
                acc.deep_view(),
            ),
        decreases ts@.len() - k,
    {
        if k >= ts.len() {
            return Option::None;
        }
        proof {
            assert(views[k as int] == spec_token_view(ts@[k as int]));
        }
        if matches!(&ts[k], Token::RBracket) {
            return Option::Some((acc, k + 1));
        }
        if !matches!(&ts[k], Token::Comma) {
            return Option::None;
        }
        if k + 1 >= ts.len() {
            return Option::None;
        }
        proof {
            assert(views[k + 1] == spec_token_view(ts@[k + 1]));
        }
        let w: Vec<u8> = match token_str_content(&ts[k + 1]) {
            Option::Some(v) => clone_bytes(v),
            Option::None => {
                return Option::None;
            },
        };
        let ghost prev = acc.deep_view();
        acc.push(w);
        proof {
            assert(acc.deep_view() =~= prev.push(views[k + 1]->Str_0));
        }
        k = k + 2;
    }
}

fn parse_serial_at(ts: &Vec<Token>, i: usize) -> (r: Option<(PipelineNodeSerial, usize)>)
    requires
        i <= ts@.len(),
    ensures
        match r {
            Option::Some((node, j)) => {
                &&& spec_parse_serial(spec_tokens_of(ts@), i as int) == Option::Some(
                    (crate::pipeline::spec_serial_view(node), j as int),
                )
                &&& i < j <= ts@.len()
            },
            Option::None => spec_parse_serial(spec_tokens_of(ts@), i as int) is None,
        },
    decreases ts@.len() - i, 1int,
{
    let ghost views = spec_tokens_of(ts@);
    if i >= ts.len() {
        return Option::None;
    }
    proof {
        assert(views[i as int] == spec_token_view(ts@[i as int]));
    }
    match &ts[i] {
        Token::LBrace => match parse_command_at(ts, i) {
            Option::None => Option::None,
            Option::Some((c, j)) => Option::Some((PipelineNodeSerial::SerialSingle(c), j)),
        },
        Token::LBracket => match parse_parallel_list_at(ts, i + 1) {
            Option::None => Option::None,
            Option::Some((children, j)) => {
                proof {
                    crate::pipeline::lemma_parallel_views_len(children@);
                    assert(crate::pipeline::spec_parallel_views(children@)
                        =~= (spec_parse_parallel_list(views, i + 1)->0).0);
                }
                Option::Some((PipelineNodeSerial::SerialMultiple(children), j))
            },
        },
        _ => Option::None,
    }
}

fn parse_parallel_list_at(ts: &Vec<Token>, i: usize) -> (r: Option<
    (Vec<PipelineNodeParallel>, usize),
>)
    requires
        i <= ts@.len(),
    ensures
        match r {
            Option::Some((children, j)) => {
                &&& spec_parse_parallel_list(spec_tokens_of(ts@), i as int) == Option::Some(
                    (crate::pipeline::spec_parallel_views(children@), j as int),
                )
                &&& i < j <= ts@.len()
            },
            Option::None => spec_parse_parallel_list(spec_tokens_of(ts@), i as int) is None,
        },
    decreases ts@.len() - i, 2int,
{
    let ghost views = spec_tokens_of(ts@);
    let first = match parse_parallel_at(ts, i) {
        Option::None => {
            return Option::None;
        },
        Option::Some(x) => x,
    };
    let (v, j) = first;
    if j < ts.len() {
        proof {
            assert(views[j as int] == spec_token_view(ts@[j as int]));
        }
        if matches!(&ts[j], Token::Comma) {
            match parse_parallel_list_at(ts, j + 1) {
                Option::None => {
                    return Option::None;
                },
                Option::Some((rest, k)) => {
                    let mut children: Vec<PipelineNodeParallel> = Vec::new();
                    children.push(v);
                    let mut rest = rest;
                    let ghost rest0 = rest@;
                    let rest_len = rest.len();
                    proof {
                        assert(rest0.len() == rest_len);
                    }
                    let mut n: usize = 0;
                    while rest.len() > 0
                        invariant
                            n + rest@.len() == rest0.len(),
                            rest@ =~= rest0.skip(n as int),
                            children@ =~= seq![first.0].add(rest0.take(n as int)),
                            rest0.len() <= usize::MAX,
                        decreases rest@.len(),
                    {
                        let x = rest.remove(0);
                        proof {
                            assert(x == rest0[n as int]);
                        }
                        children.push(x);
                        n = n + 1;
                        proof {
                            assert(rest@ =~= rest0.skip(n as int));
                            assert(children@ =~= seq![first.0].add(rest0.take(n as int)));
                        }
                    }
                    proof {
                        assert(rest0.take(rest0.len() as int) =~= rest0);
                        assert(children@ =~= seq![first.0] + rest0);
                        crate::pipeline::lemma_parallel_views_len(children@);
                        assert(crate::pipeline::spec_parallel_views(children@)
                            =~= seq![crate::pipeline::spec_parallel_view(first.0)]
                            + crate::pipeline::spec_parallel_views(rest0)) by {
                            lemma_parallel_views_cons(first.0, rest0);
                        }
                    }
                    return Option::Some((children, k));
                },
            }
        } else if matches!(&ts[j], Token::RBracket) {
            let mut children: Vec<PipelineNodeParallel> = Vec::new();
            children.push(v);
            proof {
                lemma_parallel_views_cons(first.0, Seq::empty());
                assert(children@ =~= seq![first.0] + Seq::<PipelineNodeParallel>::empty());
                assert(crate::pipeline::spec_parallel_views(children@)
                    =~= seq![crate::pipeline::spec_parallel_view(first.0)]);
            }
            return Option::Some((children, j + 1));
        } else {
            return Option::None;
        }
    }
    Option::None
}

fn parse_parallel_at(ts: &Vec<Token>, i: usize) -> (r: Option<(PipelineNodeParallel, usize)>)
    requires
        i <= ts@.len(),
    ensures
        match r {
            Option::Some((node, j)) => {
                &&& spec_parse_parallel(spec_tokens_of(ts@), i as int) == Option::Some(
                    (crate::pipeline::spec_parallel_view(node), j as int),
                )
                &&& i < j <= ts@.len()
            },
            Option::None => spec_parse_parallel(spec_tokens_of(ts@), i as int) is None,
        },
    decreases ts@.len() - i, 1int,
{
    let ghost views = spec_tokens_of(ts@);
    if i >= ts.len() {
        return Option::None;
    }
    proof {
        assert(views[i as int] == spec_token_view(ts@[i as int]));
    }
    match &ts[i] {
        Token::LBrace => match parse_command_at(ts, i) {
            Option::None => Option::None,
            Option::Some((c, j)) => Option::Some((PipelineNodeParallel::ParallelSingle(c), j)),
        },
        Token::LBracket => match parse_serial_list_at(ts, i + 1) {
            Option::None => Option::None,
            Option::Some((children, j)) => {
                proof {
                    crate::pipeline::lemma_serial_views_len(children@);
                    assert(crate::pipeline::spec_serial_views(children@)
                        =~= (spec_parse_serial_list(views, i + 1)->0).0);
                }
                Option::Some((PipelineNodeParallel::ParallelMultiple(children), j))
            },
        },
        _ => Option::None,
    }
}

fn parse_serial_list_at(ts: &Vec<Token>, i: usize) -> (r: Option<
    (Vec<PipelineNodeSerial>, usize),
>)
    requires
        i <= ts@.len(),
    ensures
        match r {
            Option::Some((children, j)) => {
                &&& spec_parse_serial_list(spec_tokens_of(ts@), i as int) == Option::Some(
                    (crate::pipeline::spec_serial_views(children@), j as int),
                )
                &&& i < j <= ts@.len()
            },
            Option::None => spec_parse_serial_list(spec_tokens_of(ts@), i as int) is None,
        },
    decreases ts@.len() - i, 2int,
{
    let ghost views = spec_tokens_of(ts@);
    let first = match parse_serial_at(ts, i) {
        Option::None => {
            return Option::None;
        },
        Option::Some(x) => x,
    };
    let (v, j) = first;
    if j < ts.len() {
        proof {
            assert(views[j as int] == spec_token_view(ts@[j as int]));
        }
        if matches!(&ts[j], Token::Comma) {
            match parse_serial_list_at(ts, j + 1) {
                Option::None => {
                    return Option::None;
                },
                Option::Some((rest, k)) => {
                    let mut children: Vec<PipelineNodeSerial> = Vec::new();
                    children.push(v);
                    let mut rest = rest;
                    let ghost rest0 = rest@;
                    let rest_len = rest.len();
                    proof {
                        assert(rest0.len() == rest_len);
                    }
                    let mut n: usize = 0;
                    while rest.len() > 0
                        invariant
                            n + rest@.len() == rest0.len(),
                            rest@ =~= rest0.skip(n as int),
                            children@ =~= seq![first.0].add(rest0.take(n as int)),
                            rest0.len() <= usize::MAX,
                        decreases rest@.len(),
                    {
                        let x = rest.remove(0);
                        proof {
                            assert(x == rest0[n as int]);
                        }
                        children.push(x);
                        n = n + 1;
                        proof {
                            assert(rest@ =~= rest0.skip(n as int));
                            assert(children@ =~= seq![first.0].add(rest0.take(n as int)));
                        }
                    }
                    proof {
                        assert(rest0.take(rest0.len() as int) =~= rest0);
                        assert(children@ =~= seq![first.0] + rest0);
                        crate::pipeline::lemma_serial_views_len(children@);
                        assert(crate::pipeline::spec_serial_views(children@)
                            =~= seq![crate::pipeline::spec_serial_view(first.0)]
                            + crate::pipeline::spec_serial_views(rest0)) by {
                            lemma_serial_views_cons(first.0, rest0);
                        }
                    }
                    return Option::Some((children, k));
                },
            }
        } else if matches!(&ts[j], Token::RBracket) {
            let mut children: Vec<PipelineNodeSerial> = Vec::new();
            children.push(v);
            proof {
                lemma_serial_views_cons(first.0, Seq::empty());
                assert(children@ =~= seq![first.0] + Seq::<PipelineNodeSerial>::empty());
                assert(crate::pipeline::spec_serial_views(children@)
                    =~= seq![crate::pipeline::spec_serial_view(first.0)]);
            }
            return Option::Some((children, j + 1));
        } else {
            return Option::None;
        }
    }
    Option::None
}

proof fn lemma_parallel_views_cons(head: PipelineNodeParallel, rest: Seq<PipelineNodeParallel>)
    ensures
        crate::pipeline::spec_parallel_views(seq![head] + rest)
            == seq![crate::pipeline::spec_parallel_view(head)]
            + crate::pipeline::spec_parallel_views(rest),
{
    let s = seq![head] + rest;
    assert(s.len() > 0);
    assert(s[0] == head);
    assert(s.drop_first() =~= rest);
}

proof fn lemma_serial_views_cons(head: PipelineNodeSerial, rest: Seq<PipelineNodeSerial>)
    ensures
        crate::pipeline::spec_serial_views(seq![head] + rest)
            == seq![crate::pipeline::spec_serial_view(head)]
            + crate::pipeline::spec_serial_views(rest),
{
    let s = seq![head] + rest;
    assert(s.len() > 0);
    assert(s[0] == head);
    assert(s.drop_first() =~= rest);
}

// ------------------------------------------------------------------
// The executable serializer.
// ------------------------------------------------------------------

fn emit_command(c: &PipelineCommand, out: &mut Vec<Token>)
    ensures
        spec_tokens_of(final(out)@) =~= spec_tokens_of(old(out)@) + spec_tokens_command(
            crate::pipeline::spec_command_view(*c),
        ),
{
    broadcast use lemma_tokens_of_push;

    let ghost cv = crate::pipeline::spec_command_view(*c);
    out.push(Token::LBrace);
    out.push(Token::Str(key_module()));
    out.push(Token::Colon);
    out.push(Token::Str(clone_bytes(&c.module)));
    out.push(Token::Comma);
    out.push(Token::Str(key_command()));
    out.push(Token::Colon);
    out.push(Token::Str(clone_bytes(&c.command)));
    match &c.parameters {
        Option::None => {},
        Option::Some(ps) => {
            out.push(Token::Comma);
            out.push(Token::Str(key_parameters()));
            out.push(Token::Colon);
            out.push(Token::LBracket);
            let ghost before = spec_tokens_of(out@);
            let mut k: usize = 0;
            proof {
                assert(ps.deep_view().skip(0) =~= ps.deep_view());
                assert(before + Seq::<TokenView>::empty() =~= before);
            }
            while k < ps.len()
                invariant
                    0 <= k <= ps@.len(),
                    ps.deep_view().len() == ps@.len(),
                    spec_tokens_of(out@) + spec_tokens_strings(ps.deep_view().skip(k as int))
                        =~= before + spec_tokens_strings(ps.deep_view()),
                decreases ps@.len() - k,
            {
                let ghost prev = spec_tokens_of(out@);
                let ghost remaining = ps.deep_view().skip(k as int);
                proof {
                    assert(remaining[0] == ps.deep_view()[k as int]);
                    assert(remaining.drop_first() =~= ps.deep_view().skip(k + 1));
                    assert(ps.deep_view()[k as int] == ps@[k as int]@);
                }
                out.push(Token::Str(clone_bytes(&ps[k])));
                proof {
                    assert(spec_tokens_of(out@) =~= prev.push(
                        TokenView::Str(ps.deep_view()[k as int]),
                    ));
                }
                if k + 1 < ps.len() {
                    let ghost prev2 = spec_tokens_of(out@);
                    out.push(Token::Comma);
                    proof {
                        assert(spec_tokens_of(out@) =~= prev2.push(TokenView::Comma));
                        assert(remaining.len() >= 2);
                        assert(spec_tokens_strings(remaining) == seq![
                            TokenView::Str(remaining[0]),
                            TokenView::Comma,
                        ] + spec_tokens_strings(remaining.drop_first()));
                        assert(prev + (seq![
                            TokenView::Str(remaining[0]),
                            TokenView::Comma,
                        ] + spec_tokens_strings(remaining.drop_first())) =~= spec_tokens_of(
                            out@,
                        ) + spec_tokens_strings(ps.deep_view().skip(k + 1)));
                    }
                } else {
                    proof {
                        assert(remaining.len() == 1);
                        assert(spec_tokens_strings(remaining) == seq![
                            TokenView::Str(remaining[0]),
                        ]);
                        assert(ps.deep_view().skip(k + 1) =~= Seq::<Seq<u8>>::empty());
                        assert(prev + seq![TokenView::Str(remaining[0])] =~= spec_tokens_of(
                            out@,
                        ) + Seq::<TokenView>::empty());
                    }
                }
                k = k + 1;
            }
            proof {
                assert(ps.deep_view().skip(ps@.len() as int) =~= Seq::<Seq<u8>>::empty());
                assert(spec_tokens_of(out@) =~= before + spec_tokens_strings(ps.deep_view()));
            }
            out.push(Token::RBracket);
        },
    }
    out.push(Token::RBrace);
    proof {
        assert(spec_tokens_of(out@) =~= spec_tokens_of(old(out)@) + spec_tokens_command(cv));
    }
}

fn emit_serial(n: &PipelineNodeSerial, out: &mut Vec<Token>)
    ensures
        spec_tokens_of(final(out)@) =~= spec_tokens_of(old(out)@) + spec_tokens_serial(
            crate::pipeline::spec_serial_view(*n),
        ),
    decreases crate::pipeline::spec_serial_height(*n), 0int,
{
    broadcast use lemma_tokens_of_push;

    match n {
        PipelineNodeSerial::SerialSingle(c) => {
            emit_command(c, out);
        },
        PipelineNodeSerial::SerialMultiple(nodes) => {
            out.push(Token::LBracket);
            let ghost mid = spec_tokens_of(out@);
            if nodes.len() > 0 {
                emit_parallel_slice(nodes, 0, out);
            }
            proof {
                crate::pipeline::lemma_parallel_views_len(nodes@);
                assert(crate::pipeline::spec_parallel_views(nodes@).skip(0)
                    =~= crate::pipeline::spec_parallel_views(nodes@));
            }
            let ghost before_close = spec_tokens_of(out@);
            out.push(Token::RBracket);
            proof {
                assert(spec_tokens_of(out@) =~= before_close.push(TokenView::RBracket));
                assert(spec_tokens_of(out@) =~= spec_tokens_of(old(out)@) + (seq![
                    TokenView::LBracket,
                ] + spec_tokens_parallel_list(crate::pipeline::spec_parallel_views(nodes@))
                    + seq![TokenView::RBracket]));
            }
        },
    }
}

fn emit_parallel_slice(nodes: &Vec<PipelineNodeParallel>, idx: usize, out: &mut Vec<Token>)
    requires
        idx < nodes@.len(),
    ensures
        spec_tokens_of(final(out)@) =~= spec_tokens_of(old(out)@)
            + spec_tokens_parallel_list(
            crate::pipeline::spec_parallel_views(nodes@).skip(idx as int),
        ),
    decreases crate::pipeline::spec_parallel_list_height(nodes@), nodes@.len() - idx,
{
    broadcast use lemma_tokens_of_push;

    let ghost views = crate::pipeline::spec_parallel_views(nodes@);
    proof {
        crate::pipeline::lemma_parallel_views_len(nodes@);
        crate::pipeline::lemma_parallel_views_index(nodes@, idx as int);
        crate::pipeline::lemma_parallel_height_index(nodes@, idx as int);
        assert(views.skip(idx as int)[0] == views[idx as int]);
        assert(views.skip(idx as int).drop_first() =~= views.skip(idx + 1));
    }
    emit_parallel(&nodes[idx], out);
    if nodes.len() - idx > 1 {
        let ghost prev = spec_tokens_of(out@);
        out.push(Token::Comma);
        proof {
            assert(spec_tokens_of(out@) =~= prev.push(TokenView::Comma));
        }
        emit_parallel_slice(nodes, idx + 1, out);
        proof {
            assert(views.skip(idx as int).len() >= 2);
            assert(spec_tokens_parallel_list(views.skip(idx as int))
                == spec_tokens_parallel(views[idx as int]) + seq![TokenView::Comma]
                + spec_tokens_parallel_list(views.skip(idx + 1)));
            assert(spec_tokens_of(out@) =~= spec_tokens_of(old(out)@)
                + spec_tokens_parallel_list(views.skip(idx as int)));
        }
    } else {
        proof {
            assert(views.skip(idx as int).len() == 1);
            assert(spec_tokens_parallel_list(views.skip(idx as int)) == spec_tokens_parallel(
                views[idx as int],
            ));
        }
    }
}

fn emit_parallel(n: &PipelineNodeParallel, out: &mut Vec<Token>)
    ensures
        spec_tokens_of(final(out)@) =~= spec_tokens_of(old(out)@) + spec_tokens_parallel(
            crate::pipeline::spec_parallel_view(*n),
        ),
    decreases crate::pipeline::spec_parallel_height(*n), 0int,
{
    broadcast use lemma_tokens_of_push;

    match n {
        PipelineNodeParallel::ParallelSingle(c) => {
            emit_command(c, out);
        },
        PipelineNodeParallel::ParallelMultiple(nodes) => {
            out.push(Token::LBracket);
            if nodes.len() > 0 {
                emit_serial_slice(nodes, 0, out);
            }
            proof {
                crate::pipeline::lemma_serial_views_len(nodes@);
                assert(crate::pipeline::spec_serial_views(nodes@).skip(0)
                    =~= crate::pipeline::spec_serial_views(nodes@));
            }
            let ghost before_close = spec_tokens_of(out@);
            out.push(Token::RBracket);
            proof {
                assert(spec_tokens_of(out@) =~= before_close.push(TokenView::RBracket));
                assert(spec_tokens_of(out@) =~= spec_tokens_of(old(out)@) + (seq![
                    TokenView::LBracket,
                ] + spec_tokens_serial_list(crate::pipeline::spec_serial_views(nodes@))
                    + seq![TokenView::RBracket]));
            }
        },
    }
}

fn emit_serial_slice(nodes: &Vec<PipelineNodeSerial>, idx: usize, out: &mut Vec<Token>)
    requires
        idx < nodes@.len(),
    ensures
        spec_tokens_of(final(out)@) =~= spec_tokens_of(old(out)@) + spec_tokens_serial_list(
            crate::pipeline::spec_serial_views(nodes@).skip(idx as int),
        ),
    decreases crate::pipeline::spec_serial_list_height(nodes@), nodes@.len() - idx,
{
    broadcast use lemma_tokens_of_push;

    let ghost views = crate::pipeline::spec_serial_views(nodes@);
    proof {
        crate::pipeline::lemma_serial_views_len(nodes@);
        crate::pipeline::lemma_serial_views_index(nodes@, idx as int);
        crate::pipeline::lemma_serial_height_index(nodes@, idx as int);
        assert(views.skip(idx as int)[0] == views[idx as int]);
        assert(views.skip(idx as int).drop_first() =~= views.skip(idx + 1));
    }
    emit_serial(&nodes[idx], out);
    if nodes.len() - idx > 1 {
        let ghost prev = spec_tokens_of(out@);
        out.push(Token::Comma);
        proof {
            assert(spec_tokens_of(out@) =~= prev.push(TokenView::Comma));
        }
        emit_serial_slice(nodes, idx + 1, out);
        proof {
            assert(views.skip(idx as int).len() >= 2);
            assert(spec_tokens_serial_list(views.skip(idx as int)) == spec_tokens_serial(
                views[idx as int],
            ) + seq![TokenView::Comma] + spec_tokens_serial_list(views.skip(idx + 1)));
            assert(spec_tokens_of(out@) =~= spec_tokens_of(old(out)@)
                + spec_tokens_serial_list(views.skip(idx as int)));
        }
    } else {
        proof {
            assert(views.skip(idx as int).len() == 1);
            assert(spec_tokens_serial_list(views.skip(idx as int)) == spec_tokens_serial(
                views[idx as int],
            ));
        }
    }
}

/// Append the escaped form of `v`.
fn escape_into(v: &Vec<u8>, out: &mut Vec<u8>)
    ensures
        final(out)@ =~= old(out)@ + spec_escape(v@),
{
    let mut i: usize = 0;
    proof {
        assert(v@.skip(0) =~= v@);
        assert(old(out)@ + Seq::<u8>::empty() =~= old(out)@);
    }
    while i < v.len()
        invariant
            0 <= i <= v@.len(),
            out@ + spec_escape(v@.skip(i as int)) =~= old(out)@ + spec_escape(v@),
        decreases v@.len() - i,
    {
        let ghost remaining = v@.skip(i as int);
        proof {
            assert(remaining[0] == v@[i as int]);
            assert(remaining.drop_first() =~= v@.skip(i + 1));
            assert(spec_escape(remaining) == spec_escape_byte(v@[i as int]) + spec_escape(
                v@.skip(i + 1),
            ));
        }
        let ghost prev = out@;
        let b = v[i];
        if b == 34 {
            out.push(92);
            out.push(34);
        } else if b == 92 {
            out.push(92);
            out.push(92);
        } else if b == 10 {
            out.push(92);
            out.push(110);
        } else if b == 13 {
            out.push(92);
            out.push(114);
        } else if b == 9 {
            out.push(92);
            out.push(116);
        } else if b == 8 {
            out.push(92);
            out.push(98);
        } else if b == 12 {
            out.push(92);
            out.push(102);
        } else {
            out.push(b);
        }
        proof {
            assert(out@ =~= prev + spec_escape_byte(v@[i as int]));
        }
        i = i + 1;
    }
    proof {
        assert(v@.skip(v@.len() as int) =~= Seq::<u8>::empty());
        assert(out@ + Seq::<u8>::empty() =~= out@);
    }
}

/// Append the text of one token.
fn render_token_into(t: &Token, out: &mut Vec<u8>)
    ensures
        final(out)@ =~= old(out)@ + spec_render_token(spec_token_view(*t)),
{
    match t {
        Token::LBracket => {
            out.push(91);
        },
        Token::RBracket => {
            out.push(93);
        },
        Token::LBrace => {
            out.push(123);
        },
        Token::RBrace => {
            out.push(125);
        },
        Token::Colon => {
            out.push(58);
        },
        Token::Comma => {
            out.push(44);
        },
        Token::Str(v) => {
            out.push(34);
            escape_into(v, out);
            out.push(34);
            proof {
                assert(out@ =~= old(out)@ + (seq![34u8] + spec_escape(v@) + seq![34u8]));
            }
        },
    }
}

fn render_tokens(ts: &Vec<Token>) -> (r: Vec<u8>)
    ensures
        r@ =~= spec_render(spec_tokens_of(ts@)),
{
    let ghost views = spec_tokens_of(ts@);
    let mut out: Vec<u8> = Vec::new();
    let mut i: usize = 0;
    proof {
        assert(views.skip(0) =~= views);
        assert(out@ + Seq::<u8>::empty() =~= out@);
    }
    while i < ts.len()
        invariant
            0 <= i <= ts@.len(),
            views == spec_tokens_of(ts@),
            views.len() == ts@.len(),
            out@ + spec_render(views.skip(i as int)) =~= spec_render(views),
        decreases ts@.len() - i,
    {
        let ghost remaining = views.skip(i as int);
        proof {
            assert(remaining[0] == views[i as int]);
            assert(views[i as int] == spec_token_view(ts@[i as int]));
            assert(remaining.drop_first() =~= views.skip(i + 1));
            assert(spec_render(remaining) == spec_render_token(views[i as int]) + spec_render(
                views.skip(i + 1),
            ));
        }
        render_token_into(&ts[i], &mut out);
        i = i + 1;
    }
    proof {
        assert(views.skip(views.len() as int) =~= Seq::<TokenView>::empty());
    }
    out
}

/// Write a pipeline in its canonical declarative text.
pub fn serialize_pipeline(p: &Pipeline) -> (r: Vec<u8>)
    ensures
        r@ == spec_serialize_pipeline(crate::pipeline::spec_serial_view(p.root)),
{
    let mut tokens: Vec<Token> = Vec::new();
    emit_serial(&p.root, &mut tokens);
    proof {
        assert(spec_tokens_of(tokens@) =~= Seq::<TokenView>::empty() + spec_tokens_serial(
            crate::pipeline::spec_serial_view(p.root),
        ));
        assert(spec_tokens_of(tokens@) =~= spec_tokens_serial(
            crate::pipeline::spec_serial_view(p.root),
        ));
    }
    let r = render_tokens(&tokens);
    r
}

/// Parse the declarative text of a whole pipeline. The parse succeeds
/// exactly when the text is a well-formed declaration, and the graph it
/// yields is always valid.
pub fn parse_pipeline(s: &Vec<u8>) -> (r: Option<Pipeline>)
    ensures
        match r {
            Option::Some(p) => {
                &&& spec_parse_pipeline(s@) == Option::Some(
                    crate::pipeline::spec_serial_view(p.root),
                )
                &&& crate::pipeline::spec_serial_valid(
                    crate::pipeline::spec_serial_view(p.root),
                )
            },
            Option::None => spec_parse_pipeline(s@) is None,
        },
{
    let ts = match lex(s) {
        Option::None => {
            return Option::None;
        },
        Option::Some(ts) => ts,
    };
    match parse_serial_at(&ts, 0) {
        Option::None => Option::None,
        Option::Some((root, j)) => {
            if j == ts.len() {
                proof {
                    lemma_parse_serial_valid(spec_tokens_of(ts@), 0);
                }
                Option::Some(Pipeline { root })
            } else {
                Option::None
            }
        },
    }
}

} // verus!
