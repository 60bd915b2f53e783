//! The lexical scanner: turns source text into a token stream, one token per
//! call. It recognises brackets, arithmetic and relational symbols
//! (single- and multi-character), integer literals (decimal and `0x` hex),
//! quoted strings, identifiers and keywords, and skips blanks, newlines and
//! `;` line comments while tracking a row and column position.

use vstd::prelude::*;

use crate::encoding::push_char;
use crate::token::{token_type_view, Token, TokenModel, TokenType};

verus! {

/// What `\w` accepts: whether a character is a word character. Named after
/// the regex engine's Unicode-aware class, whose full definition the
/// contracts do not restate.
pub uninterp spec fn is_word_char(c: char) -> bool;

/// The shape the single-quote name pattern accepts: one quote followed by
/// one or more word characters or hyphens, spanning the whole string.
pub open spec fn quoted_name_form(s: Seq<char>) -> bool {
    &&& s.len() >= 2
    &&& s[0] == '\''
    &&& forall|i: int| 1 <= i < s.len() ==> is_word_char(#[trigger] s[i]) || s[i] == '-'
}

/// Relies on `regex::Regex::is_match` with the anchored pattern
/// `^'(\w|-)+$`: the haystack matches exactly when it is wholly one quote
/// followed by one or more word characters (`\w`, named here by
/// `is_word_char`) or hyphens. The pattern is fixed and valid, so
/// compilation cannot fail; the match outcome depends on the haystack's
/// characters alone.
#[verifier::external_body]
fn quoted_word_matches(s: &str) -> (r: bool)
    ensures
        r == (s@.len() >= 2 && s@[0] == '\'' && (forall|i: int|
            1 <= i < s@.len() ==> is_word_char(#[trigger] s@[i]) || s@[i] == '-')),
{
    match regex::Regex::new("^'(\\w|-)+$") {
        Ok(re) => re.is_match(s),
        Err(_) => false,
    }
}

/// The scanner's whole state: the input characters, the cursor, and the
/// position counters.
pub struct LexState {
    pub chars: Seq<char>,
    pub idx: int,
    pub row: u32,
    pub col: u32,
}

/// One scanning step: the token produced and the state left behind. The
/// token is stamped with the final state's row and column.
pub struct LexStep {
    pub tok: TokenModel,
    pub post: LexState,
}

/// A position counter advances by one and wraps at the type's limit.
pub open spec fn wrap_inc(x: u32) -> u32 {
    if x == u32::MAX {
        0
    } else {
        (x + 1) as u32
    }
}

/// Whether `c` is an ASCII decimal digit.
pub open spec fn is_dec_digit(c: char) -> bool {
    48 <= c as u32 <= 57
}

/// Whether `c` is an ASCII letter.
pub open spec fn is_ascii_letter(c: char) -> bool {
    (65 <= c as u32 <= 90) || (97 <= c as u32 <= 122)
}

/// Whether `c` is a hexadecimal digit of either case.
pub open spec fn is_hex_digit(c: char) -> bool {
    is_dec_digit(c) || (97 <= c as u32 <= 102) || (65 <= c as u32 <= 70)
}

/// The numeric value of a hexadecimal digit.
pub open spec fn hex_digit_val(c: char) -> nat {
    if is_dec_digit(c) {
        (c as u32 - 48) as nat
    } else if 97 <= c as u32 <= 102 {
        (c as u32 - 87) as nat
    } else {
        (c as u32 - 65 + 10) as nat
    }
}

/// The value of a decimal digit string.
pub open spec fn dec_val(s: Seq<char>) -> nat
    decreases s.len(),
{
    if s.len() == 0 {
        0
    } else {
        dec_val(s.drop_last()) * 10 + (s.last() as u32 - 48) as nat
    }
}

/// The value of a hexadecimal digit string.
pub open spec fn hex_val(s: Seq<char>) -> nat
    decreases s.len(),
{
    if s.len() == 0 {
        0
    } else {
        hex_val(s.drop_last()) * 16 + hex_digit_val(s.last())
    }
}

/// Removes every repetition of a leading `0x`.
pub open spec fn strip0x(s: Seq<char>) -> Seq<char>
    decreases s.len(),
{
    if s.len() >= 2 && s[0] == '0' && s[1] == 'x' {
        strip0x(s.skip(2))
    } else {
        s
    }
}

/// The cursor position just before the next newline, or the end of the
/// input.
pub open spec fn spec_skip_line(chars: Seq<char>, idx: int) -> int
    decreases chars.len() - idx,
{
    if idx < 0 || idx >= chars.len() || chars[idx] == '\n' {
        idx
    } else {
        spec_skip_line(chars, idx + 1)
    }
}

/// Reads the rest of a word: characters up to a blank, bracket or newline,
/// none of them consumed, appended to what is already read.
pub open spec fn spec_read_word(st: LexState, acc: Seq<char>) -> (Seq<char>, LexState)
    decreases st.chars.len() - st.idx,
{
    if st.idx < 0 || st.idx >= st.chars.len() {
        (acc, st)
    } else {
        let c = st.chars[st.idx];
        if c == ' ' || c == '(' || c == ')' || c == '{' || c == '}' || c == '\n' {
            (acc, st)
        } else {
            spec_read_word(
                LexState { idx: st.idx + 1, col: wrap_inc(st.col), ..st },
                acc.push(c),
            )
        }
    }
}

/// Reads the body of a double-quoted string up to the closing quote, which
/// is consumed if present; a blank inside the string advances the row
/// counter instead of the column.
pub open spec fn spec_read_dq(st: LexState, acc: Seq<char>) -> (Seq<char>, LexState)
    decreases st.chars.len() - st.idx,
{
    if st.idx < 0 || st.idx >= st.chars.len() {
        (acc, st)
    } else if st.chars[st.idx] == '"' {
        (acc, LexState { idx: st.idx + 1, col: wrap_inc(st.col), ..st })
    } else {
        let c = st.chars[st.idx];
        let stepped = if c == ' ' {
            LexState { idx: st.idx + 1, row: wrap_inc(st.row), col: 0, ..st }
        } else {
            LexState { idx: st.idx + 1, col: wrap_inc(st.col), ..st }
        };
        spec_read_dq(stepped, acc.push(c))
    }
}

/// The token an integer-shaped word denotes: its decimal value if it is all
/// decimal digits and fits; otherwise, for a word with a `0x` prefix, the
/// hex value of what remains after every leading `0x` and at most one `+`
/// sign, if that is one or more hex digits and fits; otherwise invalid.
/// Whether a word reads as a decimal literal that fits.
pub open spec fn dec_token_ok(word: Seq<char>) -> bool {
    &&& word.len() >= 1
    &&& forall|k: int| 0 <= k < word.len() ==> is_dec_digit(#[trigger] word[k])
    &&& dec_val(word) <= u32::MAX
}

/// Whether a digit tail reads as a hexadecimal literal that fits.
pub open spec fn hex_token_ok(tail: Seq<char>) -> bool {
    &&& tail.len() >= 1
    &&& forall|k: int| 0 <= k < tail.len() ==> is_hex_digit(#[trigger] tail[k])
    &&& hex_val(tail) <= u32::MAX
}

/// The tail the hexadecimal decoder reads: the word with every leading `0x`
/// and at most one `+` sign removed.
pub open spec fn hex_tail(word: Seq<char>) -> Seq<char> {
    let t = strip0x(word);
    if t.len() >= 1 && t[0] == '+' {
        t.drop_first()
    } else {
        t
    }
}

pub open spec fn spec_lex_int_token(word: Seq<char>) -> TokenModel {
    if dec_token_ok(word) {
        TokenModel::Int(dec_val(word) as u32)
    } else if word.len() >= 2 && word[0] == '0' && word[1] == 'x' {
        if hex_token_ok(hex_tail(word)) {
            TokenModel::Int(hex_val(hex_tail(word)) as u32)
        } else {
            TokenModel::Invalid
        }
    } else {
        TokenModel::Invalid
    }
}

/// The token a multi-character relational word denotes; an unrecognised
/// word scans as the end marker.
pub open spec fn multi_tok(w: Seq<char>) -> TokenModel {
    if w == seq!['>', '='] {
        TokenModel::GreaterOrEqual
    } else if w == seq!['<', '='] {
        TokenModel::LessOrEqual
    } else if w == seq!['<'] {
        TokenModel::Less
    } else if w == seq!['>'] {
        TokenModel::Greater
    } else if w == seq!['S', '>'] {
        TokenModel::SignedGreater
    } else if w == seq!['S', '<'] {
        TokenModel::SignedLess
    } else if w == seq!['S', '>', '='] {
        TokenModel::SignedGreaterOrEqual
    } else if w == seq!['S', '<', '='] {
        TokenModel::SignedLessOrEqual
    } else if w == seq!['!', '='] {
        TokenModel::NotEqual
    } else if w == seq!['@'] {
        TokenModel::At
    } else if w == seq!['@', '@'] {
        TokenModel::DoubleAt
    } else {
        TokenModel::Eof
    }
}

/// Scanning one integer literal, from the state just after its first
/// character.
pub open spec fn spec_lex_int(st: LexState, c: char) -> LexStep {
    let (w, st2) = spec_read_word(st, seq![c]);
    LexStep { tok: spec_lex_int_token(w), post: st2 }
}

/// Scanning one multi-character relational token, from the state just after
/// its first character.
pub open spec fn spec_lex_multi(st: LexState, c: char) -> LexStep {
    let (w, st2) = spec_read_word(st, seq![c]);
    LexStep { tok: multi_tok(w), post: st2 }
}

/// Scanning one string token, from the state just after its opening quote.
/// A single-quoted word is a string exactly when it has the quoted name
/// shape; a double-quoted string is everything up to the closing quote.
pub open spec fn spec_lex_string(st: LexState, c: char) -> LexStep {
    if c == '\'' {
        let (w, st2) = spec_read_word(st, seq![c]);
        LexStep {
            tok: if quoted_name_form(w) {
                TokenModel::Str(w.drop_first())
            } else {
                TokenModel::Invalid
            },
            post: st2,
        }
    } else {
        let (m, st2) = spec_read_dq(st, Seq::empty());
        LexStep { tok: TokenModel::Str(m), post: st2 }
    }
}

/// Scanning one identifier or keyword, from the state just after its first
/// letter.
pub open spec fn spec_lex_word(st: LexState, c: char) -> LexStep {
    let (w, st2) = spec_read_word(st, seq![c]);
    LexStep {
        tok: if w == seq!['d', 'e', 'f'] {
            TokenModel::Def
        } else {
            TokenModel::Ident(w)
        },
        post: st2,
    }
}

/// One scanning step: consumes one character (advancing the column, which
/// always counts the consumed character first), dispatches on it, and skips
/// blanks, newlines and `;` comments by scanning again. At the end of the
/// input the end marker is produced and the cursor stays put.
pub open spec fn spec_next(st: LexState) -> LexStep
    decreases st.chars.len() - st.idx,
{
    if st.idx < 0 || st.idx >= st.chars.len() {
        LexStep {
            tok: TokenModel::Eof,
            post: LexState { col: wrap_inc(st.col), ..st },
        }
    } else {
        let c = st.chars[st.idx];
        let st1 = LexState { idx: st.idx + 1, col: wrap_inc(st.col), ..st };
        if c == '(' {
            LexStep { tok: TokenModel::LParen, post: st1 }
        } else if c == ')' {
            LexStep { tok: TokenModel::RParen, post: st1 }
        } else if c == '{' {
            LexStep { tok: TokenModel::LBrace, post: st1 }
        } else if c == '}' {
            LexStep { tok: TokenModel::RBrace, post: st1 }
        } else if c == '[' {
            LexStep { tok: TokenModel::LBracket, post: st1 }
        } else if c == ']' {
            LexStep { tok: TokenModel::RBracket, post: st1 }
        } else if c == '+' {
            LexStep { tok: TokenModel::Plus, post: st1 }
        } else if c == '-' {
            LexStep { tok: TokenModel::Minus, post: st1 }
        } else if c == '*' {
            LexStep { tok: TokenModel::Times, post: st1 }
        } else if c == '/' {
            LexStep { tok: TokenModel::Slash, post: st1 }
        } else if c == '%' {
            LexStep { tok: TokenModel::Percent, post: st1 }
        } else if c == '&' {
            LexStep { tok: TokenModel::BitAnd, post: st1 }
        } else if c == '|' {
            LexStep { tok: TokenModel::BitOr, post: st1 }
        } else if c == '^' {
            LexStep { tok: TokenModel::BitXor, post: st1 }
        } else if c == '~' {
            LexStep { tok: TokenModel::BitNot, post: st1 }
        } else if c == '=' {
            LexStep { tok: TokenModel::Equal, post: st1 }
        } else if c == ';' {
            let j = spec_skip_line(st1.chars, st1.idx);
            if st1.idx <= j && j <= st.chars.len() {
                spec_next(LexState { idx: j, ..st1 })
            } else {
                spec_next(st1)
            }
        } else if c == '\'' || c == '"' {
            spec_lex_string(st1, c)
        } else if c == '>' || c == '<' || c == 'S' || c == '!' || c == '@' {
            spec_lex_multi(st1, c)
        } else if c == ' ' {
            spec_next(st1)
        } else if c == '\n' {
            spec_next(LexState { row: wrap_inc(st1.row), col: 0, ..st1 })
        } else if is_dec_digit(c) {
            spec_lex_int(st1, c)
        } else if is_ascii_letter(c) {
            spec_lex_word(st1, c)
        } else {
            LexStep { tok: TokenModel::Eof, post: st1 }
        }
    }
}

/// Reading a word moves the cursor forward, never past an end it started
/// within, and touches neither the input nor, beyond the column and the
/// cursor, the state.
pub proof fn lemma_read_word_bounds(st: LexState, acc: Seq<char>)
    ensures
        spec_read_word(st, acc).1.chars == st.chars,
        spec_read_word(st, acc).1.idx >= st.idx,
        st.idx <= st.chars.len() ==> spec_read_word(st, acc).1.idx <= st.chars.len(),
        spec_read_word(st, acc).1.row == st.row,
    decreases st.chars.len() - st.idx,
{
    if !(st.idx < 0 || st.idx >= st.chars.len()) {
        let c = st.chars[st.idx];
        if !(c == ' ' || c == '(' || c == ')' || c == '{' || c == '}' || c == '\n') {
            lemma_read_word_bounds(
                LexState { idx: st.idx + 1, col: wrap_inc(st.col), ..st },
                acc.push(c),
            );
        }
    }
}

/// Reading a quoted body moves the cursor forward, never past an end it
/// started within, and leaves the input unchanged.
pub proof fn lemma_read_dq_bounds(st: LexState, acc: Seq<char>)
    ensures
        spec_read_dq(st, acc).1.chars == st.chars,
        spec_read_dq(st, acc).1.idx >= st.idx,
        st.idx <= st.chars.len() ==> spec_read_dq(st, acc).1.idx <= st.chars.len(),
    decreases st.chars.len() - st.idx,
{
    if !(st.idx < 0 || st.idx >= st.chars.len()) {
        let c = st.chars[st.idx];
        if c != '"' {
            let stepped = if c == ' ' {
                LexState { idx: st.idx + 1, row: wrap_inc(st.row), col: 0, ..st }
            } else {
                LexState { idx: st.idx + 1, col: wrap_inc(st.col), ..st }
            };
            lemma_read_dq_bounds(stepped, acc.push(c));
        }
    }
}

/// One scanning step leaves the input unchanged and moves the cursor
/// forward: strictly while input remains, and not at all at the end.
pub proof fn lemma_next_progress(st: LexState)
    requires
        st.idx >= 0,
    ensures
        spec_next(st).post.chars == st.chars,
        spec_next(st).post.idx >= st.idx,
        st.idx < st.chars.len() ==> spec_next(st).post.idx > st.idx,
        st.idx <= st.chars.len() ==> spec_next(st).post.idx <= st.chars.len(),
        st.idx >= st.chars.len() ==> spec_next(st).post.idx == st.idx,
    decreases st.chars.len() - st.idx,
{
    if st.idx < st.chars.len() {
        let c = st.chars[st.idx];
        let st1 = LexState { idx: st.idx + 1, col: wrap_inc(st.col), ..st };
        if c == ';' {
            lemma_skip_line_bounds(st1.chars, st1.idx);
            let j = spec_skip_line(st1.chars, st1.idx);
            lemma_next_progress(LexState { idx: j, ..st1 });
        } else if c == '\'' {
            lemma_read_word_bounds(st1, seq![c]);
        } else if c == '"' {
            lemma_read_dq_bounds(st1, Seq::empty());
        } else if c == '>' || c == '<' || c == 'S' || c == '!' || c == '@' {
            lemma_read_word_bounds(st1, seq![c]);
        } else if c == ' ' {
            lemma_next_progress(st1);
        } else if c == '\n' {
            lemma_next_progress(LexState { row: wrap_inc(st1.row), col: 0, ..st1 });
        } else if is_dec_digit(c) {
            lemma_read_word_bounds(st1, seq![c]);
        } else if is_ascii_letter(c) {
            lemma_read_word_bounds(st1, seq![c]);
        }
    }
}

/// Every token the scanner will produce from this state on, in order. At
/// the end of the input the stream is empty: reading past it gives only the
/// end marker.
pub open spec fn tokens_of(st: LexState) -> Seq<TokenModel>
    decreases st.chars.len() - st.idx,
{
    if st.idx < 0 || st.idx >= st.chars.len() {
        Seq::empty()
    } else {
        let r = spec_next(st);
        if st.idx < r.post.idx && r.post.idx <= st.chars.len() && r.post.chars == st.chars {
            seq![r.tok] + tokens_of(r.post)
        } else {
            seq![r.tok]
        }
    }
}

/// The token stream starts with the next token, followed by the stream of
/// the state the scanner leaves behind; at the end of the input it is
/// empty.
pub proof fn lemma_tokens_of_unfold(st: LexState)
    requires
        st.idx >= 0,
        st.idx <= st.chars.len(),
    ensures
        st.idx < st.chars.len() ==> tokens_of(st) == seq![spec_next(st).tok] + tokens_of(
            spec_next(st).post,
        ),
        st.idx >= st.chars.len() ==> tokens_of(st) == Seq::<TokenModel>::empty(),
{
    if st.idx < st.chars.len() {
        lemma_next_progress(st);
    }
}

/// Skipping a line moves the cursor forward, and never past an end it
/// started within.
pub proof fn lemma_skip_line_bounds(chars: Seq<char>, idx: int)
    ensures
        spec_skip_line(chars, idx) >= idx,
        idx <= chars.len() ==> spec_skip_line(chars, idx) <= chars.len(),
    decreases chars.len() - idx,
{
    if !(idx < 0 || idx >= chars.len() || chars[idx] == '\n') {
        lemma_skip_line_bounds(chars, idx + 1);
    }
}

/// The scanner: the input characters, a cursor, and position counters.
pub struct Lexer {
    pub chars: Vec<char>,
    pub idx: usize,
    pub row: u32,
    pub col: u32,
}

impl View for Lexer {
    type V = LexState;

    open spec fn view(&self) -> LexState {
        LexState { chars: self.chars@, idx: self.idx as int, row: self.row, col: self.col }
    }
}

/// A wrapping increment of a position counter.
fn bump(x: u32) -> (y: u32)
    ensures
        y == wrap_inc(x),
{
    if x == u32::MAX {
        0
    } else {
        x + 1
    }
}

/// The string holding the characters of `w` from `start` on.
#[verifier::loop_isolation(false)]
fn string_of(w: &Vec<char>, start: usize) -> (s: String)
    requires
        start <= w@.len(),
    ensures
        s@ == w@.skip(start as int),
{
    let mut s = String::new();
    let mut i = start;
    while i < w.len()
        invariant
            start <= i <= w@.len(),
            s@ == w@.subrange(start as int, i as int),
        decreases w@.len() - i,
    {
        push_char(&mut s, w[i]);
        proof {
            assert(s@ =~= w@.subrange(start as int, i + 1));
        }
        i += 1;
    }
    proof {
        assert(w@.subrange(start as int, w@.len() as int) =~= w@.skip(start as int));
    }
    s
}

/// Decodes a word as a decimal literal: its value if the word is one or
/// more decimal digits and the value fits, and nothing otherwise.
#[verifier::loop_isolation(false)]
fn scan_dec(w: &Vec<char>) -> (r: Option<u32>)
    ensures
        match r {
            Some(v) => dec_token_ok(w@) && dec_val(w@) == v as nat,
            None => !dec_token_ok(w@),
        },
{
    let n = w.len();
    let mut all_dec = true;
    let mut overflow = false;
    let mut val: u32 = 0;
    let mut i: usize = 0;
    while i < n
        invariant
            i <= n,
            all_dec == (forall|k: int| 0 <= k < i ==> is_dec_digit(#[trigger] w@[k])),
            all_dec ==> (overflow <==> dec_val(w@.take(i as int)) > u32::MAX),
            (all_dec && !overflow) ==> val == dec_val(w@.take(i as int)),
        decreases n - i,
    {
        proof {
            assert(w@.take(i + 1).drop_last() =~= w@.take(i as int));
            assert(w@.take(i + 1).last() == w@[i as int]);
        }
        let u = w[i] as u32;
        if 48 <= u && u <= 57 {
            if all_dec && !overflow {
                let d: u32 = u - 48;
                proof {
                    assert(10 * ((u32::MAX - d) / 10) <= u32::MAX - d) by (nonlinear_arith);
                }
                if val > (u32::MAX - d) / 10 {
                    proof {
                        assert(val * 10 + d > u32::MAX) by (nonlinear_arith)
                            requires
                                val > (u32::MAX - d) / 10,
                                d <= 9,
                        ;
                    }
                    overflow = true;
                } else {
                    proof {
                        assert(val * 10 + d <= u32::MAX) by (nonlinear_arith)
                            requires
                                val <= (u32::MAX - d) / 10,
                                d <= 9,
                        ;
                    }
                    val = val * 10 + d;
                }
            } else if all_dec && overflow {
                proof {
                    assert(dec_val(w@.take(i + 1)) >= dec_val(w@.take(i as int)));
                }
            }
        } else {
            all_dec = false;
        }
        i += 1;
    }
    proof {
        assert(w@.take(n as int) =~= w@);
    }
    if n >= 1 && all_dec && !overflow {
        Some(val)
    } else {
        None
    }
}

/// The cursor past every leading `0x` and at most one `+` sign: what is
/// left of the word is exactly what the hex decoder reads.
#[verifier::loop_isolation(false)]
fn strip_hex_prefix(w: &Vec<char>) -> (p: usize)
    ensures
        p <= w@.len(),
        w@.skip(p as int) == hex_tail(w@),
{
    let n = w.len();
    let mut s: usize = 0;
    proof {
        assert(w@.skip(0) =~= w@);
    }
    while n - s >= 2 && w[s] == '0' && w[s + 1] == 'x'
        invariant
            s <= n,
            strip0x(w@) == strip0x(w@.skip(s as int)),
        decreases n - s,
    {
        proof {
            assert(w@.skip(s as int).len() >= 2);
            assert(w@.skip(s as int)[0] == '0');
            assert(w@.skip(s as int)[1] == 'x');
            assert(w@.skip(s as int).skip(2) =~= w@.skip(s + 2));
        }
        s += 2;
    }
    proof {
        if w@.skip(s as int).len() >= 2 {
            assert(w@.skip(s as int)[0] == w@[s as int]);
            assert(w@.skip(s as int)[1] == w@[s as int + 1]);
        }
        assert(strip0x(w@.skip(s as int)) == w@.skip(s as int));
    }
    let mut p = s;
    if p < n && w[p] == '+' {
        proof {
            assert(w@.skip(s as int)[0] == w@[s as int]);
        }
        p += 1;
        proof {
            assert(w@.skip(s as int).drop_first() =~= w@.skip(p as int));
        }
    }
    p
}

/// Decodes the tail of a word, from `p` on, as a hexadecimal literal: its
/// value if the tail is one or more hex digits and the value fits, and
/// nothing otherwise.
#[verifier::loop_isolation(false)]
fn scan_hex(w: &Vec<char>, p: usize) -> (r: Option<u32>)
    requires
        p <= w@.len(),
    ensures
        match r {
            Some(v) => hex_token_ok(w@.skip(p as int)) && hex_val(w@.skip(p as int)) == v as nat,
            None => !hex_token_ok(w@.skip(p as int)),
        },
{
    let ghost t2 = w@.skip(p as int);
    let n = w.len();
    if n - p == 0 {
        return None;
    }
    let mut all_hex = true;
    let mut overflow = false;
    let mut val: u32 = 0;
    let mut j: usize = p;
    while j < n
        invariant
            p <= j <= n,
            t2 == w@.skip(p as int),
            all_hex == (forall|k: int| 0 <= k < j - p ==> is_hex_digit(#[trigger] t2[k])),
            all_hex ==> (overflow <==> hex_val(t2.take(j - p)) > u32::MAX),
            (all_hex && !overflow) ==> val == hex_val(t2.take(j - p)),
        decreases n - j,
    {
        proof {
            assert(t2.take(j - p + 1).drop_last() =~= t2.take(j - p));
            assert(t2.take(j - p + 1).last() == t2[j - p]);
            assert(t2[j - p] == w@[j as int]);
        }
        let u = w[j] as u32;
        let mut digit: u32 = 0;
        let mut ok = true;
        if 48 <= u && u <= 57 {
            digit = u - 48;
        } else if 97 <= u && u <= 102 {
            digit = u - 87;
        } else if 65 <= u && u <= 70 {
            digit = u - 55;
        } else {
            ok = false;
        }
        if ok {
            if all_hex && !overflow {
                proof {
                    assert(16 * ((u32::MAX - digit) / 16) <= u32::MAX - digit)
                        by (nonlinear_arith);
                }
                if val > (u32::MAX - digit) / 16 {
                    proof {
                        assert(val * 16 + digit > u32::MAX) by (nonlinear_arith)
                            requires
                                val > (u32::MAX - digit) / 16,
                                digit <= 15,
                        ;
                    }
                    overflow = true;
                } else {
                    proof {
                        assert(val * 16 + digit <= u32::MAX) by (nonlinear_arith)
                            requires
                                val <= (u32::MAX - digit) / 16,
                                digit <= 15,
                        ;
                    }
                    val = val * 16 + digit;
                }
            } else if all_hex && overflow {
                proof {
                    assert(hex_val(t2.take(j - p + 1)) >= hex_val(t2.take(j - p)));
                }
            }
        } else {
            all_hex = false;
        }
        j += 1;
    }
    proof {
        assert(t2.take(n - p) =~= t2);
    }
    if all_hex && !overflow {
        Some(val)
    } else {
        None
    }
}

impl Lexer {
    /// A scanner over the given source text, at row one, column zero.
    #[verifier::loop_isolation(false)]
    pub fn new(input: &str) -> (l: Lexer)
        ensures
            l@.chars == input@,
            l@.idx == 0,
            l@.row == 1,
            l@.col == 0,
    {
        let n = input.unicode_len();
        let mut chars: Vec<char> = Vec::new();
        let mut i: usize = 0;
        while i < n
            invariant
                i <= n,
                n == input@.len(),
                chars@ == input@.take(i as int),
            decreases n - i,
        {
            let c = input.get_char(i);
            chars.push(c);
            proof {
                assert(chars@ =~= input@.take(i + 1));
            }
            i += 1;
        }
        proof {
            assert(input@.take(n as int) =~= input@);
        }
        Lexer { chars, idx: 0, row: 1, col: 0 }
    }

    /// Scans and hands back the next token, exactly as the mathematical
    /// scanning step describes it, advancing the held state the same way.
    pub fn next(&mut self) -> (t: Token)
        ensures
            ({
                let r = spec_next(old(self)@);
                &&& token_type_view(t.token_type) == r.tok
                &&& t.row == r.post.row
                &&& t.col == r.post.col
                &&& final(self)@ == r.post
            }),
        decreases self.chars@.len() - self.idx,
    {
        if self.idx >= self.chars.len() {
            self.col = bump(self.col);
            return Token::new(TokenType::EOF, self.row, self.col);
        }
        let c = self.chars[self.idx];
        self.idx = self.idx + 1;
        self.col = bump(self.col);
        if c == '(' {
            Token::new(TokenType::LPAREN, self.row, self.col)
        } else if c == ')' {
            Token::new(TokenType::RPAREN, self.row, self.col)
        } else if c == '{' {
            Token::new(TokenType::LBRACE, self.row, self.col)
        } else if c == '}' {
            Token::new(TokenType::RBRACE, self.row, self.col)
        } else if c == '[' {
            Token::new(TokenType::LBRACKET, self.row, self.col)
        } else if c == ']' {
            Token::new(TokenType::RBRACKET, self.row, self.col)
        } else if c == '+' {
            Token::new(TokenType::ADD, self.row, self.col)
        } else if c == '-' {
            Token::new(TokenType::SUB, self.row, self.col)
        } else if c == '*' {
            Token::new(TokenType::MUL, self.row, self.col)
        } else if c == '/' {
            Token::new(TokenType::DIV, self.row, self.col)
        } else if c == '%' {
            Token::new(TokenType::MOD, self.row, self.col)
        } else if c == '&' {
            Token::new(TokenType::BAND, self.row, self.col)
        } else if c == '|' {
            Token::new(TokenType::BOR, self.row, self.col)
        } else if c == '^' {
            Token::new(TokenType::BXOR, self.row, self.col)
        } else if c == '~' {
            Token::new(TokenType::BNOT, self.row, self.col)
        } else if c == '=' {
            Token::new(TokenType::EQ, self.row, self.col)
        } else if c == ';' {
            let ghost st1 = self@;
            self.next_line();
            proof {
                lemma_skip_line_bounds(st1.chars, st1.idx);
            }
            let t = self.next();
            t
        } else if c == '\'' || c == '"' {
            self.lex_string(c)
        } else if c == '>' || c == '<' || c == 'S' || c == '!' || c == '@' {
            self.lex_multi_char(c)
        } else if c == ' ' {
            let t = self.next();
            t
        } else if c == '\n' {
            self.row = bump(self.row);
            self.col = 0;
            let t = self.next();
            t
        } else {
            let u = c as u32;
            if 48 <= u && u <= 57 {
                self.lex_int(c)
            } else if (65 <= u && u <= 90) || (97 <= u && u <= 122) {
                let w = self.read_word(c);
                if w.len() == 3 && w[0] == 'd' && w[1] == 'e' && w[2] == 'f' {
                    proof {
                        assert(w@ =~= seq!['d', 'e', 'f']);
                    }
                    Token::new(TokenType::DEF, self.row, self.col)
                } else {
                    proof {
                        assert(w@ != seq!['d', 'e', 'f']);
                    }
                    let s = string_of(&w, 0);
                    proof {
                        assert(w@.skip(0) =~= w@);
                    }
                    Token::new(TokenType::IDENT(s), self.row, self.col)
                }
            } else {
                Token::new(TokenType::EOF, self.row, self.col)
            }
        }
    }

    /// One string token: a single-quoted word kept only in the quoted name
    /// shape, or the body of a double-quoted string.
    fn lex_string(&mut self, curr_char: char) -> (t: Token)
        requires
            curr_char == '\'' || curr_char == '"',
        ensures
            ({
                let r = spec_lex_string(old(self)@, curr_char);
                &&& token_type_view(t.token_type) == r.tok
                &&& t.row == r.post.row
                &&& t.col == r.post.col
                &&& final(self)@ == r.post
            }),
    {
        if curr_char == '\'' {
            let w = self.read_word(curr_char);
            let ws = string_of(&w, 0);
            proof {
                assert(w@.skip(0) =~= w@);
            }
            if quoted_word_matches(ws.as_str()) {
                let s = string_of(&w, 1);
                proof {
                    assert(w@.skip(1) =~= w@.drop_first());
                }
                Token::new(TokenType::STR(s), self.row, self.col)
            } else {
                Token::new(TokenType::INVALID, self.row, self.col)
            }
        } else {
            let mid = self.read_double_quote_string();
            let s = string_of(&mid, 0);
            proof {
                assert(mid@.skip(0) =~= mid@);
            }
            Token::new(TokenType::STR(s), self.row, self.col)
        }
    }

    /// One integer token: the word read from the first digit on, decoded as
    /// decimal, or as hex behind a `0x` prefix, or rejected as invalid.
    fn lex_int(&mut self, curr_char: char) -> (t: Token)
        ensures
            ({
                let r = spec_lex_int(old(self)@, curr_char);
                &&& token_type_view(t.token_type) == r.tok
                &&& t.row == r.post.row
                &&& t.col == r.post.col
                &&& final(self)@ == r.post
            }),
    {
        let w = self.read_word(curr_char);
        let n = w.len();
        match scan_dec(&w) {
            Some(val) => Token::new(TokenType::INT(val), self.row, self.col),
            None => {
                if n >= 2 {
                    let c0 = w[0];
                    let c1 = w[1];
                    if c0 == '0' && c1 == 'x' {
                        let p = strip_hex_prefix(&w);
                        match scan_hex(&w, p) {
                            Some(val) => Token::new(TokenType::INT(val), self.row, self.col),
                            None => Token::new(TokenType::INVALID, self.row, self.col),
                        }
                    } else {
                        Token::new(TokenType::INVALID, self.row, self.col)
                    }
                } else {
                    Token::new(TokenType::INVALID, self.row, self.col)
                }
            },
        }
    }

    /// One multi-character relational token, or the end marker for a word
    /// that is none.
    fn lex_multi_char(&mut self, curr_char: char) -> (t: Token)
        ensures
            ({
                let r = spec_lex_multi(old(self)@, curr_char);
                &&& token_type_view(t.token_type) == r.tok
                &&& t.row == r.post.row
                &&& t.col == r.post.col
                &&& final(self)@ == r.post
            }),
    {
        let w = self.read_word(curr_char);
        let n = w.len();
        if n == 2 && w[0] == '>' && w[1] == '=' {
            proof {
                assert(w@ =~= seq!['>', '=']);
            }
            Token::new(TokenType::GTOE, self.row, self.col)
        } else if n == 2 && w[0] == '<' && w[1] == '=' {
            proof {
                assert(w@ =~= seq!['<', '=']);
            }
            Token::new(TokenType::LTOE, self.row, self.col)
        } else if n == 1 && w[0] == '<' {
            proof {
                assert(w@ =~= seq!['<']);
            }
            Token::new(TokenType::LT, self.row, self.col)
        } else if n == 1 && w[0] == '>' {
            proof {
                assert(w@ =~= seq!['>']);
            }
            Token::new(TokenType::GT, self.row, self.col)
        } else if n == 2 && w[0] == 'S' && w[1] == '>' {
            proof {
                assert(w@ =~= seq!['S', '>']);
            }
            Token::new(TokenType::SGT, self.row, self.col)
        } else if n == 2 && w[0] == 'S' && w[1] == '<' {
            proof {
                assert(w@ =~= seq!['S', '<']);
            }
            Token::new(TokenType::SLT, self.row, self.col)
        } else if n == 3 && w[0] == 'S' && w[1] == '>' && w[2] == '=' {
            proof {
                assert(w@ =~= seq!['S', '>', '=']);
            }
            Token::new(TokenType::SGTOE, self.row, self.col)
        } else if n == 3 && w[0] == 'S' && w[1] == '<' && w[2] == '=' {
            proof {
                assert(w@ =~= seq!['S', '<', '=']);
            }
            Token::new(TokenType::SLTOE, self.row, self.col)
        } else if n == 2 && w[0] == '!' && w[1] == '=' {
            proof {
                assert(w@ =~= seq!['!', '=']);
            }
            Token::new(TokenType::NEQ, self.row, self.col)
        } else if n == 1 && w[0] == '@' {
            proof {
                assert(w@ =~= seq!['@']);
            }
            Token::new(TokenType::AT, self.row, self.col)
        } else if n == 2 && w[0] == '@' && w[1] == '@' {
            proof {
                assert(w@ =~= seq!['@', '@']);
            }
            Token::new(TokenType::DAT, self.row, self.col)
        } else {
            Token::new(TokenType::EOF, self.row, self.col)
        }
    }

    /// The body of a double-quoted string, the closing quote consumed if
    /// present.
    #[verifier::loop_isolation(false)]
    fn read_double_quote_string(&mut self) -> (w: Vec<char>)
        ensures
            ({
                let (sw, sp) = spec_read_dq(old(self)@, Seq::empty());
                w@ == sw && final(self)@ == sp
            }),
    {
        let mut w: Vec<char> = Vec::new();
        proof {
            assert(w@ =~= Seq::<char>::empty());
        }
        while self.idx < self.chars.len() && self.chars[self.idx] != '"'
            invariant
                spec_read_dq(old(self)@, Seq::empty()) == spec_read_dq(self@, w@),
            decreases self.chars@.len() - self.idx,
        {
            let c = self.chars[self.idx];
            w.push(c);
            if c == ' ' {
                self.row = bump(self.row);
                self.col = 0;
            } else {
                self.col = bump(self.col);
            }
            self.idx = self.idx + 1;
        }
        if self.idx < self.chars.len() {
            self.idx = self.idx + 1;
            self.col = bump(self.col);
        }
        w
    }

    /// The rest of a word: characters up to a blank, bracket or newline,
    /// with the word's first character already in hand.
    #[verifier::loop_isolation(false)]
    fn read_word(&mut self, curr_char: char) -> (w: Vec<char>)
        ensures
            ({
                let (sw, sp) = spec_read_word(old(self)@, seq![curr_char]);
                w@ == sw && final(self)@ == sp
            }),
    {
        let mut w: Vec<char> = Vec::new();
        w.push(curr_char);
        proof {
            assert(w@ =~= seq![curr_char]);
        }
        while self.idx < self.chars.len() && self.chars[self.idx] != ' ' && self.chars[self.idx]
            != '(' && self.chars[self.idx] != ')' && self.chars[self.idx] != '{'
            && self.chars[self.idx] != '}' && self.chars[self.idx] != '\n'
            invariant
                spec_read_word(old(self)@, seq![curr_char]) == spec_read_word(self@, w@),
            decreases self.chars@.len() - self.idx,
        {
            let c = self.chars[self.idx];
            w.push(c);
            self.col = bump(self.col);
            self.idx = self.idx + 1;
        }
        w
    }

    /// Moves the cursor to just before the next newline, or to the end of
    /// the input.
    #[verifier::loop_isolation(false)]
    fn next_line(&mut self)
        ensures
            final(self)@ == (LexState {
                idx: spec_skip_line(old(self)@.chars, old(self)@.idx),
                ..old(self)@
            }),
    {
        while self.idx < self.chars.len() && self.chars[self.idx] != '\n'
            invariant
                self.chars == old(self).chars,
                self.row == old(self).row,
                self.col == old(self).col,
                spec_skip_line(old(self)@.chars, old(self)@.idx) == spec_skip_line(
                    self@.chars,
                    self@.idx,
                ),
            decreases self.chars@.len() - self.idx,
        {
            self.idx = self.idx + 1;
        }
    }
}

} // verus!
