//! The parser: recursive descent over the scanner's token stream, one AST
//! node per operator token, children gathered until a closing delimiter or
//! the end of the input. Bracket tokens themselves carry no structure; the
//! compiler, not the parser, checks each node's arity.

use vstd::prelude::*;

use crate::ast::{expr_view, exprs_view, lemma_exprs_view_push, ExprModel, Expression, Op};
use crate::lexer::{lemma_next_progress, lemma_tokens_of_unfold, spec_next, tokens_of, Lexer};
use crate::token::{token_type_view, Token, TokenModel, TokenType};

verus! {

/// The token at position `i` of a stream; past its end, the end marker.
pub open spec fn token_at(toks: Seq<TokenModel>, i: int) -> TokenModel {
    if 0 <= i < toks.len() {
        toks[i]
    } else {
        TokenModel::Eof
    }
}

/// How much of the stream lies at or after position `i`.
pub open spec fn stream_measure(toks: Seq<TokenModel>, i: int) -> int {
    if i < toks.len() {
        toks.len() - i
    } else {
        0
    }
}

/// Parsing one expression, with the cursor on its first token: brackets are
/// skipped, a literal or the end marker is a leaf, an operator token opens a
/// node whose children follow, and anything else is an error.
pub open spec fn spec_parse_program(toks: Seq<TokenModel>, i: int) -> (Result<ExprModel, ()>, int)
    decreases stream_measure(toks, i), 2int,
{
    match token_at(toks, i) {
        TokenModel::LParen => spec_parse_program(toks, i + 1),
        TokenModel::RParen => spec_parse_program(toks, i + 1),
        TokenModel::Plus => spec_parse_expression(toks, Op::Add, i),
        TokenModel::Minus => spec_parse_expression(toks, Op::Sub, i),
        TokenModel::Times => spec_parse_expression(toks, Op::Mul, i),
        TokenModel::Slash => spec_parse_expression(toks, Op::Div, i),
        TokenModel::Percent => spec_parse_expression(toks, Op::Mod, i),
        TokenModel::Less => spec_parse_expression(toks, Op::Lt, i),
        TokenModel::LessOrEqual => spec_parse_expression(toks, Op::LtOE, i),
        TokenModel::Greater => spec_parse_expression(toks, Op::Gt, i),
        TokenModel::GreaterOrEqual => spec_parse_expression(toks, Op::GtOE, i),
        TokenModel::Equal => spec_parse_expression(toks, Op::Eq, i),
        TokenModel::NotEqual => spec_parse_expression(toks, Op::NotEq, i),
        TokenModel::BitAnd => spec_parse_expression(toks, Op::And, i),
        TokenModel::BitOr => spec_parse_expression(toks, Op::Or, i),
        TokenModel::BitXor => spec_parse_expression(toks, Op::XOr, i),
        TokenModel::BitNot => spec_parse_expression(toks, Op::Not, i),
        TokenModel::Int(v) => (Ok(ExprModel { op: Op::Num(v), children: Seq::empty() }), i),
        TokenModel::Ident(name) => {
            if name == seq!['i', 'f'] {
                spec_parse_expression(toks, Op::If, i)
            } else if name == seq!['w', 'h', 'e', 'n'] {
                spec_parse_expression(toks, Op::When, i)
            } else if name == seq!['u', 'n', 'l', 'e', 's', 's'] {
                spec_parse_expression(toks, Op::Unless, i)
            } else {
                (Err(()), i)
            }
        },
        TokenModel::Eof => (Ok(ExprModel { op: Op::End, children: Seq::empty() }), i),
        _ => (Err(()), i),
    }
}

/// Parsing an operator node, with the cursor on the operator token: the
/// children follow until a closing delimiter or the end of the input, and
/// one more token is consumed at the close.
pub open spec fn spec_parse_expression(toks: Seq<TokenModel>, op: Op, i: int) -> (
    Result<ExprModel, ()>,
    int,
)
    decreases stream_measure(toks, i), 1int,
{
    let (r, i2) = spec_parse_children(toks, i, Seq::empty());
    match r {
        Ok(cs) => (Ok(ExprModel { op: op, children: cs }), i2 + 1),
        Err(u) => (Err(u), i2),
    }
}

/// Gathering children: while the token after the cursor closes nothing,
/// step onto it and parse one expression there.
pub open spec fn spec_parse_children(toks: Seq<TokenModel>, i: int, acc: Seq<ExprModel>) -> (
    Result<Seq<ExprModel>, ()>,
    int,
)
    decreases stream_measure(toks, i), 0int,
{
    if (token_at(toks, i + 1) is RParen) || (token_at(toks, i + 1) is Eof) {
        (Ok(acc), i)
    } else {
        let (r, i2) = spec_parse_program(toks, i + 1);
        match r {
            Ok(e) => if i2 >= i + 1 {
                spec_parse_children(toks, i2, acc.push(e))
            } else {
                (Err(()), i2)
            },
            Err(u) => (Err(u), i2),
        }
    }
}

/// Parsing a whole program: top-level expressions in order until the cursor
/// stands on the end marker, stepping over one token after each.
pub open spec fn spec_parse(toks: Seq<TokenModel>, i: int) -> (Result<Seq<ExprModel>, ()>, int)
    decreases stream_measure(toks, i), 3int,
{
    if token_at(toks, i) is Eof {
        (Ok(Seq::empty()), i)
    } else {
        let (r, i2) = spec_parse_program(toks, i);
        match r {
            Ok(e) => if i2 >= i {
                let (rr, i3) = spec_parse(toks, i2 + 1);
                (
                    match rr {
                        Ok(cs) => Ok(seq![e] + cs),
                        Err(u) => Err(u),
                    },
                    i3,
                )
            } else {
                (Err(()), i2)
            },
            Err(u) => (Err(u), i2),
        }
    }
}

/// The parser: the scanner it draws from and the two buffered tokens.
pub struct Parser {
    pub lexer: Lexer,
    pub current_token: Token,
    pub peek_token: Token,
}

/// The scanner's cursor stands within its input.
pub open spec fn parser_wf(p: Parser) -> bool {
    p.lexer@.idx <= p.lexer@.chars.len()
}

/// The whole token stream as the parser sees it: the two buffered tokens,
/// and everything the scanner has yet to produce.
pub open spec fn parser_stream(p: Parser) -> Seq<TokenModel> {
    seq![
        token_type_view(p.current_token.token_type),
        token_type_view(p.peek_token.token_type),
    ] + tokens_of(p.lexer@)
}

/// The parser stands at position `i` of the stream `toks`: the buffered
/// tokens are the ones at `i` and after it, and the scanner will produce the
/// rest.
pub open spec fn in_sync(p: Parser, toks: Seq<TokenModel>, i: int) -> bool {
    &&& token_type_view(p.current_token.token_type) == token_at(toks, i)
    &&& token_type_view(p.peek_token.token_type) == token_at(toks, i + 1)
    &&& forall|j: int|
        j >= 0 ==> #[trigger] token_at(tokens_of(p.lexer@), j) == token_at(toks, i + 2 + j)
}

/// Whether a token still carries weight for the parser's progress measure.
pub open spec fn tok_weight(t: Token) -> int {
    if token_type_view(t.token_type) is Eof {
        0
    } else {
        1
    }
}

/// The parser's progress measure: unread input weighs double so that
/// refilling the one-token lookahead still makes progress.
pub open spec fn parse_measure(p: Parser) -> int {
    2 * (p.lexer@.chars.len() - p.lexer@.idx) + tok_weight(p.current_token) + 2 * tok_weight(
        p.peek_token,
    )
}

/// Whether `s` is exactly the two given characters.
fn str_is2(s: &str, c0: char, c1: char) -> (r: bool)
    ensures
        r == (s@ == seq![c0, c1]),
{
    if s.unicode_len() == 2 {
        let a0 = s.get_char(0);
        let a1 = s.get_char(1);
        if a0 == c0 && a1 == c1 {
            proof {
                assert(s@ =~= seq![c0, c1]);
            }
            true
        } else {
            false
        }
    } else {
        false
    }
}

/// Whether `s` is exactly the four given characters.
fn str_is4(s: &str, c0: char, c1: char, c2: char, c3: char) -> (r: bool)
    ensures
        r == (s@ == seq![c0, c1, c2, c3]),
{
    if s.unicode_len() == 4 {
        let a0 = s.get_char(0);
        let a1 = s.get_char(1);
        let a2 = s.get_char(2);
        let a3 = s.get_char(3);
        if a0 == c0 && a1 == c1 && a2 == c2 && a3 == c3 {
            proof {
                assert(s@ =~= seq![c0, c1, c2, c3]);
            }
            true
        } else {
            false
        }
    } else {
        false
    }
}

/// Whether `s` is exactly the six given characters.
fn str_is6(s: &str, c0: char, c1: char, c2: char, c3: char, c4: char, c5: char) -> (r: bool)
    ensures
        r == (s@ == seq![c0, c1, c2, c3, c4, c5]),
{
    if s.unicode_len() == 6 {
        let a0 = s.get_char(0);
        let a1 = s.get_char(1);
        let a2 = s.get_char(2);
        let a3 = s.get_char(3);
        let a4 = s.get_char(4);
        let a5 = s.get_char(5);
        if a0 == c0 && a1 == c1 && a2 == c2 && a3 == c3 && a4 == c4 && a5 == c5 {
            proof {
                assert(s@ =~= seq![c0, c1, c2, c3, c4, c5]);
            }
            true
        } else {
            false
        }
    } else {
        false
    }
}

impl Parser {
    /// A parser over the given scanner, with the first two tokens buffered.
    /// Seen through `token_at`, its stream is the scanner's.
    pub fn new(lexer: Lexer) -> (p: Parser)
        requires
            lexer@.idx <= lexer@.chars.len(),
            lexer@.idx >= 0,
        ensures
            parser_wf(p),
            forall|j: int|
                j >= 0 ==> #[trigger] token_at(parser_stream(p), j) == token_at(
                    tokens_of(lexer@),
                    j,
                ),
    {
        let ghost st0 = lexer@;
        let mut lexer = lexer;
        let current_token = lexer.next();
        let ghost st1 = lexer@;
        let peek_token = lexer.next();
        let ghost st2 = lexer@;
        let p = Parser { lexer, current_token, peek_token };
        proof {
            lemma_next_progress(st0);
            lemma_tokens_of_unfold(st0);
            lemma_next_progress(st1);
            lemma_tokens_of_unfold(st1);
            if st2.idx < st2.chars.len() {
            } else {
                lemma_tokens_of_unfold(st2);
            }
            assert forall|j: int| j >= 0 implies #[trigger] token_at(parser_stream(p), j)
                == token_at(tokens_of(st0), j) by {
                if st0.idx < st0.chars.len() {
                    assert(tokens_of(st0) == seq![spec_next(st0).tok] + tokens_of(st1));
                    if st1.idx < st1.chars.len() {
                        assert(tokens_of(st1) == seq![spec_next(st1).tok] + tokens_of(st2));
                    } else {
                        assert(tokens_of(st1) =~= Seq::<TokenModel>::empty());
                        assert(st2.idx == st1.idx);
                        assert(tokens_of(st2) =~= Seq::<TokenModel>::empty());
                    }
                } else {
                    assert(tokens_of(st0) =~= Seq::<TokenModel>::empty());
                    assert(st1.idx == st0.idx && st2.idx == st1.idx);
                    assert(tokens_of(st1) =~= Seq::<TokenModel>::empty());
                    assert(tokens_of(st2) =~= Seq::<TokenModel>::empty());
                }
            }
        }
        p
    }

    /// Steps the parser one token forward: the lookahead becomes current and
    /// the scanner refills the lookahead.
    fn advance_tokens(&mut self, Ghost(toks): Ghost<Seq<TokenModel>>, Ghost(i): Ghost<int>)
        requires
            parser_wf(*old(self)),
            in_sync(*old(self), toks, i),
        ensures
            parser_wf(*final(self)),
            in_sync(*final(self), toks, i + 1),
            parse_measure(*final(self)) <= parse_measure(*old(self)),
            tok_weight(old(self).current_token) + tok_weight(old(self).peek_token) >= 1
                ==> parse_measure(*final(self)) < parse_measure(*old(self)),
    {
        let ghost lex0 = self.lexer@;
        core::mem::swap(&mut self.peek_token, &mut self.current_token);
        let t = self.lexer.next();
        self.peek_token = t;
        proof {
            lemma_next_progress(lex0);
            lemma_tokens_of_unfold(lex0);
            let lex1 = self.lexer@;
            if lex0.idx < lex0.chars.len() {
                assert(tokens_of(lex0) == seq![spec_next(lex0).tok] + tokens_of(lex1));
                assert(token_at(tokens_of(lex0), 0) == spec_next(lex0).tok);
            } else {
                assert(tokens_of(lex0) =~= Seq::<TokenModel>::empty());
                assert(lex1.idx == lex0.idx);
                assert(tokens_of(lex1) =~= Seq::<TokenModel>::empty());
                assert(spec_next(lex0).tok is Eof);
            }
            assert(token_type_view(self.peek_token.token_type) == token_at(toks, i + 2));
            assert forall|j: int| j >= 0 implies #[trigger] token_at(tokens_of(self.lexer@), j)
                == token_at(toks, i + 1 + 2 + j) by {
                assert(token_at(tokens_of(lex0), j + 1) == token_at(toks, i + 2 + (j + 1)));
                if lex0.idx < lex0.chars.len() {
                    assert(token_at(tokens_of(lex0), j + 1) == token_at(tokens_of(self.lexer@), j));
                } else {
                    assert(token_at(tokens_of(self.lexer@), j) is Eof);
                }
            }
        }
    }

    /// Whether the current token is the end marker.
    fn cur_is_eof(&self) -> (b: bool)
        ensures
            b == (token_type_view(self.current_token.token_type) is Eof),
    {
        match &self.current_token.token_type {
            TokenType::EOF => true,
            _ => false,
        }
    }

    /// Whether the lookahead closes the expression being gathered.
    fn peek_ends(&self) -> (b: bool)
        ensures
            b == ((token_type_view(self.peek_token.token_type) is RParen) || (token_type_view(
                self.peek_token.token_type,
            ) is Eof)),
    {
        match &self.peek_token.token_type {
            TokenType::RPAREN => true,
            TokenType::EOF => true,
            _ => false,
        }
    }

    /// Parses the whole program: every top-level expression in order, under
    /// a fresh root, exactly as the mathematical parse of the parser's
    /// stream; on the first offending token, the diagnostic instead.
    #[verifier::loop_isolation(false)]
    pub fn parse(&mut self) -> (r: Result<Expression, String>)
        requires
            parser_wf(*old(self)),
        ensures
            r is Ok ==> spec_parse(parser_stream(*old(self)), 0).0 is Ok && r->Ok_0.op is Start
                && exprs_view(r->Ok_0.exprs@) == spec_parse(parser_stream(*old(self)), 0).0->Ok_0,
            r is Err ==> spec_parse(parser_stream(*old(self)), 0).0 is Err && r->Err_0@
                == "Error pase_expression"@,
    {
        let ghost toks = parser_stream(*old(self));
        let ghost mut i: int = 0;
        proof {
            assert forall|j: int| j >= 0 implies #[trigger] token_at(tokens_of(self.lexer@), j)
                == token_at(toks, 2 + j) by {
                if 0 <= j < tokens_of(self.lexer@).len() {
                    assert(toks[2 + j] == tokens_of(self.lexer@)[j]);
                }
            }
            assert(in_sync(*self, toks, 0));
        }
        let mut exprs: Vec<Expression> = Vec::new();
        while !self.cur_is_eof()
            invariant
                parser_wf(*self),
                0 <= i,
                in_sync(*self, toks, i),
                spec_parse(toks, 0) == (match spec_parse(toks, i) {
                    (Ok(cs), f) => (Ok::<Seq<ExprModel>, ()>(exprs_view(exprs@) + cs), f),
                    (Err(u), f) => (Err::<Seq<ExprModel>, ()>(u), f),
                }),
            decreases parse_measure(*self),
        {
            let ghost iprev = i;
            let ghost vexp = exprs_view(exprs@);
            let r = self.parse_program(Ghost(toks), Ghost(i));
            let ghost i2 = spec_parse_program(toks, i).1;
            match r {
                Ok(e) => {
                    proof {
                        lemma_exprs_view_push(exprs@, e);
                    }
                    exprs.push(e);
                    self.advance_tokens(Ghost(toks), Ghost(i2));
                    proof {
                        i = i2 + 1;
                        let m = spec_parse_program(toks, iprev).0->Ok_0;
                        assert(exprs_view(exprs@) == vexp.push(m));
                        if spec_parse(toks, i2 + 1).0 is Ok {
                            let cs = spec_parse(toks, i2 + 1).0->Ok_0;
                            assert(vexp + (seq![m] + cs) =~= vexp.push(m) + cs);
                        }
                    }
                },
                Err(s) => {
                    return Err(s);
                },
            }
        }
        proof {
            assert(exprs_view(exprs@) + Seq::<ExprModel>::empty() =~= exprs_view(exprs@));
        }
        let mut ast = Expression::new_program();
        ast.exprs = exprs;
        Ok(ast)
    }

    /// Parses one expression at the current token, exactly as the
    /// mathematical step does, moving the parser to where it ends.
    fn parse_program(&mut self, Ghost(toks): Ghost<Seq<TokenModel>>, Ghost(i): Ghost<int>) -> (r:
        Result<Expression, String>)
        requires
            parser_wf(*old(self)),
            in_sync(*old(self), toks, i),
        ensures
            parser_wf(*final(self)),
            in_sync(*final(self), toks, spec_parse_program(toks, i).1),
            spec_parse_program(toks, i).1 >= i,
            parse_measure(*final(self)) <= parse_measure(*old(self)),
            parse_measure(*final(self)) < parse_measure(*old(self)) || *final(self) == *old(self),
            ({
                let (sr, _) = spec_parse_program(toks, i);
                match (r, sr) {
                    (Ok(e), Ok(m)) => expr_view(e) == m,
                    (Err(s), Err(_)) => s@ == "Error pase_expression"@,
                    _ => false,
                }
            }),
        decreases parse_measure(*self), 1int,
    {
        match &self.current_token.token_type {
            TokenType::LPAREN | TokenType::RPAREN => {
                self.advance_tokens(Ghost(toks), Ghost(i));
                let r = self.parse_program(Ghost(toks), Ghost(i + 1));
                r
            },
            TokenType::ADD => self.parse_expression(Op::Add, Ghost(toks), Ghost(i)),
            TokenType::SUB => self.parse_expression(Op::Sub, Ghost(toks), Ghost(i)),
            TokenType::MUL => self.parse_expression(Op::Mul, Ghost(toks), Ghost(i)),
            TokenType::DIV => self.parse_expression(Op::Div, Ghost(toks), Ghost(i)),
            TokenType::MOD => self.parse_expression(Op::Mod, Ghost(toks), Ghost(i)),
            TokenType::LT => self.parse_expression(Op::Lt, Ghost(toks), Ghost(i)),
            TokenType::LTOE => self.parse_expression(Op::LtOE, Ghost(toks), Ghost(i)),
            TokenType::GT => self.parse_expression(Op::Gt, Ghost(toks), Ghost(i)),
            TokenType::GTOE => self.parse_expression(Op::GtOE, Ghost(toks), Ghost(i)),
            TokenType::EQ => self.parse_expression(Op::Eq, Ghost(toks), Ghost(i)),
            TokenType::NEQ => self.parse_expression(Op::NotEq, Ghost(toks), Ghost(i)),
            TokenType::BAND => self.parse_expression(Op::And, Ghost(toks), Ghost(i)),
            TokenType::BOR => self.parse_expression(Op::Or, Ghost(toks), Ghost(i)),
            TokenType::BXOR => self.parse_expression(Op::XOr, Ghost(toks), Ghost(i)),
            TokenType::BNOT => self.parse_expression(Op::Not, Ghost(toks), Ghost(i)),
            TokenType::INT(v) => Ok(Expression { op: Op::Num(*v), exprs: Vec::new() }),
            TokenType::IDENT(name) => {
                if str_is2(name.as_str(), 'i', 'f') {
                    self.parse_expression(Op::If, Ghost(toks), Ghost(i))
                } else if str_is4(name.as_str(), 'w', 'h', 'e', 'n') {
                    self.parse_expression(Op::When, Ghost(toks), Ghost(i))
                } else if str_is6(name.as_str(), 'u', 'n', 'l', 'e', 's', 's') {
                    self.parse_expression(Op::Unless, Ghost(toks), Ghost(i))
                } else {
                    Err("Error pase_expression".to_owned())
                }
            },
            TokenType::EOF => Ok(Expression::end_program()),
            _ => Err("Error pase_expression".to_owned()),
        }
    }

    /// Parses one operator node at the current token: gathers children
    /// until the lookahead closes them, stepping once more at the close.
    #[verifier::loop_isolation(false)]
    fn parse_expression(
        &mut self,
        op: Op,
        Ghost(toks): Ghost<Seq<TokenModel>>,
        Ghost(i): Ghost<int>,
    ) -> (r: Result<Expression, String>)
        requires
            parser_wf(*old(self)),
            in_sync(*old(self), toks, i),
            !(token_type_view(old(self).current_token.token_type) is Eof),
        ensures
            parser_wf(*final(self)),
            in_sync(*final(self), toks, spec_parse_expression(toks, op, i).1),
            spec_parse_expression(toks, op, i).1 >= i,
            parse_measure(*final(self)) < parse_measure(*old(self)),
            ({
                let (sr, _) = spec_parse_expression(toks, op, i);
                match (r, sr) {
                    (Ok(e), Ok(m)) => expr_view(e) == m,
                    (Err(s), Err(_)) => s@ == "Error pase_expression"@,
                    _ => false,
                }
            }),
        decreases parse_measure(*self), 0int,
    {
        let mut exprs: Vec<Expression> = Vec::new();
        let ghost mut j: int = i;
        proof {
            assert(exprs_view(exprs@) =~= Seq::<ExprModel>::empty());
        }
        while !self.peek_ends()
            invariant
                parser_wf(*self),
                i <= j,
                in_sync(*self, toks, j),
                spec_parse_children(toks, i, Seq::empty()) == spec_parse_children(
                    toks,
                    j,
                    exprs_view(exprs@),
                ),
                parse_measure(*self) <= parse_measure(*old(self)),
                j == i ==> *self == *old(self),
                j > i ==> parse_measure(*self) < parse_measure(*old(self)),
            decreases parse_measure(*self),
        {
            let ghost jprev = j;
            self.advance_tokens(Ghost(toks), Ghost(j));
            let r = self.parse_program(Ghost(toks), Ghost(j + 1));
            let ghost j2 = spec_parse_program(toks, j + 1).1;
            match r {
                Ok(e) => {
                    proof {
                        lemma_exprs_view_push(exprs@, e);
                    }
                    exprs.push(e);
                    proof {
                        j = j2;
                    }
                },
                Err(s) => {
                    return Err(s);
                },
            }
        }
        self.advance_tokens(Ghost(toks), Ghost(j));
        let node = Expression { op, exprs };
        proof {
            assert(expr_view(node) == (ExprModel { op: op, children: exprs_view(node.exprs@) }));
        }
        Ok(node)
    }
}

} // verus!
