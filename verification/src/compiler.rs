//! The code generator: walks an AST once, producing an intermediate token
//! stream in which every element stands for one output byte except the
//! symbolic jump placeholders and label markers, and resolves those in a
//! final pass into one contiguous lowercase hex string.

use vstd::prelude::*;

use crate::ast::{expr_view, exprs_view, lemma_exprs_view, ExprModel, Expression, Op};
use crate::encoding::{
    hex_byte_chars, hex_char_of, hex_digits_of, lemma_chunk_len, lemma_nibbles_props, nibbles_of,
    num_bytes, offset_chars, push_char, push_hex_byte,
};

verus! {

/// Why a compilation was rejected.
#[derive(Debug, Clone, Copy, PartialEq, Eq, Structural)]
pub enum CompileError {
    /// A node has a child count its operator does not allow.
    WrongArity,
    /// A literal needs more than thirty-two operand bytes.
    NumberTooLarge,
    /// An operator stands in a position where it cannot be compiled.
    UnsupportedOperator,
    /// A jump placeholder has no matching label definition.
    NoDestinationFound,
    /// A jump placeholder carries no readable label. Placeholders in this
    /// token stream carry their label as a value, so resolution never
    /// reaches this state; the variant completes the error vocabulary.
    MalformedJump,
}

/// One element of the intermediate token stream.
#[derive(Debug, Clone, Copy, PartialEq, Eq, Structural)]
pub enum Tok {
    /// Exactly one output byte.
    Byte(u8),
    /// The two-byte compare-and-negate unit emitted for `NotEq`; it fills a
    /// single stream position.
    Neq,
    /// A placeholder that resolves to the stream index of the matching
    /// label definition, written in hex and padded to a whole byte.
    Jump(u64),
    /// A label definition; it resolves to the `JUMPDEST` byte `5b`.
    Dest(u64),
}

/// Whether `op` is a multiary arithmetic or bitwise operator.
pub open spec fn is_multiary(op: Op) -> bool {
    ||| op is Add
    ||| op is Mul
    ||| op is Div
    ||| op is Sub
    ||| op is Mod
    ||| op is And
    ||| op is Or
    ||| op is XOr
}

/// Whether `op` is a binary comparison operator.
pub open spec fn is_comparison(op: Op) -> bool {
    ||| op is Lt
    ||| op is LtOE
    ||| op is Gt
    ||| op is GtOE
    ||| op is Eq
    ||| op is NotEq
}

/// The opcode byte of a multiary arithmetic or bitwise operator.
pub open spec fn multiary_opcode(op: Op) -> u8 {
    match op {
        Op::Add => 0x01,
        Op::Mul => 0x02,
        Op::Sub => 0x03,
        Op::Div => 0x04,
        Op::Mod => 0x06,
        Op::And => 0x16,
        Op::Or => 0x17,
        Op::XOr => 0x18,
        _ => 0,
    }
}

/// The token a direct binary comparison appends after its operands.
pub open spec fn comparison_tok(op: Op) -> Tok {
    match op {
        Op::Lt => Tok::Byte(0x10),
        Op::Gt => Tok::Byte(0x11),
        Op::Eq => Tok::Byte(0x14),
        _ => Tok::Neq,
    }
}

/// The token stream of the literal `v`: a PUSH opcode selected by the
/// operand byte count, followed by the operand bytes.
pub open spec fn push_toks(v: u32) -> Seq<Tok> {
    seq![Tok::Byte((0x60 + num_bytes(v).len() - 1) as u8)] + num_bytes(v).map_values(
        |b: u8| Tok::Byte(b),
    )
}

/// An upper bound on the fresh labels a node's compilation consumes.
pub open spec fn labels_needed(e: ExprModel) -> nat
    decreases e,
{
    match e.op {
        Op::Num(_) => 0,
        Op::Start => 0,
        Op::End => 0,
        Op::Not => if e.children.len() == 1 {
            labels_needed(e.children[0])
        } else {
            0
        },
        Op::Lt | Op::Gt | Op::Eq | Op::NotEq => if e.children.len() == 2 {
            labels_needed(e.children[0]) + labels_needed(e.children[1])
        } else {
            0
        },
        Op::LtOE | Op::GtOE => if e.children.len() == 2 {
            2 * (labels_needed(e.children[0]) + labels_needed(e.children[1]))
        } else {
            0
        },
        Op::If => if e.children.len() == 3 {
            labels_needed(e.children[0]) + labels_needed(e.children[1]) + labels_needed(
                e.children[2],
            ) + 2
        } else {
            0
        },
        Op::When | Op::Unless => if e.children.len() == 2 {
            labels_needed(e.children[0]) + labels_needed(e.children[1]) + 1
        } else {
            0
        },
        _ => labels_needed_list(e.children),
    }
}

/// An upper bound on the fresh labels a list of nodes consumes.
pub open spec fn labels_needed_list(cs: Seq<ExprModel>) -> nat
    decreases cs,
{
    if cs.len() == 0 {
        0
    } else {
        labels_needed_list(cs.drop_last()) + labels_needed(cs.last())
    }
}

/// The compilation of one node: on success, its token stream together with
/// the next fresh label, starting from the fresh label `l`.
pub open spec fn spec_compile(e: ExprModel, l: nat) -> Result<(Seq<Tok>, nat), CompileError>
    decreases e, 1int,
{
    match e.op {
        Op::Num(v) => if num_bytes(v).len() > 32 {
            Err(CompileError::NumberTooLarge)
        } else {
            Ok((push_toks(v), l))
        },
        Op::Add | Op::Mul | Op::Div | Op::Sub | Op::Mod | Op::And | Op::Or | Op::XOr => {
            if e.children.len() == 1 {
                spec_compile(e.children[0], l)
            } else if e.children.len() == 0 {
                Ok((Seq::empty(), l))
            } else {
                match spec_compile_rev(e.children, l) {
                    Ok((t, l2)) => Ok(
                        (
                            t + Seq::new(
                                (e.children.len() - 1) as nat,
                                |i: int| Tok::Byte(multiary_opcode(e.op)),
                            ),
                            l2,
                        ),
                    ),
                    Err(er) => Err(er),
                }
            }
        },
        Op::Lt | Op::Gt | Op::Eq | Op::NotEq => {
            if e.children.len() != 2 {
                Err(CompileError::WrongArity)
            } else {
                match spec_compile(e.children[0], l) {
                    Ok((lt, l1)) => match spec_compile(e.children[1], l1) {
                        Ok((rt, l2)) => Ok((rt + lt + seq![comparison_tok(e.op)], l2)),
                        Err(er) => Err(er),
                    },
                    Err(er) => Err(er),
                }
            }
        },
        Op::LtOE | Op::GtOE => {
            if e.children.len() != 2 {
                Err(CompileError::WrongArity)
            } else {
                let cmp: Tok = if e.op is LtOE {
                    Tok::Byte(0x10)
                } else {
                    Tok::Byte(0x11)
                };
                match spec_compile(e.children[0], l) {
                    Ok((ltl, l1)) => match spec_compile(e.children[1], l1) {
                        Ok((ltr, l2)) => match spec_compile(e.children[0], l2) {
                            Ok((eql, l3)) => match spec_compile(e.children[1], l3) {
                                Ok((eqr, l4)) => Ok(
                                    (
                                        (eqr + eql + seq![Tok::Byte(0x14)]) + (ltr + ltl
                                            + seq![cmp]) + seq![Tok::Byte(0x17)],
                                        l4,
                                    ),
                                ),
                                Err(er) => Err(er),
                            },
                            Err(er) => Err(er),
                        },
                        Err(er) => Err(er),
                    },
                    Err(er) => Err(er),
                }
            }
        },
        Op::Not => {
            if e.children.len() != 1 {
                Err(CompileError::WrongArity)
            } else {
                match spec_compile(e.children[0], l) {
                    Ok((t, l1)) => Ok((t + seq![Tok::Byte(0x19)], l1)),
                    Err(er) => Err(er),
                }
            }
        },
        Op::If => {
            if e.children.len() != 3 {
                Err(CompileError::WrongArity)
            } else {
                match spec_compile(e.children[0], l) {
                    Ok((cond, l1)) => match spec_compile(e.children[2], l1) {
                        Ok((alt, l2)) => {
                            let dt = l2;
                            let dn = l2 + 1;
                            match spec_compile(e.children[1], l2 + 2) {
                                Ok((body, l3)) => Ok(
                                    (
                                        cond + seq![
                                            Tok::Byte(0x60),
                                            Tok::Jump(dt as u64),
                                            Tok::Byte(0x57),
                                        ] + alt + seq![
                                            Tok::Byte(0x60),
                                            Tok::Jump(dn as u64),
                                            Tok::Byte(0x56),
                                        ] + seq![Tok::Dest(dt as u64)] + body + seq![
                                            Tok::Dest(dn as u64),
                                        ],
                                        l3,
                                    ),
                                ),
                                Err(er) => Err(er),
                            }
                        },
                        Err(er) => Err(er),
                    },
                    Err(er) => Err(er),
                }
            }
        },
        Op::When | Op::Unless => {
            if e.children.len() != 2 {
                Err(CompileError::WrongArity)
            } else {
                match spec_compile(e.children[0], l) {
                    Ok((cond, l1)) => match spec_compile(e.children[1], l1) {
                        Ok((body, l2)) => {
                            let dn = l2;
                            let negate: Seq<Tok> = if e.op is When {
                                seq![Tok::Byte(0x15)]
                            } else {
                                Seq::empty()
                            };
                            Ok(
                                (
                                    cond + negate + seq![
                                        Tok::Byte(0x60),
                                        Tok::Jump(dn as u64),
                                        Tok::Byte(0x57),
                                    ] + body + seq![Tok::Dest(dn as u64)],
                                    l2 + 1,
                                ),
                            )
                        },
                        Err(er) => Err(er),
                    },
                    Err(er) => Err(er),
                }
            }
        },
        Op::End => Ok((Seq::empty(), l)),
        Op::Start => Err(CompileError::UnsupportedOperator),
    }
}

/// Compiles a list of nodes left to right, accumulating their streams in
/// reverse order: the last node's code comes first.
pub open spec fn spec_compile_rev(cs: Seq<ExprModel>, l: nat) -> Result<
    (Seq<Tok>, nat),
    CompileError,
>
    decreases cs, 0int,
{
    if cs.len() == 0 {
        Ok((Seq::empty(), l))
    } else {
        match spec_compile_rev(cs.drop_last(), l) {
            Ok((t, l1)) => match spec_compile(cs.last(), l1) {
                Ok((tc, l2)) => Ok((tc + t, l2)),
                Err(er) => Err(er),
            },
            Err(er) => Err(er),
        }
    }
}

/// Compiles a list of nodes left to right, concatenating their streams in
/// order.
pub open spec fn spec_compile_seq(cs: Seq<ExprModel>, l: nat) -> Result<
    (Seq<Tok>, nat),
    CompileError,
>
    decreases cs, 0int,
{
    if cs.len() == 0 {
        Ok((Seq::empty(), l))
    } else {
        match spec_compile_seq(cs.drop_last(), l) {
            Ok((t, l1)) => match spec_compile(cs.last(), l1) {
                Ok((tc, l2)) => Ok((t + tc, l2)),
                Err(er) => Err(er),
            },
            Err(er) => Err(er),
        }
    }
}

/// The index of the first label definition for `lbl`, if any.
pub open spec fn find_dest(ts: Seq<Tok>, lbl: u64) -> Option<int>
    decreases ts.len(),
{
    if ts.len() == 0 {
        None
    } else if ts[0] == Tok::Dest(lbl) {
        Some(0)
    } else {
        match find_dest(ts.drop_first(), lbl) {
            Some(i) => Some(i + 1),
            None => None,
        }
    }
}

/// The characters one token contributes to the output, or `None` for a jump
/// placeholder with no matching label definition in the stream.
pub open spec fn tok_chars(ts: Seq<Tok>, t: Tok) -> Option<Seq<char>> {
    match t {
        Tok::Byte(b) => Some(hex_byte_chars(b)),
        Tok::Neq => Some(seq!['1', '4', '1', '5']),
        Tok::Dest(_) => Some(seq!['5', 'b']),
        Tok::Jump(lbl) => match find_dest(ts, lbl) {
            Some(i) => Some(offset_chars(i as nat)),
            None => None,
        },
    }
}

/// Whether every jump placeholder in the stream has a matching label
/// definition.
pub open spec fn all_resolvable(ts: Seq<Tok>) -> bool {
    forall|i: int| 0 <= i < ts.len() ==> tok_chars(ts, ts[i]) is Some
}

/// The output characters of the first `n` tokens of the stream.
pub open spec fn resolved_prefix(ts: Seq<Tok>, n: int) -> Seq<char>
    decreases n,
{
    if n <= 0 {
        Seq::empty()
    } else {
        resolved_prefix(ts, n - 1) + match tok_chars(ts, ts[n - 1]) {
            Some(s) => s,
            None => Seq::empty(),
        }
    }
}

/// The resolution pass over a complete token stream: every placeholder is
/// replaced by the padded hex digits of the index of its first matching
/// label definition, every label definition by the `JUMPDEST` byte, and
/// every byte token by its two hex characters.
pub open spec fn resolve_toks(ts: Seq<Tok>) -> Result<Seq<char>, CompileError> {
    if all_resolvable(ts) {
        Ok(resolved_prefix(ts, ts.len() as int))
    } else {
        Err(CompileError::NoDestinationFound)
    }
}

/// The compilation of a whole program: the top-level children compiled in
/// order and concatenated, followed by the resolution pass.
pub open spec fn spec_compile_program(prog: ExprModel, l: nat) -> Result<Seq<char>, CompileError> {
    match spec_compile_seq(prog.children, l) {
        Ok((ts, _)) => resolve_toks(ts),
        Err(er) => Err(er),
    }
}

/// Whether an executable compilation step returned exactly what the
/// mathematical compilation returns.
pub open spec fn compile_matches(
    r: Result<(Vec<Tok>, u64), CompileError>,
    s: Result<(Seq<Tok>, nat), CompileError>,
) -> bool {
    match (r, s) {
        (Ok((t, l2)), Ok((st, sl))) => t@ == st && l2 as nat == sl,
        (Err(a), Err(b)) => a == b,
        _ => false,
    }
}

/// Whether the driver returned exactly what the mathematical program
/// compilation returns.
pub open spec fn output_matches(
    r: Result<String, CompileError>,
    s: Result<Seq<char>, CompileError>,
) -> bool {
    match (r, s) {
        (Ok(a), Ok(b)) => a@ == b,
        (Err(x), Err(y)) => x == y,
        _ => false,
    }
}

/// A prefix never demands more labels than the whole list.
proof fn lemma_needed_take_le(cs: Seq<ExprModel>, j: int)
    requires
        0 <= j <= cs.len(),
    ensures
        labels_needed_list(cs.take(j)) <= labels_needed_list(cs),
    decreases cs.len() - j,
{
    if j < cs.len() {
        assert(cs.take(j + 1).drop_last() =~= cs.take(j));
        assert(cs.take(j + 1).last() == cs[j]);
        lemma_needed_take_le(cs, j + 1);
    } else {
        assert(cs.take(j) =~= cs);
    }
}

/// A failed prefix decides the whole reversed compilation.
proof fn lemma_rev_take_err(cs: Seq<ExprModel>, l: nat, j: int)
    requires
        0 <= j <= cs.len(),
        spec_compile_rev(cs.take(j), l) is Err,
    ensures
        spec_compile_rev(cs, l) == spec_compile_rev(cs.take(j), l),
    decreases cs.len() - j,
{
    if j < cs.len() {
        assert(cs.take(j + 1).drop_last() =~= cs.take(j));
        lemma_rev_take_err(cs, l, j + 1);
    } else {
        assert(cs.take(j) =~= cs);
    }
}

/// A failed prefix decides the whole in-order compilation.
proof fn lemma_seq_take_err(cs: Seq<ExprModel>, l: nat, j: int)
    requires
        0 <= j <= cs.len(),
        spec_compile_seq(cs.take(j), l) is Err,
    ensures
        spec_compile_seq(cs, l) == spec_compile_seq(cs.take(j), l),
    decreases cs.len() - j,
{
    if j < cs.len() {
        assert(cs.take(j + 1).drop_last() =~= cs.take(j));
        lemma_seq_take_err(cs, l, j + 1);
    } else {
        assert(cs.take(j) =~= cs);
    }
}

/// `find_dest` returns the first matching index, and `None` exactly when no
/// definition for the label is present.
pub proof fn lemma_find_dest(ts: Seq<Tok>, lbl: u64)
    ensures
        match find_dest(ts, lbl) {
            Some(i) => 0 <= i < ts.len() && ts[i] == Tok::Dest(lbl) && (forall|k: int|
                0 <= k < i ==> ts[k] != Tok::Dest(lbl)),
            None => forall|k: int| 0 <= k < ts.len() ==> ts[k] != Tok::Dest(lbl),
        },
    decreases ts.len(),
{
    if ts.len() > 0 && ts[0] != Tok::Dest(lbl) {
        let rest = ts.drop_first();
        lemma_find_dest(rest, lbl);
        assert(forall|k: int| 0 <= k < rest.len() ==> rest[k] == ts[k + 1]);
        match find_dest(rest, lbl) {
            Some(i) => {
                assert(ts[i + 1] == rest[i]);
                assert forall|k: int| 0 <= k < i + 1 implies ts[k] != Tok::Dest(lbl) by {
                    if k >= 1 {
                        assert(ts[k] == rest[k - 1]);
                    }
                }
            },
            None => {
                assert forall|k: int| 0 <= k < ts.len() implies ts[k] != Tok::Dest(lbl) by {
                    if k >= 1 {
                        assert(ts[k] == rest[k - 1]);
                    }
                }
            },
        }
    }
}

/// The multiary arithmetic and bitwise opcode, executably.
fn multiary_opcode_of(op: Op) -> (b: u8)
    ensures
        b == multiary_opcode(op),
{
    match op {
        Op::Add => 0x01,
        Op::Mul => 0x02,
        Op::Sub => 0x03,
        Op::Div => 0x04,
        Op::Mod => 0x06,
        Op::And => 0x16,
        Op::Or => 0x17,
        Op::XOr => 0x18,
        _ => 0x00,
    }
}

/// Adds with saturation at the type's limit.
fn sat_add(a: u64, b: u64) -> (c: u64)
    ensures
        c as nat <= a + b,
        c < u64::MAX ==> c as nat == a + b,
{
    if a > u64::MAX - b {
        u64::MAX
    } else {
        a + b
    }
}

/// Doubles with saturation at the type's limit.
fn sat_double(a: u64) -> (c: u64)
    ensures
        c as nat <= 2 * a,
        c < u64::MAX ==> c as nat == 2 * a,
{
    if a > u64::MAX / 2 {
        u64::MAX
    } else {
        2 * a
    }
}

/// The label demand of one node, saturated at the type's limit.
#[verifier::loop_isolation(false)]
fn label_demand(e: &Expression) -> (n: u64)
    ensures
        n as nat <= labels_needed(expr_view(*e)),
        n < u64::MAX ==> n as nat == labels_needed(expr_view(*e)),
    decreases *e, 1int,
{
    proof {
        lemma_exprs_view(e.exprs@);
    }
    match e.op {
        Op::Num(_) => 0,
        Op::Start => 0,
        Op::End => 0,
        Op::Not => {
            if e.exprs.len() == 1 {
                label_demand(&e.exprs[0])
            } else {
                0
            }
        },
        Op::Lt | Op::Gt | Op::Eq | Op::NotEq => {
            if e.exprs.len() == 2 {
                let a = label_demand(&e.exprs[0]);
                let b = label_demand(&e.exprs[1]);
                sat_add(a, b)
            } else {
                0
            }
        },
        Op::LtOE | Op::GtOE => {
            if e.exprs.len() == 2 {
                let a = label_demand(&e.exprs[0]);
                let b = label_demand(&e.exprs[1]);
                sat_double(sat_add(a, b))
            } else {
                0
            }
        },
        Op::If => {
            if e.exprs.len() == 3 {
                let a = label_demand(&e.exprs[0]);
                let b = label_demand(&e.exprs[1]);
                let c = label_demand(&e.exprs[2]);
                sat_add(sat_add(sat_add(a, b), c), 2)
            } else {
                0
            }
        },
        Op::When | Op::Unless => {
            if e.exprs.len() == 2 {
                let a = label_demand(&e.exprs[0]);
                let b = label_demand(&e.exprs[1]);
                sat_add(sat_add(a, b), 1)
            } else {
                0
            }
        },
        _ => label_demand_list(&e.exprs),
    }
}

/// The label demand of a list of nodes, saturated at the type's limit.
#[verifier::loop_isolation(false)]
fn label_demand_list(es: &Vec<Expression>) -> (n: u64)
    ensures
        n as nat <= labels_needed_list(exprs_view(es@)),
        n < u64::MAX ==> n as nat == labels_needed_list(exprs_view(es@)),
    decreases es@, 0int,
{
    let ghost cs = exprs_view(es@);
    proof {
        lemma_exprs_view(es@);
    }
    let mut acc: u64 = 0;
    let m = es.len();
    let mut i: usize = 0;
    while i < m
        invariant
            i <= m,
            acc as nat <= labels_needed_list(cs.take(i as int)),
            acc < u64::MAX ==> acc as nat == labels_needed_list(cs.take(i as int)),
        decreases m - i,
    {
        proof {
            assert(cs.take(i + 1).drop_last() =~= cs.take(i as int));
            assert(cs.take(i + 1).last() == cs[i as int]);
        }
        let d = label_demand(&es[i]);
        acc = sat_add(acc, d);
        i += 1;
    }
    proof {
        assert(cs.take(m as int) =~= cs);
    }
    acc
}

/// Whether the program's jump-label demand stays within the label counter's
/// range, so that the generator's precondition holds. A saturated demand is
/// reported as out of range.
pub fn fits_label_limit(prog: &Expression) -> (b: bool)
    ensures
        b ==> labels_needed_list(expr_view(*prog).children) <= u64::MAX,
{
    let n = label_demand_list(&prog.exprs);
    n < u64::MAX
}

/// The code generator: holds the program and the next fresh jump label.
pub struct Compiler {
    pub ast: Expression,
    pub next_label: u64,
}

impl Compiler {
    /// A generator for the given program, with no labels consumed yet.
    pub fn new(ast: Expression) -> (c: Compiler)
        ensures
            c.ast == ast,
            c.next_label == 0,
    {
        Compiler { ast, next_label: 0 }
    }

    /// Compiles the whole program: each top-level expression in order, the
    /// streams concatenated, and the placeholders resolved into one
    /// lowercase hex string. The result, success or error, is exactly what
    /// the mathematical compilation of the held program yields.
    #[verifier::loop_isolation(false)]
    pub fn compile(&mut self) -> (r: Result<String, CompileError>)
        requires
            old(self).next_label + labels_needed_list(expr_view(old(self).ast).children)
                <= u64::MAX,
        ensures
            final(self).ast == old(self).ast,
            final(self).next_label <= old(self).next_label + labels_needed_list(
                expr_view(old(self).ast).children,
            ),
            output_matches(
                r,
                spec_compile_program(expr_view(old(self).ast), old(self).next_label as nat),
            ),
    {
        let ghost cs = expr_view(old(self).ast).children;
        proof {
            lemma_exprs_view(self.ast.exprs@);
        }
        let mut all: Vec<Tok> = Vec::new();
        let mut cur: u64 = self.next_label;
        let n = self.ast.exprs.len();
        let mut i: usize = 0;
        while i < n
            invariant
                i <= n,
                self == old(self),
                spec_compile_seq(cs.take(i as int), old(self).next_label as nat) == Ok::<
                    _,
                    CompileError,
                >((all@, cur as nat)),
                cur <= old(self).next_label + labels_needed_list(cs.take(i as int)),
            decreases n - i,
        {
            proof {
                assert(cs.take(i + 1).drop_last() =~= cs.take(i as int));
                assert(cs.take(i + 1).last() == cs[i as int]);
                lemma_needed_take_le(cs, i + 1);
            }
            match Self::compile_expression(&self.ast.exprs[i], cur) {
                Ok((mut t, l2)) => {
                    all.append(&mut t);
                    cur = l2;
                },
                Err(er) => {
                    proof {
                        lemma_seq_take_err(cs, old(self).next_label as nat, i + 1);
                    }
                    return Err(er);
                },
            }
            i += 1;
        }
        proof {
            assert(cs.take(n as int) =~= cs);
        }
        self.next_label = cur;
        Self::resolve(&all)
    }

    /// Compiles one node into its token stream, handing back the next fresh
    /// label, exactly as the mathematical compilation does.
    #[verifier::loop_isolation(false)]
    fn compile_expression(e: &Expression, l: u64) -> (r: Result<(Vec<Tok>, u64), CompileError>)
        requires
            l + labels_needed(expr_view(*e)) <= u64::MAX,
        ensures
            compile_matches(r, spec_compile(expr_view(*e), l as nat)),
            r matches Ok(p) ==> p.1 <= l + labels_needed(expr_view(*e)),
        decreases *e, 1int,
    {
        proof {
            lemma_exprs_view(e.exprs@);
        }
        match e.op {
            Op::Num(v) => {
                let nibs = hex_digits_of(v as u64);
                proof {
                    lemma_nibbles_props(v as nat);
                    lemma_chunk_len(nibs@);
                }
                let n = nibs.len();
                let mut bytes: Vec<u8> = Vec::new();
                let mut k: usize = 0;
                proof {
                    assert(nibs@.skip(0) =~= nibs@);
                    assert(bytes@ + crate::encoding::chunk_bytes(nibs@) =~= crate::encoding::chunk_bytes(
                        nibs@,
                    ));
                }
                while k < n - 1
                    invariant
                        k <= n,
                        crate::encoding::chunk_bytes(nibs@) == bytes@
                            + crate::encoding::chunk_bytes(nibs@.skip(k as int)),
                    decreases n - k,
                {
                    let b: u8 = 16 * nibs[k] + nibs[k + 1];
                    bytes.push(b);
                    proof {
                        assert(nibs@.skip(k as int).skip(2) =~= nibs@.skip(k as int + 2));
                        assert(crate::encoding::chunk_bytes(nibs@) =~= bytes@
                            + crate::encoding::chunk_bytes(nibs@.skip(k as int + 2)));
                    }
                    k += 2;
                }
                if k < n {
                    bytes.push(nibs[k]);
                    proof {
                        assert(nibs@.skip(k as int) =~= seq![nibs@[k as int]]);
                        assert(crate::encoding::chunk_bytes(nibs@) =~= bytes@);
                    }
                } else {
                    proof {
                        assert(nibs@.skip(k as int) =~= Seq::<u8>::empty());
                        assert(crate::encoding::chunk_bytes(nibs@) =~= bytes@);
                    }
                }
                if bytes.len() > 32 {
                    return Err(CompileError::NumberTooLarge);
                }
                let count_m1: u8 = (bytes.len() - 1) as u8;
                let opcode: u8 = 0x60 + count_m1;
                let mut toks: Vec<Tok> = Vec::new();
                toks.push(Tok::Byte(opcode));
                let m = bytes.len();
                let mut j: usize = 0;
                while j < m
                    invariant
                        j <= m,
                        toks@.len() == j + 1,
                        toks@[0] == Tok::Byte(opcode),
                        forall|q: int| 0 <= q < j ==> toks@[q + 1] == Tok::Byte(bytes@[q]),
                    decreases m - j,
                {
                    toks.push(Tok::Byte(bytes[j]));
                    j += 1;
                }
                proof {
                    assert(toks@ =~= push_toks(v));
                }
                Ok((toks, l))
            },
            Op::Add | Op::Mul | Op::Div | Op::Sub | Op::Mod | Op::And | Op::Or | Op::XOr => {
                Self::compile_multiary(e, l)
            },
            Op::Lt | Op::LtOE | Op::Gt | Op::GtOE | Op::Eq | Op::NotEq => {
                Self::compile_binary(e, l)
            },
            Op::Not => Self::compile_unary(e, l),
            Op::If => Self::compile_if(e, l),
            Op::When | Op::Unless => Self::compile_when_or_unless(e, l),
            Op::End => Ok((Vec::new(), l)),
            Op::Start => Err(CompileError::UnsupportedOperator),
        }
    }

    /// A multiary node: every child compiled, the streams accumulated in
    /// reverse syntactic order, and one opcode per pairwise reduction. One
    /// child passes through untouched; none compiles to nothing.
    #[verifier::loop_isolation(false)]
    fn compile_multiary(e: &Expression, l: u64) -> (r: Result<(Vec<Tok>, u64), CompileError>)
        requires
            is_multiary(e.op),
            l + labels_needed(expr_view(*e)) <= u64::MAX,
        ensures
            compile_matches(r, spec_compile(expr_view(*e), l as nat)),
            r matches Ok(p) ==> p.1 <= l + labels_needed(expr_view(*e)),
        decreases *e, 0int,
    {
        let ghost cs = expr_view(*e).children;
        proof {
            lemma_exprs_view(e.exprs@);
        }
        if e.exprs.len() > 1 {
            let mut code: Vec<Tok> = Vec::new();
            let mut cur: u64 = l;
            let n = e.exprs.len();
            let mut i: usize = 0;
            while i < n
                invariant
                    i <= n,
                    spec_compile_rev(cs.take(i as int), l as nat) == Ok::<_, CompileError>(
                        (code@, cur as nat),
                    ),
                    cur <= l + labels_needed_list(cs.take(i as int)),
                decreases n - i,
            {
                proof {
                    assert(cs.take(i + 1).drop_last() =~= cs.take(i as int));
                    assert(cs.take(i + 1).last() == cs[i as int]);
                    lemma_needed_take_le(cs, i + 1);
                    assert(labels_needed(expr_view(*e)) == labels_needed_list(cs));
                }
                match Self::compile_expression(&e.exprs[i], cur) {
                    Ok((mut t, l2)) => {
                        t.append(&mut code);
                        code = t;
                        cur = l2;
                    },
                    Err(er) => {
                        proof {
                            lemma_rev_take_err(cs, l as nat, i + 1);
                        }
                        return Err(er);
                    },
                }
                i += 1;
            }
            proof {
                assert(cs.take(n as int) =~= cs);
            }
            let opcode = multiary_opcode_of(e.op);
            let ghost base = code@;
            let mut p: usize = 0;
            while p < n - 1
                invariant
                    p <= n - 1,
                    code@ == base + Seq::new(p as nat, |q: int| Tok::Byte(multiary_opcode(e.op))),
                decreases n - p,
            {
                code.push(Tok::Byte(opcode));
                proof {
                    assert(base + Seq::new((p + 1) as nat, |q: int| Tok::Byte(multiary_opcode(e.op)))
                        =~= (base + Seq::new(p as nat, |q: int| Tok::Byte(multiary_opcode(e.op)))).push(
                        Tok::Byte(multiary_opcode(e.op)),
                    ));
                }
                p += 1;
            }
            Ok((code, cur))
        } else if e.exprs.len() == 1 {
            proof {
                assert(cs.drop_last() =~= Seq::<ExprModel>::empty());
                assert(labels_needed_list(cs.drop_last()) == 0);
                assert(cs.last() == cs[0]);
                assert(labels_needed_list(cs) == labels_needed(cs[0]));
                assert(labels_needed(expr_view(*e)) == labels_needed_list(cs));
            }
            let r = Self::compile_expression(&e.exprs[0], l);
            r
        } else {
            Ok((Vec::new(), l))
        }
    }

    /// A binary comparison node: both operands compiled once and laid out as
    /// right operand, left operand, opcode. The or-equal forms are
    /// synthesized: the strict comparison and the equality are each compiled
    /// as full sub-expressions and joined with the OR opcode.
    fn compile_binary(e: &Expression, l: u64) -> (r: Result<(Vec<Tok>, u64), CompileError>)
        requires
            is_comparison(e.op),
            l + labels_needed(expr_view(*e)) <= u64::MAX,
        ensures
            compile_matches(r, spec_compile(expr_view(*e), l as nat)),
            r matches Ok(p) ==> p.1 <= l + labels_needed(expr_view(*e)),
        decreases *e, 0int,
    {
        proof {
            lemma_exprs_view(e.exprs@);
        }
        if e.exprs.len() != 2 {
            return Err(CompileError::WrongArity);
        }
        match e.op {
            Op::LtOE | Op::GtOE => {
                let cmp_byte: u8 = if matches!(e.op, Op::LtOE) {
                    0x10
                } else {
                    0x11
                };
                let (ltl, l1) = match Self::compile_expression(&e.exprs[0], l) {
                    Ok(p) => p,
                    Err(er) => {
                        return Err(er);
                    },
                };
                let (ltr, l2) = match Self::compile_expression(&e.exprs[1], l1) {
                    Ok(p) => p,
                    Err(er) => {
                        return Err(er);
                    },
                };
                let (eql, l3) = match Self::compile_expression(&e.exprs[0], l2) {
                    Ok(p) => p,
                    Err(er) => {
                        return Err(er);
                    },
                };
                let (eqr, l4) = match Self::compile_expression(&e.exprs[1], l3) {
                    Ok(p) => p,
                    Err(er) => {
                        return Err(er);
                    },
                };
                let ghost spec_out = (eqr@ + eql@ + seq![Tok::Byte(0x14)]) + (ltr@ + ltl@
                    + seq![Tok::Byte(cmp_byte)]) + seq![Tok::Byte(0x17)];
                let mut out = eqr;
                let mut eql = eql;
                let mut ltr = ltr;
                let mut ltl = ltl;
                out.append(&mut eql);
                out.push(Tok::Byte(0x14));
                out.append(&mut ltr);
                out.append(&mut ltl);
                out.push(Tok::Byte(cmp_byte));
                out.push(Tok::Byte(0x17));
                proof {
                    assert(out@ =~= spec_out);
                }
                Ok((out, l4))
            },
            _ => {
                let (lt, l1) = match Self::compile_expression(&e.exprs[0], l) {
                    Ok(p) => p,
                    Err(er) => {
                        return Err(er);
                    },
                };
                let (rt, l2) = match Self::compile_expression(&e.exprs[1], l1) {
                    Ok(p) => p,
                    Err(er) => {
                        return Err(er);
                    },
                };
                let tok: Tok = match e.op {
                    Op::Lt => Tok::Byte(0x10),
                    Op::Gt => Tok::Byte(0x11),
                    Op::Eq => Tok::Byte(0x14),
                    _ => Tok::Neq,
                };
                let ghost spec_out = rt@ + lt@ + seq![comparison_tok(e.op)];
                let mut out = rt;
                let mut lt = lt;
                out.append(&mut lt);
                out.push(tok);
                proof {
                    assert(out@ =~= spec_out);
                }
                Ok((out, l2))
            },
        }
    }

    /// A unary node: the operand's code followed by the NOT opcode.
    fn compile_unary(e: &Expression, l: u64) -> (r: Result<(Vec<Tok>, u64), CompileError>)
        requires
            e.op is Not,
            l + labels_needed(expr_view(*e)) <= u64::MAX,
        ensures
            compile_matches(r, spec_compile(expr_view(*e), l as nat)),
            r matches Ok(p) ==> p.1 <= l + labels_needed(expr_view(*e)),
        decreases *e, 0int,
    {
        proof {
            lemma_exprs_view(e.exprs@);
        }
        if e.exprs.len() != 1 {
            return Err(CompileError::WrongArity);
        }
        let (mut out, l1) = match Self::compile_expression(&e.exprs[0], l) {
            Ok(p) => p,
            Err(er) => {
                return Err(er);
            },
        };
        let ghost spec_out = out@ + seq![Tok::Byte(0x19)];
        out.push(Tok::Byte(0x19));
        proof {
            assert(out@ =~= spec_out);
        }
        Ok((out, l1))
    }

    /// A conditional with an alternative: condition, alternative and taken
    /// branch compiled in that order, two fresh labels drawn, and the jump
    /// glue laid out so a truthy condition skips the alternative.
    fn compile_if(e: &Expression, l: u64) -> (r: Result<(Vec<Tok>, u64), CompileError>)
        requires
            e.op is If,
            l + labels_needed(expr_view(*e)) <= u64::MAX,
        ensures
            compile_matches(r, spec_compile(expr_view(*e), l as nat)),
            r matches Ok(p) ==> p.1 <= l + labels_needed(expr_view(*e)),
        decreases *e, 0int,
    {
        proof {
            lemma_exprs_view(e.exprs@);
        }
        if e.exprs.len() != 3 {
            return Err(CompileError::WrongArity);
        }
        let (cond, l1) = match Self::compile_expression(&e.exprs[0], l) {
            Ok(p) => p,
            Err(er) => {
                return Err(er);
            },
        };
        let (alt, l2) = match Self::compile_expression(&e.exprs[2], l1) {
            Ok(p) => p,
            Err(er) => {
                return Err(er);
            },
        };
        let dt: u64 = l2;
        let dn: u64 = l2 + 1;
        let (body, l3) = match Self::compile_expression(&e.exprs[1], l2 + 2) {
            Ok(p) => p,
            Err(er) => {
                return Err(er);
            },
        };
        let ghost spec_out = cond@ + seq![Tok::Byte(0x60), Tok::Jump(dt), Tok::Byte(0x57)] + alt@
            + seq![Tok::Byte(0x60), Tok::Jump(dn), Tok::Byte(0x56)] + seq![Tok::Dest(dt)] + body@
            + seq![Tok::Dest(dn)];
        let mut out = cond;
        let mut alt = alt;
        let mut body = body;
        out.push(Tok::Byte(0x60));
        out.push(Tok::Jump(dt));
        out.push(Tok::Byte(0x57));
        out.append(&mut alt);
        out.push(Tok::Byte(0x60));
        out.push(Tok::Jump(dn));
        out.push(Tok::Byte(0x56));
        out.push(Tok::Dest(dt));
        out.append(&mut body);
        out.push(Tok::Dest(dn));
        proof {
            assert(out@ =~= spec_out);
        }
        Ok((out, l3))
    }

    /// A guarded body: condition and body compiled in order, one fresh
    /// label drawn, and a skip-jump laid out; `When` negates the condition
    /// first so the body runs exactly when the condition is truthy.
    fn compile_when_or_unless(e: &Expression, l: u64) -> (r: Result<(Vec<Tok>, u64), CompileError>)
        requires
            e.op is When || e.op is Unless,
            l + labels_needed(expr_view(*e)) <= u64::MAX,
        ensures
            compile_matches(r, spec_compile(expr_view(*e), l as nat)),
            r matches Ok(p) ==> p.1 <= l + labels_needed(expr_view(*e)),
        decreases *e, 0int,
    {
        proof {
            lemma_exprs_view(e.exprs@);
        }
        if e.exprs.len() != 2 {
            return Err(CompileError::WrongArity);
        }
        let (cond, l1) = match Self::compile_expression(&e.exprs[0], l) {
            Ok(p) => p,
            Err(er) => {
                return Err(er);
            },
        };
        let (body, l2) = match Self::compile_expression(&e.exprs[1], l1) {
            Ok(p) => p,
            Err(er) => {
                return Err(er);
            },
        };
        let dn: u64 = l2;
        let ghost negate: Seq<Tok> = if e.op is When {
            seq![Tok::Byte(0x15)]
        } else {
            Seq::empty()
        };
        let ghost spec_out = cond@ + negate + seq![Tok::Byte(0x60), Tok::Jump(dn), Tok::Byte(0x57)]
            + body@ + seq![Tok::Dest(dn)];
        let mut out = cond;
        let mut body = body;
        if matches!(e.op, Op::When) {
            out.push(Tok::Byte(0x15));
        }
        out.push(Tok::Byte(0x60));
        out.push(Tok::Jump(dn));
        out.push(Tok::Byte(0x57));
        out.append(&mut body);
        out.push(Tok::Dest(dn));
        proof {
            assert(out@ =~= spec_out);
        }
        Ok((out, l2 + 1))
    }

    /// The resolution pass over a completed token stream, exactly as the
    /// mathematical pass describes it.
    #[verifier::loop_isolation(false)]
    pub fn resolve(tokens: &Vec<Tok>) -> (r: Result<String, CompileError>)
        ensures
            output_matches(r, resolve_toks(tokens@)),
    {
        let n = tokens.len();
        let mut out = String::new();
        let mut i: usize = 0;
        while i < n
            invariant
                i <= n,
                forall|k: int| 0 <= k < i ==> tok_chars(tokens@, tokens@[k]) is Some,
                out@ == resolved_prefix(tokens@, i as int),
            decreases n - i,
        {
            match tokens[i] {
                Tok::Byte(b) => {
                    push_hex_byte(&mut out, b);
                },
                Tok::Neq => {
                    push_char(&mut out, '1');
                    push_char(&mut out, '4');
                    push_char(&mut out, '1');
                    push_char(&mut out, '5');
                    proof {
                        assert(out@ =~= resolved_prefix(tokens@, i + 1));
                    }
                },
                Tok::Dest(_) => {
                    push_char(&mut out, '5');
                    push_char(&mut out, 'b');
                    proof {
                        assert(out@ =~= resolved_prefix(tokens@, i + 1));
                    }
                },
                Tok::Jump(lbl) => {
                    let mut j: usize = 0;
                    let mut found: bool = false;
                    let mut at: usize = 0;
                    while j < n
                        invariant
                            j <= n,
                            !found ==> forall|k: int|
                                0 <= k < j ==> tokens@[k] != Tok::Dest(lbl),
                            found ==> at < j && tokens@[at as int] == Tok::Dest(lbl) && (forall|
                                k: int,
                            |
                                0 <= k < at ==> tokens@[k] != Tok::Dest(lbl)),
                        decreases n - j,
                    {
                        if !found && tokens[j] == Tok::Dest(lbl) {
                            found = true;
                            at = j;
                        }
                        j += 1;
                    }
                    proof {
                        lemma_find_dest(tokens@, lbl);
                    }
                    if found {
                        proof {
                            assert(find_dest(tokens@, lbl) == Some(at as int));
                        }
                        Self::push_offset_hex(&mut out, at);
                    } else {
                        proof {
                            assert(find_dest(tokens@, lbl) is None);
                            assert(tok_chars(tokens@, tokens@[i as int]) is None);
                            assert(!all_resolvable(tokens@));
                        }
                        return Err(CompileError::NoDestinationFound);
                    }
                },
            }
            i += 1;
        }
        proof {
            assert(all_resolvable(tokens@));
        }
        Ok(out)
    }

    /// Appends the padded lowercase hex digits of a resolved jump
    /// destination index.
    #[verifier::loop_isolation(false)]
    fn push_offset_hex(s: &mut String, idx: usize)
        ensures
            final(s)@ == old(s)@ + offset_chars(idx as nat),
    {
        let ds = hex_digits_of(idx as u64);
        proof {
            lemma_nibbles_props(idx as nat);
        }
        let ghost mapped = nibbles_of(idx as nat).map_values(
            |d: u8| crate::encoding::hex_char(d),
        );
        if ds.len() % 2 == 1 {
            let z = hex_char_of(0);
            push_char(s, z);
        }
        let ghost pad = s@;
        let m = ds.len();
        let mut j: usize = 0;
        while j < m
            invariant
                j <= m,
                s@ == pad + mapped.take(j as int),
            decreases m - j,
        {
            let c = hex_char_of(ds[j]);
            push_char(s, c);
            proof {
                assert(mapped.take(j + 1) =~= mapped.take(j as int).push(mapped[j as int]));
                assert(s@ =~= pad + mapped.take(j + 1));
            }
            j += 1;
        }
        proof {
            assert(mapped.take(m as int) =~= mapped);
            assert(s@ =~= old(s)@ + offset_chars(idx as nat));
        }
    }
}

} // verus!
