//! Statements of the behaviour the code generator guarantees, proved from
//! the mathematical compilation itself.

use vstd::prelude::*;

use crate::ast::{ExprModel, Op};
use crate::compiler::{
    all_resolvable, comparison_tok, find_dest, is_comparison, is_multiary, lemma_find_dest,
    multiary_opcode, push_toks, resolve_toks, resolved_prefix, spec_compile, spec_compile_program,
    spec_compile_rev, spec_compile_seq, tok_chars, CompileError, Tok,
};
use crate::encoding::{
    be_bytes, hex_byte_chars, hex_char, lemma_chunk_even_is_be, lemma_num_bytes_small, nibbles_of,
    num_bytes, offset_chars,
};

verus! {

/// The tree of a bare literal.
pub open spec fn literal_model(v: u32) -> ExprModel {
    ExprModel { op: Op::Num(v), children: Seq::empty() }
}

/// The tree of an operator applied to two literals.
pub open spec fn pair_model(op: Op, a: u32, b: u32) -> ExprModel {
    ExprModel { op: op, children: seq![literal_model(a), literal_model(b)] }
}

/// A `u32` literal always encodes: it needs at most four operand bytes, and
/// the encoder rejects only literals needing more than thirty-two.
pub proof fn lemma_literal_always_fits(v: u32, l: nat)
    ensures
        1 <= num_bytes(v).len() <= 4,
        spec_compile(literal_model(v), l) == Ok::<_, CompileError>((push_toks(v), l)),
{
    lemma_num_bytes_small(v);
}

/// For a literal with an even hex digit count, the PUSH opcode byte is
/// `0x60 + byteCount - 1` and the operand bytes, in emission order, are the
/// literal's big-endian byte representation.
pub proof fn lemma_push_big_endian(v: u32, l: nat)
    requires
        nibbles_of(v as nat).len() % 2 == 0,
    ensures
        spec_compile(literal_model(v), l) == Ok::<_, CompileError>((push_toks(v), l)),
        push_toks(v).len() == 1 + be_bytes(v as nat).len(),
        push_toks(v)[0] == Tok::Byte((0x60 + be_bytes(v as nat).len() - 1) as u8),
        forall|i: int|
            0 <= i < be_bytes(v as nat).len() ==> push_toks(v)[i + 1] == Tok::Byte(
                be_bytes(v as nat)[i],
            ),
{
    lemma_num_bytes_small(v);
    lemma_chunk_even_is_be(v as nat);
}

/// A multiary node with two or more children emits exactly one opcode per
/// pairwise reduction — child count minus one — after its operands, each
/// equal to the operator's table opcode.
pub proof fn lemma_multiary_opcode_count(e: ExprModel, l: nat)
    requires
        is_multiary(e.op),
        e.children.len() >= 2,
        spec_compile(e, l) is Ok,
    ensures
        spec_compile_rev(e.children, l) is Ok,
        ({
            let toks = spec_compile(e, l)->Ok_0.0;
            let operands = spec_compile_rev(e.children, l)->Ok_0.0;
            &&& toks.len() == operands.len() + e.children.len() - 1
            &&& forall|i: int|
                operands.len() <= i < toks.len() ==> toks[i] == Tok::Byte(multiary_opcode(e.op))
            &&& forall|i: int| 0 <= i < operands.len() ==> toks[i] == operands[i]
        }),
{
}

/// A strict comparison of two literals lays out right operand, left
/// operand, opcode; the or-equal form compiles the equality and the strict
/// comparison as two full sub-compilations — each operand appears twice —
/// joined by the OR opcode, so its length is the sum of both parts plus one.
pub proof fn lemma_comparison_layout(a: u32, b: u32, l: nat)
    ensures
        spec_compile(pair_model(Op::Lt, a, b), l) == Ok::<_, CompileError>(
            (push_toks(b) + push_toks(a) + seq![Tok::Byte(0x10)], l),
        ),
        ({
            let eq_code = push_toks(b) + push_toks(a) + seq![Tok::Byte(0x14)];
            let lt_code = push_toks(b) + push_toks(a) + seq![Tok::Byte(0x10)];
            &&& spec_compile(pair_model(Op::LtOE, a, b), l) == Ok::<_, CompileError>(
                (eq_code + lt_code + seq![Tok::Byte(0x17)], l),
            )
            &&& (eq_code + lt_code + seq![Tok::Byte(0x17)]).len() == eq_code.len()
                + lt_code.len() + 1
        }),
{
    lemma_literal_always_fits(a, l);
    lemma_literal_always_fits(b, l);
    assert(pair_model(Op::Lt, a, b).children[0] == literal_model(a));
    assert(pair_model(Op::Lt, a, b).children[1] == literal_model(b));
    assert(comparison_tok(Op::Lt) == Tok::Byte(0x10));
    assert(pair_model(Op::LtOE, a, b).children[0] == literal_model(a));
    assert(pair_model(Op::LtOE, a, b).children[1] == literal_model(b));
}

/// A program with no top-level expressions, and a program holding only the
/// terminal expression, both compile to the empty string.
pub proof fn lemma_empty_program(l: nat)
    ensures
        spec_compile_program(ExprModel { op: Op::Start, children: Seq::empty() }, l) == Ok::<
            _,
            CompileError,
        >(Seq::<char>::empty()),
        spec_compile_program(
            ExprModel { op: Op::Start, children: seq![ExprModel { op: Op::End, children: Seq::empty() }] },
            l,
        ) == Ok::<_, CompileError>(Seq::<char>::empty()),
{
    let none = Seq::<ExprModel>::empty();
    assert(spec_compile_seq(none, l) == Ok::<_, CompileError>((Seq::<Tok>::empty(), l)));
    let only_end = seq![ExprModel { op: Op::End, children: Seq::<ExprModel>::empty() }];
    assert(only_end.drop_last() =~= none);
    assert(only_end.last().op is End);
    assert(spec_compile(only_end.last(), l) == Ok::<_, CompileError>((Seq::<Tok>::empty(), l)));
    assert(Seq::<Tok>::empty() + Seq::<Tok>::empty() =~= Seq::<Tok>::empty());
    assert(spec_compile_seq(only_end, l) == Ok::<_, CompileError>((Seq::<Tok>::empty(), l)));
    assert(resolve_toks(Seq::<Tok>::empty()) == Ok::<_, CompileError>(Seq::<char>::empty()));
}

/// Whether every element of the stream is a plain byte token.
pub open spec fn all_bytes(ts: Seq<Tok>) -> bool {
    forall|i: int| 0 <= i < ts.len() ==> (#[trigger] ts[i]) is Byte
}

/// Whether every token of the stream resolves to exactly two characters —
/// one output byte.
pub open spec fn two_char_tokens(ts: Seq<Tok>) -> bool {
    forall|i: int|
        0 <= i < ts.len() ==> (#[trigger] tok_chars(ts, ts[i])) is Some && tok_chars(
            ts,
            ts[i],
        )->Some_0.len() == 2
}

/// A destination index below 256 resolves to exactly the two hex characters
/// of that index as a byte.
pub proof fn lemma_offset_chars_byte(i: nat)
    requires
        i < 256,
    ensures
        offset_chars(i) == hex_byte_chars(i as u8),
{
    if i < 16 {
        assert(nibbles_of(i) =~= seq![i as u8]);
        assert(nibbles_of(i).map_values(|d: u8| hex_char(d)) =~= seq![hex_char(i as u8)]);
        assert(offset_chars(i) =~= seq![hex_char(0), hex_char(i as u8)]);
        assert((i as u8) / 16 == 0 && (i as u8) % 16 == i as u8);
        assert(offset_chars(i) =~= hex_byte_chars(i as u8));
    } else {
        assert(nibbles_of(i / 16) =~= seq![(i / 16) as u8]);
        assert(nibbles_of(i) =~= seq![(i / 16) as u8, (i % 16) as u8]);
        assert(nibbles_of(i).map_values(|d: u8| hex_char(d)) =~= seq![
            hex_char((i / 16) as u8),
            hex_char((i % 16) as u8),
        ]);
        assert((i as u8) / 16 == (i / 16) as u8 && (i as u8) % 16 == (i % 16) as u8);
        assert(offset_chars(i) =~= hex_byte_chars(i as u8));
    }
}

/// In a stream of one-byte resolutions, the whole output is two characters
/// per token.
pub proof fn lemma_uniform_len(ts: Seq<Tok>, n: int)
    requires
        two_char_tokens(ts),
        0 <= n <= ts.len(),
    ensures
        resolved_prefix(ts, n).len() == 2 * n,
    decreases n,
{
    if n > 0 {
        lemma_uniform_len(ts, n - 1);
    }
}

/// In a stream of one-byte resolutions, token `k` of the stream owns output
/// characters `2k` and `2k + 1`: its stream index is its byte offset.
pub proof fn lemma_uniform_slice(ts: Seq<Tok>, k: int, n: int)
    requires
        two_char_tokens(ts),
        0 <= k < n <= ts.len(),
    ensures
        resolved_prefix(ts, n).subrange(2 * k, 2 * k + 2) == tok_chars(ts, ts[k])->Some_0,
    decreases n,
{
    lemma_uniform_len(ts, k);
    lemma_uniform_len(ts, n - 1);
    if n == k + 1 {
        assert(resolved_prefix(ts, n).subrange(2 * k, 2 * k + 2) =~= tok_chars(
            ts,
            ts[k],
        )->Some_0);
    } else {
        lemma_uniform_slice(ts, k, n - 1);
        assert(resolved_prefix(ts, n).subrange(2 * k, 2 * k + 2) =~= resolved_prefix(
            ts,
            n - 1,
        ).subrange(2 * k, 2 * k + 2));
    }
}

/// The token stream a conditional lays out around its parts.
pub open spec fn if_stream(
    cond: Seq<Tok>,
    alt: Seq<Tok>,
    body: Seq<Tok>,
    dt: u64,
    dn: u64,
) -> Seq<Tok> {
    cond + seq![Tok::Byte(0x60), Tok::Jump(dt), Tok::Byte(0x57)] + alt + seq![
        Tok::Byte(0x60),
        Tok::Jump(dn),
        Tok::Byte(0x56),
    ] + seq![Tok::Dest(dt)] + body + seq![Tok::Dest(dn)]
}

/// A compiled conditional is exactly its condition, alternative and taken
/// branch in that emission order, wrapped in the jump glue, with two fresh
/// and therefore distinct labels.
pub proof fn lemma_if_stream_shape(e: ExprModel, l: nat)
    requires
        e.op is If,
        e.children.len() == 3,
        spec_compile(e, l) is Ok,
    ensures
        spec_compile(e.children[0], l) is Ok,
        ({
            let (cond, l1) = spec_compile(e.children[0], l)->Ok_0;
            spec_compile(e.children[2], l1) is Ok && {
                let (alt, l2) = spec_compile(e.children[2], l1)->Ok_0;
                spec_compile(e.children[1], l2 + 2) is Ok && {
                    let (body, l3) = spec_compile(e.children[1], l2 + 2)->Ok_0;
                    spec_compile(e, l)->Ok_0.0 == if_stream(
                        cond,
                        alt,
                        body,
                        l2 as u64,
                        (l2 + 1) as u64,
                    )
                }
            }
        }),
{
}

/// Resolving a conditional whose parts are plain byte streams: every jump
/// placeholder resolves, each to the stream index of its own label's
/// definition; since every token is one output byte, that index is the byte
/// offset of the `JUMPDEST` that opens the jump's target block, whatever
/// the lengths of the two branches; and the two labels never collide.
pub proof fn lemma_if_resolution(cond: Seq<Tok>, alt: Seq<Tok>, body: Seq<Tok>, dt: u64, dn: u64)
    requires
        all_bytes(cond),
        all_bytes(alt),
        all_bytes(body),
        dt != dn,
        cond.len() + alt.len() + body.len() + 8 <= 256,
    ensures
        ({
            let ts = if_stream(cond, alt, body, dt, dn);
            let nc = cond.len() as int;
            let na = alt.len() as int;
            let nb = body.len() as int;
            let i1 = nc + na + 6;
            let i2 = nc + na + nb + 7;
            let out = resolve_toks(ts)->Ok_0;
            &&& resolve_toks(ts) is Ok
            &&& out.len() == 2 * ts.len()
            &&& ts[i1] == Tok::Dest(dt) && ts[i2] == Tok::Dest(dn)
            &&& out.subrange(2 * i1, 2 * i1 + 2) == seq!['5', 'b']
            &&& out.subrange(2 * i2, 2 * i2 + 2) == seq!['5', 'b']
            &&& out.subrange(2 * (nc + 1), 2 * (nc + 1) + 2) == hex_byte_chars(i1 as u8)
            &&& out.subrange(2 * (nc + na + 4), 2 * (nc + na + 4) + 2) == hex_byte_chars(i2 as u8)
        }),
{
    let ts = if_stream(cond, alt, body, dt, dn);
    let nc = cond.len() as int;
    let na = alt.len() as int;
    let nb = body.len() as int;
    let i1 = nc + na + 6;
    let i2 = nc + na + nb + 7;
    assert(ts.len() == nc + na + nb + 8);
    assert(forall|k: int| 0 <= k < nc ==> ts[k] == cond[k]);
    assert(ts[nc] == Tok::Byte(0x60));
    assert(ts[nc + 1] == Tok::Jump(dt));
    assert(ts[nc + 2] == Tok::Byte(0x57));
    assert(forall|k: int| 0 <= k < na ==> ts[nc + 3 + k] == alt[k]);
    assert(ts[nc + na + 3] == Tok::Byte(0x60));
    assert(ts[nc + na + 4] == Tok::Jump(dn));
    assert(ts[nc + na + 5] == Tok::Byte(0x56));
    assert(ts[i1] == Tok::Dest(dt));
    assert(forall|k: int| 0 <= k < nb ==> ts[nc + na + 7 + k] == body[k]);
    assert(ts[i2] == Tok::Dest(dn));
    assert forall|k: int| 0 <= k < i1 implies ts[k] != Tok::Dest(dt) && ts[k] != Tok::Dest(dn) by {
        if k < nc {
            assert(ts[k] == cond[k] && cond[k] is Byte);
        } else if nc + 3 <= k < nc + 3 + na {
            assert(ts[k] == alt[k - nc - 3] && alt[k - nc - 3] is Byte);
        }
    }
    assert forall|k: int| i1 < k < i2 implies ts[k] != Tok::Dest(dn) by {
        assert(ts[k] == body[k - nc - na - 7] && body[k - nc - na - 7] is Byte);
    }
    lemma_find_dest(ts, dt);
    match find_dest(ts, dt) {
        Some(i) => {
            assert(i <= i1);
            if i < i1 {
                assert(ts[i] != Tok::Dest(dt));
            }
            assert(i == i1);
        },
        None => {
            assert(ts[i1] == Tok::Dest(dt));
            assert(false);
        },
    }
    lemma_find_dest(ts, dn);
    match find_dest(ts, dn) {
        Some(i) => {
            assert(i <= i2);
            if i < i2 {
                if i < i1 {
                    assert(ts[i] != Tok::Dest(dn));
                } else if i == i1 {
                    assert(ts[i1] == Tok::Dest(dt) && dt != dn);
                } else {
                    assert(ts[i] != Tok::Dest(dn));
                }
            }
            assert(i == i2);
        },
        None => {
            assert(ts[i2] == Tok::Dest(dn));
            assert(false);
        },
    }
    assert(i1 < 256 && i2 < 256);
    lemma_offset_chars_byte(i1 as nat);
    lemma_offset_chars_byte(i2 as nat);
    assert forall|k: int| 0 <= k < ts.len() implies (#[trigger] tok_chars(ts, ts[k])) is Some
        && tok_chars(ts, ts[k])->Some_0.len() == 2 by {
        match ts[k] {
            Tok::Byte(_) => {},
            Tok::Neq => {
                if k < nc {
                    assert(ts[k] == cond[k] && cond[k] is Byte);
                } else if nc + 3 <= k < nc + 3 + na {
                    assert(ts[k] == alt[k - nc - 3] && alt[k - nc - 3] is Byte);
                } else if nc + na + 7 <= k < nc + na + 7 + nb {
                    assert(ts[k] == body[k - nc - na - 7] && body[k - nc - na - 7] is Byte);
                }
                assert(false);
            },
            Tok::Jump(lbl) => {
                if k < nc {
                    assert(ts[k] == cond[k] && cond[k] is Byte);
                    assert(false);
                } else if nc + 3 <= k < nc + 3 + na {
                    assert(ts[k] == alt[k - nc - 3] && alt[k - nc - 3] is Byte);
                    assert(false);
                } else if nc + na + 7 <= k < nc + na + 7 + nb {
                    assert(ts[k] == body[k - nc - na - 7] && body[k - nc - na - 7] is Byte);
                    assert(false);
                } else {
                    assert(k == nc + 1 || k == nc + na + 4);
                    assert(lbl == dt || lbl == dn);
                }
            },
            Tok::Dest(_) => {},
        }
    }
    assert(all_resolvable(ts));
    assert(two_char_tokens(ts));
    lemma_uniform_len(ts, ts.len() as int);
    lemma_uniform_slice(ts, i1, ts.len() as int);
    lemma_uniform_slice(ts, i2, ts.len() as int);
    lemma_uniform_slice(ts, nc + 1, ts.len() as int);
    lemma_uniform_slice(ts, nc + na + 4, ts.len() as int);
    assert(tok_chars(ts, ts[i1])->Some_0 =~= seq!['5', 'b']);
    assert(tok_chars(ts, ts[i2])->Some_0 =~= seq!['5', 'b']);
    assert(tok_chars(ts, ts[nc + 1])->Some_0 == offset_chars(i1 as nat));
    assert(tok_chars(ts, ts[nc + na + 4])->Some_0 == offset_chars(i2 as nat));
}

/// Whether the stream holds a label definition for `x`.
pub open spec fn has_dest(ts: Seq<Tok>, x: u64) -> bool {
    exists|j: int| 0 <= j < ts.len() && ts[j] == Tok::Dest(x)
}

/// Whether every jump placeholder in the stream has a label definition
/// somewhere in it.
pub open spec fn jumps_resolved(ts: Seq<Tok>) -> bool {
    forall|i: int|
        0 <= i < ts.len() ==> ((#[trigger] ts[i]) is Jump ==> has_dest(ts, ts[i]->Jump_0))
}

/// A label definition survives concatenation on either side.
proof fn lemma_has_dest_concat(a: Seq<Tok>, b: Seq<Tok>, x: u64)
    ensures
        has_dest(a, x) ==> has_dest(a + b, x),
        has_dest(b, x) ==> has_dest(a + b, x),
{
    if has_dest(a, x) {
        let j = choose|j: int| 0 <= j < a.len() && a[j] == Tok::Dest(x);
        assert((a + b)[j] == Tok::Dest(x));
    }
    if has_dest(b, x) {
        let j = choose|j: int| 0 <= j < b.len() && b[j] == Tok::Dest(x);
        assert((a + b)[a.len() + j] == Tok::Dest(x));
    }
}

/// Two streams whose jumps are each settled internally stay settled when
/// concatenated.
proof fn lemma_jumps_concat(a: Seq<Tok>, b: Seq<Tok>)
    requires
        jumps_resolved(a),
        jumps_resolved(b),
    ensures
        jumps_resolved(a + b),
{
    assert forall|i: int| 0 <= i < (a + b).len() && (#[trigger] (a + b)[i]) is Jump implies
        has_dest(a + b, (a + b)[i]->Jump_0) by {
        if i < a.len() {
            assert((a + b)[i] == a[i]);
            lemma_has_dest_concat(a, b, a[i]->Jump_0);
        } else {
            assert((a + b)[i] == b[i - a.len()]);
            lemma_has_dest_concat(a, b, b[i - a.len()]->Jump_0);
        }
    }
}

/// A stream of byte tokens alone has nothing to settle.
proof fn lemma_jumps_trivial(ts: Seq<Tok>)
    requires
        forall|i: int| 0 <= i < ts.len() ==> !((#[trigger] ts[i]) is Jump),
    ensures
        jumps_resolved(ts),
{
}

/// Every jump placeholder the compilation of one node emits has its label
/// definition in the same stream.
proof fn lemma_compile_jumps(e: ExprModel, l: nat)
    requires
        spec_compile(e, l) is Ok,
    ensures
        jumps_resolved(spec_compile(e, l)->Ok_0.0),
    decreases e, 1int,
{
    let ts = spec_compile(e, l)->Ok_0.0;
    match e.op {
        Op::Num(v) => {
            assert forall|i: int| 0 <= i < ts.len() implies !((#[trigger] ts[i]) is Jump) by {
                if i > 0 {
                    assert(ts[i] == num_bytes(v).map_values(|b: u8| Tok::Byte(b))[i - 1]);
                }
            }
            lemma_jumps_trivial(ts);
        },
        Op::Add | Op::Mul | Op::Div | Op::Sub | Op::Mod | Op::And | Op::Or | Op::XOr => {
            if e.children.len() == 1 {
                lemma_compile_jumps(e.children[0], l);
            } else if e.children.len() == 0 {
                lemma_jumps_trivial(ts);
            } else {
                lemma_compile_rev_jumps(e.children, l);
                let body = spec_compile_rev(e.children, l)->Ok_0.0;
                let ops = Seq::new(
                    (e.children.len() - 1) as nat,
                    |i: int| Tok::Byte(multiary_opcode(e.op)),
                );
                lemma_jumps_trivial(ops);
                lemma_jumps_concat(body, ops);
            }
        },
        Op::Lt | Op::Gt | Op::Eq | Op::NotEq => {
            let (lt, l1) = spec_compile(e.children[0], l)->Ok_0;
            let (rt, l2) = spec_compile(e.children[1], l1)->Ok_0;
            lemma_compile_jumps(e.children[0], l);
            lemma_compile_jumps(e.children[1], l1);
            lemma_jumps_trivial(seq![comparison_tok(e.op)]);
            lemma_jumps_concat(rt, lt);
            lemma_jumps_concat(rt + lt, seq![comparison_tok(e.op)]);
        },
        Op::LtOE | Op::GtOE => {
            let cmp: Tok = if e.op is LtOE {
                Tok::Byte(0x10)
            } else {
                Tok::Byte(0x11)
            };
            let (ltl, l1) = spec_compile(e.children[0], l)->Ok_0;
            let (ltr, l2) = spec_compile(e.children[1], l1)->Ok_0;
            let (eql, l3) = spec_compile(e.children[0], l2)->Ok_0;
            let (eqr, l4) = spec_compile(e.children[1], l3)->Ok_0;
            lemma_compile_jumps(e.children[0], l);
            lemma_compile_jumps(e.children[1], l1);
            lemma_compile_jumps(e.children[0], l2);
            lemma_compile_jumps(e.children[1], l3);
            lemma_jumps_trivial(seq![Tok::Byte(0x14)]);
            lemma_jumps_trivial(seq![cmp]);
            lemma_jumps_trivial(seq![Tok::Byte(0x17)]);
            lemma_jumps_concat(eqr, eql);
            lemma_jumps_concat(eqr + eql, seq![Tok::Byte(0x14)]);
            lemma_jumps_concat(ltr, ltl);
            lemma_jumps_concat(ltr + ltl, seq![cmp]);
            lemma_jumps_concat(eqr + eql + seq![Tok::Byte(0x14)], ltr + ltl + seq![cmp]);
            lemma_jumps_concat(
                (eqr + eql + seq![Tok::Byte(0x14)]) + (ltr + ltl + seq![cmp]),
                seq![Tok::Byte(0x17)],
            );
        },
        Op::Not => {
            lemma_compile_jumps(e.children[0], l);
            let (t, l1) = spec_compile(e.children[0], l)->Ok_0;
            lemma_jumps_trivial(seq![Tok::Byte(0x19)]);
            lemma_jumps_concat(t, seq![Tok::Byte(0x19)]);
        },
        Op::If => {
            let (cond, l1) = spec_compile(e.children[0], l)->Ok_0;
            let (alt, l2) = spec_compile(e.children[2], l1)->Ok_0;
            let (body, l3) = spec_compile(e.children[1], l2 + 2)->Ok_0;
            lemma_compile_jumps(e.children[0], l);
            lemma_compile_jumps(e.children[2], l1);
            lemma_compile_jumps(e.children[1], l2 + 2);
            let dt = l2 as u64;
            let dn = (l2 + 1) as u64;
            let nc = cond.len() as int;
            let na = alt.len() as int;
            let nb = body.len() as int;
            assert(ts == if_stream(cond, alt, body, dt, dn));
            assert(ts.len() == nc + na + nb + 8);
            assert(forall|k: int| 0 <= k < nc ==> ts[k] == cond[k]);
            assert(forall|k: int| 0 <= k < na ==> ts[nc + 3 + k] == alt[k]);
            assert(forall|k: int| 0 <= k < nb ==> ts[nc + na + 7 + k] == body[k]);
            assert(ts[nc + na + 6] == Tok::Dest(dt));
            assert(ts[nc + na + nb + 7] == Tok::Dest(dn));
            assert forall|i: int| 0 <= i < ts.len() && (#[trigger] ts[i]) is Jump implies
                has_dest(ts, ts[i]->Jump_0) by {
                let x = ts[i]->Jump_0;
                if i < nc {
                    assert(ts[i] == cond[i]);
                    assert(has_dest(cond, x));
                    let j = choose|j: int| 0 <= j < cond.len() && cond[j] == Tok::Dest(x);
                    assert(ts[j] == Tok::Dest(x));
                } else if nc + 3 <= i < nc + 3 + na {
                    assert(ts[i] == alt[i - nc - 3]);
                    assert(has_dest(alt, x));
                    let j = choose|j: int| 0 <= j < alt.len() && alt[j] == Tok::Dest(x);
                    assert(ts[nc + 3 + j] == Tok::Dest(x));
                } else if nc + na + 7 <= i < nc + na + 7 + nb {
                    assert(ts[i] == body[i - nc - na - 7]);
                    assert(has_dest(body, x));
                    let j = choose|j: int| 0 <= j < body.len() && body[j] == Tok::Dest(x);
                    assert(ts[nc + na + 7 + j] == Tok::Dest(x));
                } else if i == nc + 1 {
                    assert(x == dt);
                    assert(ts[nc + na + 6] == Tok::Dest(x));
                } else {
                    assert(i == nc + na + 4);
                    assert(x == dn);
                    assert(ts[nc + na + nb + 7] == Tok::Dest(x));
                }
            }
        },
        Op::When | Op::Unless => {
            let (cond, l1) = spec_compile(e.children[0], l)->Ok_0;
            let (body, l2) = spec_compile(e.children[1], l1)->Ok_0;
            lemma_compile_jumps(e.children[0], l);
            lemma_compile_jumps(e.children[1], l1);
            let dn = l2 as u64;
            let negate: Seq<Tok> = if e.op is When {
                seq![Tok::Byte(0x15)]
            } else {
                Seq::empty()
            };
            let nc = cond.len() as int;
            let ng = negate.len() as int;
            let nb = body.len() as int;
            assert(ts.len() == nc + ng + nb + 4);
            assert(forall|k: int| 0 <= k < nc ==> ts[k] == cond[k]);
            assert(forall|k: int| 0 <= k < nb ==> ts[nc + ng + 3 + k] == body[k]);
            assert(ts[nc + ng + 1] == Tok::Jump(dn));
            assert(ts[nc + ng + nb + 3] == Tok::Dest(dn));
            assert forall|i: int| 0 <= i < ts.len() && (#[trigger] ts[i]) is Jump implies
                has_dest(ts, ts[i]->Jump_0) by {
                let x = ts[i]->Jump_0;
                if i < nc {
                    assert(ts[i] == cond[i]);
                    assert(has_dest(cond, x));
                    let j = choose|j: int| 0 <= j < cond.len() && cond[j] == Tok::Dest(x);
                    assert(ts[j] == Tok::Dest(x));
                } else if nc + ng + 3 <= i < nc + ng + 3 + nb {
                    assert(ts[i] == body[i - nc - ng - 3]);
                    assert(has_dest(body, x));
                    let j = choose|j: int| 0 <= j < body.len() && body[j] == Tok::Dest(x);
                    assert(ts[nc + ng + 3 + j] == Tok::Dest(x));
                } else {
                    assert(i == nc + ng + 1);
                    assert(x == dn);
                    assert(ts[nc + ng + nb + 3] == Tok::Dest(x));
                }
            }
        },
        Op::End => {
            lemma_jumps_trivial(ts);
        },
        Op::Start => {},
    }
}

/// Every jump placeholder a reversed child list emits has its label
/// definition in the same stream.
proof fn lemma_compile_rev_jumps(cs: Seq<ExprModel>, l: nat)
    requires
        spec_compile_rev(cs, l) is Ok,
    ensures
        jumps_resolved(spec_compile_rev(cs, l)->Ok_0.0),
    decreases cs, 0int,
{
    if cs.len() == 0 {
        lemma_jumps_trivial(spec_compile_rev(cs, l)->Ok_0.0);
    } else {
        let (t, l1) = spec_compile_rev(cs.drop_last(), l)->Ok_0;
        let (tc, l2) = spec_compile(cs.last(), l1)->Ok_0;
        lemma_compile_rev_jumps(cs.drop_last(), l);
        lemma_compile_jumps(cs.last(), l1);
        lemma_jumps_concat(tc, t);
    }
}

/// Every jump placeholder a compiled program emits has its label definition
/// in the assembled stream.
proof fn lemma_compile_seq_jumps(cs: Seq<ExprModel>, l: nat)
    requires
        spec_compile_seq(cs, l) is Ok,
    ensures
        jumps_resolved(spec_compile_seq(cs, l)->Ok_0.0),
    decreases cs,
{
    if cs.len() == 0 {
        lemma_jumps_trivial(spec_compile_seq(cs, l)->Ok_0.0);
    } else {
        let (t, l1) = spec_compile_seq(cs.drop_last(), l)->Ok_0;
        let (tc, l2) = spec_compile(cs.last(), l1)->Ok_0;
        lemma_compile_seq_jumps(cs.drop_last(), l);
        lemma_compile_jumps(cs.last(), l1);
        lemma_jumps_concat(t, tc);
    }
}

/// A stream whose jumps are all settled resolves completely.
proof fn lemma_settled_stream_resolves(ts: Seq<Tok>)
    requires
        jumps_resolved(ts),
    ensures
        resolve_toks(ts) is Ok,
{
    assert forall|i: int| 0 <= i < ts.len() implies (#[trigger] tok_chars(ts, ts[i])) is Some by {
        if ts[i] is Jump {
            let x = ts[i]->Jump_0;
            lemma_find_dest(ts, x);
            if find_dest(ts, x) is None {
                let j = choose|j: int| 0 <= j < ts.len() && ts[j] == Tok::Dest(x);
                assert(false);
            }
        }
    }
}

/// Success is owed exactly when the tree walk succeeds: the resolution pass
/// never fails on a stream the walk produced, so a program compiles to a
/// bytecode string exactly when each of its expressions compiles.
pub proof fn lemma_compile_owes_output(prog: ExprModel, l: nat)
    ensures
        spec_compile_program(prog, l) is Ok <==> spec_compile_seq(prog.children, l) is Ok,
{
    if spec_compile_seq(prog.children, l) is Ok {
        lemma_compile_seq_jumps(prog.children, l);
        lemma_settled_stream_resolves(spec_compile_seq(prog.children, l)->Ok_0.0);
    }
}

/// An arity violation — a conditional without exactly three children, a
/// guarded body or comparison without exactly two, a negation without
/// exactly one — is rejected outright, with nothing emitted.
pub proof fn lemma_wrong_arity(e: ExprModel, l: nat)
    requires
        ({
            ||| (e.op is If && e.children.len() != 3)
            ||| ((e.op is When || e.op is Unless) && e.children.len() != 2)
            ||| (is_comparison(e.op) && e.children.len() != 2)
            ||| (e.op is Not && e.children.len() != 1)
        }),
    ensures
        spec_compile(e, l) == Err::<(Seq<Tok>, nat), CompileError>(CompileError::WrongArity),
{
}

} // verus!
