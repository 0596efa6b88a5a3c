//! Comparator codec: decodes a short glyph sequence into a bitflag byte
//! describing a single comparison (chain role, relational operator,
//! indirection) and evaluates such a byte against a cell value.

use vstd::prelude::*;

use crate::parser::Token;

verus! {

broadcast use vstd::seq::group_seq_axioms;

/// Bit set when the comparison accepts equal values.
pub const FLAG_EQ: u8 = 1;
/// Bit set when the comparison accepts unequal values.
pub const FLAG_NEQ: u8 = 2;
/// Bit set when the comparator joins its condition chain as an OR
/// alternative; clear for a chain start or an AND link.
pub const FLAG_OR: u8 = 4;
/// Bit set when the comparison accepts a smaller cell value.
pub const FLAG_LT: u8 = 8;
/// Bit set when the comparison accepts a larger cell value.
pub const FLAG_GT: u8 = 16;
/// Bit set when the operand is an address to dereference through the tape
/// rather than a literal.
pub const FLAG_IND: u8 = 32;

/// The roles a single flag bit can play. The corresponding masks are the
/// `FLAG_` constants; the bits are independent, so several relational bits
/// may be set at once (`FLAG_LT | FLAG_EQ` behaves as less-or-equal).
pub enum Comparator {
    EQ,
    NEQ,
    OR,
    LT,
    GT,
}

/// Flag contribution of a chain-role glyph: `|` marks an OR alternative;
/// `?` (chain start) and `&` (AND link) leave the OR bit clear.
pub open spec fn spec_chain_bits(g: u8) -> u8 {
    if g == ('|' as u8) {
        FLAG_OR
    } else {
        0
    }
}

/// Flag contribution of a relational glyph.
pub open spec fn spec_rel_bits(g: u8) -> u8 {
    if g == ('=' as u8) {
        FLAG_EQ
    } else if g == ('\'' as u8) {
        FLAG_NEQ
    } else if g == ('\\' as u8) {
        FLAG_LT
    } else if g == ('/' as u8) {
        FLAG_GT
    } else {
        0
    }
}

/// Flags denoted by a comparator glyph sequence: chain-role glyph, then a
/// relational glyph, then an optional doubling `=` that additionally sets
/// the EQ bit (so `\=` means less-or-equal and `/=` greater-or-equal).
pub open spec fn spec_decode(g: Seq<u8>) -> u8 {
    let chain = if g.len() >= 1 {
        spec_chain_bits(g[0])
    } else {
        0
    };
    let rel = if g.len() >= 2 {
        spec_rel_bits(g[1])
    } else {
        0
    };
    let extra = if g.len() >= 3 && g[2] == ('=' as u8) {
        FLAG_EQ
    } else {
        0
    };
    (chain | rel) | extra
}

/// Decodes a comparator glyph sequence into its flag byte.
pub fn decode(glyphs: &[u8]) -> (flags: u8)
    ensures
        flags == spec_decode(glyphs@),
{
    let chain: u8 = if glyphs.len() >= 1 && glyphs[0] == ('|' as u8) {
        FLAG_OR
    } else {
        0
    };
    let rel: u8 = if glyphs.len() >= 2 {
        let g = glyphs[1];
        if g == ('=' as u8) {
            FLAG_EQ
        } else if g == ('\'' as u8) {
            FLAG_NEQ
        } else if g == ('\\' as u8) {
            FLAG_LT
        } else if g == ('/' as u8) {
            FLAG_GT
        } else {
            0
        }
    } else {
        0
    };
    let extra: u8 = if glyphs.len() >= 3 && glyphs[2] == ('=' as u8) {
        FLAG_EQ
    } else {
        0
    };
    (chain | rel) | extra
}

/// Truth of one comparison: the relational bits are tested independently
/// and joined with logical OR, using numeric comparison of the cell value
/// against the (already resolved) operand.
pub open spec fn spec_evaluate(flags: u8, current: u8, operand: u8) -> bool {
    ||| (flags & FLAG_EQ != 0) && current == operand
    ||| (flags & FLAG_NEQ != 0) && current != operand
    ||| (flags & FLAG_LT != 0) && current < operand
    ||| (flags & FLAG_GT != 0) && current > operand
}

impl Comparator {
    /// Flags stored in a `Comparator` token; any other token decodes to 0.
    pub open spec fn spec_new(t: Token) -> u8 {
        match t {
            Token::Comparator(flags, _operand, _t, _f) => flags,
            _ => 0,
        }
    }

    /// Reads the flag byte of a comparator token.
    pub fn new(t: &Token) -> (flags: u8)
        ensures
            flags == Self::spec_new(*t),
    {
        match t {
            Token::Comparator(flags, _operand, _t, _f) => *flags,
            _ => 0,
        }
    }

    /// Evaluates a decoded comparison against the current cell value and a
    /// resolved operand.
    pub fn evaluate(flags: u8, current: u8, operand: u8) -> (r: bool)
        ensures
            r == spec_evaluate(flags, current, operand),
    {
        ((flags & FLAG_EQ != 0) && current == operand) || ((flags & FLAG_NEQ != 0) && current
            != operand) || ((flags & FLAG_LT != 0) && current < operand) || ((flags & FLAG_GT != 0)
            && current > operand)
    }

    /// True when the flags accept equal values.
    pub fn is_eq(c: u8) -> (r: bool)
        ensures
            r == (c & FLAG_EQ != 0),
    {
        c & FLAG_EQ > 0
    }

    /// True when the flags accept unequal values.
    pub fn is_neq(c: u8) -> (r: bool)
        ensures
            r == (c & FLAG_NEQ != 0),
    {
        c & FLAG_NEQ > 0
    }

    /// True when the flags accept a smaller cell value.
    pub fn is_lt(c: u8) -> (r: bool)
        ensures
            r == (c & FLAG_LT != 0),
    {
        c & FLAG_LT > 0
    }

    /// True when the flags accept a larger cell value.
    pub fn is_gt(c: u8) -> (r: bool)
        ensures
            r == (c & FLAG_GT != 0),
    {
        c & FLAG_GT > 0
    }

    /// True when the comparator is an OR alternative of its chain.
    pub fn is_or(c: u8) -> (r: bool)
        ensures
            r == (c & FLAG_OR != 0),
    {
        c & FLAG_OR > 0
    }

    /// True when the comparator starts its chain or is an AND link.
    pub fn is_and(c: u8) -> (r: bool)
        ensures
            r == (c & FLAG_OR == 0),
    {
        c & FLAG_OR == 0
    }

    /// True when the operand is to be dereferenced through the tape.
    pub fn is_indirect(c: u8) -> (r: bool)
        ensures
            r == (c & FLAG_IND != 0),
    {
        c & FLAG_IND > 0
    }
}

/// Decoding is bit-exact over the documented glyph combinations: each chain
/// role contributes exactly the OR bit or nothing, each relational glyph
/// exactly its own bit, and a doubling `=` exactly the EQ bit besides.
pub proof fn lemma_decode_truth_table()
    ensures
        spec_decode(seq![('?' as u8), ('=' as u8)]) == FLAG_EQ,
        spec_decode(seq![('?' as u8), ('\'' as u8)]) == FLAG_NEQ,
        spec_decode(seq![('?' as u8), ('\\' as u8)]) == FLAG_LT,
        spec_decode(seq![('?' as u8), ('/' as u8)]) == FLAG_GT,
        spec_decode(seq![('&' as u8), ('=' as u8)]) == FLAG_EQ,
        spec_decode(seq![('&' as u8), ('\'' as u8)]) == FLAG_NEQ,
        spec_decode(seq![('&' as u8), ('\\' as u8)]) == FLAG_LT,
        spec_decode(seq![('&' as u8), ('/' as u8)]) == FLAG_GT,
        spec_decode(seq![('|' as u8), ('=' as u8)]) == FLAG_OR + FLAG_EQ,
        spec_decode(seq![('|' as u8), ('\'' as u8)]) == FLAG_OR + FLAG_NEQ,
        spec_decode(seq![('|' as u8), ('\\' as u8)]) == FLAG_OR + FLAG_LT,
        spec_decode(seq![('|' as u8), ('/' as u8)]) == FLAG_OR + FLAG_GT,
        spec_decode(seq![('?' as u8), ('\\' as u8), ('=' as u8)]) == FLAG_LT + FLAG_EQ,
        spec_decode(seq![('?' as u8), ('/' as u8), ('=' as u8)]) == FLAG_GT + FLAG_EQ,
        spec_decode(seq![('|' as u8), ('\\' as u8), ('=' as u8)]) == FLAG_OR + FLAG_LT + FLAG_EQ,
        spec_decode(seq![('|' as u8), ('/' as u8), ('=' as u8)]) == FLAG_OR + FLAG_GT + FLAG_EQ,
        spec_decode(seq![('&' as u8), ('\\' as u8), ('=' as u8)]) == FLAG_LT + FLAG_EQ,
        spec_decode(seq![('&' as u8), ('/' as u8), ('=' as u8)]) == FLAG_GT + FLAG_EQ,
{
    assert((0u8 | 1u8) | 0u8 == 1u8 && (0u8 | 2u8) | 0u8 == 2u8 && (0u8 | 8u8) | 0u8 == 8u8 && (0u8
        | 16u8) | 0u8 == 16u8 && (4u8 | 1u8) | 0u8 == 5u8 && (4u8 | 2u8) | 0u8 == 6u8 && (4u8
        | 8u8) | 0u8 == 12u8 && (4u8 | 16u8) | 0u8 == 20u8 && (0u8 | 8u8) | 1u8 == 9u8 && (0u8
        | 16u8) | 1u8 == 17u8 && (4u8 | 8u8) | 1u8 == 13u8 && (4u8 | 16u8) | 1u8 == 21u8)
        by (bit_vector);
}

/// The compound flags LT+EQ behave as less-or-equal, and GT+EQ as
/// greater-or-equal, for every cell value and operand.
pub proof fn lemma_compound_flags_are_orderings(current: u8, operand: u8)
    ensures
        spec_evaluate((FLAG_LT + FLAG_EQ) as u8, current, operand) == (current <= operand),
        spec_evaluate((FLAG_GT + FLAG_EQ) as u8, current, operand) == (current >= operand),
{
    assert(9u8 & 1u8 != 0 && 9u8 & 2u8 == 0 && 9u8 & 8u8 != 0 && 9u8 & 16u8 == 0 && 17u8 & 1u8 != 0
        && 17u8 & 2u8 == 0 && 17u8 & 8u8 == 0 && 17u8 & 16u8 != 0) by (bit_vector);
}

} // verus!
