//! Grammar for Backtick source text: the `Token` tree, a parser that
//! consumes a whole source buffer into an ordered token sequence, and a
//! serializer that renders a token sequence back in canonical glyph form.

use vstd::prelude::*;

verus! {

broadcast use vstd::seq::group_seq_axioms, vstd::std_specs::vec::group_vec_axioms;

/// One node of both syntax and execution. Nested bodies (loop bodies,
/// conditional branches, function bodies) are themselves well-formed
/// sequences of the same grammar.
#[derive(Debug, PartialEq)]
pub enum Token {
    /// Absolute tape-position jump.
    Address(u16),
    /// Declares a name bound to the current position, no body.
    Label(Vec<u8>),
    /// No-op, discarded at execution time but retained by the grammar.
    Comment,
    /// One link in a condition chain: decoded flag byte, operand, optional
    /// true branch, optional false branch.
    Comparator(u8, u8, Option<Vec<Token>>, Option<Vec<Token>>),
    /// An ordered chain of comparators evaluated left to right with AND/OR
    /// short-circuit rules.
    Condition(Vec<Token>),
    /// Re-invoke a previously declared label's or function's stored entry.
    Execute(Vec<u8>),
    /// Declares a named, reusable token sequence, optionally bound to an
    /// address window.
    Function(Vec<u8>, Option<u16>, Option<u16>, Vec<Token>),
    /// A sub-sequence pushed once; repetition is driven by the body itself.
    Loop(Vec<Token>),
    /// A basic operator applied `count` times atomically.
    Multiplier(u8, u16),
    /// A single basic instruction: one of `> < + - , . ~`.
    Operator(u8),
    /// Writes one scalar byte at the current position.
    Assign(u16),
    /// Writes a byte sequence starting at the current position.
    Array(Vec<u8>),
}

/// The mathematical shape of a token: the same tree with byte vectors seen
/// as sequences. Contracts and proofs speak of this shape, reached from a
/// `Token` through `deep_view`.
#[verifier::ext_equal]
pub enum TokenModel {
    Address(u16),
    Label(Seq<u8>),
    Comment,
    Comparator(u8, u8, Option<Seq<TokenModel>>, Option<Seq<TokenModel>>),
    Condition(Seq<TokenModel>),
    Execute(Seq<u8>),
    Function(Seq<u8>, Option<u16>, Option<u16>, Seq<TokenModel>),
    Loop(Seq<TokenModel>),
    Multiplier(u8, u16),
    Operator(u8),
    Assign(u16),
    Array(Seq<u8>),
}

impl Token {
    /// The mathematical shape of this token.
    pub open spec fn model(self) -> TokenModel
        decreases self,
    {
        match self {
            Token::Address(p) => TokenModel::Address(p),
            Token::Label(n) => TokenModel::Label(n@),
            Token::Comment => TokenModel::Comment,
            Token::Comparator(f, o, tb, fb) => TokenModel::Comparator(
                f,
                o,
                opt_models(tb),
                opt_models(fb),
            ),
            Token::Condition(c) => TokenModel::Condition(models(c@)),
            Token::Execute(n) => TokenModel::Execute(n@),
            Token::Function(n, s, e, b) => TokenModel::Function(n@, s, e, models(b@)),
            Token::Loop(b) => TokenModel::Loop(models(b@)),
            Token::Multiplier(g, n) => TokenModel::Multiplier(g, n),
            Token::Operator(g) => TokenModel::Operator(g),
            Token::Assign(v) => TokenModel::Assign(v),
            Token::Array(b) => TokenModel::Array(b@),
        }
    }
}

/// Shapes of all the tokens of `ts`, in order.
pub open spec fn models(ts: Seq<Token>) -> Seq<TokenModel>
    decreases ts,
{
    Seq::new(
        ts.len(),
        |i: int|
            if 0 <= i < ts.len() {
                ts[i].model()
            } else {
                TokenModel::Comment
            },
    )
}

/// Shape of an optional token sequence.
pub open spec fn opt_models(o: Option<Vec<Token>>) -> Option<Seq<TokenModel>>
    decreases o,
{
    match o {
        Some(b) => Some(models(b@)),
        None => None,
    }
}

/// Copies a byte vector cell for cell.
pub fn clone_bytes(v: &Vec<u8>) -> (r: Vec<u8>)
    ensures
        r@ == v@,
{
    let mut out: Vec<u8> = Vec::new();
    let mut i: usize = 0;
    while i < v.len()
        invariant
            i <= v@.len(),
            out@ == v@.subrange(0, i as int),
        decreases v@.len() - i,
    {
        out.push(v[i]);
        i = i + 1;
        proof {
            assert(out@ =~= v@.subrange(0, i as int));
        }
    }
    proof {
        assert(out@ =~= v@);
    }
    out
}

/// Copies a token sequence node for node; the copy has the same shape.
pub fn clone_tokens(v: &Vec<Token>) -> (r: Vec<Token>)
    ensures
        models(r@) == models(v@),
    decreases v,
{
    let mut out: Vec<Token> = Vec::new();
    let mut i: usize = 0;
    while i < v.len()
        invariant
            i <= v@.len(),
            out@.len() == i,
            forall|j: int| 0 <= j < i ==> (#[trigger] out@[j]).model() == v@[j].model(),
        decreases v@.len() - i,
    {
        let t = (&v[i]).clone();
        out.push(t);
        i = i + 1;
    }
    proof {
        assert forall|j: int| 0 <= j < models(out@).len() implies models(out@)[j] == models(
            v@,
        )[j] by {
            assert(out@[j].model() == v@[j].model());
        }
        assert(models(out@) =~= models(v@));
    }
    out
}

/// Copies an optional token sequence; the copy has the same shape.
pub fn clone_opt_tokens(v: &Option<Vec<Token>>) -> (r: Option<Vec<Token>>)
    ensures
        opt_models(*v) == opt_models(r),
    decreases v,
{
    match v {
        Option::Some(b) => Option::Some(clone_tokens(b)),
        Option::None => Option::None,
    }
}

impl Clone for Token {
    /// Deep copy; the copy has the same shape as the original.
    fn clone(&self) -> (r: Token)
        ensures
            r.model() == self.model(),
        decreases self,
    {
        match self {
            Token::Address(p) => Token::Address(*p),
            Token::Label(n) => Token::Label(clone_bytes(n)),
            Token::Comment => Token::Comment,
            Token::Comparator(f, o, tb, fb) => Token::Comparator(
                *f,
                *o,
                clone_opt_tokens(tb),
                clone_opt_tokens(fb),
            ),
            Token::Condition(c) => Token::Condition(clone_tokens(c)),
            Token::Execute(n) => Token::Execute(clone_bytes(n)),
            Token::Function(n, st, en, body) => Token::Function(
                clone_bytes(n),
                *st,
                *en,
                clone_tokens(body),
            ),
            Token::Loop(body) => Token::Loop(clone_tokens(body)),
            Token::Multiplier(g, n) => Token::Multiplier(*g, *n),
            Token::Operator(g) => Token::Operator(*g),
            Token::Assign(value) => Token::Assign(*value),
            Token::Array(b) => Token::Array(clone_bytes(b)),
        }
    }
}


/// True for the ASCII letters and digits that may form a label or function
/// name.
pub open spec fn spec_is_alnum(b: u8) -> bool {
    (('0' as u8) <= b && b <= ('9' as u8)) || (('a' as u8) <= b && b <= ('z' as u8)) || (('A' as u8)
        <= b && b <= ('Z' as u8))
}

/// A usable symbol name: nonempty and alphanumeric throughout.
pub open spec fn wf_name(n: Seq<u8>) -> bool {
    n.len() > 0 && forall|i: int| 0 <= i < n.len() ==> spec_is_alnum(#[trigger] n[i])
}

/// The basic instruction glyphs.
pub open spec fn spec_is_instruction(g: u8) -> bool {
    g == ('>' as u8) || g == ('<' as u8) || g == ('+' as u8) || g == ('-' as u8) || g == (
    ',' as u8) || g == ('.' as u8) || g == ('~' as u8)
}

/// Flag bytes the glyph grammar can denote: an optional indirection bit,
/// an optional OR bit, and a relational part that is one of EQ, NEQ, LT,
/// GT, optionally combined with EQ.
pub open spec fn wf_flags(flags: u8) -> bool {
    let rel = flags & 0x1b;
    &&& flags & 0xc0 == 0
    &&& (rel == 1 || rel == 2 || rel == 8 || rel == 16 || rel == 3 || rel == 9 || rel == 17)
}

/// Well-formedness of one token: glyphs come from the grammar's alphabet,
/// names are usable, and every nested body is well-formed in turn. A bare
/// `Comparator` is not itself a well-formed token: it only occurs inside a
/// `Condition`.
pub open spec fn wf_token(t: TokenModel) -> bool
    decreases t,
{
    match t {
        TokenModel::Address(_) => true,
        TokenModel::Label(name) => wf_name(name),
        TokenModel::Comment => true,
        TokenModel::Comparator(..) => false,
        TokenModel::Condition(chain) => chain.len() > 0 && wf_comparators(chain),
        TokenModel::Execute(name) => wf_name(name),
        TokenModel::Function(name, _start, _end, body) => wf_name(name) && wf_tokens(body),
        TokenModel::Loop(body) => wf_tokens(body),
        TokenModel::Multiplier(g, _n) => spec_is_instruction(g) && g != ('~' as u8),
        TokenModel::Operator(g) => spec_is_instruction(g),
        TokenModel::Assign(_) => true,
        TokenModel::Array(_) => true,
    }
}

/// Well-formedness of a token sequence.
pub open spec fn wf_tokens(ts: Seq<TokenModel>) -> bool
    decreases ts,
{
    forall|i: int| 0 <= i < ts.len() ==> wf_token(#[trigger] ts[i])
}

/// Well-formedness of a condition chain: every element is a comparator
/// with grammar-denotable flags and well-formed branches.
pub open spec fn wf_comparators(ts: Seq<TokenModel>) -> bool
    decreases ts,
{
    forall|i: int| 0 <= i < ts.len() ==> wf_comparator(#[trigger] ts[i])
}

/// Well-formedness of one comparator link.
pub open spec fn wf_comparator(t: TokenModel) -> bool
    decreases t,
{
    match t {
        TokenModel::Comparator(flags, _operand, tb, fb) => {
            &&& wf_flags(flags)
            &&& (match tb {
                Some(b) => wf_tokens(b),
                None => true,
            })
            &&& (match fb {
                Some(b) => wf_tokens(b),
                None => true,
            })
        },
        _ => false,
    }
}

/// Offsets where parsing failed are reported against the source buffer.
#[derive(Debug, PartialEq, Eq, Clone, Copy)]
pub struct ParseError {
    /// Index of the first byte the grammar could not consume.
    pub offset: usize,
}

/// The whitespace bytes the grammar discards.
pub open spec fn spec_is_ws(b: u8) -> bool {
    b == (' ' as u8) || b == ('\t' as u8) || b == ('\r' as u8) || b == ('\n' as u8)
}

/// A decimal digit.
pub open spec fn spec_is_digit(b: u8) -> bool {
    ('0' as u8) <= b && b <= ('9' as u8)
}

/// The first index at or after `i` that does not hold whitespace.
pub open spec fn spec_skip_ws(s: Seq<u8>, i: int) -> int
    decreases s.len() - i,
{
    if 0 <= i < s.len() && spec_is_ws(s[i]) {
        spec_skip_ws(s, i + 1)
    } else {
        i
    }
}

/// The end of the maximal digit run starting at `i`.
pub open spec fn spec_digits_end(s: Seq<u8>, i: int) -> int
    decreases s.len() - i,
{
    if 0 <= i < s.len() && spec_is_digit(s[i]) {
        spec_digits_end(s, i + 1)
    } else {
        i
    }
}

/// The end of the maximal alphanumeric run starting at `i`.
pub open spec fn spec_name_end(s: Seq<u8>, i: int) -> int
    decreases s.len() - i,
{
    if 0 <= i < s.len() && spec_is_alnum(s[i]) {
        spec_name_end(s, i + 1)
    } else {
        i
    }
}

/// The end of the maximal run of bytes other than a backtick starting at
/// `i`.
pub open spec fn spec_nonbt_end(s: Seq<u8>, i: int) -> int
    decreases s.len() - i,
{
    if 0 <= i < s.len() && s[i] != ('`' as u8) {
        spec_nonbt_end(s, i + 1)
    } else {
        i
    }
}

/// The first index at or after `i` that ends a line (or the buffer end).
pub open spec fn spec_line_end(s: Seq<u8>, i: int) -> int
    decreases s.len() - i,
{
    if 0 <= i < s.len() && s[i] != ('\n' as u8) && s[i] != ('\r' as u8) {
        spec_line_end(s, i + 1)
    } else {
        i
    }
}

/// The value of the decimal digit run `s[i..j)`.
pub open spec fn spec_num_val(s: Seq<u8>, i: int, j: int) -> int
    decreases j - i,
{
    if i >= j {
        0
    } else {
        spec_num_val(s, i, j - 1) * 10 + (s[j - 1] - ('0' as u8))
    }
}

/// Bounds of the maximal-run scanners: the run end never precedes its
/// start and never passes the buffer end.
pub proof fn lemma_scan_bounds(s: Seq<u8>, i: int)
    requires
        0 <= i <= s.len(),
    ensures
        i <= spec_skip_ws(s, i) <= s.len(),
        i <= spec_digits_end(s, i) <= s.len(),
        i <= spec_name_end(s, i) <= s.len(),
        i <= spec_nonbt_end(s, i) <= s.len(),
        i <= spec_line_end(s, i) <= s.len(),
    decreases s.len() - i,
{
    if i < s.len() {
        lemma_scan_bounds(s, i + 1);
    }
}

/// A parsed number: the value of the maximal digit run at `i` and the
/// index after it; nothing when there is no digit or the value does not
/// fit an unsigned 16-bit integer.
pub open spec fn spec_parse_number(s: Seq<u8>, i: int) -> Option<(u16, int)> {
    let e = spec_digits_end(s, i);
    if e <= i || spec_num_val(s, i, e) > 65535 {
        None
    } else {
        Some((spec_num_val(s, i, e) as u16, e))
    }
}

/// A parsed name: the maximal alphanumeric run at `i` and the index after
/// it; nothing when the run is empty.
pub open spec fn spec_parse_name(s: Seq<u8>, i: int) -> Option<(Seq<u8>, int)> {
    let e = spec_name_end(s, i);
    if e <= i || e > s.len() || i < 0 {
        None
    } else {
        Some((s.subrange(i, e), e))
    }
}


/// A parsed comment: either a line comment (three backticks to the end of
/// the line) or a delimited comment (two backticks, one or more bytes none
/// of which is a backtick, two backticks).
pub open spec fn spec_parse_comment(s: Seq<u8>, i: int) -> Option<int> {
    if !(0 <= i && i + 1 < s.len() && s[i] == ('`' as u8) && s[i + 1] == ('`' as u8)) {
        None
    } else if i + 2 < s.len() && s[i + 2] == ('`' as u8) {
        Some(spec_line_end(s, i + 3))
    } else {
        let e = spec_nonbt_end(s, i + 2);
        if e > i + 2 && e + 1 < s.len() && s[e] == ('`' as u8) && s[e + 1] == ('`' as u8) {
            Some(e + 2)
        } else {
            None
        }
    }
}

/// The numeric elements of a brace array literal from `i` on, together
/// with the index after the closing brace: digits separated by optional
/// commas and whitespace, each fitting one byte.
pub open spec fn spec_parse_items(s: Seq<u8>, i: int) -> Option<(Seq<u8>, int)>
    decreases s.len() - i,
{
    if !(0 <= i <= s.len()) {
        None
    } else {
        let j = spec_skip_ws(s, i);
        if !(i <= j < s.len()) {
            None
        } else if s[j] == ('}' as u8) {
            Some((Seq::empty(), j + 1))
        } else {
            let e = spec_digits_end(s, j);
            if !(j < e <= s.len()) || spec_num_val(s, j, e) > 255 {
                None
            } else {
                let v = spec_num_val(s, j, e) as u8;
                let j2 = spec_skip_ws(s, e);
                if !(e <= j2 <= s.len()) {
                    None
                } else {
                    let j3 = if j2 < s.len() && s[j2] == (',' as u8) {
                        j2 + 1
                    } else {
                        j2
                    };
                    if j3 <= i {
                        None
                    } else {
                        match spec_parse_items(s, j3) {
                            Some((rest, end)) => Some((seq![v] + rest, end)),
                            None => None,
                        }
                    }
                }
            }
        }
    }
}

/// One parsed comparator: chain-role glyph, relational glyph with an
/// optional doubling `=`, an optional `@` marking an indirect operand, the
/// operand digits, and optional true and false branches. The glyphs are
/// adjacent: the grammar admits no whitespace inside one comparator.
pub open spec fn spec_parse_comparator(s: Seq<u8>, i: int) -> Option<(TokenModel, int)>
    decreases s.len() - i, 0int,
{
    if !(0 <= i && i + 1 < s.len() && (s[i] == ('?' as u8) || s[i] == ('|' as u8) || s[i] == (
    '&' as u8))) {
        None
    } else {
        let rel = s[i + 1];
        if !(rel == ('=' as u8) || rel == ('\'' as u8) || rel == ('\\' as u8) || rel == (
        '/' as u8)) {
            None
        } else {
            let doubled = i + 2 < s.len() && s[i + 2] == ('=' as u8);
            let glyphs = if doubled {
                seq![s[i], rel, ('=' as u8)]
            } else {
                seq![s[i], rel]
            };
            let k = if doubled {
                i + 3
            } else {
                i + 2
            };
            let indirect = k < s.len() && s[k] == ('@' as u8);
            let k2 = if indirect {
                k + 1
            } else {
                k
            };
            let flags = (crate::comparator::spec_decode(glyphs) + (if indirect {
                32int
            } else {
                0int
            })) as u8;
            match spec_parse_number(s, k2) {
                None => None,
                Some((n, e)) => {
                    if !(i < e <= s.len()) {
                        None
                    } else {
                        let operand = (n % 256) as u8;
                        let (tb, e2) = if e < s.len() && s[e] == ('`' as u8) {
                            match spec_parse_body(s, e) {
                                Some((bts, be)) => (Some(bts), be),
                                None => (None, e),
                            }
                        } else {
                            (None, e)
                        };
                        if !(e <= e2 <= s.len()) {
                            None
                        } else {
                            let (fb, e3) = if e2 < s.len() && s[e2] == (':' as u8) {
                                match spec_parse_body(s, e2 + 1) {
                                    Some((bts, be)) => (Some(bts), be),
                                    None => (None, e2),
                                }
                            } else {
                                (None, e2)
                            };
                            Some((TokenModel::Comparator(flags, operand, tb, fb), e3))
                        }
                    }
                },
            }
        }
    }
}

/// One or more adjacent comparators forming a condition chain.
pub open spec fn spec_parse_condition(s: Seq<u8>, i: int) -> Option<(Seq<TokenModel>, int)>
    decreases s.len() - i, 1int,
{
    if !(0 <= i <= s.len()) {
        None
    } else {
        match spec_parse_comparator(s, i) {
            None => None,
            Some((c, j)) => {
                if !(i < j <= s.len()) {
                    Some((seq![c], j))
                } else {
                    match spec_parse_condition(s, j) {
                        None => Some((seq![c], j)),
                        Some((cs, e)) => Some((seq![c] + cs, e)),
                    }
                }
            },
        }
    }
}

/// A backtick-delimited body: an expression sequence between two single
/// backticks.
pub open spec fn spec_parse_body(s: Seq<u8>, i: int) -> Option<(Seq<TokenModel>, int)>
    decreases s.len() - i, 3int,
{
    if !(0 <= i && i < s.len() && s[i] == ('`' as u8)) {
        None
    } else {
        let (ts, e) = spec_parse_exprs(s, i + 1);
        if i < e < s.len() && s[e] == ('`' as u8) {
            Some((ts, e + 1))
        } else {
            None
        }
    }
}

/// One parsed expression at `i` (no leading whitespace): the token and the
/// index after it. The alternatives are tried in a fixed order keyed by
/// the first glyph.
pub open spec fn spec_parse_expr(s: Seq<u8>, i: int) -> Option<(TokenModel, int)>
    decreases s.len() - i, 2int,
{
    if !(0 <= i < s.len()) {
        None
    } else {
        let c = s[i];
        if c == ('`' as u8) {
            match spec_parse_comment(s, i) {
                Some(e) => Some((TokenModel::Comment, e)),
                None => None,
            }
        } else if c == ('@' as u8) {
            match spec_parse_number(s, i + 1) {
                Some((n, e)) => Some((TokenModel::Address(n), e)),
                None => None,
            }
        } else if c == ('^' as u8) {
            match spec_parse_name(s, i + 1) {
                None => None,
                Some((nm, j)) => {
                    if !(i < j <= s.len()) {
                        None
                    } else {
                        match spec_parse_function_tail(s, j) {
                            Some((start, end, body, e)) => Some(
                                (TokenModel::Function(nm, start, end, body), e),
                            ),
                            None => Some((TokenModel::Label(nm), j)),
                        }
                    }
                },
            }
        } else if c == ('!' as u8) {
            match spec_parse_name(s, i + 1) {
                Some((nm, j)) => Some((TokenModel::Execute(nm), j)),
                None => None,
            }
        } else if c == ('[' as u8) {
            let (ts, e) = spec_parse_exprs(s, i + 1);
            if i < e < s.len() && s[e] == (']' as u8) {
                Some((TokenModel::Loop(ts), e + 1))
            } else {
                None
            }
        } else if c == ('?' as u8) || c == ('|' as u8) || c == ('&' as u8) {
            match spec_parse_condition(s, i) {
                Some((cs, e)) => Some((TokenModel::Condition(cs), e)),
                None => None,
            }
        } else if c == ('=' as u8) {
            if i + 1 < s.len() && s[i + 1] == ('`' as u8) {
                let e = spec_nonbt_end(s, i + 2);
                if i + 2 <= e < s.len() && s[e] == ('`' as u8) {
                    Some((TokenModel::Array(s.subrange(i + 2, e)), e + 1))
                } else {
                    None
                }
            } else if i + 1 < s.len() && s[i + 1] == ('{' as u8) {
                match spec_parse_items(s, i + 2) {
                    Some((bytes, e)) => Some((TokenModel::Array(bytes), e)),
                    None => None,
                }
            } else {
                match spec_parse_number(s, i + 1) {
                    Some((n, e)) => Some((TokenModel::Assign(n), e)),
                    None => None,
                }
            }
        } else if spec_is_instruction(c) {
            if c != ('~' as u8) && i + 1 < s.len() && spec_is_digit(s[i + 1]) {
                match spec_parse_number(s, i + 1) {
                    Some((n, e)) => Some((TokenModel::Multiplier(c, n), e)),
                    None => Some((TokenModel::Operator(c), i + 1)),
                }
            } else {
                Some((TokenModel::Operator(c), i + 1))
            }
        } else {
            None
        }
    }
}

/// The tail of a function declaration after its name: an optional `@` and
/// start address, an optional `:` and end address, then `!` and a
/// backtick-delimited body, all adjacent. When this tail is absent the
/// name stands as a bare label.
pub open spec fn spec_parse_function_tail(s: Seq<u8>, j: int) -> Option<
    (Option<u16>, Option<u16>, Seq<TokenModel>, int),
>
    decreases s.len() - j, 1int,
{
    if !(0 <= j <= s.len()) {
        None
    } else {
        let (start, j2) = if j < s.len() && s[j] == ('@' as u8) {
            match spec_parse_number(s, j + 1) {
                Some((n, e)) => (Some(n), e),
                None => (None, j),
            }
        } else {
            (None, j)
        };
        if !(j <= j2 <= s.len()) {
            None
        } else {
            let (end, j3) = if j2 < s.len() && s[j2] == (':' as u8) {
                match spec_parse_number(s, j2 + 1) {
                    Some((n, e)) => (Some(n), e),
                    None => (None, j2),
                }
            } else {
                (None, j2)
            };
            if !(j <= j3 < s.len() && s[j3] == ('!' as u8)) {
                None
            } else {
                match spec_parse_body(s, j3 + 1) {
                    Some((bts, e)) => Some((start, end, bts, e)),
                    None => None,
                }
            }
        }
    }
}

/// The expression sequence from `i` on: whitespace is skipped before each
/// expression, and the sequence ends at the first position where no
/// expression parses. Returns the tokens and that position.
pub open spec fn spec_parse_exprs(s: Seq<u8>, i: int) -> (Seq<TokenModel>, int)
    decreases s.len() - i, 4int,
{
    if !(0 <= i <= s.len()) {
        (Seq::empty(), i)
    } else {
        let j = spec_skip_ws(s, i);
        if !(i <= j <= s.len()) {
            (Seq::empty(), j)
        } else {
            match spec_parse_expr(s, j) {
                None => (Seq::empty(), j),
                Some((t, k)) => {
                    if !(j < k <= s.len()) {
                        (seq![t], k)
                    } else {
                        let (ts, e) = spec_parse_exprs(s, k);
                        (seq![t] + ts, e)
                    }
                },
            }
        }
    }
}

/// The whole-buffer parse: the token sequence when the grammar consumes
/// every byte, or the offset of the first byte it could not consume.
pub open spec fn spec_parse(s: Seq<u8>) -> Result<Seq<TokenModel>, int> {
    let (ts, e) = spec_parse_exprs(s, 0);
    if e == s.len() {
        Ok(ts)
    } else {
        Err(e)
    }
}


/// Whether a byte is whitespace the grammar discards.
fn is_ws(b: u8) -> (r: bool)
    ensures
        r == spec_is_ws(b),
{
    b == (' ' as u8) || b == 9 || b == 13 || b == 10
}

/// Whether a byte is a decimal digit.
fn is_digit(b: u8) -> (r: bool)
    ensures
        r == spec_is_digit(b),
{
    ('0' as u8) <= b && b <= ('9' as u8)
}

/// Whether a byte may form part of a name.
fn is_alnum(b: u8) -> (r: bool)
    ensures
        r == spec_is_alnum(b),
{
    (('0' as u8) <= b && b <= ('9' as u8)) || (('a' as u8) <= b && b <= ('z' as u8)) || (('A' as u8)
        <= b && b <= ('Z' as u8))
}

/// Whether a byte is a basic instruction glyph.
fn is_instruction(b: u8) -> (r: bool)
    ensures
        r == spec_is_instruction(b),
{
    b == ('>' as u8) || b == ('<' as u8) || b == ('+' as u8) || b == ('-' as u8) || b == (
    ',' as u8) || b == ('.' as u8) || b == ('~' as u8)
}

/// Skips whitespace from `i` on.
fn skip_ws(s: &[u8], i: usize) -> (r: usize)
    requires
        i <= s@.len(),
    ensures
        r == spec_skip_ws(s@, i as int),
        i <= r <= s@.len(),
{
    let mut r = i;
    while r < s.len() && is_ws(s[r])
        invariant
            i <= r <= s@.len(),
            spec_skip_ws(s@, i as int) == spec_skip_ws(s@, r as int),
        decreases s@.len() - r,
    {
        r = r + 1;
    }
    r
}

/// The end of the maximal digit run at `i`.
fn digits_end(s: &[u8], i: usize) -> (r: usize)
    requires
        i <= s@.len(),
    ensures
        r == spec_digits_end(s@, i as int),
        i <= r <= s@.len(),
{
    let mut r = i;
    while r < s.len() && is_digit(s[r])
        invariant
            i <= r <= s@.len(),
            spec_digits_end(s@, i as int) == spec_digits_end(s@, r as int),
        decreases s@.len() - r,
    {
        r = r + 1;
    }
    r
}

/// The end of the maximal alphanumeric run at `i`.
fn name_end(s: &[u8], i: usize) -> (r: usize)
    requires
        i <= s@.len(),
    ensures
        r == spec_name_end(s@, i as int),
        i <= r <= s@.len(),
{
    let mut r = i;
    while r < s.len() && is_alnum(s[r])
        invariant
            i <= r <= s@.len(),
            spec_name_end(s@, i as int) == spec_name_end(s@, r as int),
        decreases s@.len() - r,
    {
        r = r + 1;
    }
    r
}

/// The end of the maximal backtick-free run at `i`.
fn nonbt_end(s: &[u8], i: usize) -> (r: usize)
    requires
        i <= s@.len(),
    ensures
        r == spec_nonbt_end(s@, i as int),
        i <= r <= s@.len(),
{
    let mut r = i;
    while r < s.len() && s[r] != ('`' as u8)
        invariant
            i <= r <= s@.len(),
            spec_nonbt_end(s@, i as int) == spec_nonbt_end(s@, r as int),
        decreases s@.len() - r,
    {
        r = r + 1;
    }
    r
}

/// The first line end at or after `i`.
fn line_end(s: &[u8], i: usize) -> (r: usize)
    requires
        i <= s@.len(),
    ensures
        r == spec_line_end(s@, i as int),
        i <= r <= s@.len(),
{
    let mut r = i;
    while r < s.len() && s[r] != 10 && s[r] != 13
        invariant
            i <= r <= s@.len(),
            spec_line_end(s@, i as int) == spec_line_end(s@, r as int),
        decreases s@.len() - r,
    {
        r = r + 1;
    }
    r
}

/// Parses the maximal decimal digit run at `i` into an unsigned 16-bit
/// value.
fn parse_number(s: &[u8], i: usize) -> (r: Option<(u16, usize)>)
    requires
        i <= s@.len(),
    ensures
        (match r {
            Some((n, j)) => spec_parse_number(s@, i as int) == Some((n, j as int)) && i < j
                <= s@.len() && spec_num_val(s@, i as int, j as int) == n,
            None => spec_parse_number(s@, i as int) is None,
        }),
{
    let e = digits_end(s, i);
    if e <= i {
        return None;
    }
    let mut val: u32 = 0;
    let mut k = i;
    while k < e
        invariant
            i <= k <= e <= s@.len(),
            e == spec_digits_end(s@, i as int),
            val <= 100000,
            if spec_num_val(s@, i as int, k as int) <= 65535 {
                val == spec_num_val(s@, i as int, k as int)
            } else {
                val == 100000
            },
        decreases e - k,
    {
        proof {
            lemma_digit_run(s@, i as int, e as int, k as int);
        }
        let d = (s[k] - ('0' as u8)) as u32;
        let nv = val * 10 + d;
        if nv > 65535 {
            val = 100000;
        } else {
            val = nv;
        }
        k = k + 1;
    }
    if val > 65535 {
        None
    } else {
        Some((val as u16, e))
    }
}

/// Every index of a maximal digit run holds a digit.
proof fn lemma_digit_run(s: Seq<u8>, i: int, e: int, k: int)
    requires
        0 <= i <= k < e,
        e == spec_digits_end(s, i),
        e <= s.len(),
    ensures
        spec_is_digit(s[k]),
    decreases k - i,
{
    lemma_scan_bounds(s, i + 1);
    if k > i {
        lemma_digit_run(s, i + 1, e, k);
    }
}

/// Parses the maximal alphanumeric run at `i` into a name.
fn parse_name(s: &[u8], i: usize) -> (r: Option<(Vec<u8>, usize)>)
    requires
        i <= s@.len(),
    ensures
        (match r {
            Some((nm, j)) => spec_parse_name(s@, i as int) matches Some(p) && p.0 == nm@ && p.1
                == j as int && i < j <= s@.len(),
            None => spec_parse_name(s@, i as int) is None,
        }),
{
    let e = name_end(s, i);
    if e <= i {
        return None;
    }
    let sub = vstd::slice::slice_subrange(s, i, e);
    let nm = vstd::slice::slice_to_vec(sub);
    Some((nm, e))
}


/// Parses a comment at `i`.
fn parse_comment(s: &[u8], i: usize) -> (r: Option<usize>)
    requires
        i <= s@.len(),
    ensures
        (match r {
            Some(e) => spec_parse_comment(s@, i as int) == Some(e as int) && i < e <= s@.len(),
            None => spec_parse_comment(s@, i as int) is None,
        }),
{
    if i >= s.len() || s[i] != ('`' as u8) {
        return None;
    }
    if !(i + 1 < s.len() && s[i + 1] == ('`' as u8)) {
        return None;
    }
    if i + 2 < s.len() && s[i + 2] == ('`' as u8) {
        return Some(line_end(s, i + 3));
    }
    let e = nonbt_end(s, i + 2);
    if e > i + 2 && e < s.len() && e + 1 < s.len() && s[e] == ('`' as u8) && s[e + 1] == (
    '`' as u8) {
        Some(e + 2)
    } else {
        None
    }
}

/// Parses the numeric elements of a brace array literal from `i` on.
fn parse_items(s: &[u8], i: usize) -> (r: Option<(Vec<u8>, usize)>)
    requires
        i <= s@.len(),
    ensures
        (match r {
            Some((bytes, e)) => spec_parse_items(s@, i as int) matches Some(p) && p.0 == bytes@
                && p.1 == e as int && i < e <= s@.len(),
            None => spec_parse_items(s@, i as int) is None,
        }),
    decreases s@.len() - i,
{
    let j = skip_ws(s, i);
    if j >= s.len() {
        return None;
    }
    if s[j] == ('}' as u8) {
        let out: Vec<u8> = Vec::new();
        proof {
            assert(out@ =~= Seq::<u8>::empty());
        }
        return Some((out, j + 1));
    }
    let (n, e) = match parse_number(s, j) {
        Some(p) => p,
        None => {
            proof {
                if spec_digits_end(s@, j as int) > j {
                    assert(spec_num_val(s@, j as int, spec_digits_end(s@, j as int)) > 65535);
                }
            }
            return None;
        },
    };
    if n > 255 {
        return None;
    }
    let j2 = skip_ws(s, e);
    let j3 = if j2 < s.len() && s[j2] == (',' as u8) {
        j2 + 1
    } else {
        j2
    };
    match parse_items(s, j3) {
        Some((mut rest, end)) => {
            let ghost old_rest = rest@;
            rest.insert(0, n as u8);
            proof {
                assert(rest@ =~= seq![n as u8] + old_rest);
            }
            Some((rest, end))
        },
        None => None,
    }
}

/// Parses one comparator at `i`.
#[verifier::rlimit(100)]
fn parse_comparator(s: &[u8], i: usize) -> (r: Option<(Token, usize)>)
    requires
        i <= s@.len(),
    ensures
        (match r {
            Some((t, j)) => spec_parse_comparator(s@, i as int) matches Some(p) && p.0
                == t.model() && p.1 == j as int && i < j <= s@.len(),
            None => spec_parse_comparator(s@, i as int) is None,
        }),
    decreases s@.len() - i, 0int,
{
    if i >= s.len() {
        return None;
    }
    if !(i + 1 < s.len() && (s[i] == ('?' as u8) || s[i] == ('|' as u8) || s[i] == ('&' as u8))) {
        return None;
    }
    let rel = s[i + 1];
    if !(rel == ('=' as u8) || rel == ('\'' as u8) || rel == ('\\' as u8) || rel == ('/' as u8)) {
        return None;
    }
    let doubled = i + 2 < s.len() && s[i + 2] == ('=' as u8);
    let mut glyphs: Vec<u8> = Vec::new();
    glyphs.push(s[i]);
    glyphs.push(rel);
    if doubled {
        glyphs.push(('=' as u8));
    }
    let k = if doubled {
        i + 3
    } else {
        i + 2
    };
    let indirect = k < s.len() && s[k] == ('@' as u8);
    let k2 = if indirect {
        k + 1
    } else {
        k
    };
    let flags0 = crate::comparator::decode(glyphs.as_slice());
    proof {
        let a = crate::comparator::spec_chain_bits(glyphs@[0]);
        let b = crate::comparator::spec_rel_bits(glyphs@[1]);
        let c: u8 = if glyphs@.len() >= 3 && glyphs@[2] == ('=' as u8) {
            1
        } else {
            0
        };
        assert((a == 0 || a == 4) && (b == 0 || b == 1 || b == 2 || b == 8 || b == 16) && (c == 0
            || c == 1) ==> ((a | b) | c) <= 21) by (bit_vector);
        if doubled {
            assert(glyphs@ =~= seq![s@[i as int], rel, ('=' as u8)]);
        } else {
            assert(glyphs@ =~= seq![s@[i as int], rel]);
        }
    }
    let flags: u8 = flags0 + (if indirect {
        32
    } else {
        0
    });
    let (n, e) = match parse_number(s, k2) {
        Some(p) => p,
        None => {
            return None;
        },
    };
    let operand = (n % 256) as u8;
    let (tb, e2): (Option<Vec<Token>>, usize) = if e < s.len() && s[e] == ('`' as u8) {
        match parse_body(s, e) {
            Some((bts, be)) => (Some(bts), be),
            None => (None, e),
        }
    } else {
        (None, e)
    };
    let (fb, e3): (Option<Vec<Token>>, usize) = if e2 < s.len() && s[e2] == (':' as u8) {
        match parse_body(s, e2 + 1) {
            Some((bts, be)) => (Some(bts), be),
            None => (None, e2),
        }
    } else {
        (None, e2)
    };
    Some((Token::Comparator(flags, operand, tb, fb), e3))
}

/// Parses one or more adjacent comparators at `i`.
fn parse_condition(s: &[u8], i: usize) -> (r: Option<(Vec<Token>, usize)>)
    requires
        i <= s@.len(),
    ensures
        (match r {
            Some((cs, j)) => spec_parse_condition(s@, i as int) matches Some(p) && p.0 == models(
                cs@,
            ) && p.1 == j as int && i < j <= s@.len(),
            None => spec_parse_condition(s@, i as int) is None,
        }),
    decreases s@.len() - i, 1int,
{
    let (c, j) = match parse_comparator(s, i) {
        Some(p) => p,
        None => {
            return None;
        },
    };
    match parse_condition(s, j) {
        None => {
            let mut cs: Vec<Token> = Vec::new();
            cs.push(c);
            proof {
                assert(models(cs@) =~= seq![c.model()]);
            }
            Some((cs, j))
        },
        Some((mut cs, e)) => {
            let ghost tail = models(cs@);
            cs.insert(0, c);
            proof {
                assert(models(cs@) =~= seq![c.model()] + tail);
            }
            Some((cs, e))
        },
    }
}

/// Parses a backtick-delimited body at `i`.
fn parse_body(s: &[u8], i: usize) -> (r: Option<(Vec<Token>, usize)>)
    requires
        i <= s@.len(),
    ensures
        (match r {
            Some((ts, j)) => spec_parse_body(s@, i as int) matches Some(p) && p.0 == models(ts@)
                && p.1 == j as int && i < j <= s@.len(),
            None => spec_parse_body(s@, i as int) is None,
        }),
    decreases s@.len() - i, 3int,
{
    if !(i < s.len() && s[i] == ('`' as u8)) {
        return None;
    }
    let (ts, e) = parse_exprs(s, i + 1);
    if e < s.len() && s[e] == ('`' as u8) {
        Some((ts, e + 1))
    } else {
        None
    }
}

/// Parses the tail of a function declaration after its name.
fn parse_function_tail(s: &[u8], j: usize) -> (r: Option<(Option<u16>, Option<u16>, Vec<Token>, usize)>)
    requires
        j <= s@.len(),
    ensures
        (match r {
            Some((start, end, body, e)) => spec_parse_function_tail(s@, j as int) matches Some(p)
                && p.0 == start && p.1 == end && p.2 == models(body@) && p.3 == e as int && j < e
                <= s@.len(),
            None => spec_parse_function_tail(s@, j as int) is None,
        }),
    decreases s@.len() - j, 1int,
{
    let (start, j2): (Option<u16>, usize) = if j < s.len() && s[j] == ('@' as u8) {
        match parse_number(s, j + 1) {
            Some((n, e)) => (Some(n), e),
            None => (None, j),
        }
    } else {
        (None, j)
    };
    let (end, j3): (Option<u16>, usize) = if j2 < s.len() && s[j2] == (':' as u8) {
        match parse_number(s, j2 + 1) {
            Some((n, e)) => (Some(n), e),
            None => (None, j2),
        }
    } else {
        (None, j2)
    };
    if !(j3 < s.len() && s[j3] == ('!' as u8)) {
        return None;
    }
    match parse_body(s, j3 + 1) {
        Some((bts, e)) => Some((start, end, bts, e)),
        None => None,
    }
}

/// Parses one expression at `i` (no leading whitespace).
fn parse_expr(s: &[u8], i: usize) -> (r: Option<(Token, usize)>)
    requires
        i <= s@.len(),
    ensures
        (match r {
            Some((t, j)) => spec_parse_expr(s@, i as int) matches Some(p) && p.0 == t.model()
                && p.1 == j as int && i < j <= s@.len(),
            None => spec_parse_expr(s@, i as int) is None,
        }),
    decreases s@.len() - i, 2int,
{
    if i >= s.len() {
        return None;
    }
    let c = s[i];
    if c == ('`' as u8) {
        match parse_comment(s, i) {
            Some(e) => Some((Token::Comment, e)),
            None => None,
        }
    } else if c == ('@' as u8) {
        match parse_number(s, i + 1) {
            Some((n, e)) => Some((Token::Address(n), e)),
            None => None,
        }
    } else if c == ('^' as u8) {
        let (nm, j) = match parse_name(s, i + 1) {
            Some(p) => p,
            None => {
                return None;
            },
        };
        match parse_function_tail(s, j) {
            Some((start, end, body, e)) => Some((Token::Function(nm, start, end, body), e)),
            None => Some((Token::Label(nm), j)),
        }
    } else if c == ('!' as u8) {
        match parse_name(s, i + 1) {
            Some((nm, j)) => Some((Token::Execute(nm), j)),
            None => None,
        }
    } else if c == ('[' as u8) {
        let (ts, e) = parse_exprs(s, i + 1);
        if e < s.len() && s[e] == (']' as u8) {
            Some((Token::Loop(ts), e + 1))
        } else {
            None
        }
    } else if c == ('?' as u8) || c == ('|' as u8) || c == ('&' as u8) {
        match parse_condition(s, i) {
            Some((cs, e)) => Some((Token::Condition(cs), e)),
            None => None,
        }
    } else if c == ('=' as u8) {
        if i + 1 < s.len() && s[i + 1] == ('`' as u8) {
            let e = nonbt_end(s, i + 2);
            if e < s.len() && s[e] == ('`' as u8) {
                let sub = vstd::slice::slice_subrange(s, i + 2, e);
                let bytes = vstd::slice::slice_to_vec(sub);
                Some((Token::Array(bytes), e + 1))
            } else {
                None
            }
        } else if i + 1 < s.len() && s[i + 1] == ('{' as u8) {
            match parse_items(s, i + 2) {
                Some((bytes, e)) => Some((Token::Array(bytes), e)),
                None => None,
            }
        } else {
            match parse_number(s, i + 1) {
                Some((n, e)) => Some((Token::Assign(n), e)),
                None => None,
            }
        }
    } else if is_instruction(c) {
        if c != ('~' as u8) && i + 1 < s.len() && is_digit(s[i + 1]) {
            match parse_number(s, i + 1) {
                Some((n, e)) => Some((Token::Multiplier(c, n), e)),
                None => Some((Token::Operator(c), i + 1)),
            }
        } else {
            Some((Token::Operator(c), i + 1))
        }
    } else {
        None
    }
}

/// Parses the expression sequence from `i` on, skipping whitespace before
/// each expression; returns the tokens and the first position where no
/// expression parses.
fn parse_exprs(s: &[u8], i: usize) -> (r: (Vec<Token>, usize))
    requires
        i <= s@.len(),
    ensures
        ({
            let (ts, e) = spec_parse_exprs(s@, i as int);
            models(r.0@) == ts && r.1 as int == e && i <= r.1 <= s@.len()
        }),
    decreases s@.len() - i, 4int,
{
    let j = skip_ws(s, i);
    let (t, k) = match parse_expr(s, j) {
        Some(p) => p,
        None => {
            let out: Vec<Token> = Vec::new();
            proof {
                assert(models(out@) =~= Seq::<TokenModel>::empty());
            }
            return (out, j);
        },
    };
    let (mut ts, e) = parse_exprs(s, k);
    let ghost tail = models(ts@);
    ts.insert(0, t);
    proof {
        assert(models(ts@) =~= seq![t.model()] + tail);
    }
    (ts, e)
}

/// Parses a whole source buffer into a token sequence. The grammar must
/// consume every byte: trailing unparsed bytes are a failure naming the
/// offset of the first byte that could not be consumed.
pub fn parse(i: &[u8]) -> (r: Result<Vec<Token>, ParseError>)
    ensures
        (match r {
            Ok(ts) => spec_parse(i@) == Ok::<_, int>(models(ts@)),
            Err(pe) => spec_parse(i@) == Err::<Seq<TokenModel>, _>(pe.offset as int) && pe.offset
                < i@.len(),
        }),
{
    let (ts, e) = parse_exprs(i, 0);
    if e == i.len() {
        Ok(ts)
    } else {
        Err(ParseError { offset: e })
    }
}


/// The canonical decimal digits of `n`, most significant first, no
/// leading zeros (a lone zero for 0).
pub open spec fn spec_dec(n: nat) -> Seq<u8>
    decreases n,
{
    if n < 10 {
        seq![(('0' as u8) + n) as u8]
    } else {
        spec_dec(n / 10) + seq![(('0' as u8) + n % 10) as u8]
    }
}

/// The canonical chain-role glyph of a flag byte.
pub open spec fn spec_chain_glyph(flags: u8) -> Seq<u8> {
    if flags & 4 != 0 {
        seq![('|' as u8)]
    } else {
        seq![('?' as u8)]
    }
}

/// The canonical relational glyphs of a flag byte.
pub open spec fn spec_rel_glyphs(flags: u8) -> Seq<u8> {
    let rel = flags & 0x1b;
    if rel == 1 {
        seq![('=' as u8)]
    } else if rel == 2 {
        seq![('\'' as u8)]
    } else if rel == 3 {
        seq![('\'' as u8), ('=' as u8)]
    } else if rel == 8 {
        seq![('\\' as u8)]
    } else if rel == 9 {
        seq![('\\' as u8), ('=' as u8)]
    } else if rel == 16 {
        seq![('/' as u8)]
    } else if rel == 17 {
        seq![('/' as u8), ('=' as u8)]
    } else {
        Seq::empty()
    }
}

/// The canonical indirection mark of a flag byte.
pub open spec fn spec_ind_glyph(flags: u8) -> Seq<u8> {
    if flags & 32 != 0 {
        seq![('@' as u8)]
    } else {
        Seq::empty()
    }
}

/// Canonical glyphs of a true branch: the body between backticks, or
/// nothing.
pub open spec fn spec_ser_true_branch(tb: Option<Seq<TokenModel>>) -> Seq<u8>
    decreases tb,
{
    match tb {
        Some(b) => seq![('`' as u8)] + spec_ser_tokens_from(b, 0) + seq![('`' as u8)],
        None => Seq::empty(),
    }
}

/// Canonical glyphs of a false branch: a colon and the body between
/// backticks, or nothing.
pub open spec fn spec_ser_false_branch(fb: Option<Seq<TokenModel>>) -> Seq<u8>
    decreases fb,
{
    match fb {
        Some(b) => seq![(':' as u8), ('`' as u8)] + spec_ser_tokens_from(b, 0) + seq![('`' as u8)],
        None => Seq::empty(),
    }
}

/// Canonical glyphs of one comparator link: chain glyph, relational
/// glyphs, optional indirection mark, operand digits, optional branches.
pub open spec fn spec_ser_comparator(t: TokenModel) -> Seq<u8>
    decreases t, 0int,
{
    match t {
        TokenModel::Comparator(flags, operand, tb, fb) => {
            spec_chain_glyph(flags) + spec_rel_glyphs(flags) + spec_ind_glyph(flags) + spec_dec(
                operand as nat,
            ) + spec_ser_true_branch(tb) + spec_ser_false_branch(fb)
        },
        _ => Seq::empty(),
    }
}

/// Canonical glyphs of a condition chain: its comparators adjacent.
pub open spec fn spec_ser_comparators(cs: Seq<TokenModel>, i: int) -> Seq<u8>
    decreases cs, cs.len() - i, 0int,
{
    if !(0 <= i < cs.len()) {
        Seq::empty()
    } else {
        spec_ser_comparator(cs[i]) + spec_ser_comparators(cs, i + 1)
    }
}

/// Canonical glyphs of one token.
pub open spec fn spec_ser_token(t: TokenModel) -> Seq<u8>
    decreases t, 1int,
{
    match t {
        TokenModel::Address(p) => seq![('@' as u8)] + spec_dec(p as nat),
        TokenModel::Label(n) => seq![('^' as u8)] + n,
        TokenModel::Comment => seq![('`' as u8), ('`' as u8), (' ' as u8), ('`' as u8), ('`' as u8)],
        TokenModel::Comparator(..) => Seq::empty(),
        TokenModel::Condition(cs) => spec_ser_comparators(cs, 0),
        TokenModel::Execute(n) => seq![('!' as u8)] + n,
        TokenModel::Function(n, st, en, b) => {
            let sts: Seq<u8> = match st {
                Some(v) => seq![('@' as u8)] + spec_dec(v as nat),
                None => Seq::empty(),
            };
            let ens: Seq<u8> = match en {
                Some(v) => seq![(':' as u8)] + spec_dec(v as nat),
                None => Seq::empty(),
            };
            seq![('^' as u8)] + n + sts + ens + seq![('!' as u8), ('`' as u8)]
                + spec_ser_tokens_from(b, 0) + seq![('`' as u8)]
        },
        TokenModel::Loop(b) => seq![('[' as u8)] + spec_ser_tokens_from(b, 0) + seq![(']' as u8)],
        TokenModel::Multiplier(g, n) => seq![g] + spec_dec(n as nat),
        TokenModel::Operator(g) => seq![g],
        TokenModel::Assign(v) => seq![('=' as u8)] + spec_dec(v as nat),
        TokenModel::Array(bytes) => seq![('=' as u8), ('{' as u8)] + spec_ser_bytes(bytes, 0)
            + seq![('}' as u8)],
    }
}

/// Canonical digits of the elements of an array literal, separated by
/// commas.
pub open spec fn spec_ser_bytes(bytes: Seq<u8>, i: int) -> Seq<u8>
    decreases bytes.len() - i,
{
    if !(0 <= i < bytes.len()) {
        Seq::empty()
    } else if i + 1 < bytes.len() {
        spec_dec(bytes[i] as nat) + seq![(',' as u8)] + spec_ser_bytes(bytes, i + 1)
    } else {
        spec_dec(bytes[i] as nat)
    }
}

/// Canonical glyphs of the tokens of `ts` from `i` on, each followed by
/// one separating space.
pub open spec fn spec_ser_tokens_from(ts: Seq<TokenModel>, i: int) -> Seq<u8>
    decreases ts, ts.len() - i, 2int,
{
    if !(0 <= i < ts.len()) {
        Seq::empty()
    } else {
        spec_ser_token(ts[i]) + seq![(' ' as u8)] + spec_ser_tokens_from(ts, i + 1)
    }
}

/// The canonical glyph form of a token sequence.
pub open spec fn spec_serialize(ts: Seq<TokenModel>) -> Seq<u8> {
    spec_ser_tokens_from(ts, 0)
}

/// Appends the canonical decimal digits of `n`.
fn ser_dec_into(n: u16, out: &mut Vec<u8>)
    ensures
        final(out)@ == old(out)@ + spec_dec(n as nat),
    decreases n,
{
    if n < 10 {
        out.push(('0' as u8) + (n as u8));
        proof {
            assert(out@ =~= old(out)@ + spec_dec(n as nat));
        }
    } else {
        ser_dec_into(n / 10, out);
        out.push(('0' as u8) + ((n % 10) as u8));
        proof {
            assert(out@ =~= old(out)@ + spec_dec(n as nat));
        }
    }
}

/// Appends the chain, relational and indirection glyphs of a flag byte.
fn ser_flag_glyphs(f: u8, out: &mut Vec<u8>)
    ensures
        final(out)@ == old(out)@ + spec_chain_glyph(f) + spec_rel_glyphs(f) + spec_ind_glyph(f),
{
    if f & 4 != 0 {
        out.push(('|' as u8));
    } else {
        out.push(('?' as u8));
    }
    let rel = f & 0x1b;
    if rel == 1 {
        out.push(('=' as u8));
    } else if rel == 2 {
        out.push(('\'' as u8));
    } else if rel == 3 {
        out.push(('\'' as u8));
        out.push(('=' as u8));
    } else if rel == 8 {
        out.push(('\\' as u8));
    } else if rel == 9 {
        out.push(('\\' as u8));
        out.push(('=' as u8));
    } else if rel == 16 {
        out.push(('/' as u8));
    } else if rel == 17 {
        out.push(('/' as u8));
        out.push(('=' as u8));
    }
    if f & 32 != 0 {
        out.push(('@' as u8));
    }
    proof {
        assert(out@ =~= old(out)@ + spec_chain_glyph(f) + spec_rel_glyphs(f) + spec_ind_glyph(f));
    }
}

/// Appends the canonical glyphs of a true branch.
fn ser_true_branch_into(tb: &Option<Vec<Token>>, out: &mut Vec<u8>)
    ensures
        final(out)@ == old(out)@ + spec_ser_true_branch(opt_models(*tb)),
    decreases tb,
{
    match tb {
        Some(b) => {
            out.push(('`' as u8));
            ser_tokens_into(b, 0, out);
            out.push(('`' as u8));
            proof {
                assert(out@ =~= old(out)@ + spec_ser_true_branch(opt_models(*tb)));
            }
        },
        None => {
            proof {
                assert(out@ =~= old(out)@ + spec_ser_true_branch(opt_models(*tb)));
            }
        },
    }
}

/// Appends the canonical glyphs of a false branch.
fn ser_false_branch_into(fb: &Option<Vec<Token>>, out: &mut Vec<u8>)
    ensures
        final(out)@ == old(out)@ + spec_ser_false_branch(opt_models(*fb)),
    decreases fb,
{
    match fb {
        Some(b) => {
            out.push((':' as u8));
            out.push(('`' as u8));
            ser_tokens_into(b, 0, out);
            out.push(('`' as u8));
            proof {
                assert(out@ =~= old(out)@ + spec_ser_false_branch(opt_models(*fb)));
            }
        },
        None => {
            proof {
                assert(out@ =~= old(out)@ + spec_ser_false_branch(opt_models(*fb)));
            }
        },
    }
}

/// Appends the canonical glyphs of one comparator link.
fn ser_comparator_into(t: &Token, out: &mut Vec<u8>)
    ensures
        final(out)@ == old(out)@ + spec_ser_comparator(t.model()),
    decreases t, 0int,
{
    match t {
        Token::Comparator(flags, operand, tb, fb) => {
            ser_flag_glyphs(*flags, out);
            ser_dec_into(*operand as u16, out);
            ser_true_branch_into(tb, out);
            ser_false_branch_into(fb, out);
            proof {
                assert(out@ =~= old(out)@ + spec_ser_comparator(t.model()));
            }
        },
        _ => {
            proof {
                assert(out@ =~= old(out)@ + spec_ser_comparator(t.model()));
            }
        },
    }
}

/// Appends the canonical glyphs of the comparators of `cs` from `i` on.
fn ser_comparators_into(cs: &Vec<Token>, i: usize, out: &mut Vec<u8>)
    requires
        i <= cs@.len(),
    ensures
        final(out)@ == old(out)@ + spec_ser_comparators(models(cs@), i as int),
    decreases cs, cs@.len() - i, 1int,
{
    if i < cs.len() {
        ser_comparator_into(&cs[i], out);
        ser_comparators_into(cs, i + 1, out);
    }
    proof {
        assert(out@ =~= old(out)@ + spec_ser_comparators(models(cs@), i as int));
    }
}

/// Appends the canonical digits of the array elements from `i` on.
fn ser_bytes_into(bytes: &Vec<u8>, i: usize, out: &mut Vec<u8>)
    requires
        i <= bytes@.len(),
    ensures
        final(out)@ == old(out)@ + spec_ser_bytes(bytes@, i as int),
    decreases bytes@.len() - i,
{
    if i < bytes.len() {
        ser_dec_into(bytes[i] as u16, out);
        if i + 1 < bytes.len() {
            out.push((',' as u8));
            ser_bytes_into(bytes, i + 1, out);
        }
    }
    proof {
        assert(out@ =~= old(out)@ + spec_ser_bytes(bytes@, i as int));
    }
}

/// Appends the canonical glyphs of one token.
fn ser_token_into(t: &Token, out: &mut Vec<u8>)
    ensures
        final(out)@ == old(out)@ + spec_ser_token(t.model()),
    decreases t, 1int,
{
    match t {
        Token::Address(p) => {
            out.push(('@' as u8));
            ser_dec_into(*p, out);
        },
        Token::Label(n) => {
            out.push(('^' as u8));
            let mut nc = clone_bytes(n);
            out.append(&mut nc);
        },
        Token::Comment => {
            out.push(('`' as u8));
            out.push(('`' as u8));
            out.push((' ' as u8));
            out.push(('`' as u8));
            out.push(('`' as u8));
        },
        Token::Comparator(..) => {},
        Token::Condition(cs) => {
            ser_comparators_into(cs, 0, out);
        },
        Token::Execute(n) => {
            out.push(('!' as u8));
            let mut nc = clone_bytes(n);
            out.append(&mut nc);
        },
        Token::Function(n, st, en, b) => {
            out.push(('^' as u8));
            let mut nc = clone_bytes(n);
            out.append(&mut nc);
            match st {
                Some(v) => {
                    out.push(('@' as u8));
                    ser_dec_into(*v, out);
                },
                None => {},
            }
            match en {
                Some(v) => {
                    out.push((':' as u8));
                    ser_dec_into(*v, out);
                },
                None => {},
            }
            out.push(('!' as u8));
            out.push(('`' as u8));
            ser_tokens_into(b, 0, out);
            out.push(('`' as u8));
        },
        Token::Loop(b) => {
            out.push(('[' as u8));
            ser_tokens_into(b, 0, out);
            out.push((']' as u8));
        },
        Token::Multiplier(g, n) => {
            out.push(*g);
            ser_dec_into(*n, out);
        },
        Token::Operator(g) => {
            out.push(*g);
        },
        Token::Assign(v) => {
            out.push(('=' as u8));
            ser_dec_into(*v, out);
        },
        Token::Array(bytes) => {
            out.push(('=' as u8));
            out.push(('{' as u8));
            ser_bytes_into(bytes, 0, out);
            out.push(('}' as u8));
        },
    }
    proof {
        assert(out@ =~= old(out)@ + spec_ser_token(t.model()));
    }
}

/// Appends the canonical glyphs of the tokens of `ts` from `i` on, each
/// followed by one separating space.
fn ser_tokens_into(ts: &Vec<Token>, i: usize, out: &mut Vec<u8>)
    requires
        i <= ts@.len(),
    ensures
        final(out)@ == old(out)@ + spec_ser_tokens_from(models(ts@), i as int),
    decreases ts, ts@.len() - i, 2int,
{
    if i < ts.len() {
        ser_token_into(&ts[i], out);
        out.push((' ' as u8));
        ser_tokens_into(ts, i + 1, out);
    }
    proof {
        assert(out@ =~= old(out)@ + spec_ser_tokens_from(models(ts@), i as int));
    }
}

/// Renders a token sequence in canonical glyph form: each token's glyphs
/// followed by one separating space, bodies and branches delimited as the
/// grammar reads them.
pub fn serialize(tokens: &Vec<Token>) -> (r: Vec<u8>)
    ensures
        r@ == spec_serialize(models(tokens@)),
{
    let mut out: Vec<u8> = Vec::new();
    ser_tokens_into(tokens, 0, &mut out);
    proof {
        assert(out@ =~= spec_serialize(models(tokens@)));
    }
    out
}


/// A run of digits bounded by a non-digit (or the buffer end) is exactly
/// what the digit scanner finds.
proof fn lemma_digits_end_of_run(s: Seq<u8>, i: int, e: int)
    requires
        0 <= i <= e <= s.len(),
        forall|k: int| i <= k < e ==> spec_is_digit(#[trigger] s[k]),
        e == s.len() || !spec_is_digit(s[e]),
    ensures
        spec_digits_end(s, i) == e,
    decreases e - i,
{
    if i < e {
        lemma_digits_end_of_run(s, i + 1, e);
    }
}

/// A run of name bytes bounded by a byte that cannot extend it is exactly
/// what the name scanner finds.
proof fn lemma_name_end_of_run(s: Seq<u8>, i: int, e: int)
    requires
        0 <= i <= e <= s.len(),
        forall|k: int| i <= k < e ==> spec_is_alnum(#[trigger] s[k]),
        e == s.len() || !spec_is_alnum(s[e]),
    ensures
        spec_name_end(s, i) == e,
    decreases e - i,
{
    if i < e {
        lemma_name_end_of_run(s, i + 1, e);
    }
}

/// The canonical digits of a number are nonempty decimal digits.
proof fn lemma_dec_shape(n: nat)
    ensures
        spec_dec(n).len() >= 1,
        forall|k: int| 0 <= k < spec_dec(n).len() ==> spec_is_digit(#[trigger] spec_dec(n)[k]),
    decreases n,
{
    if n >= 10 {
        lemma_dec_shape(n / 10);
    }
}

/// Reading the canonical digits of `n` back as a number yields `n`.
proof fn lemma_dec_value(s: Seq<u8>, i: int, n: nat)
    requires
        0 <= i,
        i + spec_dec(n).len() <= s.len(),
        s.subrange(i, i + spec_dec(n).len() as int) == spec_dec(n),
    ensures
        spec_num_val(s, i, i + spec_dec(n).len() as int) == n,
    decreases n,
{
    let d = spec_dec(n);
    if n < 10 {
        assert(s[i] == d[0]);
        assert(spec_num_val(s, i, i) == 0);
        assert(spec_num_val(s, i, i + 1) == spec_num_val(s, i, i) * 10 + (s[i] - ('0' as u8)));
    } else {
        let dh = spec_dec(n / 10);
        let e = i + d.len() as int;
        assert forall|k: int| i <= k < i + dh.len() implies s[k] == dh[k - i] by {
            assert(s[k] == s.subrange(i, e)[k - i]);
            assert(d[k - i] == dh[k - i]);
        }
        assert(s.subrange(i, i + dh.len() as int) =~= dh);
        lemma_dec_value(s, i, n / 10);
        assert(s[e - 1] == s.subrange(i, e)[d.len() - 1]);
        assert(d[d.len() - 1] == (('0' as u8) + n % 10) as u8);
        assert(spec_num_val(s, i, e) == spec_num_val(s, i, e - 1) * 10 + (s[e - 1] - ('0' as u8)));
        assert(spec_num_val(s, i, e - 1) == n / 10);
        assert(n == (n / 10) * 10 + n % 10);
    }
}

/// The maximal digit run at the canonical digits of `n`, bounded by a
/// non-digit, parses back to exactly `n`.
proof fn lemma_number_round(s: Seq<u8>, i: int, n: u16)
    requires
        0 <= i,
        i + spec_dec(n as nat).len() <= s.len(),
        s.subrange(i, i + spec_dec(n as nat).len() as int) == spec_dec(n as nat),
        i + spec_dec(n as nat).len() == s.len() || !spec_is_digit(
            s[i + spec_dec(n as nat).len()],
        ),
    ensures
        spec_parse_number(s, i) == Some((n, i + spec_dec(n as nat).len() as int)),
        spec_digits_end(s, i) == i + spec_dec(n as nat).len(),
        spec_num_val(s, i, i + spec_dec(n as nat).len() as int) == n,
{
    let e = i + spec_dec(n as nat).len() as int;
    lemma_dec_shape(n as nat);
    assert forall|k: int| i <= k < e implies spec_is_digit(#[trigger] s[k]) by {
        assert(s[k] == spec_dec(n as nat)[k - i]);
    }
    lemma_digits_end_of_run(s, i, e);
    lemma_dec_value(s, i, n as nat);
}

/// A name placed in the buffer and bounded by a byte that cannot extend
/// it parses back to exactly that name.
proof fn lemma_name_round(s: Seq<u8>, i: int, nm: Seq<u8>)
    requires
        0 <= i,
        wf_name(nm),
        i + nm.len() <= s.len(),
        s.subrange(i, i + nm.len() as int) == nm,
        i + nm.len() == s.len() || !spec_is_alnum(s[i + nm.len()]),
    ensures
        spec_parse_name(s, i) == Some((nm, i + nm.len() as int)),
{
    let e = i + nm.len() as int;
    assert forall|k: int| i <= k < e implies spec_is_alnum(#[trigger] s[k]) by {
        assert(s[k] == nm[k - i]);
    }
    lemma_name_end_of_run(s, i, e);
    assert(s.subrange(i, e) =~= nm);
}


/// The whitespace scanner does not move off a byte that is not
/// whitespace (or off the buffer end).
proof fn lemma_skip_ws_stop(s: Seq<u8>, i: int)
    requires
        0 <= i,
        i >= s.len() || !spec_is_ws(s[i]),
    ensures
        spec_skip_ws(s, i) == i,
{
}

/// Canonical array elements followed by a closing brace parse back to
/// exactly those elements.
proof fn lemma_items_round(s: Seq<u8>, i: int, bytes: Seq<u8>, k: int)
    requires
        0 <= i,
        0 <= k <= bytes.len(),
        i + spec_ser_bytes(bytes, k).len() < s.len(),
        s.subrange(i, i + spec_ser_bytes(bytes, k).len() as int) == spec_ser_bytes(bytes, k),
        s[i + spec_ser_bytes(bytes, k).len()] == ('}' as u8),
    ensures
        spec_parse_items(s, i) == Some(
            (bytes.skip(k), i + spec_ser_bytes(bytes, k).len() + 1),
        ),
    decreases bytes.len() - k,
{
    let ser = spec_ser_bytes(bytes, k);
    if k >= bytes.len() {
        lemma_skip_ws_stop(s, i);
        assert(bytes.skip(k) =~= Seq::<u8>::empty());
    } else {
        let d = spec_dec(bytes[k] as nat);
        lemma_dec_shape(bytes[k] as nat);
        let e = i + d.len() as int;
        assert forall|x: int| i <= x < e implies s[x] == d[x - i] by {
            assert(s[x] == s.subrange(i, i + ser.len() as int)[x - i]);
        }
        assert(s.subrange(i, e) =~= d);
        assert(!spec_is_ws(s[i]) && s[i] != ('}' as u8));
        lemma_skip_ws_stop(s, i);
        if k + 1 < bytes.len() {
            let rest = spec_ser_bytes(bytes, k + 1);
            assert(s[e] == ser[d.len() as int]);
            assert(s[e] == (',' as u8));
            lemma_number_round(s, i, bytes[k] as u16);
            lemma_skip_ws_stop(s, e);
            assert forall|x: int| e + 1 <= x < e + 1 + rest.len() implies s[x] == rest[x - e
                - 1] by {
                assert(s[x] == s.subrange(i, i + ser.len() as int)[x - i]);
                assert(ser[x - i] == rest[x - e - 1]);
            }
            assert(s.subrange(e + 1, e + 1 + rest.len() as int) =~= rest);
            lemma_items_round(s, e + 1, bytes, k + 1);
            assert(bytes.skip(k) =~= seq![bytes[k]] + bytes.skip(k + 1));
        } else {
            assert(s[e] == ('}' as u8));
            lemma_number_round(s, i, bytes[k] as u16);
            lemma_skip_ws_stop(s, e);
            assert(spec_parse_items(s, e) == Some(
                (Seq::<u8>::empty(), e + 1),
            ));
            assert(bytes.skip(k) =~= seq![bytes[k]] + Seq::<u8>::empty());
        }
    }
}


/// One case of the round trip: an address token.
proof fn lemma_expr_round_address(s: Seq<u8>, i: int, t: TokenModel)
    requires
        0 <= i,
        wf_token(t),
        i + spec_ser_token(t).len() < s.len(),
        s.subrange(i, i + spec_ser_token(t).len() as int) == spec_ser_token(t),
        s[i + spec_ser_token(t).len()] == (' ' as u8),
        forall|x: int|
            i <= x < i + spec_ser_token(t).len() ==> #[trigger] s[x] == spec_ser_token(t)[x - i],
        t is Address,
    ensures
        spec_parse_expr(s, i) == Some((t, i + spec_ser_token(t).len() as int)),
{
    match t {
        TokenModel::Address(p) => {
            let d = spec_dec(p as nat);
            assert(s.subrange(i + 1, i + 1 + d.len() as int) =~= d);
            lemma_number_round(s, i + 1, p);
        },
        _ => {},
    }
}

/// One case of the round trip: a bare label.
proof fn lemma_expr_round_label(s: Seq<u8>, i: int, t: TokenModel)
    requires
        0 <= i,
        wf_token(t),
        i + spec_ser_token(t).len() < s.len(),
        s.subrange(i, i + spec_ser_token(t).len() as int) == spec_ser_token(t),
        s[i + spec_ser_token(t).len()] == (' ' as u8),
        forall|x: int|
            i <= x < i + spec_ser_token(t).len() ==> #[trigger] s[x] == spec_ser_token(t)[x - i],
        t is Label,
    ensures
        spec_parse_expr(s, i) == Some((t, i + spec_ser_token(t).len() as int)),
{
    match t {
        TokenModel::Label(nm) => {
            assert(s.subrange(i + 1, i + 1 + nm.len() as int) =~= nm);
            lemma_name_round(s, i + 1, nm);
            let j = i + 1 + nm.len() as int;
            assert(s[j] == (' ' as u8));
            assert(spec_parse_function_tail(s, j) is None);
        },
        _ => {},
    }
}

/// One case of the round trip: a comment.
proof fn lemma_expr_round_comment(s: Seq<u8>, i: int, t: TokenModel)
    requires
        0 <= i,
        wf_token(t),
        i + spec_ser_token(t).len() < s.len(),
        s.subrange(i, i + spec_ser_token(t).len() as int) == spec_ser_token(t),
        s[i + spec_ser_token(t).len()] == (' ' as u8),
        forall|x: int|
            i <= x < i + spec_ser_token(t).len() ==> #[trigger] s[x] == spec_ser_token(t)[x - i],
        t is Comment,
    ensures
        spec_parse_expr(s, i) == Some((t, i + spec_ser_token(t).len() as int)),
{
    assert(s[i] == ('`' as u8) && s[i + 1] == ('`' as u8) && s[i + 2] == (' ' as u8) && s[i + 3]
        == ('`' as u8) && s[i + 4] == ('`' as u8));
    assert(spec_nonbt_end(s, i + 3) == i + 3);
    assert(spec_nonbt_end(s, i + 2) == i + 3);
    assert(spec_parse_comment(s, i) == Some(i + 5));
}

/// One case of the round trip: an execute token.
proof fn lemma_expr_round_execute(s: Seq<u8>, i: int, t: TokenModel)
    requires
        0 <= i,
        wf_token(t),
        i + spec_ser_token(t).len() < s.len(),
        s.subrange(i, i + spec_ser_token(t).len() as int) == spec_ser_token(t),
        s[i + spec_ser_token(t).len()] == (' ' as u8),
        forall|x: int|
            i <= x < i + spec_ser_token(t).len() ==> #[trigger] s[x] == spec_ser_token(t)[x - i],
        t is Execute,
    ensures
        spec_parse_expr(s, i) == Some((t, i + spec_ser_token(t).len() as int)),
{
    match t {
        TokenModel::Execute(nm) => {
            assert(s.subrange(i + 1, i + 1 + nm.len() as int) =~= nm);
            lemma_name_round(s, i + 1, nm);
        },
        _ => {},
    }
}

/// One case of the round trip: a counted operator.
proof fn lemma_expr_round_multiplier(s: Seq<u8>, i: int, t: TokenModel)
    requires
        0 <= i,
        wf_token(t),
        i + spec_ser_token(t).len() < s.len(),
        s.subrange(i, i + spec_ser_token(t).len() as int) == spec_ser_token(t),
        s[i + spec_ser_token(t).len()] == (' ' as u8),
        forall|x: int|
            i <= x < i + spec_ser_token(t).len() ==> #[trigger] s[x] == spec_ser_token(t)[x - i],
        t is Multiplier,
    ensures
        spec_parse_expr(s, i) == Some((t, i + spec_ser_token(t).len() as int)),
{
    match t {
        TokenModel::Multiplier(g, n) => {
            let d = spec_dec(n as nat);
            lemma_dec_shape(n as nat);
            assert(s.subrange(i + 1, i + 1 + d.len() as int) =~= d);
            lemma_number_round(s, i + 1, n);
            assert(spec_is_digit(s[i + 1]));
        },
        _ => {},
    }
}

/// One case of the round trip: a single operator.
proof fn lemma_expr_round_operator(s: Seq<u8>, i: int, t: TokenModel)
    requires
        0 <= i,
        wf_token(t),
        i + spec_ser_token(t).len() < s.len(),
        s.subrange(i, i + spec_ser_token(t).len() as int) == spec_ser_token(t),
        s[i + spec_ser_token(t).len()] == (' ' as u8),
        forall|x: int|
            i <= x < i + spec_ser_token(t).len() ==> #[trigger] s[x] == spec_ser_token(t)[x - i],
        t is Operator,
    ensures
        spec_parse_expr(s, i) == Some((t, i + spec_ser_token(t).len() as int)),
{
    match t {
        TokenModel::Operator(g) => {
            assert(spec_ser_token(t).len() == 1);
            assert(s[i + 1] == (' ' as u8));
            assert(!spec_is_digit(s[i + 1]));
        },
        _ => {},
    }
}

/// One case of the round trip: a scalar write.
proof fn lemma_expr_round_assign(s: Seq<u8>, i: int, t: TokenModel)
    requires
        0 <= i,
        wf_token(t),
        i + spec_ser_token(t).len() < s.len(),
        s.subrange(i, i + spec_ser_token(t).len() as int) == spec_ser_token(t),
        s[i + spec_ser_token(t).len()] == (' ' as u8),
        forall|x: int|
            i <= x < i + spec_ser_token(t).len() ==> #[trigger] s[x] == spec_ser_token(t)[x - i],
        t is Assign,
    ensures
        spec_parse_expr(s, i) == Some((t, i + spec_ser_token(t).len() as int)),
{
    match t {
        TokenModel::Assign(v) => {
            let d = spec_dec(v as nat);
            lemma_dec_shape(v as nat);
            assert(s.subrange(i + 1, i + 1 + d.len() as int) =~= d);
            lemma_number_round(s, i + 1, v);
            assert(spec_is_digit(s[i + 1]));
            assert(s[i + 1] != ('`' as u8) && s[i + 1] != ('{' as u8));
        },
        _ => {},
    }
}

/// One case of the round trip: an array write.
proof fn lemma_expr_round_array(s: Seq<u8>, i: int, t: TokenModel)
    requires
        0 <= i,
        wf_token(t),
        i + spec_ser_token(t).len() < s.len(),
        s.subrange(i, i + spec_ser_token(t).len() as int) == spec_ser_token(t),
        s[i + spec_ser_token(t).len()] == (' ' as u8),
        forall|x: int|
            i <= x < i + spec_ser_token(t).len() ==> #[trigger] s[x] == spec_ser_token(t)[x - i],
        t is Array,
    ensures
        spec_parse_expr(s, i) == Some((t, i + spec_ser_token(t).len() as int)),
{
    match t {
        TokenModel::Array(bytes) => {
            let ser = spec_ser_token(t);
            let items = spec_ser_bytes(bytes, 0);
            assert(s[i] == ('=' as u8) && s[i + 1] == ('{' as u8));
            assert forall|x: int| i + 2 <= x < i + 2 + items.len() implies s[x] == items[x - i
                - 2] by {
                assert(s[x] == ser[x - i]);
                assert(ser[x - i] == items[x - i - 2]);
            }
            assert(s.subrange(i + 2, i + 2 + items.len() as int) =~= items);
            assert(s[i + 2 + items.len()] == ('}' as u8));
            lemma_items_round(s, i + 2, bytes, 0);
            assert(bytes.skip(0) =~= bytes);
        },
        _ => {},
    }
}

/// A position where an expression sequence may stop: the buffer end, a
/// loop's closing bracket, or a single closing backtick.
pub open spec fn spec_closes(s: Seq<u8>, e: int) -> bool {
    ||| e == s.len()
    ||| (e < s.len() && s[e] == (']' as u8))
    ||| (e < s.len() && s[e] == ('`' as u8) && (e + 1 >= s.len() || s[e + 1] != ('`' as u8)))
}

/// No expression parses at a stop position.
proof fn lemma_expr_none_at_close(s: Seq<u8>, e: int)
    requires
        0 <= e <= s.len(),
        spec_closes(s, e),
    ensures
        spec_parse_expr(s, e) is None,
{
    if e < s.len() && s[e] == ('`' as u8) {
        assert(spec_parse_comment(s, e) is None);
    }
}

/// The canonical glyphs of any well-formed token are nonempty and do not
/// open with whitespace.
proof fn lemma_wf_ser_head(t: TokenModel)
    requires
        wf_token(t),
    ensures
        spec_ser_token(t).len() >= 1,
        !spec_is_ws(spec_ser_token(t)[0]),
    decreases t,
{
    match t {
        TokenModel::Address(p) => {
            lemma_dec_shape(p as nat);
        },
        TokenModel::Assign(v) => {
            lemma_dec_shape(v as nat);
        },
        TokenModel::Multiplier(g, n) => {
            lemma_dec_shape(n as nat);
        },
        TokenModel::Condition(cs) => {
            assert(wf_comparator(cs[0]));
            assert(spec_ser_comparators(cs, 0) == spec_ser_comparator(cs[0])
                + spec_ser_comparators(cs, 1));
            match cs[0] {
                TokenModel::Comparator(flags, operand, tb, fb) => {
                    assert(spec_ser_comparator(cs[0])[0] == spec_chain_glyph(flags)[0]);
                },
                _ => {},
            }
        },
        _ => {},
    }
}

/// A backtick-delimited body rendered at `pos`, whose closing backtick is
/// itself a stop position, parses back to exactly its tokens.
proof fn lemma_body_round(s: Seq<u8>, pos: int, b: Seq<TokenModel>)
    requires
        0 <= pos,
        wf_tokens(b),
        pos + 2 + spec_ser_tokens_from(b, 0).len() <= s.len(),
        s[pos] == ('`' as u8),
        s.subrange(pos + 1, pos + 1 + spec_ser_tokens_from(b, 0).len() as int)
            == spec_ser_tokens_from(b, 0),
        s[pos + 1 + spec_ser_tokens_from(b, 0).len()] == ('`' as u8),
        spec_closes(s, pos + 1 + spec_ser_tokens_from(b, 0).len() as int),
    ensures
        spec_parse_body(s, pos) == Some((b, pos + 2 + spec_ser_tokens_from(b, 0).len() as int)),
    decreases b, b.len() + 1, 0int,
{
    lemma_full_exprs_round(s, b, 0, pos + 1);
    assert(b.skip(0) =~= b);
}

/// Evaluation of the comparator grammar under given facts about the
/// buffer: spelled out so that the layout reasoning and the grammar
/// unfolding stay in separate proofs.
proof fn lemma_comparator_eval(
    s: Seq<u8>,
    i: int,
    t: TokenModel,
    doubled: bool,
    indir: bool,
    p4: int,
    p5: int,
    stop: int,
)
    requires
        0 <= i,
        i + 1 < s.len(),
        s[i] == ('?' as u8) || s[i] == ('|' as u8),
        s[i + 1] == ('=' as u8) || s[i + 1] == ('\'' as u8) || s[i + 1] == ('\\' as u8) || s[i
            + 1] == ('/' as u8),
        doubled == (i + 2 < s.len() && s[i + 2] == ('=' as u8)),
        indir == ({
            let k = if doubled {
                i + 3
            } else {
                i + 2
            };
            k < s.len() && s[k] == ('@' as u8)
        }),
        ({
            let k = if doubled {
                i + 3
            } else {
                i + 2
            };
            let k2 = if indir {
                k + 1
            } else {
                k
            };
            match t {
                TokenModel::Comparator(f, operand, tb, fb) => {
                    &&& spec_parse_number(s, k2) == Some((operand as u16, p4))
                    &&& i < p4 <= s.len()
                    &&& ((crate::comparator::spec_decode(
                        if doubled {
                            seq![s[i], s[i + 1], ('=' as u8)]
                        } else {
                            seq![s[i], s[i + 1]]
                        },
                    ) + (if indir {
                        32int
                    } else {
                        0int
                    })) as u8) == f
                    &&& (match tb {
                        Some(b) => p4 < s.len() && s[p4] == ('`' as u8) && spec_parse_body(s, p4)
                            == Some((b, p5)),
                        None => (p4 == s.len() || s[p4] != ('`' as u8)) && p5 == p4,
                    })
                    &&& p4 <= p5 <= s.len()
                    &&& (match fb {
                        Some(b) => p5 < s.len() && s[p5] == (':' as u8) && spec_parse_body(
                            s,
                            p5 + 1,
                        ) == Some((b, stop)),
                        None => (p5 == s.len() || s[p5] != (':' as u8)) && stop == p5,
                    })
                },
                _ => false,
            }
        }),
    ensures
        spec_parse_comparator(s, i) == Some((t, stop)),
{
}

/// Layout of a rendered comparator: the operand digits parse back to the
/// operand.
#[verifier::rlimit(100)]
#[verifier::spinoff_prover]
proof fn lemma_comparator_number(s: Seq<u8>, i: int, t: TokenModel, p3: int, p4: int)
    requires
        0 <= i,
        wf_comparator(t),
        i + spec_ser_comparator(t).len() < s.len(),
        s.subrange(i, i + spec_ser_comparator(t).len() as int) == spec_ser_comparator(t),
        !spec_is_digit(s[i + spec_ser_comparator(t).len()]),
        (match t {
            TokenModel::Comparator(f, operand, _tb, _fb) => p3 == i + 1 + spec_rel_glyphs(
                f,
            ).len() + spec_ind_glyph(f).len() && p4 == p3 + spec_dec(operand as nat).len(),
            _ => false,
        }),
    ensures
        (match t {
            TokenModel::Comparator(f, operand, _tb, _fb) => spec_parse_number(s, p3) == Some(
                (operand as u16, p4),
            ),
            _ => true,
        }),
{
    let ser = spec_ser_comparator(t);
    let stop = i + ser.len() as int;
    assert forall|x: int| i <= x < stop implies s[x] == (#[trigger] ser[x - i]) by {
        assert(s[x] == s.subrange(i, stop)[x - i]);
    }
    match t {
        TokenModel::Comparator(f, operand, tb, fb) => {
            let chain = spec_chain_glyph(f);
            let relg = spec_rel_glyphs(f);
            let ind = spec_ind_glyph(f);
            let d = spec_dec(operand as nat);
            let tbs = spec_ser_true_branch(tb);
            let fbs = spec_ser_false_branch(fb);
            lemma_dec_shape(operand as nat);
            assert(ser == chain + relg + ind + d + tbs + fbs);
            assert forall|x: int| p3 <= x < p4 implies s[x] == d[x - p3] by {
                assert(ser[x - i] == d[x - p3]);
            }
            assert(s.subrange(p3, p4) =~= d);
            assert(p4 == s.len() || !spec_is_digit(s[p4])) by {
                if tbs.len() > 0 {
                    assert(s[p4] == ser[p4 - i]);
                    assert(ser[p4 - i] == tbs[0]);
                    assert(tbs[0] == ('`' as u8));
                } else if fbs.len() > 0 {
                    assert(s[p4] == ser[p4 - i]);
                    assert(ser[p4 - i] == fbs[0]);
                    assert(fbs[0] == (':' as u8));
                } else {
                    assert(p4 == stop);
                }
            }
            lemma_number_round(s, p3, operand as u16);
        },
        _ => {},
    }
}

/// Layout of a rendered comparator: its true branch, when present, parses
/// back to its tokens, and when absent no branch opener follows the
/// operand.
#[verifier::rlimit(100)]
#[verifier::spinoff_prover]
proof fn lemma_comparator_tb(s: Seq<u8>, i: int, t: TokenModel, p4: int, p5: int)
    requires
        0 <= i,
        wf_comparator(t),
        i + spec_ser_comparator(t).len() < s.len(),
        s.subrange(i, i + spec_ser_comparator(t).len() as int) == spec_ser_comparator(t),
        s[i + spec_ser_comparator(t).len()] == ('?' as u8) || s[i + spec_ser_comparator(t).len()]
            == ('|' as u8) || s[i + spec_ser_comparator(t).len()] == (' ' as u8),
        (match t {
            TokenModel::Comparator(f, operand, tb, _fb) => p4 == i + 1 + spec_rel_glyphs(f).len()
                + spec_ind_glyph(f).len() + spec_dec(operand as nat).len() && p5 == p4
                + spec_ser_true_branch(tb).len(),
            _ => false,
        }),
    ensures
        (match t {
            TokenModel::Comparator(_f, _operand, tb, _fb) => match tb {
                Some(b) => p4 < s.len() && s[p4] == ('`' as u8) && spec_parse_body(s, p4) == Some(
                    (b, p5),
                ),
                None => p4 == s.len() || s[p4] != ('`' as u8),
            },
            _ => true,
        }),
    decreases t, 0int, 1int,
{
    let ser = spec_ser_comparator(t);
    let stop = i + ser.len() as int;
    assert forall|x: int| i <= x < stop implies s[x] == (#[trigger] ser[x - i]) by {
        assert(s[x] == s.subrange(i, stop)[x - i]);
    }
    match t {
        TokenModel::Comparator(f, operand, tb, fb) => {
            let chain = spec_chain_glyph(f);
            let relg = spec_rel_glyphs(f);
            let ind = spec_ind_glyph(f);
            let d = spec_dec(operand as nat);
            let tbs = spec_ser_true_branch(tb);
            let fbs = spec_ser_false_branch(fb);
            assert(ser == chain + relg + ind + d + tbs + fbs);
            match tb {
                Some(b) => {
                    assert(wf_tokens(b));
                    let inner = spec_ser_tokens_from(b, 0);
                    assert forall|x: int| p4 + 1 <= x < p5 - 1 implies s[x] == inner[x - p4
                        - 1] by {
                        assert(ser[x - i] == tbs[x - p4]);
                        assert(tbs[x - p4] == (seq![('`' as u8)] + inner + seq![('`' as u8)])[x
                            - p4]);
                    }
                    assert(s.subrange(p4 + 1, p5 - 1) =~= inner);
                    assert(s[p4] == ser[p4 - i] && s[p5 - 1] == ser[p5 - 1 - i]);
                    assert(s[p4] == ('`' as u8) && s[p5 - 1] == ('`' as u8));
                    assert(p5 < s.len() && s[p5] != ('`' as u8)) by {
                        if fbs.len() > 0 {
                            assert(s[p5] == ser[p5 - i]);
                            assert(ser[p5 - i] == fbs[0]);
                        } else {
                            assert(p5 == stop);
                        }
                    }
                    assert(spec_closes(s, p5 - 1));
                    lemma_body_round(s, p4, b);
                },
                None => {
                    if p4 < s.len() {
                        if fbs.len() > 0 {
                            assert(s[p4] == ser[p4 - i]);
                            assert(ser[p4 - i] == fbs[0]);
                            assert(fbs[0] == (':' as u8));
                        } else {
                            assert(p4 == stop);
                        }
                    }
                },
            }
        },
        _ => {},
    }
}

/// Layout of a rendered comparator: its false branch, when present,
/// parses back to its tokens, and when absent no branch marker follows.
#[verifier::rlimit(100)]
#[verifier::spinoff_prover]
proof fn lemma_comparator_fb(s: Seq<u8>, i: int, t: TokenModel, p5: int)
    requires
        0 <= i,
        wf_comparator(t),
        i + spec_ser_comparator(t).len() < s.len(),
        s.subrange(i, i + spec_ser_comparator(t).len() as int) == spec_ser_comparator(t),
        s[i + spec_ser_comparator(t).len()] == ('?' as u8) || s[i + spec_ser_comparator(t).len()]
            == ('|' as u8) || s[i + spec_ser_comparator(t).len()] == (' ' as u8),
        (match t {
            TokenModel::Comparator(f, operand, tb, _fb) => p5 == i + 1 + spec_rel_glyphs(f).len()
                + spec_ind_glyph(f).len() + spec_dec(operand as nat).len()
                + spec_ser_true_branch(tb).len(),
            _ => false,
        }),
    ensures
        (match t {
            TokenModel::Comparator(_f, _operand, _tb, fb) => match fb {
                Some(b) => p5 < s.len() && s[p5] == (':' as u8) && spec_parse_body(s, p5 + 1)
                    == Some((b, i + spec_ser_comparator(t).len() as int)),
                None => p5 == s.len() || s[p5] != (':' as u8),
            },
            _ => true,
        }),
    decreases t, 0int, 1int,
{
    let ser = spec_ser_comparator(t);
    let stop = i + ser.len() as int;
    assert forall|x: int| i <= x < stop implies s[x] == (#[trigger] ser[x - i]) by {
        assert(s[x] == s.subrange(i, stop)[x - i]);
    }
    match t {
        TokenModel::Comparator(f, operand, tb, fb) => {
            let chain = spec_chain_glyph(f);
            let relg = spec_rel_glyphs(f);
            let ind = spec_ind_glyph(f);
            let d = spec_dec(operand as nat);
            let tbs = spec_ser_true_branch(tb);
            let fbs = spec_ser_false_branch(fb);
            assert(ser == chain + relg + ind + d + tbs + fbs);
            match fb {
                Some(b) => {
                    assert(wf_tokens(b));
                    let inner = spec_ser_tokens_from(b, 0);
                    assert forall|x: int| p5 + 2 <= x < stop - 1 implies s[x] == inner[x - p5
                        - 2] by {
                        assert(ser[x - i] == fbs[x - p5]);
                        assert(fbs[x - p5] == (seq![(':' as u8), ('`' as u8)] + inner + seq![
                            ('`' as u8),
                        ])[x - p5]);
                    }
                    assert(s.subrange(p5 + 2, stop - 1) =~= inner);
                    assert(s[p5] == ser[p5 - i] && s[p5 + 1] == ser[p5 + 1 - i] && s[stop - 1]
                        == ser[stop - 1 - i]);
                    assert(s[p5] == (':' as u8) && s[p5 + 1] == ('`' as u8) && s[stop - 1] == (
                    '`' as u8));
                    assert(spec_closes(s, stop - 1));
                    lemma_body_round(s, p5 + 1, b);
                },
                None => {
                    if p5 < s.len() {
                        assert(p5 == stop);
                    }
                },
            }
        },
        _ => {},
    }
}

/// One well-formed comparator rendered at `i`, bounded by a chain glyph
/// or a space, parses back to exactly itself.
#[verifier::rlimit(100)]
#[verifier::spinoff_prover]
proof fn lemma_comparator_round(s: Seq<u8>, i: int, t: TokenModel)
    requires
        0 <= i,
        wf_comparator(t),
        i + spec_ser_comparator(t).len() < s.len(),
        s.subrange(i, i + spec_ser_comparator(t).len() as int) == spec_ser_comparator(t),
        s[i + spec_ser_comparator(t).len()] == ('?' as u8) || s[i + spec_ser_comparator(t).len()]
            == ('|' as u8) || s[i + spec_ser_comparator(t).len()] == (' ' as u8),
    ensures
        spec_parse_comparator(s, i) == Some((t, i + spec_ser_comparator(t).len() as int)),
    decreases t, 0int, 2int,
{
    let ser = spec_ser_comparator(t);
    let stop = i + ser.len() as int;
    match t {
        TokenModel::Comparator(f, operand, tb, fb) => {
            let chain = spec_chain_glyph(f);
            let relg = spec_rel_glyphs(f);
            let ind = spec_ind_glyph(f);
            let d = spec_dec(operand as nat);
            let tbs = spec_ser_true_branch(tb);
            let fbs = spec_ser_false_branch(fb);
            lemma_dec_shape(operand as nat);
            let p2 = i + 1 + relg.len() as int;
            let p3 = p2 + ind.len() as int;
            let p4 = p3 + d.len() as int;
            let p5 = p4 + tbs.len() as int;
            assert(ser == chain + relg + ind + d + tbs + fbs);
            assert(s[i] == chain[0]) by {
                assert(s[i] == s.subrange(i, stop)[0]);
            }
            assert(s[i + 1] == relg[0]) by {
                assert(s[i + 1] == s.subrange(i, stop)[1]);
            }
            assert(relg.len() == 2 ==> s[i + 2] == ('=' as u8)) by {
                if relg.len() == 2 {
                    assert(s[i + 2] == s.subrange(i, stop)[2]);
                    assert(ser[2] == relg[1]);
                }
            }
            // the byte after the relational glyph of an undoubled form is
            // an indirection mark or a digit, never an equals sign
            assert(relg.len() == 1 ==> s[i + 2] != ('=' as u8)) by {
                if relg.len() == 1 {
                    assert(s[i + 2] == s.subrange(i, stop)[2]);
                    if ind.len() == 1 {
                        assert(ser[2] == ('@' as u8));
                    } else {
                        assert(ser[2] == d[0]);
                        assert(spec_is_digit(s[i + 2]));
                    }
                }
            }
            assert((ind.len() == 1 ==> s[p2] == ('@' as u8)) && (ind.len() == 0 ==> s[p2] != (
            '@' as u8))) by {
                assert(s[p2] == s.subrange(i, stop)[p2 - i]);
                if ind.len() == 1 {
                    assert(ser[p2 - i] == ('@' as u8));
                } else {
                    assert(ser[p2 - i] == d[0]);
                    assert(spec_is_digit(s[p2]));
                }
            }
            lemma_comparator_number(s, i, t, p3, p4);
            lemma_comparator_tb(s, i, t, p4, p5);
            lemma_comparator_fb(s, i, t, p5);
            let doubled = relg.len() == 2;
            let indir = ind.len() == 1;
            // flag reconstruction from the rendered glyphs
            assert((crate::comparator::spec_decode(
                if doubled {
                    seq![s[i], s[i + 1], ('=' as u8)]
                } else {
                    seq![s[i], s[i + 1]]
                },
            ) + (if indir {
                32int
            } else {
                0int
            })) as u8 == f) by {
                assert((f & 0xc0 == 0) ==> ((f & 4 == 0 || f & 4 == 4) && (f & 32 == 0 || f & 32
                    == 32) && (f & 0x1b == 1 ==> ((f & 4 | 1) | 0) + (f & 32) == f) && (f & 0x1b
                    == 2 ==> ((f & 4 | 2) | 0) + (f & 32) == f) && (f & 0x1b == 3 ==> ((f & 4 | 2)
                    | 1) + (f & 32) == f) && (f & 0x1b == 8 ==> ((f & 4 | 8) | 0) + (f & 32) == f)
                    && (f & 0x1b == 9 ==> ((f & 4 | 8) | 1) + (f & 32) == f) && (f & 0x1b == 16
                    ==> ((f & 4 | 16) | 0) + (f & 32) == f) && (f & 0x1b == 17 ==> ((f & 4 | 16)
                    | 1) + (f & 32) == f))) by (bit_vector);
            }
            assert(p5 == p4 + spec_ser_true_branch(tb).len());
            lemma_comparator_eval(s, i, t, doubled, indir, p4, p5, stop);
        },
        _ => {},
    }
}

/// A well-formed condition chain rendered at `i` from its `k`th link on,
/// bounded by a space, parses back to exactly those links.
#[verifier::rlimit(100)]
#[verifier::spinoff_prover]
proof fn lemma_condition_round(s: Seq<u8>, cs: Seq<TokenModel>, k: int, i: int)
    requires
        0 <= i,
        0 <= k < cs.len(),
        wf_comparators(cs),
        i + spec_ser_comparators(cs, k).len() < s.len(),
        s.subrange(i, i + spec_ser_comparators(cs, k).len() as int) == spec_ser_comparators(cs, k),
        s[i + spec_ser_comparators(cs, k).len()] == (' ' as u8),
    ensures
        spec_parse_condition(s, i) == Some(
            (cs.skip(k), i + spec_ser_comparators(cs, k).len() as int),
        ),
    decreases cs, cs.len() - k, 3int,
{
    let whole = spec_ser_comparators(cs, k);
    let stop = i + whole.len() as int;
    assert forall|x: int| i <= x < stop implies #[trigger] s[x] == whole[x - i] by {
        assert(s[x] == s.subrange(i, stop)[x - i]);
    }
    let c = cs[k];
    assert(wf_comparator(c));
    let ser = spec_ser_comparator(c);
    let rest = spec_ser_comparators(cs, k + 1);
    assert(whole == ser + rest);
    let j = i + ser.len() as int;
    assert forall|x: int| i <= x < j implies s[x] == ser[x - i] by {
        assert(whole[x - i] == (ser + rest)[x - i]);
    }
    assert(s.subrange(i, j) =~= ser);
    if k + 1 < cs.len() {
        assert(wf_comparator(cs[k + 1]));
        assert(rest == spec_ser_comparator(cs[k + 1]) + spec_ser_comparators(cs, k + 2));
        match cs[k + 1] {
            TokenModel::Comparator(f2, _o2, _t2, _f2b) => {
                assert(s[j] == rest[0]);
                assert(rest[0] == spec_chain_glyph(f2)[0]);
                assert(s[j] == ('?' as u8) || s[j] == ('|' as u8));
            },
            _ => {},
        }
        lemma_comparator_round(s, i, c);
        assert forall|x: int| j <= x < stop implies s[x] == rest[x - j] by {
            assert(whole[x - i] == (ser + rest)[x - i]);
        }
        assert(s.subrange(j, stop) =~= rest);
        lemma_condition_round(s, cs, k + 1, j);
        assert(cs.skip(k) =~= seq![c] + cs.skip(k + 1));
    } else {
        assert(rest =~= Seq::<u8>::empty());
        assert(j == stop);
        lemma_comparator_round(s, i, c);
        assert(spec_parse_comparator(s, j) is None);
        assert(cs.skip(k) =~= seq![c]);
    }
}

/// One case of the round trip: a loop.
proof fn lemma_expr_round_loop(s: Seq<u8>, i: int, t: TokenModel)
    requires
        0 <= i,
        wf_token(t),
        t is Loop,
        i + spec_ser_token(t).len() < s.len(),
        s.subrange(i, i + spec_ser_token(t).len() as int) == spec_ser_token(t),
        s[i + spec_ser_token(t).len()] == (' ' as u8),
        forall|x: int|
            i <= x < i + spec_ser_token(t).len() ==> s[x] == (#[trigger] spec_ser_token(t)[x
                - i]),
    ensures
        spec_parse_expr(s, i) == Some((t, i + spec_ser_token(t).len() as int)),
    decreases t, 0int, 3int,
{
    let ser = spec_ser_token(t);
    let e = i + ser.len() as int;
    assert forall|x: int| i <= x < i + ser.len() implies #[trigger] s[x] == ser[x - i] by {
        assert(s[x] == spec_ser_token(t)[x - i]);
    }
    match t {
        TokenModel::Loop(b) => {
            let inner = spec_ser_tokens_from(b, 0);
            assert(s[i] == ('[' as u8) && s[e - 1] == (']' as u8));
            assert forall|x: int| i + 1 <= x < e - 1 implies s[x] == inner[x - i - 1] by {
                assert(ser[x - i] == inner[x - i - 1]);
            }
            assert(s.subrange(i + 1, e - 1) =~= inner);
            assert(spec_closes(s, e - 1));
            lemma_full_exprs_round(s, b, 0, i + 1);
            assert(b.skip(0) =~= b);
        },
        _ => {},
    }
}

/// One case of the round trip: a condition chain.
proof fn lemma_expr_round_condition(s: Seq<u8>, i: int, t: TokenModel)
    requires
        0 <= i,
        wf_token(t),
        t is Condition,
        i + spec_ser_token(t).len() < s.len(),
        s.subrange(i, i + spec_ser_token(t).len() as int) == spec_ser_token(t),
        s[i + spec_ser_token(t).len()] == (' ' as u8),
        forall|x: int|
            i <= x < i + spec_ser_token(t).len() ==> s[x] == (#[trigger] spec_ser_token(t)[x
                - i]),
    ensures
        spec_parse_expr(s, i) == Some((t, i + spec_ser_token(t).len() as int)),
    decreases t, 0int, 3int,
{
    let ser = spec_ser_token(t);
    let e = i + ser.len() as int;
    assert forall|x: int| i <= x < i + ser.len() implies #[trigger] s[x] == ser[x - i] by {
        assert(s[x] == spec_ser_token(t)[x - i]);
    }
    match t {
        TokenModel::Condition(cs) => {
            assert(wf_comparator(cs[0]));
            match cs[0] {
                TokenModel::Comparator(f0, _o0, _t0, _f0b) => {
                    assert(ser == spec_ser_comparators(cs, 0));
                    assert(spec_ser_comparators(cs, 0) == spec_ser_comparator(cs[0])
                        + spec_ser_comparators(cs, 1));
                    assert(spec_ser_comparator(cs[0])[0] == spec_chain_glyph(f0)[0]);
                    assert(s[i] == ser[0]);
                    assert(s[i] == ('?' as u8) || s[i] == ('|' as u8));
                },
                _ => {},
            }
            assert(s.subrange(i, e) =~= spec_ser_comparators(cs, 0));
            lemma_condition_round(s, cs, 0, i);
            assert(cs.skip(0) =~= cs);
        },
        _ => {},
    }
}

/// Evaluation of the function-tail grammar under given facts about the
/// buffer.
proof fn lemma_function_tail_eval(
    s: Seq<u8>,
    j: int,
    st: Option<u16>,
    en: Option<u16>,
    b: Seq<TokenModel>,
    j2: int,
    j3: int,
    e: int,
)
    requires
        0 <= j <= s.len(),
        (match st {
            Some(v) => j < s.len() && s[j] == ('@' as u8) && spec_parse_number(s, j + 1) == Some(
                (v, j2),
            ),
            None => (j == s.len() || s[j] != ('@' as u8)) && j2 == j,
        }),
        j <= j2 <= s.len(),
        (match en {
            Some(v) => j2 < s.len() && s[j2] == (':' as u8) && spec_parse_number(s, j2 + 1) == Some(
                (v, j3),
            ),
            None => (j2 == s.len() || s[j2] != (':' as u8)) && j3 == j2,
        }),
        j <= j3 < s.len(),
        s[j3] == ('!' as u8),
        spec_parse_body(s, j3 + 1) == Some((b, e)),
    ensures
        spec_parse_function_tail(s, j) == Some((st, en, b, e)),
{
}

/// One case of the round trip: a function declaration.
#[verifier::rlimit(100)]
#[verifier::spinoff_prover]
proof fn lemma_expr_round_function(s: Seq<u8>, i: int, t: TokenModel)
    requires
        0 <= i,
        wf_token(t),
        t is Function,
        i + spec_ser_token(t).len() < s.len(),
        s.subrange(i, i + spec_ser_token(t).len() as int) == spec_ser_token(t),
        s[i + spec_ser_token(t).len()] == (' ' as u8),
        forall|x: int|
            i <= x < i + spec_ser_token(t).len() ==> s[x] == (#[trigger] spec_ser_token(t)[x
                - i]),
    ensures
        spec_parse_expr(s, i) == Some((t, i + spec_ser_token(t).len() as int)),
    decreases t, 0int, 3int,
{
    let ser = spec_ser_token(t);
    let e = i + ser.len() as int;
    assert forall|x: int| i <= x < i + ser.len() implies #[trigger] s[x] == ser[x - i] by {
        assert(s[x] == spec_ser_token(t)[x - i]);
    }
    match t {
        TokenModel::Function(nm, st, en, b) => {
            assert(s[i] == ('^' as u8));
            let sts: Seq<u8> = match st {
                Some(v) => seq![('@' as u8)] + spec_dec(v as nat),
                None => Seq::<u8>::empty(),
            };
            let ens: Seq<u8> = match en {
                Some(v) => seq![(':' as u8)] + spec_dec(v as nat),
                None => Seq::<u8>::empty(),
            };
            let inner = spec_ser_tokens_from(b, 0);
            let j = i + 1 + nm.len() as int;
            let j2 = j + sts.len() as int;
            let j3 = j2 + ens.len() as int;
            assert(ser == seq![('^' as u8)] + nm + sts + ens + seq![('!' as u8), ('`' as u8)]
                + inner + seq![('`' as u8)]);
            assert(s[j3] == ('!' as u8) && s[j3 + 1] == ('`' as u8));
            assert(spec_parse_name(s, i + 1) == Some((nm, j))) by {
                assert forall|x: int| i + 1 <= x < j implies s[x] == nm[x - i - 1] by {
                    assert(ser[x - i] == nm[x - i - 1]);
                }
                assert(s.subrange(i + 1, j) =~= nm);
                assert(j < s.len() && !spec_is_alnum(s[j])) by {
                    if sts.len() > 0 {
                        assert(s[j] == sts[0]);
                    } else if ens.len() > 0 {
                        assert(s[j] == ens[0]);
                    } else {
                        assert(s[j] == ('!' as u8));
                    }
                }
                lemma_name_round(s, i + 1, nm);
            }
            assert(match st {
                Some(v) => j < s.len() && s[j] == ('@' as u8) && spec_parse_number(s, j + 1)
                    == Some((v, j2)),
                None => (j == s.len() || s[j] != ('@' as u8)) && j2 == j,
            }) by {
                match st {
                    Some(v) => {
                        assert(s[j] == sts[0]);
                        lemma_dec_shape(v as nat);
                        assert forall|x: int| j + 1 <= x < j2 implies s[x] == spec_dec(v as nat)[x
                            - j - 1] by {
                            assert(ser[x - i] == sts[x - j]);
                        }
                        assert(s.subrange(j + 1, j2) =~= spec_dec(v as nat));
                        assert(j2 == s.len() || !spec_is_digit(s[j2])) by {
                            if ens.len() > 0 {
                                assert(s[j2] == ens[0]);
                            } else {
                                assert(s[j2] == ('!' as u8));
                            }
                        }
                        lemma_number_round(s, j + 1, v);
                    },
                    None => {
                        if ens.len() > 0 {
                            assert(s[j] == ens[0]);
                        } else {
                            assert(s[j] == ('!' as u8));
                        }
                    },
                }
            }
            assert(match en {
                Some(v) => j2 < s.len() && s[j2] == (':' as u8) && spec_parse_number(s, j2 + 1)
                    == Some((v, j3)),
                None => (j2 == s.len() || s[j2] != (':' as u8)) && j3 == j2,
            }) by {
                match en {
                    Some(v) => {
                        assert(s[j2] == ens[0]);
                        lemma_dec_shape(v as nat);
                        assert forall|x: int| j2 + 1 <= x < j3 implies s[x] == spec_dec(v as nat)[x
                            - j2 - 1] by {
                            assert(ser[x - i] == ens[x - j2]);
                        }
                        assert(s.subrange(j2 + 1, j3) =~= spec_dec(v as nat));
                        assert(!spec_is_digit(s[j3]));
                        lemma_number_round(s, j2 + 1, v);
                    },
                    None => {
                        assert(s[j2] == ('!' as u8));
                    },
                }
            }
            assert(spec_parse_body(s, j3 + 1) == Some((b, e))) by {
                assert forall|x: int| j3 + 2 <= x < e - 1 implies s[x] == inner[x - j3 - 2] by {
                    assert(ser[x - i] == inner[x - j3 - 2]);
                }
                assert(s.subrange(j3 + 2, e - 1) =~= inner);
                assert(s[e - 1] == ('`' as u8) && s[e] == (' ' as u8));
                assert(spec_closes(s, e - 1));
                lemma_body_round(s, j3 + 1, b);
            }
            lemma_function_tail_eval(s, j, st, en, b, j2, j3, e);
        },
        _ => {},
    }
}

/// Any well-formed token rendered at `i` and followed by a space parses
/// back to exactly itself.
proof fn lemma_full_expr_round(s: Seq<u8>, i: int, t: TokenModel)
    requires
        0 <= i,
        wf_token(t),
        i + spec_ser_token(t).len() < s.len(),
        s.subrange(i, i + spec_ser_token(t).len() as int) == spec_ser_token(t),
        s[i + spec_ser_token(t).len()] == (' ' as u8),
    ensures
        spec_parse_expr(s, i) == Some((t, i + spec_ser_token(t).len() as int)),
    decreases t, 0int, 4int,
{
    let ser = spec_ser_token(t);
    let e = i + ser.len() as int;
    assert forall|x: int| i <= x < e implies s[x] == (#[trigger] ser[x - i]) by {
        assert(s[x] == s.subrange(i, e)[x - i]);
    }
    match t {
        TokenModel::Address(_) => lemma_expr_round_address(s, i, t),
        TokenModel::Label(_) => lemma_expr_round_label(s, i, t),
        TokenModel::Comment => lemma_expr_round_comment(s, i, t),
        TokenModel::Execute(_) => lemma_expr_round_execute(s, i, t),
        TokenModel::Multiplier(..) => lemma_expr_round_multiplier(s, i, t),
        TokenModel::Operator(_) => lemma_expr_round_operator(s, i, t),
        TokenModel::Assign(_) => lemma_expr_round_assign(s, i, t),
        TokenModel::Array(_) => lemma_expr_round_array(s, i, t),
        TokenModel::Loop(_) => lemma_expr_round_loop(s, i, t),
        TokenModel::Condition(_) => lemma_expr_round_condition(s, i, t),
        TokenModel::Function(..) => lemma_expr_round_function(s, i, t),
        TokenModel::Comparator(..) => {},
    }
}

/// A canonical well-formed token sequence rendered from its `k`th token
/// on, ending at a stop position, parses back to exactly those tokens.
proof fn lemma_full_exprs_round(s: Seq<u8>, ts: Seq<TokenModel>, k: int, i: int)
    requires
        0 <= i <= s.len(),
        0 <= k <= ts.len(),
        wf_tokens(ts),
        i + spec_ser_tokens_from(ts, k).len() <= s.len(),
        s.subrange(i, i + spec_ser_tokens_from(ts, k).len() as int) == spec_ser_tokens_from(
            ts,
            k,
        ),
        spec_closes(s, i + spec_ser_tokens_from(ts, k).len() as int),
    ensures
        spec_parse_exprs(s, i) == (ts.skip(k), i + spec_ser_tokens_from(ts, k).len() as int),
    decreases ts, ts.len() - k, 5int,
{
    let whole = spec_ser_tokens_from(ts, k);
    let stop = i + whole.len() as int;
    assert forall|x: int| i <= x < stop implies #[trigger] s[x] == whole[x - i] by {
        assert(s[x] == s.subrange(i, stop)[x - i]);
    }
    if k >= ts.len() {
        assert(i == stop);
        lemma_skip_ws_stop(s, i);
        lemma_expr_none_at_close(s, i);
        assert(ts.skip(k) =~= Seq::<TokenModel>::empty());
    } else {
        let t = ts[k];
        assert(wf_token(t));
        let ser = spec_ser_token(t);
        let lt = ser.len() as int;
        let rest = spec_ser_tokens_from(ts, k + 1);
        lemma_wf_ser_head(t);
        assert(whole == ser + seq![(' ' as u8)] + rest);
        assert forall|x: int| i <= x < i + lt implies s[x] == ser[x - i] by {
            assert(whole[x - i] == (ser + seq![(' ' as u8)] + rest)[x - i]);
        }
        assert(s.subrange(i, i + lt) =~= ser);
        assert(s[i + lt] == (' ' as u8));
        lemma_skip_ws_stop(s, i);
        lemma_full_expr_round(s, i, t);
        assert forall|x: int| i + lt + 1 <= x < stop implies s[x] == rest[x - i - lt - 1] by {
            assert(whole[x - i] == (ser + seq![(' ' as u8)] + rest)[x - i]);
        }
        assert(s.subrange(i + lt + 1, stop) =~= rest);
        lemma_full_exprs_round(s, ts, k + 1, i + lt + 1);
        lemma_scan_bounds(s, i + lt + 1);
        assert(spec_skip_ws(s, i + lt) == spec_skip_ws(s, i + lt + 1));
        assert(spec_parse_exprs(s, i + lt) == spec_parse_exprs(s, i + lt + 1)) by {
            let j = spec_skip_ws(s, i + lt + 1);
            assert(spec_skip_ws(s, i + lt) == j);
            lemma_scan_bounds(s, i + lt + 1);
        }
        assert(ts.skip(k) =~= seq![t] + ts.skip(k + 1));
    }
}

/// Parsing is total over the serializer's output: rendering any
/// well-formed token sequence in canonical glyph form and re-parsing it
/// yields an identical token sequence, with the whole buffer consumed.
pub proof fn lemma_round_trip(ts: Seq<TokenModel>)
    requires
        wf_tokens(ts),
    ensures
        spec_parse(spec_serialize(ts)) == Ok::<Seq<TokenModel>, int>(ts),
{
    let s = spec_serialize(ts);
    assert(s.subrange(0, s.len() as int) =~= s);
    lemma_full_exprs_round(s, ts, 0, 0);
    assert(ts.skip(0) =~= ts);
}

} // verus!
