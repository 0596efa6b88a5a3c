//! Execution engine: owns the memory tape, position pointer, symbol table
//! and an explicit continuation stack; pops one token at a time and
//! dispatches on its kind until the stack drains.
//!
//! The engine does no stream input or output itself: input lines are handed
//! to it as values in advance (`inputs`), and everything the program prints
//! is collected in `output`. A host that talks to real streams feeds the
//! one and drains the other.

use vstd::prelude::*;

use crate::comparator::Comparator;
use crate::comparator::FLAG_IND;
use crate::comparator::FLAG_OR;
use crate::comparator::spec_evaluate;
use crate::parser::Token;
use crate::parser::TokenModel;
use crate::parser::clone_bytes;
use crate::parser::clone_tokens;
use crate::parser::models;

verus! {

broadcast use vstd::seq::group_seq_axioms, vstd::std_specs::vec::group_vec_axioms;

/// A failure during execution. Parse failures never reach the engine.
#[derive(Debug, PartialEq)]
pub enum RunError {
    /// An `Execute` named a symbol that is not declared, or one that has
    /// neither a stored body nor a stored address.
    UnknownSymbol(Vec<u8>),
    /// The position pointer would leave the valid range, or a read touched
    /// a cell beyond the current tape length.
    OutOfBounds(u16),
}

/// The mathematical shape of a `RunError`.
#[verifier::ext_equal]
pub enum RunErrorModel {
    UnknownSymbol(Seq<u8>),
    OutOfBounds(u16),
}

impl RunError {
    /// The mathematical shape of this error.
    pub open spec fn model(self) -> RunErrorModel {
        match self {
            RunError::UnknownSymbol(n) => RunErrorModel::UnknownSymbol(n@),
            RunError::OutOfBounds(p) => RunErrorModel::OutOfBounds(p),
        }
    }
}

/// One symbol table entry: a name bound to an optional stored body and an
/// optional address window. Created by `Label` (no body, start = position
/// at declaration) or by `Function` (stored body and declared window).
#[derive(Debug, PartialEq)]
pub struct BacktickExpression {
    pub identifier: Option<Vec<u8>>,
    pub operations: Option<Vec<Token>>,
    pub start: Option<u16>,
    pub end: Option<u16>,
}

/// The mathematical shape of a symbol table entry.
#[verifier::ext_equal]
pub struct ExpressionModel {
    pub identifier: Option<Seq<u8>>,
    pub operations: Option<Seq<TokenModel>>,
    pub start: Option<u16>,
    pub end: Option<u16>,
}

impl BacktickExpression {
    /// The mathematical shape of this entry.
    pub open spec fn model(self) -> ExpressionModel {
        ExpressionModel {
            identifier: match self.identifier {
                Some(n) => Some(n@),
                None => None,
            },
            operations: match self.operations {
                Some(b) => Some(models(b@)),
                None => None,
            },
            start: self.start,
            end: self.end,
        }
    }
}

/// Shapes of all entries of a symbol table, in declaration order.
pub open spec fn exprs_models(es: Seq<BacktickExpression>) -> Seq<ExpressionModel> {
    Seq::new(
        es.len(),
        |i: int|
            if 0 <= i < es.len() {
                es[i].model()
            } else {
                ExpressionModel { identifier: None, operations: None, start: None, end: None }
            },
    )
}

/// Views of all queued input lines.
pub open spec fn inputs_model(ls: Seq<Vec<u8>>) -> Seq<Seq<u8>> {
    Seq::new(
        ls.len(),
        |i: int|
            if 0 <= i < ls.len() {
                ls[i]@
            } else {
                Seq::empty()
            },
    )
}

/// The engine state as the contracts speak of it.
#[verifier::ext_equal]
pub struct StateModel {
    pub position: u16,
    pub expressions: Seq<ExpressionModel>,
    pub memory: Seq<u8>,
    pub stack: Seq<TokenModel>,
    pub inputs: Seq<Seq<u8>>,
    pub input_at: int,
    pub output: Seq<u8>,
}

/// Outcome of dispatching one token: the state afterwards, and the error
/// if the dispatch failed. On a failure the state is the state from before
/// the dispatch (with the token already popped): a failing dispatch makes
/// no change of its own.
#[verifier::ext_equal]
pub struct StepModel {
    pub state: StateModel,
    pub error: Option<RunErrorModel>,
}

/// A successful step.
pub open spec fn step_ok(s: StateModel) -> StepModel {
    StepModel { state: s, error: None }
}

/// A failed step: the state stands as it was.
pub open spec fn step_err(s: StateModel, e: RunErrorModel) -> StepModel {
    StepModel { state: s, error: Some(e) }
}

/// The engine: tape, position, symbol table, continuation stack, queued
/// input lines and collected output bytes.
#[derive(Debug)]
pub struct State {
    pub position: u16,
    pub expressions: Vec<BacktickExpression>,
    pub memory: Vec<u8>,
    pub stack: Vec<Token>,
    pub inputs: Vec<Vec<u8>>,
    pub input_at: usize,
    pub output: Vec<u8>,
}

impl State {
    /// The mathematical shape of the whole engine state.
    pub open spec fn model(self) -> StateModel {
        StateModel {
            position: self.position,
            expressions: exprs_models(self.expressions@),
            memory: self.memory@,
            stack: models(self.stack@),
            inputs: inputs_model(self.inputs@),
            input_at: self.input_at as int,
            output: self.output@,
        }
    }
}

/// The most recent entry declared under `name`, if any: redeclaring a name
/// shadows the prior entry (last write wins).
pub open spec fn spec_lookup(es: Seq<ExpressionModel>, name: Seq<u8>) -> Option<ExpressionModel>
    decreases es.len(),
{
    if es.len() == 0 {
        None
    } else {
        match es.last().identifier {
            Some(id) => if id == name {
                Some(es.last())
            } else {
                spec_lookup(es.drop_last(), name)
            },
            None => spec_lookup(es.drop_last(), name),
        }
    }
}

/// The tape after one cell is written: cells between the old length and the
/// written position are backed with zeros, and the tape never shrinks.
pub open spec fn spec_write_cell(mem: Seq<u8>, pos: int, v: u8) -> Seq<u8> {
    let len = if mem.len() <= pos {
        pos + 1
    } else {
        mem.len() as int
    };
    Seq::new(
        len as nat,
        |i: int|
            if i == pos {
                v
            } else if 0 <= i < mem.len() {
                mem[i]
            } else {
                0u8
            },
    )
}

/// The tape after a byte sequence is written starting at `pos`: existing
/// cells in range are overwritten, cells between the old length and `pos`
/// are backed with zeros, and the tape grows to cover the whole write. An
/// empty sequence changes nothing.
pub open spec fn spec_write_array(mem: Seq<u8>, pos: int, bytes: Seq<u8>) -> Seq<u8> {
    if bytes.len() == 0 {
        mem
    } else {
        let len = if mem.len() < pos + bytes.len() {
            pos + bytes.len()
        } else {
            mem.len() as int
        };
        Seq::new(
            len as nat,
            |i: int|
                if pos <= i < pos + bytes.len() {
                    bytes[i - pos]
                } else if 0 <= i < mem.len() {
                    mem[i]
                } else {
                    0u8
                },
        )
    }
}

/// A cell value after `n` increments, wrapping at 8 bits.
pub open spec fn spec_wrap_add(c: u8, n: u16) -> u8 {
    (((c + n) % 256) as u8)
}

/// A cell value after `n` decrements, wrapping at 8 bits.
pub open spec fn spec_wrap_sub(c: u8, n: u16) -> u8 {
    (((c + 256 - (n % 256)) % 256) as u8)
}

/// The current cell value, with unbacked cells reading as zero; only used
/// on the write paths (`+` and `-`), which back the cell before writing.
pub open spec fn spec_cell_or_zero(mem: Seq<u8>, pos: int) -> u8 {
    if 0 <= pos < mem.len() {
        mem[pos]
    } else {
        0u8
    }
}

/// Dispatch of one basic instruction glyph under a count.
pub open spec fn spec_operator(pre: StateModel, g: u8, n: u16) -> StepModel {
    if g == ('>' as u8) {
        if pre.position + n > 65535 {
            step_err(pre, RunErrorModel::OutOfBounds(pre.position))
        } else {
            step_ok(StateModel { position: (pre.position + n) as u16, ..pre })
        }
    } else if g == ('<' as u8) {
        if n > pre.position {
            step_err(pre, RunErrorModel::OutOfBounds(pre.position))
        } else {
            step_ok(StateModel { position: (pre.position - n) as u16, ..pre })
        }
    } else if g == ('+' as u8) {
        let v = spec_wrap_add(spec_cell_or_zero(pre.memory, pre.position as int), n);
        step_ok(StateModel { memory: spec_write_cell(pre.memory, pre.position as int, v), ..pre })
    } else if g == ('-' as u8) {
        let v = spec_wrap_sub(spec_cell_or_zero(pre.memory, pre.position as int), n);
        step_ok(StateModel { memory: spec_write_cell(pre.memory, pre.position as int, v), ..pre })
    } else if g == (',' as u8) {
        if pre.input_at < pre.inputs.len() {
            step_ok(
                StateModel {
                    memory: pre.memory + pre.inputs[pre.input_at],
                    input_at: pre.input_at + 1,
                    ..pre
                },
            )
        } else {
            step_ok(pre)
        }
    } else if g == ('.' as u8) {
        let pos = pre.position as int;
        if pos >= pre.memory.len() {
            step_ok(pre)
        } else {
            let take = if n <= pre.memory.len() - pos {
                n as int
            } else {
                pre.memory.len() - pos
            };
            step_ok(
                StateModel { output: pre.output + pre.memory.subrange(pos, pos + take), ..pre },
            )
        }
    } else if g == ('~' as u8) {
        step_ok(StateModel { stack: Seq::empty(), ..pre })
    } else {
        step_ok(pre)
    }
}


/// Evaluation of a condition chain from link `i` on, with `valid` the
/// running result and `pushed` the branch tokens selected so far (in the
/// order the stack will hold them). An OR link is always evaluated and
/// restarts the running result; an AND link is evaluated only while the
/// running result is true, and is skipped otherwise. A link whose
/// comparison holds pushes its true branch, if it has one, and ends the
/// chain; a link whose comparison fails pushes its false branch, if it has
/// one, and evaluation continues. A failure while reading a cell leaves
/// the state untouched: no selected branch is pushed.
pub open spec fn spec_condition(
    pre: StateModel,
    chain: Seq<TokenModel>,
    i: int,
    valid: bool,
    pushed: Seq<TokenModel>,
) -> StepModel
    decreases chain.len() - i,
{
    if i < 0 || i >= chain.len() {
        step_ok(StateModel { stack: pre.stack + pushed, ..pre })
    } else {
        match chain[i] {
            TokenModel::Comparator(flags, operand, tb, fb) => {
                if (flags & FLAG_OR != 0) || valid {
                    if pre.position >= pre.memory.len() {
                        step_err(pre, RunErrorModel::OutOfBounds(pre.position))
                    } else if (flags & FLAG_IND != 0) && operand >= pre.memory.len() {
                        step_err(pre, RunErrorModel::OutOfBounds(operand as u16))
                    } else {
                        let cur = pre.memory[pre.position as int];
                        let opv = if flags & FLAG_IND != 0 {
                            pre.memory[operand as int]
                        } else {
                            operand
                        };
                        if spec_evaluate(flags, cur, opv) {
                            match tb {
                                Some(b) => step_ok(
                                    StateModel { stack: pre.stack + pushed + b.reverse(), ..pre },
                                ),
                                None => spec_condition(pre, chain, i + 1, true, pushed),
                            }
                        } else {
                            match fb {
                                Some(b) => spec_condition(
                                    pre,
                                    chain,
                                    i + 1,
                                    false,
                                    pushed + b.reverse(),
                                ),
                                None => spec_condition(pre, chain, i + 1, false, pushed),
                            }
                        }
                    }
                } else {
                    spec_condition(pre, chain, i + 1, valid, pushed)
                }
            },
            _ => spec_condition(pre, chain, i + 1, valid, pushed),
        }
    }
}

/// Dispatch of one token against a state. The token has already been
/// popped; `pre.stack` is the rest of the stack.
pub open spec fn spec_step(pre: StateModel, t: TokenModel) -> StepModel {
    match t {
        TokenModel::Address(p) => step_ok(StateModel { position: p, ..pre }),
        TokenModel::Label(name) => step_ok(
            StateModel {
                expressions: pre.expressions.push(
                    ExpressionModel {
                        identifier: Some(name),
                        operations: None,
                        start: Some(pre.position),
                        end: None,
                    },
                ),
                ..pre
            },
        ),
        TokenModel::Comment => step_ok(pre),
        TokenModel::Comparator(..) => step_ok(pre),
        TokenModel::Condition(chain) => spec_condition(pre, chain, 0, true, Seq::empty()),
        TokenModel::Execute(name) => match spec_lookup(pre.expressions, name) {
            None => step_err(pre, RunErrorModel::UnknownSymbol(name)),
            Some(entry) => match entry.operations {
                Some(body) => step_ok(StateModel { stack: pre.stack + body.reverse(), ..pre }),
                None => match entry.start {
                    Some(p) => step_ok(StateModel { position: p, ..pre }),
                    None => step_err(pre, RunErrorModel::UnknownSymbol(name)),
                },
            },
        },
        TokenModel::Function(name, start, end, body) => step_ok(
            StateModel {
                expressions: pre.expressions.push(
                    ExpressionModel {
                        identifier: Some(name),
                        operations: Some(body),
                        start: start,
                        end: end,
                    },
                ),
                ..pre
            },
        ),
        TokenModel::Loop(body) => step_ok(
            StateModel { stack: pre.stack + body.reverse(), ..pre },
        ),
        TokenModel::Multiplier(g, n) => spec_operator(pre, g, n),
        TokenModel::Operator(g) => spec_operator(pre, g, 1),
        TokenModel::Assign(v) => step_ok(
            StateModel {
                memory: spec_write_cell(pre.memory, pre.position as int, (v % 256) as u8),
                ..pre
            },
        ),
        TokenModel::Array(bytes) => if pre.position + bytes.len() > usize::MAX {
            // a write this large cannot be backed by any machine tape
            step_err(pre, RunErrorModel::OutOfBounds(pre.position))
        } else {
            step_ok(
                StateModel {
                    memory: spec_write_array(pre.memory, pre.position as int, bytes),
                    ..pre
                },
            )
        },
    }
}

/// Up to `fuel` pop-and-dispatch steps: the run stops when the stack is
/// empty, when a step fails, or when the fuel is spent.
pub open spec fn spec_run(pre: StateModel, fuel: nat) -> StepModel
    decreases fuel,
{
    if pre.stack.len() == 0 || fuel == 0 {
        step_ok(pre)
    } else {
        let t = pre.stack.last();
        let popped = StateModel { stack: pre.stack.drop_last(), ..pre };
        let s = spec_step(popped, t);
        if s.error is Some {
            s
        } else {
            spec_run(s.state, (fuel - 1) as nat)
        }
    }
}


/// Truth of one comparator token against a cell value, comparing the
/// stored operand literally.
pub open spec fn spec_valid_logic(current: u8, t: TokenModel) -> bool {
    match t {
        TokenModel::Comparator(flags, operand, _tb, _fb) => spec_evaluate(flags, current, operand),
        _ => false,
    }
}

/// Pushes the tokens of `body` onto `dst` back to front, so that the first
/// token of `body` ends on top of the stack.
pub fn push_reversed(dst: &mut Vec<Token>, body: &Vec<Token>) -> (nothing: ())
    ensures
        models(final(dst)@) == models(old(dst)@) + models(body@).reverse(),
{
    let mut k: usize = body.len();
    while k > 0
        invariant
            k <= body@.len(),
            dst@.len() == old(dst)@.len() + (body@.len() - k),
            forall|j: int| 0 <= j < old(dst)@.len() ==> (#[trigger] dst@[j]).model()
                == old(dst)@[j].model(),
            forall|j: int|
                old(dst)@.len() <= j < dst@.len() ==> (#[trigger] dst@[j]).model()
                    == body@[body@.len() + old(dst)@.len() - 1 - j].model(),
        decreases k,
    {
        k = k - 1;
        let t = (&body[k]).clone();
        dst.push(t);
    }
    proof {
        assert forall|j: int| 0 <= j < models(dst@).len() implies models(dst@)[j] == (models(
            old(dst)@,
        ) + models(body@).reverse())[j] by {
            if j < old(dst)@.len() {
                assert(dst@[j].model() == old(dst)@[j].model());
            } else {
                assert(dst@[j].model() == body@[body@.len() + old(dst)@.len() - 1 - j].model());
            }
        }
        assert(models(dst@) =~= models(old(dst)@) + models(body@).reverse());
    }
}

impl State {
    /// A fresh engine: empty tape, empty symbol table, empty stack, no
    /// queued input, nothing printed, position zero.
    pub fn new() -> (s: State)
        ensures
            s.model() == (StateModel {
                position: 0,
                expressions: Seq::empty(),
                memory: Seq::empty(),
                stack: Seq::empty(),
                inputs: Seq::empty(),
                input_at: 0,
                output: Seq::empty(),
            }),
    {
        let s = State {
            position: 0,
            expressions: Vec::new(),
            memory: Vec::new(),
            stack: Vec::new(),
            inputs: Vec::new(),
            input_at: 0,
            output: Vec::new(),
        };
        proof {
            assert(s.model() =~= StateModel {
                position: 0,
                expressions: Seq::empty(),
                memory: Seq::empty(),
                stack: Seq::empty(),
                inputs: Seq::empty(),
                input_at: 0,
                output: Seq::empty(),
            });
        }
        s
    }

    /// The value of the cell under the position pointer, which must be
    /// backed.
    pub fn current(&self) -> (r: u8)
        requires
            (self.position as int) < self.memory@.len(),
        ensures
            r == self.memory@[self.position as int],
    {
        self.memory[self.position as usize]
    }

    /// Backs every cell up to `end` exclusive with zeros, growing the tape
    /// as needed; an already longer tape stands unchanged.
    fn grow_memory(&mut self, end: usize)
        ensures
            final(self).memory@.len() == if old(self).memory@.len() >= end {
                old(self).memory@.len() as int
            } else {
                end as int
            },
            forall|j: int|
                0 <= j < old(self).memory@.len() ==> final(self).memory@[j] == old(self).memory@[j],
            forall|j: int|
                old(self).memory@.len() <= j < final(self).memory@.len() ==> final(self).memory@[j] == 0,
            final(self).position == old(self).position,
            final(self).expressions == old(self).expressions,
            final(self).stack == old(self).stack,
            final(self).inputs == old(self).inputs,
            final(self).input_at == old(self).input_at,
            final(self).output == old(self).output,
    {
        while self.memory.len() < end
            invariant
                old(self).memory@.len() <= self.memory@.len(),
                self.memory@.len() <= end || self.memory@.len() == old(self).memory@.len(),
                forall|j: int|
                    0 <= j < old(self).memory@.len() ==> self.memory@[j] == old(self).memory@[j],
                forall|j: int|
                    old(self).memory@.len() <= j < self.memory@.len() ==> self.memory@[j] == 0,
                self.position == old(self).position,
                self.expressions == old(self).expressions,
                self.stack == old(self).stack,
                self.inputs == old(self).inputs,
                self.input_at == old(self).input_at,
                self.output == old(self).output,
            decreases end - self.memory@.len(),
        {
            self.memory.push(0u8);
        }
    }

    /// Writes `value`, truncated to one byte, at the current position,
    /// backing any cells between the old tape length and the position with
    /// zeros.
    pub fn set(&mut self, value: u16) -> (nothing: ())
        ensures
            final(self).model() == (StateModel {
                memory: spec_write_cell(
                    old(self).model().memory,
                    old(self).position as int,
                    (value % 256) as u8,
                ),
                ..old(self).model()
            }),
    {
        let pos = self.position as usize;
        self.grow_memory(pos + 1);
        self.memory[pos] = (value % 256) as u8;
        proof {
            assert(self.memory@ =~= spec_write_cell(
                old(self).model().memory,
                old(self).position as int,
                (value % 256) as u8,
            ));
            assert(self.model() =~= StateModel {
                memory: spec_write_cell(
                    old(self).model().memory,
                    old(self).position as int,
                    (value % 256) as u8,
                ),
                ..old(self).model()
            });
        }
    }

    /// Writes the bytes of `contents` starting at the current position:
    /// cells in range are overwritten, cells between the old tape length
    /// and the position are backed with zeros.
    fn write_array(&mut self, contents: &Vec<u8>) -> (nothing: ())
        requires
            (old(self).position as int) + contents@.len() <= usize::MAX,
        ensures
            final(self).model() == (StateModel {
                memory: spec_write_array(
                    old(self).model().memory,
                    old(self).position as int,
                    contents@,
                ),
                ..old(self).model()
            }),
    {
        let pos = self.position as usize;
        if contents.len() > 0 {
            self.grow_memory(pos + contents.len());
            let mut j: usize = 0;
            while j < contents.len()
                invariant
                    j <= contents@.len(),
                    pos + contents@.len() <= usize::MAX,
                    pos == self.position as int,
                    self.memory@.len() >= pos + contents@.len(),
                    self.memory@.len() == if old(self).memory@.len() >= pos + contents@.len() {
                        old(self).memory@.len() as int
                    } else {
                        pos + contents@.len()
                    },
                    forall|i: int|
                        0 <= i < self.memory@.len() && !(pos <= i < pos + contents@.len())
                            ==> self.memory@[i] == (if i < old(self).memory@.len() {
                            old(self).memory@[i]
                        } else {
                            0u8
                        }),
                    forall|i: int|
                        pos <= i < pos + j ==> self.memory@[i] == contents@[i - pos],
                    forall|i: int|
                        pos + j <= i < pos + contents@.len() ==> self.memory@[i] == (if i < old(self).memory@.len() {
                            old(self).memory@[i]
                        } else {
                            0u8
                        }),
                    self.position == old(self).position,
                    self.expressions == old(self).expressions,
                    self.stack == old(self).stack,
                    self.inputs == old(self).inputs,
                    self.input_at == old(self).input_at,
                    self.output == old(self).output,
                decreases contents@.len() - j,
            {
                self.memory[pos + j] = contents[j];
                j = j + 1;
            }
        }
        proof {
            assert(self.memory@ =~= spec_write_array(
                old(self).model().memory,
                old(self).position as int,
                contents@,
            ));
            assert(self.model() =~= StateModel {
                memory: spec_write_array(
                    old(self).model().memory,
                    old(self).position as int,
                    contents@,
                ),
                ..old(self).model()
            });
        }
    }

    /// Pushes a token sequence onto the continuation stack in reverse, so
    /// that its first token executes next.
    pub fn populate_stack(&mut self, expr: &Vec<Token>) -> (nothing: ())
        ensures
            final(self).model() == (StateModel {
                stack: old(self).model().stack + models(expr@).reverse(),
                ..old(self).model()
            }),
    {
        push_reversed(&mut self.stack, expr);
        proof {
            assert(self.model() =~= StateModel {
                stack: old(self).model().stack + models(expr@).reverse(),
                ..old(self).model()
            });
        }
    }

    /// Truth of one comparator token against a cell value, comparing the
    /// stored operand literally (an indirect operand is resolved by the
    /// dispatch loop before this test).
    pub fn valid_logic(current: u8, c: &Token) -> (r: bool)
        ensures
            r == spec_valid_logic(current, c.model()),
    {
        let cmp = Comparator::new(c);
        match c {
            Token::Comparator(_flags, value, _t, _f) => Comparator::evaluate(cmp, current, *value),
            _ => false,
        }
    }

    /// The index of the most recent entry declared under `name`, if any.
    fn find_symbol(&self, name: &Vec<u8>) -> (r: Option<usize>)
        ensures
            match r {
                Some(i) => i < self.expressions@.len() && spec_lookup(
                    self.model().expressions,
                    name@,
                ) == Some(self.expressions@[i as int].model()),
                None => spec_lookup(self.model().expressions, name@) is None,
            },
    {
        let mut k: usize = self.expressions.len();
        proof {
            assert(exprs_models(self.expressions@).subrange(0, k as int) =~= exprs_models(
                self.expressions@,
            ));
        }
        while k > 0
            invariant
                k <= self.expressions@.len(),
                spec_lookup(self.model().expressions, name@) == spec_lookup(
                    exprs_models(self.expressions@).subrange(0, k as int),
                    name@,
                ),
            decreases k,
        {
            let ghost pre_k = k;
            k = k - 1;
            let matches_name = match &self.expressions[k].identifier {
                Some(id) => bytes_eq(id, name),
                None => false,
            };
            proof {
                let es = exprs_models(self.expressions@);
                assert(es.subrange(0, pre_k as int).last() == self.expressions@[k as int].model());
                assert(es.subrange(0, pre_k as int).drop_last() =~= es.subrange(0, k as int));
            }
            if matches_name {
                return Some(k);
            }
        }
        proof {
            assert(exprs_models(self.expressions@).subrange(0, 0) =~= Seq::<
                ExpressionModel,
            >::empty());
        }
        None
    }

    /// Dispatches one basic instruction glyph, applied `multiplier` times
    /// atomically: `>`/`<` move the pointer (leaving the valid range
    /// fails), `+`/`-` change the current cell with 8-bit wraparound
    /// (backing it with zeros first if it is beyond the tape), `,` appends
    /// the next queued input line to the tape (or nothing, when none is
    /// queued), `.` appends up to `multiplier` cells to the output,
    /// clipped at the tape end, and `~` clears the continuation stack.
    pub fn process_operator(&mut self, op: u8, multiplier: u16) -> (r: Result<(), RunError>)
        ensures
            ({
                let sm = spec_operator(old(self).model(), op, multiplier);
                &&& final(self).model() == sm.state
                &&& (match r {
                    Ok(_) => sm.error is None,
                    Err(e) => sm.error == Some(e.model()),
                })
            }),
    {
        let ghost pre = old(self).model();
        let ghost sm = spec_operator(old(self).model(), op, multiplier);
        if op == ('>' as u8) {
            let np: u32 = self.position as u32 + multiplier as u32;
            if np > 65535 {
                return Err(RunError::OutOfBounds(self.position));
            }
            self.position = np as u16;
            proof {
                assert(self.model() =~= sm.state);
            }
            Ok(())
        } else if op == ('<' as u8) {
            if multiplier > self.position {
                return Err(RunError::OutOfBounds(self.position));
            }
            self.position = self.position - multiplier;
            proof {
                assert(self.model() =~= sm.state);
            }
            Ok(())
        } else if op == ('+' as u8) {
            let pos = self.position as usize;
            self.grow_memory(pos + 1);
            let cur = self.memory[pos];
            self.memory[pos] = ((cur as u32 + multiplier as u32) % 256) as u8;
            proof {
                assert(cur == spec_cell_or_zero(pre.memory, pre.position as int));
                assert(self.memory@ =~= spec_write_cell(
                    pre.memory,
                    pre.position as int,
                    spec_wrap_add(cur, multiplier),
                ));
                assert(self.model() =~= sm.state);
            }
            Ok(())
        } else if op == ('-' as u8) {
            let pos = self.position as usize;
            self.grow_memory(pos + 1);
            let cur = self.memory[pos];
            self.memory[pos] = ((cur as u32 + 256 - (multiplier % 256) as u32) % 256) as u8;
            proof {
                assert(cur == spec_cell_or_zero(pre.memory, pre.position as int));
                assert(self.memory@ =~= spec_write_cell(
                    pre.memory,
                    pre.position as int,
                    spec_wrap_sub(cur, multiplier),
                ));
                assert(self.model() =~= sm.state);
            }
            Ok(())
        } else if op == (',' as u8) {
            if self.input_at < self.inputs.len() {
                let mut line = clone_bytes(&self.inputs[self.input_at]);
                self.input_at = self.input_at + 1;
                self.memory.append(&mut line);
                proof {
                    assert(pre.inputs[pre.input_at] == old(self).inputs@[pre.input_at]@);
                    assert(self.model() =~= sm.state);
                }
            }
            proof {
                assert(self.model() =~= sm.state);
            }
            Ok(())
        } else if op == ('.' as u8) {
            let pos = self.position as usize;
            let mut m: usize = 0;
            while m < multiplier as usize && pos + m < self.memory.len()
                invariant
                    pos == old(self).position as int,
                    m <= multiplier as int,
                    pos + m <= self.memory@.len() || m == 0,
                    self.position == old(self).position,
                    self.expressions == old(self).expressions,
                    self.memory == old(self).memory,
                    self.stack == old(self).stack,
                    self.inputs == old(self).inputs,
                    self.input_at == old(self).input_at,
                    self.output@.len() == old(self).output@.len() + m,
                    forall|j: int|
                        0 <= j < old(self).output@.len() ==> (#[trigger] self.output@[j]) == old(
                            self,
                        ).output@[j],
                    forall|j: int|
                        old(self).output@.len() <= j < self.output@.len() ==> (
                        #[trigger] self.output@[j]) == self.memory@[pos + (j - old(
                            self,
                        ).output@.len())],
                decreases multiplier as int - m,
            {
                let b = self.memory[pos + m];
                self.output.push(b);
                m = m + 1;
            }
            proof {
                if pre.position as int >= pre.memory.len() {
                    assert(m == 0);
                    assert(self.model() =~= sm.state);
                } else {
                    assert(self.output@ =~= pre.output + pre.memory.subrange(
                        pre.position as int,
                        pre.position as int + (if multiplier as int <= pre.memory.len()
                            - pre.position as int {
                            multiplier as int
                        } else {
                            pre.memory.len() - pre.position as int
                        }),
                    ));
                    assert(self.model() =~= sm.state);
                }
            }
            Ok(())
        } else if op == ('~' as u8) {
            self.stack.clear();
            proof {
                assert(models(self.stack@) =~= Seq::<TokenModel>::empty());
                assert(self.model() =~= sm.state);
            }
            Ok(())
        } else {
            proof {
                assert(self.model() =~= sm.state);
            }
            Ok(())
        }
    }

    /// Pops one token and dispatches on its kind. With an empty stack this
    /// is a no-op. A failing dispatch consumes the token and changes
    /// nothing else.
    pub fn next(&mut self) -> (r: Result<(), RunError>)
        ensures
            ({
                let pre = old(self).model();
                if pre.stack.len() == 0 {
                    final(self).model() == pre && r is Ok
                } else {
                    let sm = spec_step(
                        StateModel { stack: pre.stack.drop_last(), ..pre },
                        pre.stack.last(),
                    );
                    &&& final(self).model() == sm.state
                    &&& (match r {
                        Ok(_) => sm.error is None,
                        Err(e) => sm.error == Some(e.model()),
                    })
                }
            }),
    {
        let top = self.stack.pop();
        proof {
            if old(self).stack@.len() > 0 {
                assert(models(self.stack@) =~= models(old(self).stack@).drop_last());
                assert(models(old(self).stack@).last() == old(self).stack@.last().model());
            } else {
                assert(models(self.stack@) =~= models(old(self).stack@));
            }
        }
        let t = match top {
            None => {
                proof {
                    assert(self.model() =~= old(self).model());
                }
                return Ok(());
            },
            Some(t) => t,
        };
        let ghost popped = self.model();
        let ghost sm = spec_step(popped, t.model());
        match t {
            Token::Address(p) => {
                self.position = p;
                proof {
                    assert(self.model() =~= sm.state);
                }
                Ok(())
            },
            Token::Label(name) => {
                let entry = BacktickExpression {
                    identifier: Some(name),
                    operations: None,
                    start: Some(self.position),
                    end: None,
                };
                self.expressions.push(entry);
                proof {
                    assert(exprs_models(self.expressions@) =~= exprs_models(
                        old(self).expressions@,
                    ).push(entry.model()));
                    assert(self.model() =~= sm.state);
                }
                Ok(())
            },
            Token::Comment => {
                proof {
                    assert(self.model() =~= sm.state);
                }
                Ok(())
            },
            Token::Comparator(_f, _o, _tb, _fb) => {
                proof {
                    assert(self.model() =~= sm.state);
                }
                Ok(())
            },
            Token::Condition(chain) => self.dispatch_condition(chain, Ghost(popped)),
            Token::Execute(name) => {
                match self.find_symbol(&name) {
                    None => {
                        proof {
                            assert(self.model() =~= sm.state);
                        }
                        Err(RunError::UnknownSymbol(name))
                    },
                    Some(i) => {
                        let body_opt: Option<Vec<Token>> = match &self.expressions[i].operations {
                            Some(b) => Some(clone_tokens(b)),
                            None => None,
                        };
                        let start_opt: Option<u16> = self.expressions[i].start;
                        match body_opt {
                            Some(body) => {
                                self.populate_stack(&body);
                                proof {
                                    assert(self.model() =~= sm.state);
                                }
                                Ok(())
                            },
                            None => match start_opt {
                                Some(p) => {
                                    self.position = p;
                                    proof {
                                        assert(self.model() =~= sm.state);
                                    }
                                    Ok(())
                                },
                                None => {
                                    proof {
                                        assert(self.model() =~= sm.state);
                                    }
                                    Err(RunError::UnknownSymbol(name))
                                },
                            },
                        }
                    },
                }
            },
            Token::Function(name, start, end, body) => {
                let entry = BacktickExpression {
                    identifier: Some(name),
                    operations: Some(body),
                    start: start,
                    end: end,
                };
                self.expressions.push(entry);
                proof {
                    assert(exprs_models(self.expressions@) =~= exprs_models(
                        old(self).expressions@,
                    ).push(entry.model()));
                    assert(self.model() =~= sm.state);
                }
                Ok(())
            },
            Token::Loop(body) => {
                self.populate_stack(&body);
                proof {
                    assert(self.model() =~= sm.state);
                }
                Ok(())
            },
            Token::Multiplier(g, n) => self.process_operator(g, n),
            Token::Operator(g) => self.process_operator(g, 1),
            Token::Assign(value) => {
                self.set(value);
                proof {
                    assert(self.model() =~= sm.state);
                }
                Ok(())
            },
            Token::Array(contents) => {
                let pos = self.position as usize;
                if contents.len() > usize::MAX - pos {
                    proof {
                        assert(self.model() =~= sm.state);
                    }
                    return Err(RunError::OutOfBounds(self.position));
                }
                self.write_array(&contents);
                proof {
                    assert(self.model() =~= sm.state);
                }
                Ok(())
            },
        }
    }

    /// Evaluates a popped condition chain left to right with AND/OR
    /// short-circuit rules and pushes the selected branches. A failure
    /// while reading a cell pushes nothing.
    fn dispatch_condition(&mut self, chain: Vec<Token>, pre: Ghost<StateModel>) -> (r: Result<
        (),
        RunError,
    >)
        requires
            old(self).model() == pre@,
        ensures
            ({
                let sm = spec_condition(pre@, models(chain@), 0, true, Seq::empty());
                &&& final(self).model() == sm.state
                &&& (match r {
                    Ok(_) => sm.error is None,
                    Err(e) => sm.error == Some(e.model()),
                })
            }),
    {
        let ghost cm = models(chain@);
        let ghost goal = spec_condition(pre@, cm, 0, true, Seq::empty());
        let mut temp: Vec<Token> = Vec::new();
        let mut valid: bool = true;
        let mut idx: usize = 0;
        let mut stopped: bool = false;
        let mut failure: Option<RunError> = None;
        proof {
            assert(models(temp@) =~= Seq::<TokenModel>::empty());
        }
        while idx < chain.len() && !stopped && failure.is_none()
            invariant
                idx <= chain@.len(),
                cm == models(chain@),
                goal == spec_condition(pre@, cm, 0, true, Seq::empty()),
                self.model() == pre@,
                self == old(self),
                (failure is None && !stopped) ==> goal == spec_condition(
                    pre@,
                    cm,
                    idx as int,
                    valid,
                    models(temp@),
                ),
                stopped ==> goal == step_ok(
                    StateModel { stack: pre@.stack + models(temp@), ..pre@ },
                ),
                (match failure {
                    Some(e) => goal == step_err(pre@, e.model()),
                    None => true,
                }),
            decreases chain@.len() - idx,
        {
            let ghost old_temp = models(temp@);
            let ghost old_valid = valid;
            match &chain[idx] {
                Token::Comparator(flags, operand, tb, fb) => {
                    let f = *flags;
                    let opnd = *operand;
                    if Comparator::is_or(f) || valid {
                        if (self.position as usize) >= self.memory.len() {
                            failure = Some(RunError::OutOfBounds(self.position));
                        } else if Comparator::is_indirect(f) && (opnd as usize)
                            >= self.memory.len() {
                            failure = Some(RunError::OutOfBounds(opnd as u16));
                        } else {
                            let cur = self.memory[self.position as usize];
                            let opv = if Comparator::is_indirect(f) {
                                self.memory[opnd as usize]
                            } else {
                                opnd
                            };
                            let res = Comparator::evaluate(f, cur, opv);
                            if res {
                                valid = true;
                                match tb {
                                    Some(b) => {
                                        push_reversed(&mut temp, b);
                                        stopped = true;
                                    },
                                    None => {},
                                }
                            } else {
                                valid = false;
                                match fb {
                                    Some(b) => {
                                        push_reversed(&mut temp, b);
                                    },
                                    None => {},
                                }
                            }
                        }
                    }
                },
                _ => {},
            }
            proof {
                assert(cm[idx as int] == chain@[idx as int].model());
            }
            idx = idx + 1;
        }
        match failure {
            Some(e) => {
                proof {
                    assert(self.model() =~= goal.state);
                }
                Err(e)
            },
            None => {
                let ghost temp_m = models(temp@);
                self.stack.append(&mut temp);
                proof {
                    assert forall|j: int| 0 <= j < models(self.stack@).len() implies models(
                        self.stack@,
                    )[j] == (pre@.stack + temp_m)[j] by {
                        if j < pre@.stack.len() {
                            assert(self.stack@[j] == old(self).stack@[j]);
                        }
                    }
                    assert(models(self.stack@) =~= pre@.stack + temp_m);
                    assert(self.model() =~= goal.state);
                }
                Ok(())
            },
        }
    }

    /// Pops and dispatches until the stack drains, a step fails, or `fuel`
    /// steps have been taken. Returns whether the stack drained.
    pub fn run(&mut self, fuel: u64) -> (r: Result<bool, RunError>)
        ensures
            ({
                let sm = spec_run(old(self).model(), fuel as nat);
                &&& final(self).model() == sm.state
                &&& (match r {
                    Ok(drained) => sm.error is None && (drained <==> sm.state.stack.len() == 0),
                    Err(e) => sm.error == Some(e.model()),
                })
            }),
    {
        let ghost goal = spec_run(old(self).model(), fuel as nat);
        let mut left: u64 = fuel;
        while left > 0 && self.stack.len() > 0
            invariant
                goal == spec_run(old(self).model(), fuel as nat),
                goal == spec_run(self.model(), left as nat),
            decreases left,
        {
            let ghost before = self.model();
            match self.next() {
                Ok(_) => {},
                Err(e) => {
                    return Err(e);
                },
            }
            left = left - 1;
            proof {
                assert(spec_run(before, (left + 1) as nat) == spec_run(
                    self.model(),
                    left as nat,
                ));
            }
        }
        Ok(self.stack.len() == 0)
    }

    /// Runs a whole program: pushes `tokens` so that the first executes
    /// first, queues `inputs` for the `,` instruction, and drives the
    /// dispatch loop for at most `fuel` steps. Returns the final engine
    /// state beside the run result.
    pub fn process(tokens: &Vec<Token>, inputs: Vec<Vec<u8>>, fuel: u64) -> (r: (
        State,
        Result<bool, RunError>,
    ))
        ensures
            ({
                let init = StateModel {
                    position: 0,
                    expressions: Seq::empty(),
                    memory: Seq::empty(),
                    stack: models(tokens@).reverse(),
                    inputs: inputs_model(inputs@),
                    input_at: 0,
                    output: Seq::empty(),
                };
                let sm = spec_run(init, fuel as nat);
                &&& r.0.model() == sm.state
                &&& (match r.1 {
                    Ok(drained) => sm.error is None && (drained <==> sm.state.stack.len() == 0),
                    Err(e) => sm.error == Some(e.model()),
                })
            }),
    {
        let mut s = State::new();
        s.inputs = inputs;
        s.populate_stack(tokens);
        proof {
            assert(Seq::<TokenModel>::empty() + models(tokens@).reverse() =~= models(
                tokens@,
            ).reverse());
            assert(s.model() =~= StateModel {
                position: 0,
                expressions: Seq::empty(),
                memory: Seq::empty(),
                stack: models(tokens@).reverse(),
                inputs: inputs_model(inputs@),
                input_at: 0,
                output: Seq::empty(),
            });
        }
        let res = s.run(fuel);
        (s, res)
    }
}

/// Byte-for-byte equality of two byte vectors.
pub fn bytes_eq(a: &Vec<u8>, b: &Vec<u8>) -> (r: bool)
    ensures
        r == (a@ == b@),
{
    if a.len() != b.len() {
        proof {
            assert(a@.len() != b@.len());
        }
        return false;
    }
    let mut i: usize = 0;
    while i < a.len()
        invariant
            i <= a@.len(),
            a@.len() == b@.len(),
            forall|j: int| 0 <= j < i ==> a@[j] == b@[j],
        decreases a@.len() - i,
    {
        if a[i] != b[i] {
            return false;
        }
        i = i + 1;
    }
    proof {
        assert(a@ =~= b@);
    }
    true
}


/// A single-cell write never leaves a gap: every cell between the prior
/// tape length and the written position reads zero afterwards, the written
/// cell holds the value, every other backed cell is unchanged, and the
/// tape never shrinks.
pub proof fn lemma_write_cell_leaves_no_gaps(mem: Seq<u8>, pos: int, v: u8)
    requires
        0 <= pos,
    ensures
        spec_write_cell(mem, pos, v).len() == if mem.len() <= pos {
            pos + 1
        } else {
            mem.len() as int
        },
        spec_write_cell(mem, pos, v)[pos] == v,
        forall|j: int| mem.len() <= j < pos ==> #[trigger] spec_write_cell(mem, pos, v)[j] == 0,
        forall|j: int|
            0 <= j < mem.len() && j != pos ==> #[trigger] spec_write_cell(mem, pos, v)[j]
                == mem[j],
{
}

/// An array write never leaves a gap: every cell between the prior tape
/// length and the start of the write reads zero afterwards, the written
/// range holds the bytes, every other backed cell is unchanged, and the
/// tape never shrinks.
pub proof fn lemma_write_array_leaves_no_gaps(mem: Seq<u8>, pos: int, bytes: Seq<u8>)
    requires
        0 <= pos,
        bytes.len() > 0,
    ensures
        spec_write_array(mem, pos, bytes).len() == if mem.len() < pos + bytes.len() {
            pos + bytes.len()
        } else {
            mem.len() as int
        },
        forall|j: int| mem.len() <= j < pos ==> #[trigger] spec_write_array(mem, pos, bytes)[j] == 0,
        forall|j: int|
            pos <= j < pos + bytes.len() ==> #[trigger] spec_write_array(mem, pos, bytes)[j]
                == bytes[j - pos],
        forall|j: int|
            0 <= j < mem.len() && !(pos <= j < pos + bytes.len())
                ==> #[trigger] spec_write_array(mem, pos, bytes)[j] == mem[j],
{
}

/// Cell arithmetic wraps at 8 bits: one increment of a cell holding 255
/// yields 0, one decrement of a cell holding 0 yields 255, and in general
/// a count acts modulo 256.
pub proof fn lemma_cell_arithmetic_wraps(c: u8, n: u16)
    ensures
        spec_wrap_add(255, 1) == 0,
        spec_wrap_sub(0, 1) == 255,
        spec_wrap_add(c, 1) == if c == 255 {
            0
        } else {
            (c + 1) as u8
        },
        spec_wrap_sub(c, 1) == if c == 0 {
            255
        } else {
            (c - 1) as u8
        },
        spec_wrap_add(c, n) == ((c + n) % 256) as u8,
        spec_wrap_sub(c, n) as int % 256 == ((c - n) % 256 + 256) % 256,
{
    assert(spec_wrap_sub(c, n) as int % 256 == ((c - n) % 256 + 256) % 256) by (nonlinear_arith);
}

} // verus!
