//! The eight operations of the language and how source bytes map to them.
use vstd::prelude::*;

verus! {

/// The source byte `>`.
pub const SYM_RIGHT: u8 = 0x3e;

/// The source byte `<`.
pub const SYM_LEFT: u8 = 0x3c;

/// The source byte `+`.
pub const SYM_PLUS: u8 = 0x2b;

/// The source byte `-`.
pub const SYM_MINUS: u8 = 0x2d;

/// The source byte `.`.
pub const SYM_DOT: u8 = 0x2e;

/// The source byte `,`.
pub const SYM_COMMA: u8 = 0x2c;

/// The source byte `[`.
pub const SYM_OPEN: u8 = 0x5b;

/// The source byte `]`.
pub const SYM_CLOSE: u8 = 0x5d;

/// One operation of the language, as written by one source symbol.
#[derive(Clone, Copy, Debug, PartialEq, Eq, Structural)]
pub enum OpCode {
    /// `>`: move the cursor one cell to the right.
    SHR,
    /// `<`: move the cursor one cell to the left.
    SHL,
    /// `+`: add one to the current cell.
    ADD,
    /// `-`: subtract one from the current cell.
    SUB,
    /// `.`: take the byte in the current cell and write it out.
    GETCHAR,
    /// `,`: put the next byte of input into the current cell.
    PUTCHAR,
    /// `[`: enter a loop.
    LB,
    /// `]`: close a loop.
    RB,
}

impl OpCode {
    /// The operation a source byte stands for; `None` for every other byte.
    pub open spec fn decode(b: u8) -> Option<OpCode> {
        if b == SYM_RIGHT {
            Some(OpCode::SHR)
        } else if b == SYM_LEFT {
            Some(OpCode::SHL)
        } else if b == SYM_PLUS {
            Some(OpCode::ADD)
        } else if b == SYM_MINUS {
            Some(OpCode::SUB)
        } else if b == SYM_DOT {
            Some(OpCode::GETCHAR)
        } else if b == SYM_COMMA {
            Some(OpCode::PUTCHAR)
        } else if b == SYM_OPEN {
            Some(OpCode::LB)
        } else if b == SYM_CLOSE {
            Some(OpCode::RB)
        } else {
            None
        }
    }

    /// Whether the operation is one of the four that fold into counted runs.
    pub open spec fn folds(self) -> bool {
        self == OpCode::SHR || self == OpCode::SHL || self == OpCode::ADD || self == OpCode::SUB
    }

    /// Reads one source byte.
    pub fn parse(b: u8) -> (r: Option<OpCode>)
        ensures
            r == Self::decode(b),
    {
        if b == SYM_RIGHT {
            Some(OpCode::SHR)
        } else if b == SYM_LEFT {
            Some(OpCode::SHL)
        } else if b == SYM_PLUS {
            Some(OpCode::ADD)
        } else if b == SYM_MINUS {
            Some(OpCode::SUB)
        } else if b == SYM_DOT {
            Some(OpCode::GETCHAR)
        } else if b == SYM_COMMA {
            Some(OpCode::PUTCHAR)
        } else if b == SYM_OPEN {
            Some(OpCode::LB)
        } else if b == SYM_CLOSE {
            Some(OpCode::RB)
        } else {
            None
        }
    }
}

/// The operations a source buffer holds, in order. Bytes that stand for no
/// operation are comments and leave no trace.
pub open spec fn ops(src: Seq<u8>) -> Seq<OpCode>
    decreases src.len(),
{
    if src.len() == 0 {
        Seq::empty()
    } else {
        match OpCode::decode(src.last()) {
            Some(op) => ops(src.drop_last()).push(op),
            None => ops(src.drop_last()),
        }
    }
}

/// Reading one more byte appends its operation, if it has one.
pub proof fn lemma_ops_step(src: Seq<u8>, p: int)
    requires
        0 <= p < src.len(),
    ensures
        ops(src.take(p + 1)) == match OpCode::decode(src[p]) {
            Some(op) => ops(src.take(p)).push(op),
            None => ops(src.take(p)),
        },
{
    assert(src.take(p + 1).drop_last() =~= src.take(p));
}

/// The operations of a prefix of the source are a prefix of its operations.
pub proof fn lemma_ops_prefix(src: Seq<u8>, p: int)
    requires
        0 <= p <= src.len(),
    ensures
        ops(src.take(p)).len() <= ops(src).len(),
        forall|i: int| 0 <= i < ops(src.take(p)).len() ==> ops(src.take(p))[i] == ops(src)[i],
    decreases src.len() - p,
{
    if p == src.len() {
        assert(src.take(p) =~= src);
    } else {
        lemma_ops_step(src, p);
        lemma_ops_prefix(src, p + 1);
    }
}

} // verus!
