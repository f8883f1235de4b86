//! A plain-value model of one function body at the control-flow-graph
//! level, together with the answers of the ownership oracle about its
//! region variables.  The host front end lowers the parsed function into
//! these types; every later stage of the analysis is a function over
//! them.

use crate::patch::Range;
use vstd::prelude::*;

verus! {

/// An opaque identifier for a stack variable or temporary inside one
/// function body.  Local 0 is the return place; locals `1..=arg_count`
/// are the formal parameters, in order.
pub type Local = u32;

/// How the regions of two references relate, as reported by the
/// ownership oracle.  `Assume` is the conservative default when one side
/// has no distinct region inference variable.
#[derive(Clone, Copy, PartialEq, Eq, Structural, Debug)]
pub enum LifetimeRelation {
    Equal,
    ValidOutlive,
    InvalidOutlive,
    Assume,
}

/// The shape of a local's declared type, as far as the analysis reads
/// it: whether it is a reference, and if so whether the reference is
/// mutable and which region inference variable (if any) it carries.
#[derive(Clone, Copy, PartialEq, Eq, Structural, Debug)]
pub enum LocalType {
    /// An owned (non-reference) type.
    Owned,
    /// A reference type.  `region` names the region inference variable
    /// when the region is a distinct inference variable, and is `None`
    /// otherwise.
    Ref { mutable: bool, region: Option<u32> },
}

/// One entry of the locals table.
#[derive(Clone, Copy, PartialEq, Eq, Structural, Debug)]
pub struct LocalDecl {
    /// The shape of the declared type.
    pub ty: LocalType,
    /// The span of the explicit type annotation of the declaration, when
    /// the source carries one.
    pub ty_span: Option<Range>,
    /// The span at whose start a reference prefix must be inserted when
    /// no explicit type annotation exists; the front end supplies an
    /// empty range for a declaration with no such insertion site (an
    /// untyped user binding).
    pub decl_span: Range,
}

/// A value read by a statement or passed to a call.
#[derive(Clone, Copy, PartialEq, Eq, Structural, Debug)]
pub enum Operand {
    /// The local is read by bitwise copy; `span` covers the use.
    Copied { local: Local, span: Range },
    /// Ownership of the local is moved out; `span` covers the use.
    Moved { local: Local, span: Range },
    /// A constant; no local is involved.
    Constant,
}

/// The right-hand side of an assignment, reduced to the cases the
/// analysis distinguishes.
pub enum Rvalue {
    /// A plain value use.
    Use(Operand),
    /// A reference-taking expression borrowing `place`.  `region` names
    /// the new borrow's region inference variable when it is a distinct
    /// variable.
    Ref { mutable: bool, region: Option<u32>, place: Local },
    /// An array-repeat expression consuming one operand.
    Repeat(Operand),
    /// A cast consuming one operand.
    Cast(Operand),
    /// A binary operation consuming two operands.
    BinaryOp(Operand, Operand),
    /// A unary operation consuming one operand.
    UnaryOp(Operand),
    /// An aggregate construction consuming its operands.
    Aggregate(Vec<Operand>),
    /// A boxed initialization consuming one operand.
    ShallowInitBox(Operand),
    /// Any right-hand side the analysis does not inspect.
    Other,
}

/// One statement of a basic block.
pub enum Statement {
    Assign { left: Local, rvalue: Rvalue },
    /// Any statement the analysis does not inspect.
    Other,
}

/// The terminator of a basic block.
pub enum Terminator {
    /// A function call.  `is_clone` says whether the callee resolves to
    /// the ambient clone operation; `fn_span` covers the whole call
    /// expression.
    Call { is_clone: bool, args: Vec<Operand>, destination: Local, fn_span: Range },
    /// Any terminator the analysis does not inspect.
    Other,
}

/// One basic block: a list of statements followed by at most one
/// terminator.
pub struct BasicBlock {
    pub statements: Vec<Statement>,
    pub terminator: Option<Terminator>,
}

/// A function body as the analysis sees it.
pub struct FnBody {
    /// The basic blocks, in control-flow order.
    pub blocks: Vec<BasicBlock>,
    /// The locals table, indexed by `Local`.
    pub local_decls: Vec<LocalDecl>,
    /// The number of formal parameters; parameter `i` is local `i + 1`.
    pub arg_count: u32,
    /// The span of the function's generic-parameter list (empty when the
    /// list is absent).
    pub generics_span: Range,
}

pub open spec fn operand_wf(o: Operand, n: int) -> bool {
    match o {
        Operand::Copied { local, .. } => local < n,
        Operand::Moved { local, .. } => local < n,
        Operand::Constant => true,
    }
}

pub open spec fn operands_wf(os: Seq<Operand>, n: int) -> bool {
    forall|k: int| 0 <= k < os.len() ==> operand_wf(#[trigger] os[k], n)
}

pub open spec fn rvalue_wf(rv: Rvalue, n: int) -> bool {
    match rv {
        Rvalue::Use(o) => operand_wf(o, n),
        Rvalue::Ref { place, .. } => place < n,
        Rvalue::Repeat(o) => operand_wf(o, n),
        Rvalue::Cast(o) => operand_wf(o, n),
        Rvalue::BinaryOp(a, b) => operand_wf(a, n) && operand_wf(b, n),
        Rvalue::UnaryOp(o) => operand_wf(o, n),
        Rvalue::Aggregate(os) => operands_wf(os@, n),
        Rvalue::ShallowInitBox(o) => operand_wf(o, n),
        Rvalue::Other => true,
    }
}

pub open spec fn statement_wf(st: Statement, n: int) -> bool {
    match st {
        Statement::Assign { left, rvalue } => left < n && rvalue_wf(rvalue, n),
        Statement::Other => true,
    }
}

pub open spec fn terminator_wf(t: Terminator, n: int) -> bool {
    match t {
        Terminator::Call { args, destination, .. } => destination < n && operands_wf(args@, n),
        Terminator::Other => true,
    }
}

pub open spec fn block_wf(b: BasicBlock, n: int) -> bool {
    &&& forall|k: int| 0 <= k < b.statements@.len() ==> statement_wf(#[trigger] b.statements@[k], n)
    &&& match b.terminator {
        Some(t) => terminator_wf(t, n),
        None => true,
    }
}

impl FnBody {
    /// Every local mentioned anywhere in the body indexes into the
    /// locals table.  The front end guarantees this by construction.
    pub open spec fn wf(self) -> bool {
        forall|k: int|
            0 <= k < self.blocks@.len() ==> block_wf(
                #[trigger] self.blocks@[k],
                self.local_decls@.len() as int,
            )
    }
}

/// A pair of region variables appears in the oracle's relation table.
pub open spec fn oracle_has(pairs: Seq<(u32, u32)>, a: u32, b: u32) -> bool {
    exists|k: int| 0 <= k < pairs.len() && pairs[k] == (a, b)
}

/// The ownership oracle's verdicts about the function's region
/// inference variables, tabulated by the front end: which pairs it
/// evaluates as equal, and which pairs as a legal outlives
/// relationship.
pub struct RegionOracle {
    pub equal: Vec<(u32, u32)>,
    pub outlives: Vec<(u32, u32)>,
}

impl RegionOracle {
    /// Whether the oracle evaluates region `a` as equal to region `b`.
    pub fn eval_equal(&self, a: u32, b: u32) -> (res: bool)
        ensures
            res == oracle_has(self.equal@, a, b),
    {
        let mut k: usize = 0;
        while k < self.equal.len()
            invariant
                k <= self.equal@.len(),
                forall|m: int| 0 <= m < k ==> self.equal@[m] != ((a, b)),
            decreases self.equal@.len() - k,
        {
            if self.equal[k].0 == a && self.equal[k].1 == b {
                return true;
            }
            k = k + 1;
        }
        false
    }

    /// Whether the oracle evaluates region `a` as legally outliving
    /// region `b`.
    pub fn eval_outlives(&self, a: u32, b: u32) -> (res: bool)
        ensures
            res == oracle_has(self.outlives@, a, b),
    {
        let mut k: usize = 0;
        while k < self.outlives.len()
            invariant
                k <= self.outlives@.len(),
                forall|m: int| 0 <= m < k ==> self.outlives@[m] != ((a, b)),
            decreases self.outlives@.len() - k,
        {
            if self.outlives[k].0 == a && self.outlives[k].1 == b {
                return true;
            }
            k = k + 1;
        }
        false
    }
}

} // verus!
