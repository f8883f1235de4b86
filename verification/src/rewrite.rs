//! The analysis pass over one function body: build the relation graph,
//! select the eliminable clones, allocate and unify lifetime
//! annotations, and apply the resulting edits to the source text.

use crate::graph::{
    elim_spec, eligible_clones, lemma_elim_spec_empty, ty_of, Graph, Relation,
};
use crate::model::{
    block_wf, operand_wf, operands_wf, oracle_has, statement_wf, terminator_wf, BasicBlock,
    FnBody, LifetimeRelation, Local, LocalDecl, LocalType, Operand, RegionOracle, Rvalue,
    Statement, Terminator,
};
use crate::patch::{edits_wf, sort_edits_spec, spliced, EditV, Range};
use vstd::prelude::*;

verus! {

/// The relations a single operand contributes: a copy or move fact from
/// the operand's local into `target` (or into no local for an operand
/// consumed as a sub-part of a compound expression).
pub open spec fn operand_rels(o: Operand, target: Option<Local>) -> Seq<Relation> {
    match o {
        Operand::Copied { local, span } => seq![
            Relation::CopyUse { source: local, target, range: span },
        ],
        Operand::Moved { local, span } => seq![
            Relation::MoveUse { source: local, target, range: span },
        ],
        Operand::Constant => Seq::empty(),
    }
}

/// The relations of a list of operands consumed as sub-parts, in order.
pub open spec fn operands_rels(os: Seq<Operand>) -> Seq<Relation>
    decreases os.len(),
{
    if os.len() == 0 {
        Seq::empty()
    } else {
        operands_rels(os.drop_last()) + operand_rels(os.last(), None)
    }
}

/// The oracle's classification of a new borrow's region against the
/// declared region of the local receiving the reference.  When either
/// side's region is not a distinct inference variable the relation
/// cannot be determined and `Assume` is recorded.
pub open spec fn classify_ref(
    left_ty: LocalType,
    region: Option<u32>,
    eq: Seq<(u32, u32)>,
    outl: Seq<(u32, u32)>,
) -> LifetimeRelation {
    match (left_ty, region) {
        (LocalType::Ref { region: Some(lr), .. }, Some(rr)) => if oracle_has(eq, rr, lr) {
            LifetimeRelation::Equal
        } else if oracle_has(outl, rr, lr) {
            LifetimeRelation::ValidOutlive
        } else {
            LifetimeRelation::InvalidOutlive
        },
        _ => LifetimeRelation::Assume,
    }
}

/// The relations one assignment's right-hand side contributes.
pub open spec fn rvalue_rels(
    left: Local,
    rv: Rvalue,
    decls: Seq<LocalDecl>,
    eq: Seq<(u32, u32)>,
    outl: Seq<(u32, u32)>,
) -> Seq<Relation> {
    match rv {
        Rvalue::Use(o) => operand_rels(o, Some(left)),
        Rvalue::Ref { mutable, region, place } => {
            let lifetime = classify_ref(decls[left as int].ty, region, eq, outl);
            let range = decls[place as int].decl_span;
            if mutable {
                seq![Relation::MutableBorrow { target: left, source: place, lifetime, range }]
            } else {
                seq![Relation::ImmutableBorrow { target: left, source: place, lifetime, range }]
            }
        },
        Rvalue::Repeat(o) => operand_rels(o, None),
        Rvalue::Cast(o) => operand_rels(o, None),
        Rvalue::BinaryOp(a, b) => operand_rels(a, None) + operand_rels(b, None),
        Rvalue::UnaryOp(o) => operand_rels(o, None),
        Rvalue::Aggregate(os) => operands_rels(os@),
        Rvalue::ShallowInitBox(o) => operand_rels(o, None),
        Rvalue::Other => Seq::empty(),
    }
}

/// The relations one statement contributes.
pub open spec fn statement_rels(
    st: Statement,
    decls: Seq<LocalDecl>,
    eq: Seq<(u32, u32)>,
    outl: Seq<(u32, u32)>,
) -> Seq<Relation> {
    match st {
        Statement::Assign { left, rvalue } => rvalue_rels(left, rvalue, decls, eq, outl),
        Statement::Other => Seq::empty(),
    }
}

/// The clone relation of a call to the clone operation: from the sole
/// argument's local to the call's destination, capturing the whole call
/// span and the argument span.
pub open spec fn clone_arg_rel(args: Seq<Operand>, destination: Local, fn_span: Range) -> Seq<
    Relation,
> {
    if args.len() >= 1 {
        match args[0] {
            Operand::Copied { local, span } => seq![
                Relation::CloneCall {
                    source: local,
                    destination,
                    call_span: fn_span,
                    arg_span: span,
                },
            ],
            Operand::Moved { local, span } => seq![
                Relation::CloneCall {
                    source: local,
                    destination,
                    call_span: fn_span,
                    arg_span: span,
                },
            ],
            Operand::Constant => Seq::empty(),
        }
    } else {
        Seq::empty()
    }
}

/// The relations one terminator contributes: a clone relation for a call
/// to the clone operation, copy and move facts for the arguments of any
/// other call, nothing otherwise.
pub open spec fn terminator_rels(t: Terminator) -> Seq<Relation> {
    match t {
        Terminator::Call { is_clone, args, destination, fn_span } => if is_clone {
            clone_arg_rel(args@, destination, fn_span)
        } else {
            operands_rels(args@)
        },
        Terminator::Other => Seq::empty(),
    }
}

/// The relations of a list of statements, in statement order.
pub open spec fn statements_rels(
    ss: Seq<Statement>,
    decls: Seq<LocalDecl>,
    eq: Seq<(u32, u32)>,
    outl: Seq<(u32, u32)>,
) -> Seq<Relation>
    decreases ss.len(),
{
    if ss.len() == 0 {
        Seq::empty()
    } else {
        statements_rels(ss.drop_last(), decls, eq, outl) + statement_rels(
            ss.last(),
            decls,
            eq,
            outl,
        )
    }
}

/// The relations of one basic block: its statements in order, then its
/// terminator.
pub open spec fn block_rels(
    b: BasicBlock,
    decls: Seq<LocalDecl>,
    eq: Seq<(u32, u32)>,
    outl: Seq<(u32, u32)>,
) -> Seq<Relation> {
    statements_rels(b.statements@, decls, eq, outl) + match b.terminator {
        Some(t) => terminator_rels(t),
        None => Seq::empty(),
    }
}

/// The relations of a list of basic blocks, in block order.
pub open spec fn blocks_rels(
    bs: Seq<BasicBlock>,
    decls: Seq<LocalDecl>,
    eq: Seq<(u32, u32)>,
    outl: Seq<(u32, u32)>,
) -> Seq<Relation>
    decreases bs.len(),
{
    if bs.len() == 0 {
        Seq::empty()
    } else {
        blocks_rels(bs.drop_last(), decls, eq, outl) + block_rels(bs.last(), decls, eq, outl)
    }
}

/// Every relation the single pass over the function body records, in
/// the body's block and statement order.
pub open spec fn body_relations(body: FnBody, oracle: RegionOracle) -> Seq<Relation> {
    blocks_rels(body.blocks@, body.local_decls@, oracle.equal@, oracle.outlives@)
}

fn push_operand(g: &mut Graph, o: Operand, target: Option<Local>)
    requires
        old(g).wf(),
        operand_wf(o, old(g).n_locals as int),
        (target matches Some(t) ==> (t as int) < old(g).n_locals as int),
    ensures
        final(g).wf(),
        final(g).n_locals == old(g).n_locals,
        final(g).relations@ == old(g).relations@ + operand_rels(o, target),
{
    match o {
        Operand::Copied { local, span } => {
            g.push(Relation::CopyUse { source: local, target, range: span });
            proof {
                assert(g.relations@ =~= old(g).relations@ + operand_rels(o, target));
            }
        },
        Operand::Moved { local, span } => {
            g.push(Relation::MoveUse { source: local, target, range: span });
            proof {
                assert(g.relations@ =~= old(g).relations@ + operand_rels(o, target));
            }
        },
        Operand::Constant => {
            proof {
                assert(g.relations@ =~= old(g).relations@ + operand_rels(o, target));
            }
        },
    }
}

fn push_operands(g: &mut Graph, os: &Vec<Operand>)
    requires
        old(g).wf(),
        operands_wf(os@, old(g).n_locals as int),
    ensures
        final(g).wf(),
        final(g).n_locals == old(g).n_locals,
        final(g).relations@ == old(g).relations@ + operands_rels(os@),
{
    let ghost base = g.relations@;
    let mut k: usize = 0;
    proof {
        assert(os@.take(0) =~= Seq::<Operand>::empty());
        assert(g.relations@ =~= base + operands_rels(os@.take(0)));
    }
    while k < os.len()
        invariant
            k <= os@.len(),
            g.wf(),
            g.n_locals == old(g).n_locals,
            operands_wf(os@, g.n_locals as int),
            g.relations@ == base + operands_rels(os@.take(k as int)),
        decreases os@.len() - k,
    {
        push_operand(g, os[k], None);
        k = k + 1;
        proof {
            assert(os@.take(k as int).drop_last() =~= os@.take(k as int - 1));
            assert(os@.take(k as int).last() == os@[k as int - 1]);
            assert(g.relations@ =~= base + operands_rels(os@.take(k as int)));
        }
    }
    proof {
        assert(os@.take(os@.len() as int) =~= os@);
    }
}

/// One pass over the body's statements and terminators, recording every
/// relation in control-flow order.
pub fn build_graph(body: &FnBody, oracle: &RegionOracle) -> (g: Graph)
    requires
        body.wf(),
        body.local_decls@.len() <= u32::MAX,
    ensures
        g.wf(),
        g.n_locals == body.local_decls@.len(),
        g.relations@ == body_relations(*body, *oracle),
{
    let n: usize = body.local_decls.len();
    let ghost decls = body.local_decls@;
    let ghost eq = oracle.equal@;
    let ghost outl = oracle.outlives@;
    let mut g = Graph::new(n);
    let mut bi: usize = 0;
    proof {
        assert(body.blocks@.take(0) =~= Seq::<BasicBlock>::empty());
        assert(g.relations@ =~= blocks_rels(body.blocks@.take(0), decls, eq, outl));
    }
    while bi < body.blocks.len()
        invariant
            bi <= body.blocks@.len(),
            g.wf(),
            g.n_locals == n,
            n == decls.len(),
            decls == body.local_decls@,
            eq == oracle.equal@,
            outl == oracle.outlives@,
            body.wf(),
            g.relations@ == blocks_rels(body.blocks@.take(bi as int), decls, eq, outl),
        decreases body.blocks@.len() - bi,
    {
        let b = &body.blocks[bi];
        let ghost base = g.relations@;
        proof {
            assert(block_wf(body.blocks@[bi as int], n as int));
        }
        let mut si: usize = 0;
        proof {
            assert(b.statements@.take(0) =~= Seq::<Statement>::empty());
            assert(g.relations@ =~= base + statements_rels(b.statements@.take(0), decls, eq, outl));
        }
        while si < b.statements.len()
            invariant
                si <= b.statements@.len(),
                g.wf(),
                g.n_locals == n,
                n == decls.len(),
                decls == body.local_decls@,
                eq == oracle.equal@,
                outl == oracle.outlives@,
                block_wf(*b, n as int),
                g.relations@ == base + statements_rels(
                    b.statements@.take(si as int),
                    decls,
                    eq,
                    outl,
                ),
            decreases b.statements@.len() - si,
        {
            let ghost st = b.statements@[si as int];
            proof {
                assert(statement_wf(st, n as int));
            }
            match &b.statements[si] {
                Statement::Assign { left, rvalue } => {
                    match rvalue {
                        Rvalue::Use(o) => {
                            push_operand(&mut g, *o, Some(*left));
                        },
                        Rvalue::Ref { mutable, region, place } => {
                            let left_ty = body.local_decls[*left as usize].ty;
                            let lifetime: LifetimeRelation = match (left_ty, region) {
                                (LocalType::Ref { region: Some(lr), .. }, Some(rr)) => {
                                    if oracle.eval_equal(*rr, lr) {
                                        LifetimeRelation::Equal
                                    } else if oracle.eval_outlives(*rr, lr) {
                                        LifetimeRelation::ValidOutlive
                                    } else {
                                        LifetimeRelation::InvalidOutlive
                                    }
                                },
                                _ => LifetimeRelation::Assume,
                            };
                            proof {
                                assert(lifetime == classify_ref(
                                    decls[*left as int].ty,
                                    *region,
                                    eq,
                                    outl,
                                ));
                            }
                            let range = body.local_decls[*place as usize].decl_span;
                            if *mutable {
                                g.push(
                                    Relation::MutableBorrow {
                                        target: *left,
                                        source: *place,
                                        lifetime,
                                        range,
                                    },
                                );
                            } else {
                                g.push(
                                    Relation::ImmutableBorrow {
                                        target: *left,
                                        source: *place,
                                        lifetime,
                                        range,
                                    },
                                );
                            }
                        },
                        Rvalue::Repeat(o) => {
                            push_operand(&mut g, *o, None);
                        },
                        Rvalue::Cast(o) => {
                            push_operand(&mut g, *o, None);
                        },
                        Rvalue::BinaryOp(a, c) => {
                            push_operand(&mut g, *a, None);
                            push_operand(&mut g, *c, None);
                        },
                        Rvalue::UnaryOp(o) => {
                            push_operand(&mut g, *o, None);
                        },
                        Rvalue::Aggregate(os) => {
                            push_operands(&mut g, os);
                        },
                        Rvalue::ShallowInitBox(o) => {
                            push_operand(&mut g, *o, None);
                        },
                        Rvalue::Other => {},
                    }
                },
                Statement::Other => {},
            }
            si = si + 1;
            proof {
                assert(b.statements@.take(si as int).drop_last() =~= b.statements@.take(
                    si as int - 1,
                ));
                assert(b.statements@.take(si as int).last() == st);
                assert(g.relations@ =~= base + statements_rels(
                    b.statements@.take(si as int),
                    decls,
                    eq,
                    outl,
                ));
            }
        }
        proof {
            assert(b.statements@.take(b.statements@.len() as int) =~= b.statements@);
        }
        match &b.terminator {
            Some(t) => {
                proof {
                    assert(terminator_wf(body.blocks@[bi as int].terminator->Some_0, n as int));
                }
                match t {
                    Terminator::Call { is_clone, args, destination, fn_span } => {
                        if *is_clone {
                            if args.len() >= 1 {
                                match &args[0] {
                                    Operand::Copied { local, span } => {
                                        g.push(
                                            Relation::CloneCall {
                                                source: *local,
                                                destination: *destination,
                                                call_span: *fn_span,
                                                arg_span: *span,
                                            },
                                        );
                                    },
                                    Operand::Moved { local, span } => {
                                        g.push(
                                            Relation::CloneCall {
                                                source: *local,
                                                destination: *destination,
                                                call_span: *fn_span,
                                                arg_span: *span,
                                            },
                                        );
                                    },
                                    Operand::Constant => {},
                                }
                            }
                        } else {
                            push_operands(&mut g, args);
                        }
                    },
                    Terminator::Other => {},
                }
            },
            None => {},
        }
        bi = bi + 1;
        proof {
            assert(body.blocks@.take(bi as int).drop_last() =~= body.blocks@.take(bi as int - 1));
            assert(body.blocks@.take(bi as int).last() == body.blocks@[bi as int - 1]);
            assert(g.relations@ =~= blocks_rels(body.blocks@.take(bi as int), decls, eq, outl));
        }
    }
    proof {
        assert(body.blocks@.take(body.blocks@.len() as int) =~= body.blocks@);
    }
    g
}

/// The full edit set one rewrite pass produces for this body: built from
/// the recorded relations and their derived type-relation map, optionally
/// restricted to the clones tied to one parameter local.
pub open spec fn rewrite_edits(body: FnBody, oracle: RegionOracle, restrict: Option<Local>) -> Seq<
    EditV,
> {
    let rels = body_relations(body, oracle);
    let n: nat = body.local_decls@.len();
    elim_spec(rels, ty_of(rels, n), body.local_decls@, body.generics_span, restrict, n)
}

/// What one rewrite pass returns: the spliced text when the pass found
/// something to change and its edits fit the source; no text otherwise
/// (no eligible change, or edits that fall outside the source or
/// collide, which a well-formed front end never hands over).
pub open spec fn rewrite_result(
    source: Seq<u8>,
    body: FnBody,
    oracle: RegionOracle,
    restrict: Option<Local>,
) -> Option<Seq<u8>> {
    let eds = rewrite_edits(body, oracle, restrict);
    if eds.len() > 0 && edits_wf(eds, source.len() as int) {
        Some(spliced(source, sort_edits_spec(eds)))
    } else {
        None
    }
}

/// Idempotence, as far as one pass decides it: a body in which the
/// analysis finds no eliminable clone produces no edit at all, so the
/// rewrite stage reports no change and the driver leaves the
/// accumulated text exactly as it was.  Re-running the driver on its own
/// output reduces to this case, since the first run stripped the clone
/// calls from the text that the front end parses the second time.
pub proof fn lemma_no_candidate_no_change(
    source: Seq<u8>,
    body: FnBody,
    oracle: RegionOracle,
    restrict: Option<Local>,
)
    requires
        eligible_clones(
            body_relations(body, oracle),
            ty_of(body_relations(body, oracle), body.local_decls@.len()),
            restrict,
        ).len() == 0,
    ensures
        rewrite_result(source, body, oracle, restrict) is None,
{
    let rels = body_relations(body, oracle);
    let n: nat = body.local_decls@.len();
    lemma_elim_spec_empty(
        rels,
        ty_of(rels, n),
        body.local_decls@,
        body.generics_span,
        restrict,
        n,
    );
}

fn rewrite_restricted(
    source: Vec<u8>,
    body: &FnBody,
    oracle: &RegionOracle,
    restrict: Option<Local>,
) -> (res: Option<Vec<u8>>)
    requires
        body.wf(),
        body.local_decls@.len() <= u32::MAX,
        source@.len() <= u32::MAX,
    ensures
        match res {
            Some(v) => rewrite_result(source@, *body, *oracle, restrict) == Some(v@),
            None => rewrite_result(source@, *body, *oracle, restrict) is None,
        },
{
    let g = build_graph(body, oracle);
    let s = g.elim(&body.local_decls, body.generics_span, restrict);
    if s.replaces.len() == 0 {
        return None;
    }
    if !s.wf_for(source.len()) {
        return None;
    }
    Some(s.apply(&source))
}

/// One whole-function rewrite pass: analyze the body, eliminate every
/// eligible clone at once, and return the rewritten source text, or
/// nothing when there is no eligible change.
pub fn rewrite(source: Vec<u8>, body: &FnBody, oracle: &RegionOracle) -> (res: Option<Vec<u8>>)
    requires
        body.wf(),
        body.local_decls@.len() <= u32::MAX,
        source@.len() <= u32::MAX,
    ensures
        match res {
            Some(v) => rewrite_result(source@, *body, *oracle, None) == Some(v@),
            None => rewrite_result(source@, *body, *oracle, None) is None,
        },
{
    rewrite_restricted(source, body, oracle, None)
}

/// One rewrite pass restricted to formal parameter `param`: only the
/// eligible clones whose source is, or whose affected-locals set
/// contains, that parameter's local are eliminated.
pub fn rewrite_for_param(
    source: Vec<u8>,
    body: &FnBody,
    oracle: &RegionOracle,
    param: u32,
) -> (res: Option<Vec<u8>>)
    requires
        body.wf(),
        body.local_decls@.len() <= u32::MAX,
        source@.len() <= u32::MAX,
        param < body.arg_count,
    ensures
        match res {
            Some(v) => rewrite_result(source@, *body, *oracle, Some((param + 1) as Local)) == Some(
                v@,
            ),
            None => rewrite_result(source@, *body, *oracle, Some((param + 1) as Local)) is None,
        },
{
    rewrite_restricted(source, body, oracle, Some(param + 1))
}

} // verus!
