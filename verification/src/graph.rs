//! The relation graph: one pass over a function body's statements and
//! terminators emits a typed relation record per value use, borrow or
//! clone call between locals; a derived per-local map records how each
//! local's declared type must co-vary with the others.

use crate::model::{LifetimeRelation, Local, LocalDecl};
use crate::patch::{EditV, Range, Substitutes};
use vstd::prelude::*;

verus! {

/// A directed fact between two locals, in the order the single analysis
/// pass discovered it.
#[derive(Clone, Copy, PartialEq, Eq, Structural, Debug)]
#[allow(inconsistent_fields)]
pub enum Relation {
    /// `target` is an immutable reference to `source`.
    ImmutableBorrow { target: Local, source: Local, lifetime: LifetimeRelation, range: Range },
    /// `target` is a mutable reference to `source`.
    MutableBorrow { target: Local, source: Local, lifetime: LifetimeRelation, range: Range },
    /// `target` (if any) receives a bitwise copy of `source`.
    CopyUse { source: Local, target: Option<Local>, range: Range },
    /// `target` (if any) receives ownership moved from `source`.
    MoveUse { source: Local, target: Option<Local>, range: Range },
    /// `destination` receives an owned duplicate of `source`, produced by
    /// an explicit clone call covering `call_span` whose sole argument
    /// covers `arg_span`.
    CloneCall { source: Local, destination: Local, call_span: Range, arg_span: Range },
}

/// How a local's declared type must co-vary with another's if the latter
/// changes from owned to reference.
#[derive(Clone, Copy, PartialEq, Eq, Structural, Debug)]
pub enum TypeRelation {
    Equal(Local),
    IsImmutableRefOf(Local),
    IsMutableRefOf(Local),
    DerefOf(Local),
}

pub open spec fn relation_wf(r: Relation, n: int) -> bool {
    match r {
        Relation::ImmutableBorrow { target, source, .. } => target < n && source < n,
        Relation::MutableBorrow { target, source, .. } => target < n && source < n,
        Relation::CopyUse { source, target, .. } => source < n && (target matches Some(t) ==> t
            < n),
        Relation::MoveUse { source, target, .. } => source < n && (target matches Some(t) ==> t
            < n),
        Relation::CloneCall { source, destination, .. } => source < n && destination < n,
    }
}

pub open spec fn relations_wf(rs: Seq<Relation>, n: int) -> bool {
    forall|k: int| 0 <= k < rs.len() ==> relation_wf(#[trigger] rs[k], n)
}

/// The local a type relation ties its owner to.
pub open spec fn tyrel_local(r: TypeRelation) -> Local {
    match r {
        TypeRelation::Equal(l) => l,
        TypeRelation::IsImmutableRefOf(l) => l,
        TypeRelation::IsMutableRefOf(l) => l,
        TypeRelation::DerefOf(l) => l,
    }
}

/// Record `rel` against `local`, suppressing duplicates; entries keep
/// their insertion order.
pub open spec fn push_ty_spec(
    ty: Seq<Seq<TypeRelation>>,
    local: Local,
    rel: TypeRelation,
) -> Seq<Seq<TypeRelation>> {
    if local < ty.len() && !ty[local as int].contains(rel) {
        ty.update(local as int, ty[local as int].push(rel))
    } else {
        ty
    }
}

/// The type-relation entries that one relation contributes.
pub open spec fn relation_ty_updates(
    ty: Seq<Seq<TypeRelation>>,
    r: Relation,
) -> Seq<Seq<TypeRelation>> {
    match r {
        Relation::ImmutableBorrow { target, source, .. } => push_ty_spec(
            ty,
            target,
            TypeRelation::IsImmutableRefOf(source),
        ),
        Relation::MutableBorrow { target, source, .. } => push_ty_spec(
            ty,
            target,
            TypeRelation::IsMutableRefOf(source),
        ),
        Relation::CopyUse { source, target, .. } => match target {
            Some(t) => push_ty_spec(
                push_ty_spec(ty, t, TypeRelation::Equal(source)),
                source,
                TypeRelation::Equal(t),
            ),
            None => ty,
        },
        Relation::MoveUse { source, target, .. } => match target {
            Some(t) => push_ty_spec(
                push_ty_spec(ty, t, TypeRelation::Equal(source)),
                source,
                TypeRelation::Equal(t),
            ),
            None => ty,
        },
        Relation::CloneCall { source, destination, .. } => push_ty_spec(
            ty,
            source,
            TypeRelation::IsImmutableRefOf(destination),
        ),
    }
}

/// The type-relation map derived from a relation list, one relation at a
/// time in list order.
pub open spec fn ty_of(rs: Seq<Relation>, n: nat) -> Seq<Seq<TypeRelation>>
    decreases rs.len(),
{
    if rs.len() == 0 {
        Seq::new(n, |i: int| Seq::empty())
    } else {
        relation_ty_updates(ty_of(rs.drop_last(), n), rs.last())
    }
}

/// The view of the executable type-relation table.
pub open spec fn ty_view(t: Seq<Vec<TypeRelation>>) -> Seq<Seq<TypeRelation>> {
    Seq::new(t.len(), |i: int| t[i]@)
}

/// Every entry of the type-relation map ties its owner to a local inside
/// the locals table.
pub open spec fn ty_bounded(ty: Seq<Seq<TypeRelation>>, n: int) -> bool {
    forall|a: int, k: int|
        0 <= a < ty.len() && 0 <= k < ty[a].len() ==> tyrel_local(#[trigger] ty[a][k]) < n
}

/// The relation is a mutable borrow whose borrowed side is `local`.
pub open spec fn is_mut_borrow_of(r: Relation, local: Local) -> bool {
    r matches Relation::MutableBorrow { source, .. } && source == local
}

/// `local` appears somewhere in the relation list as the borrowed side
/// of a mutable borrow.
pub open spec fn mut_borrowed(rs: Seq<Relation>, local: Local) -> bool {
    exists|k: int| 0 <= k < rs.len() && is_mut_borrow_of(#[trigger] rs[k], local)
}

fn ann_used_exec(aff: &Vec<Option<usize>>, decls: &Vec<LocalDecl>, o: usize) -> (res: bool)
    requires
        aff@.len() == decls@.len(),
    ensures
        res == ann_used(aff@, decls@, o),
{
    let mut l: usize = 0;
    while l < aff.len()
        invariant
            l <= aff@.len(),
            aff@.len() == decls@.len(),
            forall|m: int|
                0 <= m < l ==> !((#[trigger] aff@[m]) == Some(o) && decl_has_site(decls@[m])),
        decreases aff@.len() - l,
    {
        let has_site: bool = match decls[l].ty_span {
            Some(_) => true,
            None => decls[l].decl_span.lo != decls[l].decl_span.hi,
        };
        match aff[l] {
            Some(x) => {
                if x == o && has_site {
                    return true;
                }
            },
            None => {},
        }
        l = l + 1;
    }
    false
}

fn contains_local(v: &Vec<Local>, p: Local) -> (res: bool)
    ensures
        res == v@.contains(p),
{
    let mut k: usize = 0;
    while k < v.len()
        invariant
            k <= v@.len(),
            forall|m: int| 0 <= m < k ==> v@[m] != p,
        decreases v@.len() - k,
    {
        if v[k] == p {
            return true;
        }
        k = k + 1;
    }
    false
}

fn letters_exec(o: usize) -> (res: Vec<u8>)
    ensures
        res@ == letters(o as nat),
    decreases o,
{
    if o < 26 {
        let mut v: Vec<u8> = Vec::new();
        v.push(97 + o as u8);
        proof {
            assert(v@ =~= letters(o as nat));
        }
        v
    } else {
        let mut v = letters_exec(o / 26 - 1);
        v.push(97 + (o % 26) as u8);
        proof {
            assert(v@ =~= letters(o as nat));
        }
        v
    }
}

fn ann_prefix_exec(o: usize) -> (res: Vec<u8>)
    ensures
        res@ == ann_prefix(o),
{
    let mut v: Vec<u8> = Vec::new();
    v.push(38);
    v.push(39);
    let mut ls = letters_exec(o);
    v.append(&mut ls);
    v.push(32);
    proof {
        assert(v@ =~= ann_prefix(o));
    }
    v
}

fn contains_tyrel(rs: &Vec<TypeRelation>, rel: TypeRelation) -> (res: bool)
    ensures
        res == rs@.contains(rel),
{
    let mut k: usize = 0;
    while k < rs.len()
        invariant
            k <= rs@.len(),
            forall|m: int| 0 <= m < k ==> rs@[m] != rel,
        decreases rs@.len() - k,
    {
        if rs[k] == rel {
            return true;
        }
        k = k + 1;
    }
    false
}

/// A type relation that forces its owner's declared type to change in
/// lockstep when the type of `b` changes from owned to reference: only
/// type equality and immutable-reference edges propagate; mutable
/// references and dereferences do not.
pub open spec fn ty_follow_edge(r: TypeRelation, b: int) -> bool {
    match r {
        TypeRelation::Equal(l) => l == b,
        TypeRelation::IsImmutableRefOf(l) => l == b,
        TypeRelation::IsMutableRefOf(_) => false,
        TypeRelation::DerefOf(_) => false,
    }
}

/// The type-relation map ties local `a`'s declared type to local `b`'s.
pub open spec fn ty_edge(ty: Seq<Seq<TypeRelation>>, a: int, b: int) -> bool {
    0 <= a < ty.len() && exists|k: int|
        0 <= k < ty[a].len() && ty_follow_edge(#[trigger] ty[a][k], b)
}

/// `p` is a walk from `src` to `dst` along propagating type-relation
/// edges.
pub open spec fn is_ty_path(ty: Seq<Seq<TypeRelation>>, p: Seq<int>, src: int, dst: int) -> bool {
    &&& p.len() >= 2
    &&& p[0] == src
    &&& p.last() == dst
    &&& forall|i: int| 0 <= i < p.len() - 1 ==> ty_edge(ty, #[trigger] p[i], p[i + 1])
}

/// Local `b` belongs to the affected-locals set of `src`: some chain of
/// propagating type-relation edges leads from `src` to `b`.
pub open spec fn affected(ty: Seq<Seq<TypeRelation>>, src: int, b: int) -> bool {
    exists|p: Seq<int>| is_ty_path(ty, p, src, b)
}

/// The affected locals of `src` among locals `0..n`, in ascending order.
pub open spec fn affected_upto(ty: Seq<Seq<TypeRelation>>, src: int, n: int) -> Seq<Local>
    decreases n,
{
    if n <= 0 {
        Seq::empty()
    } else {
        affected_upto(ty, src, n - 1) + if affected(ty, src, n - 1) {
            seq![(n - 1) as Local]
        } else {
            Seq::empty()
        }
    }
}

/// The affected-locals set of `src`, as the ascending sequence of all
/// affected locals.
pub open spec fn affected_seq(ty: Seq<Seq<TypeRelation>>, src: int) -> Seq<Local> {
    affected_upto(ty, src, ty.len() as int)
}

/// An edge can only lead to a local inside a bounded map.
proof fn lemma_edge_target_bounded(ty: Seq<Seq<TypeRelation>>, n: int, a: int, b: int)
    requires
        ty_bounded(ty, n),
        ty.len() <= n,
        ty_edge(ty, a, b),
    ensures
        0 <= b < n,
{
    let k = choose|k: int| 0 <= k < ty[a].len() && ty_follow_edge(#[trigger] ty[a][k], b);
    assert(tyrel_local(ty[a][k]) < n);
}

/// A single edge out of the start local witnesses membership in the
/// affected set.
proof fn lemma_affected_base(ty: Seq<Seq<TypeRelation>>, src: int, b: int)
    requires
        ty_edge(ty, src, b),
    ensures
        affected(ty, src, b),
{
    let p: Seq<int> = seq![src, b];
    assert(p.last() == b);
    assert forall|i: int| 0 <= i < p.len() - 1 implies ty_edge(ty, #[trigger] p[i], p[i + 1]) by {
        assert(p[0] == src && p[1] == b);
    }
    assert(is_ty_path(ty, p, src, b));
}

/// The affected set is closed under edges.
proof fn lemma_affected_step(ty: Seq<Seq<TypeRelation>>, src: int, a: int, b: int)
    requires
        affected(ty, src, a),
        ty_edge(ty, a, b),
    ensures
        affected(ty, src, b),
{
    let p = choose|p: Seq<int>| is_ty_path(ty, p, src, a);
    let q = p.push(b);
    assert(q.last() == b);
    assert(q[0] == src);
    assert forall|i: int| 0 <= i < q.len() - 1 implies ty_edge(ty, #[trigger] q[i], q[i + 1]) by {
        if i < p.len() - 1 {
            assert(q[i] == p[i] && q[i + 1] == p[i + 1]);
        } else {
            assert(q[i] == p.last() && q[i + 1] == b);
        }
    }
    assert(is_ty_path(ty, q, src, b));
}

/// A marking that contains every successor of the start local and of
/// every marked local contains the whole affected set.
proof fn lemma_closed_visited(
    ty: Seq<Seq<TypeRelation>>,
    visited: Seq<bool>,
    src: int,
    p: Seq<int>,
    dst: int,
)
    requires
        ty_bounded(ty, visited.len() as int),
        ty.len() == visited.len(),
        is_ty_path(ty, p, src, dst),
        forall|b: int| ty_edge(ty, src, b) ==> 0 <= b < visited.len() && visited[b],
        forall|a: int, b: int|
            0 <= a < visited.len() && visited[a] && #[trigger] ty_edge(ty, a, b) ==> 0 <= b
                < visited.len() && visited[b],
    ensures
        0 <= dst < visited.len() && visited[dst],
    decreases p.len(),
{
    if p.len() == 2 {
        assert(ty_edge(ty, p[0], p[1]));
    } else {
        let q = p.drop_last();
        let mid = q.last();
        assert forall|i: int| 0 <= i < q.len() - 1 implies ty_edge(ty, #[trigger] q[i], q[i
            + 1]) by {
            assert(q[i] == p[i] && q[i + 1] == p[i + 1]);
        }
        assert(is_ty_path(ty, q, src, mid));
        lemma_closed_visited(ty, visited, src, q, mid);
        assert(ty_edge(ty, p[p.len() - 2], p[p.len() - 1]));
        assert(p[p.len() - 2] == mid);
    }
}

/// The derived type-relation map of a well-formed relation list only
/// mentions locals of the function.
proof fn lemma_ty_of_bounded(rs: Seq<Relation>, n: nat)
    requires
        relations_wf(rs, n as int),
    ensures
        ty_of(rs, n).len() == n,
        ty_bounded(ty_of(rs, n), n as int),
    decreases rs.len(),
{
    if rs.len() == 0 {
    } else {
        let front = rs.drop_last();
        assert forall|k: int| 0 <= k < front.len() implies relation_wf(#[trigger] front[k], n as int) by {
            assert(front[k] == rs[k]);
        }
        lemma_ty_of_bounded(front, n);
        let ty = ty_of(front, n);
        let r = rs.last();
        assert(relation_wf(r, n as int));
        lemma_push_ty_bounded_all(ty, r, n as int);
    }
}

/// Folding one well-formed relation into a bounded map keeps it bounded.
proof fn lemma_push_ty_bounded_all(ty: Seq<Seq<TypeRelation>>, r: Relation, n: int)
    requires
        ty_bounded(ty, n),
        relation_wf(r, n),
    ensures
        relation_ty_updates(ty, r).len() == ty.len(),
        ty_bounded(relation_ty_updates(ty, r), n),
{
    match r {
        Relation::ImmutableBorrow { target, source, .. } => {
            lemma_push_ty_bounded(ty, target, TypeRelation::IsImmutableRefOf(source), n);
        },
        Relation::MutableBorrow { target, source, .. } => {
            lemma_push_ty_bounded(ty, target, TypeRelation::IsMutableRefOf(source), n);
        },
        Relation::CopyUse { source, target, .. } => {
            match target {
                Some(t) => {
                    lemma_push_ty_bounded(ty, t, TypeRelation::Equal(source), n);
                    lemma_push_ty_bounded(
                        push_ty_spec(ty, t, TypeRelation::Equal(source)),
                        source,
                        TypeRelation::Equal(t),
                        n,
                    );
                },
                None => {},
            }
        },
        Relation::MoveUse { source, target, .. } => {
            match target {
                Some(t) => {
                    lemma_push_ty_bounded(ty, t, TypeRelation::Equal(source), n);
                    lemma_push_ty_bounded(
                        push_ty_spec(ty, t, TypeRelation::Equal(source)),
                        source,
                        TypeRelation::Equal(t),
                        n,
                    );
                },
                None => {},
            }
        },
        Relation::CloneCall { source, destination, .. } => {
            lemma_push_ty_bounded(ty, source, TypeRelation::IsImmutableRefOf(destination), n);
        },
    }
}

proof fn lemma_push_ty_bounded(ty: Seq<Seq<TypeRelation>>, local: Local, rel: TypeRelation, n: int)
    requires
        ty_bounded(ty, n),
        tyrel_local(rel) < n,
    ensures
        push_ty_spec(ty, local, rel).len() == ty.len(),
        ty_bounded(push_ty_spec(ty, local, rel), n),
{
    let t2 = push_ty_spec(ty, local, rel);
    assert forall|a: int, k: int|
        0 <= a < t2.len() && 0 <= k < t2[a].len() implies tyrel_local(#[trigger] t2[a][k]) < n by {
        if a == local as int && k == t2[a].len() - 1 && t2[a].len() == ty[a].len() + 1 {
        } else {
            assert(t2[a][k] == ty[a][k]);
        }
    }
}

/// How many entries of the marking are still unset.
pub open spec fn count_false(s: Seq<bool>) -> nat
    decreases s.len(),
{
    if s.len() == 0 {
        0
    } else {
        count_false(s.drop_last()) + if s.last() {
            0nat
        } else {
            1nat
        }
    }
}

proof fn lemma_count_false_update(s: Seq<bool>, i: int)
    requires
        0 <= i < s.len(),
        !s[i],
    ensures
        count_false(s.update(i, true)) + 1 == count_false(s),
    decreases s.len(),
{
    let t = s.update(i, true);
    if i == s.len() - 1 {
        assert(t.drop_last() =~= s.drop_last());
    } else {
        assert(t.drop_last() =~= s.drop_last().update(i, true));
        lemma_count_false_update(s.drop_last(), i);
        assert(t.last() == s.last());
    }
}

/// `a` still waits in the worklist.
pub open spec fn in_work(w: Seq<Local>, a: int) -> bool {
    exists|m: int| 0 <= m < w.len() && w[m] == a
}

/// Every local in the affected list lies inside the locals table.
proof fn lemma_affected_upto_bounds(ty: Seq<Seq<TypeRelation>>, src: int, n: int)
    ensures
        forall|k: int|
            0 <= k < affected_upto(ty, src, n).len() ==> (#[trigger] affected_upto(
                ty,
                src,
                n,
            )[k] as int) < n,
    decreases n,
{
    if n <= 0 {
    } else {
        lemma_affected_upto_bounds(ty, src, n - 1);
        let front = affected_upto(ty, src, n - 1);
        let r = affected_upto(ty, src, n);
        assert forall|k: int| 0 <= k < r.len() implies (#[trigger] r[k] as int) < n by {
            if k < front.len() {
                assert(r[k] == front[k]);
            } else {
                assert(r[k] == (n - 1) as Local);
            }
        }
    }
}

/// Membership in the affected list coincides with membership in the
/// affected set.
proof fn lemma_affected_upto_contains(ty: Seq<Seq<TypeRelation>>, src: int, n: int, p: Local)
    requires
        n <= u32::MAX,
    ensures
        affected_upto(ty, src, n).contains(p) <==> ((p as int) < n && affected(ty, src, p as int)),
    decreases n,
{
    if n <= 0 {
    } else {
        lemma_affected_upto_contains(ty, src, n - 1, p);
        let front = affected_upto(ty, src, n - 1);
        let r = affected_upto(ty, src, n);
        if (p as int) < n && affected(ty, src, p as int) {
            if (p as int) < n - 1 {
                let k = choose|k: int| 0 <= k < front.len() && front[k] == p;
                assert(r[k] == p);
            } else {
                assert(r[r.len() - 1] == p);
            }
            assert(r.contains(p));
        }
        if r.contains(p) {
            let k = choose|k: int| 0 <= k < r.len() && r[k] == p;
            if k < front.len() {
                assert(front[k] == p);
                assert(front.contains(p));
            } else {
                assert(r[k] == (n - 1) as Local);
                assert(affected(ty, src, n - 1));
            }
        }
    }
}

/// A member of the affected set is a local of the function.
proof fn lemma_affected_bounded(ty: Seq<Seq<TypeRelation>>, n: int, src: int, b: int)
    requires
        ty_bounded(ty, n),
        ty.len() <= n,
        affected(ty, src, b),
    ensures
        0 <= b < n,
{
    let p = choose|p: Seq<int>| is_ty_path(ty, p, src, b);
    assert(ty_edge(ty, p[p.len() - 2], p[p.len() - 1]));
    lemma_edge_target_bounded(ty, n, p[p.len() - 2], b);
}

/// Field access into a clone relation (arbitrary on other relations).
pub open spec fn clone_source(r: Relation) -> Local {
    match r {
        Relation::CloneCall { source, .. } => source,
        _ => 0,
    }
}

pub open spec fn clone_destination(r: Relation) -> Local {
    match r {
        Relation::CloneCall { destination, .. } => destination,
        _ => 0,
    }
}

pub open spec fn clone_call_span(r: Relation) -> Range {
    match r {
        Relation::CloneCall { call_span, .. } => call_span,
        _ => Range { lo: 0, hi: 0 },
    }
}

pub open spec fn clone_arg_span(r: Relation) -> Range {
    match r {
        Relation::CloneCall { arg_span, .. } => arg_span,
        _ => Range { lo: 0, hi: 0 },
    }
}

pub open spec fn is_clone_rel(r: Relation) -> bool {
    r matches Relation::CloneCall { .. }
}

/// In a rewrite restricted to one formal parameter, only the clones tied
/// to that parameter's local are considered: the parameter must be the
/// clone's source or belong to its affected-locals set.
pub open spec fn restrict_ok(
    ty: Seq<Seq<TypeRelation>>,
    r: Relation,
    restrict: Option<Local>,
) -> bool {
    match restrict {
        None => true,
        Some(p) => p == clone_source(r) || affected(ty, clone_source(r) as int, p as int),
    }
}

/// A clone relation may be eliminated exactly when neither its source
/// nor its destination local is ever the borrowed side of a mutable
/// borrow anywhere in the function (and, in restricted mode, the clone
/// is tied to the chosen parameter).  No other relation kind
/// disqualifies a candidate.
pub open spec fn eliminable(
    rels: Seq<Relation>,
    ty: Seq<Seq<TypeRelation>>,
    r: Relation,
    restrict: Option<Local>,
) -> bool {
    &&& is_clone_rel(r)
    &&& !mut_borrowed(rels, clone_source(r))
    &&& !mut_borrowed(rels, clone_destination(r))
    &&& restrict_ok(ty, r, restrict)
}

/// The eliminable clones among the first `i` relations, in discovery
/// order.
pub open spec fn eligible_upto(
    rels: Seq<Relation>,
    ty: Seq<Seq<TypeRelation>>,
    restrict: Option<Local>,
    i: int,
) -> Seq<Relation>
    decreases i,
{
    if i <= 0 {
        Seq::empty()
    } else {
        eligible_upto(rels, ty, restrict, i - 1) + if eliminable(rels, ty, rels[i - 1], restrict) {
            seq![rels[i - 1]]
        } else {
            Seq::empty()
        }
    }
}

/// The elimination candidate list: the eliminable clone relations, in
/// the order the analysis pass recorded them.
pub open spec fn eligible_clones(
    rels: Seq<Relation>,
    ty: Seq<Seq<TypeRelation>>,
    restrict: Option<Local>,
) -> Seq<Relation> {
    eligible_upto(rels, ty, restrict, rels.len() as int)
}

/// Every selected candidate passed the eligibility test.
proof fn lemma_eligible_upto_elems(
    rels: Seq<Relation>,
    ty: Seq<Seq<TypeRelation>>,
    restrict: Option<Local>,
    i: int,
)
    ensures
        forall|j: int|
            0 <= j < eligible_upto(rels, ty, restrict, i).len() ==> eliminable(
                rels,
                ty,
                #[trigger] eligible_upto(rels, ty, restrict, i)[j],
                restrict,
            ),
    decreases i,
{
    if i <= 0 {
    } else {
        lemma_eligible_upto_elems(rels, ty, restrict, i - 1);
        let front = eligible_upto(rels, ty, restrict, i - 1);
        let r = eligible_upto(rels, ty, restrict, i);
        assert forall|j: int| 0 <= j < r.len() implies eliminable(
            rels,
            ty,
            #[trigger] r[j],
            restrict,
        ) by {
            if j < front.len() {
                assert(r[j] == front[j]);
            } else {
                assert(eliminable(rels, ty, rels[i - 1], restrict));
                assert(r[j] == rels[i - 1]);
            }
        }
    }
}

/// Eligibility correctness: a clone is selected for elimination only if
/// it is a clone relation, neither its source nor its destination local
/// is ever the borrowed side of a mutable borrow anywhere in the
/// function, and — in restricted mode — it is tied to the chosen
/// parameter.  No other relation kind disqualifies a candidate.
pub proof fn lemma_eligibility_correct(
    rels: Seq<Relation>,
    ty: Seq<Seq<TypeRelation>>,
    restrict: Option<Local>,
)
    ensures
        forall|j: int|
            0 <= j < eligible_clones(rels, ty, restrict).len() ==> eliminable(
                rels,
                ty,
                #[trigger] eligible_clones(rels, ty, restrict)[j],
                restrict,
            ),
{
    lemma_eligible_upto_elems(rels, ty, restrict, rels.len() as int);
}

proof fn lemma_eligible_upto_no_clones(
    rels: Seq<Relation>,
    ty: Seq<Seq<TypeRelation>>,
    restrict: Option<Local>,
    i: int,
)
    requires
        forall|k: int| 0 <= k < rels.len() ==> !is_clone_rel(#[trigger] rels[k]),
        i <= rels.len(),
    ensures
        eligible_upto(rels, ty, restrict, i).len() == 0,
    decreases i,
{
    if i <= 0 {
    } else {
        lemma_eligible_upto_no_clones(rels, ty, restrict, i - 1);
    }
}

/// A relation list holding no clone relation — the shape the analysis
/// sees on a text whose clones were already eliminated — offers no
/// elimination candidate.
pub proof fn lemma_no_clones_no_candidates(
    rels: Seq<Relation>,
    ty: Seq<Seq<TypeRelation>>,
    restrict: Option<Local>,
)
    requires
        forall|k: int| 0 <= k < rels.len() ==> !is_clone_rel(#[trigger] rels[k]),
    ensures
        eligible_clones(rels, ty, restrict).len() == 0,
{
    lemma_eligible_upto_no_clones(rels, ty, restrict, rels.len() as int);
}

/// An edit that deletes the byte range `[from, until)`.
pub open spec fn deletion(from: u32, until: u32) -> EditV {
    EditV { from, until, text: Seq::empty() }
}

/// The edits that strip the clone call syntax while keeping the operand:
/// in receiver-call form (the call span starts before the argument) the
/// gaps on both sides of the argument go; in free-function form only the
/// gap after the argument goes.
pub open spec fn removal_edits(r: Relation) -> Seq<EditV> {
    let c = clone_call_span(r);
    let a = clone_arg_span(r);
    if c.lo < a.lo {
        seq![deletion(c.lo, a.lo), deletion(a.hi, c.hi)]
    } else {
        seq![deletion(a.hi, c.hi)]
    }
}

/// The letters naming annotation ordinal `o`: successive lower-case
/// letters starting at `a`, continued as multi-letter names once the
/// alphabet is exhausted.
pub open spec fn letters(o: nat) -> Seq<u8>
    decreases o,
{
    if o < 26 {
        seq![(97 + o) as u8]
    } else {
        letters((o / 26 - 1) as nat) + seq![(97 + o % 26) as u8]
    }
}

/// The reference prefix inserted before an affected declaration's type:
/// an ampersand, the apostrophe-prefixed annotation name, and a space.
pub open spec fn ann_prefix(o: usize) -> Seq<u8> {
    seq![38u8, 39u8] + letters(o as nat) + seq![32u8]
}

/// Rewrite every entry currently holding ordinal `cur` to ordinal `tgt`:
/// the equivalence-class union performed when a later elimination
/// reaches a local that already carries an annotation.
pub open spec fn unify_annotations(
    aff: Seq<Option<usize>>,
    cur: usize,
    tgt: usize,
) -> Seq<Option<usize>> {
    Seq::new(aff.len(), |l: int| if aff[l] == Some(cur) { Some(tgt) } else { aff[l] })
}

/// Process one affected local: a local already annotated wins, and its
/// annotation is adopted for the rest of the iteration; otherwise the
/// current ordinal is recorded against the local.
pub open spec fn assign_step(aff: Seq<Option<usize>>, l: Local, cur: usize) -> (
    Seq<Option<usize>>,
    usize,
) {
    match aff[l as int] {
        Some(a) => (unify_annotations(aff, cur, a), a),
        None => (aff.update(l as int, Some(cur)), cur),
    }
}

/// Process the first `k` locals of one candidate's affected list,
/// threading the annotation map and the current ordinal.
pub open spec fn assign_locals(
    aff: Seq<Option<usize>>,
    locals: Seq<Local>,
    cur: usize,
    k: int,
) -> (Seq<Option<usize>>, usize)
    decreases k,
{
    if k <= 0 {
        (aff, cur)
    } else {
        let prev = assign_locals(aff, locals, cur, k - 1);
        assign_step(prev.0, locals[k - 1], prev.1)
    }
}

/// Process the first `k` elimination candidates in encounter order: emit
/// the clone-removal edits and fold each candidate's affected-locals set
/// into the annotation map, allocating ordinal `j` to candidate `j`.
pub open spec fn process_clones(
    cs: Seq<Relation>,
    ty: Seq<Seq<TypeRelation>>,
    n: nat,
    k: int,
) -> (Seq<EditV>, Seq<Option<usize>>)
    decreases k,
{
    if k <= 0 {
        (Seq::empty(), Seq::new(n, |l: int| None))
    } else {
        let prev = process_clones(cs, ty, n, k - 1);
        let c = cs[k - 1];
        let locs = affected_upto(ty, clone_source(c) as int, n as int);
        let assigned = assign_locals(prev.1, locs, (k - 1) as usize, locs.len() as int);
        (prev.0 + removal_edits(c), assigned.0)
    }
}

/// The declaration offers a place to anchor an annotation: an explicit
/// type span, or a non-empty declaration range.
pub open spec fn decl_has_site(d: LocalDecl) -> bool {
    d.ty_span is Some || d.decl_span.lo != d.decl_span.hi
}

/// Where the reference prefix goes: immediately before the explicit type
/// span when there is one, at the start of the declaration range
/// otherwise.
pub open spec fn decl_site(d: LocalDecl) -> u32 {
    match d.ty_span {
        Some(ts) => ts.lo,
        None => d.decl_span.lo,
    }
}

/// The edit annotating one declaration; a declaration with no insertion
/// site is left unannotated.
pub open spec fn decl_edit(d: LocalDecl, o: usize) -> Seq<EditV> {
    if decl_has_site(d) {
        seq![EditV { from: decl_site(d), until: decl_site(d), text: ann_prefix(o) }]
    } else {
        Seq::empty()
    }
}

/// The annotation edits for the first `l` locals, in ascending local
/// order.
pub open spec fn decl_edits_upto(
    aff: Seq<Option<usize>>,
    decls: Seq<LocalDecl>,
    l: int,
) -> Seq<EditV>
    decreases l,
{
    if l <= 0 {
        Seq::empty()
    } else {
        decl_edits_upto(aff, decls, l - 1) + match aff[l - 1] {
            Some(o) => decl_edit(decls[l - 1], o),
            None => Seq::empty(),
        }
    }
}

/// Ordinal `o` was actually inserted at some declaration.
pub open spec fn ann_used(aff: Seq<Option<usize>>, decls: Seq<LocalDecl>, o: usize) -> bool {
    exists|l: int| 0 <= l < aff.len() && aff[l] == Some(o) && decl_has_site(decls[l])
}

/// The new lifetime parameter names, ascending by ordinal, each written
/// as an apostrophe-prefixed name followed by a comma.
pub open spec fn ann_names_upto(aff: Seq<Option<usize>>, decls: Seq<LocalDecl>, o: int) -> Seq<u8>
    decreases o,
{
    if o <= 0 {
        Seq::empty()
    } else {
        ann_names_upto(aff, decls, o - 1) + if ann_used(aff, decls, (o - 1) as usize) {
            seq![39u8] + letters((o - 1) as nat) + seq![44u8]
        } else {
            Seq::empty()
        }
    }
}

pub open spec fn any_ann_used(aff: Seq<Option<usize>>, decls: Seq<LocalDecl>, count: int) -> bool {
    exists|o: int| 0 <= o < count && #[trigger] ann_used(aff, decls, o as usize)
}

/// The edit extending the function's generic-parameter list with the new
/// lifetime names: just before the closing delimiter of a non-empty
/// list, or a full bracketed list at the position of an empty one.
pub open spec fn generics_edits(
    aff: Seq<Option<usize>>,
    decls: Seq<LocalDecl>,
    count: int,
    gspan: Range,
) -> Seq<EditV> {
    if any_ann_used(aff, decls, count) {
        let names = ann_names_upto(aff, decls, count);
        if gspan.lo < gspan.hi {
            seq![
                EditV {
                    from: (gspan.hi - 1) as u32,
                    until: (gspan.hi - 1) as u32,
                    text: seq![44u8] + names,
                },
            ]
        } else {
            seq![EditV { from: gspan.hi, until: gspan.hi, text: seq![60u8] + names + seq![62u8] }]
        }
    } else {
        Seq::empty()
    }
}

proof fn lemma_decl_edits_none(aff: Seq<Option<usize>>, decls: Seq<LocalDecl>, l: int)
    requires
        forall|m: int| 0 <= m < aff.len() ==> (#[trigger] aff[m]) is None,
        l <= aff.len(),
    ensures
        decl_edits_upto(aff, decls, l) == Seq::<EditV>::empty(),
    decreases l,
{
    if l <= 0 {
    } else {
        lemma_decl_edits_none(aff, decls, l - 1);
        assert(aff[l - 1] is None);
        assert(decl_edits_upto(aff, decls, l) =~= Seq::<EditV>::empty());
    }
}

/// A pass that selects no elimination candidate emits no edit at all:
/// no clone is stripped, no declaration annotated, and the
/// generic-parameter list is left alone.
pub proof fn lemma_elim_spec_empty(
    rels: Seq<Relation>,
    ty: Seq<Seq<TypeRelation>>,
    decls: Seq<LocalDecl>,
    gspan: Range,
    restrict: Option<Local>,
    n: nat,
)
    requires
        eligible_clones(rels, ty, restrict).len() == 0,
        decls.len() == n,
    ensures
        elim_spec(rels, ty, decls, gspan, restrict, n) == Seq::<EditV>::empty(),
{
    let cs = eligible_clones(rels, ty, restrict);
    let pc = process_clones(cs, ty, n, cs.len() as int);
    assert(pc.0 =~= Seq::<EditV>::empty());
    assert(pc.1 =~= Seq::new(n, |l: int| None::<usize>));
    lemma_decl_edits_none(pc.1, decls, n as int);
    assert(!any_ann_used(pc.1, decls, cs.len() as int));
    assert(elim_spec(rels, ty, decls, gspan, restrict, n) =~= Seq::<EditV>::empty());
}

/// The annotation map always spans all locals.
proof fn lemma_assign_len(aff: Seq<Option<usize>>, locals: Seq<Local>, cur: usize, k: int)
    requires
        k <= locals.len(),
        forall|m: int| 0 <= m < locals.len() ==> ((#[trigger] locals[m]) as int) < aff.len(),
    ensures
        assign_locals(aff, locals, cur, k).0.len() == aff.len(),
    decreases k,
{
    if k <= 0 {
    } else {
        lemma_assign_len(aff, locals, cur, k - 1);
        let prev = assign_locals(aff, locals, cur, k - 1);
        match prev.0[locals[k - 1] as int] {
            Some(a) => {
                assert(unify_annotations(prev.0, prev.1, a).len() == prev.0.len());
            },
            None => {},
        }
    }
}

proof fn lemma_process_len(cs: Seq<Relation>, ty: Seq<Seq<TypeRelation>>, n: nat, k: int)
    ensures
        process_clones(cs, ty, n, k).1.len() == n,
    decreases k,
{
    if k <= 0 {
    } else {
        lemma_process_len(cs, ty, n, k - 1);
        let prev = process_clones(cs, ty, n, k - 1);
        let locs = affected_upto(ty, clone_source(cs[k - 1]) as int, n as int);
        lemma_affected_upto_bounds(ty, clone_source(cs[k - 1]) as int, n as int);
        lemma_assign_len(prev.1, locs, (k - 1) as usize, locs.len() as int);
    }
}

/// After one candidate's affected list is folded in, every local of the
/// list carries the one ordinal the fold ended with.
proof fn lemma_assign_unifies(aff: Seq<Option<usize>>, locals: Seq<Local>, cur: usize, k: int)
    requires
        0 <= k <= locals.len(),
        forall|m: int| 0 <= m < locals.len() ==> ((#[trigger] locals[m]) as int) < aff.len(),
    ensures
        forall|m: int|
            0 <= m < k ==> assign_locals(aff, locals, cur, k).0[(#[trigger] locals[m]) as int]
                == Some(assign_locals(aff, locals, cur, k).1),
    decreases k,
{
    if k <= 0 {
    } else {
        lemma_assign_unifies(aff, locals, cur, k - 1);
        lemma_assign_len(aff, locals, cur, k - 1);
        let prev = assign_locals(aff, locals, cur, k - 1);
        let l = locals[k - 1];
        let res = assign_step(prev.0, l, prev.1);
        match prev.0[l as int] {
            Some(a) => {
                assert forall|m: int| 0 <= m < k implies res.0[(#[trigger] locals[m]) as int]
                    == Some(res.1) by {
                    if m < k - 1 {
                        assert(prev.0[locals[m] as int] == Some(prev.1));
                    } else {
                        assert(prev.0[l as int] == Some(a));
                    }
                }
            },
            None => {
                assert forall|m: int| 0 <= m < k implies res.0[(#[trigger] locals[m]) as int]
                    == Some(res.1) by {
                    if m < k - 1 {
                        assert(prev.0[locals[m] as int] == Some(prev.1));
                        assert(locals[m] != l);
                    }
                }
            },
        }
    }
}

/// Folding further affected lists preserves an established equality of
/// two assigned entries.
proof fn lemma_assign_preserves(
    aff: Seq<Option<usize>>,
    locals: Seq<Local>,
    cur: usize,
    k: int,
    la: int,
    lb: int,
)
    requires
        0 <= k <= locals.len(),
        0 <= la < aff.len(),
        0 <= lb < aff.len(),
        forall|m: int| 0 <= m < locals.len() ==> ((#[trigger] locals[m]) as int) < aff.len(),
        aff[la] is Some,
        aff[la] == aff[lb],
    ensures
        assign_locals(aff, locals, cur, k).0[la] is Some,
        assign_locals(aff, locals, cur, k).0[la] == assign_locals(aff, locals, cur, k).0[lb],
    decreases k,
{
    if k <= 0 {
    } else {
        lemma_assign_preserves(aff, locals, cur, k - 1, la, lb);
        lemma_assign_len(aff, locals, cur, k - 1);
        let prev = assign_locals(aff, locals, cur, k - 1);
        let l = locals[k - 1];
        match prev.0[l as int] {
            Some(a) => {},
            None => {
                assert(l as int != la && l as int != lb);
            },
        }
    }
}

/// All entries of the map at the locals of `locs` agree and are
/// assigned.
pub open spec fn uniform_on(fin: Seq<Option<usize>>, locs: Seq<Local>) -> bool {
    forall|a: int, b: int|
        #![trigger locs[a], locs[b]]
        0 <= a < locs.len() && 0 <= b < locs.len() ==> fin[locs[a] as int] == fin[locs[b] as int]
            && fin[locs[a] as int] is Some
}

/// Every entry the fold of one candidate's affected list leaves in the
/// map stays coherent through all later candidates.
proof fn lemma_process_uniform(cs: Seq<Relation>, ty: Seq<Seq<TypeRelation>>, n: nat, j: int, k: int)
    requires
        0 <= j < k <= cs.len(),
    ensures
        uniform_on(
            process_clones(cs, ty, n, k).1,
            affected_upto(ty, clone_source(cs[j]) as int, n as int),
        ),
    decreases k,
{
    let locs = affected_upto(ty, clone_source(cs[j]) as int, n as int);
    lemma_affected_upto_bounds(ty, clone_source(cs[j]) as int, n as int);
    lemma_process_len(cs, ty, n, j);
    let prev = process_clones(cs, ty, n, j);
    if k == j + 1 {
        lemma_assign_unifies(prev.1, locs, j as usize, locs.len() as int);
    } else {
        lemma_process_uniform(cs, ty, n, j, k - 1);
        lemma_process_len(cs, ty, n, k - 1);
        let mid = process_clones(cs, ty, n, k - 1);
        let locs2 = affected_upto(ty, clone_source(cs[k - 1]) as int, n as int);
        lemma_affected_upto_bounds(ty, clone_source(cs[k - 1]) as int, n as int);
        let fin = process_clones(cs, ty, n, k).1;
        assert forall|a: int, b: int|
            #![trigger locs[a], locs[b]]
            0 <= a < locs.len() && 0 <= b < locs.len() implies fin[locs[a] as int] == fin[locs[b]
            as int] && fin[locs[a] as int] is Some by {
            assert(mid.1[locs[a] as int] == mid.1[locs[b] as int] && mid.1[locs[a] as int]
                is Some);
            lemma_assign_preserves(
                mid.1,
                locs2,
                (k - 1) as usize,
                locs2.len() as int,
                locs[a] as int,
                locs[b] as int,
            );
        }
    }
}

/// Every local of `locs` carries exactly the annotation that local `l`
/// carries.
pub open spec fn all_assigned_to(fin: Seq<Option<usize>>, locs: Seq<Local>, l: Local) -> bool {
    forall|m: int| 0 <= m < locs.len() ==> fin[(#[trigger] locs[m]) as int] == fin[l as int]
}

/// Annotation unification: when two eliminated clones both affect the
/// same local, exactly one annotation identifier is applied to that
/// local's declaration, and the affected-locals sets of both clones end
/// up under that same single identifier, not two.
pub proof fn lemma_annotation_unification(
    cs: Seq<Relation>,
    ty: Seq<Seq<TypeRelation>>,
    n: nat,
    j1: int,
    j2: int,
    l: Local,
)
    requires
        0 <= j1 < cs.len(),
        0 <= j2 < cs.len(),
        affected_upto(ty, clone_source(cs[j1]) as int, n as int).contains(l),
        affected_upto(ty, clone_source(cs[j2]) as int, n as int).contains(l),
    ensures
        process_clones(cs, ty, n, cs.len() as int).1[l as int] is Some,
        all_assigned_to(
            process_clones(cs, ty, n, cs.len() as int).1,
            affected_upto(ty, clone_source(cs[j1]) as int, n as int),
            l,
        ),
        all_assigned_to(
            process_clones(cs, ty, n, cs.len() as int).1,
            affected_upto(ty, clone_source(cs[j2]) as int, n as int),
            l,
        ),
{
    let locs1 = affected_upto(ty, clone_source(cs[j1]) as int, n as int);
    let locs2 = affected_upto(ty, clone_source(cs[j2]) as int, n as int);
    let fin = process_clones(cs, ty, n, cs.len() as int).1;
    lemma_process_uniform(cs, ty, n, j1, cs.len() as int);
    lemma_process_uniform(cs, ty, n, j2, cs.len() as int);
    let i1 = choose|i1: int| 0 <= i1 < locs1.len() && locs1[i1] == l;
    let i2 = choose|i2: int| 0 <= i2 < locs2.len() && locs2[i2] == l;
    assert(fin[locs1[i1] as int] is Some);
    assert forall|m: int| 0 <= m < locs1.len() implies fin[(#[trigger] locs1[m]) as int] == fin[l as int] by {
        assert(fin[locs1[m] as int] == fin[locs1[i1] as int]);
    }
    assert forall|m: int| 0 <= m < locs2.len() implies fin[(#[trigger] locs2[m]) as int] == fin[l as int] by {
        assert(fin[locs2[m] as int] == fin[locs2[i2] as int]);
    }
}

/// Everything the annotation allocator and rewrite emitter produce for
/// one pass: the clone-removal edits of the eligible candidates in
/// encounter order, then one annotation edit per affected declaration in
/// ascending local order, then the generic-parameter-list edit if any
/// annotation was inserted.
pub open spec fn elim_spec(
    rels: Seq<Relation>,
    ty: Seq<Seq<TypeRelation>>,
    decls: Seq<LocalDecl>,
    gspan: Range,
    restrict: Option<Local>,
    n: nat,
) -> Seq<EditV> {
    let cs = eligible_clones(rels, ty, restrict);
    let pc = process_clones(cs, ty, n, cs.len() as int);
    pc.0 + decl_edits_upto(pc.1, decls, n as int) + generics_edits(
        pc.1,
        decls,
        cs.len() as int,
        gspan,
    )
}

/// The relation graph over the locals of one function body.
pub struct Graph {
    /// How many locals the function declares.
    pub n_locals: usize,
    /// Every relation discovered so far, in discovery order.
    pub relations: Vec<Relation>,
    /// The type-relation map derived from `relations`, indexed by local.
    pub ty: Vec<Vec<TypeRelation>>,
}

impl Graph {
    /// The derived map always reflects exactly the recorded relations.
    pub open spec fn wf(self) -> bool {
        &&& self.n_locals <= u32::MAX
        &&& self.ty@.len() == self.n_locals
        &&& relations_wf(self.relations@, self.n_locals as int)
        &&& ty_view(self.ty@) == ty_of(self.relations@, self.n_locals as nat)
    }

    /// An empty graph over `n_locals` locals.
    pub fn new(n_locals: usize) -> (g: Graph)
        requires
            n_locals <= u32::MAX,
        ensures
            g.wf(),
            g.n_locals == n_locals,
            g.relations@ == Seq::<Relation>::empty(),
    {
        let mut ty: Vec<Vec<TypeRelation>> = Vec::new();
        let mut i: usize = 0;
        while i < n_locals
            invariant
                i <= n_locals,
                ty@.len() == i,
                forall|m: int| 0 <= m < i ==> (#[trigger] ty@[m])@ == Seq::<TypeRelation>::empty(),
            decreases n_locals - i,
        {
            ty.push(Vec::new());
            i = i + 1;
        }
        let g = Graph { n_locals, relations: Vec::new(), ty };
        proof {
            assert(ty_view(g.ty@) =~= ty_of(g.relations@, n_locals as nat));
        }
        g
    }

    fn push_ty(&mut self, local: Local, rel: TypeRelation)
        requires
            (local as int) < old(self).ty@.len(),
        ensures
            final(self).n_locals == old(self).n_locals,
            final(self).relations == old(self).relations,
            final(self).ty@.len() == old(self).ty@.len(),
            ty_view(final(self).ty@) == push_ty_spec(ty_view(old(self).ty@), local, rel),
    {
        let ghost before = ty_view(self.ty@);
        let idx = local as usize;
        if !contains_tyrel(&self.ty[idx], rel) {
            self.ty[idx].push(rel);
            proof {
                assert(ty_view(self.ty@) =~= before.update(
                    local as int,
                    before[local as int].push(rel),
                ));
            }
        } else {
            proof {
                assert(ty_view(self.ty@) =~= before);
            }
        }
    }

    /// Record one relation: append it to the relation list and fold its
    /// contribution into the type-relation map.
    pub fn push(&mut self, rel: Relation)
        requires
            old(self).wf(),
            relation_wf(rel, old(self).n_locals as int),
        ensures
            final(self).wf(),
            final(self).n_locals == old(self).n_locals,
            final(self).relations@ == old(self).relations@.push(rel),
    {
        match rel {
            Relation::ImmutableBorrow { target, source, .. } => {
                self.push_ty(target, TypeRelation::IsImmutableRefOf(source));
            },
            Relation::MutableBorrow { target, source, .. } => {
                self.push_ty(target, TypeRelation::IsMutableRefOf(source));
            },
            Relation::CopyUse { source, target, .. } => {
                match target {
                    Some(t) => {
                        self.push_ty(t, TypeRelation::Equal(source));
                        self.push_ty(source, TypeRelation::Equal(t));
                    },
                    None => {},
                }
            },
            Relation::MoveUse { source, target, .. } => {
                match target {
                    Some(t) => {
                        self.push_ty(t, TypeRelation::Equal(source));
                        self.push_ty(source, TypeRelation::Equal(t));
                    },
                    None => {},
                }
            },
            Relation::CloneCall { source, destination, .. } => {
                self.push_ty(source, TypeRelation::IsImmutableRefOf(destination));
            },
        }
        self.relations.push(rel);
        proof {
            assert(self.relations@.drop_last() =~= old(self).relations@);
            assert(self.relations@.last() == rel);
            assert(ty_view(self.ty@) == ty_of(self.relations@, self.n_locals as nat));
        }
    }

    /// The list of locals whose declared types must also become
    /// references when `local`'s declared type does: the transitive
    /// closure of `local` under type-equality and immutable-reference
    /// edges, computed by a worklist traversal with a visited-set guard
    /// and returned in ascending order.
    pub fn list_affected_local(&self, local: Local) -> (res: Vec<Local>)
        requires
            self.wf(),
            (local as int) < self.n_locals as int,
        ensures
            res@ == affected_seq(ty_view(self.ty@), local as int),
    {
        let ghost tyv = ty_view(self.ty@);
        let n: usize = self.ty.len();
        proof {
            lemma_ty_of_bounded(self.relations@, self.n_locals as nat);
        }
        let mut visited: Vec<bool> = Vec::new();
        let mut i: usize = 0;
        while i < n
            invariant
                i <= n,
                visited@.len() == i,
                forall|m: int| 0 <= m < i ==> !(#[trigger] visited@[m]),
            decreases n - i,
        {
            visited.push(false);
            i = i + 1;
        }
        let mut work: Vec<Local> = Vec::new();
        work.push(local);
        proof {
            assert(work@[0] == local);
            assert forall|a: int, b: int|
                0 <= a < n && (visited@[a] || a == local as int) && !in_work(work@, a)
                    && #[trigger] ty_edge(tyv, a, b) implies visited@[b] by {
                if a == local as int {
                    assert(in_work(work@, a));
                } else {
                    assert(!visited@[a]);
                }
            }
        }
        while work.len() > 0
            invariant
                self.wf(),
                tyv == ty_view(self.ty@),
                tyv.len() == n,
                (local as int) < n,
                ty_bounded(tyv, n as int),
                visited@.len() == n,
                forall|m: int|
                    0 <= m < work@.len() ==> (#[trigger] work@[m]) == local || ((work@[m] as int)
                        < n && visited@[work@[m] as int] && affected(tyv, local as int, work@[m] as int)),
                forall|b: int| 0 <= b < n && #[trigger] visited@[b] ==> affected(tyv, local as int, b),
                forall|a: int, b: int|
                    0 <= a < n && (visited@[a] || a == local as int) && !in_work(work@, a)
                        && #[trigger] ty_edge(tyv, a, b) ==> visited@[b],
            decreases count_false(visited@) + work@.len(),
        {
            let ghost work_before = work@;
            let popped = work.pop();
            let a: Local = match popped {
                Some(x) => x,
                None => local,
            };
            let ghost measure_now = count_false(visited@) + work@.len();
            proof {
                assert(work_before.drop_last() =~= work@);
                assert(a == work_before[work_before.len() - 1]);
                assert forall|a2: int|
                    a2 != a as int && !in_work(work@, a2) implies !in_work(work_before, a2) by {
                    if in_work(work_before, a2) {
                        let m = choose|m: int|
                            0 <= m < work_before.len() && work_before[m] == a2;
                        assert(m < work_before.len() - 1);
                        assert(work@[m] == a2);
                    }
                }
            }
            let row = &self.ty[a as usize];
            let mut k: usize = 0;
            while k < row.len()
                invariant
                    self.wf(),
                    tyv == ty_view(self.ty@),
                    tyv.len() == n,
                    (local as int) < n,
                    (a as int) < n,
                    ty_bounded(tyv, n as int),
                    visited@.len() == n,
                    k <= row@.len(),
                    row@ == tyv[a as int],
                    a == local || affected(tyv, local as int, a as int),
                    count_false(visited@) + work@.len() == measure_now,
                    forall|m: int|
                        0 <= m < work@.len() ==> (#[trigger] work@[m]) == local || ((work@[m] as int)
                            < n && visited@[work@[m] as int] && affected(
                            tyv,
                            local as int,
                            work@[m] as int,
                        )),
                    forall|b: int|
                        0 <= b < n && #[trigger] visited@[b] ==> affected(tyv, local as int, b),
                    forall|a2: int, b: int|
                        0 <= a2 < n && a2 != a as int && (visited@[a2] || a2 == local as int)
                            && !in_work(work@, a2) && #[trigger] ty_edge(tyv, a2, b) ==> visited@[b],
                    forall|b: int, k2: int|
                        0 <= k2 < k && #[trigger] ty_follow_edge(row@[k2], b) ==> 0 <= b < n
                            && visited@[b],
                decreases row@.len() - k,
            {
                let step: Option<Local> = match row[k] {
                    TypeRelation::Equal(l) => Some(l),
                    TypeRelation::IsImmutableRefOf(l) => Some(l),
                    TypeRelation::IsMutableRefOf(_) => None,
                    TypeRelation::DerefOf(_) => None,
                };
                match step {
                    Some(l) => {
                        proof {
                            assert(ty_follow_edge(tyv[a as int][k as int], l as int));
                            assert(ty_edge(tyv, a as int, l as int));
                            lemma_edge_target_bounded(tyv, n as int, a as int, l as int);
                            if a == local {
                                lemma_affected_base(tyv, local as int, l as int);
                            } else {
                                lemma_affected_step(tyv, local as int, a as int, l as int);
                            }
                        }
                        if !visited[l as usize] {
                            let ghost vis_before = visited@;
                            let ghost work_mid = work@;
                            visited[l as usize] = true;
                            work.push(l);
                            proof {
                                lemma_count_false_update(vis_before, l as int);
                                assert forall|a2: int, b: int|
                                    0 <= a2 < n && a2 != a as int && (visited@[a2] || a2
                                        == local as int) && !in_work(work@, a2) && #[trigger] ty_edge(
                                        tyv,
                                        a2,
                                        b,
                                    ) implies visited@[b] by {
                                    if in_work(work_mid, a2) {
                                        let m = choose|m: int|
                                            0 <= m < work_mid.len() && work_mid[m] == a2;
                                        assert(work@[m] == a2);
                                        assert(false);
                                    }
                                    if a2 == l as int {
                                        assert(work@[work_mid.len() as int] == l);
                                        assert(in_work(work@, a2));
                                        assert(false);
                                    }
                                    assert(vis_before[a2] || a2 == local as int);
                                }
                            }
                        }
                    },
                    None => {},
                }
                k = k + 1;
            }
            proof {
                assert forall|a2: int, b: int|
                    0 <= a2 < n && (visited@[a2] || a2 == local as int) && !in_work(work@, a2)
                        && #[trigger] ty_edge(tyv, a2, b) implies visited@[b] by {
                    if a2 == a as int {
                        let k2 = choose|k2: int|
                            0 <= k2 < tyv[a2].len() && ty_follow_edge(#[trigger] tyv[a2][k2], b);
                        assert(ty_follow_edge(row@[k2], b));
                    }
                }
            }
        }
        // The worklist is exhausted: the marking is closed under edges,
        // so it holds exactly the affected set.
        proof {
            assert forall|b: int| 0 <= b < n && affected(tyv, local as int, b) implies visited@[b] by {
                let p = choose|p: Seq<int>| is_ty_path(tyv, p, local as int, b);
                assert forall|c: int| ty_edge(tyv, local as int, c) implies 0 <= c < n
                    && visited@[c] by {
                    lemma_edge_target_bounded(tyv, n as int, local as int, c);
                }
                assert forall|a2: int, c: int|
                    0 <= a2 < n && visited@[a2] && #[trigger] ty_edge(tyv, a2, c) implies 0 <= c < n
                    && visited@[c] by {
                    lemma_edge_target_bounded(tyv, n as int, a2, c);
                }
                lemma_closed_visited(tyv, visited@, local as int, p, b);
            }
        }
        let mut res: Vec<Local> = Vec::new();
        let mut j: usize = 0;
        while j < n
            invariant
                j <= n,
                n <= u32::MAX,
                tyv.len() == n,
                visited@.len() == n,
                forall|b: int| 0 <= b < n && #[trigger] visited@[b] ==> affected(tyv, local as int, b),
                forall|b: int| 0 <= b < n && affected(tyv, local as int, b) ==> visited@[b],
                res@ == affected_upto(tyv, local as int, j as int),
            decreases n - j,
        {
            let ghost before = res@;
            if visited[j] {
                res.push(j as Local);
                proof {
                    assert(res@ =~= before + seq![j as Local]);
                }
            } else {
                proof {
                    assert(res@ =~= before + Seq::<Local>::empty());
                }
            }
            j = j + 1;
        }
        res
    }

    /// Whether a mutable reference to `local` is taken anywhere in the
    /// function.
    pub fn may_be_mutably_borrowed(&self, local: Local) -> (res: bool)
        ensures
            res == mut_borrowed(self.relations@, local),
    {
        let mut k: usize = 0;
        while k < self.relations.len()
            invariant
                k <= self.relations@.len(),
                forall|m: int|
                    0 <= m < k ==> !is_mut_borrow_of(#[trigger] self.relations@[m], local),
            decreases self.relations@.len() - k,
        {
            match self.relations[k] {
                Relation::MutableBorrow { source, .. } => {
                    if source == local {
                        return true;
                    }
                },
                _ => {},
            }
            k = k + 1;
        }
        false
    }

    /// Select the eliminable clones, allocate and unify their lifetime
    /// annotations, and emit the full edit set of one rewrite pass: the
    /// clone-removal edits, one annotation edit per affected declaration,
    /// and the generic-parameter-list extension.  In restricted mode only
    /// the clones tied to the given parameter local are eliminated.
    pub fn elim(&self, decls: &Vec<LocalDecl>, generics_span: Range, restrict: Option<Local>) -> (s:
        Substitutes)
        requires
            self.wf(),
            decls@.len() == self.n_locals,
        ensures
            s@ == elim_spec(
                self.relations@,
                ty_view(self.ty@),
                decls@,
                generics_span,
                restrict,
                self.n_locals as nat,
            ),
    {
        let ghost rels = self.relations@;
        let ghost tyv = ty_view(self.ty@);
        let n_usize: usize = self.n_locals;
        let ghost nn = n_usize as nat;
        proof {
            lemma_ty_of_bounded(rels, nn);
        }
        let mut s = Substitutes::new();

        // Collect the elimination candidate pool: the clone relations
        // whose source and destination are never mutably borrowed (and,
        // in restricted mode, which are tied to the chosen parameter).
        let mut clones: Vec<Relation> = Vec::new();
        let mut k: usize = 0;
        proof {
            assert(clones@ =~= eligible_upto(rels, tyv, restrict, 0));
        }
        while k < self.relations.len()
            invariant
                k <= rels.len(),
                self.wf(),
                rels == self.relations@,
                tyv == ty_view(self.ty@),
                n_usize == self.n_locals,
                nn == n_usize as nat,
                ty_bounded(tyv, n_usize as int),
                clones@ == eligible_upto(rels, tyv, restrict, k as int),
                forall|j: int|
                    0 <= j < clones@.len() ==> relation_wf(#[trigger] clones@[j], n_usize as int),
            decreases rels.len() - k,
        {
            let r = self.relations[k];
            let ghost prev = clones@;
            proof {
                assert(relation_wf(rels[k as int], n_usize as int));
            }
            match r {
                Relation::CloneCall { source, destination, .. } => {
                    let src_mb = self.may_be_mutably_borrowed(source);
                    let dst_mb = self.may_be_mutably_borrowed(destination);
                    if !src_mb && !dst_mb {
                        let keep: bool = match restrict {
                            None => true,
                            Some(p) => {
                                if p == source {
                                    true
                                } else {
                                    let affl = self.list_affected_local(source);
                                    let c = contains_local(&affl, p);
                                    proof {
                                        lemma_affected_upto_contains(
                                            tyv,
                                            source as int,
                                            n_usize as int,
                                            p,
                                        );
                                        if affected(tyv, source as int, p as int) {
                                            lemma_affected_bounded(
                                                tyv,
                                                n_usize as int,
                                                source as int,
                                                p as int,
                                            );
                                        }
                                    }
                                    c
                                }
                            },
                        };
                        proof {
                            assert(keep == restrict_ok(tyv, r, restrict));
                        }
                        if keep {
                            clones.push(r);
                        }
                    }
                },
                _ => {},
            }
            k = k + 1;
            proof {
                assert(clones@ =~= eligible_upto(rels, tyv, restrict, k as int));
            }
        }
        proof {
            assert(clones@ == eligible_clones(rels, tyv, restrict));
            lemma_eligible_upto_elems(rels, tyv, restrict, rels.len() as int);
        }
        let ghost cs = clones@;

        // Process the candidates in encounter order: strip each clone
        // call and fold its affected-locals set into the annotation map,
        // with candidate `ci` owning the fresh ordinal `ci`.
        let mut aff: Vec<Option<usize>> = Vec::new();
        let mut fl: usize = 0;
        while fl < n_usize
            invariant
                fl <= n_usize,
                aff@.len() == fl,
                forall|m: int| 0 <= m < fl ==> (#[trigger] aff@[m]) is None,
            decreases n_usize - fl,
        {
            aff.push(None);
            fl = fl + 1;
        }
        let mut ci: usize = 0;
        proof {
            assert(aff@ =~= process_clones(cs, tyv, nn, 0).1);
            assert(s@ =~= process_clones(cs, tyv, nn, 0).0);
        }
        while ci < clones.len()
            invariant
                ci <= cs.len(),
                self.wf(),
                rels == self.relations@,
                tyv == ty_view(self.ty@),
                n_usize == self.n_locals,
                nn == n_usize as nat,
                ty_bounded(tyv, n_usize as int),
                cs == clones@,
                forall|j: int|
                    0 <= j < cs.len() ==> relation_wf(#[trigger] cs[j], n_usize as int),
                forall|j: int| 0 <= j < cs.len() ==> is_clone_rel(#[trigger] cs[j]),
                aff@.len() == n_usize,
                forall|m: int|
                    0 <= m < n_usize ==> ((#[trigger] aff@[m]) matches Some(o) ==> o < ci),
                s@ == process_clones(cs, tyv, nn, ci as int).0,
                aff@ == process_clones(cs, tyv, nn, ci as int).1,
            decreases cs.len() - ci,
        {
            let c = clones[ci];
            let ghost edits_before = s@;
            let ghost aff0 = aff@;
            match c {
                Relation::CloneCall { source, destination, call_span, arg_span } => {
                    if call_span.lo < arg_span.lo {
                        s.rewrite(call_span.lo, arg_span.lo, Vec::new());
                        s.rewrite(arg_span.hi, call_span.hi, Vec::new());
                    } else {
                        s.rewrite(arg_span.hi, call_span.hi, Vec::new());
                    }
                    proof {
                        assert(s@ =~= edits_before + removal_edits(c));
                    }
                    let affl = self.list_affected_local(source);
                    let ghost locs = affl@;
                    proof {
                        lemma_affected_upto_bounds(tyv, source as int, n_usize as int);
                    }
                    let mut cur: usize = ci;
                    let mut li: usize = 0;
                    proof {
                        assert(aff@ == assign_locals(aff0, locs, ci, 0).0);
                        assert(cur == assign_locals(aff0, locs, ci, 0).1);
                    }
                    while li < affl.len()
                        invariant
                            li <= locs.len(),
                            locs == affl@,
                            locs == affected_upto(tyv, clone_source(c) as int, n_usize as int),
                            forall|m: int| 0 <= m < locs.len() ==> (#[trigger] locs[m] as int) < n_usize,
                            aff@.len() == n_usize,
                            cur <= ci,
                            ci < cs.len(),
                            forall|m: int|
                                0 <= m < n_usize ==> ((#[trigger] aff@[m]) matches Some(o) ==> o
                                    <= ci),
                            aff@ == assign_locals(aff0, locs, ci, li as int).0,
                            cur == assign_locals(aff0, locs, ci, li as int).1,
                        decreases locs.len() - li,
                    {
                        let l = affl[li];
                        let ghost aff_mid = aff@;
                        let ghost cur_mid = cur;
                        match aff[l as usize] {
                            Some(a) => {
                                let mut m: usize = 0;
                                while m < aff.len()
                                    invariant
                                        m <= aff@.len(),
                                        aff@.len() == aff_mid.len(),
                                        a <= ci,
                                        cur == cur_mid,
                                        forall|idx: int|
                                            0 <= idx < m ==> (#[trigger] aff@[idx]) == (
                                            if aff_mid[idx] == Some(cur_mid) {
                                                Some(a)
                                            } else {
                                                aff_mid[idx]
                                            }),
                                        forall|idx: int|
                                            m <= idx < aff@.len() ==> (#[trigger] aff@[idx])
                                                == aff_mid[idx],
                                        forall|idx: int|
                                            0 <= idx < aff@.len() ==> ((#[trigger] aff@[idx])
                                                matches Some(o) ==> o <= ci),
                                    decreases aff@.len() - m,
                                {
                                    match aff[m] {
                                        Some(x) => {
                                            if x == cur {
                                                aff[m] = Some(a);
                                            }
                                        },
                                        None => {},
                                    }
                                    m = m + 1;
                                }
                                proof {
                                    assert(aff@ =~= unify_annotations(aff_mid, cur_mid, a));
                                }
                                cur = a;
                            },
                            None => {
                                aff[l as usize] = Some(cur);
                                proof {
                                    assert(aff@ =~= aff_mid.update(l as int, Some(cur_mid)));
                                }
                            },
                        }
                        li = li + 1;
                        proof {
                            assert(assign_locals(aff0, locs, ci, li as int).0 == assign_step(
                                aff_mid,
                                locs[li - 1],
                                cur_mid,
                            ).0);
                            assert(aff@ == assign_locals(aff0, locs, ci, li as int).0);
                            assert(cur == assign_locals(aff0, locs, ci, li as int).1);
                        }
                    }
                },
                _ => {
                    proof {
                        assert(is_clone_rel(cs[ci as int]));
                        assert(false);
                    }
                },
            }
            ci = ci + 1;
            proof {
                assert(s@ == process_clones(cs, tyv, nn, ci as int).0);
                assert(aff@ == process_clones(cs, tyv, nn, ci as int).1);
            }
        }

        // Annotate every affected declaration, in ascending local order.
        let ghost aff_final = aff@;
        let ghost edits_base = s@;
        let mut l: usize = 0;
        proof {
            assert(s@ =~= edits_base + decl_edits_upto(aff_final, decls@, 0));
        }
        while l < decls.len()
            invariant
                l <= decls@.len(),
                decls@.len() == n_usize,
                aff@ == aff_final,
                aff@.len() == n_usize,
                s@ == edits_base + decl_edits_upto(aff_final, decls@, l as int),
            decreases decls@.len() - l,
        {
            let ghost edits_prev = s@;
            match aff[l] {
                Some(o) => {
                    let site_opt: Option<u32> = match decls[l].ty_span {
                        Some(ts) => Some(ts.lo),
                        None => {
                            if decls[l].decl_span.lo != decls[l].decl_span.hi {
                                Some(decls[l].decl_span.lo)
                            } else {
                                None
                            }
                        },
                    };
                    match site_opt {
                        Some(pos) => {
                            s.rewrite(pos, pos, ann_prefix_exec(o));
                            proof {
                                assert(decl_has_site(decls@[l as int]));
                                assert(pos == decl_site(decls@[l as int]));
                                assert(s@ =~= edits_prev + decl_edit(decls@[l as int], o));
                            }
                        },
                        None => {
                            proof {
                                assert(!decl_has_site(decls@[l as int]));
                                assert(s@ =~= edits_prev + decl_edit(decls@[l as int], o));
                            }
                        },
                    }
                },
                None => {
                    proof {
                        assert(s@ =~= edits_prev + Seq::<EditV>::empty());
                    }
                },
            }
            l = l + 1;
            proof {
                assert(s@ =~= edits_base + decl_edits_upto(aff_final, decls@, l as int));
            }
        }

        // Gather the annotation names that were actually inserted,
        // ascending by ordinal, and extend the generic-parameter list if
        // there are any.
        let ghost edits_decl = s@;
        let mut any: bool = false;
        let mut names: Vec<u8> = Vec::new();
        let mut o: usize = 0;
        proof {
            assert(names@ =~= ann_names_upto(aff_final, decls@, 0));
        }
        while o < clones.len()
            invariant
                o <= cs.len(),
                cs == clones@,
                aff@ == aff_final,
                aff@.len() == n_usize,
                decls@.len() == n_usize,
                names@ == ann_names_upto(aff_final, decls@, o as int),
                any == any_ann_used(aff_final, decls@, o as int),
            decreases cs.len() - o,
        {
            let ghost names_prev = names@;
            let ghost any_prev = any;
            if ann_used_exec(&aff, decls, o) {
                any = true;
                names.push(39);
                let mut ls = letters_exec(o);
                names.append(&mut ls);
                names.push(44);
                proof {
                    assert(names@ =~= names_prev + (seq![39u8] + letters(o as nat) + seq![44u8]));
                }
            }
            o = o + 1;
            proof {
                assert(names@ =~= ann_names_upto(aff_final, decls@, o as int));
                if ann_used(aff_final, decls@, (o - 1) as usize) {
                    assert(any_ann_used(aff_final, decls@, o as int));
                } else {
                    if any_ann_used(aff_final, decls@, o as int) {
                        let ou = choose|ou: int|
                            0 <= ou < o && #[trigger] ann_used(aff_final, decls@, ou as usize);
                        assert(ou < o - 1 ==> any_ann_used(aff_final, decls@, o as int - 1));
                    }
                    assert(any == any_ann_used(aff_final, decls@, o as int));
                }
            }
        }
        if any {
            let ghost prevs = s@;
            if generics_span.lo < generics_span.hi {
                let mut txt: Vec<u8> = Vec::new();
                txt.push(44);
                txt.append(&mut names);
                proof {
                    assert(txt@ =~= seq![44u8] + ann_names_upto(
                        aff_final,
                        decls@,
                        cs.len() as int,
                    ));
                }
                s.rewrite(generics_span.hi - 1, generics_span.hi - 1, txt);
                proof {
                    assert(s@ =~= prevs + generics_edits(
                        aff_final,
                        decls@,
                        cs.len() as int,
                        generics_span,
                    ));
                }
            } else {
                let mut txt: Vec<u8> = Vec::new();
                txt.push(60);
                txt.append(&mut names);
                txt.push(62);
                proof {
                    assert(txt@ =~= seq![60u8] + ann_names_upto(
                        aff_final,
                        decls@,
                        cs.len() as int,
                    ) + seq![62u8]);
                }
                s.rewrite(generics_span.hi, generics_span.hi, txt);
                proof {
                    assert(s@ =~= prevs + generics_edits(
                        aff_final,
                        decls@,
                        cs.len() as int,
                        generics_span,
                    ));
                }
            }
        } else {
            proof {
                assert(s@ =~= edits_decl + generics_edits(
                    aff_final,
                    decls@,
                    cs.len() as int,
                    generics_span,
                ));
            }
        }
        proof {
            assert(decls@.len() as int == nn as int);
            assert(s@ =~= elim_spec(rels, tyv, decls@, generics_span, restrict, nn));
        }
        s
    }
}

} // verus!
