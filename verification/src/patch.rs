//! Byte ranges and the text-patch engine: an ordered list of
//! `(start, end, replacement)` edits over byte offsets, applied to a
//! source text with cumulative-offset bookkeeping.

use vstd::prelude::*;

verus! {

/// An inclusive-exclusive byte interval `[lo, hi)` into a function's
/// source text.
#[derive(Clone, Copy, PartialEq, Eq, Structural, Debug)]
pub struct Range {
    pub lo: u32,
    pub hi: u32,
}

impl Range {
    pub fn new(lo: u32, hi: u32) -> (r: Range)
        ensures
            r == (Range { lo, hi }),
    {
        Range { lo, hi }
    }
}

/// One byte-range replacement: the bytes in `[from, until)` are replaced
/// by `text`.
pub struct Edit {
    pub from: u32,
    pub until: u32,
    pub text: Vec<u8>,
}

/// The mathematical value of an [`Edit`].
pub struct EditV {
    pub from: u32,
    pub until: u32,
    pub text: Seq<u8>,
}

impl View for Edit {
    type V = EditV;

    open spec fn view(&self) -> EditV {
        EditV { from: self.from, until: self.until, text: self.text@ }
    }
}

/// The sequence of edit values held by a sequence of edits.
pub open spec fn views_of(s: Seq<Edit>) -> Seq<EditV> {
    s.map_values(|e: Edit| e@)
}

/// Two edits describe regions that do not overlap in the original
/// coordinate space, and start at distinct offsets (so that their order
/// of application is uniquely determined).
pub open spec fn edits_separated(a: EditV, b: EditV) -> bool {
    &&& a.until <= b.from || b.until <= a.from
    &&& a.from != b.from
}

/// Every edit in the sequence is pairwise separated from every other.
pub open spec fn edits_disjoint(s: Seq<EditV>) -> bool {
    forall|i: int, j: int|
        0 <= i < s.len() && 0 <= j < s.len() && i != j ==> edits_separated(
            #[trigger] s[i],
            #[trigger] s[j],
        )
}

/// Each edit describes an oriented interval lying inside a text of
/// `len` bytes.
pub open spec fn edits_bounded(s: Seq<EditV>, len: int) -> bool {
    forall|i: int|
        0 <= i < s.len() ==> #[trigger] s[i].from <= s[i].until && s[i].until <= len
}

/// A set of edits that can be applied to a text of `len` bytes: each
/// lies inside the text, and no two overlap or share a start offset.
pub open spec fn edits_wf(s: Seq<EditV>, len: int) -> bool {
    edits_bounded(s, len) && edits_disjoint(s)
}

/// The edits appear in ascending order of start offset.
pub open spec fn edits_sorted(s: Seq<EditV>) -> bool {
    forall|i: int, j: int| 0 <= i < j < s.len() ==> (#[trigger] s[i].from) <= (#[trigger] s[j].from)
}

/// The text that remains of `s` from byte `pos` onward after applying
/// the sorted edits `eds[i..]`: the stretch of `s` up to the next edit's
/// start, then that edit's replacement, then the rest.
pub open spec fn spliced_from(s: Seq<u8>, eds: Seq<EditV>, i: int, pos: int) -> Seq<u8>
    decreases eds.len() - i,
{
    if i < 0 || i >= eds.len() {
        s.skip(pos)
    } else {
        s.subrange(pos, eds[i].from as int) + eds[i].text + spliced_from(
            s,
            eds,
            i + 1,
            eds[i].until as int,
        )
    }
}

/// The result of applying the sorted, pairwise-disjoint edits `eds` to
/// the text `s`.
pub open spec fn spliced(s: Seq<u8>, eds: Seq<EditV>) -> Seq<u8> {
    spliced_from(s, eds, 0, 0)
}

/// Where an edit belongs in an ascending sequence: before the first edit
/// with a strictly larger start offset.
pub open spec fn insert_sorted(e: EditV, s: Seq<EditV>) -> Seq<EditV>
    decreases s.len(),
{
    if s.len() == 0 {
        seq![e]
    } else if e.from < s[0].from {
        seq![e] + s
    } else {
        seq![s[0]] + insert_sorted(e, s.drop_first())
    }
}

/// The edits of `s` rearranged into ascending order of start offset
/// (insertion order decides ties, which well-formed edit sets do not
/// have).
pub open spec fn sort_edits_spec(s: Seq<EditV>) -> Seq<EditV>
    decreases s.len(),
{
    if s.len() == 0 {
        Seq::empty()
    } else {
        insert_sorted(s.last(), sort_edits_spec(s.drop_last()))
    }
}

/// A copy of the byte region `[from, until)` of `source`.
pub fn source_slice(source: &Vec<u8>, from: u32, until: u32) -> (res: Vec<u8>)
    requires
        from <= until,
        until <= source@.len(),
    ensures
        res@ == source@.subrange(from as int, until as int),
{
    let mut res: Vec<u8> = Vec::new();
    let mut i: usize = from as usize;
    while i < until as usize
        invariant
            from as usize <= i <= until as usize,
            until <= source@.len(),
            res@ == source@.subrange(from as int, i as int),
        decreases until as int - i,
    {
        res.push(source[i]);
        i = i + 1;
        proof {
            assert(res@ =~= source@.subrange(from as int, i as int));
        }
    }
    res
}

fn clone_bytes(v: &Vec<u8>) -> (res: Vec<u8>)
    ensures
        res@ == v@,
{
    let mut res: Vec<u8> = Vec::new();
    let mut i: usize = 0;
    while i < v.len()
        invariant
            i <= v@.len(),
            res@ == v@.subrange(0, i as int),
        decreases v@.len() - i,
    {
        res.push(v[i]);
        i = i + 1;
        proof {
            assert(res@ =~= v@.subrange(0, i as int));
        }
    }
    proof {
        assert(res@ =~= v@);
    }
    res
}

fn clone_edit(e: &Edit) -> (res: Edit)
    ensures
        res@ == e@,
{
    Edit { from: e.from, until: e.until, text: clone_bytes(&e.text) }
}

/// The ordered list of pending byte-range replacements for one rewrite
/// pass.
pub struct Substitutes {
    pub replaces: Vec<Edit>,
}

impl View for Substitutes {
    type V = Seq<EditV>;

    open spec fn view(&self) -> Seq<EditV> {
        views_of(self.replaces@)
    }
}

impl Substitutes {
    /// An empty edit list.
    pub fn new() -> (s: Substitutes)
        ensures
            s@ == Seq::<EditV>::empty(),
    {
        let s = Substitutes { replaces: Vec::new() };
        proof {
            assert(s@ =~= Seq::<EditV>::empty());
        }
        s
    }

    /// Record one more edit: replace the bytes in `[from, until)` of the
    /// original text by `insert`.
    pub fn rewrite(&mut self, from: u32, until: u32, insert: Vec<u8>)
        ensures
            final(self)@ == old(self)@.push(EditV { from, until, text: insert@ }),
    {
        let ghost before = self@;
        let ghost e = EditV { from, until, text: insert@ };
        self.replaces.push(Edit { from, until, text: insert });
        proof {
            assert(self@ =~= before.push(e));
        }
    }

    /// Append every edit of `other` after the edits already recorded.
    pub fn merge(&mut self, other: &Substitutes)
        ensures
            final(self)@ == old(self)@ + other@,
    {
        let ghost before = self@;
        let mut i: usize = 0;
        while i < other.replaces.len()
            invariant
                i <= other.replaces@.len(),
                self@ == before + other@.subrange(0, i as int),
            decreases other.replaces@.len() - i,
        {
            let ghost mid = self@;
            self.replaces.push(clone_edit(&other.replaces[i]));
            i = i + 1;
            proof {
                assert(self@ =~= mid.push(other@[i - 1]));
                assert(self@ =~= before + other@.subrange(0, i as int));
            }
        }
        proof {
            assert(self@ =~= before + other@);
        }
    }
}

/// `x` occurs somewhere in `s`.
pub open spec fn in_edits(x: EditV, s: Seq<EditV>) -> bool {
    exists|j: int| 0 <= j < s.len() && s[j] == x
}

/// Inserting an edit adds exactly that edit: every element of the result
/// is the inserted edit or one of the original elements.
proof fn lemma_insert_sorted_elems(e: EditV, s: Seq<EditV>)
    ensures
        insert_sorted(e, s).len() == s.len() + 1,
        forall|k: int|
            0 <= k < insert_sorted(e, s).len() ==> (#[trigger] insert_sorted(e, s)[k]) == e
                || in_edits(insert_sorted(e, s)[k], s),
    decreases s.len(),
{
    let r = insert_sorted(e, s);
    if s.len() == 0 {
        assert(r[0] == e);
    } else if e.from < s[0].from {
        assert forall|k: int| 0 <= k < r.len() implies (#[trigger] r[k]) == e || in_edits(
            r[k],
            s,
        ) by {
            if k > 0 {
                assert(r[k] == s[k - 1]);
            }
        }
    } else {
        let rest = s.drop_first();
        lemma_insert_sorted_elems(e, rest);
        assert forall|k: int| 0 <= k < r.len() implies (#[trigger] r[k]) == e || in_edits(
            r[k],
            s,
        ) by {
            if k == 0 {
                assert(r[0] == s[0]);
            } else {
                let ri = insert_sorted(e, rest);
                assert(r[k] == ri[k - 1]);
                if ri[k - 1] != e {
                    let m = choose|m: int| 0 <= m < rest.len() && rest[m] == ri[k - 1];
                    assert(s[m + 1] == ri[k - 1]);
                }
            }
        }
    }
}

/// Insertion keeps an ascending sequence ascending.
proof fn lemma_insert_sorted_sorted(e: EditV, s: Seq<EditV>)
    requires
        edits_sorted(s),
    ensures
        edits_sorted(insert_sorted(e, s)),
    decreases s.len(),
{
    let r = insert_sorted(e, s);
    if s.len() == 0 {
    } else if e.from < s[0].from {
        assert forall|i: int, j: int| 0 <= i < j < r.len() implies (#[trigger] r[i]).from <= (
        #[trigger] r[j]).from by {
            if i > 0 {
                assert(r[i] == s[i - 1] && r[j] == s[j - 1]);
            } else {
                assert(r[j] == s[j - 1]);
                assert(s[0].from <= s[j - 1].from);
            }
        }
    } else {
        let rest = s.drop_first();
        assert(edits_sorted(rest));
        lemma_insert_sorted_sorted(e, rest);
        lemma_insert_sorted_elems(e, rest);
        let ri = insert_sorted(e, rest);
        assert forall|i: int, j: int| 0 <= i < j < r.len() implies (#[trigger] r[i]).from <= (
        #[trigger] r[j]).from by {
            if i > 0 {
                assert(r[i] == ri[i - 1] && r[j] == ri[j - 1]);
            } else {
                assert(r[j] == ri[j - 1]);
                if ri[j - 1] == e {
                    assert(s[0].from <= e.from);
                } else {
                    let m = choose|m: int| 0 <= m < rest.len() && rest[m] == ri[j - 1];
                    assert(rest[m] == s[m + 1]);
                    assert(s[0].from <= s[m + 1].from);
                }
            }
        }
    }
}

/// Insertion keeps a pairwise-separated sequence pairwise separated,
/// provided the inserted edit is separated from every element.
proof fn lemma_insert_sorted_disjoint(e: EditV, s: Seq<EditV>)
    requires
        edits_disjoint(s),
        forall|j: int| 0 <= j < s.len() ==> edits_separated(e, #[trigger] s[j]),
    ensures
        edits_disjoint(insert_sorted(e, s)),
    decreases s.len(),
{
    let r = insert_sorted(e, s);
    if s.len() == 0 {
        assert(r[0] == e);
    } else if e.from < s[0].from {
        assert forall|i: int, j: int|
            0 <= i < r.len() && 0 <= j < r.len() && i != j implies edits_separated(
            #[trigger] r[i],
            #[trigger] r[j],
        ) by {
            if i == 0 {
                assert(r[j] == s[j - 1]);
            } else if j == 0 {
                assert(r[i] == s[i - 1]);
                assert(edits_separated(e, s[i - 1]));
            } else {
                assert(r[i] == s[i - 1] && r[j] == s[j - 1]);
            }
        }
    } else {
        let rest = s.drop_first();
        assert forall|j: int| 0 <= j < rest.len() implies edits_separated(
            e,
            #[trigger] rest[j],
        ) by {
            assert(rest[j] == s[j + 1]);
        }
        lemma_insert_sorted_disjoint(e, rest);
        lemma_insert_sorted_elems(e, rest);
        let ri = insert_sorted(e, rest);
        assert forall|i: int, j: int|
            0 <= i < r.len() && 0 <= j < r.len() && i != j implies edits_separated(
            #[trigger] r[i],
            #[trigger] r[j],
        ) by {
            if i == 0 || j == 0 {
                let k = if i == 0 {
                    j
                } else {
                    i
                };
                assert(r[k] == ri[k - 1]);
                if ri[k - 1] == e {
                    assert(edits_separated(e, s[0]));
                } else {
                    let m = choose|m: int| 0 <= m < rest.len() && rest[m] == ri[k - 1];
                    assert(rest[m] == s[m + 1]);
                    assert(edits_separated(s[0], s[m + 1]));
                }
                if i == 0 {
                    assert(edits_separated(r[i], r[j]));
                } else {
                    assert(edits_separated(r[i], r[j]));
                }
            } else {
                assert(r[i] == ri[i - 1] && r[j] == ri[j - 1]);
            }
        }
    }
}

/// Sorting yields an ascending sequence of the same edits; separation is
/// preserved.
proof fn lemma_sort_edits_spec(s: Seq<EditV>)
    ensures
        sort_edits_spec(s).len() == s.len(),
        edits_sorted(sort_edits_spec(s)),
        forall|k: int|
            0 <= k < s.len() ==> in_edits(#[trigger] sort_edits_spec(s)[k], s),
        edits_disjoint(s) ==> edits_disjoint(sort_edits_spec(s)),
    decreases s.len(),
{
    if s.len() == 0 {
    } else {
        let front = s.drop_last();
        let e = s.last();
        lemma_sort_edits_spec(front);
        let sf = sort_edits_spec(front);
        lemma_insert_sorted_elems(e, sf);
        lemma_insert_sorted_sorted(e, sf);
        let r = insert_sorted(e, sf);
        assert forall|k: int| 0 <= k < s.len() implies in_edits(
            #[trigger] sort_edits_spec(s)[k],
            s,
        ) by {
            if r[k] == e {
                assert(s[s.len() - 1] == e);
            } else {
                let m = choose|m: int| 0 <= m < sf.len() && sf[m] == r[k];
                assert(in_edits(sf[m], front));
                let m2 = choose|m2: int| 0 <= m2 < front.len() && front[m2] == sf[m];
                assert(s[m2] == r[k]);
            }
        }
        if edits_disjoint(s) {
            assert forall|i: int, j: int|
                0 <= i < front.len() && 0 <= j < front.len() && i != j implies edits_separated(
                #[trigger] front[i],
                #[trigger] front[j],
            ) by {
                assert(front[i] == s[i] && front[j] == s[j]);
            }
            assert forall|j: int| 0 <= j < sf.len() implies edits_separated(
                e,
                #[trigger] sf[j],
            ) by {
                let m = choose|m: int| 0 <= m < front.len() && front[m] == sf[j];
                assert(edits_separated(s[s.len() - 1], s[m]));
            }
            lemma_insert_sorted_disjoint(e, sf);
        }
    }
}

/// Inserting at the first position whose edit starts strictly later
/// realizes `insert_sorted`.
proof fn lemma_insert_sorted_position(e: EditV, s: Seq<EditV>, p: int)
    requires
        0 <= p <= s.len(),
        forall|q: int| 0 <= q < p ==> (#[trigger] s[q]).from <= e.from,
        p < s.len() ==> e.from < s[p].from,
    ensures
        insert_sorted(e, s) == s.insert(p, e),
    decreases s.len(),
{
    if s.len() == 0 {
        assert(insert_sorted(e, s) =~= s.insert(0, e));
    } else if e.from < s[0].from {
        assert(p == 0);
        assert(insert_sorted(e, s) =~= s.insert(0, e));
    } else {
        assert(p >= 1);
        let rest = s.drop_first();
        assert forall|q: int| 0 <= q < p - 1 implies (#[trigger] rest[q]).from <= e.from by {
            assert(rest[q] == s[q + 1]);
        }
        lemma_insert_sorted_position(e, rest, p - 1);
        assert(insert_sorted(e, s) =~= s.insert(p, e));
    }
}

impl Substitutes {
    /// The recorded edits copied into ascending order of start offset.
    fn sorted_copy(&self) -> (res: Vec<Edit>)
        ensures
            views_of(res@) == sort_edits_spec(self@),
    {
        let ghost views = self@;
        let mut out: Vec<Edit> = Vec::new();
        let mut i: usize = 0;
        proof {
            assert(views.take(0) =~= Seq::<EditV>::empty());
            assert(views_of(out@) =~= sort_edits_spec(views.take(0)));
        }
        while i < self.replaces.len()
            invariant
                i <= self.replaces@.len(),
                views == self@,
                views_of(out@) == sort_edits_spec(views.take(i as int)),
            decreases self.replaces@.len() - i,
        {
            let e = clone_edit(&self.replaces[i]);
            let ghost ev = e@;
            proof {
                assert(ev == views[i as int]);
            }
            let mut p: usize = 0;
            while p < out.len() && out[p].from <= e.from
                invariant
                    p <= out@.len(),
                    forall|q: int| 0 <= q < p ==> (#[trigger] views_of(out@)[q]).from <= ev.from,
                    ev.from == e.from,
                decreases out@.len() - p,
            {
                p = p + 1;
            }
            let ghost before = views_of(out@);
            out.insert(p, e);
            i = i + 1;
            proof {
                lemma_insert_sorted_position(ev, before, p as int);
                assert(views_of(out@) =~= before.insert(p as int, ev));
                assert(views.take(i as int).drop_last() =~= views.take(i as int - 1));
                assert(views.take(i as int).last() == views[i as int - 1]);
                assert(views_of(out@) == sort_edits_spec(views.take(i as int)));
            }
        }
        proof {
            assert(views.take(i as int) =~= views);
        }
        out
    }

    /// Whether the recorded edits can be applied to a text of `len`
    /// bytes: each inside the text, no two overlapping or sharing a
    /// start offset.
    pub fn wf_for(&self, len: usize) -> (res: bool)
        ensures
            res == edits_wf(self@, len as int),
    {
        let mut i: usize = 0;
        while i < self.replaces.len()
            invariant
                i <= self@.len(),
                forall|m: int|
                    0 <= m < i ==> (#[trigger] self@[m]).from <= self@[m].until
                        && self@[m].until <= len,
            decreases self@.len() - i,
        {
            let e = &self.replaces[i];
            if !(e.from <= e.until && (e.until as usize) <= len) {
                proof {
                    assert(self@[i as int] == self.replaces@[i as int]@);
                    assert(!(self@[i as int].from <= self@[i as int].until && self@[i as int].until
                        <= len as int));
                    assert(!edits_bounded(self@, len as int));
                }
                return false;
            }
            i = i + 1;
        }
        let mut a: usize = 0;
        while a < self.replaces.len()
            invariant
                a <= self@.len(),
                edits_bounded(self@, len as int),
                forall|m: int, j: int|
                    0 <= m < a && 0 <= j < self@.len() && m != j ==> edits_separated(
                        #[trigger] self@[m],
                        #[trigger] self@[j],
                    ),
            decreases self@.len() - a,
        {
            let mut b: usize = 0;
            while b < self.replaces.len()
                invariant
                    a < self@.len(),
                    b <= self@.len(),
                    forall|j: int|
                        0 <= j < b && j != a ==> edits_separated(self@[a as int], #[trigger] self@[j]),
                decreases self@.len() - b,
            {
                if b != a {
                    let ea = &self.replaces[a];
                    let eb = &self.replaces[b];
                    let apart: bool = ea.until <= eb.from || eb.until <= ea.from;
                    if !(apart && ea.from != eb.from) {
                        proof {
                            assert(self@[a as int] == self.replaces@[a as int]@);
                            assert(self@[b as int] == self.replaces@[b as int]@);
                            assert(!edits_separated(self@[a as int], self@[b as int]));
                            assert(!edits_disjoint(self@));
                        }
                        return false;
                    }
                }
                b = b + 1;
            }
            a = a + 1;
            proof {
                assert forall|m: int, j: int|
                    0 <= m < a && 0 <= j < self@.len() && m != j implies edits_separated(
                    #[trigger] self@[m],
                    #[trigger] self@[j],
                ) by {
                    if m == a - 1 {
                        assert(edits_separated(self@[m], self@[j]));
                    }
                }
            }
        }
        true
    }

    /// Apply the recorded edits to `target`: the edits are sorted by
    /// ascending start offset and spliced in one pass over the evolving
    /// text, which shifts every later offset by the accumulated length
    /// difference.
    pub fn apply(&self, target: &Vec<u8>) -> (res: Vec<u8>)
        requires
            edits_wf(self@, target@.len() as int),
            target@.len() <= u32::MAX,
        ensures
            res@ == spliced(target@, sort_edits_spec(self@)),
    {
        let sorted: Vec<Edit> = self.sorted_copy();
        let ghost eds = sort_edits_spec(self@);
        proof {
            lemma_sort_edits_spec(self@);
            assert forall|k: int| 0 <= k < eds.len() implies (#[trigger] eds[k]).from
                <= eds[k].until && eds[k].until <= target@.len() by {
                assert(in_edits(eds[k], self@));
                let m = choose|m: int| 0 <= m < self@.len() && self@[m] == eds[k];
            }
        }
        let mut out: Vec<u8> = Vec::new();
        let mut pos: u32 = 0;
        let mut i: usize = 0;
        proof {
            assert(out@ + spliced_from(target@, eds, 0, 0) =~= spliced(target@, eds));
        }
        while i < sorted.len()
            invariant
                i <= sorted@.len(),
                views_of(sorted@) == eds,
                edits_sorted(eds),
                edits_disjoint(eds),
                edits_bounded(eds, target@.len() as int),
                target@.len() <= u32::MAX,
                i < eds.len() ==> pos <= eds[i as int].from,
                pos <= target@.len(),
                spliced(target@, eds) == out@ + spliced_from(target@, eds, i as int, pos as int),
            decreases sorted@.len() - i,
        {
            let efrom = sorted[i].from;
            let euntil = sorted[i].until;
            proof {
                assert(views_of(sorted@)[i as int] == eds[i as int]);
                assert(efrom == eds[i as int].from && euntil == eds[i as int].until);
                assert(sorted@[i as int].text@ == eds[i as int].text);
            }
            let mut seg = source_slice(target, pos, efrom);
            out.append(&mut seg);
            let mut ins = clone_bytes(&sorted[i].text);
            out.append(&mut ins);
            let ghost oldpos = pos as int;
            pos = euntil;
            i = i + 1;
            proof {
                if i < eds.len() {
                    assert(edits_separated(eds[i as int - 1], eds[i as int]));
                    assert(eds[i as int - 1].from <= eds[i as int].from);
                    if eds[i as int].until <= eds[i as int - 1].from {
                        assert(eds[i as int].from <= eds[i as int].until);
                        assert(false);
                    }
                    assert(pos <= eds[i as int].from);
                }
                assert(spliced_from(target@, eds, i as int - 1, oldpos) == target@.subrange(
                    oldpos,
                    eds[i as int - 1].from as int,
                ) + eds[i as int - 1].text + spliced_from(target@, eds, i as int, pos as int));
                assert(out@ + spliced_from(target@, eds, i as int, pos as int) =~= spliced(
                    target@,
                    eds,
                ));
            }
        }
        let mut tail = source_slice(target, pos, target.len() as u32);
        out.append(&mut tail);
        proof {
            assert(spliced_from(target@, eds, i as int, pos as int) == target@.skip(pos as int));
            assert(target@.subrange(pos as int, target@.len() as int) =~= target@.skip(pos as int));
            assert(out@ =~= spliced(target@, eds));
        }
        out
    }
}

} // verus!
