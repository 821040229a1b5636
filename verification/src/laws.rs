use vstd::prelude::*;
use crate::combinator::{CombineOutcome, SubjectCombinator};
use crate::errors::QueryError;

verus! {

impl SubjectCombinator {
    /// The slot that fixed entry `i` resolves to; meaningful only when the
    /// entry is valid.
    pub open spec fn fixed_slot(self, fix: Seq<(String, usize)>, i: int) -> int {
        self.code_to_subject@[self.spec_code_index(fix[i].0@)]@[fix[i].1 as int] as int
    }

    /// The catalog index that fixed entry `i` resolves to.
    pub open spec fn fixed_id(self, fix: Seq<(String, usize)>, i: int) -> usize {
        self.code_to_num@[self.spec_code_index(fix[i].0@)]@[fix[i].1 as int]
    }

    /// Whether `id` is one of the sections of code row `k`.
    pub open spec fn id_of_code(self, id: usize, k: int) -> bool {
        exists|j: int| 0 <= j < self.code_to_num@[k]@.len() && self.code_to_num@[k]@[j] == id
    }
}

impl SubjectCombinator {
    /// Ids and slots stay aligned with the catalog: each id indexes a
    /// section whose weekly pattern is its slot's pattern.
    pub open spec fn aligned(self, p: (Seq<usize>, Seq<u8>)) -> bool {
        &&& forall|m: int|
            0 <= m < p.0.len() ==> ((#[trigger] p.0[m]) as int) < self.subjects@.len()
        &&& forall|m: int|
            0 <= m < p.1.len() ==> ((#[trigger] p.1[m]) as int) < self.p_len()
        &&& forall|m: int|
            0 <= m < p.0.len() ==> self.subjects@[(#[trigger] p.0[m]) as int]@.time_bit
                == self.patterns@[p.1[m] as int]@
    }

    /// No two used slots conflict.
    pub open spec fn pairwise_free(self, slots: Seq<u8>) -> bool {
        forall|a: int, b: int|
            0 <= a < b < slots.len() ==> !self.tbl(
                (#[trigger] slots[a]) as int,
                (#[trigger] slots[b]) as int,
            )
    }

    /// A sound partial combination after `done` required codes: the fixed
    /// sections in order, then one section of each of the first `done`
    /// required rows, aligned with the catalog and pairwise conflict-free.
    pub open spec fn partial_ok(
        self,
        fix: Seq<(String, usize)>,
        rks: Seq<int>,
        done: int,
        p: (Seq<usize>, Seq<u8>),
    ) -> bool {
        &&& p.0.len() == p.1.len()
        &&& p.0.len() == fix.len() + done
        &&& forall|i: int| 0 <= i < fix.len() ==> (#[trigger] p.0[i]) == self.fixed_id(fix, i)
        &&& forall|q: int|
            0 <= q < done ==> self.id_of_code(#[trigger] p.0[fix.len() + q], rks[q])
        &&& self.aligned(p)
        &&& self.pairwise_free(p.1)
    }

    /// A sound finished combination: the fixed sections in order, then one
    /// section of each required row, then sections of selected rows only,
    /// aligned with the catalog and pairwise conflict-free.
    pub open spec fn combo_ok(
        self,
        fix: Seq<(String, usize)>,
        rks: Seq<int>,
        sks: Seq<int>,
        p: (Seq<usize>, Seq<u8>),
    ) -> bool {
        &&& p.0.len() == p.1.len()
        &&& fix.len() + rks.len() <= p.0.len()
        &&& forall|i: int| 0 <= i < fix.len() ==> (#[trigger] p.0[i]) == self.fixed_id(fix, i)
        &&& forall|q: int|
            0 <= q < rks.len() ==> self.id_of_code(#[trigger] p.0[fix.len() + q], rks[q])
        &&& forall|e: int|
            fix.len() + rks.len() <= e < p.0.len() ==> exists|t: int|
                0 <= t < sks.len() && self.id_of_code(#[trigger] p.0[e], sks[t])
        &&& self.aligned(p)
        &&& self.pairwise_free(p.1)
    }

    /// Whether an id list is sound for the query, for some slot alignment.
    pub open spec fn combo_ids_ok(
        self,
        fix: Seq<(String, usize)>,
        rks: Seq<int>,
        sks: Seq<int>,
        ids: Seq<usize>,
    ) -> bool {
        exists|slots: Seq<u8>| self.combo_ok(fix, rks, sks, (ids, slots))
    }
}

/// Law: the outcome of a combination query is a function of the engine and
/// the three input lists alone.  Any two results that satisfy the query
/// contract agree on every observable part: the same error kind and code,
/// the same no-solution answer, or combination lists with identical
/// contents.
pub proof fn lemma_combine_deterministic(
    c: SubjectCombinator,
    fix: Seq<(String, usize)>,
    req: Seq<String>,
    sel: Seq<String>,
    r1: Result<Option<Vec<Vec<usize>>>, QueryError>,
    r2: Result<Option<Vec<Vec<usize>>>, QueryError>,
)
    requires
        c.outcome_matches(c.combine_spec(fix, req, sel), r1),
        c.outcome_matches(c.combine_spec(fix, req, sel), r2),
    ensures
        match (r1, r2) {
            (Ok(o1), Ok(o2)) => match (o1, o2) {
                (Some(v1), Some(v2)) => v1.deep_view() == v2.deep_view(),
                (None, None) => true,
                _ => false,
            },
            (Err(e1), Err(e2)) => e1.kind == e2.kind && e1.code@ == e2.code@,
            _ => false,
        },
{
}

/// Every fixed entry of a list without a bad entry is itself valid: its
/// code is known and its position in range.
proof fn lemma_first_bad_none_pointwise(c: SubjectCombinator, fix: Seq<(String, usize)>)
    requires
        c.first_bad_fixed(fix) is None,
    ensures
        forall|i: int|
            0 <= i < fix.len() ==> c.spec_has_code((#[trigger] fix[i]).0@) && fix[i].1
                < c.spec_count(c.spec_code_index(fix[i].0@)),
    decreases fix.len(),
{
    if fix.len() > 0 {
        lemma_first_bad_none_pointwise(c, fix.drop_first());
        assert forall|i: int|
            0 <= i < fix.len() implies c.spec_has_code((#[trigger] fix[i]).0@) && fix[i].1
            < c.spec_count(c.spec_code_index(fix[i].0@)) by {
            if i > 0 {
                assert(fix.drop_first()[i - 1] == fix[i]);
            }
        }
    }
}

/// What the fixed seed looks like when it succeeds: one id and one slot per
/// entry, in order, pairwise conflict-free.
proof fn lemma_seed_props(c: SubjectCombinator, fix: Seq<(String, usize)>)
    requires
        c.wf(),
        forall|i: int|
            0 <= i < fix.len() ==> c.spec_has_code((#[trigger] fix[i]).0@) && fix[i].1
                < c.spec_count(c.spec_code_index(fix[i].0@)),
    ensures
        c.seed_fixed(fix) matches Some(p) ==> {
            &&& p.0.len() == fix.len()
            &&& p.1.len() == fix.len()
            &&& forall|i: int|
                0 <= i < fix.len() ==> ((#[trigger] p.1[i]) as int) == c.fixed_slot(
                    fix,
                    i,
                ) && p.0[i] == c.fixed_id(fix, i)
            &&& forall|i: int, j: int|
                0 <= i < j < fix.len() ==> !c.tbl(
                    (#[trigger] p.1[i]) as int,
                    (#[trigger] p.1[j]) as int,
                )
        },
    decreases fix.len(),
{
    if fix.len() > 0 {
        assert forall|i: int|
            0 <= i < fix.drop_last().len() implies c.spec_has_code(
            (#[trigger] fix.drop_last()[i]).0@,
        ) && fix.drop_last()[i].1 < c.spec_count(
            c.spec_code_index(fix.drop_last()[i].0@),
        ) by {
            assert(fix.drop_last()[i] == fix[i]);
        }
        lemma_seed_props(c, fix.drop_last());
        if c.seed_fixed(fix) is Some {
            let p = c.seed_fixed(fix)->Some_0;
            let prev = c.seed_fixed(fix.drop_last())->Some_0;
            assert forall|i: int|
                0 <= i < fix.len() implies ((#[trigger] p.1[i]) as int) == c.fixed_slot(
                fix,
                i,
            ) && p.0[i] == c.fixed_id(fix, i) by {
                if i < fix.len() - 1 {
                    assert(fix.drop_last()[i] == fix[i]);
                    assert(p.1[i] == prev.1[i] && p.0[i] == prev.0[i]);
                } else {
                    assert(fix.last() == fix[i]);
                }
            }
            assert forall|i: int, j: int|
                0 <= i < j < fix.len() implies !c.tbl(
                (#[trigger] p.1[i]) as int,
                (#[trigger] p.1[j]) as int,
            ) by {
                if j < fix.len() - 1 {
                    assert(p.1[i] == prev.1[i] && p.1[j] == prev.1[j]);
                } else {
                    assert(p.1[i] == prev.1[i]);
                    assert(c.spec_can_add(prev.1, p.1[j] as int));
                    assert(!c.tbl(prev.1[i] as int, p.1[j] as int));
                }
            }
        }
    }
}

/// Law: when two fixed entries resolve to conflicting slots, the query
/// yields no solution, whatever the required and selected lists hold.
pub proof fn lemma_fixed_conflict_rejected(
    c: SubjectCombinator,
    fix: Seq<(String, usize)>,
    req: Seq<String>,
    sel: Seq<String>,
    a: int,
    b: int,
)
    requires
        c.wf(),
        c.first_unknown(req) is None,
        c.first_unknown(sel) is None,
        c.first_bad_fixed(fix) is None,
        0 <= a < fix.len(),
        0 <= b < fix.len(),
        a != b,
        c.tbl(c.fixed_slot(fix, a), c.fixed_slot(fix, b)),
    ensures
        c.combine_spec(fix, req, sel) == CombineOutcome::NoCombo,
{
    lemma_first_bad_none_pointwise(c, fix);
    lemma_seed_props(c, fix);
    if c.seed_fixed(fix) is Some {
        let p = c.seed_fixed(fix)->Some_0;
        assert(c.spec_has_code(fix[a].0@));
        assert(c.spec_has_code(fix[b].0@));
        assert(0 <= c.fixed_slot(fix, a) < c.p_len());
        assert(0 <= c.fixed_slot(fix, b) < c.p_len());
        if a < b {
            assert(!c.tbl(p.1[a] as int, p.1[b] as int));
        } else {
            assert(!c.tbl(p.1[b] as int, p.1[a] as int));
            crate::subject::lemma_conflicts_symmetric(
                c.patterns@[c.fixed_slot(fix, b)]@,
                c.patterns@[c.fixed_slot(fix, a)]@,
            );
        }
        assert(false);
    }
}

/// The optional phase keeps every partial it starts from, in place: the
/// incoming frontier is a prefix of the outgoing one.
proof fn lemma_run_selected_prefix(
    c: SubjectCombinator,
    ps: Seq<(Seq<usize>, Seq<u8>)>,
    ks: Seq<int>,
    i: int,
)
    requires
        0 <= i <= ks.len(),
    ensures
        c.run_selected(ps, ks, i).len() >= ps.len(),
        forall|x: int|
            0 <= x < ps.len() ==> (#[trigger] c.run_selected(ps, ks, i)[x]) == ps[x],
    decreases ks.len() - i,
{
    if i < ks.len() {
        let next = ps + c.extend_frontier(ps, ks[i], ps.len() as int);
        lemma_run_selected_prefix(c, next, ks, i + 1);
        assert forall|x: int|
            0 <= x < ps.len() implies (#[trigger] c.run_selected(ps, ks, i)[x]) == ps[x] by {
            assert(c.run_selected(ps, ks, i)[x] == next[x]);
            assert(next[x] == ps[x]);
        }
    }
}

/// Law: whenever the required constraints are satisfiable, the combinations
/// with no optional section added are all present in the result: every
/// required-complete partial survives the optional phase unchanged.
pub proof fn lemma_no_optional_present(
    c: SubjectCombinator,
    fix: Seq<(String, usize)>,
    req: Seq<String>,
    sel: Seq<String>,
)
    requires
        c.wf(),
        c.combine_spec(fix, req, sel) is Combos,
    ensures
        ({
            let base = c.run_required(
                seq![c.seed_fixed(fix)->Some_0],
                c.sorted_indices(req),
                0,
            )->Some_0;
            let cs = c.combine_spec(fix, req, sel)->Combos_0;
            forall|x: int| 0 <= x < base.len() ==> cs.contains((#[trigger] base[x]).0)
        }),
{
    let p0 = c.seed_fixed(fix)->Some_0;
    let rks = c.sorted_indices(req);
    let sks = c.sorted_indices(sel);
    let base = c.run_required(seq![p0], rks, 0)->Some_0;
    let full = c.run_selected(base, sks, 0);
    let cs = c.combine_spec(fix, req, sel)->Combos_0;
    lemma_run_selected_prefix(c, base, sks, 0);
    assert forall|x: int| 0 <= x < base.len() implies cs.contains(
        (#[trigger] base[x]).0,
    ) by {
        let mapped = full.map_values(|p: (Seq<usize>, Seq<u8>)| p.0);
        assert(full[x] == base[x]);
        assert(mapped[x] == base[x].0);
        let y = mapped.len() - 1 - x;
        assert(cs[y] == mapped[x]);
    }
}

/// One frontier sits inside another, in order.
pub open spec fn subseq_of(
    a: Seq<(Seq<usize>, Seq<u8>)>,
    b: Seq<(Seq<usize>, Seq<u8>)>,
) -> bool
    decreases a.len() + b.len(),
{
    if a.len() == 0 {
        true
    } else if b.len() == 0 {
        false
    } else {
        (a.last() == b.last() && subseq_of(a.drop_last(), b.drop_last())) || subseq_of(
            a,
            b.drop_last(),
        )
    }
}

proof fn lemma_subseq_refl(a: Seq<(Seq<usize>, Seq<u8>)>)
    ensures
        subseq_of(a, a),
    decreases a.len(),
{
    if a.len() > 0 {
        lemma_subseq_refl(a.drop_last());
    }
}

proof fn lemma_subseq_len(a: Seq<(Seq<usize>, Seq<u8>)>, b: Seq<(Seq<usize>, Seq<u8>)>)
    requires
        subseq_of(a, b),
    ensures
        a.len() <= b.len(),
    decreases a.len() + b.len(),
{
    if a.len() > 0 && b.len() > 0 {
        if a.last() == b.last() && subseq_of(a.drop_last(), b.drop_last()) {
            lemma_subseq_len(a.drop_last(), b.drop_last());
        } else {
            lemma_subseq_len(a, b.drop_last());
        }
    }
}

/// Appending to the larger side keeps the smaller side inside it.
proof fn lemma_subseq_grow_right(
    a: Seq<(Seq<usize>, Seq<u8>)>,
    b: Seq<(Seq<usize>, Seq<u8>)>,
    z: Seq<(Seq<usize>, Seq<u8>)>,
)
    requires
        subseq_of(a, b),
    ensures
        subseq_of(a, b + z),
    decreases z.len(),
{
    if z.len() == 0 {
        assert(b + z =~= b);
    } else {
        lemma_subseq_grow_right(a, b, z.drop_last());
        assert((b + z).drop_last() =~= b + z.drop_last());
        assert(subseq_of(a, (b + z).drop_last()));
        if a.len() > 0 {
            assert(subseq_of(a, b + z));
        }
    }
}

/// Concatenating piecewise-contained frontiers keeps containment.
proof fn lemma_subseq_concat(
    a1: Seq<(Seq<usize>, Seq<u8>)>,
    a2: Seq<(Seq<usize>, Seq<u8>)>,
    b1: Seq<(Seq<usize>, Seq<u8>)>,
    b2: Seq<(Seq<usize>, Seq<u8>)>,
)
    requires
        subseq_of(a1, b1),
        subseq_of(a2, b2),
    ensures
        subseq_of(a1 + a2, b1 + b2),
    decreases a2.len() + b2.len(),
{
    if a2.len() == 0 {
        assert(a1 + a2 =~= a1);
        lemma_subseq_grow_right(a1, b1, b2);
    } else if b2.len() == 0 {
    } else if a2.last() == b2.last() && subseq_of(a2.drop_last(), b2.drop_last()) {
        lemma_subseq_concat(a1, a2.drop_last(), b1, b2.drop_last());
        assert((a1 + a2).drop_last() =~= a1 + a2.drop_last());
        assert((b1 + b2).drop_last() =~= b1 + b2.drop_last());
        assert((a1 + a2).last() == (b1 + b2).last());
    } else {
        lemma_subseq_concat(a1, a2, b1, b2.drop_last());
        assert((b1 + b2).drop_last() =~= b1 + b2.drop_last());
        assert((a1 + a2).len() > 0);
        assert(subseq_of(a1 + a2, (b1 + b2).drop_last()));
    }
}

/// Extending a contained frontier keeps the extensions contained.
proof fn lemma_extend_subseq(
    c: SubjectCombinator,
    ps1: Seq<(Seq<usize>, Seq<u8>)>,
    ps2: Seq<(Seq<usize>, Seq<u8>)>,
    k: int,
)
    requires
        subseq_of(ps1, ps2),
    ensures
        subseq_of(
            c.extend_frontier(ps1, k, ps1.len() as int),
            c.extend_frontier(ps2, k, ps2.len() as int),
        ),
    decreases ps1.len() + ps2.len(),
{
    if ps1.len() == 0 {
    } else if ps2.len() == 0 {
    } else if ps1.last() == ps2.last() && subseq_of(ps1.drop_last(), ps2.drop_last()) {
        lemma_extend_subseq(c, ps1.drop_last(), ps2.drop_last(), k);
        assert(c.extend_frontier(ps1, k, ps1.len() as int) == c.extend_frontier(
            ps1,
            k,
            ps1.len() - 1,
        ) + c.exts_of(ps1.last(), k, c.spec_count(k)));
        lemma_extend_same_prefix(c, ps1, ps1.drop_last(), k, ps1.len() - 1);
        lemma_extend_same_prefix(c, ps2, ps2.drop_last(), k, ps2.len() - 1);
        lemma_subseq_refl(c.exts_of(ps1.last(), k, c.spec_count(k)));
        lemma_subseq_concat(
            c.extend_frontier(ps1.drop_last(), k, ps1.len() - 1),
            c.exts_of(ps1.last(), k, c.spec_count(k)),
            c.extend_frontier(ps2.drop_last(), k, ps2.len() - 1),
            c.exts_of(ps2.last(), k, c.spec_count(k)),
        );
    } else {
        lemma_extend_subseq(c, ps1, ps2.drop_last(), k);
        lemma_extend_same_prefix(c, ps2, ps2.drop_last(), k, ps2.len() - 1);
        lemma_subseq_grow_right(
            c.extend_frontier(ps1, k, ps1.len() as int),
            c.extend_frontier(ps2.drop_last(), k, ps2.len() - 1),
            c.exts_of(ps2.last(), k, c.spec_count(k)),
        );
    }
}

/// Extension of the first `i` partials reads only those partials.
proof fn lemma_extend_same_prefix(
    c: SubjectCombinator,
    ps1: Seq<(Seq<usize>, Seq<u8>)>,
    ps2: Seq<(Seq<usize>, Seq<u8>)>,
    k: int,
    i: int,
)
    requires
        0 <= i <= ps1.len(),
        i <= ps2.len(),
        forall|j: int| 0 <= j < i ==> (#[trigger] ps1[j]) == ps2[j],
    ensures
        c.extend_frontier(ps1, k, i) == c.extend_frontier(ps2, k, i),
    decreases i,
{
    if i > 0 {
        lemma_extend_same_prefix(c, ps1, ps2, k, i - 1);
    }
}

/// The optional phase keeps a contained frontier contained.
proof fn lemma_run_selected_subseq(
    c: SubjectCombinator,
    ps1: Seq<(Seq<usize>, Seq<u8>)>,
    ps2: Seq<(Seq<usize>, Seq<u8>)>,
    ks: Seq<int>,
    i: int,
)
    requires
        0 <= i <= ks.len(),
        subseq_of(ps1, ps2),
    ensures
        subseq_of(c.run_selected(ps1, ks, i), c.run_selected(ps2, ks, i)),
    decreases ks.len() - i,
{
    if i < ks.len() {
        lemma_extend_subseq(c, ps1, ps2, ks[i]);
        lemma_subseq_concat(
            ps1,
            c.extend_frontier(ps1, ks[i], ps1.len() as int),
            ps2,
            c.extend_frontier(ps2, ks[i], ps2.len() as int),
        );
        lemma_run_selected_subseq(
            c,
            ps1 + c.extend_frontier(ps1, ks[i], ps1.len() as int),
            ps2 + c.extend_frontier(ps2, ks[i], ps2.len() as int),
            ks,
            i + 1,
        );
    }
}

/// The optional phase looks only at the codes not yet processed.
proof fn lemma_run_selected_skip(
    c: SubjectCombinator,
    ps: Seq<(Seq<usize>, Seq<u8>)>,
    ks: Seq<int>,
    i: int,
)
    requires
        0 <= i <= ks.len(),
    ensures
        c.run_selected(ps, ks, i) == c.run_selected(ps, ks.skip(i), 0),
    decreases ks.len() - i,
{
    if i < ks.len() {
        let next = ps + c.extend_frontier(ps, ks[i], ps.len() as int);
        lemma_run_selected_skip(c, next, ks, i + 1);
        assert(ks.skip(i).len() > 0);
        assert(ks.skip(i)[0] == ks[i]);
        assert(ks.skip(i + 1) =~= ks.skip(i).skip(1));
        lemma_run_selected_skip(c, next, ks.skip(i), 1);
    }
}

/// Law: adding one more selected code, wherever it lands in the processing
/// order, never loses a combination: every combination of the run without
/// it is still present, in order, in the run with it.
pub proof fn lemma_selected_insert_monotone(
    c: SubjectCombinator,
    ps: Seq<(Seq<usize>, Seq<u8>)>,
    ks: Seq<int>,
    pos: int,
    extra: int,
)
    requires
        0 <= pos <= ks.len(),
    ensures
        subseq_of(
            c.run_selected(ps, ks, 0),
            c.run_selected(ps, ks.insert(pos, extra), 0),
        ),
        c.run_selected(ps, ks, 0).len() <= c.run_selected(
            ps,
            ks.insert(pos, extra),
            0,
        ).len(),
    decreases pos,
{
    let ks2 = ks.insert(pos, extra);
    if pos == 0 {
        assert(ks2[0] == extra);
        let next = ps + c.extend_frontier(ps, extra, ps.len() as int);
        lemma_run_selected_skip(c, next, ks2, 1);
        assert(ks2.skip(1) =~= ks);
        lemma_subseq_refl(ps);
        lemma_subseq_grow_right(
            ps,
            ps,
            c.extend_frontier(ps, extra, ps.len() as int),
        );
        lemma_run_selected_subseq(c, ps, next, ks, 0);
    } else {
        assert(ks2[0] == ks[0]);
        let next = ps + c.extend_frontier(ps, ks[0], ps.len() as int);
        lemma_run_selected_skip(c, next, ks, 1);
        lemma_run_selected_skip(c, next, ks2, 1);
        assert(ks2.skip(1) =~= ks.skip(1).insert(pos - 1, extra));
        lemma_selected_insert_monotone(c, next, ks.skip(1), pos - 1, extra);
    }
    lemma_subseq_len(
        c.run_selected(ps, ks, 0),
        c.run_selected(ps, ks.insert(pos, extra), 0),
    );
}

/// Whether `np` extends `p` by one section of code row `k`, allowed by the
/// conflict table.
pub open spec fn is_ext(
    c: SubjectCombinator,
    p: (Seq<usize>, Seq<u8>),
    k: int,
    np: (Seq<usize>, Seq<u8>),
) -> bool {
    exists|w: int|
        #![trigger c.code_to_num@[k]@[w]]
        0 <= w < c.spec_count(k) && np.0 == p.0.push(c.code_to_num@[k]@[w]) && np.1
            == p.1.push(c.code_to_subject@[k]@[w]) && c.spec_can_add(
            p.1,
            c.code_to_subject@[k]@[w] as int,
        )
}

/// Every element of `exts_of` is an allowed one-section extension of `p`.
proof fn lemma_exts_shape(c: SubjectCombinator, p: (Seq<usize>, Seq<u8>), k: int, j: int)
    requires
        0 <= j <= c.spec_count(k),
    ensures
        forall|x: int|
            0 <= x < c.exts_of(p, k, j).len() ==> is_ext(c, p, k, #[trigger] c.exts_of(
                p,
                k,
                j,
            )[x]),
    decreases j,
{
    if j > 0 {
        lemma_exts_shape(c, p, k, j - 1);
        let prev = c.exts_of(p, k, j - 1);
        assert forall|x: int| 0 <= x < c.exts_of(p, k, j).len() implies is_ext(
            c,
            p,
            k,
            #[trigger] c.exts_of(p, k, j)[x],
        ) by {
            let cur = c.exts_of(p, k, j);
            if x < prev.len() {
                assert(cur[x] == prev[x]);
            } else {
                let w = j - 1;
                assert(c.spec_can_add(p.1, c.code_to_subject@[k]@[w] as int));
                assert(cur[x].0 == p.0.push(c.code_to_num@[k]@[w]) && cur[x].1
                    == p.1.push(c.code_to_subject@[k]@[w]));
            }
        }
    }
}

/// Every element of the extended frontier is an allowed extension of some
/// partial in the frontier.
proof fn lemma_extend_shape(
    c: SubjectCombinator,
    ps: Seq<(Seq<usize>, Seq<u8>)>,
    k: int,
    i: int,
)
    requires
        0 <= i <= ps.len(),
        0 <= c.spec_count(k),
    ensures
        forall|x: int|
            0 <= x < c.extend_frontier(ps, k, i).len() ==> exists|i0: int|
                #![trigger ps[i0]]
                0 <= i0 < i && is_ext(c, ps[i0], k, #[trigger] c.extend_frontier(
                    ps,
                    k,
                    i,
                )[x]),
    decreases i,
{
    if i > 0 {
        lemma_extend_shape(c, ps, k, i - 1);
        lemma_exts_shape(c, ps[i - 1], k, c.spec_count(k));
        let prev = c.extend_frontier(ps, k, i - 1);
        let tail = c.exts_of(ps[i - 1], k, c.spec_count(k));
        assert forall|x: int| 0 <= x < c.extend_frontier(ps, k, i).len() implies exists|
            i0: int,
        |
            #![trigger ps[i0]]
            0 <= i0 < i && is_ext(c, ps[i0], k, #[trigger] c.extend_frontier(
                ps,
                k,
                i,
            )[x]) by {
            let cur = c.extend_frontier(ps, k, i);
            if x < prev.len() {
                assert(cur[x] == prev[x]);
                let i0 = choose|i0: int|
                    #![trigger ps[i0]]
                    0 <= i0 < i - 1 && is_ext(c, ps[i0], k, prev[x]);
                assert(0 <= i0 < i && is_ext(c, ps[i0], k, cur[x]));
            } else {
                assert(cur[x] == tail[x - prev.len()]);
                assert(is_ext(c, ps[i - 1], k, cur[x]));
            }
        }
    }
}

/// Extending a sound partial with an allowed section of code row `k` keeps
/// it sound, with one more code resolved.
proof fn lemma_push_partial_ok(
    c: SubjectCombinator,
    fix: Seq<(String, usize)>,
    rks: Seq<int>,
    done: int,
    p: (Seq<usize>, Seq<u8>),
    np: (Seq<usize>, Seq<u8>),
)
    requires
        c.wf(),
        0 <= done < rks.len(),
        0 <= rks[done] < c.codes@.len(),
        c.partial_ok(fix, rks, done, p),
        is_ext(c, p, rks[done], np),
    ensures
        c.partial_ok(fix, rks, done + 1, np),
{
    let k = rks[done];
    let w = choose|w: int|
        #![trigger c.code_to_num@[k]@[w]]
        0 <= w < c.spec_count(k) && np.0 == p.0.push(c.code_to_num@[k]@[w]) && np.1
            == p.1.push(c.code_to_subject@[k]@[w]) && c.spec_can_add(
            p.1,
            c.code_to_subject@[k]@[w] as int,
        );
    let id = c.code_to_num@[k]@[w];
    let slot = c.code_to_subject@[k]@[w];
    assert forall|i: int| 0 <= i < fix.len() implies (#[trigger] np.0[i]) == c.fixed_id(
        fix,
        i,
    ) by {
        assert(np.0[i] == p.0[i]);
    }
    assert forall|q: int| 0 <= q < done + 1 implies c.id_of_code(
        #[trigger] np.0[fix.len() + q],
        rks[q],
    ) by {
        if q < done {
            assert(np.0[fix.len() + q] == p.0[fix.len() + q]);
        } else {
            assert(np.0[fix.len() + q] == id);
            assert(c.code_to_num@[k]@[w] == id);
        }
    }
    assert forall|m: int| 0 <= m < np.0.len() implies ((#[trigger] np.0[m]) as int)
        < c.subjects@.len() by {
        if m < p.0.len() {
            assert(np.0[m] == p.0[m]);
        } else {
            assert(np.0[m] == id);
        }
    }
    assert forall|m: int| 0 <= m < np.1.len() implies ((#[trigger] np.1[m]) as int)
        < c.p_len() by {
        if m < p.1.len() {
            assert(np.1[m] == p.1[m]);
        } else {
            assert(np.1[m] == slot);
        }
    }
    assert forall|m: int| 0 <= m < np.0.len() implies c.subjects@[(
    #[trigger] np.0[m]) as int]@.time_bit == c.patterns@[np.1[m] as int]@ by {
        if m < p.0.len() {
            assert(np.0[m] == p.0[m] && np.1[m] == p.1[m]);
        } else {
            assert(np.0[m] == id && np.1[m] == slot);
        }
    }
    assert forall|a: int, b: int| 0 <= a < b < np.1.len() implies !c.tbl(
        (#[trigger] np.1[a]) as int,
        (#[trigger] np.1[b]) as int,
    ) by {
        if b < p.1.len() {
            assert(np.1[a] == p.1[a] && np.1[b] == p.1[b]);
        } else {
            assert(np.1[a] == p.1[a] && np.1[b] == slot);
            assert(!c.tbl(p.1[a] as int, slot as int));
        }
    }
}

/// Running the required phase from a frontier of sound partials yields only
/// fully resolved sound partials.
proof fn lemma_run_required_sound(
    c: SubjectCombinator,
    fix: Seq<(String, usize)>,
    rks: Seq<int>,
    ps: Seq<(Seq<usize>, Seq<u8>)>,
    done: int,
)
    requires
        c.wf(),
        0 <= done <= rks.len(),
        forall|q: int| done <= q < rks.len() ==> 0 <= (#[trigger] rks[q]) < c.codes@.len(),
        forall|x: int| 0 <= x < ps.len() ==> c.partial_ok(fix, rks, done, #[trigger] ps[x]),
    ensures
        c.run_required(ps, rks, done) matches Some(qs) ==> forall|x: int|
            0 <= x < qs.len() ==> c.partial_ok(fix, rks, rks.len() as int, #[trigger] qs[x]),
    decreases rks.len() - done,
{
    if done < rks.len() {
        let k = rks[done];
        let next = c.extend_frontier(ps, k, ps.len() as int);
        if next.len() > 0 {
            lemma_extend_shape(c, ps, k, ps.len() as int);
            assert forall|x: int| 0 <= x < next.len() implies c.partial_ok(
                fix,
                rks,
                done + 1,
                #[trigger] next[x],
            ) by {
                let i0 = choose|i0: int|
                    #![trigger ps[i0]]
                    0 <= i0 < ps.len() && is_ext(c, ps[i0], k, next[x]);
                lemma_push_partial_ok(c, fix, rks, done, ps[i0], next[x]);
            }
            lemma_run_required_sound(c, fix, rks, next, done + 1);
        }
    }
}

/// Extending a sound finished combination with an allowed section of a
/// selected code row keeps it sound.
proof fn lemma_push_combo_ok(
    c: SubjectCombinator,
    fix: Seq<(String, usize)>,
    rks: Seq<int>,
    sks: Seq<int>,
    t: int,
    p: (Seq<usize>, Seq<u8>),
    np: (Seq<usize>, Seq<u8>),
)
    requires
        c.wf(),
        0 <= t < sks.len(),
        0 <= sks[t] < c.codes@.len(),
        c.combo_ok(fix, rks, sks, p),
        is_ext(c, p, sks[t], np),
    ensures
        c.combo_ok(fix, rks, sks, np),
{
    let k = sks[t];
    let w = choose|w: int|
        #![trigger c.code_to_num@[k]@[w]]
        0 <= w < c.spec_count(k) && np.0 == p.0.push(c.code_to_num@[k]@[w]) && np.1
            == p.1.push(c.code_to_subject@[k]@[w]) && c.spec_can_add(
            p.1,
            c.code_to_subject@[k]@[w] as int,
        );
    let id = c.code_to_num@[k]@[w];
    let slot = c.code_to_subject@[k]@[w];
    assert forall|i: int| 0 <= i < fix.len() implies (#[trigger] np.0[i]) == c.fixed_id(
        fix,
        i,
    ) by {
        assert(np.0[i] == p.0[i]);
    }
    assert forall|q: int| 0 <= q < rks.len() implies c.id_of_code(
        #[trigger] np.0[fix.len() + q],
        rks[q],
    ) by {
        assert(np.0[fix.len() + q] == p.0[fix.len() + q]);
    }
    assert forall|e: int| fix.len() + rks.len() <= e < np.0.len() implies exists|t2: int|
        0 <= t2 < sks.len() && c.id_of_code(#[trigger] np.0[e], sks[t2]) by {
        if e < p.0.len() {
            assert(np.0[e] == p.0[e]);
        } else {
            assert(np.0[e] == id);
            assert(c.code_to_num@[k]@[w] == id);
            assert(c.id_of_code(np.0[e], sks[t]));
        }
    }
    assert forall|m: int| 0 <= m < np.0.len() implies ((#[trigger] np.0[m]) as int)
        < c.subjects@.len() by {
        if m < p.0.len() {
            assert(np.0[m] == p.0[m]);
        } else {
            assert(np.0[m] == id);
        }
    }
    assert forall|m: int| 0 <= m < np.1.len() implies ((#[trigger] np.1[m]) as int)
        < c.p_len() by {
        if m < p.1.len() {
            assert(np.1[m] == p.1[m]);
        } else {
            assert(np.1[m] == slot);
        }
    }
    assert forall|m: int| 0 <= m < np.0.len() implies c.subjects@[(
    #[trigger] np.0[m]) as int]@.time_bit == c.patterns@[np.1[m] as int]@ by {
        if m < p.0.len() {
            assert(np.0[m] == p.0[m] && np.1[m] == p.1[m]);
        } else {
            assert(np.0[m] == id && np.1[m] == slot);
        }
    }
    assert forall|a: int, b: int| 0 <= a < b < np.1.len() implies !c.tbl(
        (#[trigger] np.1[a]) as int,
        (#[trigger] np.1[b]) as int,
    ) by {
        if b < p.1.len() {
            assert(np.1[a] == p.1[a] && np.1[b] == p.1[b]);
        } else {
            assert(np.1[a] == p.1[a] && np.1[b] == slot);
            assert(!c.tbl(p.1[a] as int, slot as int));
        }
    }
}

/// Running the optional phase from sound finished combinations yields only
/// sound finished combinations.
proof fn lemma_run_selected_sound(
    c: SubjectCombinator,
    fix: Seq<(String, usize)>,
    rks: Seq<int>,
    sks: Seq<int>,
    ps: Seq<(Seq<usize>, Seq<u8>)>,
    t: int,
)
    requires
        c.wf(),
        0 <= t <= sks.len(),
        forall|t2: int| t <= t2 < sks.len() ==> 0 <= (#[trigger] sks[t2]) < c.codes@.len(),
        forall|x: int| 0 <= x < ps.len() ==> c.combo_ok(fix, rks, sks, #[trigger] ps[x]),
    ensures
        forall|x: int|
            0 <= x < c.run_selected(ps, sks, t).len() ==> c.combo_ok(
                fix,
                rks,
                sks,
                #[trigger] c.run_selected(ps, sks, t)[x],
            ),
    decreases sks.len() - t,
{
    if t < sks.len() {
        let k = sks[t];
        let ext = c.extend_frontier(ps, k, ps.len() as int);
        let next = ps + ext;
        lemma_extend_shape(c, ps, k, ps.len() as int);
        assert forall|x: int| 0 <= x < next.len() implies c.combo_ok(
            fix,
            rks,
            sks,
            #[trigger] next[x],
        ) by {
            if x < ps.len() {
                assert(next[x] == ps[x]);
            } else {
                assert(next[x] == ext[x - ps.len()]);
                let i0 = choose|i0: int|
                    #![trigger ps[i0]]
                    0 <= i0 < ps.len() && is_ext(c, ps[i0], k, ext[x - ps.len()]);
                lemma_push_combo_ok(c, fix, rks, sks, t, ps[i0], next[x]);
            }
        }
        lemma_run_selected_sound(c, fix, rks, sks, next, t + 1);
        assert forall|x: int| 0 <= x < c.run_selected(ps, sks, t).len() implies c.combo_ok(
            fix,
            rks,
            sks,
            #[trigger] c.run_selected(ps, sks, t)[x],
        ) by {
            assert(c.run_selected(ps, sks, t) == c.run_selected(next, sks, t + 1));
            assert(c.run_selected(ps, sks, t)[x] == c.run_selected(next, sks, t + 1)[x]);
        }
    } else {
        assert forall|x: int| 0 <= x < c.run_selected(ps, sks, t).len() implies c.combo_ok(
            fix,
            rks,
            sks,
            #[trigger] c.run_selected(ps, sks, t)[x],
        ) by {
            assert(c.run_selected(ps, sks, t)[x] == ps[x]);
        }
    }
}

/// Every code of a list without an unknown code is itself known.
proof fn lemma_first_unknown_none_pointwise(c: SubjectCombinator, list: Seq<String>)
    requires
        c.first_unknown(list) is None,
    ensures
        forall|j: int| 0 <= j < list.len() ==> c.spec_has_code((#[trigger] list[j])@),
    decreases list.len(),
{
    if list.len() > 0 {
        lemma_first_unknown_none_pointwise(c, list.drop_first());
        assert forall|j: int| 0 <= j < list.len() implies c.spec_has_code(
            (#[trigger] list[j])@,
        ) by {
            if j > 0 {
                assert(list.drop_first()[j - 1] == list[j]);
            }
        }
    }
}

/// The fewest-options ordering of a fully known code list resolves to valid
/// catalog rows, one per listed code.
proof fn lemma_sorted_indices_valid(c: SubjectCombinator, list: Seq<String>)
    requires
        c.wf(),
        c.first_unknown(list) is None,
    ensures
        c.sorted_indices(list).len() == list.len(),
        forall|q: int|
            0 <= q < list.len() ==> 0 <= (#[trigger] c.sorted_indices(list)[q])
                < c.codes@.len(),
{
    lemma_first_unknown_none_pointwise(c, list);
    let pairs = c.resolve_pairs(list);
    crate::sorting::lemma_sort_stable_ensures(pairs);
    let sorted = crate::sorting::sort_stable(pairs);
    assert forall|q: int| 0 <= q < list.len() implies 0 <= (
    #[trigger] c.sorted_indices(list)[q]) < c.codes@.len() by {
        assert(sorted.contains(sorted[q]));
        assert(pairs.contains(sorted[q]));
        let w = choose|w: int| 0 <= w < pairs.len() && pairs[w] == sorted[q];
        assert(c.spec_has_code(list[w]@));
        assert(c.sorted_indices(list)[q] == sorted[q].1 as int);
    }
}

/// Law: every returned combination is sound: it holds the fixed sections in
/// order, then exactly one section of each required code (in the
/// fewest-options order the engine uses), then sections of selected codes
/// only, all aligned with the catalog, and no two of its sections' weekly
/// patterns conflict.
pub proof fn lemma_combinations_sound(
    c: SubjectCombinator,
    fix: Seq<(String, usize)>,
    req: Seq<String>,
    sel: Seq<String>,
)
    requires
        c.wf(),
        c.combine_spec(fix, req, sel) is Combos,
    ensures
        ({
            let cs = c.combine_spec(fix, req, sel)->Combos_0;
            forall|x: int|
                0 <= x < cs.len() ==> c.combo_ids_ok(
                    fix,
                    c.sorted_indices(req),
                    c.sorted_indices(sel),
                    #[trigger] cs[x],
                )
        }),
{
    let rks = c.sorted_indices(req);
    let sks = c.sorted_indices(sel);
    let p0 = c.seed_fixed(fix)->Some_0;
    let base = c.run_required(seq![p0], rks, 0)->Some_0;
    let full = c.run_selected(base, sks, 0);
    let cs = c.combine_spec(fix, req, sel)->Combos_0;
    lemma_sorted_indices_valid(c, req);
    lemma_sorted_indices_valid(c, sel);
    lemma_first_bad_none_pointwise(c, fix);
    lemma_seed_props(c, fix);
    assert(c.partial_ok(fix, rks, 0, p0)) by {
        assert forall|i: int| 0 <= i < fix.len() implies ((#[trigger] p0.1[i]) as int)
            < c.p_len() by {
            assert(c.spec_has_code(fix[i].0@));
        }
        assert forall|m: int| 0 <= m < p0.0.len() implies ((#[trigger] p0.0[m]) as int)
            < c.subjects@.len() && c.subjects@[p0.0[m] as int]@.time_bit == c.patterns@[
            p0.1[m] as int
        ]@ by {
            assert(c.spec_has_code(fix[m].0@));
            assert(p0.1[m] as int == c.fixed_slot(fix, m));
            assert(p0.0[m] == c.fixed_id(fix, m));
        }
    }
    assert forall|x: int| 0 <= x < seq![p0].len() implies c.partial_ok(
        fix,
        rks,
        0,
        #[trigger] seq![p0][x],
    ) by {
        assert(seq![p0][x] == p0);
    }
    lemma_run_required_sound(c, fix, rks, seq![p0], 0);
    assert forall|x: int| 0 <= x < base.len() implies c.combo_ok(
        fix,
        rks,
        sks,
        #[trigger] base[x],
    ) by {
        assert(c.partial_ok(fix, rks, rks.len() as int, base[x]));
    }
    lemma_run_selected_sound(c, fix, rks, sks, base, 0);
    assert forall|x: int| 0 <= x < cs.len() implies c.combo_ids_ok(
        fix,
        rks,
        sks,
        #[trigger] cs[x],
    ) by {
        let mapped = full.map_values(|p: (Seq<usize>, Seq<u8>)| p.0);
        let y = cs.len() - 1 - x;
        assert(cs[x] == mapped[y]);
        assert(mapped[y] == full[y].0);
        assert(c.combo_ok(fix, rks, sks, full[y]));
        assert(c.combo_ok(fix, rks, sks, (cs[x], full[y].1)));
    }
}

/// Law: in a sound combination, no two sections' weekly patterns share an
/// occupied block, checked directly on the catalog entries.
pub proof fn lemma_combo_ok_conflict_free(
    c: SubjectCombinator,
    fix: Seq<(String, usize)>,
    rks: Seq<int>,
    sks: Seq<int>,
    p: (Seq<usize>, Seq<u8>),
)
    requires
        c.wf(),
        c.combo_ok(fix, rks, sks, p),
    ensures
        forall|a: int, b: int|
            0 <= a < b < p.0.len() ==> !crate::subject::spec_conflicts(
                c.subjects@[(#[trigger] p.0[a]) as int]@.time_bit,
                c.subjects@[(#[trigger] p.0[b]) as int]@.time_bit,
            ),
{
    assert forall|a: int, b: int| 0 <= a < b < p.0.len() implies !crate::subject::spec_conflicts(
        c.subjects@[(#[trigger] p.0[a]) as int]@.time_bit,
        c.subjects@[(#[trigger] p.0[b]) as int]@.time_bit,
    ) by {
        assert(!c.tbl(p.1[a] as int, p.1[b] as int));
        assert(c.subjects@[p.0[a] as int]@.time_bit == c.patterns@[p.1[a] as int]@);
        assert(c.subjects@[p.0[b] as int]@.time_bit == c.patterns@[p.1[b] as int]@);
    }
}

/// Law: listing one more selected code never loses a combination.  When a
/// query and the same query with one extra selected code both return
/// combination lists, the run without the code sits inside the run with it,
/// so the longer query returns at least as many combinations.
pub proof fn lemma_selected_push_monotone(
    c: SubjectCombinator,
    fix: Seq<(String, usize)>,
    req: Seq<String>,
    sel: Seq<String>,
    code: String,
)
    requires
        c.wf(),
        c.combine_spec(fix, req, sel) is Combos,
        c.combine_spec(fix, req, sel.push(code)) is Combos,
    ensures
        (c.combine_spec(fix, req, sel)->Combos_0).len() <= (c.combine_spec(
            fix,
            req,
            sel.push(code),
        )->Combos_0).len(),
{
    let sel2 = sel.push(code);
    let p0 = c.seed_fixed(fix)->Some_0;
    let rks = c.sorted_indices(req);
    let base = c.run_required(seq![p0], rks, 0)->Some_0;
    let sks = c.sorted_indices(sel);
    let sks2 = c.sorted_indices(sel2);
    lemma_first_unknown_none_pointwise(c, sel2);
    assert(sel2[sel.len() as int] == code);
    assert(c.spec_has_code(code@));
    let k = c.spec_code_index(code@);
    let x = ((c.spec_count(k) as u64), k as usize);
    let pairs = c.resolve_pairs(sel);
    let pairs2 = c.resolve_pairs(sel2);
    assert(pairs2 =~= pairs.push(x)) by {
        assert forall|i: int| 0 <= i < pairs2.len() implies pairs2[i] == pairs.push(
            x,
        )[i] by {
            if i < pairs.len() {
                assert(sel2[i] == sel[i]);
            } else {
                assert(sel2[i] == code);
            }
        }
    }
    crate::sorting::lemma_sort_stable_ensures(pairs);
    let sorted = crate::sorting::sort_stable(pairs);
    let ip = crate::sorting::insertion_point(sorted, x.0);
    crate::sorting::lemma_insertion_point_props(sorted, x.0);
    crate::sorting::lemma_sort_stable_push(pairs, x);
    let sorted2 = crate::sorting::sort_stable(pairs2);
    assert(sorted2 == sorted.insert(ip, x));
    sorted.insert_ensures(ip, x);
    let extra = x.1 as int;
    assert(sks2 =~= sks.insert(ip, extra)) by {
        assert(sks2.len() == sorted2.len());
        assert(sorted2.len() == sorted.len() + 1);
        assert forall|q: int| 0 <= q < sks2.len() implies sks2[q] == sks.insert(
            ip,
            extra,
        )[q] by {
            assert(sks2[q] == sorted2[q].1 as int);
            sks.insert_ensures(ip, extra);
            if q < ip {
                assert(sorted2[q] == sorted[q]);
                assert(sks[q] == sorted[q].1 as int);
            } else if q == ip {
                assert(sorted2[q] == x);
            } else {
                assert(sorted2[q] == sorted[q - 1]);
                assert(sks[q - 1] == sorted[q - 1].1 as int);
            }
        }
    }
    lemma_selected_insert_monotone(c, base, sks, ip, extra);
    let full1 = c.run_selected(base, sks, 0);
    let full2 = c.run_selected(base, sks2, 0);
    assert(full2 == c.run_selected(base, sks.insert(ip, extra), 0));
    assert((c.combine_spec(fix, req, sel)->Combos_0).len() == full1.len());
    assert((c.combine_spec(fix, req, sel2)->Combos_0).len() == full2.len());
}

} // verus!
