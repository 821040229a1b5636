use vstd::prelude::*;
use crate::bits::BitArray;
use crate::errors::{BuildError, QueryError, QueryErrorKind};
use crate::sorting::sort_stable;
use crate::subject::{spec_conflicts, Subject};

verus! {

/// The compiled engine: the catalog, the distinct weekly occupancy patterns
/// in first-seen order (the slot of a pattern is its index here), one
/// conflict-mask row per slot, and, per course code, the slot and the catalog
/// index of each of its sections, aligned and ordered by class number.
#[derive(Clone)]
pub struct SubjectCombinator {
    pub subjects: Vec<Subject>,
    pub patterns: Vec<[u64; 5]>,
    pub conflict_array: Vec<BitArray>,
    pub codes: Vec<String>,
    pub code_to_subject: Vec<Vec<u8>>,
    pub code_to_num: Vec<Vec<usize>>,
}

impl SubjectCombinator {
    /// How many distinct patterns the engine holds.
    pub open spec fn p_len(self) -> int {
        self.patterns@.len() as int
    }

    /// Whether the patterns of slots `s1` and `s2` conflict.
    pub open spec fn tbl(self, s1: int, s2: int) -> bool {
        spec_conflicts(self.patterns@[s1]@, self.patterns@[s2]@)
    }

    /// How many sections course code `k` has.
    pub open spec fn spec_count(self, k: int) -> int {
        self.code_to_subject@[k]@.len() as int
    }

    /// Well-formedness: the three per-code tables are aligned; every slot
    /// indexes a pattern and every section index the catalog; each section's
    /// pattern is its slot's pattern and its code its row's code; codes are
    /// distinct; and the 256 conflict rows record exactly the pairwise
    /// pattern conflicts.
    pub open spec fn wf(self) -> bool {
        &&& self.conflict_array@.len() == 256
        &&& self.patterns@.len() <= 256
        &&& self.codes@.len() == self.code_to_subject@.len()
        &&& self.codes@.len() == self.code_to_num@.len()
        &&& forall|k: int|
            0 <= k < self.codes@.len() ==> (#[trigger] self.code_to_subject@[k])@.len()
                == self.code_to_num@[k]@.len()
        &&& forall|k: int, j: int|
            0 <= k < self.codes@.len() && 0 <= j < self.code_to_subject@[k]@.len()
                ==> (#[trigger] self.code_to_subject@[k]@[j]) < self.patterns@.len()
        &&& forall|k: int, j: int|
            0 <= k < self.codes@.len() && 0 <= j < self.code_to_num@[k]@.len()
                ==> (#[trigger] self.code_to_num@[k]@[j]) < self.subjects@.len()
        &&& forall|k: int, j: int|
            0 <= k < self.codes@.len() && 0 <= j < self.code_to_num@[k]@.len()
                ==> self.subjects@[#[trigger] self.code_to_num@[k]@[j] as int]@.time_bit
                == self.patterns@[self.code_to_subject@[k]@[j] as int]@
        &&& forall|k: int, j: int|
            0 <= k < self.codes@.len() && 0 <= j < self.code_to_num@[k]@.len()
                ==> self.subjects@[#[trigger] self.code_to_num@[k]@[j] as int]@.code
                == self.codes@[k]@
        &&& forall|k1: int, k2: int|
            0 <= k1 < self.codes@.len() && 0 <= k2 < self.codes@.len() && k1 != k2
                ==> (#[trigger] self.codes@[k1])@ != (#[trigger] self.codes@[k2])@
        &&& forall|s1: int, s2: int|
            0 <= s1 < self.p_len() && 0 <= s2 < self.p_len() && s1 != s2
                ==> (#[trigger] self.patterns@[s1])@ != (#[trigger] self.patterns@[s2])@
        &&& forall|s1: int, b: u8|
            0 <= s1 < 256 ==> ((#[trigger] self.conflict_array@[s1].spec_get(b)) <==> (
            s1 < self.p_len() && (b as int) < self.p_len() && self.tbl(s1, b as int)))
    }

    /// Whether the catalog knows course code `c`.
    pub open spec fn spec_has_code(self, c: Seq<char>) -> bool {
        exists|k: int| 0 <= k < self.codes@.len() && (#[trigger] self.codes@[k])@ == c
    }

    /// The row of course code `c`; meaningful only when the code is known.
    pub open spec fn spec_code_index(self, c: Seq<char>) -> int {
        choose|k: int| 0 <= k < self.codes@.len() && (#[trigger] self.codes@[k])@ == c
    }

    /// The first course code of `list` that the catalog does not know.
    pub open spec fn first_unknown(self, list: Seq<String>) -> Option<Seq<char>>
        decreases list.len(),
    {
        if list.len() == 0 {
            None
        } else if !self.spec_has_code(list[0]@) {
            Some(list[0]@)
        } else {
            self.first_unknown(list.drop_first())
        }
    }

    /// The first offending fixed entry: an unknown code, or a section
    /// position out of range for its code.
    pub open spec fn first_bad_fixed(self, fix: Seq<(String, usize)>) -> Option<
        (Seq<char>, QueryErrorKind),
    >
        decreases fix.len(),
    {
        if fix.len() == 0 {
            None
        } else if !self.spec_has_code(fix[0].0@) {
            Some((fix[0].0@, QueryErrorKind::UnknownFixedCode))
        } else if fix[0].1 >= self.spec_count(self.spec_code_index(fix[0].0@)) {
            Some((fix[0].0@, QueryErrorKind::InvalidFixedPosition))
        } else {
            self.first_bad_fixed(fix.drop_first())
        }
    }

    /// A candidate slot may join a partial combination when it conflicts
    /// with none of the slots already used.
    pub open spec fn spec_can_add(self, slots: Seq<u8>, slot: int) -> bool {
        forall|m: int| 0 <= m < slots.len() ==> !self.tbl((#[trigger] slots[m]) as int, slot)
    }

    /// The partial combination that the fixed entries seed, processed in
    /// order: `None` as soon as a fixed section's slot conflicts with an
    /// earlier fixed slot.  Meaningful only when `first_bad_fixed` is `None`.
    pub open spec fn seed_fixed(self, fix: Seq<(String, usize)>) -> Option<
        (Seq<usize>, Seq<u8>),
    >
        decreases fix.len(),
    {
        if fix.len() == 0 {
            Some((Seq::empty(), Seq::empty()))
        } else {
            match self.seed_fixed(fix.drop_last()) {
                None => None,
                Some(p) => {
                    let k = self.spec_code_index(fix.last().0@);
                    let slot = self.code_to_subject@[k]@[fix.last().1 as int];
                    let id = self.code_to_num@[k]@[fix.last().1 as int];
                    if self.spec_can_add(p.1, slot as int) {
                        Some((p.0.push(id), p.1.push(slot)))
                    } else {
                        None
                    }
                },
            }
        }
    }

    /// Every way to extend partial `p` with one of the first `j` sections of
    /// code `k`, in section order.
    pub open spec fn exts_of(self, p: (Seq<usize>, Seq<u8>), k: int, j: int) -> Seq<
        (Seq<usize>, Seq<u8>),
    >
        decreases j,
    {
        if j <= 0 {
            Seq::empty()
        } else {
            let slot = self.code_to_subject@[k]@[j - 1];
            let id = self.code_to_num@[k]@[j - 1];
            self.exts_of(p, k, j - 1) + (if self.spec_can_add(p.1, slot as int) {
                seq![(p.0.push(id), p.1.push(slot))]
            } else {
                Seq::empty()
            })
        }
    }

    /// Every extension of the first `i` partials of the frontier by one
    /// section of code `k`.
    pub open spec fn extend_frontier(
        self,
        ps: Seq<(Seq<usize>, Seq<u8>)>,
        k: int,
        i: int,
    ) -> Seq<(Seq<usize>, Seq<u8>)>
        decreases i,
    {
        if i <= 0 {
            Seq::empty()
        } else {
            self.extend_frontier(ps, k, i - 1) + self.exts_of(ps[i - 1], k, self.spec_count(k))
        }
    }

    /// Replaces the frontier by its extensions for each required code in
    /// turn; `None` as soon as some required code extends nothing.
    pub open spec fn run_required(
        self,
        ps: Seq<(Seq<usize>, Seq<u8>)>,
        ks: Seq<int>,
        i: int,
    ) -> Option<Seq<(Seq<usize>, Seq<u8>)>>
        decreases ks.len() - i,
    {
        if i >= ks.len() {
            Some(ps)
        } else {
            let next = self.extend_frontier(ps, ks[i], ps.len() as int);
            if next.len() == 0 {
                None
            } else {
                self.run_required(next, ks, i + 1)
            }
        }
    }

    /// Appends, for each selected code in turn, every extension of the
    /// current frontier, keeping the unextended partials.
    pub open spec fn run_selected(
        self,
        ps: Seq<(Seq<usize>, Seq<u8>)>,
        ks: Seq<int>,
        i: int,
    ) -> Seq<(Seq<usize>, Seq<u8>)>
        decreases ks.len() - i,
    {
        if i >= ks.len() {
            ps
        } else {
            self.run_selected(
                ps + self.extend_frontier(ps, ks[i], ps.len() as int),
                ks,
                i + 1,
            )
        }
    }

    /// Each code of `list` tagged with its section count, for the
    /// fewest-options-first ordering.  Meaningful only when every code is
    /// known.
    pub open spec fn resolve_pairs(self, list: Seq<String>) -> Seq<(u64, usize)> {
        Seq::new(
            list.len(),
            |i: int|
                (
                    self.spec_count(self.spec_code_index(list[i]@)) as u64,
                    self.spec_code_index(list[i]@) as usize,
                ),
        )
    }

    /// The rows of `list`'s codes, stably sorted ascending by how many
    /// sections each code has.
    pub open spec fn sorted_indices(self, list: Seq<String>) -> Seq<int> {
        sort_stable(self.resolve_pairs(list)).map_values(|p: (u64, usize)| p.1 as int)
    }
}

/// The distinct weekly patterns among the first `i` catalog entries, in
/// first-seen order; a pattern's index here is its slot.
pub open spec fn firstseen_patterns(subs: Seq<Subject>, i: int) -> Seq<Seq<u64>>
    decreases i,
{
    if i <= 0 {
        Seq::empty()
    } else {
        let prev = firstseen_patterns(subs, i - 1);
        if prev.contains(subs[i - 1]@.time_bit) {
            prev
        } else {
            prev.push(subs[i - 1]@.time_bit)
        }
    }
}

/// The distinct course codes among the first `i` catalog entries, in
/// first-seen order.
pub open spec fn firstseen_codes(subs: Seq<Subject>, i: int) -> Seq<Seq<char>>
    decreases i,
{
    if i <= 0 {
        Seq::empty()
    } else {
        let prev = firstseen_codes(subs, i - 1);
        if prev.contains(subs[i - 1]@.code) {
            prev
        } else {
            prev.push(subs[i - 1]@.code)
        }
    }
}

/// The catalog indices, in order, of the sections of code `c` among the
/// first `i` entries.
pub open spec fn code_positions(subs: Seq<Subject>, c: Seq<char>, i: int) -> Seq<usize>
    decreases i,
{
    if i <= 0 {
        Seq::empty()
    } else {
        let prev = code_positions(subs, c, i - 1);
        if subs[i - 1]@.code == c {
            prev.push((i - 1) as usize)
        } else {
            prev
        }
    }
}

/// Each position tagged with its section's class number, for ordering a
/// code's sections.
pub open spec fn class_pairs(subs: Seq<Subject>, pos: Seq<usize>) -> Seq<(u64, usize)> {
    Seq::new(pos.len(), |i: int| (subs[pos[i] as int]@.class_num as u64, pos[i]))
}

/// The catalog indices of code `c`'s sections, stably sorted ascending by
/// class number.
pub open spec fn sorted_code_ids(subs: Seq<Subject>, c: Seq<char>) -> Seq<usize> {
    sort_stable(class_pairs(subs, code_positions(subs, c, subs.len() as int))).map_values(
        |p: (u64, usize)| p.1,
    )
}

/// The count of distinct patterns never shrinks as the catalog is scanned.
proof fn lemma_firstseen_patterns_mono(subs: Seq<Subject>, i: int, j: int)
    requires
        i <= j,
    ensures
        firstseen_patterns(subs, i).len() <= firstseen_patterns(subs, j).len(),
    decreases j - i,
{
    if i < j {
        lemma_firstseen_patterns_mono(subs, i, j - 1);
    }
}

/// Every already-scanned entry's pattern is among the first-seen patterns.
proof fn lemma_firstseen_patterns_contains(subs: Seq<Subject>, j: int, i: int)
    requires
        0 <= j < i,
    ensures
        firstseen_patterns(subs, i).contains(subs[j]@.time_bit),
    decreases i,
{
    if j == i - 1 {
        if !firstseen_patterns(subs, i - 1).contains(subs[j]@.time_bit) {
            assert(firstseen_patterns(subs, i).last() == subs[j]@.time_bit);
        }
    } else {
        lemma_firstseen_patterns_contains(subs, j, i - 1);
        let prev = firstseen_patterns(subs, i - 1);
        let m = choose|m: int| 0 <= m < prev.len() && prev[m] == subs[j]@.time_bit;
        assert(firstseen_patterns(subs, i)[m] == subs[j]@.time_bit);
    }
}

/// First-seen patterns are pairwise distinct.
proof fn lemma_firstseen_patterns_distinct(subs: Seq<Subject>, i: int)
    ensures
        forall|k1: int, k2: int|
            0 <= k1 < firstseen_patterns(subs, i).len() && 0 <= k2 < firstseen_patterns(
                subs,
                i,
            ).len() && k1 != k2 ==> (#[trigger] firstseen_patterns(subs, i)[k1])
                != (#[trigger] firstseen_patterns(subs, i)[k2]),
    decreases i,
{
    if i > 0 {
        lemma_firstseen_patterns_distinct(subs, i - 1);
        let prev = firstseen_patterns(subs, i - 1);
        let cur = firstseen_patterns(subs, i);
        assert forall|k1: int, k2: int|
            0 <= k1 < cur.len() && 0 <= k2 < cur.len() && k1 != k2 implies (
        #[trigger] cur[k1]) != (#[trigger] cur[k2]) by {
            if !prev.contains(subs[i - 1]@.time_bit) {
                if k1 < prev.len() && k2 < prev.len() {
                    assert(cur[k1] == prev[k1] && cur[k2] == prev[k2]);
                } else if k1 < prev.len() {
                    assert(cur[k2] == subs[i - 1]@.time_bit);
                    if cur[k1] == cur[k2] {
                        assert(prev.contains(subs[i - 1]@.time_bit));
                    }
                } else {
                    assert(cur[k1] == subs[i - 1]@.time_bit);
                    if cur[k1] == cur[k2] {
                        assert(prev.contains(subs[i - 1]@.time_bit));
                    }
                }
            }
        }
    }
}

/// First-seen codes are pairwise distinct.
proof fn lemma_firstseen_codes_distinct(subs: Seq<Subject>, i: int)
    ensures
        forall|k1: int, k2: int|
            0 <= k1 < firstseen_codes(subs, i).len() && 0 <= k2 < firstseen_codes(
                subs,
                i,
            ).len() && k1 != k2 ==> (#[trigger] firstseen_codes(subs, i)[k1])
                != (#[trigger] firstseen_codes(subs, i)[k2]),
    decreases i,
{
    if i > 0 {
        lemma_firstseen_codes_distinct(subs, i - 1);
        let prev = firstseen_codes(subs, i - 1);
        let cur = firstseen_codes(subs, i);
        assert forall|k1: int, k2: int|
            0 <= k1 < cur.len() && 0 <= k2 < cur.len() && k1 != k2 implies (
        #[trigger] cur[k1]) != (#[trigger] cur[k2]) by {
            if !prev.contains(subs[i - 1]@.code) {
                if k1 < prev.len() && k2 < prev.len() {
                    assert(cur[k1] == prev[k1] && cur[k2] == prev[k2]);
                } else if k1 < prev.len() {
                    assert(cur[k2] == subs[i - 1]@.code);
                    if cur[k1] == cur[k2] {
                        assert(prev.contains(subs[i - 1]@.code));
                    }
                } else {
                    assert(cur[k1] == subs[i - 1]@.code);
                    if cur[k1] == cur[k2] {
                        assert(prev.contains(subs[i - 1]@.code));
                    }
                }
            }
        }
    }
}

/// Every first-seen pattern comes from some catalog entry.
proof fn lemma_firstseen_patterns_from_catalog(subs: Seq<Subject>, i: int)
    ensures
        forall|x: Seq<u64>|
            firstseen_patterns(subs, i).contains(x) ==> exists|j: int|
                0 <= j < i && (#[trigger] subs[j])@.time_bit == x,
    decreases i,
{
    if i > 0 {
        lemma_firstseen_patterns_from_catalog(subs, i - 1);
        let prev = firstseen_patterns(subs, i - 1);
        let cur = firstseen_patterns(subs, i);
        assert forall|x: Seq<u64>| cur.contains(x) implies exists|j: int|
            0 <= j < i && (#[trigger] subs[j])@.time_bit == x by {
            let m = choose|m: int| 0 <= m < cur.len() && cur[m] == x;
            if m < prev.len() {
                assert(prev[m] == x);
                assert(prev.contains(x));
            } else {
                assert(subs[i - 1]@.time_bit == x);
            }
        }
    }
}

/// Law: the first-seen patterns of a catalog are exactly its distinct
/// weekly occupancy patterns: pairwise different, covering every entry, and
/// nothing more.  Their number is therefore the distinct-pattern count that
/// the 256-slot capacity bound of `SubjectCombinator::new` speaks of.
pub proof fn lemma_firstseen_patterns_exact(subs: Seq<Subject>, i: int)
    requires
        0 <= i <= subs.len(),
    ensures
        forall|k1: int, k2: int|
            0 <= k1 < firstseen_patterns(subs, i).len() && 0 <= k2 < firstseen_patterns(
                subs,
                i,
            ).len() && k1 != k2 ==> (#[trigger] firstseen_patterns(subs, i)[k1])
                != (#[trigger] firstseen_patterns(subs, i)[k2]),
        forall|j: int|
            0 <= j < i ==> firstseen_patterns(subs, i).contains(
                (#[trigger] subs[j])@.time_bit,
            ),
        forall|x: Seq<u64>|
            firstseen_patterns(subs, i).contains(x) ==> exists|j: int|
                0 <= j < i && (#[trigger] subs[j])@.time_bit == x,
{
    lemma_firstseen_patterns_distinct(subs, i);
    lemma_firstseen_patterns_from_catalog(subs, i);
    assert forall|j: int| 0 <= j < i implies firstseen_patterns(subs, i).contains(
        (#[trigger] subs[j])@.time_bit,
    ) by {
        lemma_firstseen_patterns_contains(subs, j, i);
    }
}

/// The positions of a code all lie below `i`, carry that code, and are
/// strictly increasing.
proof fn lemma_code_positions_props(subs: Seq<Subject>, c: Seq<char>, i: int)
    requires
        i <= usize::MAX,
    ensures
        forall|t: int|
            0 <= t < code_positions(subs, c, i).len() ==> (#[trigger] code_positions(
                subs,
                c,
                i,
            )[t]) < i && subs[code_positions(subs, c, i)[t] as int]@.code == c,
    decreases i,
{
    if i > 0 {
        lemma_code_positions_props(subs, c, i - 1);
        let prev = code_positions(subs, c, i - 1);
        let cur = code_positions(subs, c, i);
        assert forall|t: int| 0 <= t < cur.len() implies (cur[t] < i && subs[cur[
            t
        ] as int]@.code == c) by {
            if subs[i - 1]@.code == c {
                if t < prev.len() {
                    assert(cur[t] == prev[t]);
                } else {
                    assert(cur[t] == (i - 1) as usize);
                }
            } else {
                assert(cur[t] == prev[t]);
            }
        }
    }
}

/// A fresh copy of an id list.
pub(crate) fn clone_ids(v: &Vec<usize>) -> (r: Vec<usize>)
    ensures
        r@ == v@,
{
    let mut r: Vec<usize> = Vec::new();
    let mut i: usize = 0;
    while i < v.len()
        invariant
            i <= v.len(),
            r@ == v@.take(i as int),
        decreases v.len() - i,
    {
        r.push(v[i]);
        proof {
            assert(r@ =~= v@.take(i + 1));
        }
        i = i + 1;
    }
    proof {
        assert(v@.take(v@.len() as int) =~= v@);
    }
    r
}

/// First element of a `String` vector equal to `c`, if any.
fn find_string(v: &Vec<String>, c: &String) -> (r: Option<usize>)
    ensures
        match r {
            Some(k) => k < v@.len() && v@[k as int]@ == c@,
            None => forall|j: int| 0 <= j < v@.len() ==> (#[trigger] v@[j])@ != c@,
        },
{
    let mut k: usize = 0;
    while k < v.len()
        invariant
            k <= v.len(),
            forall|j: int| 0 <= j < k ==> (#[trigger] v@[j])@ != c@,
        decreases v.len() - k,
    {
        if v[k] == *c {
            return Some(k);
        }
        k = k + 1;
    }
    None
}

/// Whether two weekly patterns are identical.
fn patterns_equal(a: &[u64; 5], b: &[u64; 5]) -> (r: bool)
    ensures
        r == (a@ == b@),
{
    let mut i: usize = 0;
    while i < 5
        invariant
            i <= 5,
            forall|j: int| 0 <= j < i ==> a@[j] == b@[j],
        decreases 5 - i,
    {
        if a[i] != b[i] {
            return false;
        }
        i = i + 1;
    }
    proof {
        assert(a@ =~= b@);
    }
    true
}

/// First pattern of `v` equal to `p`, if any.
fn find_pattern(v: &Vec<[u64; 5]>, p: &[u64; 5]) -> (r: Option<usize>)
    ensures
        match r {
            Some(k) => k < v@.len() && v@[k as int]@ == p@,
            None => forall|j: int| 0 <= j < v@.len() ==> (#[trigger] v@[j])@ != p@,
        },
{
    let mut k: usize = 0;
    while k < v.len()
        invariant
            k <= v.len(),
            forall|j: int| 0 <= j < k ==> (#[trigger] v@[j])@ != p@,
        decreases v.len() - k,
    {
        if patterns_equal(&v[k], p) {
            return Some(k);
        }
        k = k + 1;
    }
    None
}

/// What a combination query yields: a caller-input error naming a course
/// code, no solution, or the full combination list.
pub enum CombineOutcome {
    BadQuery(QueryErrorKind, Seq<char>),
    NoCombo,
    Combos(Seq<Seq<usize>>),
}

impl SubjectCombinator {
    /// The whole query, mathematically: validate required, selected, then
    /// fixed; seed from the fixed sections; expand every required code, then
    /// every selected code; and emit the ids, newest partial first.
    pub open spec fn combine_spec(
        self,
        fix: Seq<(String, usize)>,
        req: Seq<String>,
        sel: Seq<String>,
    ) -> CombineOutcome {
        if self.first_unknown(req) is Some {
            CombineOutcome::BadQuery(
                QueryErrorKind::UnknownRequiredCode,
                self.first_unknown(req)->Some_0,
            )
        } else if self.first_unknown(sel) is Some {
            CombineOutcome::BadQuery(
                QueryErrorKind::UnknownSelectedCode,
                self.first_unknown(sel)->Some_0,
            )
        } else {
            match self.first_bad_fixed(fix) {
                Some(bad) => CombineOutcome::BadQuery(bad.1, bad.0),
                None => match self.seed_fixed(fix) {
                    None => CombineOutcome::NoCombo,
                    Some(p0) => {
                        match self.run_required(seq![p0], self.sorted_indices(req), 0) {
                            None => CombineOutcome::NoCombo,
                            Some(ps) => CombineOutcome::Combos(
                                self.run_selected(
                                    ps,
                                    self.sorted_indices(sel),
                                    0,
                                ).map_values(|p: (Seq<usize>, Seq<u8>)| p.0).reverse(),
                            ),
                        }
                    },
                },
            }
        }
    }

    /// Builds the engine from a catalog: collects the distinct patterns and
    /// codes in first-seen order, groups and orders each code's sections by
    /// class number, and precomputes the full pairwise conflict table.
    /// Fails exactly when the catalog holds more than 256 distinct patterns.
    #[verifier::loop_isolation(false)]
    pub fn new(subs: Vec<Subject>) -> (r: Result<SubjectCombinator, BuildError>)
        ensures
            r is Ok <==> firstseen_patterns(subs@, subs@.len() as int).len() <= 256,
            r matches Err(e) ==> e == BuildError::TooManyPatterns,
            r matches Ok(c) ==> {
                &&& c.wf()
                &&& c.subjects@ == subs@
                &&& c.patterns@.map_values(|p: [u64; 5]| p@) == firstseen_patterns(
                    subs@,
                    subs@.len() as int,
                )
                &&& c.codes@.len() == firstseen_codes(subs@, subs@.len() as int).len()
                &&& forall|k: int|
                    0 <= k < c.codes@.len() ==> (#[trigger] c.codes@[k])@
                        == firstseen_codes(subs@, subs@.len() as int)[k]
                &&& forall|k: int|
                    0 <= k < c.codes@.len() ==> (#[trigger] c.code_to_num@[k])@
                        == sorted_code_ids(subs@, c.codes@[k]@)
            },
    {
        let ghost n = subs@.len() as int;
        let mut patterns: Vec<[u64; 5]> = Vec::new();
        let mut codes: Vec<String> = Vec::new();
        let mut i: usize = 0;
        while i < subs.len()
            invariant
                i <= subs.len(),
                patterns@.map_values(|p: [u64; 5]| p@) == firstseen_patterns(
                    subs@,
                    i as int,
                ),
                codes@.len() == firstseen_codes(subs@, i as int).len(),
                forall|k: int|
                    0 <= k < codes@.len() ==> (#[trigger] codes@[k])@ == firstseen_codes(
                        subs@,
                        i as int,
                    )[k],
                patterns@.len() <= 256,
            decreases subs.len() - i,
        {
            let ghost fp = firstseen_patterns(subs@, i as int);
            let ghost fc = firstseen_codes(subs@, i as int);
            match find_pattern(&patterns, &subs[i].time_bit) {
                Some(s) => {
                    proof {
                        assert(fp[s as int] == patterns@[s as int]@);
                        assert(fp.contains(subs@[i as int]@.time_bit));
                    }
                },
                None => {
                    proof {
                        if fp.contains(subs@[i as int]@.time_bit) {
                            let m = choose|m: int|
                                0 <= m < fp.len() && fp[m] == subs@[i as int]@.time_bit;
                            assert(patterns@.map_values(|p: [u64; 5]| p@)[m] == fp[m]);
                        }
                    }
                    if patterns.len() == 256 {
                        proof {
                            assert(firstseen_patterns(subs@, i + 1).len() == 257);
                            lemma_firstseen_patterns_mono(subs@, i + 1, n);
                        }
                        return Err(BuildError::TooManyPatterns);
                    }
                    patterns.push(subs[i].time_bit);
                    proof {
                        assert(patterns@.map_values(|p: [u64; 5]| p@) =~= fp.push(
                            subs@[i as int]@.time_bit,
                        ));
                    }
                },
            }
            match find_string(&codes, &subs[i].code) {
                Some(s) => {
                    proof {
                        assert(fc[s as int] == codes@[s as int]@);
                        assert(fc.contains(subs@[i as int]@.code));
                    }
                },
                None => {
                    proof {
                        if fc.contains(subs@[i as int]@.code) {
                            let m = choose|m: int|
                                0 <= m < fc.len() && fc[m] == subs@[i as int]@.code;
                            assert(codes@[m]@ == fc[m]);
                        }
                    }
                    codes.push(subs[i].code.clone());
                },
            }
            i = i + 1;
        }
        let ghost fp_all = firstseen_patterns(subs@, n);
        let ghost fc_all = firstseen_codes(subs@, n);

        let mut code_to_num: Vec<Vec<usize>> = Vec::new();
        let mut code_to_subject: Vec<Vec<u8>> = Vec::new();
        let mut k: usize = 0;
        while k < codes.len()
            invariant
                k <= codes.len(),
                code_to_num@.len() == k,
                code_to_subject@.len() == k,
                forall|k2: int|
                    0 <= k2 < k ==> (#[trigger] code_to_num@[k2])@ == sorted_code_ids(
                        subs@,
                        codes@[k2]@,
                    ),
                forall|k2: int|
                    0 <= k2 < k ==> (#[trigger] code_to_subject@[k2])@.len()
                        == code_to_num@[k2]@.len(),
                forall|k2: int, j: int|
                    0 <= k2 < k && 0 <= j < code_to_subject@[k2]@.len()
                        ==> (#[trigger] code_to_subject@[k2]@[j]) < patterns@.len(),
                forall|k2: int, j: int|
                    0 <= k2 < k && 0 <= j < code_to_num@[k2]@.len()
                        ==> (#[trigger] code_to_num@[k2]@[j]) < subs@.len(),
                forall|k2: int, j: int|
                    0 <= k2 < k && 0 <= j < code_to_num@[k2]@.len()
                        ==> subs@[#[trigger] code_to_num@[k2]@[j] as int]@.time_bit
                        == patterns@[code_to_subject@[k2]@[j] as int]@,
                forall|k2: int, j: int|
                    0 <= k2 < k && 0 <= j < code_to_num@[k2]@.len()
                        ==> subs@[#[trigger] code_to_num@[k2]@[j] as int]@.code
                        == codes@[k2]@,
            decreases codes.len() - k,
        {
            let ghost c = codes@[k as int]@;
            let mut pos: Vec<usize> = Vec::new();
            let mut j: usize = 0;
            while j < subs.len()
                invariant
                    j <= subs.len(),
                    pos@ == code_positions(subs@, c, j as int),
                decreases subs.len() - j,
            {
                if subs[j].code == codes[k] {
                    pos.push(j);
                }
                j = j + 1;
            }
            proof {
                lemma_code_positions_props(subs@, c, n);
            }
            let mut pairs: Vec<(u64, usize)> = Vec::new();
            let mut m: usize = 0;
            while m < pos.len()
                invariant
                    m <= pos.len(),
                    pairs@.len() == m,
                    forall|t: int|
                        0 <= t < m ==> (#[trigger] pairs@[t]) == (
                            subs@[pos@[t] as int]@.class_num as u64,
                            pos@[t],
                        ),
                decreases pos.len() - m,
            {
                pairs.push((subs[pos[m]].class_num as u64, pos[m]));
                m = m + 1;
            }
            proof {
                assert(pairs@ =~= class_pairs(subs@, pos@));
            }
            let sorted = crate::sorting::sort_pairs(&pairs);
            proof {
                crate::sorting::lemma_sort_stable_ensures(pairs@);
            }
            let mut ids: Vec<usize> = Vec::new();
            let mut slots: Vec<u8> = Vec::new();
            let mut m2: usize = 0;
            while m2 < sorted.len()
                invariant
                    m2 <= sorted.len(),
                    ids@.len() == m2,
                    slots@.len() == m2,
                    forall|t: int| 0 <= t < m2 ==> (#[trigger] ids@[t]) == sorted@[t].1,
                    forall|t: int| 0 <= t < m2 ==> (#[trigger] ids@[t]) < subs@.len(),
                    forall|t: int|
                        0 <= t < m2 ==> (#[trigger] slots@[t]) < patterns@.len(),
                    forall|t: int|
                        0 <= t < m2 ==> subs@[(#[trigger] ids@[t]) as int]@.time_bit
                            == patterns@[slots@[t] as int]@,
                    forall|t: int|
                        0 <= t < m2 ==> subs@[(#[trigger] ids@[t]) as int]@.code == c,
                decreases sorted.len() - m2,
            {
                proof {
                    assert(sorted@.contains(sorted@[m2 as int]));
                    assert(pairs@.contains(sorted@[m2 as int]));
                    let t = choose|t: int|
                        0 <= t < pairs@.len() && pairs@[t] == sorted@[m2 as int];
                    assert(sorted@[m2 as int].1 == pos@[t]);
                }
                let id = sorted[m2].1;
                proof {
                    lemma_firstseen_patterns_contains(subs@, id as int, n);
                    let w = choose|w: int|
                        0 <= w < fp_all.len() && fp_all[w] == subs@[id as int]@.time_bit;
                    assert(patterns@.map_values(|p: [u64; 5]| p@)[w] == fp_all[w]);
                }
                ids.push(id);
                match find_pattern(&patterns, &subs[id].time_bit) {
                    Some(s) => {
                        slots.push(s as u8);
                    },
                    None => {
                        proof {
                            assert(false);
                        }
                    },
                }
                m2 = m2 + 1;
            }
            proof {
                assert(ids@ =~= sorted_code_ids(subs@, c));
            }
            code_to_num.push(ids);
            code_to_subject.push(slots);
            k = k + 1;
        }

        let mut conflict: Vec<BitArray> = Vec::new();
        let mut s1: usize = 0;
        while s1 < 256
            invariant
                s1 <= 256,
                conflict@.len() == s1,
                forall|a: int, b: u8|
                    0 <= a < s1 ==> ((#[trigger] conflict@[a].spec_get(b)) <==> (a
                        < patterns@.len() && (b as int) < patterns@.len()
                        && spec_conflicts(patterns@[a]@, patterns@[b as int]@))),
            decreases 256 - s1,
        {
            let mut row = BitArray::zero();
            if s1 < patterns.len() {
                let mut s2: usize = 0;
                while s2 < patterns.len()
                    invariant
                        s2 <= patterns@.len(),
                        s1 < patterns@.len(),
                        forall|b: u8|
                            (#[trigger] row.spec_get(b)) <==> ((b as int) < s2
                                && spec_conflicts(
                                patterns@[s1 as int]@,
                                patterns@[b as int]@,
                            )),
                    decreases patterns.len() - s2,
                {
                    if crate::subject::is_conflict(&patterns[s1], &patterns[s2]) {
                        row.set(s2 as u8, true);
                    }
                    s2 = s2 + 1;
                }
            }
            conflict.push(row);
            s1 = s1 + 1;
        }

        proof {
            lemma_firstseen_patterns_distinct(subs@, n);
            lemma_firstseen_codes_distinct(subs@, n);
        }
        let result = SubjectCombinator {
            subjects: subs,
            patterns,
            conflict_array: conflict,
            codes,
            code_to_subject,
            code_to_num,
        };
        proof {
            assert forall|s1a: int, s2a: int|
                0 <= s1a < result.p_len() && 0 <= s2a < result.p_len() && s1a != s2a
                implies (#[trigger] result.patterns@[s1a])@ != (#[trigger] result.patterns@[
                s2a
            ])@ by {
                assert(result.patterns@.map_values(|p: [u64; 5]| p@)[s1a] == result.patterns@[
                    s1a
                ]@);
                assert(result.patterns@.map_values(|p: [u64; 5]| p@)[s2a] == result.patterns@[
                    s2a
                ]@);
            }
            assert forall|k1: int, k2: int|
                0 <= k1 < result.codes@.len() && 0 <= k2 < result.codes@.len() && k1 != k2
                implies (#[trigger] result.codes@[k1])@ != (#[trigger] result.codes@[k2])@ by {
            }
            assert(result.wf());
        }
        Ok(result)
    }

    /// Whether the executable frontier vectors mirror the mathematical one:
    /// id lists match, each mask holds exactly its partial's used slots, and
    /// every used slot indexes a pattern.
    pub open spec fn frontier_matches(
        self,
        combs: Seq<Vec<usize>>,
        masks: Seq<BitArray>,
        fr: Seq<(Seq<usize>, Seq<u8>)>,
    ) -> bool {
        &&& combs.len() == fr.len()
        &&& masks.len() == fr.len()
        &&& forall|i: int| 0 <= i < fr.len() ==> (#[trigger] combs[i])@ == fr[i].0
        &&& forall|i: int, s: u8|
            0 <= i < fr.len() ==> ((#[trigger] masks[i].spec_get(s)) == fr[i].1.contains(
                s,
            ))
        &&& forall|i: int, m: int|
            0 <= i < fr.len() && 0 <= m < fr[i].1.len() ==> ((#[trigger] fr[i].1[m]) as int)
                < self.p_len()
    }

    /// The first unknown code of a list, located at the first index whose
    /// code the catalog does not know.
    proof fn lemma_first_unknown_at(self, list: Seq<String>, i: int)
        requires
            0 <= i <= list.len(),
            forall|j: int| 0 <= j < i ==> self.spec_has_code((#[trigger] list[j])@),
            i < list.len() ==> !self.spec_has_code(list[i]@),
        ensures
            self.first_unknown(list) == (if i < list.len() {
                Some(list[i]@)
            } else {
                None::<Seq<char>>
            }),
        decreases list.len(),
    {
        if list.len() > 0 {
            if i == 0 {
            } else {
                assert(self.spec_has_code(list[0]@));
                assert forall|j: int| 0 <= j < i - 1 implies self.spec_has_code(
                    (#[trigger] list.drop_first()[j])@,
                ) by {
                    assert(list.drop_first()[j] == list[j + 1]);
                }
                self.lemma_first_unknown_at(list.drop_first(), i - 1);
            }
        }
    }

    /// The first offending fixed entry, located at the first index that is
    /// unknown or out of range.
    proof fn lemma_first_bad_fixed_at(self, fix: Seq<(String, usize)>, i: int)
        requires
            0 <= i <= fix.len(),
            forall|j: int|
                0 <= j < i ==> self.spec_has_code((#[trigger] fix[j]).0@) && fix[j].1
                    < self.spec_count(self.spec_code_index(fix[j].0@)),
        ensures
            i == fix.len() ==> self.first_bad_fixed(fix) is None,
            i < fix.len() && !self.spec_has_code(fix[i].0@) ==> self.first_bad_fixed(fix)
                == Some((fix[i].0@, QueryErrorKind::UnknownFixedCode)),
            i < fix.len() && self.spec_has_code(fix[i].0@) && fix[i].1 >= self.spec_count(
                self.spec_code_index(fix[i].0@),
            ) ==> self.first_bad_fixed(fix) == Some(
                (fix[i].0@, QueryErrorKind::InvalidFixedPosition),
            ),
        decreases fix.len(),
    {
        if fix.len() > 0 && i > 0 {
            assert forall|j: int|
                0 <= j < i - 1 implies self.spec_has_code(
                (#[trigger] fix.drop_first()[j]).0@,
            ) && fix.drop_first()[j].1 < self.spec_count(
                self.spec_code_index(fix.drop_first()[j].0@),
            ) by {
                assert(fix.drop_first()[j] == fix[j + 1]);
            }
            if i < fix.len() {
                assert(fix.drop_first()[i - 1] == fix[i]);
            }
            self.lemma_first_bad_fixed_at(fix.drop_first(), i - 1);
        }
    }

    /// Once the fixed seed has failed on a prefix, it fails on the whole
    /// list.
    proof fn lemma_seed_none_persists(self, fix: Seq<(String, usize)>, i: int, j: int)
        requires
            0 <= i <= j <= fix.len(),
            self.seed_fixed(fix.take(i)) is None,
        ensures
            self.seed_fixed(fix.take(j)) is None,
        decreases j - i,
    {
        if i < j {
            self.lemma_seed_none_persists(fix, i, j - 1);
            assert(fix.take(j).drop_last() =~= fix.take(j - 1));
            assert(self.seed_fixed(fix.take(j)) is None);
        }
    }

    /// Conflict between slots is symmetric.
    proof fn lemma_tbl_symmetric(self, a: int, b: int)
        requires
            0 <= a < self.p_len(),
            0 <= b < self.p_len(),
        ensures
            self.tbl(a, b) == self.tbl(b, a),
    {
        crate::subject::lemma_conflicts_symmetric(self.patterns@[a]@, self.patterns@[b]@);
    }

    /// The word-wise mask test decides exactly whether a candidate slot may
    /// join: the used mask and the candidate's conflict row are disjoint iff
    /// the candidate conflicts with no used slot.
    proof fn lemma_mask_can_add(self, mask: BitArray, slots: Seq<u8>, slot: u8)
        requires
            self.wf(),
            forall|s: u8| (#[trigger] mask.spec_get(s)) == slots.contains(s),
            forall|m: int| 0 <= m < slots.len() ==> ((#[trigger] slots[m]) as int) < self.p_len(),
            (slot as int) < self.p_len(),
        ensures
            mask.spec_disjoint(self.conflict_array@[slot as int]) == self.spec_can_add(
                slots,
                slot as int,
            ),
    {
        let conf = self.conflict_array@[slot as int];
        if mask.spec_disjoint(conf) {
            assert forall|m: int| 0 <= m < slots.len() implies !self.tbl(
                (#[trigger] slots[m]) as int,
                slot as int,
            ) by {
                let s = slots[m];
                assert(slots.contains(s));
                assert(mask.spec_get(s));
                assert(!conf.spec_get(s));
                self.lemma_tbl_symmetric(s as int, slot as int);
            }
        }
        if self.spec_can_add(slots, slot as int) {
            assert forall|s: u8| !(mask.spec_get(s) && conf.spec_get(s)) by {
                if mask.spec_get(s) {
                    let m = choose|m: int| 0 <= m < slots.len() && slots[m] == s;
                    assert(!self.tbl(s as int, slot as int));
                    self.lemma_tbl_symmetric(s as int, slot as int);
                }
            }
        }
    }

    /// First row whose code equals `c`, tied to the spec-level resolution.
    fn find_code(&self, c: &String) -> (r: Option<usize>)
        requires
            self.wf(),
        ensures
            match r {
                Some(k) => k < self.codes@.len() && self.codes@[k as int]@ == c@
                    && self.spec_has_code(c@) && self.spec_code_index(c@) == k as int,
                None => !self.spec_has_code(c@),
            },
    {
        let r = find_string(&self.codes, c);
        proof {
            match r {
                Some(k) => {
                    assert(self.spec_has_code(c@));
                    let k2 = self.spec_code_index(c@);
                    if k2 != k as int {
                        assert(self.codes@[k2]@ != self.codes@[k as int]@);
                    }
                },
                None => {
                    if self.spec_has_code(c@) {
                        let k = choose|k: int|
                            0 <= k < self.codes@.len() && (#[trigger] self.codes@[k])@
                                == c@;
                        assert(self.codes@[k]@ == c@);
                    }
                },
            }
        }
        r
    }

    /// Expands the query into the full combination list: validates the three
    /// code lists, seeds from the fixed sections, resolves every required
    /// code (exactly one section each, fewest options first), then every
    /// selected code (zero or one section each, keeping the unextended
    /// partials), and returns the id lists, exactly as `combine_spec`
    /// describes.  `Ok(None)` is the normal no-solution outcome, an `Err`
    /// a caller-input error naming the offending code.
    #[verifier::loop_isolation(false)]
    #[verifier::rlimit(60)]
    pub fn combinate_subjects(
        &self,
        fixsubs: &Vec<(String, usize)>,
        reqsubs: &Vec<String>,
        selsubs: &Vec<String>,
    ) -> (r: Result<Option<Vec<Vec<usize>>>, QueryError>)
        requires
            self.wf(),
        ensures
            self.outcome_matches(self.combine_spec(fixsubs@, reqsubs@, selsubs@), r),
    {
        // Validate and resolve the required codes.
        let mut req_ks: Vec<usize> = Vec::new();
        let mut i: usize = 0;
        while i < reqsubs.len()
            invariant
                i <= reqsubs.len(),
                req_ks@.len() == i,
                forall|j: int|
                    0 <= j < i ==> self.spec_has_code((#[trigger] reqsubs@[j])@)
                        && req_ks@[j] as int == self.spec_code_index(reqsubs@[j]@)
                        && req_ks@[j] < self.codes@.len(),
            decreases reqsubs.len() - i,
        {
            match self.find_code(&reqsubs[i]) {
                Some(k) => {
                    req_ks.push(k);
                },
                None => {
                    proof {
                        assert forall|j: int| 0 <= j < i implies self.spec_has_code(
                            (#[trigger] reqsubs@[j])@,
                        ) by {
                            assert(req_ks@[j] as int == self.spec_code_index(
                                reqsubs@[j]@,
                            ));
                        }
                        self.lemma_first_unknown_at(reqsubs@, i as int);
                    }
                    return Err(
                        QueryError {
                            kind: QueryErrorKind::UnknownRequiredCode,
                            code: reqsubs[i].clone(),
                        },
                    );
                },
            }
            i = i + 1;
        }
        proof {
            assert forall|j: int| 0 <= j < reqsubs@.len() implies self.spec_has_code(
                (#[trigger] reqsubs@[j])@,
            ) by {
                assert(req_ks@[j] as int == self.spec_code_index(reqsubs@[j]@));
            }
            self.lemma_first_unknown_at(reqsubs@, reqsubs@.len() as int);
        }
        // Validate and resolve the selected codes.
        let mut sel_ks: Vec<usize> = Vec::new();
        let mut i2: usize = 0;
        while i2 < selsubs.len()
            invariant
                i2 <= selsubs.len(),
                sel_ks@.len() == i2,
                forall|j: int|
                    0 <= j < i2 ==> self.spec_has_code((#[trigger] selsubs@[j])@)
                        && sel_ks@[j] as int == self.spec_code_index(selsubs@[j]@)
                        && sel_ks@[j] < self.codes@.len(),
            decreases selsubs.len() - i2,
        {
            match self.find_code(&selsubs[i2]) {
                Some(k) => {
                    sel_ks.push(k);
                },
                None => {
                    proof {
                        assert forall|j: int| 0 <= j < i2 implies self.spec_has_code(
                            (#[trigger] selsubs@[j])@,
                        ) by {
                            assert(sel_ks@[j] as int == self.spec_code_index(
                                selsubs@[j]@,
                            ));
                        }
                        self.lemma_first_unknown_at(selsubs@, i2 as int);
                    }
                    return Err(
                        QueryError {
                            kind: QueryErrorKind::UnknownSelectedCode,
                            code: selsubs[i2].clone(),
                        },
                    );
                },
            }
            i2 = i2 + 1;
        }
        proof {
            assert forall|j: int| 0 <= j < selsubs@.len() implies self.spec_has_code(
                (#[trigger] selsubs@[j])@,
            ) by {
                assert(sel_ks@[j] as int == self.spec_code_index(selsubs@[j]@));
            }
            self.lemma_first_unknown_at(selsubs@, selsubs@.len() as int);
        }
        // Validate and resolve the fixed entries.
        let mut fix_rs: Vec<(usize, usize)> = Vec::new();
        let mut t: usize = 0;
        while t < fixsubs.len()
            invariant
                t <= fixsubs.len(),
                fix_rs@.len() == t,
                forall|j: int|
                    0 <= j < t ==> self.spec_has_code((#[trigger] fixsubs@[j]).0@)
                        && fix_rs@[j].0 as int == self.spec_code_index(fixsubs@[j].0@)
                        && fix_rs@[j].0 < self.codes@.len() && fix_rs@[j].1
                        == fixsubs@[j].1 && (fixsubs@[j].1 as int) < self.spec_count(
                        self.spec_code_index(fixsubs@[j].0@),
                    ),
            decreases fixsubs.len() - t,
        {
            match self.find_code(&fixsubs[t].0) {
                Some(k) => {
                    if fixsubs[t].1 >= self.code_to_subject[k].len() {
                        proof {
                            assert forall|j: int| 0 <= j < t implies self.spec_has_code(
                                (#[trigger] fixsubs@[j]).0@,
                            ) && fixsubs@[j].1 < self.spec_count(
                                self.spec_code_index(fixsubs@[j].0@),
                            ) by {
                                assert(fix_rs@[j].0 as int == self.spec_code_index(
                                    fixsubs@[j].0@,
                                ));
                            }
                            self.lemma_first_bad_fixed_at(fixsubs@, t as int);
                        }
                        return Err(
                            QueryError {
                                kind: QueryErrorKind::InvalidFixedPosition,
                                code: fixsubs[t].0.clone(),
                            },
                        );
                    }
                    fix_rs.push((k, fixsubs[t].1));
                    proof {
                        assert(fix_rs@[t as int] == (k, fixsubs@[t as int].1));
                        assert(self.spec_has_code(fixsubs@[t as int].0@));
                        assert(self.spec_code_index(fixsubs@[t as int].0@) == k as int);
                        assert((fixsubs@[t as int].1 as int) < self.spec_count(
                            k as int,
                        ));
                    }
                },
                None => {
                    proof {
                        assert forall|j: int| 0 <= j < t implies self.spec_has_code(
                            (#[trigger] fixsubs@[j]).0@,
                        ) && fixsubs@[j].1 < self.spec_count(
                            self.spec_code_index(fixsubs@[j].0@),
                        ) by {
                            assert(fix_rs@[j].0 as int == self.spec_code_index(
                                fixsubs@[j].0@,
                            ));
                        }
                        self.lemma_first_bad_fixed_at(fixsubs@, t as int);
                    }
                    return Err(
                        QueryError {
                            kind: QueryErrorKind::UnknownFixedCode,
                            code: fixsubs[t].0.clone(),
                        },
                    );
                },
            }
            t = t + 1;
        }
        proof {
            assert forall|j: int| 0 <= j < fixsubs@.len() implies self.spec_has_code(
                (#[trigger] fixsubs@[j]).0@,
            ) && fixsubs@[j].1 < self.spec_count(self.spec_code_index(fixsubs@[j].0@)) by {
                assert(fix_rs@[j].0 as int == self.spec_code_index(fixsubs@[j].0@));
            }
            self.lemma_first_bad_fixed_at(fixsubs@, fixsubs@.len() as int);
        }
        // Seed the frontier from the fixed sections.
        let mut fix_subs: Vec<usize> = Vec::new();
        let ghost mut gslots: Seq<u8> = Seq::empty();
        let mut fix_mask = BitArray::zero();
        let mut t2: usize = 0;
        while t2 < fix_rs.len()
            invariant
                t2 <= fix_rs.len(),
                self.seed_fixed(fixsubs@.take(t2 as int)) == Some((fix_subs@, gslots)),
                forall|s: u8| (#[trigger] fix_mask.spec_get(s)) == gslots.contains(s),
                forall|m: int|
                    0 <= m < gslots.len() ==> ((#[trigger] gslots[m]) as int)
                        < self.p_len(),
            decreases fix_rs.len() - t2,
        {
            let k = fix_rs[t2].0;
            let pos = fix_rs[t2].1;
            proof {
                assert(self.spec_has_code((fixsubs@[t2 as int]).0@));
            }
            let slot = self.code_to_subject[k][pos];
            let id = self.code_to_num[k][pos];
            proof {
                self.lemma_mask_can_add(fix_mask, gslots, slot);
                assert(fixsubs@.take(t2 + 1).drop_last() =~= fixsubs@.take(t2 as int));
                assert(fixsubs@.take(t2 + 1).last() == fixsubs@[t2 as int]);
            }
            if !fix_mask.disjoint(&self.conflict_array[slot as usize]) {
                proof {
                    assert(self.seed_fixed(fixsubs@.take(t2 + 1)) is None);
                    self.lemma_seed_none_persists(fixsubs@, t2 + 1, fixsubs@.len() as int);
                    assert(fixsubs@.take(fixsubs@.len() as int) =~= fixsubs@);
                }
                return Ok(None);
            }
            fix_subs.push(id);
            let ghost gold = gslots;
            let mut nm0 = fix_mask;
            nm0.set(slot, true);
            proof {
                gslots = gold.push(slot);
                assert forall|s: u8| (#[trigger] nm0.spec_get(s)) == gslots.contains(
                    s,
                ) by {
                    assert(fix_mask.spec_get(s) == gold.contains(s));
                    if s == slot {
                        assert(gslots.last() == slot);
                    } else {
                        if gslots.contains(s) {
                            let m = choose|m: int|
                                0 <= m < gslots.len() && gslots[m] == s;
                            assert(m < gold.len() && gold[m] == s);
                        } else {
                            if gold.contains(s) {
                                let m = choose|m: int|
                                    0 <= m < gold.len() && gold[m] == s;
                                assert(gslots[m] == s);
                            }
                        }
                    }
                }
            }
            fix_mask = nm0;
            proof {
                assert(self.seed_fixed(fixsubs@.take(t2 + 1)) == Some(
                    (fix_subs@, gslots),
                ));
            }
            t2 = t2 + 1;
        }
        proof {
            assert(fixsubs@.take(fixsubs@.len() as int) =~= fixsubs@);
        }
        // Sort the required and selected codes, fewest sections first.
        let mut pairs: Vec<(u64, usize)> = Vec::new();
        let mut m: usize = 0;
        while m < req_ks.len()
            invariant
                m <= req_ks.len(),
                pairs@.len() == m,
                forall|j: int|
                    0 <= j < m ==> (#[trigger] pairs@[j]) == self.resolve_pairs(
                        reqsubs@,
                    )[j],
            decreases req_ks.len() - m,
        {
            proof {
                assert(self.spec_has_code((reqsubs@[m as int])@));
            }
            let k = req_ks[m];
            pairs.push((self.code_to_subject[k].len() as u64, k));
            m = m + 1;
        }
        proof {
            assert(pairs@ =~= self.resolve_pairs(reqsubs@));
        }
        let req_sorted = crate::sorting::sort_pairs(&pairs);
        let ghost rks = self.sorted_indices(reqsubs@);
        proof {
            crate::sorting::lemma_sort_stable_ensures(pairs@);
            assert forall|q: int| 0 <= q < req_sorted@.len() implies (
            #[trigger] req_sorted@[q]).1 < self.codes@.len() && rks[q] == req_sorted@[q].1 by {
                assert(req_sorted@.contains(req_sorted@[q]));
                assert(pairs@.contains(req_sorted@[q]));
                let w = choose|w: int|
                    0 <= w < pairs@.len() && pairs@[w] == req_sorted@[q];
                assert(pairs@[w].1 == req_ks@[w]);
            }
        }
        let mut pairs2: Vec<(u64, usize)> = Vec::new();
        let mut m2: usize = 0;
        while m2 < sel_ks.len()
            invariant
                m2 <= sel_ks.len(),
                pairs2@.len() == m2,
                forall|j: int|
                    0 <= j < m2 ==> (#[trigger] pairs2@[j]) == self.resolve_pairs(
                        selsubs@,
                    )[j],
            decreases sel_ks.len() - m2,
        {
            proof {
                assert(self.spec_has_code((selsubs@[m2 as int])@));
            }
            let k = sel_ks[m2];
            pairs2.push((self.code_to_subject[k].len() as u64, k));
            m2 = m2 + 1;
        }
        proof {
            assert(pairs2@ =~= self.resolve_pairs(selsubs@));
        }
        let sel_sorted = crate::sorting::sort_pairs(&pairs2);
        let ghost sks = self.sorted_indices(selsubs@);
        proof {
            crate::sorting::lemma_sort_stable_ensures(pairs2@);
            assert forall|q: int| 0 <= q < sel_sorted@.len() implies (
            #[trigger] sel_sorted@[q]).1 < self.codes@.len() && sks[q] == sel_sorted@[q].1 by {
                assert(sel_sorted@.contains(sel_sorted@[q]));
                assert(pairs2@.contains(sel_sorted@[q]));
                let w = choose|w: int|
                    0 <= w < pairs2@.len() && pairs2@[w] == sel_sorted@[q];
                assert(pairs2@[w].1 == sel_ks@[w]);
            }
        }
        // The frontier, seeded with the fixed partial.
        let mut combs: Vec<Vec<usize>> = Vec::new();
        let mut masks: Vec<BitArray> = Vec::new();
        let ghost p0 = (fix_subs@, gslots);
        combs.push(fix_subs);
        masks.push(fix_mask);
        let ghost mut fr: Seq<(Seq<usize>, Seq<u8>)> = seq![p0];
        proof {
            assert(self.frontier_matches(combs@, masks@, fr));
        }
        // One required code after another replaces the frontier by its
        // extensions.
        let mut q: usize = 0;
        while q < req_sorted.len()
            invariant
                q <= req_sorted@.len(),
                self.frontier_matches(combs@, masks@, fr),
                self.run_required(fr, rks, q as int) == self.run_required(
                    seq![p0],
                    rks,
                    0,
                ),
            decreases req_sorted@.len() - q,
        {
            let k = req_sorted[q].1;
            let count = self.code_to_subject[k].len();
            let mut new_combs: Vec<Vec<usize>> = Vec::new();
            let mut new_masks: Vec<BitArray> = Vec::new();
            let ghost mut new_fr: Seq<(Seq<usize>, Seq<u8>)> = Seq::empty();
            let mut i3: usize = 0;
            while i3 < combs.len()
                invariant
                    i3 <= combs@.len(),
                    self.frontier_matches(new_combs@, new_masks@, new_fr),
                    new_fr == self.extend_frontier(fr, k as int, i3 as int),
                decreases combs@.len() - i3,
            {
                let mut j: usize = 0;
                while j < count
                    invariant
                        j <= count,
                        self.frontier_matches(new_combs@, new_masks@, new_fr),
                        new_fr == self.extend_frontier(fr, k as int, i3 as int)
                            + self.exts_of(fr[i3 as int], k as int, j as int),
                    decreases count - j,
                {
                    let slot = self.code_to_subject[k][j];
                    proof {
                        self.lemma_mask_can_add(masks@[i3 as int], fr[i3 as int].1, slot);
                    }
                    if masks[i3].disjoint(&self.conflict_array[slot as usize]) {
                        let mut nc = clone_ids(&combs[i3]);
                        nc.push(self.code_to_num[k][j]);
                        let mut nm = masks[i3];
                        nm.set(slot, true);
                        new_combs.push(nc);
                        new_masks.push(nm);
                        proof {
                            let np = (
                                fr[i3 as int].0.push(self.code_to_num@[k as int]@[j as int]),
                                fr[i3 as int].1.push(slot),
                            );
                            new_fr = new_fr + seq![np];
                            assert forall|s: u8| (#[trigger] nm.spec_get(s)) == np.1.contains(
                                s,
                            ) by {
                                assert(masks@[i3 as int].spec_get(s) == fr[
                                    i3 as int
                                ].1.contains(s));
                                if s == slot {
                                    assert(np.1.last() == slot);
                                } else {
                                    if np.1.contains(s) {
                                        let w = choose|w: int|
                                            0 <= w < np.1.len() && np.1[w] == s;
                                        assert(w < fr[i3 as int].1.len() && fr[
                                            i3 as int
                                        ].1[w] == s);
                                    } else {
                                        if fr[i3 as int].1.contains(s) {
                                            let w = choose|w: int|
                                                0 <= w < fr[i3 as int].1.len() && fr[
                                                    i3 as int
                                                ].1[w] == s;
                                            assert(np.1[w] == s);
                                        }
                                    }
                                }
                            }
                        }
                    }
                    j = j + 1;
                }
                i3 = i3 + 1;
            }
            if new_combs.len() == 0 {
                proof {
                    assert(self.run_required(fr, rks, q as int) is None);
                }
                return Ok(None);
            }
            combs = new_combs;
            masks = new_masks;
            proof {
                fr = new_fr;
            }
            q = q + 1;
        }
        // One selected code after another appends the extensions, keeping
        // the unextended partials.
        let mut t3: usize = 0;
        while t3 < sel_sorted.len()
            invariant
                t3 <= sel_sorted@.len(),
                self.frontier_matches(combs@, masks@, fr),
                self.run_selected(fr, sks, t3 as int) == self.run_selected(
                    self.run_required(seq![p0], rks, 0)->Some_0,
                    sks,
                    0,
                ),
                self.run_required(seq![p0], rks, 0) is Some,
            decreases sel_sorted@.len() - t3,
        {
            let k = sel_sorted[t3].1;
            let count = self.code_to_subject[k].len();
            let ghost fr_before = fr;
            let n = combs.len();
            let mut i4: usize = 0;
            while i4 < n
                invariant
                    i4 <= n,
                    n == fr_before.len(),
                    self.frontier_matches(combs@, masks@, fr),
                    fr == fr_before + self.extend_frontier(fr_before, k as int, i4 as int),
                decreases n - i4,
            {
                let mut j2: usize = 0;
                while j2 < count
                    invariant
                        j2 <= count,
                        i4 < n,
                        n == fr_before.len(),
                        self.frontier_matches(combs@, masks@, fr),
                        fr == fr_before + self.extend_frontier(
                            fr_before,
                            k as int,
                            i4 as int,
                        ) + self.exts_of(fr_before[i4 as int], k as int, j2 as int),
                    decreases count - j2,
                {
                    let slot = self.code_to_subject[k][j2];
                    proof {
                        assert(fr[i4 as int] == fr_before[i4 as int]);
                        self.lemma_mask_can_add(
                            masks@[i4 as int],
                            fr_before[i4 as int].1,
                            slot,
                        );
                    }
                    if masks[i4].disjoint(&self.conflict_array[slot as usize]) {
                        let mut nc = clone_ids(&combs[i4]);
                        nc.push(self.code_to_num[k][j2]);
                        let mut nm = masks[i4];
                        nm.set(slot, true);
                        proof {
                            let np = (
                                fr_before[i4 as int].0.push(
                                    self.code_to_num@[k as int]@[j2 as int],
                                ),
                                fr_before[i4 as int].1.push(slot),
                            );
                            fr = fr + seq![np];
                            assert forall|s: u8| (#[trigger] nm.spec_get(s)) == np.1.contains(
                                s,
                            ) by {
                                assert(masks@[i4 as int].spec_get(s) == fr_before[
                                    i4 as int
                                ].1.contains(s));
                                if s == slot {
                                    assert(np.1.last() == slot);
                                } else {
                                    if np.1.contains(s) {
                                        let w = choose|w: int|
                                            0 <= w < np.1.len() && np.1[w] == s;
                                        assert(w < fr_before[i4 as int].1.len()
                                            && fr_before[i4 as int].1[w] == s);
                                    } else {
                                        if fr_before[i4 as int].1.contains(s) {
                                            let w = choose|w: int|
                                                0 <= w < fr_before[i4 as int].1.len()
                                                    && fr_before[i4 as int].1[w] == s;
                                            assert(np.1[w] == s);
                                        }
                                    }
                                }
                            }
                        }
                        combs.push(nc);
                        masks.push(nm);
                    }
                    j2 = j2 + 1;
                }
                i4 = i4 + 1;
            }
            proof {
                assert(fr == fr_before + self.extend_frontier(
                    fr_before,
                    k as int,
                    fr_before.len() as int,
                ));
            }
            t3 = t3 + 1;
        }
        // Emit the id lists, newest partial first.
        let mut out: Vec<Vec<usize>> = Vec::new();
        let mut w: usize = combs.len();
        while w > 0
            invariant
                w <= combs@.len(),
                out@.len() == combs@.len() - w,
                forall|u: int|
                    0 <= u < out@.len() ==> (#[trigger] out@[u])@ == fr[
                        combs@.len() - 1 - u
                    ].0,
            decreases w,
        {
            w = w - 1;
            out.push(clone_ids(&combs[w]));
        }
        proof {
            let cs = self.run_selected(
                self.run_required(seq![p0], rks, 0)->Some_0,
                sks,
                0,
            ).map_values(|p: (Seq<usize>, Seq<u8>)| p.0).reverse();
            assert(out.deep_view() =~~= cs);
        }
        Ok(Some(out))
    }

    /// Whether an executable query result is the image of an outcome.
    pub open spec fn outcome_matches(
        self,
        out: CombineOutcome,
        r: Result<Option<Vec<Vec<usize>>>, QueryError>,
    ) -> bool {
        match out {
            CombineOutcome::BadQuery(kind, code) => r matches Err(e) && e.kind == kind
                && e.code@ == code,
            CombineOutcome::NoCombo => r == Ok::<Option<Vec<Vec<usize>>>, QueryError>(
                None,
            ),
            CombineOutcome::Combos(cs) => r matches Ok(o) && o matches Some(v)
                && v.deep_view() == cs,
        }
    }
}

} // verus!
