use vstd::prelude::*;
use vstd::multiset::Multiset;
use crate::combinator::SubjectCombinator;
use crate::errors::QueryError;
use crate::subject::{spec_weight, hamming_weight};

verus! {

#[verifier::external_type_specification]
#[verifier::external_body]
#[verifier::reject_recursive_types(T)]
pub struct ExMinMaxHeap<T>(min_max_heap::MinMaxHeap<T>);

/// What a ranking heap holds: the multiset of its weight-tagged entries.
pub uninterp spec fn heap_entries(h: min_max_heap::MinMaxHeap<(u64, usize)>) -> Multiset<
    (u64, usize),
>;

/// Relies on `min_max_heap::MinMaxHeap::new`: a fresh heap holds nothing.
#[verifier::external_body]
fn heap_new() -> (h: min_max_heap::MinMaxHeap<(u64, usize)>)
    ensures
        heap_entries(h) == Multiset::<(u64, usize)>::empty(),
{
    min_max_heap::MinMaxHeap::new()
}

/// Relies on `min_max_heap::MinMaxHeap::push`: it adds exactly the given
/// element to the heap's contents.
#[verifier::external_body]
fn heap_push(h: &mut min_max_heap::MinMaxHeap<(u64, usize)>, x: (u64, usize))
    ensures
        heap_entries(*final(h)) == heap_entries(*old(h)).insert(x),
{
    h.push(x)
}

/// Relies on `min_max_heap::MinMaxHeap::into_vec_asc`: it returns exactly
/// the heap's contents, ascending in the pairs' lexicographic order.
#[verifier::external_body]
fn heap_into_vec_asc(h: min_max_heap::MinMaxHeap<(u64, usize)>) -> (r: Vec<(u64, usize)>)
    ensures
        r@.to_multiset() == heap_entries(h),
        lex_sorted(r@),
{
    h.into_vec_asc()
}

/// Ascending in the lexicographic order of (weight, position) pairs.
pub open spec fn lex_sorted(s: Seq<(u64, usize)>) -> bool {
    forall|a: int, b: int|
        0 <= a < b < s.len() ==> (s[a].0 < s[b].0 || (s[a].0 == s[b].0 && s[a].1
            <= s[b].1))
}

impl SubjectCombinator {
    /// The merged weekly pattern of the first `i` sections of a
    /// combination: the union of their per-weekday masks.
    pub open spec fn spec_union_bits(self, ids: Seq<usize>, i: int) -> Seq<u64>
        decreases i,
    {
        if i <= 0 {
            Seq::new(5, |d: int| 0u64)
        } else {
            let prev = self.spec_union_bits(ids, i - 1);
            Seq::new(
                5,
                |d: int| prev[d] | self.subjects@[ids[i - 1] as int]@.time_bit[d],
            )
        }
    }

    /// How many half-hour blocks a combination occupies in all.
    pub open spec fn spec_combo_weight(self, ids: Seq<usize>) -> nat {
        spec_weight(self.spec_union_bits(ids, ids.len() as int))
    }

    /// The (weight, position) tag of every listed combination.
    pub open spec fn spec_weight_tags(self, combos: Seq<Vec<usize>>) -> Seq<(u64, usize)> {
        Seq::new(
            combos.len(),
            |x: int| (self.spec_combo_weight(combos[x]@) as u64, x as usize),
        )
    }

    fn union_bits(&self, ids: &Vec<usize>) -> (r: [u64; 5])
        requires
            forall|m: int|
                0 <= m < ids@.len() ==> ((#[trigger] ids@[m]) as int)
                    < self.subjects@.len(),
        ensures
            r@ =~= self.spec_union_bits(ids@, ids@.len() as int),
    {
        let mut r: [u64; 5] = [0u64; 5];
        let mut i: usize = 0;
        while i < ids.len()
            invariant
                i <= ids@.len(),
                forall|m: int|
                    0 <= m < ids@.len() ==> ((#[trigger] ids@[m]) as int)
                        < self.subjects@.len(),
                r@ =~= self.spec_union_bits(ids@, i as int),
            decreases ids@.len() - i,
        {
            let s = ids[i];
            let mut d: usize = 0;
            let ghost prev = r@;
            while d < 5
                invariant
                    d <= 5,
                    s == ids@[i as int],
                    i < ids@.len(),
                    (s as int) < self.subjects@.len(),
                    r@.len() == 5,
                    prev.len() == 5,
                    forall|e: int|
                        0 <= e < d ==> r@[e] == (prev[e] | self.subjects@[
                            s as int
                        ]@.time_bit[e]),
                    forall|e: int| d <= e < 5 ==> r@[e] == prev[e],
                decreases 5 - d,
            {
                r[d] = r[d] | self.subjects[s].time_bit[d];
                d = d + 1;
            }
            proof {
                assert(r@ =~= self.spec_union_bits(ids@, i + 1));
            }
            i = i + 1;
        }
        r
    }

    /// Orders combinations ascending by total occupied time: the result is
    /// a permutation of the input, sorted by each combination's weight, ties
    /// ordered by input position.
    pub fn rank_combinations(&self, combos: &Vec<Vec<usize>>) -> (r: Vec<Vec<usize>>)
        requires
            forall|x: int, m: int|
                0 <= x < combos@.len() && 0 <= m < combos@[x]@.len() ==> ((
                #[trigger] combos@[x]@[m]) as int) < self.subjects@.len(),
        ensures
            r@.len() == combos@.len(),
            exists|ord: Seq<(u64, usize)>|
                {
                    &&& #[trigger] lex_sorted(ord)
                    &&& ord.to_multiset() == self.spec_weight_tags(combos@).to_multiset()
                    &&& ord.len() == combos@.len()
                    &&& forall|y: int|
                        0 <= y < ord.len() ==> 0 <= (#[trigger] ord[y]).1 < combos@.len()
                            && r@[y]@ == combos@[ord[y].1 as int]@
                },
    {
        let ghost tags = self.spec_weight_tags(combos@);
        let mut h = heap_new();
        proof {
            broadcast use vstd::seq_lib::group_to_multiset_ensures;

            assert(tags.take(0) =~= Seq::<(u64, usize)>::empty());
            assert(Seq::<(u64, usize)>::empty().to_multiset() =~= Multiset::empty());
        }
        let mut x: usize = 0;
        while x < combos.len()
            invariant
                x <= combos@.len(),
                forall|x2: int, m: int|
                    0 <= x2 < combos@.len() && 0 <= m < combos@[x2]@.len() ==> ((
                    #[trigger] combos@[x2]@[m]) as int) < self.subjects@.len(),
                tags == self.spec_weight_tags(combos@),
                heap_entries(h) == tags.take(x as int).to_multiset(),
            decreases combos@.len() - x,
        {
            let u = self.union_bits(&combos[x]);
            let w = hamming_weight(&u);
            proof {
                assert(tags.take(x + 1).drop_last() =~= tags.take(x as int));
                assert(tags.take(x + 1).last() == tags[x as int]);
                assert(tags[x as int] == (
                    self.spec_combo_weight(combos@[x as int]@) as u64,
                    x as usize,
                ));
            }
            heap_push(&mut h, (w as u64, x));
            proof {
                broadcast use vstd::seq_lib::group_to_multiset_ensures;

                assert(tags.take(x + 1) =~= tags.take(x as int).push(tags[x as int]));
                assert(tags.take(x + 1).to_multiset() =~= tags.take(
                    x as int,
                ).to_multiset().insert(tags[x as int]));
            }
            x = x + 1;
        }
        proof {
            assert(tags.take(tags.len() as int) =~= tags);
        }
        let ord_vec = heap_into_vec_asc(h);
        let mut r: Vec<Vec<usize>> = Vec::new();
        let mut y: usize = 0;
        while y < ord_vec.len()
            invariant
                y <= ord_vec@.len(),
                ord_vec@.to_multiset() == tags.to_multiset(),
                tags == self.spec_weight_tags(combos@),
                r@.len() == y,
                forall|y2: int|
                    0 <= y2 < y ==> 0 <= (#[trigger] ord_vec@[y2]).1 < combos@.len()
                        && r@[y2]@ == combos@[ord_vec@[y2].1 as int]@,
            decreases ord_vec@.len() - y,
        {
            proof {
                broadcast use vstd::seq_lib::group_to_multiset_ensures;

                let e = ord_vec@[y as int];
                assert(ord_vec@.contains(e));
                assert(ord_vec@.to_multiset().count(e) > 0);
                assert(tags.to_multiset().count(e) > 0);
                assert(tags.contains(e));
                let t = choose|t: int| 0 <= t < tags.len() && tags[t] == e;
                assert(tags[t].1 == t as usize);
            }
            let pos = ord_vec[y].1;
            r.push(crate::combinator::clone_ids(&combos[pos]));
            y = y + 1;
        }
        proof {
            broadcast use vstd::seq_lib::group_to_multiset_ensures;

            assert(ord_vec@.to_multiset().len() == ord_vec@.len());
            assert(tags.to_multiset().len() == tags.len());
        }
        r
    }
}

/// The ranked query variant: the full combination list of
/// `combinate_subjects`, reordered ascending by total occupied time.
impl SubjectCombinator {
    pub fn comb_sub(
        &self,
        fixsubs: &Vec<(String, usize)>,
        reqsubs: &Vec<String>,
        selsubs: &Vec<String>,
    ) -> (r: Result<Option<Vec<Vec<usize>>>, QueryError>)
        requires
            self.wf(),
        ensures
            match self.combine_spec(fixsubs@, reqsubs@, selsubs@) {
                crate::combinator::CombineOutcome::BadQuery(kind, code) => r matches Err(
                    e,
                ) && e.kind == kind && e.code@ == code,
                crate::combinator::CombineOutcome::NoCombo => r == Ok::<
                    Option<Vec<Vec<usize>>>,
                    QueryError,
                >(None),
                crate::combinator::CombineOutcome::Combos(cs) => r matches Ok(o)
                    && o matches Some(v) && v@.len() == cs.len() && exists|
                    ord: Seq<(u64, usize)>,
                |
                    {
                        &&& #[trigger] lex_sorted(ord)
                        &&& ord.len() == cs.len()
                        &&& forall|y: int|
                            0 <= y < ord.len() ==> 0 <= (#[trigger] ord[y]).1 < cs.len()
                                && v@[y]@ == cs[ord[y].1 as int]
                    },
            },
    {
        let combos = match self.combinate_subjects(fixsubs, reqsubs, selsubs) {
            Ok(Some(v)) => v,
            Ok(None) => {
                return Ok(None);
            },
            Err(e) => {
                return Err(e);
            },
        };
        proof {
            crate::laws::lemma_combinations_sound(*self, fixsubs@, reqsubs@, selsubs@);
            let cs = self.combine_spec(fixsubs@, reqsubs@, selsubs@)->Combos_0;
            assert forall|x: int, m: int|
                0 <= x < combos@.len() && 0 <= m < combos@[x]@.len() implies ((
            #[trigger] combos@[x]@[m]) as int) < self.subjects@.len() by {
                assert(combos.deep_view()[x] == cs[x]);
                assert(self.combo_ids_ok(
                    fixsubs@,
                    self.sorted_indices(reqsubs@),
                    self.sorted_indices(selsubs@),
                    cs[x],
                ));
                let slots = choose|slots: Seq<u8>|
                    self.combo_ok(
                        fixsubs@,
                        self.sorted_indices(reqsubs@),
                        self.sorted_indices(selsubs@),
                        (cs[x], slots),
                    );
                assert(combos@[x]@ == cs[x]);
                assert((cs[x][m] as int) < self.subjects@.len());
            }
        }
        let ranked = self.rank_combinations(&combos);
        proof {
            let cs = self.combine_spec(fixsubs@, reqsubs@, selsubs@)->Combos_0;
            let ord = choose|ord: Seq<(u64, usize)>|
                {
                    &&& #[trigger] lex_sorted(ord)
                    &&& ord.to_multiset() == self.spec_weight_tags(combos@).to_multiset()
                    &&& ord.len() == combos@.len()
                    &&& forall|y: int|
                        0 <= y < ord.len() ==> 0 <= (#[trigger] ord[y]).1 < combos@.len()
                            && ranked@[y]@ == combos@[ord[y].1 as int]@
                };
            assert forall|y: int| 0 <= y < ord.len() implies 0 <= (#[trigger] ord[y]).1
                < cs.len() && ranked@[y]@ == cs[ord[y].1 as int] by {
                assert(combos.deep_view()[ord[y].1 as int] == cs[ord[y].1 as int]);
            }
        }
        Ok(Some(ranked))
    }
}

} // verus!
