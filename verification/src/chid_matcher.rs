//! Matching CHID mappings against the CHIDs of the running hardware.
use vstd::prelude::*;
use crate::chid::{CHID_TYPES, ChidSources, chid_for, compute_chid, sources_fit, sources_view};
use crate::chid_mapping::{ChidMapping, chid_of};
use crate::guid::Guid;

verus! {

/// The CHID types used for matching, from the most specific to the least.
pub const CHID_TYPE_MATCHING_PRIORITY: [usize; 11] = [17, 16, 15, 3, 6, 8, 10, 4, 5, 7, 9];

/// The type mask of the `k`-th CHID type in matching order.
pub open spec fn priority_type(k: int) -> usize {
    CHID_TYPES[CHID_TYPE_MATCHING_PRIORITY[k] as int]
}

/// The indices, from `from` on, of the mappings whose CHID is `g`.
#[verifier::opaque]
pub open spec fn type_matches(ms: Seq<ChidMapping>, g: Option<Guid>, from: int) -> Seq<int>
    decreases ms.len() - from,
{
    if from < 0 || from >= ms.len() || g is None {
        Seq::empty()
    } else {
        (if chid_of(ms[from]) == g->0 {
            seq![from]
        } else {
            Seq::empty()
        }) + type_matches(ms, g, from + 1)
    }
}

/// The indices of the matching mappings for the CHID types from the `k`-th
/// in matching order on: for each type, those whose CHID is the CHID of that
/// type, in the order of the mappings.
pub open spec fn matches_from_type(ms: Seq<ChidMapping>, srcs: Seq<Option<Seq<char>>>, k: int) -> Seq<
    int,
>
    decreases 11 - k,
{
    if k < 0 || k >= 11 {
        Seq::empty()
    } else {
        type_matches(ms, chid_for(srcs, priority_type(k)), 0) + matches_from_type(ms, srcs, k + 1)
    }
}

proof fn lemma_type_matches(ms: Seq<ChidMapping>, g: Option<Guid>, i: int)
    ensures
        (i < 0 || i >= ms.len() || g is None) ==> type_matches(ms, g, i) == Seq::<int>::empty(),
        (0 <= i < ms.len() && g is Some) ==> type_matches(ms, g, i) == (if chid_of(ms[i]) == g->0 {
            seq![i]
        } else {
            Seq::empty()
        }) + type_matches(ms, g, i + 1),
{
    reveal(type_matches);
}

/// The matches for the CHID types from the `k`-th on are those of the
/// `k`-th type, then those of the types after it in matching order.
pub proof fn lemma_matches_from_type(ms: Seq<ChidMapping>, srcs: Seq<Option<Seq<char>>>, k: int)
    ensures
        (k < 0 || k >= 11) ==> matches_from_type(ms, srcs, k) == Seq::<int>::empty(),
        0 <= k < 11 ==> matches_from_type(ms, srcs, k) == type_matches(
            ms,
            chid_for(srcs, priority_type(k)),
            0,
        ) + matches_from_type(ms, srcs, k + 1),
{
    reveal(matches_from_type);
}

/// The mappings matched for one CHID are, in ascending order, exactly
/// those from `from` on whose CHID it is; none are matched for a CHID that
/// could not be computed.
pub proof fn lemma_type_matches_in_order(ms: Seq<ChidMapping>, g: Option<Guid>, from: int)
    requires
        0 <= from,
    ensures
        forall|p: int, q: int|
            0 <= p < q < type_matches(ms, g, from).len() ==> type_matches(ms, g, from)[p]
                < type_matches(ms, g, from)[q],
        forall|i: int|
            type_matches(ms, g, from).contains(i) <==> (from <= i < ms.len() && g == Some(chid_of(ms[i]))),
    decreases ms.len() - from,
{
    lemma_type_matches(ms, g, from);
    if from < ms.len() && g is Some {
        lemma_type_matches_in_order(ms, g, from + 1);
        let rest = type_matches(ms, g, from + 1);
        let t = type_matches(ms, g, from);
        assert forall|i: int| rest.contains(i) implies i > from by {
            let j = choose|j: int| 0 <= j < rest.len() && rest[j] == i;
        }
        if chid_of(ms[from]) == g->0 {
            assert(t == seq![from] + rest);
            assert forall|p: int, q: int| 0 <= p < q < t.len() implies t[p] < t[q] by {
                if p == 0 {
                    assert(rest.contains(t[q]));
                } else {
                    assert(t[p] == rest[p - 1] && t[q] == rest[q - 1]);
                }
            }
            assert forall|i: int| t.contains(i) <==> (from <= i < ms.len() && g == Some(chid_of(ms[i]))) by {
                if t.contains(i) && i != from {
                    let j = choose|j: int| 0 <= j < t.len() && t[j] == i;
                    assert(rest[j - 1] == i);
                }
                if rest.contains(i) {
                    let j = choose|j: int| 0 <= j < rest.len() && rest[j] == i;
                    assert(t[j + 1] == i);
                }
                if i == from {
                    assert(t[0] == i);
                }
            }
        } else {
            assert(t =~= rest);
        }
    }
}

/// The first mapping from `from` on whose CHID is `g`.
fn find_chid(ms: &[ChidMapping], from: usize, g: Guid) -> (r: Option<usize>)
    requires
        from <= ms@.len(),
    ensures
        match r {
            None => type_matches(ms@, Some(g), from as int) == Seq::<int>::empty(),
            Some(j) => from <= j < ms@.len() && type_matches(ms@, Some(g), from as int) == seq![
                j as int,
            ] + type_matches(ms@, Some(g), j + 1),
        },
{
    let mut i = from;
    while i < ms.len()
        invariant
            from <= i <= ms@.len(),
            type_matches(ms@, Some(g), from as int) == type_matches(ms@, Some(g), i as int),
        decreases ms@.len() - i,
    {
        proof {
            lemma_type_matches(ms@, Some(g), i as int);
        }
        if *ms[i].chid() == g {
            proof {
                assert(chid_of(ms@[i as int]).data4 =~= g.data4);
            }
            return Some(i);
        }
        proof {
            if chid_of(ms@[i as int]) == g {
                assert(chid_of(ms@[i as int]).data4@ == g.data4@);
            }
            assert(type_matches(ms@, Some(g), i as int) =~= type_matches(ms@, Some(g), i + 1));
        }
        i += 1;
    }
    proof {
        lemma_type_matches(ms@, Some(g), i as int);
    }
    None
}

/// Yields the mappings that apply to the hardware described by some CHID
/// sources, by CHID type in matching order.
pub struct ChidMatcher<'m, 's, 'r> {
    mappings: &'m [ChidMapping<'s>],
    srcs: &'r ChidSources,
    mappings_idx: usize,
    type_priority_idx: usize,
    current_chid: Option<Guid>,
}

impl<'m, 's, 'r> ChidMatcher<'m, 's, 'r> {
    #[verifier::type_invariant]
    spec fn inv(&self) -> bool {
        &&& self.mappings_idx <= self.mappings@.len()
        &&& self.type_priority_idx <= 11
        &&& sources_fit(*self.srcs)
        &&& self.current_chid is None ==> self.mappings_idx == 0
        &&& self.current_chid is Some ==> self.type_priority_idx >= 1 && self.current_chid
            == chid_for(sources_view(*self.srcs), priority_type(self.type_priority_idx - 1))
    }

    /// The mappings being matched.
    pub closed spec fn mappings(&self) -> Seq<ChidMapping<'s>> {
        self.mappings@
    }

    /// The indices of the mappings still to be yielded, in order.
    pub closed spec fn remaining(&self) -> Seq<int> {
        type_matches(self.mappings@, self.current_chid, self.mappings_idx as int) + matches_from_type(
            self.mappings@,
            sources_view(*self.srcs),
            self.type_priority_idx as int,
        )
    }

    /// A matcher over `mappings` for the hardware described by `srcs`.
    pub fn new(mappings: &'m [ChidMapping<'s>], srcs: &'r ChidSources) -> (m: Self)
        requires
            sources_fit(*srcs),
        ensures
            m.mappings() == mappings@,
            m.remaining() == matches_from_type(mappings@, sources_view(*srcs), 0),
    {
        let m = ChidMatcher {
            mappings,
            srcs,
            mappings_idx: 0,
            type_priority_idx: 0,
            current_chid: None,
        };
        proof {
            lemma_type_matches(mappings@, None, 0);
            assert(m.remaining() =~= matches_from_type(mappings@, sources_view(*srcs), 0));
        }
        m
    }

    /// The next matching mapping, or `None` when all have been yielded.
    pub fn next(&mut self) -> (r: Option<&'m ChidMapping<'s>>)
        ensures
            final(self).mappings() == old(self).mappings(),
            old(self).remaining().len() == 0 ==> r is None && final(self).remaining()
                == old(self).remaining(),
            old(self).remaining().len() > 0 ==> (r matches Some(m) && *m == old(
                self,
            ).mappings()[old(self).remaining()[0]] && final(self).remaining() == old(
                self,
            ).remaining().drop_first()),
    {
        proof {
            use_type_invariant(&*self);
        }
        let ghost rem0 = self.remaining();
        loop
            invariant
                self.mappings() == old(self).mappings(),
                self.remaining() == rem0,
                rem0 == old(self).remaining(),
            decreases 11 - self.type_priority_idx, (if self.current_chid is Some {
                1int
            } else {
                0int
            }), self.mappings@.len() - self.mappings_idx,
        {
            proof {
                use_type_invariant(&*self);
            }
            let current = match self.current_chid {
                Some(g) => g,
                None => {
                    proof {
                        lemma_type_matches(self.mappings@, None, self.mappings_idx as int);
                        lemma_matches_from_type(
                            self.mappings@,
                            sources_view(*self.srcs),
                            self.type_priority_idx as int,
                        );
                        assert(Seq::<int>::empty() + matches_from_type(
                            self.mappings@,
                            sources_view(*self.srcs),
                            self.type_priority_idx as int,
                        ) =~= matches_from_type(
                            self.mappings@,
                            sources_view(*self.srcs),
                            self.type_priority_idx as int,
                        ));
                        lemma_type_matches(self.mappings@, None, 0);
                    }
                    if self.type_priority_idx >= 11 {
                        return None;
                    }
                    let t = CHID_TYPES[CHID_TYPE_MATCHING_PRIORITY[self.type_priority_idx]];
                    let c = compute_chid(self.srcs, t);
                    let ghost k0 = self.type_priority_idx as int;
                    self.type_priority_idx = self.type_priority_idx + 1;
                    self.current_chid = c;
                    proof {
                        assert(t == priority_type(k0));
                        assert(rem0 == matches_from_type(self.mappings@, sources_view(*self.srcs), k0));
                    }
                    continue;
                },
            };
            let found = find_chid(self.mappings, self.mappings_idx, current);
            match found {
                Some(k) => {
                    let ghost rest = matches_from_type(
                        self.mappings@,
                        sources_view(*self.srcs),
                        self.type_priority_idx as int,
                    );
                    let _n = self.mappings.len();
                    self.mappings_idx = k + 1;
                    proof {
                        assert(rem0.drop_first() =~= type_matches(
                            self.mappings@,
                            Some(current),
                            k + 1,
                        ) + rest);
                    }
                    return Some(&self.mappings[k]);
                },
                None => {},
            }
            proof {
                lemma_type_matches(self.mappings@, None, 0);
                assert(Seq::<int>::empty() + matches_from_type(
                    self.mappings@,
                    sources_view(*self.srcs),
                    self.type_priority_idx as int,
                ) =~= matches_from_type(
                    self.mappings@,
                    sources_view(*self.srcs),
                    self.type_priority_idx as int,
                ));
            }
            self.mappings_idx = 0;
            self.current_chid = None;
        }
    }
}

} // verus!
