//! Keyed source maps and the alignment engine.
//!
//! A [`SourceMap`] holds one source's fetched result set: a mapping from
//! bucket key to aggregate row, kept as a vector sorted strictly ascending
//! by key. Its abstract value (its view) is the mathematical map from keys
//! to rows, so that any insertion order producing the same map gives the
//! same reconciliation. [`diff`] merges two source maps into the ordered
//! outcome sequence, and [`verdict`] reduces that sequence to pass or fail.

use vstd::prelude::*;

use crate::row::AggregateRow;
use crate::row::DiffOutcome;
use crate::row::DiffStatus;
use crate::row::Verdict;
use crate::row::fingerprints_equal;

verus! {

/// The mapping a row sequence denotes: each row's bucket key maps to that
/// row, with a later row winning on a repeated key (no key repeats in a
/// well-formed source map).
pub open spec fn seq_to_map(s: Seq<AggregateRow>) -> Map<u32, AggregateRow>
    decreases s.len(),
{
    if s.len() == 0 {
        Map::empty()
    } else {
        seq_to_map(s.drop_last()).insert(s.last().bucket_key, s.last())
    }
}

/// No two rows of the sequence share a bucket key.
pub open spec fn distinct_keys(s: Seq<AggregateRow>) -> bool {
    forall|i: int, j: int| 0 <= i < j < s.len() ==> s[i].bucket_key != s[j].bucket_key
}

/// Bucket keys strictly increase along the sequence.
pub open spec fn sorted_by_key(s: Seq<AggregateRow>) -> bool {
    forall|i: int, j: int| 0 <= i < j < s.len() ==> s[i].bucket_key < s[j].bucket_key
}

/// The map `m` holds exactly the rows of `s`, each under its own key.
#[verifier::opaque]
pub open spec fn abstracts(s: Seq<AggregateRow>, m: Map<u32, AggregateRow>) -> bool {
    &&& forall|k: u32| #[trigger] m.contains_key(k) <==> exists|l: int|
        0 <= l < s.len() && s[l].bucket_key == k
    &&& forall|l: int| 0 <= l < s.len() ==> m.contains_key((#[trigger] s[l]).bucket_key)
        && m[s[l].bucket_key] == s[l]
}

/// What `seq_to_map` holds, row by row: a key is present exactly when some
/// row carries it; when no key repeats, each row is the value its own key
/// maps to and the map has exactly one entry per row.
pub proof fn lemma_seq_to_map(s: Seq<AggregateRow>)
    ensures
        forall|k: u32| #[trigger] seq_to_map(s).contains_key(k)
            <==> exists|i: int| 0 <= i < s.len() && s[i].bucket_key == k,
        distinct_keys(s) ==> forall|i: int|
            0 <= i < s.len() ==> seq_to_map(s).contains_key(#[trigger] s[i].bucket_key)
                && seq_to_map(s)[s[i].bucket_key] == s[i],
        seq_to_map(s).dom().finite(),
        distinct_keys(s) ==> seq_to_map(s).dom().len() == s.len(),
    decreases s.len(),
{
    if s.len() == 0 {
    } else {
        let pre = s.drop_last();
        let last = s.last();
        lemma_seq_to_map(pre);
        assert forall|k: u32| #[trigger] seq_to_map(s).contains_key(k)
            implies exists|i: int| 0 <= i < s.len() && s[i].bucket_key == k by {
            if k == last.bucket_key {
                assert(s[s.len() - 1].bucket_key == k);
            } else {
                let i = choose|i: int| 0 <= i < pre.len() && pre[i].bucket_key == k;
                assert(s[i].bucket_key == k);
            }
        }
        assert forall|k: u32| (exists|i: int| 0 <= i < s.len() && s[i].bucket_key == k)
            implies #[trigger] seq_to_map(s).contains_key(k) by {
            let i = choose|i: int| 0 <= i < s.len() && s[i].bucket_key == k;
            if i < s.len() - 1 {
                assert(pre[i].bucket_key == k);
                assert(seq_to_map(pre).contains_key(k));
            }
        }
        if distinct_keys(s) {
            assert(distinct_keys(pre)) by {
                assert forall|i: int, j: int| 0 <= i < j < pre.len()
                    implies pre[i].bucket_key != pre[j].bucket_key by {
                    assert(s[i].bucket_key != s[j].bucket_key);
                }
            }
            assert forall|i: int|
                0 <= i < s.len() implies seq_to_map(s).contains_key(#[trigger] s[i].bucket_key)
                    && seq_to_map(s)[s[i].bucket_key] == s[i] by {
                if i < s.len() - 1 {
                    assert(pre[i] == s[i]);
                    assert(s[i].bucket_key != last.bucket_key);
                }
            }
            assert(!seq_to_map(pre).contains_key(last.bucket_key)) by {
                if seq_to_map(pre).contains_key(last.bucket_key) {
                    let i = choose|i: int|
                        0 <= i < pre.len() && pre[i].bucket_key == last.bucket_key;
                    assert(s[i].bucket_key == s[s.len() - 1].bucket_key);
                }
            }
            assert(seq_to_map(s).dom() =~= seq_to_map(pre).dom().insert(last.bucket_key));
            vstd::set::axiom_set_insert_len(seq_to_map(pre).dom(), last.bucket_key);
        }
    }
}

/// A sorted row sequence has no repeated key, and its denoted map holds
/// exactly its rows.
pub proof fn lemma_sorted_abstracts(s: Seq<AggregateRow>)
    requires
        sorted_by_key(s),
    ensures
        distinct_keys(s),
        abstracts(s, seq_to_map(s)),
        seq_to_map(s).dom().finite(),
        seq_to_map(s).dom().len() == s.len(),
{
    assert(distinct_keys(s));
    lemma_seq_to_map(s);
    reveal(abstracts);
}

/// One source's completed result set: at most one aggregate row per bucket
/// key. The view is the key-to-row mapping; the rows sit sorted strictly
/// ascending by key.
pub struct SourceMap {
    pub(crate) rows: Vec<AggregateRow>,
}

impl View for SourceMap {
    type V = Map<u32, AggregateRow>;

    closed spec fn view(&self) -> Map<u32, AggregateRow> {
        seq_to_map(self.rows@)
    }
}

impl SourceMap {
    /// The rows stand sorted strictly ascending by bucket key.
    pub closed spec fn wf(self) -> bool {
        sorted_by_key(self.rows@)
    }

    /// An empty result set.
    pub fn new() -> (m: SourceMap)
        ensures
            m.wf(),
            m@ == Map::<u32, AggregateRow>::empty(),
            m@.dom().len() == 0,
    {
        let m = SourceMap { rows: Vec::new() };
        proof {
            assert(m.rows@.len() == 0);
            assert(m@ =~= Map::<u32, AggregateRow>::empty());
        }
        m
    }

    /// The number of bucket keys in the set.
    pub fn len(&self) -> (n: usize)
        requires
            self.wf(),
        ensures
            n == self@.dom().len(),
    {
        proof {
            lemma_seq_to_map(self.rows@);
        }
        self.rows.len()
    }

    /// Record the fetched row for `row.bucket_key`: the key now maps to
    /// `row`, every other key keeps its row. The resulting mapping does not
    /// depend on the order in which rows were inserted.
    pub fn insert(&mut self, row: AggregateRow)
        requires
            old(self).wf(),
        ensures
            final(self).wf(),
            final(self)@ == old(self)@.insert(row.bucket_key, row),
    {
        proof {
            lemma_seq_to_map(self.rows@);
        }
        let ghost s0 = self.rows@;
        let k = row.bucket_key;
        let mut i: usize = 0;
        while i < self.rows.len() && self.rows[i].bucket_key < k
            invariant
                old(self).wf(),
                self.rows@ == s0,
                i <= s0.len(),
                forall|l: int| 0 <= l < i ==> (#[trigger] s0[l]).bucket_key < k,
            decreases s0.len() - i,
        {
            i = i + 1;
        }
        if i < self.rows.len() && self.rows[i].bucket_key == k {
            self.rows.set(i, row);
            proof {
                let s1 = self.rows@;
                assert(sorted_by_key(s1)) by {
                    assert forall|p: int, q: int| 0 <= p < q < s1.len()
                        implies s1[p].bucket_key < s1[q].bucket_key by {
                        assert(s0[p].bucket_key < s0[q].bucket_key);
                    }
                }
                lemma_seq_to_map(s1);
                assert(distinct_keys(s0));
                assert(distinct_keys(s1));
                assert forall|kk: u32|
                    #![trigger seq_to_map(s1).contains_key(kk)]
                    #![trigger seq_to_map(s0).insert(k, row).contains_key(kk)]
                    true implies {
                    &&& seq_to_map(s1).contains_key(kk) == seq_to_map(s0).insert(
                        k,
                        row,
                    ).contains_key(kk)
                    &&& (seq_to_map(s1).contains_key(kk) ==> seq_to_map(s1)[kk] == seq_to_map(
                        s0,
                    ).insert(k, row)[kk])
                } by {
                    if kk == k {
                        assert(s1[i as int].bucket_key == kk);
                        assert(seq_to_map(s1)[kk] == s1[i as int]);
                    } else {
                        if seq_to_map(s1).contains_key(kk) {
                            let l = choose|l: int| 0 <= l < s1.len() && s1[l].bucket_key == kk;
                            assert(s0[l].bucket_key == kk);
                            assert(seq_to_map(s0)[kk] == s0[l]);
                            assert(seq_to_map(s1)[kk] == s1[l]);
                        }
                        if seq_to_map(s0).contains_key(kk) {
                            let l = choose|l: int| 0 <= l < s0.len() && s0[l].bucket_key == kk;
                            assert(s1[l].bucket_key == kk);
                        }
                    }
                }
                assert(seq_to_map(s1) =~= seq_to_map(s0).insert(k, row));
            }
        } else {
            proof {
                assert forall|l: int| i <= l < s0.len()
                    implies k < (#[trigger] s0[l]).bucket_key by {
                    if i < s0.len() {
                        assert(!(s0[i as int].bucket_key < k) && s0[i as int].bucket_key != k);
                        if i < l {
                            assert(s0[i as int].bucket_key < s0[l].bucket_key);
                        }
                    }
                }
            }
            self.rows.insert(i, row);
            proof {
                let s1 = self.rows@;
                assert(s1 == s0.insert(i as int, row));
                assert forall|l: int| 0 <= l < s1.len() implies #[trigger] s1[l] == (if l < i {
                    s0[l]
                } else if l == i {
                    row
                } else {
                    s0[l - 1]
                }) by {
                    reveal(Seq::insert);
                }
                assert(sorted_by_key(s1)) by {
                    assert forall|p: int, q: int| 0 <= p < q < s1.len()
                        implies s1[p].bucket_key < s1[q].bucket_key by {}
                }
                lemma_seq_to_map(s1);
                assert(distinct_keys(s0));
                assert(distinct_keys(s1));
                assert forall|kk: u32|
                    #![trigger seq_to_map(s1).contains_key(kk)]
                    #![trigger seq_to_map(s0).insert(k, row).contains_key(kk)]
                    true implies {
                    &&& seq_to_map(s1).contains_key(kk) == seq_to_map(s0).insert(
                        k,
                        row,
                    ).contains_key(kk)
                    &&& (seq_to_map(s1).contains_key(kk) ==> seq_to_map(s1)[kk] == seq_to_map(
                        s0,
                    ).insert(k, row)[kk])
                } by {
                    if kk == k {
                        assert(s1[i as int].bucket_key == kk);
                        assert(seq_to_map(s1)[kk] == s1[i as int]);
                    } else {
                        if seq_to_map(s1).contains_key(kk) {
                            let l = choose|l: int| 0 <= l < s1.len() && s1[l].bucket_key == kk;
                            let l0: int = if l < i {
                                l
                            } else {
                                l - 1
                            };
                            assert(s0[l0].bucket_key == kk);
                            assert(seq_to_map(s0)[kk] == s0[l0]);
                            assert(seq_to_map(s1)[kk] == s1[l]);
                        }
                        if seq_to_map(s0).contains_key(kk) {
                            let l = choose|l: int| 0 <= l < s0.len() && s0[l].bucket_key == kk;
                            let l1: int = if l < i {
                                l
                            } else {
                                l + 1
                            };
                            assert(s1[l1].bucket_key == kk);
                        }
                    }
                }
                assert(seq_to_map(s1) =~= seq_to_map(s0).insert(k, row));
            }
        }
    }
}

/// The one outcome the specification assigns to key `k` given the two
/// mappings: both sides present compares the fingerprints exactly; a side
/// without the key makes the key missing on that side.
pub open spec fn outcome_for(
    ma: Map<u32, AggregateRow>,
    mb: Map<u32, AggregateRow>,
    k: u32,
) -> DiffOutcome {
    if ma.contains_key(k) && mb.contains_key(k) {
        DiffOutcome {
            bucket_key: k,
            status: if fingerprints_equal(ma[k], mb[k]) {
                DiffStatus::Matched
            } else {
                DiffStatus::Mismatched
            },
            row_a: Some(ma[k]),
            row_b: Some(mb[k]),
        }
    } else if ma.contains_key(k) {
        DiffOutcome {
            bucket_key: k,
            status: DiffStatus::MissingInB,
            row_a: Some(ma[k]),
            row_b: None,
        }
    } else {
        DiffOutcome {
            bucket_key: k,
            status: DiffStatus::MissingInA,
            row_a: None,
            row_b: Some(mb[k]),
        }
    }
}

/// Outcome bucket keys strictly increase along the sequence.
pub open spec fn strictly_ascending(out: Seq<DiffOutcome>) -> bool {
    forall|i: int, j: int| 0 <= i < j < out.len() ==> out[i].bucket_key < out[j].bucket_key
}

/// Every key of either mapping appears among the outcomes.
pub open spec fn covers_union(
    ma: Map<u32, AggregateRow>,
    mb: Map<u32, AggregateRow>,
    out: Seq<DiffOutcome>,
) -> bool {
    forall|k: u32| ma.contains_key(k) || mb.contains_key(k) ==> exists|i: int|
        0 <= i < out.len() && (#[trigger] out[i]).bucket_key == k
}

/// The full contract of the alignment engine: the outcomes stand strictly
/// ascending by bucket key, each one is exactly the outcome the two
/// mappings assign to its key, and every key of either mapping appears.
/// These three clauses pin the outcome sequence down uniquely.
pub open spec fn diff_post(
    ma: Map<u32, AggregateRow>,
    mb: Map<u32, AggregateRow>,
    out: Seq<DiffOutcome>,
) -> bool {
    &&& strictly_ascending(out)
    &&& forall|i: int| 0 <= i < out.len() ==> (ma.contains_key((#[trigger] out[i]).bucket_key)
        || mb.contains_key(out[i].bucket_key)) && out[i] == outcome_for(ma, mb, out[i].bucket_key)
    &&& covers_union(ma, mb, out)
}

/// The merge loop's state: outcomes so far are classified and ascending,
/// they sit below both frontiers, and they cover both processed prefixes.
#[verifier::opaque]
spec fn merge_inv(
    sa: Seq<AggregateRow>,
    sb: Seq<AggregateRow>,
    ma: Map<u32, AggregateRow>,
    mb: Map<u32, AggregateRow>,
    out: Seq<DiffOutcome>,
    i: int,
    j: int,
) -> bool {
    &&& 0 <= i <= sa.len()
    &&& 0 <= j <= sb.len()
    &&& forall|m: int| 0 <= m < out.len() ==> (ma.contains_key((#[trigger] out[m]).bucket_key)
        || mb.contains_key(out[m].bucket_key)) && out[m] == outcome_for(
        ma,
        mb,
        out[m].bucket_key,
    )
    &&& strictly_ascending(out)
    &&& (i < sa.len() ==> forall|m: int|
        0 <= m < out.len() ==> (#[trigger] out[m]).bucket_key < sa[i].bucket_key)
    &&& (j < sb.len() ==> forall|m: int|
        0 <= m < out.len() ==> (#[trigger] out[m]).bucket_key < sb[j].bucket_key)
    &&& forall|l: int| 0 <= l < i ==> exists|m: int|
        0 <= m < out.len() && out[m].bucket_key == (#[trigger] sa[l]).bucket_key
    &&& forall|l: int| 0 <= l < j ==> exists|m: int|
        0 <= m < out.len() && out[m].bucket_key == (#[trigger] sb[l]).bucket_key
}

/// Taking the next row from side A alone (its key below B's frontier)
/// emits a missing-in-B outcome and keeps the merge state.
proof fn lemma_step_solo_a(
    sa: Seq<AggregateRow>,
    sb: Seq<AggregateRow>,
    ma: Map<u32, AggregateRow>,
    mb: Map<u32, AggregateRow>,
    out0: Seq<DiffOutcome>,
    out1: Seq<DiffOutcome>,
    i: int,
    j: int,
)
    requires
        sorted_by_key(sa),
        sorted_by_key(sb),
        abstracts(sa, ma),
        abstracts(sb, mb),
        merge_inv(sa, sb, ma, mb, out0, i, j),
        i < sa.len(),
        j == sb.len() || sa[i].bucket_key < sb[j].bucket_key,
        out1 == out0.push(
            DiffOutcome {
                bucket_key: sa[i].bucket_key,
                status: DiffStatus::MissingInB,
                row_a: Some(sa[i]),
                row_b: None,
            },
        ),
    ensures
        merge_inv(sa, sb, ma, mb, out1, i + 1, j),
{
    reveal(merge_inv);
    let key = sa[i].bucket_key;
    assert forall|l: int| 0 <= l < sb.len() implies (#[trigger] sb[l]).bucket_key != key by {
        if l < j {
            let mm = choose|mm: int|
                0 <= mm < out0.len() && out0[mm].bucket_key == sb[l].bucket_key;
            assert(out0[mm].bucket_key < sa[i].bucket_key);
        } else {
            if j < l {
                assert(sb[j].bucket_key < sb[l].bucket_key);
            }
        }
    }
    assert(!mb.contains_key(key)) by {
        reveal(abstracts);
        if mb.contains_key(key) {
            let l = choose|l: int| 0 <= l < sb.len() && sb[l].bucket_key == key;
        }
    }
    assert(ma.contains_key(key) && ma[key] == sa[i]) by {
        reveal(abstracts);
    }
    assert(out1.last() == outcome_for(ma, mb, key));
    assert forall|m: int| 0 <= m < out1.len() implies (ma.contains_key(
        (#[trigger] out1[m]).bucket_key,
    ) || mb.contains_key(out1[m].bucket_key)) && out1[m] == outcome_for(
        ma,
        mb,
        out1[m].bucket_key,
    ) by {
        if m < out0.len() {
            assert(out1[m] == out0[m]);
        }
    }
    assert(strictly_ascending(out1)) by {
        assert forall|p: int, q: int| 0 <= p < q < out1.len()
            implies out1[p].bucket_key < out1[q].bucket_key by {
            assert(out1[p] == out0[p]);
            if q < out0.len() {
                assert(out0[p].bucket_key < out0[q].bucket_key);
            } else {
                assert(out0[p].bucket_key < key);
            }
        }
    }
    if i + 1 < sa.len() {
        assert forall|m: int| 0 <= m < out1.len()
            implies (#[trigger] out1[m]).bucket_key < sa[i + 1].bucket_key by {
            assert(sa[i].bucket_key < sa[i + 1].bucket_key);
            if m < out0.len() {
                assert(out1[m] == out0[m]);
                assert(out0[m].bucket_key < sa[i].bucket_key);
            }
        }
    }
    if j < sb.len() {
        assert forall|m: int| 0 <= m < out1.len()
            implies (#[trigger] out1[m]).bucket_key < sb[j].bucket_key by {
            if m < out0.len() {
                assert(out1[m] == out0[m]);
                assert(out0[m].bucket_key < sa[i].bucket_key);
            }
        }
    }
    assert forall|l: int| 0 <= l < i + 1 implies exists|m: int|
        0 <= m < out1.len() && out1[m].bucket_key == (#[trigger] sa[l]).bucket_key by {
        if l < i {
            let m = choose|m: int| 0 <= m < out0.len() && out0[m].bucket_key == sa[l].bucket_key;
            assert(out1[m].bucket_key == sa[l].bucket_key);
        } else {
            assert(out1[out0.len() as int].bucket_key == sa[l].bucket_key);
        }
    }
    assert forall|l: int| 0 <= l < j implies exists|m: int|
        0 <= m < out1.len() && out1[m].bucket_key == (#[trigger] sb[l]).bucket_key by {
        let m = choose|m: int| 0 <= m < out0.len() && out0[m].bucket_key == sb[l].bucket_key;
        assert(out1[m].bucket_key == sb[l].bucket_key);
    }
}

/// Taking the next row from side B alone (its key below A's frontier)
/// emits a missing-in-A outcome and keeps the merge state.
proof fn lemma_step_solo_b(
    sa: Seq<AggregateRow>,
    sb: Seq<AggregateRow>,
    ma: Map<u32, AggregateRow>,
    mb: Map<u32, AggregateRow>,
    out0: Seq<DiffOutcome>,
    out1: Seq<DiffOutcome>,
    i: int,
    j: int,
)
    requires
        sorted_by_key(sa),
        sorted_by_key(sb),
        abstracts(sa, ma),
        abstracts(sb, mb),
        merge_inv(sa, sb, ma, mb, out0, i, j),
        j < sb.len(),
        i == sa.len() || sb[j].bucket_key < sa[i].bucket_key,
        out1 == out0.push(
            DiffOutcome {
                bucket_key: sb[j].bucket_key,
                status: DiffStatus::MissingInA,
                row_a: None,
                row_b: Some(sb[j]),
            },
        ),
    ensures
        merge_inv(sa, sb, ma, mb, out1, i, j + 1),
{
    reveal(merge_inv);
    let key = sb[j].bucket_key;
    assert forall|l: int| 0 <= l < sa.len() implies (#[trigger] sa[l]).bucket_key != key by {
        if l < i {
            let mm = choose|mm: int|
                0 <= mm < out0.len() && out0[mm].bucket_key == sa[l].bucket_key;
            assert(out0[mm].bucket_key < sb[j].bucket_key);
        } else {
            if i < l {
                assert(sa[i].bucket_key < sa[l].bucket_key);
            }
        }
    }
    assert(!ma.contains_key(key)) by {
        reveal(abstracts);
        if ma.contains_key(key) {
            let l = choose|l: int| 0 <= l < sa.len() && sa[l].bucket_key == key;
        }
    }
    assert(mb.contains_key(key) && mb[key] == sb[j]) by {
        reveal(abstracts);
    }
    assert(out1.last() == outcome_for(ma, mb, key));
    assert forall|m: int| 0 <= m < out1.len() implies (ma.contains_key(
        (#[trigger] out1[m]).bucket_key,
    ) || mb.contains_key(out1[m].bucket_key)) && out1[m] == outcome_for(
        ma,
        mb,
        out1[m].bucket_key,
    ) by {
        if m < out0.len() {
            assert(out1[m] == out0[m]);
        }
    }
    assert(strictly_ascending(out1)) by {
        assert forall|p: int, q: int| 0 <= p < q < out1.len()
            implies out1[p].bucket_key < out1[q].bucket_key by {
            assert(out1[p] == out0[p]);
            if q < out0.len() {
                assert(out0[p].bucket_key < out0[q].bucket_key);
            } else {
                assert(out0[p].bucket_key < key);
            }
        }
    }
    if j + 1 < sb.len() {
        assert forall|m: int| 0 <= m < out1.len()
            implies (#[trigger] out1[m]).bucket_key < sb[j + 1].bucket_key by {
            assert(sb[j].bucket_key < sb[j + 1].bucket_key);
            if m < out0.len() {
                assert(out1[m] == out0[m]);
                assert(out0[m].bucket_key < sb[j].bucket_key);
            }
        }
    }
    if i < sa.len() {
        assert forall|m: int| 0 <= m < out1.len()
            implies (#[trigger] out1[m]).bucket_key < sa[i].bucket_key by {
            if m < out0.len() {
                assert(out1[m] == out0[m]);
                assert(out0[m].bucket_key < sb[j].bucket_key);
            }
        }
    }
    assert forall|l: int| 0 <= l < j + 1 implies exists|m: int|
        0 <= m < out1.len() && out1[m].bucket_key == (#[trigger] sb[l]).bucket_key by {
        if l < j {
            let m = choose|m: int| 0 <= m < out0.len() && out0[m].bucket_key == sb[l].bucket_key;
            assert(out1[m].bucket_key == sb[l].bucket_key);
        } else {
            assert(out1[out0.len() as int].bucket_key == sb[l].bucket_key);
        }
    }
    assert forall|l: int| 0 <= l < i implies exists|m: int|
        0 <= m < out1.len() && out1[m].bucket_key == (#[trigger] sa[l]).bucket_key by {
        let m = choose|m: int| 0 <= m < out0.len() && out0[m].bucket_key == sa[l].bucket_key;
        assert(out1[m].bucket_key == sa[l].bucket_key);
    }
}

/// Taking one row from each side under a shared key emits a matched or
/// mismatched outcome and keeps the merge state.
proof fn lemma_step_both(
    sa: Seq<AggregateRow>,
    sb: Seq<AggregateRow>,
    ma: Map<u32, AggregateRow>,
    mb: Map<u32, AggregateRow>,
    out0: Seq<DiffOutcome>,
    out1: Seq<DiffOutcome>,
    i: int,
    j: int,
    matched: bool,
)
    requires
        sorted_by_key(sa),
        sorted_by_key(sb),
        abstracts(sa, ma),
        abstracts(sb, mb),
        merge_inv(sa, sb, ma, mb, out0, i, j),
        i < sa.len(),
        j < sb.len(),
        sa[i].bucket_key == sb[j].bucket_key,
        matched == fingerprints_equal(sa[i], sb[j]),
        out1 == out0.push(
            DiffOutcome {
                bucket_key: sa[i].bucket_key,
                status: if matched {
                    DiffStatus::Matched
                } else {
                    DiffStatus::Mismatched
                },
                row_a: Some(sa[i]),
                row_b: Some(sb[j]),
            },
        ),
    ensures
        merge_inv(sa, sb, ma, mb, out1, i + 1, j + 1),
{
    reveal(merge_inv);
    let key = sa[i].bucket_key;
    assert(ma.contains_key(key) && ma[key] == sa[i] && mb.contains_key(key) && mb[key]
        == sb[j]) by {
        reveal(abstracts);
    }
    assert(out1.last() == outcome_for(ma, mb, key));
    assert forall|m: int| 0 <= m < out1.len() implies (ma.contains_key(
        (#[trigger] out1[m]).bucket_key,
    ) || mb.contains_key(out1[m].bucket_key)) && out1[m] == outcome_for(
        ma,
        mb,
        out1[m].bucket_key,
    ) by {
        if m < out0.len() {
            assert(out1[m] == out0[m]);
        }
    }
    assert(strictly_ascending(out1)) by {
        assert forall|p: int, q: int| 0 <= p < q < out1.len()
            implies out1[p].bucket_key < out1[q].bucket_key by {
            assert(out1[p] == out0[p]);
            if q < out0.len() {
                assert(out0[p].bucket_key < out0[q].bucket_key);
            } else {
                assert(out0[p].bucket_key < key);
            }
        }
    }
    if i + 1 < sa.len() {
        assert forall|m: int| 0 <= m < out1.len()
            implies (#[trigger] out1[m]).bucket_key < sa[i + 1].bucket_key by {
            assert(sa[i].bucket_key < sa[i + 1].bucket_key);
            if m < out0.len() {
                assert(out1[m] == out0[m]);
                assert(out0[m].bucket_key < sa[i].bucket_key);
            }
        }
    }
    if j + 1 < sb.len() {
        assert forall|m: int| 0 <= m < out1.len()
            implies (#[trigger] out1[m]).bucket_key < sb[j + 1].bucket_key by {
            assert(sb[j].bucket_key < sb[j + 1].bucket_key);
            if m < out0.len() {
                assert(out1[m] == out0[m]);
                assert(out0[m].bucket_key < sb[j].bucket_key);
            }
        }
    }
    assert forall|l: int| 0 <= l < i + 1 implies exists|m: int|
        0 <= m < out1.len() && out1[m].bucket_key == (#[trigger] sa[l]).bucket_key by {
        if l < i {
            let m = choose|m: int| 0 <= m < out0.len() && out0[m].bucket_key == sa[l].bucket_key;
            assert(out1[m].bucket_key == sa[l].bucket_key);
        } else {
            assert(out1[out0.len() as int].bucket_key == sa[l].bucket_key);
        }
    }
    assert forall|l: int| 0 <= l < j + 1 implies exists|m: int|
        0 <= m < out1.len() && out1[m].bucket_key == (#[trigger] sb[l]).bucket_key by {
        if l < j {
            let m = choose|m: int| 0 <= m < out0.len() && out0[m].bucket_key == sb[l].bucket_key;
            assert(out1[m].bucket_key == sb[l].bucket_key);
        } else {
            assert(out1[out0.len() as int].bucket_key == sb[l].bucket_key);
        }
    }
}

/// A completed merge satisfies the alignment contract.
proof fn lemma_merge_done(
    sa: Seq<AggregateRow>,
    sb: Seq<AggregateRow>,
    ma: Map<u32, AggregateRow>,
    mb: Map<u32, AggregateRow>,
    out: Seq<DiffOutcome>,
)
    requires
        abstracts(sa, ma),
        abstracts(sb, mb),
        merge_inv(sa, sb, ma, mb, out, sa.len() as int, sb.len() as int),
    ensures
        diff_post(ma, mb, out),
{
    reveal(merge_inv);
    reveal(abstracts);
    assert forall|k: u32| ma.contains_key(k) || mb.contains_key(k) implies exists|m: int|
        0 <= m < out.len() && (#[trigger] out[m]).bucket_key == k by {
        if ma.contains_key(k) {
            let l = choose|l: int| 0 <= l < sa.len() && sa[l].bucket_key == k;
            let m = choose|m: int| 0 <= m < out.len() && out[m].bucket_key == sa[l].bucket_key;
            assert(out[m].bucket_key == k);
        } else {
            let l = choose|l: int| 0 <= l < sb.len() && sb[l].bucket_key == k;
            let m = choose|m: int| 0 <= m < out.len() && out[m].bucket_key == sb[l].bucket_key;
            assert(out[m].bucket_key == k);
        }
    }
}

/// Align the two completed result sets by bucket key and classify every
/// key of either side, in ascending key order.
pub fn diff(a: &SourceMap, b: &SourceMap) -> (out: Vec<DiffOutcome>)
    requires
        a.wf(),
        b.wf(),
    ensures
        diff_post(a@, b@, out@),
{
    let ghost sa = a.rows@;
    let ghost sb = b.rows@;
    let ghost ma = a@;
    let ghost mb = b@;
    proof {
        lemma_sorted_abstracts(sa);
        lemma_sorted_abstracts(sb);
    }
    let mut i: usize = 0;
    let mut j: usize = 0;
    let mut out: Vec<DiffOutcome> = Vec::new();
    proof {
        assert(merge_inv(sa, sb, ma, mb, out@, 0, 0)) by {
            reveal(merge_inv);
        }
    }
    while i < a.rows.len() || j < b.rows.len()
        invariant
            sa == a.rows@,
            sb == b.rows@,
            ma == a@,
            mb == b@,
            sorted_by_key(sa),
            sorted_by_key(sb),
            abstracts(sa, ma),
            abstracts(sb, mb),
            i <= sa.len(),
            j <= sb.len(),
            merge_inv(sa, sb, ma, mb, out@, i as int, j as int),
        decreases sa.len() - i + sb.len() - j,
    {
        if i < a.rows.len() && (j == b.rows.len() || a.rows[i].bucket_key
            < b.rows[j].bucket_key) {
            let row = a.rows[i];
            let outcome = DiffOutcome {
                bucket_key: row.bucket_key,
                status: DiffStatus::MissingInB,
                row_a: Some(row),
                row_b: None,
            };
            let ghost out0 = out@;
            out.push(outcome);
            proof {
                lemma_step_solo_a(sa, sb, ma, mb, out0, out@, i as int, j as int);
            }
            i = i + 1;
        } else if j < b.rows.len() && (i == a.rows.len() || b.rows[j].bucket_key
            < a.rows[i].bucket_key) {
            let row = b.rows[j];
            let outcome = DiffOutcome {
                bucket_key: row.bucket_key,
                status: DiffStatus::MissingInA,
                row_a: None,
                row_b: Some(row),
            };
            let ghost out0 = out@;
            out.push(outcome);
            proof {
                lemma_step_solo_b(sa, sb, ma, mb, out0, out@, i as int, j as int);
            }
            j = j + 1;
        } else {
            let row_a = a.rows[i];
            let row_b = b.rows[j];
            let matched = row_a.fingerprint_matches(&row_b);
            let outcome = DiffOutcome {
                bucket_key: row_a.bucket_key,
                status: if matched {
                    DiffStatus::Matched
                } else {
                    DiffStatus::Mismatched
                },
                row_a: Some(row_a),
                row_b: Some(row_b),
            };
            let ghost out0 = out@;
            out.push(outcome);
            proof {
                lemma_step_both(sa, sb, ma, mb, out0, out@, i as int, j as int, matched);
            }
            i = i + 1;
            j = j + 1;
        }
    }
    proof {
        lemma_merge_done(sa, sb, ma, mb, out@);
    }
    out
}

/// Run one whole reconciliation on two completed result sets: the ordered
/// outcome sequence, and the verdict over it with the two key counts.
pub fn reconcile(a: &SourceMap, b: &SourceMap) -> (r: (Vec<DiffOutcome>, Verdict))
    requires
        a.wf(),
        b.wf(),
    ensures
        diff_post(a@, b@, r.0@),
        r.1 == spec_verdict(r.0@, a@.dom().len(), b@.dom().len()),
{
    let outcomes = diff(a, b);
    let v = verdict(&outcomes, a.len(), b.len());
    (outcomes, v)
}

/// The verdict the specification assigns: pass exactly when every outcome
/// is matched and the two sides hold the same number of bucket keys.
pub open spec fn spec_verdict(out: Seq<DiffOutcome>, len_a: nat, len_b: nat) -> Verdict {
    if (forall|i: int| 0 <= i < out.len() ==> (#[trigger] out[i]).status == DiffStatus::Matched)
        && len_a == len_b {
        Verdict::Pass
    } else {
        Verdict::Fail
    }
}

/// Reduce the outcome sequence to the overall verdict, given the two
/// sides' key counts: pass if and only if every key matched and the
/// counts agree.
#[verifier::loop_isolation(false)]
pub fn verdict(out: &Vec<DiffOutcome>, len_a: usize, len_b: usize) -> (v: Verdict)
    ensures
        v == spec_verdict(out@, len_a as nat, len_b as nat),
{
    let mut all_matched = true;
    let mut i: usize = 0;
    while i < out.len()
        invariant
            i <= out@.len(),
            all_matched == forall|m: int|
                0 <= m < i ==> (#[trigger] out@[m]).status == DiffStatus::Matched,
        decreases out@.len() - i,
    {
        if !(out[i].status == DiffStatus::Matched) {
            all_matched = false;
        }
        i = i + 1;
    }
    if all_matched && len_a == len_b {
        Verdict::Pass
    } else {
        Verdict::Fail
    }
}

} // verus!
