//! Laws of the alignment engine, proved from its contract alone.
//!
//! Every lemma here takes outcome sequences constrained only by
//! [`diff_post`], the full contract of [`crate::diff::diff`], so each law
//! holds of anything that contract admits.

use vstd::prelude::*;

use crate::diff::diff_post;
use crate::diff::outcome_for;
use crate::diff::spec_verdict;
use crate::diff::strictly_ascending;
use crate::row::AggregateRow;
use crate::row::DiffOutcome;
use crate::row::DiffStatus;
use crate::row::Verdict;

verus! {

/// Some outcome of the sequence carries bucket key `k`.
pub open spec fn has_key(out: Seq<DiffOutcome>, k: u32) -> bool {
    exists|i: int| 0 <= i < out.len() && (#[trigger] out[i]).bucket_key == k
}

/// Two strictly ascending outcome sequences over the same key set have the
/// same length and carry the same key at every position.
proof fn lemma_aligned_keys(out1: Seq<DiffOutcome>, out2: Seq<DiffOutcome>)
    requires
        strictly_ascending(out1),
        strictly_ascending(out2),
        forall|k: u32|
            #![trigger has_key(out1, k)]
            #![trigger has_key(out2, k)]
            has_key(out1, k) <==> has_key(out2, k),
    ensures
        out1.len() == out2.len(),
        forall|i: int| 0 <= i < out1.len()
            ==> (#[trigger] out1[i]).bucket_key == out2[i].bucket_key,
    decreases out1.len(),
{
    if out1.len() == 0 {
        if out2.len() > 0 {
            assert(has_key(out2, out2[0].bucket_key)) by {
                assert(out2[0].bucket_key == out2[0].bucket_key);
            }
            let i = choose|i: int| 0 <= i < out1.len() && out1[i].bucket_key
                == out2[0].bucket_key;
            assert(false);
        }
    } else if out2.len() == 0 {
        assert(has_key(out1, out1[0].bucket_key)) by {
            assert(out1[0].bucket_key == out1[0].bucket_key);
        }
        let i = choose|i: int| 0 <= i < out2.len() && out2[i].bucket_key == out1[0].bucket_key;
        assert(false);
    } else {
        let k1 = out1[0].bucket_key;
        let k2 = out2[0].bucket_key;
        assert(has_key(out1, k1));
        assert(has_key(out2, k2));
        let m1 = choose|i: int| 0 <= i < out2.len() && out2[i].bucket_key == k1;
        if 0 < m1 {
            assert(out2[0].bucket_key < out2[m1].bucket_key);
        }
        let m2 = choose|i: int| 0 <= i < out1.len() && out1[i].bucket_key == k2;
        if 0 < m2 {
            assert(out1[0].bucket_key < out1[m2].bucket_key);
        }
        assert(k1 == k2);
        let t1 = out1.skip(1);
        let t2 = out2.skip(1);
        assert(strictly_ascending(t1)) by {
            assert forall|p: int, q: int| 0 <= p < q < t1.len()
                implies t1[p].bucket_key < t1[q].bucket_key by {
                assert(t1[p] == out1[p + 1] && t1[q] == out1[q + 1]);
            }
        }
        assert(strictly_ascending(t2)) by {
            assert forall|p: int, q: int| 0 <= p < q < t2.len()
                implies t2[p].bucket_key < t2[q].bucket_key by {
                assert(t2[p] == out2[p + 1] && t2[q] == out2[q + 1]);
            }
        }
        assert forall|k: u32|
            #![trigger has_key(t1, k)]
            #![trigger has_key(t2, k)]
            has_key(t1, k) <==> has_key(t2, k) by {
            if has_key(t1, k) {
                let i = choose|i: int| 0 <= i < t1.len() && t1[i].bucket_key == k;
                assert(out1[i + 1].bucket_key == k);
                assert(has_key(out1, k));
                assert(k1 < k);
                let m = choose|m: int| 0 <= m < out2.len() && out2[m].bucket_key == k;
                assert(m != 0);
                assert(t2[m - 1].bucket_key == k);
            }
            if has_key(t2, k) {
                let i = choose|i: int| 0 <= i < t2.len() && t2[i].bucket_key == k;
                assert(out2[i + 1].bucket_key == k);
                assert(has_key(out2, k));
                assert(k2 < k);
                let m = choose|m: int| 0 <= m < out1.len() && out1[m].bucket_key == k;
                assert(m != 0);
                assert(t1[m - 1].bucket_key == k);
            }
        }
        lemma_aligned_keys(t1, t2);
        assert forall|i: int| 0 <= i < out1.len()
            implies (#[trigger] out1[i]).bucket_key == out2[i].bucket_key by {
            if i > 0 {
                assert(t1[i - 1] == out1[i]);
                assert(t2[i - 1] == out2[i]);
                assert(t1[i - 1].bucket_key == t2[i - 1].bucket_key);
            }
        }
    }
}

/// Under the alignment contract, a key appears among the outcomes exactly
/// when one of the two mappings holds it.
proof fn lemma_keys_are_union(
    ma: Map<u32, AggregateRow>,
    mb: Map<u32, AggregateRow>,
    out: Seq<DiffOutcome>,
)
    requires
        diff_post(ma, mb, out),
    ensures
        forall|k: u32| #[trigger] has_key(out, k) <==> ma.contains_key(k) || mb.contains_key(k),
{
    assert forall|k: u32| #[trigger] has_key(out, k) implies ma.contains_key(k)
        || mb.contains_key(k) by {
        let i = choose|i: int| 0 <= i < out.len() && out[i].bucket_key == k;
        assert(ma.contains_key(out[i].bucket_key) || mb.contains_key(out[i].bucket_key));
    }
    assert forall|k: u32| ma.contains_key(k) || mb.contains_key(k)
        implies #[trigger] has_key(out, k) by {
        let i = choose|i: int| 0 <= i < out.len() && (#[trigger] out[i]).bucket_key == k;
        assert(0 <= i < out.len() && out[i].bucket_key == k);
    }
}

/// Equal mappings reconcile clean: every outcome is matched, and with the
/// equal key counts the verdict is pass.
pub proof fn lemma_equal_sources_pass(
    ma: Map<u32, AggregateRow>,
    mb: Map<u32, AggregateRow>,
    out: Seq<DiffOutcome>,
)
    requires
        mb == ma,
        diff_post(ma, mb, out),
    ensures
        forall|i: int| 0 <= i < out.len() ==> (#[trigger] out[i]).status == DiffStatus::Matched,
        spec_verdict(out, ma.dom().len(), mb.dom().len()) == Verdict::Pass,
{
    assert forall|i: int| 0 <= i < out.len()
        implies (#[trigger] out[i]).status == DiffStatus::Matched by {
        let k = out[i].bucket_key;
        assert(out[i] == outcome_for(ma, mb, k));
        assert(ma.contains_key(k) && mb.contains_key(k));
    }
}

/// A key on exactly one side is classified as missing on the other side:
/// present only in the first mapping gives missing-in-B, present only in
/// the second gives missing-in-A.
pub proof fn lemma_one_sided_key_missing(
    ma: Map<u32, AggregateRow>,
    mb: Map<u32, AggregateRow>,
    out: Seq<DiffOutcome>,
    k: u32,
)
    requires
        diff_post(ma, mb, out),
    ensures
        ma.contains_key(k) && !mb.contains_key(k) ==> exists|i: int|
            0 <= i < out.len() && (#[trigger] out[i]).bucket_key == k && out[i].status
                == DiffStatus::MissingInB,
        mb.contains_key(k) && !ma.contains_key(k) ==> exists|i: int|
            0 <= i < out.len() && (#[trigger] out[i]).bucket_key == k && out[i].status
                == DiffStatus::MissingInA,
{
    if ma.contains_key(k) && !mb.contains_key(k) {
        let i = choose|i: int| 0 <= i < out.len() && (#[trigger] out[i]).bucket_key == k;
        assert(out[i] == outcome_for(ma, mb, k));
        assert(0 <= i < out.len() && out[i].bucket_key == k && out[i].status
            == DiffStatus::MissingInB);
    }
    if mb.contains_key(k) && !ma.contains_key(k) {
        let i = choose|i: int| 0 <= i < out.len() && (#[trigger] out[i]).bucket_key == k;
        assert(out[i] == outcome_for(ma, mb, k));
        assert(0 <= i < out.len() && out[i].bucket_key == k && out[i].status
            == DiffStatus::MissingInA);
    }
}

/// The status a key receives after the two sources swap places.
pub open spec fn swapped_status(s: DiffStatus) -> DiffStatus {
    match s {
        DiffStatus::MissingInA => DiffStatus::MissingInB,
        DiffStatus::MissingInB => DiffStatus::MissingInA,
        _ => s,
    }
}

/// Swapping the two sources keeps the key order and swaps only the two
/// missing labels: matched and mismatched keys keep their status.
pub proof fn lemma_swap_sources(
    ma: Map<u32, AggregateRow>,
    mb: Map<u32, AggregateRow>,
    out_ab: Seq<DiffOutcome>,
    out_ba: Seq<DiffOutcome>,
)
    requires
        diff_post(ma, mb, out_ab),
        diff_post(mb, ma, out_ba),
    ensures
        out_ba.len() == out_ab.len(),
        forall|i: int| 0 <= i < out_ab.len() ==> (#[trigger] out_ba[i]).bucket_key
            == out_ab[i].bucket_key && out_ba[i].status == swapped_status(out_ab[i].status),
{
    lemma_keys_are_union(ma, mb, out_ab);
    lemma_keys_are_union(mb, ma, out_ba);
    lemma_aligned_keys(out_ab, out_ba);
    assert forall|i: int| 0 <= i < out_ab.len() implies (#[trigger] out_ba[i]).bucket_key
        == out_ab[i].bucket_key && out_ba[i].status == swapped_status(out_ab[i].status) by {
        let k = out_ab[i].bucket_key;
        assert(out_ab[i] == outcome_for(ma, mb, k));
        assert(out_ba[i] == outcome_for(mb, ma, k));
    }
}

/// The alignment contract admits exactly one outcome sequence for a given
/// pair of mappings: running the engine twice, or with the sources filled
/// in any order, yields identical ordered output.
pub proof fn lemma_diff_deterministic(
    ma: Map<u32, AggregateRow>,
    mb: Map<u32, AggregateRow>,
    out1: Seq<DiffOutcome>,
    out2: Seq<DiffOutcome>,
)
    requires
        diff_post(ma, mb, out1),
        diff_post(ma, mb, out2),
    ensures
        out1 == out2,
{
    lemma_keys_are_union(ma, mb, out1);
    lemma_keys_are_union(ma, mb, out2);
    lemma_aligned_keys(out1, out2);
    assert forall|i: int| 0 <= i < out1.len() implies out1[i] == out2[i] by {
        let k = out1[i].bucket_key;
        assert(out1[i] == outcome_for(ma, mb, k));
        assert(out2[i] == outcome_for(ma, mb, k));
    }
    assert(out1 =~= out2);
}

} // verus!
