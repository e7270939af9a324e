//! Sorting by confidence and greedy non-max suppression.
//!
//! Suppression repeatedly takes the strongest remaining candidate, accepts
//! it, and discards every remaining candidate whose IOU with it reaches the
//! threshold.  The selected candidate itself always leaves the remaining
//! set, so each round shrinks it and the algorithm terminates even when a
//! degenerate (zero-area) box compares with IOU zero against everything,
//! itself included.

use vstd::prelude::*;
use vstd::multiset::Multiset;

use crate::boxes::{
    iou_at_least, lemma_iou_symmetric, rect_of, spec_iou_ge, spec_to_result, OutputBox, ResultBox,
    THRESHOLD_LIMIT,
};

verus! {

/// Probabilities never increase along the run.
pub open spec fn prob_sorted_desc(s: Seq<OutputBox>) -> bool {
    forall|i: int, j: int|
        0 <= i < j < s.len() ==> s[i].probability >= s[j].probability
}

/// Every candidate in the run is well-formed.
pub open spec fn all_wf(s: Seq<OutputBox>) -> bool {
    forall|i: int| 0 <= i < s.len() ==> s[i].wf()
}

/// No two distinct accepted candidates reach the IOU threshold.
pub open spec fn pairwise_separated(s: Seq<OutputBox>, num: int, den: int) -> bool {
    forall|i: int, j: int|
        0 <= i < s.len() && 0 <= j < s.len() && i != j ==> !spec_iou_ge(
            rect_of(s[i]),
            rect_of(s[j]),
            num,
            den,
        )
}

/// Where a candidate lands in a sorted run: after every candidate at least
/// as strong, before the first strictly weaker one.
pub open spec fn spec_insert_desc(b: OutputBox, s: Seq<OutputBox>) -> Seq<OutputBox>
    decreases s.len(),
{
    if s.len() == 0 {
        seq![b]
    } else if b.probability > s[0].probability {
        seq![b] + s
    } else {
        seq![s[0]] + spec_insert_desc(b, s.drop_first())
    }
}

/// Insertion sort by descending probability.  Candidates of equal
/// probability keep their original order, so the order is deterministic.
pub open spec fn spec_sort_desc(s: Seq<OutputBox>) -> Seq<OutputBox>
    decreases s.len(),
{
    if s.len() == 0 {
        Seq::empty()
    } else {
        spec_insert_desc(s.last(), spec_sort_desc(s.drop_last()))
    }
}

proof fn lemma_insert_desc_len(b: OutputBox, s: Seq<OutputBox>)
    ensures
        spec_insert_desc(b, s).len() == s.len() + 1,
    decreases s.len(),
{
    if s.len() > 0 && !(b.probability > s[0].probability) {
        lemma_insert_desc_len(b, s.drop_first());
    }
}

/// Everything in an insertion result is the new candidate or came from the
/// run it was inserted into.
proof fn lemma_insert_desc_membership(b: OutputBox, s: Seq<OutputBox>)
    ensures
        forall|x: OutputBox|
            #[trigger] spec_insert_desc(b, s).contains(x) ==> x == b || s.contains(x),
    decreases s.len(),
{
    if s.len() == 0 {
    } else if b.probability > s[0].probability {
        assert forall|x: OutputBox| #[trigger]
            spec_insert_desc(b, s).contains(x) implies x == b || s.contains(x) by {
            let w = spec_insert_desc(b, s);
            let i = choose|i: int| 0 <= i < w.len() && w[i] == x;
            if i > 0 {
                assert(s[i - 1] == x);
                assert(s.contains(x));
            }
        }
    } else {
        lemma_insert_desc_membership(b, s.drop_first());
        assert forall|x: OutputBox| #[trigger]
            spec_insert_desc(b, s).contains(x) implies x == b || s.contains(x) by {
            let w = spec_insert_desc(b, s);
            let t = spec_insert_desc(b, s.drop_first());
            let i = choose|i: int| 0 <= i < w.len() && w[i] == x;
            if i == 0 {
                assert(s[0] == x);
                assert(s.contains(x));
            } else {
                assert(t[i - 1] == x);
                assert(t.contains(x));
                if x != b {
                    assert(s.drop_first().contains(x));
                    let j = choose|j: int| 0 <= j < s.drop_first().len() && s.drop_first()[j] == x;
                    assert(s[j + 1] == x);
                    assert(s.contains(x));
                }
            }
        }
    }
}

/// Inserting into a sorted run keeps it sorted.
proof fn lemma_insert_desc_sorted(b: OutputBox, s: Seq<OutputBox>)
    requires
        prob_sorted_desc(s),
    ensures
        prob_sorted_desc(spec_insert_desc(b, s)),
    decreases s.len(),
{
    lemma_insert_desc_len(b, s);
    if s.len() == 0 {
    } else if b.probability > s[0].probability {
    } else {
        assert(prob_sorted_desc(s.drop_first())) by {
            assert forall|i: int, j: int|
                0 <= i < j < s.drop_first().len() implies s.drop_first()[i].probability
                >= s.drop_first()[j].probability by {
                assert(s[i + 1].probability >= s[j + 1].probability);
            }
        }
        lemma_insert_desc_sorted(b, s.drop_first());
        lemma_insert_desc_membership(b, s.drop_first());
        lemma_insert_desc_len(b, s.drop_first());
        let t = spec_insert_desc(b, s.drop_first());
        let r = spec_insert_desc(b, s);
        assert forall|i: int, j: int|
            0 <= i < j < r.len() implies r[i].probability >= r[j].probability by {
            if i == 0 {
                assert(r[j] == t[j - 1]);
                let x = t[j - 1];
                assert(t.contains(x));
                if x == b {
                } else {
                    assert(s.drop_first().contains(x));
                    let k = choose|k: int| 0 <= k < s.drop_first().len() && s.drop_first()[k] == x;
                    assert(s[k + 1] == x);
                    assert(s[0].probability >= s[k + 1].probability);
                }
            } else {
                assert(r[i] == t[i - 1] && r[j] == t[j - 1]);
            }
        }
    }
}

/// Prepending is inserting into the multiset of a run.
proof fn lemma_prepend_to_multiset(x: OutputBox, s: Seq<OutputBox>)
    ensures
        (seq![x] + s).to_multiset() == s.to_multiset().insert(x),
    decreases s.len(),
{
    broadcast use vstd::seq_lib::group_to_multiset_ensures;

    if s.len() == 0 {
        assert(seq![x] + s =~= Seq::empty().push(x));
        assert(s.to_multiset() =~= Multiset::empty());
        assert((Seq::<OutputBox>::empty().push(x)).to_multiset() =~= Seq::<
            OutputBox,
        >::empty().to_multiset().insert(x));
        assert(Seq::<OutputBox>::empty().to_multiset() =~= Multiset::empty());
    } else {
        lemma_prepend_to_multiset(x, s.drop_last());
        assert(seq![x] + s =~= (seq![x] + s.drop_last()).push(s.last()));
        assert(s =~= s.drop_last().push(s.last()));
        assert(s.to_multiset() =~= s.drop_last().to_multiset().insert(s.last()));
        assert((seq![x] + s).to_multiset() =~= s.drop_last().to_multiset().insert(x).insert(
            s.last(),
        ));
        assert(s.drop_last().to_multiset().insert(x).insert(s.last()) =~= s.drop_last()
            .to_multiset()
            .insert(s.last())
            .insert(x));
    }
}

/// Insertion adds exactly the new candidate to the run's multiset.
proof fn lemma_insert_desc_to_multiset(b: OutputBox, s: Seq<OutputBox>)
    ensures
        spec_insert_desc(b, s).to_multiset() == s.to_multiset().insert(b),
    decreases s.len(),
{
    broadcast use vstd::seq_lib::group_to_multiset_ensures;

    if s.len() == 0 {
        lemma_prepend_to_multiset(b, s);
        assert(seq![b] + s =~= spec_insert_desc(b, s));
    } else if b.probability > s[0].probability {
        lemma_prepend_to_multiset(b, s);
    } else {
        lemma_insert_desc_to_multiset(b, s.drop_first());
        let t = spec_insert_desc(b, s.drop_first());
        lemma_prepend_to_multiset(s[0], t);
        lemma_prepend_to_multiset(s[0], s.drop_first());
        assert(s =~= seq![s[0]] + s.drop_first());
        assert(spec_insert_desc(b, s).to_multiset() =~= s.drop_first()
            .to_multiset()
            .insert(b)
            .insert(s[0]));
        assert(s.drop_first().to_multiset().insert(b).insert(s[0]) =~= s.drop_first()
            .to_multiset()
            .insert(s[0])
            .insert(b));
    }
}

/// Sorting permutes the run: the multiset of candidates is unchanged.
pub proof fn lemma_sort_desc_permutes(s: Seq<OutputBox>)
    ensures
        spec_sort_desc(s).to_multiset() == s.to_multiset(),
    decreases s.len(),
{
    broadcast use vstd::seq_lib::group_to_multiset_ensures;

    if s.len() > 0 {
        lemma_sort_desc_permutes(s.drop_last());
        lemma_insert_desc_to_multiset(s.last(), spec_sort_desc(s.drop_last()));
        assert(s =~= s.drop_last().push(s.last()));
        assert(s.to_multiset() =~= s.drop_last().to_multiset().insert(s.last()));
    }
}

/// Everything in the sorted run came from the input.
pub proof fn lemma_sort_desc_membership(s: Seq<OutputBox>)
    ensures
        forall|x: OutputBox| #[trigger] spec_sort_desc(s).contains(x) ==> s.contains(x),
    decreases s.len(),
{
    if s.len() > 0 {
        lemma_sort_desc_membership(s.drop_last());
        lemma_insert_desc_membership(s.last(), spec_sort_desc(s.drop_last()));
        assert forall|x: OutputBox| #[trigger]
            spec_sort_desc(s).contains(x) implies s.contains(x) by {
            assert(spec_insert_desc(s.last(), spec_sort_desc(s.drop_last())).contains(x));
            if x == s.last() {
                assert(s[s.len() - 1] == x);
                assert(s.contains(x));
            } else {
                assert(spec_sort_desc(s.drop_last()).contains(x));
                assert(s.drop_last().contains(x));
                let j = choose|j: int| 0 <= j < s.drop_last().len() && s.drop_last()[j] == x;
                assert(s[j] == x);
                assert(s.contains(x));
            }
        }
    }
}

/// The result of the spec-level insertion sort is sorted.
pub proof fn lemma_sort_desc_sorted(s: Seq<OutputBox>)
    ensures
        prob_sorted_desc(spec_sort_desc(s)),
    decreases s.len(),
{
    if s.len() > 0 {
        lemma_sort_desc_sorted(s.drop_last());
        lemma_insert_desc_sorted(s.last(), spec_sort_desc(s.drop_last()));
    }
}

/// Splits a sorted run at the insertion point: the inserted candidate goes
/// exactly after the prefix of candidates at least as strong.
proof fn lemma_insert_desc_at(b: OutputBox, s: Seq<OutputBox>, k: int)
    requires
        prob_sorted_desc(s),
        0 <= k <= s.len(),
        forall|j: int| 0 <= j < k ==> s[j].probability >= b.probability,
        k == s.len() || s[k].probability < b.probability,
    ensures
        spec_insert_desc(b, s) == s.subrange(0, k) + seq![b] + s.subrange(k, s.len() as int),
    decreases s.len(),
{
    if s.len() == 0 {
        assert(spec_insert_desc(b, s) =~= s.subrange(0, k) + seq![b] + s.subrange(k, 0));
    } else if k == 0 {
        assert(s[0].probability < b.probability);
        assert(spec_insert_desc(b, s) =~= s.subrange(0, 0) + seq![b] + s.subrange(
            0,
            s.len() as int,
        ));
    } else {
        assert(s[0].probability >= b.probability);
        assert(prob_sorted_desc(s.drop_first())) by {
            assert forall|i: int, j: int|
                0 <= i < j < s.drop_first().len() implies s.drop_first()[i].probability
                >= s.drop_first()[j].probability by {
                assert(s[i + 1].probability >= s[j + 1].probability);
            }
        }
        assert forall|j: int| 0 <= j < k - 1 implies s.drop_first()[j].probability
            >= b.probability by {
            assert(s.drop_first()[j] == s[j + 1]);
        }
        lemma_insert_desc_at(b, s.drop_first(), k - 1);
        assert(spec_insert_desc(b, s) =~= s.subrange(0, k) + seq![b] + s.subrange(
            k,
            s.len() as int,
        ));
    }
}

/// Sorts candidates by descending probability; equal probabilities keep
/// their order.  Any deterministic total order on ties would do for
/// suppression; this one is the stable order of the input.
pub fn sort_boxes(boxes: &Vec<OutputBox>) -> (r: Vec<OutputBox>)
    ensures
        r@ == spec_sort_desc(boxes@),
        prob_sorted_desc(r@),
        r@.to_multiset() == boxes@.to_multiset(),
{
    proof {
        lemma_sort_desc_permutes(boxes@);
    }
    let mut result: Vec<OutputBox> = Vec::new();
    let mut i: usize = 0;
    while i < boxes.len()
        invariant
            i <= boxes.len(),
            result@ == spec_sort_desc(boxes@.take(i as int)),
            prob_sorted_desc(result@),
        decreases boxes.len() - i,
    {
        let b = boxes[i];
        let mut pos: usize = 0;
        while pos < result.len() && result[pos].probability >= b.probability
            invariant
                pos <= result.len(),
                prob_sorted_desc(result@),
                forall|j: int| 0 <= j < pos ==> result@[j].probability >= b.probability,
            decreases result.len() - pos,
        {
            pos += 1;
        }
        proof {
            lemma_insert_desc_at(b, result@, pos as int);
            assert(boxes@.take(i + 1).drop_last() =~= boxes@.take(i as int));
            assert(boxes@.take(i + 1).last() == b);
            lemma_insert_desc_sorted(b, result@);
        }
        result.insert(pos, b);
        assert(result@ =~= spec_sort_desc(boxes@.take(i + 1)));
        i += 1;
    }
    proof {
        assert(boxes@.take(boxes@.len() as int) =~= boxes@);
    }
    result
}

/// Candidates that survive a selection: those whose IOU with the selected
/// box stays below the threshold, in their original order.
pub open spec fn spec_survivors(
    first: OutputBox,
    s: Seq<OutputBox>,
    num: int,
    den: int,
) -> Seq<OutputBox>
    decreases s.len(),
{
    if s.len() == 0 {
        Seq::empty()
    } else {
        let rest = spec_survivors(first, s.drop_last(), num, den);
        if !spec_iou_ge(rect_of(first), rect_of(s.last()), num, den) {
            rest.push(s.last())
        } else {
            rest
        }
    }
}

pub proof fn lemma_survivors_len(first: OutputBox, s: Seq<OutputBox>, num: int, den: int)
    ensures
        spec_survivors(first, s, num, den).len() <= s.len(),
    decreases s.len(),
{
    if s.len() > 0 {
        lemma_survivors_len(first, s.drop_last(), num, den);
    }
}

/// Every survivor came from the run and stays below the threshold against
/// the selected box.
pub proof fn lemma_survivors_membership(first: OutputBox, s: Seq<OutputBox>, num: int, den: int)
    ensures
        forall|x: OutputBox|
            #[trigger] spec_survivors(first, s, num, den).contains(x) ==> s.contains(x)
                && !spec_iou_ge(rect_of(first), rect_of(x), num, den),
    decreases s.len(),
{
    if s.len() > 0 {
        lemma_survivors_membership(first, s.drop_last(), num, den);
        assert forall|x: OutputBox| #[trigger]
            spec_survivors(first, s, num, den).contains(x) implies s.contains(x) && !spec_iou_ge(
            rect_of(first),
            rect_of(x),
            num,
            den,
        ) by {
            let whole = spec_survivors(first, s, num, den);
            let rest = spec_survivors(first, s.drop_last(), num, den);
            let i = choose|i: int| 0 <= i < whole.len() && whole[i] == x;
            if !spec_iou_ge(rect_of(first), rect_of(s.last()), num, den) && i == rest.len() {
                assert(x == s.last());
                assert(s[s.len() - 1] == x);
                assert(s.contains(x));
            } else {
                assert(rest[i] == x);
                assert(rest.contains(x));
                assert(s.drop_last().contains(x));
                let j = choose|j: int| 0 <= j < s.drop_last().len() && s.drop_last()[j] == x;
                assert(s[j] == x);
                assert(s.contains(x));
            }
        }
    }
}

/// A selection keeps the survivors sorted.
proof fn lemma_survivors_sorted(first: OutputBox, s: Seq<OutputBox>, num: int, den: int)
    requires
        prob_sorted_desc(s),
    ensures
        prob_sorted_desc(spec_survivors(first, s, num, den)),
    decreases s.len(),
{
    if s.len() > 0 {
        assert(prob_sorted_desc(s.drop_last())) by {
            assert forall|i: int, j: int|
                0 <= i < j < s.drop_last().len() implies s.drop_last()[i].probability
                >= s.drop_last()[j].probability by {
                assert(s[i].probability >= s[j].probability);
            }
        }
        lemma_survivors_sorted(first, s.drop_last(), num, den);
        lemma_survivors_membership(first, s.drop_last(), num, den);
        let rest = spec_survivors(first, s.drop_last(), num, den);
        if !spec_iou_ge(rect_of(first), rect_of(s.last()), num, den) {
            assert forall|i: int, j: int|
                0 <= i < j < rest.push(s.last()).len() implies rest.push(s.last())[i].probability
                >= rest.push(s.last())[j].probability by {
                if j < rest.len() {
                } else {
                    let x = rest[i];
                    assert(rest.contains(x));
                    assert(s.drop_last().contains(x));
                    let k = choose|k: int| 0 <= k < s.drop_last().len() && s.drop_last()[k] == x;
                    assert(s[k] == x);
                    assert(s[k].probability >= s[s.len() - 1].probability);
                }
            }
        }
    }
}

/// When nothing reaches the threshold against the selected box, the whole
/// run survives.
proof fn lemma_survivors_all_kept(first: OutputBox, s: Seq<OutputBox>, num: int, den: int)
    requires
        forall|j: int| 0 <= j < s.len() ==> !spec_iou_ge(rect_of(first), rect_of(s[j]), num, den),
    ensures
        spec_survivors(first, s, num, den) == s,
    decreases s.len(),
{
    if s.len() > 0 {
        assert forall|j: int| 0 <= j < s.drop_last().len() implies !spec_iou_ge(
            rect_of(first),
            rect_of(s.drop_last()[j]),
            num,
            den,
        ) by {
            assert(s.drop_last()[j] == s[j]);
        }
        lemma_survivors_all_kept(first, s.drop_last(), num, den);
        assert(s[s.len() - 1] == s.last());
        assert(spec_survivors(first, s, num, den) =~= s);
    }
}

/// Greedy suppression: accept the first candidate, discard the rest of the
/// run that reaches the threshold against it, repeat on the survivors.
pub open spec fn spec_nms(s: Seq<OutputBox>, num: int, den: int) -> Seq<OutputBox>
    decreases s.len(),
{
    if s.len() == 0 {
        Seq::empty()
    } else {
        proof {
            lemma_survivors_len(s[0], s.drop_first(), num, den);
        }
        seq![s[0]] + spec_nms(spec_survivors(s[0], s.drop_first(), num, den), num, den)
    }
}

/// Everything suppression accepts came from its input run.
pub proof fn lemma_nms_membership(s: Seq<OutputBox>, num: int, den: int)
    ensures
        forall|x: OutputBox| #[trigger] spec_nms(s, num, den).contains(x) ==> s.contains(x),
    decreases s.len(),
{
    if s.len() > 0 {
        let surv = spec_survivors(s[0], s.drop_first(), num, den);
        lemma_survivors_len(s[0], s.drop_first(), num, den);
        lemma_nms_membership(surv, num, den);
        lemma_survivors_membership(s[0], s.drop_first(), num, den);
        assert forall|x: OutputBox| #[trigger]
            spec_nms(s, num, den).contains(x) implies s.contains(x) by {
            let r = spec_nms(s, num, den);
            let i = choose|i: int| 0 <= i < r.len() && r[i] == x;
            if i == 0 {
                assert(s[0] == x);
                assert(s.contains(x));
            } else {
                assert(spec_nms(surv, num, den)[i - 1] == x);
                assert(spec_nms(surv, num, den).contains(x));
                assert(surv.contains(x));
                assert(s.drop_first().contains(x));
                let j = choose|j: int| 0 <= j < s.drop_first().len() && s.drop_first()[j] == x;
                assert(s[j + 1] == x);
                assert(s.contains(x));
            }
        }
    }
}

/// No two distinct accepted detections of one suppression round reach the
/// IOU threshold against each other.
pub proof fn lemma_nms_pairwise_separated(s: Seq<OutputBox>, num: int, den: int)
    ensures
        pairwise_separated(spec_nms(s, num, den), num, den),
    decreases s.len(),
{
    if s.len() > 0 {
        let first = s[0];
        let surv = spec_survivors(first, s.drop_first(), num, den);
        lemma_survivors_len(first, s.drop_first(), num, den);
        lemma_nms_pairwise_separated(surv, num, den);
        lemma_nms_membership(surv, num, den);
        lemma_survivors_membership(first, s.drop_first(), num, den);
        let r = spec_nms(s, num, den);
        let t = spec_nms(surv, num, den);
        assert forall|i: int, j: int|
            0 <= i < r.len() && 0 <= j < r.len() && i != j implies !spec_iou_ge(
            rect_of(r[i]),
            rect_of(r[j]),
            num,
            den,
        ) by {
            if i == 0 {
                assert(r[j] == t[j - 1]);
                assert(t.contains(t[j - 1]));
                assert(surv.contains(r[j]));
            } else if j == 0 {
                assert(r[i] == t[i - 1]);
                assert(t.contains(t[i - 1]));
                assert(surv.contains(r[i]));
                lemma_iou_symmetric(rect_of(r[i]), rect_of(r[j]), num, den);
            } else {
                assert(r[i] == t[i - 1] && r[j] == t[j - 1]);
            }
        }
    }
}

/// On a run already free of threshold-reaching pairs, suppression keeps
/// every candidate in place.
pub proof fn lemma_nms_of_separated(s: Seq<OutputBox>, num: int, den: int)
    requires
        pairwise_separated(s, num, den),
    ensures
        spec_nms(s, num, den) == s,
    decreases s.len(),
{
    if s.len() > 0 {
        let first = s[0];
        assert forall|j: int| 0 <= j < s.drop_first().len() implies !spec_iou_ge(
            rect_of(first),
            rect_of(s.drop_first()[j]),
            num,
            den,
        ) by {
            assert(s.drop_first()[j] == s[j + 1]);
        }
        lemma_survivors_all_kept(first, s.drop_first(), num, den);
        assert(pairwise_separated(s.drop_first(), num, den)) by {
            assert forall|i: int, j: int|
                0 <= i < s.drop_first().len() && 0 <= j < s.drop_first().len() && i
                != j implies !spec_iou_ge(
                rect_of(s.drop_first()[i]),
                rect_of(s.drop_first()[j]),
                num,
                den,
            ) by {
                assert(s.drop_first()[i] == s[i + 1] && s.drop_first()[j] == s[j + 1]);
            }
        }
        lemma_nms_of_separated(s.drop_first(), num, den);
        assert(spec_nms(s, num, den) =~= s);
    }
}

/// Suppression is idempotent: running it again on its own output changes
/// nothing, because the output is already pairwise separated.
pub proof fn lemma_nms_idempotent(s: Seq<OutputBox>, num: int, den: int)
    ensures
        spec_nms(spec_nms(s, num, den), num, den) == spec_nms(s, num, den),
{
    lemma_nms_pairwise_separated(s, num, den);
    lemma_nms_of_separated(spec_nms(s, num, den), num, den);
}

/// On a sorted run the accepted detections come out in descending
/// probability order.
pub proof fn lemma_nms_sorted(s: Seq<OutputBox>, num: int, den: int)
    requires
        prob_sorted_desc(s),
    ensures
        prob_sorted_desc(spec_nms(s, num, den)),
    decreases s.len(),
{
    if s.len() > 0 {
        let first = s[0];
        let surv = spec_survivors(first, s.drop_first(), num, den);
        assert(prob_sorted_desc(s.drop_first())) by {
            assert forall|i: int, j: int|
                0 <= i < j < s.drop_first().len() implies s.drop_first()[i].probability
                >= s.drop_first()[j].probability by {
                assert(s[i + 1].probability >= s[j + 1].probability);
            }
        }
        lemma_survivors_len(first, s.drop_first(), num, den);
        lemma_survivors_sorted(first, s.drop_first(), num, den);
        lemma_nms_sorted(surv, num, den);
        lemma_nms_membership(surv, num, den);
        lemma_survivors_membership(first, s.drop_first(), num, den);
        let r = spec_nms(s, num, den);
        let t = spec_nms(surv, num, den);
        assert forall|i: int, j: int|
            0 <= i < j < r.len() implies r[i].probability >= r[j].probability by {
            if i == 0 {
                let x = t[j - 1];
                assert(r[j] == x);
                assert(t.contains(x));
                assert(surv.contains(x));
                assert(s.drop_first().contains(x));
                let k = choose|k: int| 0 <= k < s.drop_first().len() && s.drop_first()[k] == x;
                assert(s[k + 1] == x);
                assert(s[0].probability >= s[k + 1].probability);
            } else {
                assert(r[i] == t[i - 1] && r[j] == t[j - 1]);
            }
        }
    }
}

/// Runs greedy suppression on a run of candidates, strongest first.
pub fn suppress(boxes: Vec<OutputBox>, iou_num: i64, iou_den: i64) -> (r: Vec<OutputBox>)
    requires
        all_wf(boxes@),
        0 <= iou_num <= THRESHOLD_LIMIT,
        0 < iou_den <= THRESHOLD_LIMIT,
    ensures
        r@ == spec_nms(boxes@, iou_num as int, iou_den as int),
        all_wf(r@),
{
    let ghost orig = boxes@;
    let mut boxes = boxes;
    let mut result: Vec<OutputBox> = Vec::new();
    while boxes.len() > 0
        invariant
            all_wf(boxes@),
            all_wf(result@),
            0 <= iou_num <= THRESHOLD_LIMIT,
            0 < iou_den <= THRESHOLD_LIMIT,
            spec_nms(orig, iou_num as int, iou_den as int) == result@ + spec_nms(
                boxes@,
                iou_num as int,
                iou_den as int,
            ),
        decreases boxes.len(),
    {
        let ghost num = iou_num as int;
        let ghost den = iou_den as int;
        let first = boxes[0];
        let mut kept: Vec<OutputBox> = Vec::new();
        let mut i: usize = 1;
        while i < boxes.len()
            invariant
                1 <= i <= boxes.len(),
                boxes@.len() > 0,
                first == boxes@[0],
                all_wf(boxes@),
                0 <= iou_num <= THRESHOLD_LIMIT,
                0 < iou_den <= THRESHOLD_LIMIT,
                kept@ == spec_survivors(
                    first,
                    boxes@.subrange(1, i as int),
                    iou_num as int,
                    iou_den as int,
                ),
                all_wf(kept@),
            decreases boxes.len() - i,
        {
            let keep = !iou_at_least(&first, &boxes[i], iou_num, iou_den);
            proof {
                assert(boxes@.subrange(1, i + 1).drop_last() =~= boxes@.subrange(1, i as int));
                assert(boxes@.subrange(1, i + 1).last() == boxes@[i as int]);
            }
            if keep {
                kept.push(boxes[i]);
            }
            i += 1;
        }
        proof {
            assert(boxes@.subrange(1, boxes@.len() as int) =~= boxes@.drop_first());
            lemma_survivors_len(first, boxes@.drop_first(), num, den);
            assert(spec_nms(boxes@, num, den) == seq![first] + spec_nms(kept@, num, den));
            assert(result@ + spec_nms(boxes@, num, den) =~= (result@ + seq![first]) + spec_nms(
                kept@,
                num,
                den,
            ));
            assert((result@ + seq![first]) =~= result@.push(first));
        }
        result.push(first);
        boxes = kept;
    }
    proof {
        assert(result@ + spec_nms(boxes@, iou_num as int, iou_den as int) =~= result@);
    }
    result
}

/// Sorts the candidates by descending probability, suppresses duplicates,
/// and turns what remains into the externally visible detections.
///
/// The accepted detections are pairwise below the IOU threshold, come out
/// in descending probability order, and an empty result is an ordinary
/// outcome, not an error.
pub fn filter_and_suppress(boxes: Vec<OutputBox>, iou_num: i64, iou_den: i64) -> (r: Vec<
    ResultBox,
>)
    requires
        all_wf(boxes@),
        0 <= iou_num <= THRESHOLD_LIMIT,
        0 < iou_den <= THRESHOLD_LIMIT,
    ensures
        r@ == spec_nms(spec_sort_desc(boxes@), iou_num as int, iou_den as int).map_values(
            |b: OutputBox| spec_to_result(b),
        ),
        prob_sorted_desc(spec_nms(spec_sort_desc(boxes@), iou_num as int, iou_den as int)),
        pairwise_separated(
            spec_nms(spec_sort_desc(boxes@), iou_num as int, iou_den as int),
            iou_num as int,
            iou_den as int,
        ),
        all_wf(spec_nms(spec_sort_desc(boxes@), iou_num as int, iou_den as int)),
{
    proof {
        lemma_sort_desc_membership(boxes@);
        lemma_sort_desc_sorted(boxes@);
        lemma_nms_sorted(spec_sort_desc(boxes@), iou_num as int, iou_den as int);
        lemma_nms_pairwise_separated(spec_sort_desc(boxes@), iou_num as int, iou_den as int);
    }
    let sorted = sort_boxes(&boxes);
    assert(all_wf(sorted@)) by {
        assert forall|i: int| 0 <= i < sorted@.len() implies sorted@[i].wf() by {
            assert(spec_sort_desc(boxes@).contains(sorted@[i]));
            assert(boxes@.contains(sorted@[i]));
            let j = choose|j: int| 0 <= j < boxes@.len() && boxes@[j] == sorted@[i];
            assert(boxes@[j].wf());
        }
    }
    let selected = suppress(sorted, iou_num, iou_den);
    let mut result: Vec<ResultBox> = Vec::new();
    let mut i: usize = 0;
    while i < selected.len()
        invariant
            i <= selected.len(),
            result@ == selected@.take(i as int).map_values(|b: OutputBox| spec_to_result(b)),
        decreases selected.len() - i,
    {
        result.push(selected[i].into_result_box());
        proof {
            assert(selected@.take(i + 1).drop_last() =~= selected@.take(i as int));
            assert(selected@.take(i + 1).map_values(|b: OutputBox| spec_to_result(b)) =~= selected@
                .take(i as int)
                .map_values(|b: OutputBox| spec_to_result(b))
                .push(spec_to_result(selected@[i as int])));
        }
        i += 1;
    }
    proof {
        assert(selected@.take(selected@.len() as int) =~= selected@);
    }
    result
}

} // verus!
