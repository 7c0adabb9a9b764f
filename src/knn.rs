//! The k-nearest-neighbour vote, from distance keys to label groups, and the
//! laws that tie its steps together.
use vstd::prelude::*;
use crate::nearest::{closer, is_nearest, lemma_increasing_below_is_identity, select_nearest};
use crate::tally::{first_seen, group_labels, groups_of, labels_of, with_label, LabelGroup};

verus! {

/// The labels of the `k` samples nearest to the query, each with the retained
/// samples that carry it, in the order in which the labels first occur among
/// the retained samples taken in input order. `labels[i]` and `keys[i]` are
/// the label and the distance key of sample `i`.
pub fn nearest_groups(k: usize, labels: &Vec<String>, keys: &Vec<u64>) -> (r: Vec<LabelGroup>)
    requires
        labels.len() == keys.len(),
    ensures
        exists|near: Seq<usize>| is_nearest(keys@, k as nat, near) && groups_of(labels@, near, r@),
{
    let near = select_nearest(k, keys);
    let r = group_labels(labels, &near);
    assert(is_nearest(keys@, k as nat, near@) && groups_of(labels@, near@, r@));
    r
}

/// A sample that is retained keeps every earlier sample at the same or a
/// smaller distance retained too: a later tie never displaces an earlier one.
pub proof fn lemma_tie_keeps_earlier(keys: Seq<u64>, k: nat, near: Seq<usize>, i: usize, j: usize)
    requires
        is_nearest(keys, k, near),
        i < j < keys.len(),
        keys[i as int] <= keys[j as int],
        near.contains(j),
    ensures
        near.contains(i),
{
    if !near.contains(i) {
        let a = choose|a: int| 0 <= a < near.len() && near[a] == j;
        assert(closer(keys, near[a] as int, i as int));
    }
}

/// With no samples at all there is no label to vote for.
pub proof fn lemma_no_samples_no_groups(
    labels: Seq<String>,
    keys: Seq<u64>,
    k: nat,
    near: Seq<usize>,
    groups: Seq<LabelGroup>,
)
    requires
        keys.len() == 0,
        is_nearest(keys, k, near),
        groups_of(labels, near, groups),
    ensures
        groups.len() == 0,
{
    assert(labels_of(labels, near) =~= Seq::empty());
}

/// Where there are no more samples than `k`, every sample takes part in the
/// vote: its label has a group, and the sample is among that group's members.
pub proof fn lemma_few_samples_all_vote(
    labels: Seq<String>,
    keys: Seq<u64>,
    k: nat,
    near: Seq<usize>,
    groups: Seq<LabelGroup>,
    i: usize,
)
    requires
        labels.len() == keys.len(),
        keys.len() <= k,
        is_nearest(keys, k, near),
        groups_of(labels, near, groups),
        i < keys.len(),
    ensures
        exists|g: int|
            0 <= g < groups.len() && #[trigger] groups[g].label@ == labels[i as int]@
                && groups[g].members@.contains(i),
{
    lemma_increasing_below_is_identity(near, keys.len());
    assert(near[i as int] == i);
    lemma_member_grouped(labels, near, i as int);
    let seen = first_seen(labels_of(labels, near));
    let g = choose|g: int| 0 <= g < seen.len() && seen[g] == labels[i as int]@;
    assert(groups[g].label@ == labels[i as int]@);
}

/// Each member's label is among the first-seen labels, and the member is
/// among the members with that label.
proof fn lemma_member_grouped(labels: Seq<String>, members: Seq<usize>, t: int)
    requires
        0 <= t < members.len(),
    ensures
        first_seen(labels_of(labels, members)).contains(labels[members[t] as int]@),
        with_label(labels, members, labels[members[t] as int]@).contains(members[t]),
    decreases members.len(),
{
    let l = labels[members[t] as int]@;
    let prefix = members.drop_last();
    assert(labels_of(labels, members).drop_last() =~= labels_of(labels, prefix));
    let seen = first_seen(labels_of(labels, prefix));
    let within = with_label(labels, prefix, l);
    if t == members.len() - 1 {
        if !seen.contains(l) {
            assert(seen.push(l)[seen.len() as int] == l);
        }
        assert(within.push(members[t])[within.len() as int] == members[t]);
    } else {
        assert(prefix[t] == members[t]);
        lemma_member_grouped(labels, prefix, t);
        let a = choose|a: int| 0 <= a < seen.len() && seen[a] == l;
        if !seen.contains(labels_of(labels, members).last()) {
            assert(seen.push(labels_of(labels, members).last())[a] == l);
        }
        let b = choose|b: int| 0 <= b < within.len() && within[b] == members[t];
        if labels[members.last() as int]@ == l {
            assert(within.push(members.last())[b] == members[t]);
        }
    }
}

} // verus!
