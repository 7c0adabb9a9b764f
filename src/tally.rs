//! Grouping of retained samples by label, and choice of the heaviest label.
use vstd::prelude::*;

verus! {

/// The labels, as character sequences.
pub open spec fn label_views(labels: Seq<String>) -> Seq<Seq<char>> {
    labels.map_values(|s: String| s@)
}

/// The labels of the samples in `members`, in that order.
pub open spec fn labels_of(labels: Seq<String>, members: Seq<usize>) -> Seq<Seq<char>> {
    Seq::new(members.len(), |t: int| labels[members[t] as int]@)
}

/// The distinct values of `s`, each where it first occurs.
pub open spec fn first_seen(s: Seq<Seq<char>>) -> Seq<Seq<char>>
    decreases s.len(),
{
    if s.len() == 0 {
        Seq::empty()
    } else {
        let d = first_seen(s.drop_last());
        if d.contains(s.last()) {
            d
        } else {
            d.push(s.last())
        }
    }
}

/// The samples of `members` whose label is `l`, in their order in `members`.
pub open spec fn with_label(labels: Seq<String>, members: Seq<usize>, l: Seq<char>) -> Seq<usize>
    decreases members.len(),
{
    if members.len() == 0 {
        Seq::empty()
    } else {
        let w = with_label(labels, members.drop_last(), l);
        if labels[members.last() as int]@ == l {
            w.push(members.last())
        } else {
            w
        }
    }
}

/// One label of the retained samples and the samples that carry it.
pub struct LabelGroup {
    pub label: String,
    pub members: Vec<usize>,
}

/// `r` holds the labels of the samples `members`, each once and in the order in
/// which they first occur, each with those of `members` that carry it.
pub open spec fn groups_of(labels: Seq<String>, members: Seq<usize>, r: Seq<LabelGroup>) -> bool {
    &&& r.len() == first_seen(labels_of(labels, members)).len()
    &&& forall|g: int|
        0 <= g < r.len() ==> r[g].label@ == first_seen(labels_of(labels, members))[g]
    &&& forall|g: int|
        0 <= g < r.len() ==> r[g].members@ == with_label(labels, members, r[g].label@)
}

/// The labels of the retained samples `members` (indices into `labels`), each
/// once and in the order in which they first occur, each with the retained
/// samples that carry it.
pub fn group_labels(labels: &Vec<String>, members: &Vec<usize>) -> (r: Vec<LabelGroup>)
    requires
        forall|t: int| 0 <= t < members.len() ==> members[t] < labels.len(),
    ensures
        groups_of(labels@, members@, r@),
{
    let ghost all = labels_of(labels@, members@);
    let mut names: Vec<String> = Vec::new();
    let mut t: usize = 0;
    while t < members.len()
        invariant
            all == labels_of(labels@, members@),
            forall|u: int| 0 <= u < members.len() ==> members[u] < labels.len(),
            t <= members.len(),
            names.len() == first_seen(all.take(t as int)).len(),
            forall|g: int| 0 <= g < names.len() ==> names[g]@ == first_seen(all.take(t as int))[g],
        decreases members.len() - t,
    {
        let ghost seen = first_seen(all.take(t as int));
        assert(all.take(t + 1).drop_last() =~= all.take(t as int));
        let l = &labels[members[t]];
        let mut g: usize = 0;
        let mut found = false;
        while g < names.len()
            invariant
                g <= names.len(),
                !found ==> forall|h: int| 0 <= h < g ==> names[h]@ != l@,
                found ==> exists|h: int| 0 <= h < names.len() && names[h]@ == l@,
            decreases names.len() - g,
        {
            if names[g] == *l {
                found = true;
            }
            g = g + 1;
        }
        if !found {
            assert(!seen.contains(l@)) by {
                if seen.contains(l@) {
                    let h = choose|h: int| 0 <= h < seen.len() && seen[h] == l@;
                    assert(names[h]@ == l@);
                }
            };
            names.push(l.clone());
        } else {
            proof {
                let h = choose|h: int| 0 <= h < names.len() && names[h]@ == l@;
                assert(seen[h] == l@);
            }
        }
        t = t + 1;
    }
    assert(all.take(members.len() as int) =~= all);
    let mut r: Vec<LabelGroup> = Vec::new();
    let mut g: usize = 0;
    while g < names.len()
        invariant
            all == labels_of(labels@, members@),
            forall|u: int| 0 <= u < members.len() ==> members[u] < labels.len(),
            names.len() == first_seen(all).len(),
            forall|h: int| 0 <= h < names.len() ==> names[h]@ == first_seen(all)[h],
            g <= names.len(),
            r.len() == g,
            forall|h: int| 0 <= h < g ==> r[h].label@ == first_seen(all)[h],
            forall|h: int| 0 <= h < g ==> r[h].members@ == with_label(labels@, members@, r[h].label@),
        decreases names.len() - g,
    {
        let label = names[g].clone();
        let list = members_with_label(labels, members, &label);
        r.push(LabelGroup { label, members: list });
        g = g + 1;
    }
    r
}

/// The samples of `members` whose label is `label`, in order.
fn members_with_label(labels: &Vec<String>, members: &Vec<usize>, label: &String) -> (r: Vec<usize>)
    requires
        forall|t: int| 0 <= t < members.len() ==> members[t] < labels.len(),
    ensures
        r@ == with_label(labels@, members@, label@),
{
    let mut r: Vec<usize> = Vec::new();
    let mut t: usize = 0;
    while t < members.len()
        invariant
            forall|u: int| 0 <= u < members.len() ==> members[u] < labels.len(),
            t <= members.len(),
            r@ == with_label(labels@, members@.take(t as int), label@),
        decreases members.len() - t,
    {
        assert(members@.take(t + 1).drop_last() =~= members@.take(t as int));
        let x = members[t];
        if labels[x] == *label {
            r.push(x);
        }
        t = t + 1;
    }
    assert(members@.take(members.len() as int) =~= members@);
    r
}

/// Position `g` holds the largest of `totals`, and no earlier position holds as
/// much.
pub open spec fn is_heaviest(totals: Seq<u64>, g: int) -> bool {
    &&& 0 <= g < totals.len()
    &&& forall|h: int| 0 <= h < totals.len() ==> totals[h] <= totals[g]
    &&& forall|h: int| 0 <= h < g ==> totals[h] < totals[g]
}

/// The position of the largest of `totals`, the first such where several are
/// equal; `None` where there are none.
pub fn heaviest(totals: &Vec<u64>) -> (r: Option<usize>)
    ensures
        totals.len() == 0 <==> r is None,
        r matches Some(g) ==> is_heaviest(totals@, g as int),
{
    if totals.len() == 0 {
        return None;
    }
    let mut g: usize = 0;
    let mut h: usize = 1;
    while h < totals.len()
        invariant
            0 < h <= totals.len(),
            g < h,
            forall|x: int| 0 <= x < h ==> totals[x] <= totals[g as int],
            forall|x: int| 0 <= x < g ==> totals[x] < totals[g as int],
        decreases totals.len() - h,
    {
        if totals[g] < totals[h] {
            g = h;
        }
        h = h + 1;
    }
    Some(g)
}

/// The label of the group with the largest total weight, given each group's
/// total as a key whose order is the order of the weights; among groups of
/// equal weight, the first. `None` where there is no group.
pub fn elect(groups: &Vec<LabelGroup>, totals: &Vec<u64>) -> (r: Option<String>)
    requires
        totals.len() == groups.len(),
    ensures
        groups.len() == 0 <==> r is None,
        r matches Some(l) ==> exists|g: int|
            is_heaviest(totals@, g) && l@ == #[trigger] groups[g].label@,
{
    match heaviest(totals) {
        None => None,
        Some(g) => {
            let l = groups[g].label.clone();
            assert(is_heaviest(totals@, g as int) && l@ == groups[g as int].label@);
            Some(l)
        },
    }
}

} // verus!
