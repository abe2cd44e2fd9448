//! Which of a node's ports carry the left and the right channel.

use crate::text::{contains_chars, chars_of, has_text, lower_chars, lowered};
use vstd::prelude::*;
use vstd::relations::*;
use vstd::seq_lib::*;

verus! {

/// A port as the rules see it: its id and its name.
pub type PortView = (u32, Seq<char>);

/// The ports of a list, by id and name.
pub open spec fn port_views(ports: Seq<(u32, &str)>) -> Seq<PortView> {
    ports.map_values(|p: (u32, &str)| (p.0, p.1@))
}

/// Whether a port's name marks it as the left channel; a mono port counts as left.
pub open spec fn left_named(name: Seq<char>) -> bool {
    ||| has_text(lowered(name), "_fl"@)
    ||| has_text(lowered(name), "left"@)
    ||| has_text(lowered(name), "mono"@)
}

/// Whether a port's name marks it as the right channel.
pub open spec fn right_named(name: Seq<char>) -> bool {
    ||| has_text(lowered(name), "_fr"@)
    ||| has_text(lowered(name), "right"@)
}

/// The position of the first port with a left name.
pub open spec fn first_left(ports: Seq<PortView>) -> Option<int>
    decreases ports.len(),
{
    if ports.len() == 0 {
        None
    } else if first_left(ports.drop_last()) is Some {
        first_left(ports.drop_last())
    } else if left_named(ports.last().1) {
        Some(ports.len() - 1)
    } else {
        None
    }
}

/// The position of the first port with a right name, other than the port at `taken`.
pub open spec fn first_right(ports: Seq<PortView>, taken: Option<int>) -> Option<int>
    decreases ports.len(),
{
    if ports.len() == 0 {
        None
    } else if first_right(ports.drop_last(), taken) is Some {
        first_right(ports.drop_last(), taken)
    } else if right_named(ports.last().1) && taken != Some(ports.len() - 1) {
        Some(ports.len() - 1)
    } else {
        None
    }
}

/// The id of the port at a position, if there is a position.
pub open spec fn id_at(ports: Seq<PortView>, at: Option<int>) -> Option<u32> {
    match at {
        Some(i) => Some(ports[i].0),
        None => None,
    }
}

/// The ids in ascending order.
pub open spec fn ascending(ids: Seq<u32>) -> Seq<u32> {
    ids.sort_by(|a: u32, b: u32| a <= b)
}

/// The left and the right port of a list.
///
/// Names decide: the first left-named port is left, and the first other right-named port is
/// right. Where no name decides, the two lowest ids are left and right, and a single port is
/// left.
pub open spec fn stereo_pair(ports: Seq<PortView>) -> (Option<u32>, Option<u32>) {
    let l = first_left(ports);
    let r = first_right(ports, l);
    if l is Some || r is Some {
        (id_at(ports, l), id_at(ports, r))
    } else if ports.len() >= 2 {
        let ids = ascending(ports.map_values(|p: PortView| p.0));
        (Some(ids[0]), Some(ids[1]))
    } else if ports.len() == 1 {
        (Some(ports[0].0), None)
    } else {
        (None, None)
    }
}

/// Whether the name marks a left channel.
pub fn is_left_port(name: &str) -> (r: bool)
    ensures
        r == left_named(name@),
{
    let n = lower_chars(name);
    contains_chars(&n, &chars_of("_fl")) || contains_chars(&n, &chars_of("left"))
        || contains_chars(&n, &chars_of("mono"))
}

/// Whether the name marks a right channel.
pub fn is_right_port(name: &str) -> (r: bool)
    ensures
        r == right_named(name@),
{
    let n = lower_chars(name);
    contains_chars(&n, &chars_of("_fr")) || contains_chars(&n, &chars_of("right"))
}

/// Sorts ids in ascending order.
pub fn sort_ids(ids: &Vec<u32>) -> (r: Vec<u32>)
    ensures
        r@ == ascending(ids@),
        r@.len() == ids@.len(),
{
    let ghost leq = |a: u32, b: u32| a <= b;
    let mut r: Vec<u32> = Vec::new();
    assert(ids@.take(0) =~= r@);
    let mut i: usize = 0;
    while i < ids.len()
        invariant
            i <= ids@.len(),
            leq == (|a: u32, b: u32| a <= b),
            sorted_by(r@, leq),
            r@.to_multiset() == ids@.take(i as int).to_multiset(),
            r@.len() == i,
        decreases ids.len() - i,
    {
        let x = ids[i];
        let mut at: usize = 0;
        while at < r.len() && r[at] <= x
            invariant
                at <= r@.len(),
                leq == (|a: u32, b: u32| a <= b),
                sorted_by(r@, leq),
                forall|k: int| 0 <= k < at ==> r@[k] <= x,
            decreases r.len() - at,
        {
            at += 1;
        }
        let ghost before = r@;
        r.insert(at, x);
        proof {
            broadcast use group_to_multiset_ensures;
            assert(forall|a: int, b: int|
                0 <= a < b < before.len() ==> leq(before[a], before[b]));
            assert(at < before.len() ==> x < before[at as int]);
            assert forall|a: int, b: int| 0 <= a < b < r@.len() implies #[trigger] leq(
                r@[a],
                r@[b],
            ) by {
                if a < at && b > at {
                    assert(leq(before[a], before[b - 1]));
                } else if a > at {
                    assert(leq(before[a - 1], before[b - 1]));
                } else if b < at {
                    assert(leq(before[a], before[b]));
                } else if a == at {
                    if b - 1 > at {
                        assert(leq(before[at as int], before[b - 1]));
                    }
                }
            }
            assert(ids@.take(i as int + 1) =~= ids@.take(i as int).push(x));
            assert(r@.to_multiset() =~= before.to_multiset().insert(x));
        }
        i += 1;
    }
    proof {
        assert(ids@.take(ids@.len() as int) =~= ids@);
        ids@.lemma_sort_by_ensures(leq);
        lemma_sorted_unique(r@, ascending(ids@), leq);
    }
    r
}

/// Picks the left and the right port of a list, by name where names decide.
pub fn classify_stereo_ports(ports: &[(u32, &str)]) -> (r: (Option<u32>, Option<u32>))
    ensures
        r == stereo_pair(port_views(ports@)),
{
    let ghost all = port_views(ports@);
    let mut left: Option<u32> = None;
    let mut right: Option<u32> = None;
    let mut i: usize = 0;
    while i < ports.len()
        invariant
            i <= ports@.len(),
            all == port_views(ports@),
            left == id_at(all, first_left(all.take(i as int))),
            right == id_at(all, first_right(all.take(i as int), first_left(all.take(i as int)))),
        decreases ports.len() - i,
    {
        let (id, name) = ports[i];
        let ghost seen = all.take(i as int);
        let ghost next = all.take(i as int + 1);
        proof {
            assert(next.drop_last() =~= seen);
            assert(next.last() == (id, name@));
            lemma_first_left_in_range(seen);
            lemma_first_right_later_taken(seen, first_left(next));
        }
        if left.is_none() && is_left_port(name) {
            left = Some(id);
        } else if right.is_none() && is_right_port(name) {
            right = Some(id);
        }
        i += 1;
    }
    assert(all.take(ports@.len() as int) =~= all);
    if left.is_none() && right.is_none() {
        if ports.len() >= 2 {
            let mut ids: Vec<u32> = Vec::new();
            let mut k: usize = 0;
            while k < ports.len()
                invariant
                    k <= ports@.len(),
                    all == port_views(ports@),
                    ids@ == all.map_values(|p: PortView| p.0).take(k as int),
                decreases ports.len() - k,
            {
                ids.push(ports[k].0);
                k += 1;
            }
            assert(ids@ =~= all.map_values(|p: PortView| p.0));
            let sorted = sort_ids(&ids);
            left = Some(sorted[0]);
            right = Some(sorted[1]);
        } else if ports.len() == 1 {
            left = Some(ports[0].0);
        }
    }
    (left, right)
}

/// A first left port lies in the list.
pub proof fn lemma_first_left_in_range(ports: Seq<PortView>)
    ensures
        first_left(ports) matches Some(i) ==> 0 <= i < ports.len(),
    decreases ports.len(),
{
    if ports.len() > 0 {
        lemma_first_left_in_range(ports.drop_last());
    }
}

/// A port that comes after a list takes nothing away from the list's right ports.
proof fn lemma_first_right_later_taken(ports: Seq<PortView>, taken: Option<int>)
    requires
        first_left(ports) matches Some(i) ==> taken == Some(i),
        first_left(ports) is None ==> (taken matches Some(i) ==> i >= ports.len()),
    ensures
        first_right(ports, taken) == first_right(ports, first_left(ports)),
    decreases ports.len(),
{
    if first_left(ports) is None {
        lemma_first_right_untaken(ports, taken);
    }
}

/// A position past the end of the list takes none of its ports.
proof fn lemma_first_right_untaken(ports: Seq<PortView>, taken: Option<int>)
    requires
        taken matches Some(i) ==> i >= ports.len(),
    ensures
        first_right(ports, taken) == first_right(ports, None),
    decreases ports.len(),
{
    if ports.len() > 0 {
        lemma_first_right_untaken(ports.drop_last(), taken);
    }
}

/// A first right port lies in the list and is not the taken one.
pub proof fn lemma_first_right_in_range(ports: Seq<PortView>, taken: Option<int>)
    ensures
        first_right(ports, taken) matches Some(i) ==> 0 <= i < ports.len() && taken != Some(i),
    decreases ports.len(),
{
    if ports.len() > 0 {
        lemma_first_right_in_range(ports.drop_last(), taken);
    }
}

/// Whether an id is that of a port in the list.
pub open spec fn is_listed(ports: Seq<PortView>, id: u32) -> bool {
    exists|i: int| 0 <= i < ports.len() && (#[trigger] ports[i]).0 == id
}

/// Left and right are ports of the list.
pub proof fn pair_is_listed(ports: Seq<PortView>)
    ensures
        stereo_pair(ports).0 matches Some(id) ==> is_listed(ports, id),
        stereo_pair(ports).1 matches Some(id) ==> is_listed(ports, id),
{
    let l = first_left(ports);
    let r = first_right(ports, l);
    lemma_first_left_in_range(ports);
    lemma_first_right_in_range(ports, l);
    if l is None && r is None && ports.len() >= 2 {
        let ids = ports.map_values(|p: PortView| p.0);
        lemma_ascending(ids);
        let sorted = ascending(ids);
        let i = choose|i: int| 0 <= i < ids.len() && ids[i] == sorted[0];
        let j = choose|j: int| 0 <= j < ids.len() && ids[j] == sorted[1];
        assert(ports[i].0 == sorted[0]);
        assert(ports[j].0 == sorted[1]);
    } else if l is None && r is None && ports.len() == 1 {
        assert(ports[0].0 == ports[0].0);
    } else {
        if l is Some {
            assert(ports[l->0].0 == ports[l->0].0);
        }
        if r is Some {
            assert(ports[r->0].0 == ports[r->0].0);
        }
    }
}

/// Sorting keeps the ids and their number.
pub proof fn lemma_ascending(ids: Seq<u32>)
    ensures
        ascending(ids).len() == ids.len(),
        ascending(ids).to_multiset() == ids.to_multiset(),
        sorted_by(ascending(ids), |a: u32, b: u32| a <= b),
        forall|i: int| 0 <= i < ids.len() ==> ids.contains(#[trigger] ascending(ids)[i]),
{
    broadcast use group_to_multiset_ensures;

    let leq = |a: u32, b: u32| a <= b;
    ids.lemma_sort_by_ensures(leq);
    let s = ascending(ids);
    assert(s.len() == s.to_multiset().len());
    assert(ids.len() == ids.to_multiset().len());
    assert forall|i: int| 0 <= i < ids.len() implies ids.contains(#[trigger] s[i]) by {
        assert(s.contains(s[i]));
    }
}

/// No port is both left and right, as long as no id is listed twice.
pub proof fn pair_is_two_ports(ports: Seq<PortView>)
    requires
        forall|i: int, j: int|
            0 <= i < j < ports.len() ==> (#[trigger] ports[i]).0 != (#[trigger] ports[j]).0,
    ensures
        stereo_pair(ports) matches (Some(l), Some(r)) ==> l != r,
{
    broadcast use group_to_multiset_ensures;

    let l = first_left(ports);
    let r = first_right(ports, l);
    lemma_first_left_in_range(ports);
    lemma_first_right_in_range(ports, l);
    if l is None && r is None && ports.len() >= 2 {
        let ids = ports.map_values(|p: PortView| p.0);
        lemma_ascending(ids);
        let sorted = ascending(ids);
        assert(ids.no_duplicates());
        ids.lemma_multiset_has_no_duplicates();
        sorted.lemma_multiset_has_no_duplicates_conv();
        assert(sorted[0] != sorted[1]);
    } else if l is Some && r is Some {
        assert(ports[l->0].0 != ports[r->0].0);
    }
}

/// A name decides: where some port has a left name, a port with a left name is left.
pub proof fn left_name_decides(ports: Seq<PortView>, i: int)
    requires
        0 <= i < ports.len(),
        left_named(ports[i].1),
    ensures
        exists|j: int|
            0 <= j <= i && left_named((#[trigger] ports[j]).1) && stereo_pair(ports).0 == Some(
                ports[j].0,
            ),
{
    lemma_first_left_is_first(ports, i);
    let j = first_left(ports)->0;
    assert(left_named(ports[j].1));
}

pub proof fn lemma_first_left_is_first(ports: Seq<PortView>, i: int)
    requires
        0 <= i < ports.len(),
        left_named(ports[i].1),
    ensures
        first_left(ports) matches Some(j) && 0 <= j <= i && left_named(ports[j].1),
    decreases ports.len(),
{
    let t = ports.drop_last();
    if i < ports.len() - 1 {
        lemma_first_left_is_first(t, i);
    } else {
        lemma_first_left_in_range(t);
        lemma_first_left_named(t);
    }
}

pub proof fn lemma_first_left_named(ports: Seq<PortView>)
    ensures
        first_left(ports) matches Some(j) ==> 0 <= j < ports.len() && left_named(ports[j].1),
    decreases ports.len(),
{
    if ports.len() > 0 {
        lemma_first_left_named(ports.drop_last());
    }
}

/// Whether at most one port has a left name and at most one a right name.
pub open spec fn named_once(ports: Seq<PortView>) -> bool {
    &&& forall|i: int, j: int|
        0 <= i < ports.len() && 0 <= j < ports.len() && left_named((#[trigger] ports[i]).1)
            && left_named((#[trigger] ports[j]).1) ==> i == j
    &&& forall|i: int, j: int|
        0 <= i < ports.len() && 0 <= j < ports.len() && right_named((#[trigger] ports[i]).1)
            && right_named((#[trigger] ports[j]).1) ==> i == j
}

/// What one list holds, another order of it holds too.
proof fn lemma_held(a: Seq<PortView>, b: Seq<PortView>, x: PortView)
    requires
        a.to_multiset() == b.to_multiset(),
        a.contains(x),
    ensures
        b.contains(x),
{
    broadcast use group_to_multiset_ensures;

    assert(a.to_multiset().count(x) > 0);
    assert(b.to_multiset().count(x) > 0);
}

/// What one list holds in two places, another order of it holds in two places too.
proof fn lemma_two_places(a: Seq<PortView>, b: Seq<PortView>, i: int, j: int) -> (r: (int, int))
    requires
        a.to_multiset() == b.to_multiset(),
        0 <= i < b.len(),
        0 <= j < b.len(),
        i != j,
    ensures
        0 <= r.0 < a.len(),
        0 <= r.1 < a.len(),
        r.0 != r.1,
        a[r.0] == b[i],
        a[r.1] == b[j],
{
    broadcast use group_to_multiset_ensures;

    assert(b.contains(b[i]));
    lemma_held(b, a, b[i]);
    let k = choose|k: int| 0 <= k < a.len() && a[k] == b[i];
    let rest_a = a.remove(k);
    let rest_b = b.remove(i);
    assert(rest_a.to_multiset() =~= rest_b.to_multiset());
    let t = if j < i {
        j
    } else {
        j - 1
    };
    assert(rest_b[t] == b[j]);
    assert(rest_b.contains(b[j]));
    lemma_held(rest_b, rest_a, b[j]);
    let m = choose|m: int| 0 <= m < rest_a.len() && rest_a[m] == b[j];
    (
        k,
        if m < k {
            m
        } else {
            m + 1
        },
    )
}

/// Another order of a list names no more ports.
proof fn lemma_named_once(a: Seq<PortView>, b: Seq<PortView>)
    requires
        a.to_multiset() == b.to_multiset(),
        named_once(a),
    ensures
        named_once(b),
{
    assert forall|i: int, j: int|
        0 <= i < b.len() && 0 <= j < b.len() && left_named((#[trigger] b[i]).1) && left_named(
            (#[trigger] b[j]).1,
        ) implies i == j by {
        if i != j {
            let r = lemma_two_places(a, b, i, j);
            assert(left_named(a[r.0].1) && left_named(a[r.1].1));
        }
    }
    assert forall|i: int, j: int|
        0 <= i < b.len() && 0 <= j < b.len() && right_named((#[trigger] b[i]).1) && right_named(
            (#[trigger] b[j]).1,
        ) implies i == j by {
        if i != j {
            let r = lemma_two_places(a, b, i, j);
            assert(right_named(a[r.0].1) && right_named(a[r.1].1));
        }
    }
}

/// The first right port has a right name.
pub proof fn lemma_first_right_named(ports: Seq<PortView>, taken: Option<int>)
    ensures
        first_right(ports, taken) matches Some(j) ==> 0 <= j < ports.len() && right_named(
            ports[j].1,
        ),
    decreases ports.len(),
{
    if ports.len() > 0 {
        lemma_first_right_named(ports.drop_last(), taken);
    }
}

/// Where a port that is not taken has a right name, there is a first one.
pub proof fn lemma_some_right(ports: Seq<PortView>, taken: Option<int>, i: int)
    requires
        0 <= i < ports.len(),
        right_named(ports[i].1),
        taken != Some(i),
    ensures
        first_right(ports, taken) is Some,
    decreases ports.len(),
{
    if i < ports.len() - 1 {
        lemma_some_right(ports.drop_last(), taken, i);
    }
}

/// Another order of a list has the same ids.
proof fn lemma_same_ids(a: Seq<PortView>, b: Seq<PortView>)
    requires
        a.to_multiset() == b.to_multiset(),
    ensures
        a.map_values(|p: PortView| p.0).to_multiset() == b.map_values(
            |p: PortView| p.0,
        ).to_multiset(),
    decreases a.len(),
{
    broadcast use group_to_multiset_ensures;

    let f = |p: PortView| p.0;
    assert(a.len() == a.to_multiset().len());
    assert(b.len() == b.to_multiset().len());
    if a.len() == 0 {
        assert(a.map_values(f) =~= b.map_values(f));
    } else {
        let n = a.len() - 1;
        let x = a.last();
        assert(a.contains(a[n]));
        lemma_held(a, b, x);
        let i = choose|i: int| 0 <= i < b.len() && b[i] == x;
        let rest_a = a.remove(n);
        let rest_b = b.remove(i);
        assert(rest_a.to_multiset() =~= rest_b.to_multiset());
        lemma_same_ids(rest_a, rest_b);
        assert(a.map_values(f).remove(n) =~= rest_a.map_values(f));
        assert(b.map_values(f).remove(i) =~= rest_b.map_values(f));
        let ma = a.map_values(f).to_multiset();
        let mb = b.map_values(f).to_multiset();
        assert(a.map_values(f).contains(a.map_values(f)[n]));
        assert(b.map_values(f).contains(b.map_values(f)[i]));
        assert(ma.remove(x.0) == mb.remove(x.0));
        assert(ma =~= ma.remove(x.0).insert(x.0));
        assert(mb =~= mb.remove(x.0).insert(x.0));
    }
}

/// Where each side is named at most once, the order in which the ports are listed does not
/// matter.
pub proof fn order_of_ports_does_not_matter(ports: Seq<PortView>, other: Seq<PortView>)
    requires
        ports.to_multiset() == other.to_multiset(),
        named_once(ports),
    ensures
        stereo_pair(ports) == stereo_pair(other),
{
    broadcast use group_to_multiset_ensures;

    lemma_named_once(ports, other);
    assert(ports.len() == ports.to_multiset().len());
    assert(other.len() == other.to_multiset().len());
    let l = first_left(ports);
    let m = first_left(other);
    lemma_first_left_named(ports);
    lemma_first_left_named(other);
    let r = first_right(ports, l);
    let s = first_right(other, m);
    lemma_first_right_named(ports, l);
    lemma_first_right_named(other, m);
    lemma_first_right_in_range(ports, l);
    lemma_first_right_in_range(other, m);
    lemma_same_left(ports, other);
    lemma_same_left(other, ports);
    lemma_same_right(ports, other);
    lemma_same_right(other, ports);
    if l is None && r is None {
        if ports.len() >= 2 {
            let a = ports.map_values(|p: PortView| p.0);
            let b = other.map_values(|p: PortView| p.0);
            lemma_same_ids(ports, other);
            lemma_ascending(a);
            lemma_ascending(b);
            lemma_sorted_unique(ascending(a), ascending(b), |x: u32, y: u32| x <= y);
        } else if ports.len() == 1 {
            assert(ports.contains(ports[0]));
            lemma_held(ports, other, ports[0]);
        }
    }
}

/// A left port of one order is the left port of the other.
proof fn lemma_same_left(a: Seq<PortView>, b: Seq<PortView>)
    requires
        a.to_multiset() == b.to_multiset(),
        named_once(b),
    ensures
        first_left(a) matches Some(i) ==> first_left(b) matches Some(j) && a[i] == b[j],
{
    broadcast use group_to_multiset_ensures;

    lemma_first_left_named(a);
    lemma_first_left_named(b);
    if first_left(a) is Some {
        let x = a[first_left(a)->0];
        assert(a.contains(x));
        lemma_held(a, b, x);
        let j = choose|j: int| 0 <= j < b.len() && b[j] == x;
        lemma_first_left_is_first(b, j);
        assert(left_named(b[first_left(b)->0].1));
    }
}

/// A right port of one order is the right port of the other.
proof fn lemma_same_right(a: Seq<PortView>, b: Seq<PortView>)
    requires
        a.to_multiset() == b.to_multiset(),
        named_once(a),
        named_once(b),
    ensures
        first_right(a, first_left(a)) matches Some(i) ==> first_right(b, first_left(b)) matches Some(
            j,
        ) && a[i] == b[j],
{
    broadcast use group_to_multiset_ensures;

    let l = first_left(a);
    let m = first_left(b);
    lemma_first_right_named(a, l);
    lemma_first_right_in_range(a, l);
    lemma_first_right_named(b, m);
    lemma_same_left(a, b);
    lemma_same_left(b, a);
    lemma_first_left_named(a);
    lemma_first_left_named(b);
    if first_right(a, l) is Some {
        let i = first_right(a, l)->0;
        let x = a[i];
        assert(a.contains(x));
        lemma_held(a, b, x);
        let j = choose|j: int| 0 <= j < b.len() && b[j] == x;
        if m == Some(j) {
            // The left port has this right name as well, and would be the only one.
            assert(a[l->0] == x);
            assert(right_named(a[l->0].1));
            assert(right_named(a[i].1));
        }
        lemma_some_right(b, m, j);
        assert(right_named(b[first_right(b, m)->0].1));
        assert(right_named(b[j].1));
    }
}

} // verus!
