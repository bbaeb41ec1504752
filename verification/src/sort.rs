//! A stable sort of events by start instant: each element is inserted
//! after every earlier element whose start is not later, so events with
//! equal starts keep their original relative order.

use vstd::prelude::*;

use crate::datetime::{instant, spec_instant};
use crate::event::{wf_event, Event, SpecEvent};

verus! {

/// The sort key of an event: its start instant.
pub open spec fn spec_key(e: SpecEvent) -> int {
    spec_instant(e.start)
}

/// Whether `s` is non-decreasing in start instant.
pub open spec fn spec_sorted(s: Seq<SpecEvent>) -> bool {
    forall|i: int, j: int| 0 <= i <= j < s.len() ==> spec_key(#[trigger] s[i]) <= spec_key(
        #[trigger] s[j],
    )
}

/// `e` inserted after every leading element of `s` whose key is not
/// larger.
pub open spec fn spec_sorted_insert(s: Seq<SpecEvent>, e: SpecEvent) -> Seq<SpecEvent>
    decreases s.len(),
{
    if s.len() == 0 {
        seq![e]
    } else if spec_key(s[0]) <= spec_key(e) {
        seq![s[0]] + spec_sorted_insert(s.drop_first(), e)
    } else {
        seq![e] + s
    }
}

/// `s` sorted by start instant, stably.
pub open spec fn spec_sort_by_start(s: Seq<SpecEvent>) -> Seq<SpecEvent>
    decreases s.len(),
{
    if s.len() == 0 {
        Seq::empty()
    } else {
        spec_sorted_insert(spec_sort_by_start(s.drop_last()), s.last())
    }
}

/// Inserting into `s` at the first position whose key is larger yields
/// `spec_sorted_insert`.
proof fn lemma_sorted_insert_split(s: Seq<SpecEvent>, e: SpecEvent, j: int)
    requires
        0 <= j <= s.len(),
        forall|i: int| 0 <= i < j ==> spec_key(#[trigger] s[i]) <= spec_key(e),
        j < s.len() ==> spec_key(s[j]) > spec_key(e),
    ensures
        spec_sorted_insert(s, e) == s.take(j) + seq![e] + s.skip(j),
    decreases j,
{
    if j == 0 {
        if s.len() == 0 {
            assert(spec_sorted_insert(s, e) =~= s.take(0) + seq![e] + s.skip(0));
        } else {
            assert(spec_sorted_insert(s, e) =~= s.take(0) + seq![e] + s.skip(0));
        }
    } else {
        assert(spec_key(s[0]) <= spec_key(e));
        assert forall|i: int| 0 <= i < j - 1 implies spec_key(
            #[trigger] s.drop_first()[i],
        ) <= spec_key(e) by {
            assert(s.drop_first()[i] == s[i + 1]);
        }
        lemma_sorted_insert_split(s.drop_first(), e, j - 1);
        assert(spec_sorted_insert(s, e) == seq![s[0]] + spec_sorted_insert(s.drop_first(), e));
        assert(seq![s[0]] + (s.drop_first().take(j - 1) + seq![e] + s.drop_first().skip(j - 1))
            =~= s.take(j) + seq![e] + s.skip(j));
    }
}

/// Membership in a sequence with one element put in front.
proof fn lemma_unit_concat_contains(a: SpecEvent, s: Seq<SpecEvent>, x: SpecEvent)
    ensures
        (seq![a] + s).contains(x) <==> (x == a || s.contains(x)),
{
    let r = seq![a] + s;
    if r.contains(x) {
        let k = choose|k: int| 0 <= k < r.len() && r[k] == x;
        if k == 0 {
            assert(x == a);
        } else {
            assert(s[k - 1] == x);
        }
    }
    if x == a {
        assert(r[0] == x);
    }
    if s.contains(x) {
        let m = choose|m: int| 0 <= m < s.len() && s[m] == x;
        assert(r[m + 1] == x);
    }
}

/// Membership split into the first element and the rest.
proof fn lemma_first_rest_contains(s: Seq<SpecEvent>, x: SpecEvent)
    requires
        s.len() > 0,
    ensures
        s.contains(x) <==> (x == s[0] || s.drop_first().contains(x)),
{
    assert(s =~= seq![s[0]] + s.drop_first());
    lemma_unit_concat_contains(s[0], s.drop_first(), x);
}

/// Membership split into the leading part and the last element.
proof fn lemma_last_rest_contains(s: Seq<SpecEvent>, x: SpecEvent)
    requires
        s.len() > 0,
    ensures
        s.contains(x) <==> (x == s.last() || s.drop_last().contains(x)),
{
    let t = s.drop_last();
    let r = s;
    if s.contains(x) {
        let k = choose|k: int| 0 <= k < s.len() && s[k] == x;
        if k == s.len() - 1 {
            assert(x == s.last());
        } else {
            assert(t[k] == x);
        }
    }
    if x == s.last() {
        assert(s[s.len() - 1] == x);
    }
    if t.contains(x) {
        let m = choose|m: int| 0 <= m < t.len() && t[m] == x;
        assert(s[m] == x);
    }
}

/// What `spec_sorted_insert` holds: `e` and the elements of `s`.
proof fn lemma_sorted_insert_contains(s: Seq<SpecEvent>, e: SpecEvent)
    ensures
        spec_sorted_insert(s, e).len() == s.len() + 1,
        forall|x: SpecEvent|
            #[trigger] spec_sorted_insert(s, e).contains(x) <==> (s.contains(x) || x == e),
    decreases s.len(),
{
    let r = spec_sorted_insert(s, e);
    if s.len() == 0 {
        assert(r =~= seq![e] + Seq::<SpecEvent>::empty());
        assert forall|x: SpecEvent| #[trigger] r.contains(x) <==> (s.contains(x) || x == e) by {
            lemma_unit_concat_contains(e, Seq::empty(), x);
        }
    } else if spec_key(s[0]) <= spec_key(e) {
        lemma_sorted_insert_contains(s.drop_first(), e);
        let r2 = spec_sorted_insert(s.drop_first(), e);
        assert(r == seq![s[0]] + r2);
        assert forall|x: SpecEvent| #[trigger] r.contains(x) <==> (s.contains(x) || x == e) by {
            lemma_unit_concat_contains(s[0], r2, x);
            lemma_first_rest_contains(s, x);
        }
    } else {
        assert(r == seq![e] + s);
        assert forall|x: SpecEvent| #[trigger] r.contains(x) <==> (s.contains(x) || x == e) by {
            lemma_unit_concat_contains(e, s, x);
        }
    }
}

/// Inserting into a sorted sequence keeps it sorted.
proof fn lemma_sorted_insert_sorted(s: Seq<SpecEvent>, e: SpecEvent)
    requires
        spec_sorted(s),
    ensures
        spec_sorted(spec_sorted_insert(s, e)),
    decreases s.len(),
{
    lemma_sorted_insert_contains(s, e);
    if s.len() > 0 && spec_key(s[0]) <= spec_key(e) {
        assert forall|i: int, j: int| 0 <= i <= j < s.drop_first().len() implies spec_key(
            #[trigger] s.drop_first()[i],
        ) <= spec_key(#[trigger] s.drop_first()[j]) by {
            assert(s.drop_first()[i] == s[i + 1] && s.drop_first()[j] == s[j + 1]);
        }
        lemma_sorted_insert_sorted(s.drop_first(), e);
        let r = spec_sorted_insert(s, e);
        let r2 = spec_sorted_insert(s.drop_first(), e);
        lemma_sorted_insert_contains(s.drop_first(), e);
        assert forall|i: int, j: int| 0 <= i <= j < r.len() implies spec_key(
            #[trigger] r[i],
        ) <= spec_key(#[trigger] r[j]) by {
            if i == 0 && j > 0 {
                assert(r[j] == r2[j - 1]);
                assert(r2.contains(r2[j - 1]));
                if s.drop_first().contains(r2[j - 1]) {
                    let m = choose|m: int|
                        0 <= m < s.drop_first().len() && s.drop_first()[m] == r2[j - 1];
                    assert(s.drop_first()[m] == s[m + 1]);
                    assert(spec_key(s[0]) <= spec_key(s[m + 1]));
                }
            } else if i > 0 {
                assert(r[i] == r2[i - 1] && r[j] == r2[j - 1]);
            }
        }
    }
}

/// What the sort yields: the same elements, in key order.
pub proof fn lemma_sort_by_start(s: Seq<SpecEvent>)
    ensures
        spec_sorted(spec_sort_by_start(s)),
        spec_sort_by_start(s).len() == s.len(),
        forall|x: SpecEvent| spec_sort_by_start(s).contains(x) <==> s.contains(x),
    decreases s.len(),
{
    if s.len() > 0 {
        lemma_sort_by_start(s.drop_last());
        lemma_sorted_insert_sorted(spec_sort_by_start(s.drop_last()), s.last());
        lemma_sorted_insert_contains(spec_sort_by_start(s.drop_last()), s.last());
        let r = spec_sort_by_start(s);
        assert forall|x: SpecEvent| #[trigger] r.contains(x) <==> s.contains(x) by {
            lemma_last_rest_contains(s, x);
        }
    }
}

/// Inserts `e` into the sorted `v`, after every element with an equal or
/// earlier start.
fn sorted_insert(v: &mut Vec<Event>, e: Event)
    requires
        forall|i: int| 0 <= i < old(v).deep_view().len() ==> wf_event(
            #[trigger] old(v).deep_view()[i],
        ),
        wf_event(e@),
    ensures
        final(v).deep_view() == spec_sorted_insert(old(v).deep_view(), e@),
        forall|i: int| 0 <= i < final(v).deep_view().len() ==> wf_event(
            #[trigger] final(v).deep_view()[i],
        ),
{
    let ghost s = v.deep_view();
    let key = instant(&e.start);
    let mut j: usize = 0;
    while j < v.len()
        invariant
            j <= v@.len(),
            s.len() == v@.len(),
            forall|i: int| 0 <= i < j ==> spec_key(#[trigger] s[i]) <= key,
        decreases v@.len() - j,
    {
        proof {
            assert(s[j as int] == v@[j as int]@);
        }
        if instant(&v[j].start) > key {
            break;
        }
        j = j + 1;
    }
    proof {
        lemma_sorted_insert_split(s, e@, j as int);
    }
    let ghost v0 = v.deep_view();
    v.insert(j, e);
    proof {
        assert(v.deep_view() =~~= v0.take(j as int) + seq![e@] + v0.skip(j as int));
        lemma_sorted_insert_contains(s, e@);
        assert forall|i: int| 0 <= i < v.deep_view().len() implies wf_event(
            #[trigger] v.deep_view()[i],
        ) by {
            assert(v.deep_view().contains(v.deep_view()[i]));
        }
    }
}

/// Sorts `v` by start instant, stably.
pub fn sort_by_start(v: &Vec<Event>) -> (r: Vec<Event>)
    requires
        forall|i: int| 0 <= i < v.deep_view().len() ==> wf_event(#[trigger] v.deep_view()[i]),
    ensures
        r.deep_view() == spec_sort_by_start(v.deep_view()),
        forall|i: int| 0 <= i < r.deep_view().len() ==> wf_event(#[trigger] r.deep_view()[i]),
{
    let ghost s = v.deep_view();
    let mut r: Vec<Event> = Vec::new();
    proof {
        assert(r.deep_view() =~= spec_sort_by_start(s.take(0)));
        assert(s.take(0) =~= Seq::<SpecEvent>::empty());
    }
    let mut i: usize = 0;
    while i < v.len()
        invariant
            i <= v@.len(),
            s.len() == v@.len(),
            r.deep_view() == spec_sort_by_start(s.take(i as int)),
            forall|k: int| 0 <= k < r.deep_view().len() ==> wf_event(
                #[trigger] r.deep_view()[k],
            ),
        decreases v@.len() - i,
    {
        proof {
            assert(s[i as int] == v@[i as int]@);
        }
        let e = Event {
            summary: v[i].summary.clone(),
            start: v[i].start,
            end: v[i].end,
        };
        sorted_insert(&mut r, e);
        proof {
            assert(s.take(i as int + 1).drop_last() =~= s.take(i as int));
            assert(s.take(i as int + 1).last() == s[i as int]);
        }
        i = i + 1;
    }
    proof {
        assert(s.take(s.len() as int) =~= s);
    }
    r
}

} // verus!
