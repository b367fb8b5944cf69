//! The order in which the entries of one directory are shown.

use vstd::prelude::*;
use vstd::string::*;
use crate::args::Config;
use crate::args::ConfigView;
use crate::filter::should_display;
use crate::filter::shown;
use crate::text::lemma_name_less_strict_total;
use crate::text::name_before;
use crate::text::name_less;
use crate::tree::Entry;
use crate::tree::Node;

verus! {

/// The entry at position `i` comes before the one at position `j`: by name,
/// and by position where two entries bear the same name.
pub open spec fn entry_before(entries: Seq<Entry>, i: int, j: int) -> bool {
    name_less(entries[i].name@, entries[j].name@) || (entries[i].name@ == entries[j].name@ && i
        < j)
}

/// Each position in `order` comes before all those that follow it.
pub open spec fn sorted(entries: Seq<Entry>, order: Seq<int>) -> bool {
    forall|a: int, b: int|
        0 <= a < b < order.len() ==> entry_before(entries, #[trigger] order[a], #[trigger] order[b])
}

/// `order` holds the positions from `lo` up to `hi` of the entries that are
/// shown, each once, sorted.
pub open spec fn orders_range(
    config: ConfigView,
    entries: Seq<Entry>,
    lo: int,
    hi: int,
    order: Seq<int>,
) -> bool {
    &&& forall|k: int|
        0 <= k < order.len() ==> lo <= #[trigger] order[k] < hi && shown(config, entries[order[k]])
    &&& forall|i: int| lo <= i < hi && shown(config, entries[i]) ==> #[trigger] order.contains(i)
    &&& sorted(entries, order)
}

/// `order` holds the positions of all entries that are shown, each once, sorted.
pub open spec fn is_display_order(config: ConfigView, entries: Seq<Entry>, order: Seq<int>) -> bool {
    orders_range(config, entries, 0, entries.len() as int, order)
}

/// The positions of the entries that are shown, in the order in which they are shown.
pub open spec fn display_order(config: ConfigView, entries: Seq<Entry>) -> Seq<int> {
    choose|order: Seq<int>| is_display_order(config, entries, order)
}

/// The positions held in a vector of indices.
pub open spec fn ints(s: Seq<usize>) -> Seq<int> {
    Seq::new(s.len(), |k: int| s[k] as int)
}

proof fn lemma_entry_before_order(entries: Seq<Entry>, i: int, j: int, k: int)
    ensures
        !entry_before(entries, i, i),
        i != j ==> entry_before(entries, i, j) || entry_before(entries, j, i),
        !(entry_before(entries, i, j) && entry_before(entries, j, i)),
        entry_before(entries, i, j) && entry_before(entries, j, k) ==> entry_before(entries, i, k),
{
    lemma_name_less_strict_total(entries[i].name@, entries[j].name@, entries[k].name@);
    lemma_name_less_strict_total(entries[j].name@, entries[i].name@, entries[k].name@);
}

proof fn lemma_push_contains(s: Seq<int>, v: int)
    ensures
        forall|x: int| #[trigger] s.push(v).contains(x) <==> s.contains(x) || x == v,
{
    let t = s.push(v);
    assert forall|x: int| #[trigger] t.contains(x) <==> s.contains(x) || x == v by {
        if s.contains(x) {
            let k = choose|k: int| 0 <= k < s.len() && s[k] == x;
            assert(t[k] == x);
        }
        if x == v {
            assert(t[s.len() as int] == x);
        }
    }
}

proof fn lemma_sorted_unique(entries: Seq<Entry>, s: Seq<int>, t: Seq<int>)
    requires
        sorted(entries, s),
        sorted(entries, t),
        forall|x: int| s.contains(x) <==> t.contains(x),
    ensures
        s == t,
    decreases s.len(),
{
    if s.len() == 0 {
        if t.len() > 0 {
            assert(t.contains(t[0]));
        }
    } else {
        assert(s.contains(s[0]));
        let p = choose|p: int| 0 <= p < t.len() && t[p] == s[0];
        assert(t.contains(t[0]));
        let q = choose|q: int| 0 <= q < s.len() && s[q] == t[0];
        lemma_entry_before_order(entries, s[0], t[0], s[0]);
        assert(s[0] == t[0]);
        let s1 = s.drop_first();
        let t1 = t.drop_first();
        assert forall|x: int| s1.contains(x) <==> t1.contains(x) by {
            if s1.contains(x) {
                let k = choose|k: int| 0 <= k < s1.len() && s1[k] == x;
                assert(s[k + 1] == x);
                assert(s.contains(x));
                let m = choose|m: int| 0 <= m < t.len() && t[m] == x;
                lemma_entry_before_order(entries, x, x, x);
                assert(m > 0);
                assert(t1[m - 1] == x);
            }
            if t1.contains(x) {
                let k = choose|k: int| 0 <= k < t1.len() && t1[k] == x;
                assert(t[k + 1] == x);
                assert(t.contains(x));
                let m = choose|m: int| 0 <= m < s.len() && s[m] == x;
                lemma_entry_before_order(entries, x, x, x);
                assert(m > 0);
                assert(s1[m - 1] == x);
            }
        }
        assert forall|a: int, b: int| 0 <= a < b < s1.len() implies entry_before(
            entries,
            #[trigger] s1[a],
            #[trigger] s1[b],
        ) by {
            assert(s1[a] == s[a + 1] && s1[b] == s[b + 1]);
        }
        assert forall|a: int, b: int| 0 <= a < b < t1.len() implies entry_before(
            entries,
            #[trigger] t1[a],
            #[trigger] t1[b],
        ) by {
            assert(t1[a] == t[a + 1] && t1[b] == t[b + 1]);
        }
        lemma_sorted_unique(entries, s1, t1);
        assert(s =~= seq![s[0]] + s1);
        assert(t =~= seq![t[0]] + t1);
    }
}

/// One range of positions has one order only.
pub proof fn lemma_orders_range_unique(
    config: ConfigView,
    entries: Seq<Entry>,
    lo: int,
    hi: int,
    s: Seq<int>,
    t: Seq<int>,
)
    requires
        orders_range(config, entries, lo, hi, s),
        orders_range(config, entries, lo, hi, t),
    ensures
        s == t,
{
    assert forall|x: int| s.contains(x) <==> t.contains(x) by {
        if s.contains(x) {
            let k = choose|k: int| 0 <= k < s.len() && s[k] == x;
            assert(t.contains(x));
        }
        if t.contains(x) {
            let k = choose|k: int| 0 <= k < t.len() && t[k] == x;
            assert(s.contains(x));
        }
    }
    lemma_sorted_unique(entries, s, t);
}

/// `order` with the position `i` put where it belongs.
spec fn place(entries: Seq<Entry>, order: Seq<int>, i: int) -> Seq<int>
    decreases order.len(),
{
    if order.len() > 0 && entry_before(entries, i, order.last()) {
        place(entries, order.drop_last(), i).push(order.last())
    } else {
        order.push(i)
    }
}

proof fn lemma_place(entries: Seq<Entry>, order: Seq<int>, i: int)
    requires
        sorted(entries, order),
        !order.contains(i),
    ensures
        sorted(entries, place(entries, order, i)),
        forall|x: int| #[trigger] place(entries, order, i).contains(x) <==> order.contains(x) || x == i,
    decreases order.len(),
{
    let placed = place(entries, order, i);
    if order.len() > 0 && entry_before(entries, i, order.last()) {
        let front = order.drop_last();
        let last = order.last();
        assert forall|a: int, b: int| 0 <= a < b < front.len() implies entry_before(
            entries,
            #[trigger] front[a],
            #[trigger] front[b],
        ) by {
            assert(front[a] == order[a] && front[b] == order[b]);
        }
        if front.contains(i) {
            let k = choose|k: int| 0 <= k < front.len() && front[k] == i;
            assert(order[k] == i);
        }
        lemma_place(entries, front, i);
        let inner = place(entries, front, i);
        lemma_push_contains(inner, last);
        lemma_push_contains(front, last);
        assert(order == front.push(last));
        assert forall|a: int, b: int| 0 <= a < b < placed.len() implies entry_before(
            entries,
            #[trigger] placed[a],
            #[trigger] placed[b],
        ) by {
            if b < inner.len() {
                assert(placed[a] == inner[a] && placed[b] == inner[b]);
            } else {
                assert(placed[a] == inner[a]);
                assert(inner.contains(inner[a]));
                if inner[a] != i {
                    let k = choose|k: int| 0 <= k < front.len() && front[k] == inner[a];
                    assert(order[k] == inner[a]);
                    assert(order[order.len() - 1] == last);
                }
            }
        }
    } else {
        lemma_push_contains(order, i);
        assert forall|a: int, b: int| 0 <= a < b < placed.len() implies entry_before(
            entries,
            #[trigger] placed[a],
            #[trigger] placed[b],
        ) by {
            if b < order.len() {
                assert(placed[a] == order[a] && placed[b] == order[b]);
            } else {
                let last = order.last();
                assert(placed[a] == order[a]);
                assert(order.contains(last));
                assert(order.contains(order[a]));
                lemma_entry_before_order(entries, i, last, i);
                if a < order.len() - 1 {
                    assert(entry_before(entries, order[a], order[order.len() - 1]));
                    lemma_entry_before_order(entries, order[a], last, i);
                }
            }
        }
    }
}

/// The order of the entries before position `n`, built one entry at a time.
spec fn order_upto(config: ConfigView, entries: Seq<Entry>, n: int) -> Seq<int>
    decreases n,
{
    if n <= 0 {
        Seq::empty()
    } else {
        let before = order_upto(config, entries, n - 1);
        if shown(config, entries[n - 1]) {
            place(entries, before, n - 1)
        } else {
            before
        }
    }
}

proof fn lemma_order_upto(config: ConfigView, entries: Seq<Entry>, n: int)
    requires
        0 <= n <= entries.len(),
    ensures
        orders_range(config, entries, 0, n, order_upto(config, entries, n)),
    decreases n,
{
    if n > 0 {
        lemma_order_upto(config, entries, n - 1);
        let before = order_upto(config, entries, n - 1);
        let now = order_upto(config, entries, n);
        if shown(config, entries[n - 1]) {
            if before.contains(n - 1) {
                let k = choose|k: int| 0 <= k < before.len() && before[k] == n - 1;
                assert(false);
            }
            lemma_place(entries, before, n - 1);
            assert forall|k: int| 0 <= k < now.len() implies 0 <= #[trigger] now[k] < n && shown(
                config,
                entries[now[k]],
            ) by {
                assert(now.contains(now[k]));
                if now[k] != n - 1 {
                    let m = choose|m: int| 0 <= m < before.len() && before[m] == now[k];
                }
            }
            assert forall|i: int| 0 <= i < n && shown(config, entries[i]) implies #[trigger] now.contains(
                i,
            ) by {
                if i < n - 1 {
                    assert(before.contains(i));
                }
            }
        } else {
            assert forall|i: int| 0 <= i < n && shown(config, entries[i]) implies #[trigger] now.contains(
                i,
            ) by {
                assert(before.contains(i));
            }
        }
    }
}

/// Every directory has a display order, and only one: the entries that are
/// shown, each once, sorted by name.
pub proof fn lemma_display_order(config: ConfigView, entries: Seq<Entry>)
    ensures
        is_display_order(config, entries, display_order(config, entries)),
        forall|order: Seq<int>|
            is_display_order(config, entries, order) ==> order == display_order(config, entries),
{
    lemma_order_upto(config, entries, entries.len() as int);
    let built = order_upto(config, entries, entries.len() as int);
    assert(is_display_order(config, entries, built));
    let chosen = display_order(config, entries);
    assert forall|order: Seq<int>| is_display_order(config, entries, order) implies order
        == chosen by {
        lemma_orders_range_unique(config, entries, 0, entries.len() as int, order, chosen);
    }
}

/// Whether the entry at `i` comes before the entry at `j`.
fn entry_first(entries: &Vec<Entry>, i: usize, j: usize) -> (r: bool)
    requires
        i < entries.len(),
        j < entries.len(),
    ensures
        r == entry_before(entries@, i as int, j as int),
{
    let a = entries[i].name.as_str();
    let b = entries[j].name.as_str();
    proof {
        lemma_name_less_strict_total(a@, b@, a@);
    }
    if name_before(a, b) {
        true
    } else if name_before(b, a) {
        false
    } else {
        i < j
    }
}

/// Merges two sorted runs of positions that share none.
fn merge(entries: &Vec<Entry>, left: &Vec<usize>, right: &Vec<usize>) -> (out: Vec<usize>)
    requires
        sorted(entries@, ints(left@)),
        sorted(entries@, ints(right@)),
        forall|a: int| 0 <= a < left.len() ==> #[trigger] left[a] < entries.len(),
        forall|b: int| 0 <= b < right.len() ==> #[trigger] right[b] < entries.len(),
        forall|a: int, b: int|
            0 <= a < left.len() && 0 <= b < right.len() ==> #[trigger] left[a] != #[trigger] right[b],
    ensures
        sorted(entries@, ints(out@)),
        forall|x: int|
            #[trigger] ints(out@).contains(x) <==> ints(left@).contains(x) || ints(right@).contains(x),
{
    let mut out: Vec<usize> = Vec::new();
    let mut i: usize = 0;
    let mut j: usize = 0;
    let ghost l = ints(left@);
    let ghost r = ints(right@);
    assert(l.take(0) == Seq::<int>::empty());
    assert(r.take(0) == Seq::<int>::empty());
    while i < left.len() || j < right.len()
        invariant
            i <= left.len(),
            j <= right.len(),
            l == ints(left@),
            r == ints(right@),
            sorted(entries@, l),
            sorted(entries@, r),
            forall|a: int| 0 <= a < left.len() ==> #[trigger] left[a] < entries.len(),
            forall|b: int| 0 <= b < right.len() ==> #[trigger] right[b] < entries.len(),
            forall|a: int, b: int|
                0 <= a < left.len() && 0 <= b < right.len() ==> #[trigger] left[a]
                    != #[trigger] right[b],
            sorted(entries@, ints(out@)),
            forall|k: int, a: int|
                0 <= k < out.len() && i <= a < l.len() ==> entry_before(
                    entries@,
                    #[trigger] ints(out@)[k],
                    #[trigger] l[a],
                ),
            forall|k: int, b: int|
                0 <= k < out.len() && j <= b < r.len() ==> entry_before(
                    entries@,
                    #[trigger] ints(out@)[k],
                    #[trigger] r[b],
                ),
            forall|x: int|
                #[trigger] ints(out@).contains(x) <==> l.take(i as int).contains(x) || r.take(
                    j as int,
                ).contains(x),
        decreases left.len() - i + right.len() - j,
    {
        let take_left = if i == left.len() {
            false
        } else if j == right.len() {
            true
        } else {
            entry_first(entries, left[i], right[j])
        };
        let ghost before = ints(out@);
        if take_left {
            let v = left[i];
            out.push(v);
            proof {
                let now = ints(out@);
                assert(now == before.push(v as int));
                assert(l.take(i + 1) == l.take(i as int).push(v as int));
                lemma_push_contains(before, v as int);
                lemma_push_contains(l.take(i as int), v as int);
                assert(l[i as int] == v);
                assert forall|a: int, b: int| 0 <= a < b < now.len() implies entry_before(
                    entries@,
                    #[trigger] now[a],
                    #[trigger] now[b],
                ) by {
                    if b < before.len() {
                        assert(now[a] == before[a] && now[b] == before[b]);
                    } else {
                        assert(now[a] == before[a]);
                    }
                }
                assert forall|k: int, a: int|
                    0 <= k < now.len() && i + 1 <= a < l.len() implies entry_before(
                    entries@,
                    #[trigger] now[k],
                    #[trigger] l[a],
                ) by {
                    if k < before.len() {
                        assert(now[k] == before[k]);
                    }
                }
                assert forall|k: int, b: int|
                    0 <= k < now.len() && j <= b < r.len() implies entry_before(
                    entries@,
                    #[trigger] now[k],
                    #[trigger] r[b],
                ) by {
                    if k < before.len() {
                        assert(now[k] == before[k]);
                    } else {
                        assert(r[j as int] == right[j as int]);
                        if b > j {
                            lemma_entry_before_order(entries@, v as int, r[j as int], r[b]);
                        }
                    }
                }
            }
            i += 1;
        } else {
            let v = right[j];
            out.push(v);
            proof {
                let now = ints(out@);
                assert(now == before.push(v as int));
                assert(r.take(j + 1) == r.take(j as int).push(v as int));
                lemma_push_contains(before, v as int);
                lemma_push_contains(r.take(j as int), v as int);
                assert(r[j as int] == v);
                assert forall|a: int, b: int| 0 <= a < b < now.len() implies entry_before(
                    entries@,
                    #[trigger] now[a],
                    #[trigger] now[b],
                ) by {
                    if b < before.len() {
                        assert(now[a] == before[a] && now[b] == before[b]);
                    } else {
                        assert(now[a] == before[a]);
                    }
                }
                assert forall|k: int, b: int|
                    0 <= k < now.len() && j + 1 <= b < r.len() implies entry_before(
                    entries@,
                    #[trigger] now[k],
                    #[trigger] r[b],
                ) by {
                    if k < before.len() {
                        assert(now[k] == before[k]);
                    }
                }
                assert forall|k: int, a: int|
                    0 <= k < now.len() && i <= a < l.len() implies entry_before(
                    entries@,
                    #[trigger] now[k],
                    #[trigger] l[a],
                ) by {
                    if k < before.len() {
                        assert(now[k] == before[k]);
                    } else {
                        assert(l[i as int] == left[i as int]);
                        lemma_entry_before_order(entries@, l[i as int], v as int, l[i as int]);
                        if a > i {
                            lemma_entry_before_order(entries@, v as int, l[i as int], l[a]);
                        }
                    }
                }
            }
            j += 1;
        }
    }
    assert(l.take(i as int) == l);
    assert(r.take(j as int) == r);
    out
}

/// Sorts the positions from `lo` up to `hi` of the entries that are shown.
fn sort_range(config: &Config, entries: &Vec<Entry>, lo: usize, hi: usize) -> (out: Vec<usize>)
    requires
        lo <= hi <= entries.len(),
    ensures
        orders_range(config@, entries@, lo as int, hi as int, ints(out@)),
    decreases hi - lo,
{
    if hi - lo == 0 {
        Vec::new()
    } else if hi - lo == 1 {
        let entry = &entries[lo];
        let is_dir = match entry.node {
            Node::Directory(_) => true,
            Node::File { .. } => false,
        };
        let mut out: Vec<usize> = Vec::new();
        if should_display(entry.name.as_str(), is_dir, config) {
            out.push(lo);
            assert(ints(out@)[0] == lo);
        }
        out
    } else {
        let mid = lo + (hi - lo) / 2;
        let left = sort_range(config, entries, lo, mid);
        let right = sort_range(config, entries, mid, hi);
        let ghost l = ints(left@);
        let ghost r = ints(right@);
        assert forall|a: int, b: int| 0 <= a < left.len() && 0 <= b < right.len() implies #[trigger] left[a]
            != #[trigger] right[b] by {
            assert(l[a] < mid && r[b] >= mid);
        }
        assert forall|a: int| 0 <= a < left.len() implies #[trigger] left[a] < entries.len() by {
            assert(l[a] < mid);
        }
        assert forall|b: int| 0 <= b < right.len() implies #[trigger] right[b] < entries.len() by {
            assert(r[b] < hi);
        }
        let out = merge(entries, &left, &right);
        proof {
            let o = ints(out@);
            assert forall|k: int| 0 <= k < o.len() implies lo <= #[trigger] o[k] < hi && shown(
                config@,
                entries@[o[k]],
            ) by {
                assert(o.contains(o[k]));
                if l.contains(o[k]) {
                    let m = choose|m: int| 0 <= m < l.len() && l[m] == o[k];
                } else {
                    let m = choose|m: int| 0 <= m < r.len() && r[m] == o[k];
                }
            }
            assert forall|i: int| lo <= i < hi && shown(config@, entries@[i]) implies #[trigger] o.contains(
                i,
            ) by {
                if i < mid {
                    assert(l.contains(i));
                } else {
                    assert(r.contains(i));
                }
            }
        }
        out
    }
}

/// Computes the order in which the entries of one directory are shown: the
/// positions of those that pass the filter, sorted by name.
pub fn visible_order(config: &Config, entries: &Vec<Entry>) -> (order: Vec<usize>)
    ensures
        ints(order@) == display_order(config@, entries@),
{
    let order = sort_range(config, entries, 0, entries.len());
    proof {
        lemma_display_order(config@, entries@);
        assert(is_display_order(config@, entries@, ints(order@)));
    }
    order
}

} // verus!
