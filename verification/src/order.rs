//! Stable sorting: the order in which the items of a list come by rank.
use crate::text::{
    lemma_text_antisymmetric, lemma_text_total, lemma_text_transitive, text_at_most, text_le, texts,
};
use vstd::prelude::*;

verus! {

/// Values that can be ranked: any two compare, and comparison is transitive.
pub trait Ranked: Sized {
    /// `self` ranks no later than `other`.
    spec fn no_later(&self, other: &Self) -> bool;

    proof fn lemma_total(a: &Self, b: &Self)
        ensures
            a.no_later(b) || b.no_later(a),
    ;

    proof fn lemma_transitive(a: &Self, b: &Self, c: &Self)
        requires
            a.no_later(b),
            b.no_later(c),
        ensures
            a.no_later(c),
    ;

    fn ranks_no_later(&self, other: &Self) -> (r: bool)
        ensures
            r == self.no_later(other),
    ;
}

/// How the positions of a list rank: whether the first ranks no later than the second.
pub open spec fn rank_of<K: Ranked>(keys: Seq<K>) -> spec_fn(int, int) -> bool {
    |i: int, j: int| keys[i].no_later(&keys[j])
}

/// Position `i` comes before position `j`: it ranks earlier, or the same and is the smaller.
pub open spec fn precedes(rank: spec_fn(int, int) -> bool, i: usize, j: usize) -> bool {
    rank(i as int, j as int) && (rank(j as int, i as int) ==> i < j)
}

/// `order` lists strictly ascending positions.
pub open spec fn ascending(rank: spec_fn(int, int) -> bool, order: Seq<usize>) -> bool {
    forall|a: int, b: int|
        0 <= a < b < order.len() ==> precedes(rank, #[trigger] order[a], #[trigger] order[b])
}

/// `order` is the stable sort of `n` positions: each of them once, in ascending order.
pub open spec fn is_stable_order(
    n: nat,
    rank: spec_fn(int, int) -> bool,
    order: Seq<usize>,
) -> bool {
    &&& order.len() == n
    &&& forall|a: int| 0 <= a < order.len() ==> (#[trigger] order[a]) < n
    &&& forall|i: usize| i < n ==> #[trigger] order.contains(i)
    &&& ascending(rank, order)
}

proof fn lemma_precedes_transitive<K: Ranked>(keys: Seq<K>, i: usize, j: usize, k: usize)
    requires
        precedes(rank_of(keys), i, j),
        precedes(rank_of(keys), j, k),
    ensures
        precedes(rank_of(keys), i, k),
{
    K::lemma_transitive(&keys[i as int], &keys[j as int], &keys[k as int]);
    if keys[k as int].no_later(&keys[i as int]) {
        K::lemma_transitive(&keys[k as int], &keys[i as int], &keys[j as int]);
        K::lemma_transitive(&keys[j as int], &keys[k as int], &keys[i as int]);
    }
}

/// The positions of `v` are exactly those from `lo` up to `hi`.
spec fn covers(v: Seq<usize>, lo: usize, hi: usize) -> bool {
    &&& v.len() == hi - lo
    &&& forall|a: int| 0 <= a < v.len() ==> lo <= #[trigger] v[a] < hi
    &&& forall|i: usize| lo <= i < hi ==> #[trigger] v.contains(i)
}

fn merge<K: Ranked>(
    keys: &Vec<K>,
    left: Vec<usize>,
    right: Vec<usize>,
    Ghost(lo): Ghost<usize>,
    Ghost(mid): Ghost<usize>,
    Ghost(hi): Ghost<usize>,
) -> (out: Vec<usize>)
    requires
        lo <= mid <= hi <= keys@.len(),
        covers(left@, lo, mid),
        covers(right@, mid, hi),
        ascending(rank_of(keys@), left@),
        ascending(rank_of(keys@), right@),
    ensures
        covers(out@, lo, hi),
        ascending(rank_of(keys@), out@),
{
    let mut out: Vec<usize> = Vec::new();
    let mut i: usize = 0;
    let mut j: usize = 0;
    while i < left.len() || j < right.len()
        invariant
            lo <= mid <= hi <= keys@.len(),
            covers(left@, lo, mid),
            covers(right@, mid, hi),
            ascending(rank_of(keys@), left@),
            ascending(rank_of(keys@), right@),
            i <= left.len(),
            j <= right.len(),
            out.len() == i + j,
            ascending(rank_of(keys@), out@),
            forall|a: int| 0 <= a < i ==> out@.contains(#[trigger] left@[a]),
            forall|b: int| 0 <= b < j ==> out@.contains(#[trigger] right@[b]),
            forall|c: int| 0 <= c < out.len() ==> lo <= #[trigger] out@[c] < hi,
            forall|c: int, a: int|
                0 <= c < out.len() && i <= a < left.len() ==> precedes(
                    rank_of(keys@),
                    #[trigger] out@[c],
                    #[trigger] left@[a],
                ),
            forall|c: int, b: int|
                0 <= c < out.len() && j <= b < right.len() ==> precedes(
                    rank_of(keys@),
                    #[trigger] out@[c],
                    #[trigger] right@[b],
                ),
        decreases left.len() - i + right.len() - j,
    {
        let take_left: bool = if i >= left.len() {
            false
        } else if j >= right.len() {
            true
        } else {
            keys[left[i]].ranks_no_later(&keys[right[j]])
        };
        let ghost before = out@;
        if take_left {
            let x: usize = left[i];
            out.push(x);
            proof {
                assert(out@[before.len() as int] == x);
                assert forall|b: int| j <= b < right.len() implies precedes(
                    rank_of(keys@),
                    x,
                    #[trigger] right@[b],
                ) by {
                    let r = right@[j as int];
                    assert(x < mid <= r);
                    assert(precedes(rank_of(keys@), x, r));
                    if b > j {
                        lemma_precedes_transitive(keys@, x, r, right@[b]);
                    }
                }
                assert forall|a: int| 0 <= a < i + 1 implies out@.contains(#[trigger] left@[a]) by {
                    if a < i {
                        let c = choose|c: int| 0 <= c < before.len() && before[c] == left@[a];
                        assert(out@[c] == left@[a]);
                    } else {
                        assert(out@[before.len() as int] == left@[a]);
                    }
                }
                assert forall|b: int| 0 <= b < j implies out@.contains(#[trigger] right@[b]) by {
                    let c = choose|c: int| 0 <= c < before.len() && before[c] == right@[b];
                    assert(out@[c] == right@[b]);
                }
            }
            i = i + 1;
        } else {
            let x: usize = right[j];
            out.push(x);
            proof {
                assert(out@[before.len() as int] == x);
                assert forall|a: int| i <= a < left.len() implies precedes(
                    rank_of(keys@),
                    x,
                    #[trigger] left@[a],
                ) by {
                    let l = left@[i as int];
                    K::lemma_total(&keys@[l as int], &keys@[x as int]);
                    assert(precedes(rank_of(keys@), x, l));
                    if a > i {
                        lemma_precedes_transitive(keys@, x, l, left@[a]);
                    }
                }
                assert forall|b: int| 0 <= b < j + 1 implies out@.contains(
                    #[trigger] right@[b],
                ) by {
                    if b < j {
                        let c = choose|c: int| 0 <= c < before.len() && before[c] == right@[b];
                        assert(out@[c] == right@[b]);
                    } else {
                        assert(out@[before.len() as int] == right@[b]);
                    }
                }
                assert forall|a: int| 0 <= a < i implies out@.contains(#[trigger] left@[a]) by {
                    let c = choose|c: int| 0 <= c < before.len() && before[c] == left@[a];
                    assert(out@[c] == left@[a]);
                }
            }
            j = j + 1;
        }
    }
    proof {
        assert forall|k: usize| lo <= k < hi implies #[trigger] out@.contains(k) by {
            if k < mid {
                assert(left@.contains(k));
                let a = choose|a: int| 0 <= a < left@.len() && left@[a] == k;
                assert(out@.contains(left@[a]));
            } else {
                assert(right@.contains(k));
                let b = choose|b: int| 0 <= b < right@.len() && right@[b] == k;
                assert(out@.contains(right@[b]));
            }
        }
    }
    out
}

fn sort_range<K: Ranked>(keys: &Vec<K>, lo: usize, hi: usize) -> (out: Vec<usize>)
    requires
        lo <= hi <= keys@.len(),
    ensures
        covers(out@, lo, hi),
        ascending(rank_of(keys@), out@),
    decreases hi - lo,
{
    if hi - lo == 0 {
        return Vec::new();
    }
    if hi - lo == 1 {
        let mut one: Vec<usize> = Vec::new();
        one.push(lo);
        assert(one@[0] == lo);
        return one;
    }
    let mid: usize = lo + (hi - lo) / 2;
    let left: Vec<usize> = sort_range(keys, lo, mid);
    let right: Vec<usize> = sort_range(keys, mid, hi);
    merge(keys, left, right, Ghost(lo), Ghost(mid), Ghost(hi))
}

/// The positions of `keys` in stable ascending order.
pub fn stable_order<K: Ranked>(keys: &Vec<K>) -> (order: Vec<usize>)
    ensures
        is_stable_order(keys@.len(), rank_of(keys@), order@),
{
    sort_range(keys, 0, keys.len())
}

/// There is only one stable order of a list.
pub proof fn lemma_stable_order_unique(
    n: nat,
    rank: spec_fn(int, int) -> bool,
    x: Seq<usize>,
    y: Seq<usize>,
)
    requires
        is_stable_order(n, rank, x),
        is_stable_order(n, rank, y),
    ensures
        x == y,
{
    assert forall|a: int| 0 <= a < x.len() implies y.contains(#[trigger] x[a]) by {}
    assert forall|a: int| 0 <= a < y.len() implies x.contains(#[trigger] y[a]) by {}
    lemma_same_positions_same_order(rank, x, y);
}

proof fn lemma_ascending_filter(
    rank: spec_fn(int, int) -> bool,
    order: Seq<usize>,
    keeps: spec_fn(usize) -> bool,
)
    requires
        ascending(rank, order),
    ensures
        ascending(rank, order.filter(keeps)),
        forall|a: int|
            0 <= a < order.filter(keeps).len() ==> order.contains(
                #[trigger] order.filter(keeps)[a],
            ),
    decreases order.len(),
{
    reveal(Seq::filter);
    if order.len() > 0 {
        let front = order.drop_last();
        assert forall|a: int, b: int| 0 <= a < b < front.len() implies precedes(
            rank,
            #[trigger] front[a],
            #[trigger] front[b],
        ) by {
            assert(precedes(rank, order[a], order[b]));
        }
        lemma_ascending_filter(rank, front, keeps);
        let kept = front.filter(keeps);
        assert forall|a: int| 0 <= a < kept.len() implies precedes(
            rank,
            #[trigger] kept[a],
            order.last(),
        ) && order.contains(kept[a]) by {
            let k = choose|k: int| 0 <= k < front.len() && front[k] == kept[a];
            assert(order[k] == kept[a]);
            assert(precedes(rank, order[k], order[order.len() - 1]));
        }
        assert(order.contains(order[order.len() - 1]));
    }
}

/// Sorting a part of a list gives the same part of the sorted list: `chosen` are the positions of
/// the part, ascending.
pub proof fn lemma_sorted_part(
    n: nat,
    rank: spec_fn(int, int) -> bool,
    whole: Seq<usize>,
    chosen: Seq<usize>,
    part_rank: spec_fn(int, int) -> bool,
    part: Seq<usize>,
)
    requires
        is_stable_order(n, rank, whole),
        is_stable_order(chosen.len(), part_rank, part),
        chosen.len() <= usize::MAX,
        forall|a: int| 0 <= a < chosen.len() ==> (#[trigger] chosen[a]) < n,
        forall|a: int, b: int|
            0 <= a < b < chosen.len() ==> (#[trigger] chosen[a]) < (#[trigger] chosen[b]),
        forall|a: int, b: int|
            #![trigger part_rank(a, b)]
            0 <= a < chosen.len() && 0 <= b < chosen.len() ==> part_rank(a, b) == rank(
                chosen[a] as int,
                chosen[b] as int,
            ),
    ensures
        part.map_values(|k: usize| chosen[k as int]) == whole.filter(
            |i: usize| chosen.contains(i),
        ),
{
    let keeps = |i: usize| chosen.contains(i);
    let u = part.map_values(|k: usize| chosen[k as int]);
    let v = whole.filter(keeps);
    lemma_ascending_filter(rank, whole, keeps);
    assert forall|a: int, b: int| 0 <= a < b < u.len() implies precedes(
        rank,
        #[trigger] u[a],
        #[trigger] u[b],
    ) by {
        assert(precedes(part_rank, part[a], part[b]));
        assert(part_rank(part[a] as int, part[b] as int) == rank(u[a] as int, u[b] as int));
        assert(part_rank(part[b] as int, part[a] as int) == rank(u[b] as int, u[a] as int));
    }
    assert forall|a: int| 0 <= a < u.len() implies v.contains(#[trigger] u[a]) by {
        assert(chosen.contains(chosen[part[a] as int]));
        assert(whole.contains(u[a]));
        let k = choose|k: int| 0 <= k < whole.len() && whole[k] == u[a];
        whole.lemma_filter_contains(keeps, k);
    }
    assert forall|a: int| 0 <= a < v.len() implies u.contains(#[trigger] v[a]) by {
        whole.lemma_filter_pred(keeps, a);
        let k = choose|k: int| 0 <= k < chosen.len() && chosen[k] == v[a];
        assert(part.contains(k as usize));
        let j = choose|j: int| 0 <= j < part.len() && part[j] == k as usize;
        assert(u[j] == v[a]);
    }
    lemma_same_positions_same_order(rank, u, v);
}

/// Two ways to rank that agree on every pair of positions have the same stable order.
pub proof fn lemma_same_rank_same_order(
    n: nat,
    rank: spec_fn(int, int) -> bool,
    other: spec_fn(int, int) -> bool,
    order: Seq<usize>,
)
    requires
        is_stable_order(n, rank, order),
        forall|i: int, j: int| 0 <= i < n && 0 <= j < n ==> #[trigger] rank(i, j) == other(i, j),
    ensures
        is_stable_order(n, other, order),
{
    assert forall|a: int, b: int| 0 <= a < b < order.len() implies precedes(
        other,
        #[trigger] order[a],
        #[trigger] order[b],
    ) by {
        assert(precedes(rank, order[a], order[b]));
        assert(rank(order[b] as int, order[a] as int) == other(order[b] as int, order[a] as int));
    }
}

proof fn lemma_ascending_rest(rank: spec_fn(int, int) -> bool, x: Seq<usize>)
    requires
        x.len() > 0,
        ascending(rank, x),
    ensures
        ascending(rank, x.drop_first()),
        forall|a: int| 0 <= a < x.len() - 1 ==> (#[trigger] x.drop_first()[a]) != x[0],
{
    let t = x.drop_first();
    assert forall|a: int, b: int| 0 <= a < b < t.len() implies precedes(
        rank,
        #[trigger] t[a],
        #[trigger] t[b],
    ) by {
        assert(precedes(rank, x[a + 1], x[b + 1]));
    }
    assert forall|a: int| 0 <= a < x.len() - 1 implies (#[trigger] t[a]) != x[0] by {
        assert(precedes(rank, x[0], x[a + 1]));
    }
}

proof fn lemma_same_positions_same_order(
    rank: spec_fn(int, int) -> bool,
    x: Seq<usize>,
    y: Seq<usize>,
)
    requires
        ascending(rank, x),
        ascending(rank, y),
        forall|a: int| 0 <= a < x.len() ==> y.contains(#[trigger] x[a]),
        forall|a: int| 0 <= a < y.len() ==> x.contains(#[trigger] y[a]),
    ensures
        x == y,
    decreases x.len(),
{
    if x.len() == 0 {
        if y.len() > 0 {
            assert(x.contains(y[0]));
        }
        assert(x =~= y);
    } else {
        assert(y.contains(x[0]));
        assert(x.contains(y[0]));
        if x[0] != y[0] {
            let b = choose|b: int| 0 <= b < y.len() && y[b] == x[0];
            let a = choose|a: int| 0 <= a < x.len() && x[a] == y[0];
            assert(precedes(rank, y[0], y[b]));
            assert(precedes(rank, x[0], x[a]));
            assert(false);
        }
        lemma_ascending_rest(rank, x);
        lemma_ascending_rest(rank, y);
        let s = x.drop_first();
        let t = y.drop_first();
        assert forall|a: int| 0 <= a < s.len() implies t.contains(#[trigger] s[a]) by {
            assert(s[a] == x[a + 1]);
            assert(y.contains(x[a + 1]));
            let b = choose|b: int| 0 <= b < y.len() && y[b] == x[a + 1];
            assert(b > 0);
            assert(t[b - 1] == s[a]);
        }
        assert forall|a: int| 0 <= a < t.len() implies s.contains(#[trigger] t[a]) by {
            assert(t[a] == y[a + 1]);
            assert(x.contains(y[a + 1]));
            let b = choose|b: int| 0 <= b < x.len() && x[b] == y[a + 1];
            assert(b > 0);
            assert(s[b - 1] == t[a]);
        }
        lemma_same_positions_same_order(rank, s, t);
        assert(x =~= seq![x[0]] + s);
        assert(y =~= seq![y[0]] + t);
    }
}

/// Three texts, ranked by the first, then the second, then the third.
#[derive(Debug)]
pub struct TextTriple {
    pub first: String,
    pub second: String,
    pub third: String,
}

/// Dictionary order of three texts in turn.
pub open spec fn triple_le(
    a: (Seq<char>, Seq<char>, Seq<char>),
    b: (Seq<char>, Seq<char>, Seq<char>),
) -> bool {
    if a.0 != b.0 {
        text_le(a.0, b.0)
    } else if a.1 != b.1 {
        text_le(a.1, b.1)
    } else {
        text_le(a.2, b.2)
    }
}

/// Any two triples can be put in order.
pub proof fn lemma_triple_total(
    a: (Seq<char>, Seq<char>, Seq<char>),
    b: (Seq<char>, Seq<char>, Seq<char>),
)
    ensures
        triple_le(a, b) || triple_le(b, a),
{
    lemma_text_total(a.0, b.0);
    lemma_text_total(a.1, b.1);
    lemma_text_total(a.2, b.2);
}

/// The order of triples is transitive.
pub proof fn lemma_triple_transitive(
    a: (Seq<char>, Seq<char>, Seq<char>),
    b: (Seq<char>, Seq<char>, Seq<char>),
    c: (Seq<char>, Seq<char>, Seq<char>),
)
    requires
        triple_le(a, b),
        triple_le(b, c),
    ensures
        triple_le(a, c),
{
    if a.0 != b.0 || b.0 != c.0 {
        if a.0 != b.0 && b.0 != c.0 {
            lemma_text_transitive(a.0, b.0, c.0);
            if a.0 == c.0 {
                lemma_text_antisymmetric(a.0, b.0);
            }
        }
    } else if a.1 != b.1 || b.1 != c.1 {
        if a.1 != b.1 && b.1 != c.1 {
            lemma_text_transitive(a.1, b.1, c.1);
            if a.1 == c.1 {
                lemma_text_antisymmetric(a.1, b.1);
            }
        }
    } else {
        lemma_text_transitive(a.2, b.2, c.2);
    }
}

/// Triples that each rank no later than the other are equal.
pub proof fn lemma_triple_antisymmetric(
    a: (Seq<char>, Seq<char>, Seq<char>),
    b: (Seq<char>, Seq<char>, Seq<char>),
)
    requires
        triple_le(a, b),
        triple_le(b, a),
    ensures
        a == b,
{
    if a.0 != b.0 {
        lemma_text_antisymmetric(a.0, b.0);
    } else if a.1 != b.1 {
        lemma_text_antisymmetric(a.1, b.1);
    } else {
        lemma_text_antisymmetric(a.2, b.2);
    }
}

impl View for TextTriple {
    type V = (Seq<char>, Seq<char>, Seq<char>);

    open spec fn view(&self) -> (Seq<char>, Seq<char>, Seq<char>) {
        (self.first@, self.second@, self.third@)
    }
}

impl Ranked for TextTriple {
    open spec fn no_later(&self, other: &Self) -> bool {
        triple_le(self@, other@)
    }

    proof fn lemma_total(a: &Self, b: &Self) {
        lemma_triple_total(a@, b@);
    }

    proof fn lemma_transitive(a: &Self, b: &Self, c: &Self) {
        lemma_triple_transitive(a@, b@, c@);
    }

    fn ranks_no_later(&self, other: &Self) -> (r: bool) {
        if self.first != other.first {
            text_at_most(self.first.as_str(), other.first.as_str())
        } else if self.second != other.second {
            text_at_most(self.second.as_str(), other.second.as_str())
        } else {
            text_at_most(self.third.as_str(), other.third.as_str())
        }
    }
}

/// One text, ranked in dictionary order.
#[derive(Debug)]
pub struct RankedText {
    pub text: String,
}

impl Ranked for RankedText {
    open spec fn no_later(&self, other: &Self) -> bool {
        text_le(self.text@, other.text@)
    }

    proof fn lemma_total(a: &Self, b: &Self) {
        lemma_text_total(a.text@, b.text@);
    }

    proof fn lemma_transitive(a: &Self, b: &Self, c: &Self) {
        lemma_text_transitive(a.text@, b.text@, c.text@);
    }

    fn ranks_no_later(&self, other: &Self) -> (r: bool) {
        text_at_most(self.text.as_str(), other.text.as_str())
    }
}

/// The texts of a list in dictionary order, each once.
pub open spec fn is_sorted_set_of(sorted: Seq<Seq<char>>, texts: Seq<Seq<char>>) -> bool {
    &&& forall|a: int, b: int|
        0 <= a < b < sorted.len() ==> {
            &&& text_le(#[trigger] sorted[a], #[trigger] sorted[b])
            &&& sorted[a] != sorted[b]
        }
    &&& forall|k: int| 0 <= k < sorted.len() ==> texts.contains(#[trigger] sorted[k])
    &&& forall|i: int| 0 <= i < texts.len() ==> sorted.contains(#[trigger] texts[i])
}

/// The texts of a list in dictionary order, each once.
pub fn sorted_set(list: &[String]) -> (r: Vec<String>)
    ensures
        is_sorted_set_of(texts(r@), texts(list@)),
{
    let ghost views = texts(list@);
    let mut keys: Vec<RankedText> = Vec::new();
    for i in 0..list.len()
        invariant
            keys.len() == i,
            forall|j: int| 0 <= j < i ==> (#[trigger] keys@[j]).text@ == list@[j]@,
    {
        keys.push(RankedText { text: list[i].clone() });
    }
    let order: Vec<usize> = stable_order(&keys);
    let ghost rank = rank_of(keys@);
    let mut r: Vec<String> = Vec::new();
    for k in 0..order.len()
        invariant
            order.len() == keys.len() == list.len() == views.len(),
            views == texts(list@),
            forall|j: int| 0 <= j < keys.len() ==> (#[trigger] keys@[j]).text@ == list@[j]@,
            rank == rank_of(keys@),
            is_stable_order(keys@.len(), rank, order@),
            sorted_progress(texts(r@), views, order@, k as int),
    {
        let here: usize = order[k];
        let ghost before = texts(r@);
        let fresh: bool = if r.len() == 0 {
            true
        } else {
            r[r.len() - 1] != list[here]
        };
        proof {
            if k > 0 {
                let last = order@[k - 1] as int;
                assert(precedes(rank, order@[k - 1], order@[k as int]));
                assert(rank(last, here as int));
                assert(keys@[last].text@ == views[last]);
                assert(keys@[here as int].text@ == views[here as int]);
            }
        }
        if fresh {
            r.push(list[here].clone());
            proof {
                let after = texts(r@);
                assert(after =~= before.push(views[here as int]));
                lemma_sorted_grows(before, views, order@, k as int, true);
            }
        } else {
            proof {
                assert(before.last() == r@[r@.len() - 1]@);
                lemma_sorted_grows(before, views, order@, k as int, false);
            }
        }
    }
    proof {
        let sorted = texts(r@);
        assert forall|i: int| 0 <= i < views.len() implies sorted.contains(#[trigger] views[i]) by {
            let u = i as usize;
            assert(order@.contains(u));
            let j = choose|j: int| 0 <= j < order@.len() && order@[j] == u;
            assert(sorted.contains(views[order@[j] as int]));
        }
    }
    r
}

spec fn sorted_progress(
    sorted: Seq<Seq<char>>,
    texts: Seq<Seq<char>>,
    order: Seq<usize>,
    k: int,
) -> bool {
    &&& forall|a: int, b: int|
        0 <= a < b < sorted.len() ==> {
            &&& text_le(#[trigger] sorted[a], #[trigger] sorted[b])
            &&& sorted[a] != sorted[b]
        }
    &&& forall|e: int| 0 <= e < sorted.len() ==> texts.contains(#[trigger] sorted[e])
    &&& forall|j: int| 0 <= j < k ==> sorted.contains(texts[#[trigger] order[j] as int])
    &&& k == 0 <==> sorted.len() == 0
    &&& k > 0 ==> sorted.last() == texts[order[k - 1] as int]
}

proof fn lemma_sorted_grows(
    sorted: Seq<Seq<char>>,
    texts: Seq<Seq<char>>,
    order: Seq<usize>,
    k: int,
    fresh: bool,
)
    requires
        sorted_progress(sorted, texts, order, k),
        0 <= k < order.len(),
        0 <= order[k] < texts.len(),
        k > 0 ==> text_le(texts[order[k - 1] as int], texts[order[k] as int]),
        fresh == (sorted.len() == 0 || sorted.last() != texts[order[k] as int]),
    ensures
        sorted_progress(
            if fresh {
                sorted.push(texts[order[k] as int])
            } else {
                sorted
            },
            texts,
            order,
            k + 1,
        ),
{
    let here = texts[order[k] as int];
    let list = if fresh {
        sorted.push(here)
    } else {
        sorted
    };
    assert forall|a: int, b: int| 0 <= a < b < list.len() implies {
        &&& text_le(#[trigger] list[a], #[trigger] list[b])
        &&& list[a] != list[b]
    } by {
        if b < sorted.len() {
            assert(text_le(sorted[a], sorted[b]));
        } else {
            let tail = sorted[sorted.len() - 1];
            if a < sorted.len() - 1 {
                assert(text_le(sorted[a], tail));
                lemma_text_transitive(sorted[a], tail, here);
                if sorted[a] == here {
                    lemma_text_antisymmetric(here, tail);
                }
            }
        }
    }
    assert forall|e: int| 0 <= e < list.len() implies texts.contains(#[trigger] list[e]) by {
        if e < sorted.len() {
            assert(list[e] == sorted[e]);
        } else {
            assert(texts[order[k] as int] == here);
        }
    }
    assert forall|j: int| 0 <= j < k + 1 implies list.contains(
        texts[#[trigger] order[j] as int],
    ) by {
        if j < k {
            let e = choose|e: int|
                0 <= e < sorted.len() && sorted[e] == texts[order[j] as int];
            assert(list[e] == texts[order[j] as int]);
        } else {
            assert(list[list.len() - 1] == here);
        }
    }
}

/// Triples are ordered by their first texts; where those are the same by their second, and where
/// those are too by their third.
pub proof fn lemma_first_unequal_text_decides(
    a: (Seq<char>, Seq<char>, Seq<char>),
    b: (Seq<char>, Seq<char>, Seq<char>),
)
    ensures
        a.0 != b.0 ==> (triple_le(a, b) <==> text_le(a.0, b.0)),
        a.0 == b.0 && a.1 != b.1 ==> (triple_le(a, b) <==> text_le(a.1, b.1)),
        a.0 == b.0 && a.1 == b.1 ==> (triple_le(a, b) <==> text_le(a.2, b.2)),
{
}

/// A sorted set holds what the list holds, nothing twice, and each text before the greater ones.
pub proof fn lemma_sorted_set_holds_the_list(sorted: Seq<Seq<char>>, list: Seq<Seq<char>>)
    requires
        is_sorted_set_of(sorted, list),
    ensures
        forall|t: Seq<char>| #[trigger] sorted.contains(t) <==> list.contains(t),
        sorted.no_duplicates(),
        forall|a: int, b: int|
            0 <= a < b < sorted.len() ==> text_le(#[trigger] sorted[a], #[trigger] sorted[b]),
{
    assert forall|t: Seq<char>| #[trigger] sorted.contains(t) <==> list.contains(t) by {
        if sorted.contains(t) {
            let k = sorted.index_of(t);
            assert(list.contains(sorted[k]));
        }
        if list.contains(t) {
            let i = list.index_of(t);
            assert(sorted.contains(list[i]));
        }
    }
}

} // verus!
