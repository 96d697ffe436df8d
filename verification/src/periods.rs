//! Period keys and their order.
//!
//! A period is a string key, such as an ISO date. Periods are ordered as
//! strings are: by their UTF-8 bytes, lexicographically. With one fixed date
//! format that order is the calendar's.

use vstd::prelude::*;
use vstd::utf8::{encode_utf8, encode_utf8_decode_utf8};
use crate::costs::with_key;

verus! {

/// The texts of a run of strings, in order.
pub open spec fn texts(strings: Seq<String>) -> Seq<Seq<char>> {
    Seq::new(strings.len(), |i: int| strings[i]@)
}

/// Lexicographic order on bytes, the shorter of two that agree coming first.
pub open spec fn bytes_le(a: Seq<u8>, b: Seq<u8>) -> bool
    decreases a.len(),
{
    if a.len() == 0 {
        true
    } else if b.len() == 0 {
        false
    } else if a[0] != b[0] {
        a[0] < b[0]
    } else {
        bytes_le(a.drop_first(), b.drop_first())
    }
}

/// `a` is `b` or comes before it.
pub open spec fn period_le(a: Seq<char>, b: Seq<char>) -> bool {
    bytes_le(encode_utf8(a), encode_utf8(b))
}

/// `a` comes before `b`.
pub open spec fn period_lt(a: Seq<char>, b: Seq<char>) -> bool {
    period_le(a, b) && a != b
}

/// Each period comes before the next: ascending, and none twice.
pub open spec fn ascending(periods: Seq<Seq<char>>) -> bool {
    forall|i: int, j: int|
        0 <= i < j < periods.len() ==> period_lt(#[trigger] periods[i], #[trigger] periods[j])
}

/// Every run of bytes is at most itself.
pub proof fn lemma_bytes_le_reflexive(a: Seq<u8>)
    ensures
        bytes_le(a, a),
    decreases a.len(),
{
    if a.len() > 0 {
        lemma_bytes_le_reflexive(a.drop_first());
    }
}

/// Of two runs of bytes, one is at most the other.
pub proof fn lemma_bytes_le_total(a: Seq<u8>, b: Seq<u8>)
    ensures
        bytes_le(a, b) || bytes_le(b, a),
    decreases a.len(),
{
    if a.len() > 0 && b.len() > 0 && a[0] == b[0] {
        lemma_bytes_le_total(a.drop_first(), b.drop_first());
    }
}

/// Two runs of bytes that are at most each other are the same.
pub proof fn lemma_bytes_le_antisymmetric(a: Seq<u8>, b: Seq<u8>)
    requires
        bytes_le(a, b),
        bytes_le(b, a),
    ensures
        a == b,
    decreases a.len(),
{
    if a.len() > 0 {
        lemma_bytes_le_antisymmetric(a.drop_first(), b.drop_first());
        assert(a =~= seq![a[0]] + a.drop_first());
        assert(b =~= seq![b[0]] + b.drop_first());
    } else {
        assert(a =~= b);
    }
}

/// The order of bytes is transitive.
pub proof fn lemma_bytes_le_transitive(a: Seq<u8>, b: Seq<u8>, c: Seq<u8>)
    requires
        bytes_le(a, b),
        bytes_le(b, c),
    ensures
        bytes_le(a, c),
    decreases a.len(),
{
    if a.len() > 0 && a[0] == b[0] && b[0] == c[0] {
        lemma_bytes_le_transitive(a.drop_first(), b.drop_first(), c.drop_first());
    }
}

/// The order of periods is total, and two periods that precede each other are one.
pub proof fn lemma_period_order(a: Seq<char>, b: Seq<char>)
    ensures
        period_le(a, a),
        period_le(a, b) || period_le(b, a),
        period_le(a, b) && period_le(b, a) ==> a == b,
        !period_le(a, b) ==> period_lt(b, a),
{
    let x = encode_utf8(a);
    let y = encode_utf8(b);
    lemma_bytes_le_reflexive(x);
    lemma_bytes_le_total(x, y);
    if bytes_le(x, y) && bytes_le(y, x) {
        lemma_bytes_le_antisymmetric(x, y);
        encode_utf8_decode_utf8(a);
        encode_utf8_decode_utf8(b);
    }
}

/// The order of periods is transitive.
pub proof fn lemma_period_le_transitive(a: Seq<char>, b: Seq<char>, c: Seq<char>)
    requires
        period_le(a, b),
        period_le(b, c),
    ensures
        period_le(a, c),
        period_lt(a, b) || period_lt(b, c) ==> period_lt(a, c),
{
    lemma_bytes_le_transitive(encode_utf8(a), encode_utf8(b), encode_utf8(c));
    if a == c {
        lemma_period_order(a, b);
    }
}

/// Whether `a` is `b` or comes before it.
pub fn at_most(a: &String, b: &String) -> (r: bool)
    ensures
        r == period_le(a@, b@),
{
    let x = a.as_str().as_bytes();
    let y = b.as_str().as_bytes();
    let mut i: usize = 0;
    proof {
        assert(x@.skip(0) =~= x@);
        assert(y@.skip(0) =~= y@);
    }
    while i < x.len() && i < y.len()
        invariant
            i <= x@.len(),
            i <= y@.len(),
            x@ == encode_utf8(a@),
            y@ == encode_utf8(b@),
            bytes_le(x@, y@) == bytes_le(x@.skip(i as int), y@.skip(i as int)),
        decreases x@.len() - i,
    {
        proof {
            assert(x@.skip(i as int).drop_first() =~= x@.skip(i + 1));
            assert(y@.skip(i as int).drop_first() =~= y@.skip(i + 1));
            assert(x@.skip(i as int)[0] == x@[i as int]);
            assert(y@.skip(i as int)[0] == y@[i as int]);
        }
        if x[i] != y[i] {
            return x[i] < y[i];
        }
        i += 1;
    }
    i == x.len()
}

/// The periods of `periods` in ascending order, each once.
pub fn chronological(periods: &Vec<String>) -> (sorted: Vec<String>)
    ensures
        ascending(texts(sorted@)),
        forall|p: Seq<char>| #[trigger] texts(sorted@).contains(p) <==> texts(periods@).contains(p),
{
    let mut sorted: Vec<String> = Vec::new();
    let mut i: usize = 0;
    while i < periods.len()
        invariant
            i <= periods@.len(),
            ascending(texts(sorted@)),
            forall|p: Seq<char>| #[trigger]
                texts(sorted@).contains(p) <==> texts(periods@.take(i as int)).contains(p),
        decreases periods@.len() - i,
    {
        let period = &periods[i];
        let ghost before = sorted@;
        let mut at: usize = 0;
        while at < sorted.len() && !at_most(period, &sorted[at])
            invariant
                at <= sorted@.len(),
                sorted@ == before,
                forall|j: int| 0 <= j < at ==> period_lt(#[trigger] texts(before)[j], period@),
            decreases sorted@.len() - at,
        {
            proof {
                lemma_period_order(period@, texts(before)[at as int]);
            }
            at += 1;
        }
        let held = at < sorted.len() && sorted[at] == *period;
        if !held {
            sorted.insert(at, period.clone());
        }
        proof {
            let done = texts(periods@.take(i as int));
            let next = texts(periods@.take(i + 1));
            assert(next =~= done.push(period@));
            let old_t = texts(before);
            let new_t = texts(sorted@);
            if held {
                assert(old_t[at as int] == period@);
                assert forall|p: Seq<char>| new_t.contains(p) <==> next.contains(p) by {
                    if next.contains(p) {
                        let j = choose|j: int| 0 <= j < next.len() && next[j] == p;
                        if j < done.len() {
                            assert(done[j] == p);
                        }
                    }
                    if done.contains(p) {
                        let j = choose|j: int| 0 <= j < done.len() && done[j] == p;
                        assert(next[j] == p);
                    }
                }
            } else {
                assert(new_t =~= old_t.insert(at as int, period@));
                assert forall|j: int| at <= j < old_t.len() implies period_lt(
                    period@,
                    #[trigger] old_t[j],
                ) by {
                    assert(period_le(period@, old_t[at as int]));
                    if j > at {
                        assert(period_lt(old_t[at as int], old_t[j]));
                        lemma_period_le_transitive(period@, old_t[at as int], old_t[j]);
                    }
                }
                assert forall|a: int, b: int| 0 <= a < b < new_t.len() implies period_lt(
                    #[trigger] new_t[a],
                    #[trigger] new_t[b],
                ) by {
                    let oa = if a < at { a } else { a - 1 };
                    let ob = if b < at { b } else { b - 1 };
                    if a != at && b != at {
                        assert(new_t[a] == old_t[oa]);
                        assert(new_t[b] == old_t[ob]);
                        assert(period_lt(old_t[oa], old_t[ob]));
                    } else if a == at {
                        assert(new_t[b] == old_t[ob]);
                    } else {
                        assert(new_t[a] == old_t[oa]);
                    }
                }
                assert forall|p: Seq<char>| new_t.contains(p) <==> next.contains(p) by {
                    if new_t.contains(p) {
                        let j = choose|j: int| 0 <= j < new_t.len() && new_t[j] == p;
                        if j == at {
                            assert(next[done.len() as int] == p);
                        } else {
                            let oj = if j < at { j } else { j - 1 };
                            assert(old_t[oj] == p);
                            assert(old_t.contains(p));
                            let d = choose|d: int| 0 <= d < done.len() && done[d] == p;
                            assert(next[d] == p);
                        }
                    }
                    if next.contains(p) {
                        let j = choose|j: int| 0 <= j < next.len() && next[j] == p;
                        if j < done.len() {
                            assert(done[j] == p);
                            assert(old_t.contains(p));
                            let o = choose|o: int| 0 <= o < old_t.len() && old_t[o] == p;
                            let n = if o < at { o } else { o + 1 };
                            assert(new_t[n] == p);
                        } else {
                            assert(new_t[at as int] == p);
                        }
                    }
                }
            }
        }
        i += 1;
    }
    proof {
        assert(periods@.take(i as int) =~= periods@);
    }
    sorted
}

/// Two ascending runs with the same periods are the same run.
pub proof fn lemma_ascending_unique(a: Seq<Seq<char>>, b: Seq<Seq<char>>)
    requires
        ascending(a),
        ascending(b),
        forall|p: Seq<char>| a.contains(p) <==> b.contains(p),
    ensures
        a == b,
    decreases a.len(),
{
    if a.len() == 0 {
        if b.len() > 0 {
            assert(b.contains(b[0]));
        }
        assert(a =~= b);
    } else if b.len() == 0 {
        assert(a.contains(a[0]));
    } else {
        let x = a.last();
        let y = b.last();
        assert(a.contains(x));
        assert(b.contains(y));
        let i = choose|i: int| 0 <= i < b.len() && b[i] == x;
        let j = choose|j: int| 0 <= j < a.len() && a[j] == y;
        // x is at most y and y at most x, as each is the greatest of its run
        assert(period_le(x, y)) by {
            lemma_period_order(x, y);
        }
        assert(period_le(y, x)) by {
            lemma_period_order(y, x);
        }
        lemma_period_order(x, y);
        assert(x == y);
        let fa = a.drop_last();
        let fb = b.drop_last();
        assert forall|p: Seq<char>| fa.contains(p) <==> fb.contains(p) by {
            if fa.contains(p) {
                let k = choose|k: int| 0 <= k < fa.len() && fa[k] == p;
                assert(a[k] == p);
                assert(period_lt(a[k], a[a.len() - 1]));
                assert(b.contains(p));
                let m = choose|m: int| 0 <= m < b.len() && b[m] == p;
                assert(fb[m] == p);
            }
            if fb.contains(p) {
                let k = choose|k: int| 0 <= k < fb.len() && fb[k] == p;
                assert(b[k] == p);
                assert(period_lt(b[k], b[b.len() - 1]));
                assert(a.contains(p));
                let m = choose|m: int| 0 <= m < a.len() && a[m] == p;
                assert(fa[m] == p);
            }
        }
        assert(ascending(fa)) by {
            assert forall|i: int, j: int| 0 <= i < j < fa.len() implies period_lt(
                #[trigger] fa[i],
                #[trigger] fa[j],
            ) by {
                assert(period_lt(a[i], a[j]));
            }
        }
        assert(ascending(fb)) by {
            assert forall|i: int, j: int| 0 <= i < j < fb.len() implies period_lt(
                #[trigger] fb[i],
                #[trigger] fb[j],
            ) by {
                assert(period_lt(b[i], b[j]));
            }
        }
        lemma_ascending_unique(fa, fb);
        assert(a =~= fa.push(x));
        assert(b =~= fb.push(y));
    }
}

/// Whether `list` holds the text of `text`.
pub fn holds_text(list: &Vec<String>, text: &String) -> (held: bool)
    ensures
        held == texts(list@).contains(text@),
{
    let mut i: usize = 0;
    while i < list.len()
        invariant
            i <= list@.len(),
            forall|j: int| 0 <= j < i ==> (#[trigger] texts(list@)[j]) != text@,
        decreases list@.len() - i,
    {
        if list[i] == *text {
            proof {
                assert(texts(list@)[i as int] == text@);
            }
            return true;
        }
        i += 1;
    }
    false
}

/// An ascending run holds no period twice.
pub proof fn lemma_ascending_distinct(periods: Seq<Seq<char>>)
    requires
        ascending(periods),
    ensures
        periods.no_duplicates(),
{
    assert forall|i: int, j: int| 0 <= i < periods.len() && 0 <= j < periods.len() && i
        != j implies periods[i] != periods[j] by {
        if i < j {
            assert(period_lt(periods[i], periods[j]));
        } else {
            assert(period_lt(periods[j], periods[i]));
        }
    }
}

/// The periods seen in a run, each once, in the order in which they came.
pub struct PeriodUniverse {
    pub periods: Vec<String>,
}

impl PeriodUniverse {
    /// The periods held, in the order in which they came.
    pub open spec fn view(&self) -> Seq<Seq<char>> {
        texts(self.periods@)
    }

    /// No period is held twice.
    pub open spec fn wf(&self) -> bool {
        self@.no_duplicates()
    }

    /// The universe that holds no period.
    pub fn new() -> (universe: PeriodUniverse)
        ensures
            universe.wf(),
            universe@ == Seq::<Seq<char>>::empty(),
    {
        let universe = PeriodUniverse { periods: Vec::new() };
        proof {
            assert(universe@ =~= Seq::<Seq<char>>::empty());
        }
        universe
    }

    /// Whether the universe holds `period`.
    pub fn holds(&self, period: &String) -> (held: bool)
        ensures
            held == self@.contains(period@),
    {
        holds_text(&self.periods, period)
    }

    /// Records `period`; one that is held already is neither added nor moved.
    pub fn register(&mut self, period: &String)
        requires
            old(self).wf(),
        ensures
            final(self).wf(),
            final(self)@ == with_key(old(self)@, period@),
    {
        if !self.holds(period) {
            let ghost before = self@;
            self.periods.push(period.clone());
            proof {
                assert(self@ =~= before.push(period@));
            }
        }
    }

    /// The periods in ascending order.
    pub fn chronological(&self) -> (sorted: Vec<String>)
        ensures
            ascending(texts(sorted@)),
            forall|p: Seq<char>| #[trigger] texts(sorted@).contains(p) <==> self@.contains(p),
    {
        chronological(&self.periods)
    }
}

} // verus!
