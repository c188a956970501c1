//! Reordering the digits written before a group letter does not change the
//! tile set that a text denotes.
use crate::tile::{add_digits, digit_char, digit_value, parse_prefix, parse_step, parsed};
use vstd::prelude::*;

verus! {

/// Number of entries of `ds` equal to `v`.
pub open spec fn occ(ds: Seq<u8>, v: int) -> int
    decreases ds.len(),
{
    if ds.len() == 0 {
        0
    } else {
        occ(ds.drop_last(), v) + if ds.last() == v {
            1int
        } else {
            0
        }
    }
}

/// Waiting digits that the group starting at kind `base` can take: none above
/// `limit`, and no kind beyond four copies.
pub open spec fn digits_fit(c: Seq<u8>, ds: Seq<u8>, base: int, limit: int) -> bool {
    &&& forall|v: int| limit < v <= 9 ==> occ(ds, v) == 0
    &&& forall|v: int| 1 <= v <= limit ==> c[base + v - 1] + occ(ds, v) <= 4
}

/// The counters after the group starting at `base` takes the digits `ds`.
pub open spec fn with_digits(c: Seq<u8>, ds: Seq<u8>, base: int) -> Seq<u8> {
    Seq::new(
        c.len(),
        |k: int|
            if base <= k < base + 9 {
                (c[k] + occ(ds, k - base + 1)) as u8
            } else {
                c[k]
            },
    )
}

proof fn lemma_add_digits_by_counts(c: Seq<u8>, ds: Seq<u8>, base: int, limit: int)
    requires
        c.len() == 34,
        0 <= base,
        base + limit <= 34,
        1 <= limit <= 9,
        forall|k: int| 0 <= k < 34 ==> c[k] <= 4,
        forall|j: int| 0 <= j < ds.len() ==> 1 <= #[trigger] ds[j] <= 9,
    ensures
        add_digits(c, ds, base, limit) == if digits_fit(c, ds, base, limit) {
            Some(with_digits(c, ds, base))
        } else {
            None
        },
    decreases ds.len(),
{
    if ds.len() == 0 {
        assert(with_digits(c, ds, base) =~= c);
    } else {
        let d = ds.drop_last();
        let x = ds.last();
        lemma_add_digits_by_counts(c, d, base, limit);
        lemma_occ_nonneg(d);
        assert forall|v: int| #[trigger] occ(ds, v) == occ(d, v) + if x == v { 1int } else { 0 } by {}
        if !digits_fit(c, d, base, limit) {
            if exists|v: int| limit < v <= 9 && occ(d, v) != 0 {
                let v = choose|v: int| limit < v <= 9 && occ(d, v) != 0;
                assert(occ(ds, v) != 0);
            } else {
                let v = choose|v: int| 1 <= v <= limit && !(c[base + v - 1] + occ(d, v) <= 4);
                assert(!(c[base + v - 1] + occ(ds, v) <= 4));
            }
        } else {
            let c1 = with_digits(c, d, base);
            let k = base + x - 1;
            if x > limit {
                assert(occ(ds, x as int) != 0);
            } else {
                assert(c[base + x - 1] + occ(d, x as int) <= 4);
                assert(c1[k] == c[k] + occ(d, x as int));
                if c1[k] >= 4 {
                    assert(!(c[base + x - 1] + occ(ds, x as int) <= 4));
                } else {
                    assert(digits_fit(c, ds, base, limit));
                    assert(c1.update(k, (c1[k] + 1) as u8) =~= with_digits(c, ds, base));
                }
            }
        }
    }
}

proof fn lemma_occ_nonneg(ds: Seq<u8>)
    ensures
        forall|v: int| #[trigger] occ(ds, v) >= 0,
    decreases ds.len(),
{
    if ds.len() > 0 {
        lemma_occ_nonneg(ds.drop_last());
        assert forall|v: int| #[trigger] occ(ds, v) >= 0 by {
            assert(occ(ds.drop_last(), v) >= 0);
        }
    }
}

/// Two parser states that differ at most in the order of their waiting digits.
pub open spec fn same_state(x: Option<(Seq<u8>, Seq<u8>)>, y: Option<(Seq<u8>, Seq<u8>)>) -> bool {
    match (x, y) {
        (None, None) => true,
        (Some((c1, d1)), Some((c2, d2))) => c1 == c2 && d1.len() == d2.len() && forall|v: int|
            #![trigger occ(d1, v)]
            #![trigger occ(d2, v)]
            occ(d1, v) == occ(d2, v),
        _ => false,
    }
}

/// A parser state that reading can reach: 34 counters of at most four, and
/// waiting digits from 1 to 9.
pub open spec fn sane(x: Option<(Seq<u8>, Seq<u8>)>) -> bool {
    match x {
        None => true,
        Some((c, d)) => c.len() == 34 && (forall|k: int| 0 <= k < 34 ==> c[k] <= 4) && forall|j: int|
            0 <= j < d.len() ==> 1 <= #[trigger] d[j] <= 9,
    }
}

/// One parser step from a state, `None` staying `None`.
pub open spec fn step(x: Option<(Seq<u8>, Seq<u8>)>, ch: char) -> Option<(Seq<u8>, Seq<u8>)> {
    match x {
        Some((c, d)) => parse_step(c, d, ch),
        None => None,
    }
}

proof fn lemma_letter(c: Seq<u8>, d1: Seq<u8>, d2: Seq<u8>, base: int, limit: int)
    requires
        c.len() == 34,
        forall|k: int| 0 <= k < 34 ==> c[k] <= 4,
        forall|j: int| 0 <= j < d1.len() ==> 1 <= #[trigger] d1[j] <= 9,
        forall|j: int| 0 <= j < d2.len() ==> 1 <= #[trigger] d2[j] <= 9,
        forall|v: int| #![trigger occ(d1, v)] #![trigger occ(d2, v)] occ(d1, v) == occ(d2, v),
        0 <= base,
        base + limit <= 34,
        1 <= limit <= 9,
    ensures
        add_digits(c, d1, base, limit) == add_digits(c, d2, base, limit),
        add_digits(c, d1, base, limit) matches Some(n) ==> n.len() == 34 && forall|k: int|
            0 <= k < 34 ==> n[k] <= 4,
{
    lemma_add_digits_by_counts(c, d1, base, limit);
    lemma_add_digits_by_counts(c, d2, base, limit);
    assert(digits_fit(c, d1, base, limit) == digits_fit(c, d2, base, limit));
    assert(with_digits(c, d1, base) =~= with_digits(c, d2, base));
    if digits_fit(c, d1, base, limit) {
        let n = with_digits(c, d1, base);
        lemma_occ_nonneg(d1);
        assert forall|k: int| 0 <= k < 34 implies n[k] <= 4 by {
            if base <= k < base + 9 {
                let v = k - base + 1;
                if v > limit {
                    assert(occ(d1, v) == 0);
                } else {
                    assert(c[base + v - 1] + occ(d1, v) <= 4);
                }
            }
        }
    }
}

/// A step keeps states sane, and states that differ only in the order of
/// their waiting digits stay so.
proof fn lemma_step(x: Option<(Seq<u8>, Seq<u8>)>, y: Option<(Seq<u8>, Seq<u8>)>, ch: char)
    requires
        sane(x),
        sane(y),
        same_state(x, y),
    ensures
        sane(step(x, ch)),
        same_state(step(x, ch), step(y, ch)),
{
    match (x, y) {
        (Some((c, d1)), Some((_, d2))) => {
            if '1' <= ch <= '9' {
                let dv = digit_value(ch);
                assert(1 <= dv <= 9);
                assert forall|v: int| #[trigger] occ(d1.push(dv), v) == occ(d2.push(dv), v) by {
                    assert(d1.push(dv).drop_last() == d1);
                    assert(d2.push(dv).drop_last() == d2);
                    assert(occ(d1, v) == occ(d2, v));
                }
                assert(forall|j: int| 0 <= j < d1.len() ==> 1 <= #[trigger] d1[j] <= 9);
                assert forall|j: int| 0 <= j < d1.push(dv).len() implies 1 <= #[trigger] d1.push(dv)[j] <= 9 by {
                    if j < d1.len() {
                        assert(d1.push(dv)[j] == d1[j]);
                    }
                }
            } else if ch == 'm' || ch == 'p' || ch == 's' || ch == 'z' {
                let base = if ch == 'm' {
                    0
                } else if ch == 'p' {
                    9
                } else if ch == 's' {
                    18
                } else {
                    27
                };
                let limit = if ch == 'z' {
                    7
                } else {
                    9
                };
                lemma_letter(c, d1, d2, base, limit);
            }
        },
        _ => {},
    }
}

proof fn lemma_sane_prefix(t: Seq<char>, i: int)
    ensures
        sane(parse_prefix(t, i)),
    decreases i,
{
    if i > 0 {
        lemma_sane_prefix(t, i - 1);
        let x = parse_prefix(t, i - 1);
        lemma_step(x, x, t[i - 1]);
    }
}

proof fn lemma_same_prefix(t1: Seq<char>, t2: Seq<char>, i: int)
    requires
        0 <= i <= t1.len(),
        i <= t2.len(),
        t1.subrange(0, i) == t2.subrange(0, i),
    ensures
        parse_prefix(t1, i) == parse_prefix(t2, i),
    decreases i,
{
    if i > 0 {
        assert(t1.subrange(0, i - 1) =~= t1.subrange(0, i).subrange(0, i - 1));
        assert(t2.subrange(0, i - 1) =~= t2.subrange(0, i).subrange(0, i - 1));
        assert(t1[i - 1] == t1.subrange(0, i)[i - 1]);
        assert(t2[i - 1] == t2.subrange(0, i)[i - 1]);
        lemma_same_prefix(t1, t2, i - 1);
    }
}

/// The values of a run of digit characters.
pub open spec fn digit_values(d: Seq<char>) -> Seq<u8> {
    Seq::new(d.len(), |j: int| digit_value(d[j]))
}

proof fn lemma_digits_read(t: Seq<char>, start: int, d: Seq<char>, j: int)
    requires
        0 <= start,
        0 <= j <= d.len(),
        start + d.len() <= t.len(),
        t.subrange(start, start + d.len()) == d,
        forall|i: int| 0 <= i < d.len() ==> '1' <= #[trigger] d[i] <= '9',
    ensures
        parse_prefix(t, start + j) == match parse_prefix(t, start) {
            Some((c, ds)) => Some((c, ds + digit_values(d.subrange(0, j)))),
            None => None,
        },
    decreases j,
{
    if j > 0 {
        lemma_digits_read(t, start, d, j - 1);
        assert(t[start + j - 1] == d[j - 1]);
        assert(digit_values(d.subrange(0, j)) =~= digit_values(d.subrange(0, j - 1)).push(
            digit_value(d[j - 1]),
        ));
        match parse_prefix(t, start) {
            Some((c, ds)) => {
                assert(ds + digit_values(d.subrange(0, j)) =~= (ds + digit_values(d.subrange(0, j - 1))).push(
                    digit_value(d[j - 1]),
                ));
            },
            None => {},
        }
    } else {
        match parse_prefix(t, start) {
            Some((c, ds)) => {
                assert(ds + digit_values(d.subrange(0, 0)) =~= ds);
            },
            None => {},
        }
    }
}

proof fn lemma_occ_append(a: Seq<u8>, b: Seq<u8>, v: int)
    ensures
        occ(a + b, v) == occ(a, v) + occ(b, v),
    decreases b.len(),
{
    if b.len() > 0 {
        assert((a + b).drop_last() =~= a + b.drop_last());
        lemma_occ_append(a, b.drop_last(), v);
    } else {
        assert(a + b =~= a);
    }
}

proof fn lemma_occ_values(d: Seq<char>, v: int)
    requires
        forall|i: int| 0 <= i < d.len() ==> '1' <= #[trigger] d[i] <= '9',
    ensures
        occ(digit_values(d), v) == if 1 <= v <= 9 {
            d.to_multiset().count(digit_char(v))
        } else {
            0
        },
    decreases d.len(),
{
    broadcast use vstd::seq_lib::group_to_multiset_ensures;
    if d.len() > 0 {
        let p = d.drop_last();
        lemma_occ_values(p, v);
        assert(digit_values(d).drop_last() =~= digit_values(p));
        assert(d =~= p.push(d.last()));
        let ch = d.last();
        assert(digit_value(ch) == v <==> (1 <= v <= 9 && ch == digit_char(v)));
    }
}

/// Reordering the digits written in one run, before their group letter,
/// gives the same tile set: `parsed` depends on which digits a run holds,
/// not on their order.
pub proof fn lemma_parse_digit_order_free(a: Seq<char>, d1: Seq<char>, d2: Seq<char>, b: Seq<char>)
    requires
        forall|i: int| 0 <= i < d1.len() ==> '1' <= #[trigger] d1[i] <= '9',
        forall|i: int| 0 <= i < d2.len() ==> '1' <= #[trigger] d2[i] <= '9',
        d1.to_multiset() == d2.to_multiset(),
    ensures
        parsed(a + d1 + b) == parsed(a + d2 + b),
{
    broadcast use vstd::seq_lib::group_to_multiset_ensures;
    let t1 = a + d1 + b;
    let t2 = a + d2 + b;
    let la = a.len() as int;
    assert(d1.len() == d2.len()) by {
        vstd::seq_lib::to_multiset_len(d1);
        vstd::seq_lib::to_multiset_len(d2);
    }
    let m = d1.len() as int;
    assert(t1.subrange(0, la) =~= t2.subrange(0, la));
    lemma_same_prefix(t1, t2, la);
    assert(t1.subrange(la, la + m) =~= d1);
    assert(t2.subrange(la, la + m) =~= d2);
    lemma_digits_read(t1, la, d1, m);
    lemma_digits_read(t2, la, d2, m);
    assert(d1.subrange(0, m) =~= d1);
    assert(d2.subrange(0, m) =~= d2);
    match parse_prefix(t1, la) {
        Some((c, ds)) => {
            assert forall|v: int| #[trigger] occ(ds + digit_values(d1), v) == occ(ds + digit_values(d2), v) by {
                lemma_occ_append(ds, digit_values(d1), v);
                lemma_occ_append(ds, digit_values(d2), v);
                lemma_occ_values(d1, v);
                lemma_occ_values(d2, v);
            }
        },
        None => {},
    }
    assert(same_state(parse_prefix(t1, la + m), parse_prefix(t2, la + m)));
    lemma_same_after(t1, t2, la + m);
}

proof fn lemma_same_after(t1: Seq<char>, t2: Seq<char>, i: int)
    requires
        t1.len() == t2.len(),
        0 <= i <= t1.len(),
        forall|j: int| i <= j < t1.len() ==> t1[j] == t2[j],
        same_state(parse_prefix(t1, i), parse_prefix(t2, i)),
    ensures
        parsed(t1) == parsed(t2),
    decreases t1.len() - i,
{
    lemma_sane_prefix(t1, i);
    lemma_sane_prefix(t2, i);
    if i < t1.len() {
        lemma_step(parse_prefix(t1, i), parse_prefix(t2, i), t1[i]);
        assert(parse_prefix(t1, i + 1) == step(parse_prefix(t1, i), t1[i]));
        assert(parse_prefix(t2, i + 1) == step(parse_prefix(t2, i), t2[i]));
        lemma_same_after(t1, t2, i + 1);
    } else {
        match (parse_prefix(t1, i), parse_prefix(t2, i)) {
            (Some((c1, d1)), Some((c2, d2))) => {
                assert(d1.len() == d2.len());
            },
            _ => {},
        }
    }
}

} // verus!
