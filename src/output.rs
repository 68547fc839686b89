//! The placement listing: the number of caches on the first line, then one
//! line per cache with its id and the ids of the videos it stores.

use vstd::prelude::*;
use crate::allocation::Allocation;

verus! {

/// The decimal digits of `n`, most significant first.
pub open spec fn decimal(n: nat) -> Seq<u8>
    decreases n,
{
    if n < 10 {
        seq![(n + 48) as u8]
    } else {
        decimal(n / 10).push((n % 10 + 48) as u8)
    }
}

/// An ASCII decimal digit.
pub open spec fn is_digit(b: u8) -> bool {
    48 <= b <= 57
}

/// Every byte of `s` is a digit.
pub open spec fn all_digits(s: Seq<u8>) -> bool {
    forall|i: int| 0 <= i < s.len() ==> is_digit(#[trigger] s[i])
}

/// The number that the digits `s` spell.
pub open spec fn digits_value(s: Seq<u8>) -> nat
    decreases s.len(),
{
    if s.len() == 0 {
        0
    } else {
        digits_value(s.drop_last()) * 10 + (s.last() - 48) as nat
    }
}

/// The digits of `n` are digits, at least one, and spell `n`.
pub proof fn lemma_decimal(n: nat)
    ensures
        decimal(n).len() > 0,
        all_digits(decimal(n)),
        digits_value(decimal(n)) == n,
    decreases n,
{
    if n >= 10 {
        lemma_decimal(n / 10);
        let d = decimal(n);
        assert(d.drop_last() =~= decimal(n / 10));
        assert forall|i: int| 0 <= i < d.len() implies is_digit(#[trigger] d[i]) by {
            if i < d.len() - 1 {
                assert(d[i] == decimal(n / 10)[i]);
            }
        }
        assert(d.last() == (n % 10 + 48) as u8);
        assert(digits_value(d) == (n / 10) * 10 + n % 10);
    } else {
        let d = decimal(n);
        assert(d.drop_last() =~= Seq::<u8>::empty());
        assert(d.last() == (n + 48) as u8);
        assert(digits_value(d) == digits_value(d.drop_last()) * 10 + (d.last() - 48) as nat);
        assert(digits_value(Seq::<u8>::empty()) == 0);
    }
}

/// A prefix of a digit run spells no more than the whole run.
proof fn lemma_digits_prefix(s: Seq<u8>, k: int)
    requires
        all_digits(s),
        0 <= k <= s.len(),
    ensures
        digits_value(s.take(k)) <= digits_value(s),
    decreases s.len(),
{
    if k < s.len() {
        assert(s.drop_last().take(k) =~= s.take(k));
        assert(all_digits(s.drop_last())) by {
            assert forall|i: int| 0 <= i < s.drop_last().len() implies is_digit(
                #[trigger] s.drop_last()[i],
            ) by {
                assert(s.drop_last()[i] == s[i]);
            }
        }
        lemma_digits_prefix(s.drop_last(), k);
        assert(is_digit(s[s.len() - 1]));
    } else {
        assert(s.take(k) =~= s);
    }
}

/// Reads the run of digits that starts at `pos`. Gives its value and where
/// it ends, or nothing when no digit is at `pos` or the value does not fit
/// in `usize`.
pub fn read_number(text: &Vec<u8>, pos: usize) -> (r: Option<(usize, usize)>)
    requires
        pos <= text@.len(),
    ensures
        r matches Some((v, end)) ==> {
            &&& pos < end <= text@.len()
            &&& all_digits(text@.subrange(pos as int, end as int))
            &&& (end == text@.len() || !is_digit(text@[end as int]))
            &&& v == digits_value(text@.subrange(pos as int, end as int))
        },
        r is None ==> pos == text@.len() || !is_digit(text@[pos as int]) || exists|e: int|
            pos < e <= text@.len() && all_digits(#[trigger] text@.subrange(pos as int, e))
                && digits_value(text@.subrange(pos as int, e)) > usize::MAX,
{
    if pos >= text.len() || text[pos] < 48 || text[pos] > 57 {
        return None;
    }
    let mut v: usize = 0;
    let mut i: usize = pos;
    while i < text.len() && 48 <= text[i] && text[i] <= 57
        invariant
            pos <= i <= text@.len(),
            all_digits(text@.subrange(pos as int, i as int)),
            v == digits_value(text@.subrange(pos as int, i as int)),
        decreases text.len() - i,
    {
        let d = (text[i] - 48) as usize;
        let ghost next = text@.subrange(pos as int, i as int + 1);
        proof {
            assert(next.drop_last() =~= text@.subrange(pos as int, i as int));
            assert forall|j: int| 0 <= j < next.len() implies is_digit(#[trigger] next[j]) by {
                if j < next.len() - 1 {
                    assert(next[j] == text@.subrange(pos as int, i as int)[j]);
                }
            }
        }
        if v > (usize::MAX - d) / 10 {
            proof {
                assert(digits_value(next) > usize::MAX) by (nonlinear_arith)
                    requires
                        digits_value(next) == v * 10 + d,
                        v > (usize::MAX - d) / 10,
                        d <= 9,
                ;
            }
            return None;
        }
        proof {
            assert(v * 10 + d <= usize::MAX) by (nonlinear_arith)
                requires
                    v <= (usize::MAX - d) / 10,
                    d <= 9,
            ;
        }
        v = v * 10 + d;
        i += 1;
    }
    Some((v, i))
}

/// Each video id preceded by a space.
pub open spec fn listing(vids: Seq<usize>) -> Seq<u8>
    decreases vids.len(),
{
    if vids.len() == 0 {
        Seq::empty()
    } else {
        listing(vids.drop_last()) + seq![32u8] + decimal(vids.last() as nat)
    }
}

/// The lines of the first `n` caches.
pub open spec fn lines_upto(stored: Seq<Vec<usize>>, n: int) -> Seq<u8>
    decreases n,
{
    if n <= 0 {
        Seq::empty()
    } else {
        lines_upto(stored, n - 1) + decimal((n - 1) as nat) + listing(stored[n - 1]@) + seq![10u8]
    }
}

/// The whole listing of an allocation.
pub open spec fn rendered(stored: Seq<Vec<usize>>) -> Seq<u8> {
    decimal(stored.len()) + seq![10u8] + lines_upto(stored, stored.len() as int)
}

/// `a` is the beginning of `b`.
pub open spec fn starts(a: Seq<u8>, b: Seq<u8>) -> bool {
    a.len() <= b.len() && b.subrange(0, a.len() as int) == a
}

proof fn lemma_starts_trans(a: Seq<u8>, b: Seq<u8>, c: Seq<u8>)
    requires
        starts(a, b),
        starts(b, c),
    ensures
        starts(a, c),
{
    assert(c.subrange(0, a.len() as int) =~= b.subrange(0, a.len() as int));
}

/// The lines of the first `c` caches begin the lines of the first `n`.
proof fn lemma_lines_start(s: Seq<Vec<usize>>, c: int, n: int)
    requires
        0 <= c <= n,
    ensures
        starts(lines_upto(s, c), lines_upto(s, n)),
    decreases n - c,
{
    if c < n {
        lemma_lines_start(s, c, n - 1);
        let a = lines_upto(s, n - 1);
        let b = lines_upto(s, n);
        assert(b.subrange(0, a.len() as int) =~= a);
        lemma_starts_trans(lines_upto(s, c), a, b);
    } else {
        assert(lines_upto(s, n).subrange(0, lines_upto(s, n).len() as int) =~= lines_upto(s, n));
    }
}

/// The listing of the first `k` videos begins the listing of all of them.
proof fn lemma_listing_start(row: Seq<usize>, k: int)
    requires
        0 <= k <= row.len(),
    ensures
        starts(listing(row.take(k)), listing(row)),
    decreases row.len() - k,
{
    if k < row.len() {
        lemma_listing_start(row, k + 1);
        assert(row.take(k + 1).drop_last() =~= row.take(k));
        let a = listing(row.take(k));
        let b = listing(row.take(k + 1));
        assert(b.subrange(0, a.len() as int) =~= a);
        lemma_starts_trans(a, b, listing(row));
    } else {
        assert(row.take(k) =~= row);
        assert(listing(row).subrange(0, listing(row).len() as int) =~= listing(row));
    }
}

/// Where the listing of `s` puts the line of cache `c`.
pub open spec fn line_start(s: Seq<Vec<usize>>, c: int) -> int {
    (decimal(s.len()).len() + 1 + lines_upto(s, c).len()) as int
}

/// Where the listing of `s` puts the `k`-th video of cache `c`, counting the
/// space before it.
pub open spec fn item_start(s: Seq<Vec<usize>>, c: int, k: int) -> int {
    line_start(s, c) + decimal(c as nat).len() + listing(s[c]@.take(k)).len()
}

/// What a reader finds in the listing of `s` at the start of the line of
/// cache `c`, or at its end after the last line.
proof fn lemma_at_line(s: Seq<Vec<usize>>, c: int)
    requires
        0 <= c <= s.len(),
    ensures
        ({
            let t = rendered(s);
            let p = line_start(s, c);
            &&& t.subrange(0, decimal(s.len()).len() as int) == decimal(s.len())
            &&& t[decimal(s.len()).len() as int] == 10u8
            &&& c == s.len() ==> p == t.len()
            &&& c < s.len() ==> {
                &&& p + decimal(c as nat).len() < t.len()
                &&& t.subrange(p, p + decimal(c as nat).len()) == decimal(c as nat)
                &&& t[p + decimal(c as nat).len()] == 32u8 || t[p + decimal(c as nat).len()]
                    == 10u8
            }
        }),
{
    let t = rendered(s);
    let h = decimal(s.len()) + seq![10u8];
    let n = s.len() as int;
    assert(t.subrange(0, decimal(s.len()).len() as int) =~= decimal(s.len()));
    if c < n {
        lemma_lines_start(s, c + 1, n);
        let row = s[c]@;
        let line = decimal(c as nat) + listing(row) + seq![10u8];
        let all = lines_upto(s, n);
        let upto = lines_upto(s, c + 1);
        assert(upto =~= lines_upto(s, c) + line);
        let p = line_start(s, c);
        let d = decimal(c as nat).len() as int;
        assert(t =~= h + all);
        assert(all.subrange(0, upto.len() as int) == upto);
        assert forall|i: int| 0 <= i < upto.len() implies #[trigger] t[h.len() + i] == upto[i] by {
            assert(all[i] == upto[i]);
        }
        assert(t.subrange(p, p + d) =~= decimal(c as nat)) by {
            assert forall|i: int| 0 <= i < d implies #[trigger] t.subrange(p, p + d)[i] == decimal(
                c as nat,
            )[i] by {
                assert(upto[lines_upto(s, c).len() + i] == line[i]);
            }
        }
        if row.len() == 0 {
            assert(listing(row) =~= Seq::<u8>::empty());
            assert(upto[lines_upto(s, c).len() + d] == line[d]);
        } else {
            lemma_listing_start(row, 1);
            assert(row.take(1).drop_last() =~= Seq::<usize>::empty());
            assert(listing(row.take(1).drop_last()) =~= Seq::<u8>::empty());
            assert(row.take(1).last() == row[0]);
            assert(listing(row.take(1)) =~= seq![32u8] + decimal(row[0] as nat));
            assert(listing(row)[0] == 32u8) by {
                assert(listing(row).subrange(0, listing(row.take(1)).len() as int)[0] == 32u8);
            }
            assert(upto[lines_upto(s, c).len() + d] == line[d]);
        }
    } else {
        assert(t.len() == h.len() + lines_upto(s, n).len());
    }
}

/// The line of cache `c` stands in the listing of `s` at `line_start`.
proof fn lemma_line_in_text(s: Seq<Vec<usize>>, c: int)
    requires
        0 <= c < s.len(),
    ensures
        ({
            let t = rendered(s);
            let line = decimal(c as nat) + listing(s[c]@) + seq![10u8];
            &&& line_start(s, c) + line.len() <= t.len()
            &&& forall|i: int|
                0 <= i < line.len() ==> #[trigger] t[line_start(s, c) + i] == line[i]
        }),
{
    let t = rendered(s);
    let n = s.len() as int;
    let h = decimal(s.len()) + seq![10u8];
    lemma_lines_start(s, c + 1, n);
    let line = decimal(c as nat) + listing(s[c]@) + seq![10u8];
    let all = lines_upto(s, n);
    let upto = lines_upto(s, c + 1);
    assert(upto =~= lines_upto(s, c) + line);
    assert(t =~= h + all);
    assert(all.subrange(0, upto.len() as int) == upto);
    let base = h.len() + lines_upto(s, c).len();
    assert forall|i: int| 0 <= i < line.len() implies #[trigger] t[line_start(s, c) + i]
        == line[i] by {
        assert(all[lines_upto(s, c).len() + i] == upto[lines_upto(s, c).len() + i]);
    }
}

/// Around the `k`-th video in a listing: a space, its digits, then a space
/// or the end.
proof fn lemma_listing_item(row: Seq<usize>, k: int)
    requires
        0 <= k < row.len(),
    ensures
        ({
            let lr = listing(row);
            let p = listing(row.take(k)).len() as int;
            let d = decimal(row[k] as nat);
            &&& p + 1 + d.len() <= lr.len()
            &&& lr[p] == 32u8
            &&& lr.subrange(p + 1, p + 1 + d.len()) == d
            &&& p + 1 + d.len() == lr.len() <==> k + 1 == row.len()
            &&& p + 1 + d.len() < lr.len() ==> lr[p + 1 + d.len()] == 32u8
            &&& listing(row.take(k + 1)).len() == p + 1 + d.len()
        }),
{
    let lr = listing(row);
    lemma_listing_start(row, k + 1);
    assert(row.take(k + 1).drop_last() =~= row.take(k));
    let lk = listing(row.take(k));
    let d = decimal(row[k] as nat);
    let lk1 = listing(row.take(k + 1));
    assert(lk1 =~= lk + seq![32u8] + d);
    assert forall|i: int| 0 <= i < lk1.len() implies #[trigger] lr[i] == lk1[i] by {
        assert(lr.subrange(0, lk1.len() as int)[i] == lk1[i]);
    }
    let p = lk.len() as int;
    assert(lr.subrange(p + 1, p + 1 + d.len()) =~= d) by {
        assert forall|i: int| 0 <= i < d.len() implies #[trigger] lr.subrange(
            p + 1,
            p + 1 + d.len(),
        )[i] == d[i] by {
            assert(lr[lk.len() + 1 + i] == lk1[lk.len() + 1 + i]);
        }
    }
    assert(lr[lk.len() as int] == lk1[lk.len() as int]);
    if k + 1 == row.len() {
        assert(row.take(k + 1) =~= row);
    } else {
        lemma_listing_start(row, k + 2);
        assert(row.take(k + 2).drop_last() =~= row.take(k + 1));
        let lk2 = listing(row.take(k + 2));
        assert(lk2[lk1.len() as int] == 32u8);
        assert(lr[lk1.len() as int] == lk2[lk1.len() as int]) by {
            assert(lr.subrange(0, lk2.len() as int)[lk1.len() as int] == lk2[lk1.len() as int]);
        }
    }
}

/// What a reader finds in the line of cache `c` at the place of its `k`-th
/// video, or at its end.
proof fn lemma_at_item(s: Seq<Vec<usize>>, c: int, k: int)
    requires
        0 <= c < s.len(),
        0 <= k <= s[c]@.len(),
    ensures
        ({
            let t = rendered(s);
            let p = item_start(s, c, k);
            let row = s[c]@;
            &&& p < t.len()
            &&& k == row.len() ==> t[p] == 10u8
            &&& k < row.len() ==> {
                let d = decimal(row[k] as nat);
                &&& t[p] == 32u8
                &&& p + 1 + d.len() < t.len()
                &&& t.subrange(p + 1, p + 1 + d.len()) == d
                &&& t[p + 1 + d.len()] == 32u8 || t[p + 1 + d.len()] == 10u8
                &&& item_start(s, c, k + 1) == p + 1 + d.len()
            }
        }),
{
    let t = rendered(s);
    let row = s[c]@;
    let line = decimal(c as nat) + listing(row) + seq![10u8];
    lemma_line_in_text(s, c);
    let base = line_start(s, c);
    let off = decimal(c as nat).len() as int;
    let lr = listing(row);
    lemma_listing_start(row, k);
    let lk = listing(row.take(k));
    if k == row.len() {
        assert(row.take(k) =~= row);
        let q = off + lk.len();
        assert(t[base + q] == line[q]);
    } else {
        lemma_listing_item(row, k);
        let d = decimal(row[k] as nat);
        let q0 = off + lk.len();
        assert(t[base + q0] == line[q0]);
        let q = q0 + 1;
        assert(t.subrange(base + q, base + q + d.len()) =~= d) by {
            assert forall|i: int| 0 <= i < d.len() implies #[trigger] t.subrange(
                base + q,
                base + q + d.len(),
            )[i] == d[i] by {
                assert(t[base + (q + i)] == line[q + i]);
                let p = lk.len() as int;
                assert(lr.subrange(p + 1, p + 1 + d.len())[i] == d[i]);
            }
        }
        let q2 = q + d.len();
        assert(t[base + q2] == line[q2]);
    }
}

/// Each line takes at least two bytes.
proof fn lemma_lines_len(s: Seq<Vec<usize>>, n: int)
    requires
        0 <= n,
    ensures
        lines_upto(s, n).len() >= 2 * n,
    decreases n,
{
    if n > 0 {
        lemma_lines_len(s, n - 1);
        lemma_decimal((n - 1) as nat);
    }
}

/// Where `text` spells `n` at `pos`, followed by a byte that is no digit,
/// `read_number` returns `n` and the end of its digits.
proof fn lemma_read_run(text: Seq<u8>, pos: int, n: nat, r: Option<(usize, usize)>)
    requires
        0 <= pos,
        pos + decimal(n).len() < text.len(),
        text.subrange(pos, pos + decimal(n).len()) == decimal(n),
        !is_digit(text[pos + decimal(n).len()]),
        n <= usize::MAX,
        r matches Some((v, end)) ==> {
            &&& pos < end <= text.len()
            &&& all_digits(text.subrange(pos, end as int))
            &&& (end == text.len() || !is_digit(text[end as int]))
            &&& v == digits_value(text.subrange(pos, end as int))
        },
        r is None ==> pos == text.len() || !is_digit(text[pos]) || exists|e: int|
            pos < e <= text.len() && all_digits(#[trigger] text.subrange(pos, e))
                && digits_value(text.subrange(pos, e)) > usize::MAX,
    ensures
        r == Some((n as usize, (pos + decimal(n).len()) as usize)),
{
    lemma_decimal(n);
    let d = decimal(n);
    let e0 = pos + d.len();
    assert(text[pos] == d[0]) by {
        assert(text.subrange(pos, e0)[0] == d[0]);
    }
    match r {
        Some((v, e)) => {
            if e > e0 {
                assert(text.subrange(pos, e as int)[e0 - pos] == text[e0]);
            } else if e < e0 {
                assert(text.subrange(pos, e0)[e - pos] == d[e - pos]);
            }
            assert(text.subrange(pos, e as int) == d);
        },
        None => {
            let e = choose|e: int|
                pos < e <= text.len() && all_digits(#[trigger] text.subrange(pos, e))
                    && digits_value(text.subrange(pos, e)) > usize::MAX;
            if e > e0 {
                assert(text.subrange(pos, e)[e0 - pos] == text[e0]);
            }
            assert(text.subrange(pos, e) =~= d.take(e - pos));
            lemma_digits_prefix(d, e - pos);
        },
    }
}

/// Reads a placement listing back into the videos of each cache, in the
/// order listed. A listing written by `render` reads back as what it lists.
pub fn parse_listing(text: &Vec<u8>) -> (r: Option<Vec<Vec<usize>>>)
    ensures
        forall|s: Seq<Vec<usize>>| #[trigger] rendered(s) == text@ ==> {
            &&& r matches Some(rows)
            &&& rows@.len() == s.len()
            &&& forall|j: int| 0 <= j < s.len() ==> (#[trigger] rows@[j])@ == s[j]@
        },
{
    let first = read_number(text, 0);
    let ghost total = text.len();
    proof {
        assert forall|s: Seq<Vec<usize>>| #[trigger] rendered(s) == text@ implies s.len()
            <= usize::MAX && decimal(s.len()).len() < total && first == Some(
            (s.len() as usize, decimal(s.len()).len() as usize),
        ) by {
            lemma_at_line(s, 0);
            lemma_lines_len(s, s.len() as int);
            assert(rendered(s).len() == total);
            lemma_read_run(text@, 0, s.len(), first);
        }
    }
    if first.is_none() {
        return None;
    }
    let (count, mut pos) = first.unwrap();
    if pos >= text.len() || text[pos] != 10 {
        proof {
            assert forall|s: Seq<Vec<usize>>| #[trigger] rendered(s) == text@ implies false by {
                lemma_at_line(s, 0);
            }
        }
        return None;
    }
    pos = pos + 1;
    let mut rows: Vec<Vec<usize>> = Vec::new();
    proof {
        assert forall|s: Seq<Vec<usize>>| #[trigger] rendered(s) == text@ implies {
            &&& count == s.len()
            &&& pos == line_start(s, 0)
        } by {
            assert(lines_upto(s, 0).len() == 0);
        }
    }
    let mut c: usize = 0;
    while c < count
        invariant
            pos <= text@.len(),
            text@.len() <= usize::MAX,
            rows@.len() == c,
            c <= count,
            forall|s: Seq<Vec<usize>>| #[trigger] rendered(s) == text@ ==> {
                &&& count == s.len()
                &&& pos == line_start(s, c as int)
                &&& forall|j: int| 0 <= j < c ==> (#[trigger] rows@[j])@ == s[j]@
            },
        decreases count - c,
    {
        let got = read_number(text, pos);
        let ghost at = pos;
        proof {
            assert forall|s: Seq<Vec<usize>>| #[trigger] rendered(s) == text@ implies pos
                + decimal(c as nat).len() < text@.len() && got == Some(
                (c, (pos + decimal(c as nat).len()) as usize),
            ) by {
                lemma_at_line(s, c as int);
                lemma_read_run(text@, pos as int, c as nat, got);
            }
        }
        if got.is_none() {
            return None;
        }
        let (id, after) = got.unwrap();
        if id != c {
            return None;
        }
        pos = after;
        let mut row: Vec<usize> = Vec::new();
        proof {
            assert forall|s: Seq<Vec<usize>>| #[trigger] rendered(s) == text@ implies {
                &&& pos == item_start(s, c as int, 0)
                &&& row@ == s[c as int]@.take(0)
            } by {
                assert(s[c as int]@.take(0) =~= Seq::<usize>::empty());
                assert(listing(s[c as int]@.take(0)).len() == 0);
            }
        }
        while pos < text.len() && text[pos] == 32
            invariant
                pos <= text@.len(),
                text@.len() <= usize::MAX,
                rows@.len() == c,
                c < count,
                forall|s: Seq<Vec<usize>>| #[trigger] rendered(s) == text@ ==> {
                    &&& count == s.len()
                    &&& row@.len() <= s[c as int]@.len()
                    &&& pos == item_start(s, c as int, row@.len() as int)
                    &&& row@ == s[c as int]@.take(row@.len() as int)
                    &&& forall|j: int| 0 <= j < c ==> (#[trigger] rows@[j])@ == s[j]@
                },
            decreases text.len() - pos,
        {
            let got = read_number(text, pos + 1);
            proof {
                assert forall|s: Seq<Vec<usize>>| #[trigger] rendered(s) == text@ implies {
                    &&& row@.len() < s[c as int]@.len()
                    &&& item_start(s, c as int, row@.len() as int + 1) < text@.len()
                    &&& got == Some(
                        (
                            s[c as int]@[row@.len() as int],
                            item_start(s, c as int, row@.len() as int + 1) as usize,
                        ),
                    )
                } by {
                    lemma_at_item(s, c as int, row@.len() as int);
                    if row@.len() < s[c as int]@.len() {
                        lemma_read_run(
                            text@,
                            pos + 1,
                            s[c as int]@[row@.len() as int] as nat,
                            got,
                        );
                    }
                }
            }
            if got.is_none() {
                return None;
            }
            let (v, end) = got.unwrap();
            let ghost before = row@;
            row.push(v);
            pos = end;
            proof {
                assert forall|s: Seq<Vec<usize>>| #[trigger] rendered(s) == text@ implies row@
                    == s[c as int]@.take(row@.len() as int) by {
                    assert(before == s[c as int]@.take(before.len() as int));
                    assert(row@ =~= s[c as int]@.take(row@.len() as int));
                }
                assert forall|s: Seq<Vec<usize>>| #[trigger] rendered(s) == text@ implies {
                    &&& count == s.len()
                    &&& row@.len() <= s[c as int]@.len()
                    &&& pos == item_start(s, c as int, row@.len() as int)
                    &&& forall|j: int| 0 <= j < c ==> (#[trigger] rows@[j])@ == s[j]@
                } by {
                    assert(row@.len() == before.len() + 1);
                }
            }
        }
        if pos >= text.len() || text[pos] != 10 {
            proof {
                assert forall|s: Seq<Vec<usize>>| #[trigger] rendered(s) == text@ implies false by {
                    lemma_at_item(s, c as int, row@.len() as int);
                }
            }
            return None;
        }
        proof {
            assert forall|s: Seq<Vec<usize>>| #[trigger] rendered(s) == text@ implies {
                &&& row@ == s[c as int]@
                &&& pos + 1 == line_start(s, c + 1)
            } by {
                lemma_at_item(s, c as int, row@.len() as int);
                assert(row@.len() == s[c as int]@.len());
                assert(s[c as int]@.take(row@.len() as int) =~= s[c as int]@);
            }
        }
        pos = pos + 1;
        rows.push(row);
        c += 1;
    }
    if pos != text.len() {
        proof {
            assert forall|s: Seq<Vec<usize>>| #[trigger] rendered(s) == text@ implies false by {
                lemma_at_line(s, c as int);
            }
        }
        return None;
    }
    Some(rows)
}

/// Appends the decimal digits of `n`.
pub fn write_decimal(out: &mut Vec<u8>, n: usize)
    ensures
        final(out)@ == old(out)@ + decimal(n as nat),
    decreases n,
{
    if n >= 10 {
        write_decimal(out, n / 10);
    }
    out.push((n % 10) as u8 + 48);
    proof {
        assert(final(out)@ =~= old(out)@ + decimal(n as nat));
    }
}

/// The listing of `a`, as text bytes.
pub fn render(a: &Allocation) -> (r: Vec<u8>)
    ensures
        r@ == rendered(a.stored@),
{
    let mut out: Vec<u8> = Vec::new();
    write_decimal(&mut out, a.stored.len());
    out.push(10u8);
    let mut c: usize = 0;
    while c < a.stored.len()
        invariant
            c <= a.stored@.len(),
            out@ == decimal(a.stored@.len() as nat) + seq![10u8] + lines_upto(a.stored@, c as int),
        decreases a.stored.len() - c,
    {
        let ghost start = out@;
        write_decimal(&mut out, c);
        let row = &a.stored[c];
        let mut k: usize = 0;
        while k < row.len()
            invariant
                k <= row@.len(),
                row@ == a.stored@[c as int]@,
                out@ == start + decimal(c as nat) + listing(row@.take(k as int)),
            decreases row.len() - k,
        {
            out.push(32u8);
            write_decimal(&mut out, row[k]);
            proof {
                assert(row@.take(k as int + 1).drop_last() =~= row@.take(k as int));
                assert(out@ =~= start + decimal(c as nat) + listing(row@.take(k as int + 1)));
            }
            k += 1;
        }
        out.push(10u8);
        proof {
            assert(row@.take(k as int) =~= row@);
            assert(out@ =~= decimal(a.stored@.len() as nat) + seq![10u8] + lines_upto(
                a.stored@,
                c as int + 1,
            ));
        }
        c += 1;
    }
    out
}

} // verus!
