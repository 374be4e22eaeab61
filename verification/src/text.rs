//! Character-level text handling: splitting on a separator, searching,
//! trimming, and cutting pieces of a `&str` out by character positions.

use vstd::prelude::*;

verus! {

/// The pieces of `s` between the occurrences of `sep`, matched from left to
/// right without overlap, as `str::split` yields them.
pub open spec fn split_seq(s: Seq<char>, sep: Seq<char>) -> Seq<Seq<char>>
    decreases s.len(),
{
    if sep.len() == 0 || s.len() < sep.len() {
        seq![s]
    } else if s.take(sep.len() as int) == sep {
        seq![Seq::<char>::empty()] + split_seq(s.skip(sep.len() as int), sep)
    } else {
        let rest = split_seq(s.skip(1), sep);
        rest.update(0, seq![s[0]] + rest[0])
    }
}

/// Glues `cur` to the front of the first piece of `r`.
pub open spec fn join_front(cur: Seq<char>, r: Seq<Seq<char>>) -> Seq<Seq<char>> {
    r.update(0, cur + r[0])
}

/// The characters of `s` that the index pairs in `ranges` delimit.
pub open spec fn pieces(s: Seq<char>, ranges: Seq<(usize, usize)>) -> Seq<Seq<char>> {
    ranges.map_values(|r: (usize, usize)| s.subrange(r.0 as int, r.1 as int))
}

/// Every range lies in `lo..hi` and is ordered.
pub open spec fn ranges_within(ranges: Seq<(usize, usize)>, lo: int, hi: int) -> bool {
    forall|k: int| 0 <= k < ranges.len() ==> lo <= (#[trigger] ranges[k]).0 <= ranges[k].1 <= hi
}

pub proof fn lemma_split_nonempty(s: Seq<char>, sep: Seq<char>)
    ensures
        split_seq(s, sep).len() >= 1,
    decreases s.len(),
{
    if sep.len() == 0 || s.len() < sep.len() {
    } else if s.take(sep.len() as int) == sep {
        lemma_split_nonempty(s.skip(sep.len() as int), sep);
    } else {
        lemma_split_nonempty(s.skip(1), sep);
    }
}

/// The characters of `s`, in order.
pub fn chars_of(s: &str) -> (v: Vec<char>)
    ensures
        v@ == s@,
{
    let mut v: Vec<char> = Vec::new();
    for c in it: s.chars()
        invariant
            v@ == it.seq().take(it.index()),
    {
        v.push(c);
    }
    v
}


/// Whether `sep` occurs in `s` starting at position `i`.
pub fn matches_at(s: &Vec<char>, i: usize, hi: usize, sep: &Vec<char>) -> (b: bool)
    requires
        i <= hi <= s@.len(),
    ensures
        b == (i + sep@.len() <= hi && s@.subrange(i as int, i + sep@.len()) == sep@),
{
    if sep.len() > hi - i {
        return false;
    }
    let mut j: usize = 0;
    while j < sep.len()
        invariant
            i + sep@.len() <= hi <= s@.len(),
            j <= sep@.len(),
            forall|k: int| 0 <= k < j ==> s@[i + k] == sep@[k],
        decreases sep@.len() - j,
    {
        if s[i + j] != sep[j] {
            assert(s@.subrange(i as int, i + sep@.len())[j as int] != sep@[j as int]);
            return false;
        }
        j = j + 1;
    }
    assert(s@.subrange(i as int, i + sep@.len()) =~= sep@);
    true
}

/// Splits the characters `s[lo..hi]` on `sep`, as `str::split` does, and
/// returns the position range in `s` of each piece.
pub fn split_ranges(s: &Vec<char>, lo: usize, hi: usize, sep: &Vec<char>) -> (res: Vec<(usize, usize)>)
    requires
        lo <= hi <= s@.len(),
        sep@.len() > 0,
    ensures
        pieces(s@, res@) == split_seq(s@.subrange(lo as int, hi as int), sep@),
        ranges_within(res@, lo as int, hi as int),
        res@.len() >= 1,
{
    let k = sep.len();
    let mut out: Vec<(usize, usize)> = Vec::new();
    let mut start = lo;
    let mut i = lo;
    proof {
        assert(s@.subrange(start as int, i as int) =~= Seq::<char>::empty());
        lemma_split_nonempty(s@.subrange(i as int, hi as int), sep@);
        let r = split_seq(s@.subrange(i as int, hi as int), sep@);
        assert(join_front(Seq::<char>::empty(), r) =~= r);
        assert(pieces(s@, out@) + r =~= r);
    }
    loop
        invariant
            lo <= start <= i <= hi <= s@.len(),
            k == sep@.len(),
            k > 0,
            ranges_within(out@, lo as int, start as int),
            split_seq(s@.subrange(lo as int, hi as int), sep@) == pieces(s@, out@) + join_front(
                s@.subrange(start as int, i as int),
                split_seq(s@.subrange(i as int, hi as int), sep@),
            ),
        decreases hi - i,
    {
        let ghost cur = s@.subrange(start as int, i as int);
        let ghost rest = s@.subrange(i as int, hi as int);
        if hi - i < k {
            let ghost old_out = out@;
            out.push((start, hi));
            proof {
                assert(split_seq(rest, sep@) == seq![rest]);
                assert(cur + rest =~= s@.subrange(start as int, hi as int));
                assert(join_front(cur, seq![rest]) =~= seq![s@.subrange(start as int, hi as int)]);
                assert(pieces(s@, out@) =~= pieces(s@, old_out) + seq![s@.subrange(start as int, hi as int)]);
            }
            return out;
        }
        if matches_at(s, i, hi, sep) {
            let ghost old_out = out@;
            out.push((start, i));
            proof {
                let r2 = split_seq(s@.subrange(i + k, hi as int), sep@);
                assert(rest.take(k as int) =~= s@.subrange(i as int, i + k));
                assert(rest.skip(k as int) =~= s@.subrange(i + k, hi as int));
                assert(split_seq(rest, sep@) == seq![Seq::<char>::empty()] + r2);
                lemma_split_nonempty(s@.subrange(i + k, hi as int), sep@);
                assert(s@.subrange((i + k) as int, (i + k) as int) =~= Seq::<char>::empty());
                assert(join_front(Seq::<char>::empty(), r2) =~= r2);
                assert(cur + Seq::<char>::empty() =~= cur);
                assert(join_front(cur, seq![Seq::<char>::empty()] + r2) =~= seq![cur] + r2);
                assert(pieces(s@, out@) =~= pieces(s@, old_out) + seq![cur]);
                assert(pieces(s@, out@) + r2 =~= pieces(s@, old_out) + (seq![cur] + r2));
            }
            i = i + k;
            start = i;
        } else {
            proof {
                let r2 = split_seq(s@.subrange(i + 1, hi as int), sep@);
                assert(rest.take(k as int) =~= s@.subrange(i as int, i + k));
                assert(rest.skip(1) =~= s@.subrange(i + 1, hi as int));
                assert(split_seq(rest, sep@) == r2.update(0, seq![rest[0]] + r2[0]));
                lemma_split_nonempty(s@.subrange(i + 1, hi as int), sep@);
                assert(cur + (seq![rest[0]] + r2[0]) =~= s@.subrange(start as int, i + 1) + r2[0]);
                assert(join_front(cur, r2.update(0, seq![rest[0]] + r2[0])) =~= join_front(
                    s@.subrange(start as int, i + 1),
                    r2,
                ));
            }
            i = i + 1;
        }
    }
}


/// The characters with Unicode's White_Space property, which is what
/// `char::is_whitespace` tests.
pub open spec fn is_ws(c: char) -> bool {
    let n = c as u32;
    ||| 0x09 <= n <= 0x0D
    ||| n == 0x20
    ||| n == 0x85
    ||| n == 0xA0
    ||| n == 0x1680
    ||| 0x2000 <= n <= 0x200A
    ||| n == 0x2028
    ||| n == 0x2029
    ||| n == 0x202F
    ||| n == 0x205F
    ||| n == 0x3000
}

pub fn is_whitespace(c: char) -> (b: bool)
    ensures
        b == is_ws(c),
{
    let n = c as u32;
    (0x09 <= n && n <= 0x0D) || n == 0x20 || n == 0x85 || n == 0xA0 || n == 0x1680 || (0x2000 <= n
        && n <= 0x200A) || n == 0x2028 || n == 0x2029 || n == 0x202F || n == 0x205F || n == 0x3000
}

/// `s` with its trailing whitespace removed, as `str::trim_end` does.
pub open spec fn trim_end_seq(s: Seq<char>) -> Seq<char>
    decreases s.len(),
{
    if s.len() > 0 && is_ws(s.last()) {
        trim_end_seq(s.drop_last())
    } else {
        s
    }
}

/// `s` with its leading whitespace removed, as `str::trim_start` does.
pub open spec fn trim_start_seq(s: Seq<char>) -> Seq<char>
    decreases s.len(),
{
    if s.len() > 0 && is_ws(s[0]) {
        trim_start_seq(s.drop_first())
    } else {
        s
    }
}

/// `s` without its last character, as `String::pop` leaves it.
pub open spec fn pop_seq(s: Seq<char>) -> Seq<char> {
    if s.len() > 0 {
        s.drop_last()
    } else {
        s
    }
}

/// `sep` occurs somewhere in `s`.
pub open spec fn contains_seq(s: Seq<char>, sep: Seq<char>) -> bool {
    exists|i: int| 0 <= i && i + sep.len() <= s.len() && #[trigger] s.subrange(i, i + sep.len()) == sep
}

/// The end of the range `lo..hi` of `s` once trailing whitespace is dropped.
pub fn trim_end_range(s: &Vec<char>, lo: usize, hi: usize) -> (e: usize)
    requires
        lo <= hi <= s@.len(),
    ensures
        lo <= e <= hi,
        s@.subrange(lo as int, e as int) == trim_end_seq(s@.subrange(lo as int, hi as int)),
{
    let mut e = hi;
    while e > lo && is_whitespace(s[e - 1])
        invariant
            lo <= e <= hi <= s@.len(),
            trim_end_seq(s@.subrange(lo as int, e as int)) == trim_end_seq(
                s@.subrange(lo as int, hi as int),
            ),
        decreases e,
    {
        assert(s@.subrange(lo as int, e as int).drop_last() =~= s@.subrange(lo as int, e - 1));
        e = e - 1;
    }
    e
}

/// The start of the range `lo..hi` of `s` once leading whitespace is dropped.
pub fn trim_start_range(s: &Vec<char>, lo: usize, hi: usize) -> (b: usize)
    requires
        lo <= hi <= s@.len(),
    ensures
        lo <= b <= hi,
        s@.subrange(b as int, hi as int) == trim_start_seq(s@.subrange(lo as int, hi as int)),
{
    let mut b = lo;
    while b < hi && is_whitespace(s[b])
        invariant
            lo <= b <= hi <= s@.len(),
            trim_start_seq(s@.subrange(b as int, hi as int)) == trim_start_seq(
                s@.subrange(lo as int, hi as int),
            ),
        decreases hi - b,
    {
        assert(s@.subrange(b as int, hi as int).drop_first() =~= s@.subrange(b + 1, hi as int));
        b = b + 1;
    }
    b
}

/// Whether the characters `s[lo..hi]` are exactly `t`.
pub fn range_eq(s: &Vec<char>, lo: usize, hi: usize, t: &Vec<char>) -> (b: bool)
    requires
        lo <= hi <= s@.len(),
    ensures
        b == (s@.subrange(lo as int, hi as int) == t@),
{
    if hi - lo != t.len() {
        proof {
            if s@.subrange(lo as int, hi as int) == t@ {
                assert(s@.subrange(lo as int, hi as int).len() == t@.len());
            }
        }
        return false;
    }
    matches_at(s, lo, hi, t)
}

/// Whether `sep` occurs in the characters `s[lo..hi]`.
pub fn contains_range(s: &Vec<char>, lo: usize, hi: usize, sep: &Vec<char>) -> (b: bool)
    requires
        lo <= hi <= s@.len(),
    ensures
        b == contains_seq(s@.subrange(lo as int, hi as int), sep@),
{
    let ghost t = s@.subrange(lo as int, hi as int);
    let mut i = lo;
    loop
        invariant
            lo <= i <= hi,
            hi <= s@.len(),
            t == s@.subrange(lo as int, hi as int),
            forall|j: int|
                0 <= j < i - lo && j + sep@.len() <= t.len() ==> #[trigger] t.subrange(j, j + sep@.len())
                    != sep@,
        decreases hi - i,
    {
        if matches_at(s, i, hi, sep) {
            assert(t.subrange(i - lo, i - lo + sep@.len()) =~= s@.subrange(i as int, i + sep@.len()));
            return true;
        }
        proof {
            if i - lo + sep@.len() <= t.len() {
                assert(t.subrange(i - lo, i - lo + sep@.len()) =~= s@.subrange(i as int, i + sep@.len()));
            }
        }
        if i == hi {
            return false;
        }
        i = i + 1;
    }
}

/// The characters `chars@[lo..hi]` of `text` as a new `String`; `chars`
/// holds the characters of `text`.
pub fn string_of(text: &str, chars: &Vec<char>, lo: usize, hi: usize) -> (r: String)
    requires
        chars@ == text@,
        lo <= hi <= chars@.len(),
    ensures
        r@ == chars@.subrange(lo as int, hi as int),
{
    text.substring_char(lo, hi).to_owned()
}


// ----- facts about splitting -----

/// No occurrence of `sep` in `s` starts before position `n`.
pub open spec fn no_match_before(s: Seq<char>, n: int, sep: Seq<char>) -> bool {
    forall|i: int|
        0 <= i < n && i + sep.len() <= s.len() ==> #[trigger] s.subrange(i, i + sep.len()) != sep
}

/// The character `c` does not occur in `s`.
pub open spec fn lacks_char(s: Seq<char>, c: char) -> bool {
    forall|i: int| 0 <= i < s.len() ==> #[trigger] s[i] != c
}

/// A prefix in which no occurrence of the separator starts is glued to the
/// first piece of what follows it.
pub proof fn lemma_split_prefix(a: Seq<char>, t: Seq<char>, sep: Seq<char>)
    requires
        sep.len() > 0,
        no_match_before(a + t, a.len() as int, sep),
    ensures
        split_seq(a + t, sep) == join_front(a, split_seq(t, sep)),
    decreases a.len(),
{
    lemma_split_nonempty(t, sep);
    let s = a + t;
    if a.len() == 0 {
        assert(s =~= t);
        assert(a + split_seq(t, sep)[0] =~= split_seq(t, sep)[0]);
        assert(join_front(a, split_seq(t, sep)) =~= split_seq(t, sep));
    } else if s.len() < sep.len() {
        assert(split_seq(t, sep) == seq![t]);
        assert(join_front(a, seq![t]) =~= seq![s]);
    } else {
        assert(s.subrange(0int, 0int + sep.len()) != sep);
        assert(s.subrange(0, sep.len() as int) =~= s.take(sep.len() as int));
        let a1 = a.skip(1);
        assert(s.skip(1) =~= a1 + t);
        assert forall|i: int| 0 <= i < a1.len() && i + sep.len() <= (a1 + t).len() implies #[trigger] (a1
            + t).subrange(i, i + sep.len()) != sep by {
            assert((a1 + t).subrange(i, i + sep.len()) =~= s.subrange(i + 1, i + 1 + sep.len()));
        }
        lemma_split_prefix(a1, t, sep);
        let r = split_seq(t, sep);
        assert(seq![s[0]] + (a1 + r[0]) =~= a + r[0]);
        assert(join_front(seq![s[0]], join_front(a1, r)) =~= join_front(a, r));
    }
}

/// A text that starts with the separator splits into an empty piece and the
/// pieces of the rest.
pub proof fn lemma_split_sep_first(r: Seq<char>, sep: Seq<char>)
    requires
        sep.len() > 0,
    ensures
        split_seq(sep + r, sep) == seq![Seq::<char>::empty()] + split_seq(r, sep),
{
    let s = sep + r;
    assert(s.take(sep.len() as int) =~= sep);
    assert(s.skip(sep.len() as int) =~= r);
}

/// A piece followed by the separator, in which no occurrence of the
/// separator starts, comes off as the first piece.
pub proof fn lemma_split_piece(a: Seq<char>, r: Seq<char>, sep: Seq<char>)
    requires
        sep.len() > 0,
        no_match_before(a + sep, a.len() as int, sep),
    ensures
        split_seq(a + sep + r, sep) == seq![a] + split_seq(r, sep),
{
    let t = sep + r;
    assert(a + sep + r =~= a + t);
    assert forall|i: int| 0 <= i < a.len() && i + sep.len() <= (a + t).len() implies #[trigger] (a
        + t).subrange(i, i + sep.len()) != sep by {
        assert((a + t).subrange(i, i + sep.len()) =~= (a + sep).subrange(i, i + sep.len()));
    }
    lemma_split_prefix(a, t, sep);
    lemma_split_sep_first(r, sep);
    lemma_split_nonempty(r, sep);
    assert(join_front(a, seq![Seq::<char>::empty()] + split_seq(r, sep)) =~= seq![a] + split_seq(r, sep));
}

/// A text without the separator is one piece.
pub proof fn lemma_split_whole(v: Seq<char>, sep: Seq<char>)
    requires
        sep.len() > 0,
        !contains_seq(v, sep),
    ensures
        split_seq(v, sep) == seq![v],
{
    let e = Seq::<char>::empty();
    assert(v + e =~= v);
    assert forall|i: int| 0 <= i < v.len() && i + sep.len() <= (v + e).len() implies #[trigger] (v
        + e).subrange(i, i + sep.len()) != sep by {
        if (v + e).subrange(i, i + sep.len()) == sep {
            assert(v.subrange(i, i + sep.len()) == sep);
        }
    }
    lemma_split_prefix(v, e, sep);
    assert(split_seq(e, sep) == seq![e]);
    assert(join_front(v, seq![e]) =~= seq![v]);
}

/// Without the separator's first character, no occurrence of it can start
/// within `a`.
pub proof fn lemma_no_match_lacking(a: Seq<char>, t: Seq<char>, sep: Seq<char>)
    requires
        sep.len() > 0,
        lacks_char(a, sep[0]),
    ensures
        no_match_before(a + t, a.len() as int, sep),
{
    assert forall|i: int| 0 <= i < a.len() && i + sep.len() <= (a + t).len() implies #[trigger] (a
        + t).subrange(i, i + sep.len()) != sep by {
        assert((a + t).subrange(i, i + sep.len())[0] == a[i]);
    }
}

/// A text without the separator's first character is one piece.
pub proof fn lemma_split_lacking(v: Seq<char>, sep: Seq<char>)
    requires
        sep.len() > 0,
        lacks_char(v, sep[0]),
    ensures
        split_seq(v, sep) == seq![v],
{
    if contains_seq(v, sep) {
        let i = choose|i: int| 0 <= i && i + sep.len() <= v.len() && #[trigger] v.subrange(i, i + sep.len()) == sep;
        assert(v.subrange(i, i + sep.len())[0] == v[i]);
    }
    lemma_split_whole(v, sep);
}

/// When the text before `t` ends exactly where an occurrence of the
/// separator ends, the pieces of the whole are those of both parts.
pub proof fn lemma_split_append(x: Seq<char>, t: Seq<char>, sep: Seq<char>)
    requires
        sep.len() > 0,
        split_seq(x, sep).last() == Seq::<char>::empty(),
    ensures
        split_seq(x + t, sep) == split_seq(x, sep).drop_last() + split_seq(t, sep),
    decreases x.len(),
{
    lemma_split_nonempty(x, sep);
    lemma_split_nonempty(t, sep);
    let k = sep.len() as int;
    let s = x + t;
    if x.len() == 0 {
        assert(s =~= t);
        assert(split_seq(x, sep).drop_last() + split_seq(t, sep) =~= split_seq(t, sep));
    } else if x.len() < sep.len() {
        assert(split_seq(x, sep) == seq![x]);
    } else if x.take(k) == sep {
        assert(s.take(k) =~= x.take(k));
        assert(s.skip(k) =~= x.skip(k) + t);
        lemma_split_nonempty(x.skip(k), sep);
        lemma_split_append(x.skip(k), t, sep);
        let rx = split_seq(x.skip(k), sep);
        assert(split_seq(x, sep) == seq![Seq::<char>::empty()] + rx);
        assert((seq![Seq::<char>::empty()] + rx).last() == rx.last());
        assert(seq![Seq::<char>::empty()] + (rx.drop_last() + split_seq(t, sep)) =~= (seq![
            Seq::<char>::empty(),
        ] + rx).drop_last() + split_seq(t, sep));
    } else {
        assert(s.take(k) =~= x.take(k));
        assert(s.skip(1) =~= x.skip(1) + t);
        let rx = split_seq(x.skip(1), sep);
        lemma_split_nonempty(x.skip(1), sep);
        assert(split_seq(x, sep) == join_front(seq![x[0]], rx));
        if rx.len() == 1 {
            assert(join_front(seq![x[0]], rx).last() == seq![x[0]] + rx[0]);
            assert((seq![x[0]] + rx[0]).len() > 0);
        } else {
            assert(join_front(seq![x[0]], rx).last() == rx.last());
            lemma_split_append(x.skip(1), t, sep);
            assert(join_front(seq![x[0]], rx.drop_last() + split_seq(t, sep)) =~= join_front(
                seq![x[0]],
                rx,
            ).drop_last() + split_seq(t, sep));
        }
    }
}


/// No piece holds the separator, and the first piece starts the text.
pub proof fn lemma_split_pieces(s: Seq<char>, sep: Seq<char>)
    requires
        sep.len() > 0,
    ensures
        forall|j: int| 0 <= j < split_seq(s, sep).len() ==> !contains_seq(#[trigger] split_seq(s, sep)[j], sep),
        split_seq(s, sep)[0].len() <= s.len(),
        split_seq(s, sep)[0] == s.take(split_seq(s, sep)[0].len() as int),
    decreases s.len(),
{
    let k = sep.len() as int;
    let r = split_seq(s, sep);
    lemma_split_nonempty(s, sep);
    if s.len() < sep.len() {
        assert(r == seq![s]);
        assert(s.take(s.len() as int) =~= s);
        if contains_seq(s, sep) {
            let i = choose|i: int| 0 <= i && i + sep.len() <= s.len() && #[trigger] s.subrange(i, i + sep.len()) == sep;
        }
    } else if s.take(k) == sep {
        let rest = split_seq(s.skip(k), sep);
        lemma_split_pieces(s.skip(k), sep);
        assert(r == seq![Seq::<char>::empty()] + rest);
        assert forall|j: int| 0 <= j < r.len() implies !contains_seq(#[trigger] r[j], sep) by {
            if j == 0 {
                if contains_seq(r[0], sep) {
                    let i = choose|i: int| 0 <= i && i + sep.len() <= r[0].len() && #[trigger] r[0].subrange(i, i + sep.len()) == sep;
                }
            } else {
                assert(r[j] == rest[j - 1]);
            }
        }
        assert(s.take(0) =~= r[0]);
    } else {
        let rest = split_seq(s.skip(1), sep);
        lemma_split_pieces(s.skip(1), sep);
        lemma_split_nonempty(s.skip(1), sep);
        let p0 = seq![s[0]] + rest[0];
        assert(r == rest.update(0, p0));
        assert(rest[0] == s.skip(1).take(rest[0].len() as int));
        assert(p0 =~= s.take(p0.len() as int));
        assert forall|j: int| 0 <= j < r.len() implies !contains_seq(#[trigger] r[j], sep) by {
            if j == 0 {
                if contains_seq(p0, sep) {
                    let i = choose|i: int| 0 <= i && i + sep.len() <= p0.len() && #[trigger] p0.subrange(i, i + sep.len()) == sep;
                    if i == 0 {
                        assert(p0.subrange(0, k) =~= s.take(k));
                    } else {
                        assert(p0.subrange(i, i + sep.len()) =~= rest[0].subrange(i - 1, i - 1 + sep.len()));
                        assert(contains_seq(rest[0], sep));
                    }
                }
            } else {
                assert(r[j] == rest[j]);
            }
        }
    }
}

/// The pieces of a text without the character `c` are without it too.
pub proof fn lemma_split_lacks(s: Seq<char>, sep: Seq<char>, c: char)
    requires
        sep.len() > 0,
        lacks_char(s, c),
    ensures
        forall|j: int| 0 <= j < split_seq(s, sep).len() ==> lacks_char(#[trigger] split_seq(s, sep)[j], c),
    decreases s.len(),
{
    let k = sep.len() as int;
    let r = split_seq(s, sep);
    if s.len() < sep.len() {
    } else if s.take(k) == sep {
        let rest = split_seq(s.skip(k), sep);
        assert(lacks_char(s.skip(k), c)) by {
            assert forall|i: int| 0 <= i < s.skip(k).len() implies #[trigger] s.skip(k)[i] != c by {
                assert(s.skip(k)[i] == s[i + k]);
            }
        }
        lemma_split_lacks(s.skip(k), sep, c);
        assert forall|j: int| 0 <= j < r.len() implies lacks_char(#[trigger] r[j], c) by {
            if j > 0 {
                assert(r[j] == rest[j - 1]);
            }
        }
    } else {
        let rest = split_seq(s.skip(1), sep);
        assert(lacks_char(s.skip(1), c)) by {
            assert forall|i: int| 0 <= i < s.skip(1).len() implies #[trigger] s.skip(1)[i] != c by {
                assert(s.skip(1)[i] == s[i + 1]);
            }
        }
        lemma_split_lacks(s.skip(1), sep, c);
        lemma_split_nonempty(s.skip(1), sep);
        let p0 = seq![s[0]] + rest[0];
        assert forall|j: int| 0 <= j < r.len() implies lacks_char(#[trigger] r[j], c) by {
            if j == 0 {
                assert forall|i: int| 0 <= i < p0.len() implies #[trigger] p0[i] != c by {
                    if i > 0 {
                        assert(p0[i] == rest[0][i - 1]);
                    }
                }
            } else {
                assert(r[j] == rest[j]);
            }
        }
    }
}

/// A text that does not hold the one-character text `t` lacks its character.
pub proof fn lemma_lacks_from_contains(s: Seq<char>, t: Seq<char>)
    requires
        t.len() == 1,
        !contains_seq(s, t),
    ensures
        lacks_char(s, t[0]),
{
    assert forall|i: int| 0 <= i < s.len() implies #[trigger] s[i] != t[0] by {
        if s[i] == t[0] {
            assert(s.subrange(i, i + t.len()) =~= t);
        }
    }
}

/// Trimming the end leaves a prefix that does not end in whitespace.
pub proof fn lemma_trim_end(s: Seq<char>)
    ensures
        trim_end_seq(s).len() <= s.len(),
        trim_end_seq(s) == s.take(trim_end_seq(s).len() as int),
        trim_end_seq(s).len() > 0 ==> !is_ws(trim_end_seq(s).last()),
    decreases s.len(),
{
    if s.len() > 0 && is_ws(s.last()) {
        lemma_trim_end(s.drop_last());
        let t = trim_end_seq(s.drop_last());
        assert(s.drop_last().take(t.len() as int) =~= s.take(t.len() as int));
    } else {
        assert(s.take(s.len() as int) =~= s);
    }
}

/// Trimming the start leaves a suffix; it keeps a last character that is not
/// whitespace.
pub proof fn lemma_trim_start(s: Seq<char>)
    ensures
        trim_start_seq(s).len() <= s.len(),
        trim_start_seq(s) == s.skip(s.len() - trim_start_seq(s).len()),
        s.len() > 0 && !is_ws(s.last()) ==> trim_start_seq(s).len() > 0 && trim_start_seq(s).last() == s.last(),
    decreases s.len(),
{
    if s.len() > 0 && is_ws(s[0]) {
        lemma_trim_start(s.drop_first());
        let t = trim_start_seq(s.drop_first());
        assert(s.drop_first().skip(s.drop_first().len() - t.len()) =~= s.skip(s.len() - t.len()));
        if s.len() > 0 && !is_ws(s.last()) {
            assert(s.len() > 1);
            assert(s.drop_first().last() == s.last());
        }
    } else {
        assert(s.skip(0) =~= s);
    }
}


/// Every piece but the last is followed by the separator in the text, and no
/// occurrence of the separator starts within it.
pub proof fn lemma_split_clean_pieces(s: Seq<char>, sep: Seq<char>)
    requires
        sep.len() > 0,
    ensures
        forall|j: int|
            0 <= j < split_seq(s, sep).len() - 1 ==> no_match_before(
                #[trigger] split_seq(s, sep)[j] + sep,
                split_seq(s, sep)[j].len() as int,
                sep,
            ),
        split_seq(s, sep).len() > 1 ==> split_seq(s, sep)[0].len() + sep.len() <= s.len() && s.subrange(
            split_seq(s, sep)[0].len() as int,
            (split_seq(s, sep)[0].len() + sep.len()) as int,
        ) == sep,
    decreases s.len(),
{
    let k = sep.len() as int;
    let r = split_seq(s, sep);
    lemma_split_nonempty(s, sep);
    lemma_split_pieces(s, sep);
    if s.len() < sep.len() {
    } else if s.take(k) == sep {
        let rest = split_seq(s.skip(k), sep);
        lemma_split_clean_pieces(s.skip(k), sep);
        lemma_split_nonempty(s.skip(k), sep);
        assert(r == seq![Seq::<char>::empty()] + rest);
        assert forall|j: int| 0 <= j < r.len() - 1 implies no_match_before(
            #[trigger] r[j] + sep,
            r[j].len() as int,
            sep,
        ) by {
            if j > 0 {
                assert(r[j] == rest[j - 1]);
            }
        }
        assert(s.subrange(0, k) =~= s.take(k));
    } else {
        let rest = split_seq(s.skip(1), sep);
        lemma_split_clean_pieces(s.skip(1), sep);
        lemma_split_pieces(s.skip(1), sep);
        lemma_split_nonempty(s.skip(1), sep);
        let p0 = seq![s[0]] + rest[0];
        assert(r == rest.update(0, p0));
        assert(rest[0] == s.skip(1).take(rest[0].len() as int));
        assert(p0 =~= s.take(p0.len() as int));
        if rest.len() > 1 {
            assert(s.skip(1).subrange(rest[0].len() as int, (rest[0].len() + k) as int) =~= s.subrange(
                p0.len() as int,
                (p0.len() + k) as int,
            ));
            assert(p0 + sep =~= s.take((p0.len() + k) as int));
        }
        assert forall|j: int| 0 <= j < r.len() - 1 implies no_match_before(
            #[trigger] r[j] + sep,
            r[j].len() as int,
            sep,
        ) by {
            if j == 0 {
                assert forall|i: int| 0 <= i < p0.len() && i + sep.len() <= (p0 + sep).len() implies #[trigger] (p0
                    + sep).subrange(i, i + sep.len()) != sep by {
                    if i == 0 {
                        assert((p0 + sep).subrange(0, k) =~= s.take(k));
                    } else {
                        assert((p0 + sep).subrange(i, i + sep.len()) =~= (rest[0] + sep).subrange(
                            i - 1,
                            i - 1 + sep.len(),
                        ));
                    }
                }
            } else {
                assert(r[j] == rest[j]);
            }
        }
    }
}

} // verus!
