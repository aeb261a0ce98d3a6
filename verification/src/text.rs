//! Small string helpers shared by the other modules.

use vstd::prelude::*;

verus! {

/// Appends one character to a string (`String::push`).
#[verifier::external_body]
pub(crate) fn push_char(s: &mut String, c: char)
    ensures
        final(s)@ == old(s)@.push(c),
{
    s.push(c);
}

/// The characters of `s`, in order.
pub fn chars_of(s: &str) -> (v: Vec<char>)
    ensures
        v@ == s@,
{
    let mut v: Vec<char> = Vec::new();
    for c in it: s.chars()
        invariant
            v@ == it.seq().take(it.index() as int),
            it.seq() == s@,
    {
        v.push(c);
        proof {
            assert(v@ =~= it.seq().take(it.index() + 1));
        }
    }
    v
}

/// Appends a string to a string.
pub fn append_str(s: &mut String, t: &str)
    ensures
        final(s)@ == old(s)@ + t@,
{
    let v = chars_of(t);
    let mut i: usize = 0;
    while i < v.len()
        invariant
            i <= v.len(),
            v@ == t@,
            s@ == old(s)@ + v@.take(i as int),
        decreases v.len() - i,
    {
        push_char(s, v[i]);
        assert(s@ =~= old(s)@ + v@.take(i + 1));
        i = i + 1;
    }
    assert(v@.take(v.len() as int) =~= v@);
}

/// A string holding the characters of `v[from..to]`.
pub fn string_of_range(v: &Vec<char>, from: usize, to: usize) -> (s: String)
    requires
        from <= to <= v.len(),
    ensures
        s@ == v@.subrange(from as int, to as int),
{
    let mut s = String::new();
    let mut i = from;
    while i < to
        invariant
            from <= i <= to <= v.len(),
            s@ == v@.subrange(from as int, i as int),
        decreases to - i,
    {
        push_char(&mut s, v[i]);
        proof {
            assert(s@ =~= v@.subrange(from as int, i + 1));
        }
        i = i + 1;
    }
    s
}

/// The pieces of `s` between occurrences of `c` (always at least one piece;
/// `str::split` with a character separator).
pub open spec fn split_on(s: Seq<char>, c: char) -> Seq<Seq<char>>
    decreases s.len(),
{
    if s.len() == 0 {
        seq![Seq::empty()]
    } else {
        let r = split_on(s.drop_last(), c);
        if s.last() == c {
            r.push(Seq::empty())
        } else {
            r.update(r.len() - 1, r.last().push(s.last()))
        }
    }
}

/// The pieces joined with `c` between them.
pub open spec fn join_with(xs: Seq<Seq<char>>, c: char) -> Seq<char>
    decreases xs.len(),
{
    if xs.len() == 0 {
        Seq::empty()
    } else if xs.len() == 1 {
        xs[0]
    } else {
        join_with(xs.drop_last(), c) + seq![c] + xs.last()
    }
}

pub proof fn lemma_split_on_len(s: Seq<char>, c: char)
    ensures
        split_on(s, c).len() >= 1,
    decreases s.len(),
{
    if s.len() > 0 {
        lemma_split_on_len(s.drop_last(), c);
    }
}

/// Appending text without the separator extends the last piece.
pub proof fn lemma_split_on_append(s: Seq<char>, b: Seq<char>, c: char)
    requires
        !b.contains(c),
    ensures
        split_on(s + b, c) == split_on(s, c).update(split_on(s, c).len() - 1, split_on(s, c).last() + b),
    decreases b.len(),
{
    lemma_split_on_len(s, c);
    let r = split_on(s, c);
    if b.len() == 0 {
        assert(s + b =~= s);
        assert(r.last() + b =~= r.last());
        assert(r.update(r.len() - 1, r.last()) =~= r);
    } else {
        let b0 = b.drop_last();
        assert(!b0.contains(c)) by {
            if b0.contains(c) {
                let i = choose|i: int| 0 <= i < b0.len() && b0[i] == c;
                assert(b[i] == c);
            }
        }
        lemma_split_on_append(s, b0, c);
        assert((s + b).drop_last() =~= s + b0);
        assert((s + b).last() == b.last());
        assert(b.last() != c) by {
            assert(b[b.len() - 1] == b.last());
        }
        let r0 = split_on(s + b0, c);
        assert(r0 =~= r.update(r.len() - 1, r.last() + b0));
        assert(r0.last() == r.last() + b0);
        assert(r0.last().push(b.last()) =~= r.last() + b);
        assert(r0.update(r0.len() - 1, r0.last().push(b.last())) =~= r.update(r.len() - 1, r.last() + b));
    }
}

/// Splitting what was joined gives the pieces back, when no piece holds the separator.
pub proof fn lemma_split_join(xs: Seq<Seq<char>>, c: char)
    requires
        xs.len() >= 1,
        forall|i: int| 0 <= i < xs.len() ==> !(#[trigger] xs[i]).contains(c),
    ensures
        split_on(join_with(xs, c), c) == xs,
    decreases xs.len(),
{
    if xs.len() == 1 {
        lemma_split_on_append(Seq::empty(), xs[0], c);
        assert(Seq::<char>::empty() + xs[0] =~= xs[0]);
        assert(split_on(Seq::<char>::empty(), c) =~= seq![Seq::<char>::empty()]);
        assert(Seq::<char>::empty() + xs[0] =~= xs[0]);
        assert(seq![Seq::<char>::empty()].update(0, Seq::<char>::empty() + xs[0]) =~= xs);
    } else {
        let a = xs.drop_last();
        lemma_split_join(a, c);
        let j = join_with(a, c);
        let jc = j + seq![c];
        assert(jc.drop_last() =~= j);
        assert(split_on(jc, c) == split_on(j, c).push(Seq::empty()));
        lemma_split_on_append(jc, xs.last(), c);
        assert(join_with(xs, c) == jc + xs.last());
        let r = split_on(jc, c);
        assert(r.last() + xs.last() =~= xs.last());
        assert(r.update(r.len() - 1, r.last() + xs.last()) =~= xs);
    }
}

/// The value of a decimal digit.
pub open spec fn digit_value(c: char) -> int {
    c as int - '0' as int
}

pub open spec fn is_digit(c: char) -> bool {
    '0' <= c && c <= '9'
}

/// The number that a string of decimal digits denotes.
pub open spec fn digits_value(s: Seq<char>) -> nat
    decreases s.len(),
{
    if s.len() == 0 {
        0
    } else {
        (digits_value(s.drop_last()) * 10 + digit_value(s.last())) as nat
    }
}

/// What `u64::from_str` accepts: an optional `+`, then one or more decimal
/// digits denoting a value that fits in 64 bits.
pub open spec fn parse_u64(s: Seq<char>) -> Option<u64> {
    let d = unsigned_part(s);
    if d.len() > 0 && all_digits(d) && digits_value(d) <= u64::MAX {
        Some(digits_value(d) as u64)
    } else {
        None
    }
}

/// `s` without a leading `+`.
pub open spec fn unsigned_part(s: Seq<char>) -> Seq<char> {
    if s.len() > 0 && s[0] == '+' {
        s.drop_first()
    } else {
        s
    }
}

/// Every character of `d` is a decimal digit.
pub open spec fn all_digits(d: Seq<char>) -> bool {
    forall|i: int| 0 <= i < d.len() ==> #[trigger] is_digit(d[i])
}

/// The decimal digit for a value below 10.
pub open spec fn digit_char(d: int) -> char {
    ('0' as int + d) as char
}

/// The decimal form of `n`, without leading zeros (`u64::to_string`).
pub open spec fn decimal(n: nat) -> Seq<char>
    decreases n,
{
    if n < 10 {
        seq![digit_char(n as int)]
    } else {
        decimal(n / 10).push(digit_char((n % 10) as int))
    }
}

/// Whether `char::is_whitespace` holds: the Unicode `White_Space` characters.
pub open spec fn is_whitespace(c: char) -> bool {
    ||| ('\u{9}' <= c && c <= '\u{d}')
    ||| c == ' '
    ||| c == '\u{85}'
    ||| c == '\u{a0}'
    ||| c == '\u{1680}'
    ||| ('\u{2000}' <= c && c <= '\u{200a}')
    ||| c == '\u{2028}'
    ||| c == '\u{2029}'
    ||| c == '\u{202f}'
    ||| c == '\u{205f}'
    ||| c == '\u{3000}'
}

/// `s` without leading whitespace.
pub open spec fn trim_start(s: Seq<char>) -> Seq<char>
    decreases s.len(),
{
    if s.len() > 0 && is_whitespace(s[0]) {
        trim_start(s.drop_first())
    } else {
        s
    }
}

/// `s` without trailing whitespace.
pub open spec fn trim_end(s: Seq<char>) -> Seq<char>
    decreases s.len(),
{
    if s.len() > 0 && is_whitespace(s.last()) {
        trim_end(s.drop_last())
    } else {
        s
    }
}

/// `s` without leading and trailing whitespace (`str::trim`).
pub open spec fn trim(s: Seq<char>) -> Seq<char> {
    trim_end(trim_start(s))
}

/// The ranges of the pieces of `v[from..to]` between occurrences of `c`.
pub fn split_ranges(v: &Vec<char>, from: usize, to: usize, c: char) -> (r: Vec<(usize, usize)>)
    requires
        from <= to <= v.len(),
    ensures
        r@.len() == split_on(v@.subrange(from as int, to as int), c).len(),
        forall|k: int| 0 <= k < r@.len() ==> from <= (#[trigger] r@[k]).0 <= r@[k].1 <= to
            && v@.subrange(r@[k].0 as int, r@[k].1 as int) == split_on(v@.subrange(from as int, to as int), c)[k],
{
    let mut r: Vec<(usize, usize)> = Vec::new();
    let mut start = from;
    let mut i = from;
    while i < to
        invariant
            from <= start <= i <= to <= v.len(),
            ({
                let sp = split_on(v@.subrange(from as int, i as int), c);
                &&& r@.len() + 1 == sp.len()
                &&& forall|k: int| 0 <= k < r@.len() ==> from <= (#[trigger] r@[k]).0 <= r@[k].1 <= i
                    && v@.subrange(r@[k].0 as int, r@[k].1 as int) == sp[k]
                &&& v@.subrange(start as int, i as int) == sp.last()
            }),
        decreases to - i,
    {
        let ghost sp = split_on(v@.subrange(from as int, i as int), c);
        proof {
            assert(v@.subrange(from as int, i + 1).drop_last() =~= v@.subrange(from as int, i as int));
            assert(v@.subrange(from as int, i + 1).last() == v@[i as int]);
        }
        if v[i] == c {
            r.push((start, i));
            start = i + 1;
            proof {
                let sp2 = split_on(v@.subrange(from as int, i + 1), c);
                assert(sp2 == sp.push(Seq::empty()));
                assert(v@.subrange(start as int, i + 1) =~= Seq::<char>::empty());
                assert forall|k: int| 0 <= k < r@.len() implies from <= (#[trigger] r@[k]).0 <= r@[k].1 <= i + 1
                    && v@.subrange(r@[k].0 as int, r@[k].1 as int) == sp2[k] by {
                    if k < r@.len() - 1 {
                        assert(sp2[k] == sp[k]);
                    } else {
                        assert(sp2[k] == sp.last());
                    }
                }
            }
        } else {
            proof {
                let sp2 = split_on(v@.subrange(from as int, i + 1), c);
                assert(sp2 == sp.update(sp.len() - 1, sp.last().push(v@[i as int])));
                assert(v@.subrange(start as int, i + 1) =~= sp.last().push(v@[i as int]));
                assert forall|k: int| 0 <= k < r@.len() implies from <= (#[trigger] r@[k]).0 <= r@[k].1 <= i + 1
                    && v@.subrange(r@[k].0 as int, r@[k].1 as int) == sp2[k] by {
                    assert(sp2[k] == sp[k]);
                }
            }
        }
        i = i + 1;
    }
    let ghost sp = split_on(v@.subrange(from as int, to as int), c);
    r.push((start, to));
    proof {
        assert forall|k: int| 0 <= k < r@.len() implies from <= (#[trigger] r@[k]).0 <= r@[k].1 <= to
            && v@.subrange(r@[k].0 as int, r@[k].1 as int) == sp[k] by {}
    }
    r
}

proof fn lemma_digits_value_prefix(s: Seq<char>, k: int)
    requires
        0 <= k <= s.len(),
        forall|i: int| 0 <= i < s.len() ==> #[trigger] is_digit(s[i]),
    ensures
        digits_value(s.take(k)) <= digits_value(s),
    decreases s.len() - k,
{
    if k < s.len() {
        lemma_digits_value_prefix(s, k + 1);
        assert(s.take(k + 1).drop_last() =~= s.take(k));
        assert(is_digit(s[k]));
    } else {
        assert(s.take(k) =~= s);
    }
}

/// Parses `v[from..to]` as `u64::from_str` does.
pub fn parse_u64_range(v: &Vec<char>, from: usize, to: usize) -> (r: Option<u64>)
    requires
        from <= to <= v.len(),
    ensures
        r == parse_u64(v@.subrange(from as int, to as int)),
{
    let ghost s = v@.subrange(from as int, to as int);
    let mut i = from;
    if i < to && v[i] == '+' {
        i = i + 1;
    }
    let ghost d = v@.subrange(i as int, to as int);
    proof {
        if s.len() > 0 && s[0] == '+' {
            assert(d =~= s.drop_first());
        } else {
            assert(d =~= s);
        }
    }
    if i == to {
        return None;
    }
    let start = i;
    let mut acc: u64 = 0;
    while i < to
        invariant
            from <= start <= i <= to <= v.len(),
            d == v@.subrange(start as int, to as int),
            s == v@.subrange(from as int, to as int),
            d == unsigned_part(s),
            d.len() > 0,
            acc as nat == digits_value(d.take(i - start)),
            forall|j: int| 0 <= j < i - start ==> #[trigger] is_digit(d[j]),
        decreases to - i,
    {
        let ch = v[i];
        proof {
            assert(d[i - start] == ch);
            assert(d.take(i - start + 1).drop_last() =~= d.take(i - start));
            assert(d.take(i - start + 1).last() == ch);
        }
        if !('0' <= ch && ch <= '9') {
            assert(!is_digit(d[i - start]));
            assert(!all_digits(d));
            return None;
        }
        let dv = (ch as u32 - '0' as u32) as u64;
        assert(dv as int == digit_value(ch));
        if acc > (u64::MAX - dv) / 10 {
            proof {
                assert(acc * 10 + dv > u64::MAX) by (nonlinear_arith)
                    requires
                        acc > (u64::MAX - dv) / 10,
                        dv <= 9,
                ;
                assert(digits_value(d.take(i - start + 1)) == digits_value(d.take(i - start)) * 10 + digit_value(ch));
                if all_digits(d) {
                    lemma_digits_value_prefix(d, i - start + 1);
                    assert(digits_value(d) > u64::MAX);
                }
            }
            return None;
        }
        assert(acc * 10 + dv <= u64::MAX) by (nonlinear_arith)
            requires
                acc <= (u64::MAX - dv) / 10,
                dv <= 9,
        ;
        acc = acc * 10 + dv;
        i = i + 1;
    }
    assert(d.take(i - start) =~= d);
    Some(acc)
}

/// The range of `v[from..to]` without leading and trailing whitespace.
pub fn trim_range(v: &Vec<char>, from: usize, to: usize) -> (r: (usize, usize))
    requires
        from <= to <= v.len(),
    ensures
        from <= r.0 <= r.1 <= to,
        v@.subrange(r.0 as int, r.1 as int) == trim(v@.subrange(from as int, to as int)),
{
    let mut a = from;
    while a < to && is_whitespace_char(v[a])
        invariant
            from <= a <= to <= v.len(),
            trim_start(v@.subrange(from as int, to as int)) == trim_start(v@.subrange(a as int, to as int)),
        decreases to - a,
    {
        assert(v@.subrange(a as int, to as int).drop_first() =~= v@.subrange(a + 1, to as int));
        a = a + 1;
    }
    assert(trim_start(v@.subrange(a as int, to as int)) == v@.subrange(a as int, to as int));
    let mut b = to;
    while b > a && is_whitespace_char(v[b - 1])
        invariant
            from <= a <= b <= to <= v.len(),
            trim_end(v@.subrange(a as int, to as int)) == trim_end(v@.subrange(a as int, b as int)),
        decreases b,
    {
        assert(v@.subrange(a as int, b as int).drop_last() =~= v@.subrange(a as int, b - 1));
        b = b - 1;
    }
    (a, b)
}

/// `char::is_whitespace`.
pub fn is_whitespace_char(c: char) -> (r: bool)
    ensures
        r == is_whitespace(c),
{
    ('\u{9}' <= c && c <= '\u{d}') || c == ' ' || c == '\u{85}' || c == '\u{a0}' || c == '\u{1680}'
        || ('\u{2000}' <= c && c <= '\u{200a}') || c == '\u{2028}' || c == '\u{2029}' || c == '\u{202f}'
        || c == '\u{205f}' || c == '\u{3000}'
}

fn digit_char_of(d: u64) -> (c: char)
    requires
        d < 10,
    ensures
        c == digit_char(d as int),
{
    let table: [char; 10] = ['0', '1', '2', '3', '4', '5', '6', '7', '8', '9'];
    assert(table@[d as int] == digit_char(d as int));
    table[d as usize]
}

/// The decimal form of `n` (`u64::to_string`).
pub fn u64_to_decimal(n: u64) -> (r: String)
    ensures
        r@ == decimal(n as nat),
{
    let mut rev: Vec<char> = Vec::new();
    let mut m = n;
    while m >= 10
        invariant
            decimal(n as nat) == decimal(m as nat) + rev@.reverse(),
        decreases m,
    {
        let ghost old_rev = rev@;
        rev.push(digit_char_of(m % 10));
        proof {
            assert(rev@.reverse() =~= seq![digit_char((m % 10) as int)] + old_rev.reverse());
            assert(decimal(m as nat) == decimal((m / 10) as nat).push(digit_char((m % 10) as int)));
            assert(decimal(m as nat) + old_rev.reverse() =~= decimal((m / 10) as nat) + rev@.reverse());
        }
        m = m / 10;
    }
    let mut s = String::new();
    push_char(&mut s, digit_char_of(m));
    let mut k = rev.len();
    while k > 0
        invariant
            k <= rev.len(),
            decimal(n as nat) == decimal(m as nat) + rev@.reverse(),
            m < 10,
            s@ == decimal(m as nat) + rev@.skip(k as int).reverse(),
        decreases k,
    {
        let ghost old_s = s@;
        push_char(&mut s, rev[k - 1]);
        proof {
            assert(rev@.skip(k - 1).reverse() =~= rev@.skip(k as int).reverse().push(rev@[k - 1]));
        }
        k = k - 1;
    }
    assert(rev@.skip(0) =~= rev@);
    s
}

} // verus!
