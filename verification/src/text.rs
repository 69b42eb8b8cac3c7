//! Character-level helpers shared by the version and dependency parsers:
//! whitespace, digits, searching, trimming, and decimal rendering.

use vstd::prelude::*;

verus! {

/// Relies on `String::push`: appends the given character to the end of the
/// string.
pub assume_specification[ String::push ](s: &mut String, c: char)
    ensures
        final(s)@ == old(s)@.push(c),
;

/// The Unicode `White_Space` characters, the set that `char::is_whitespace`
/// recognises.
pub open spec fn is_space(c: char) -> bool {
    c == ' ' || c == '\t' || c == '\n' || c == '\r' || c == '\u{b}' || c == '\u{c}' || c == '\u{85}'
        || c == '\u{a0}' || c == '\u{1680}' || ('\u{2000}' <= c && c <= '\u{200a}') || c
        == '\u{2028}' || c == '\u{2029}' || c == '\u{202f}' || c == '\u{205f}' || c == '\u{3000}'
}

/// Decides `is_space` at run time.
pub(crate) fn is_space_char(c: char) -> (r: bool)
    ensures
        r == is_space(c),
{
    c == ' ' || c == '\t' || c == '\n' || c == '\r' || c == '\u{b}' || c == '\u{c}' || c == '\u{85}'
        || c == '\u{a0}' || c == '\u{1680}' || ('\u{2000}' <= c && c <= '\u{200a}') || c
        == '\u{2028}' || c == '\u{2029}' || c == '\u{202f}' || c == '\u{205f}' || c == '\u{3000}'
}

/// An ASCII decimal digit.
pub open spec fn is_digit(c: char) -> bool {
    '0' <= c && c <= '9'
}

/// Decides `is_digit` at run time.
pub(crate) fn is_digit_char(c: char) -> (r: bool)
    ensures
        r == is_digit(c),
{
    '0' <= c && c <= '9'
}

/// The numeric value of an ASCII decimal digit.
pub open spec fn digit_val(c: char) -> u64
    recommends
        is_digit(c),
{
    (c as u64 - '0' as u64) as u64
}

/// The index of the first occurrence of `c` in `s`, if any.
pub open spec fn find_char(s: Seq<char>, c: char) -> Option<int>
    decreases s.len(),
{
    if s.len() == 0 {
        None
    } else if s[0] == c {
        Some(0int)
    } else {
        match find_char(s.drop_first(), c) {
            None => None,
            Some(i) => Some(i + 1),
        }
    }
}

/// The index of the last occurrence of `c` in `s`, if any.
pub open spec fn rfind_char(s: Seq<char>, c: char) -> Option<int>
    decreases s.len(),
{
    if s.len() == 0 {
        None
    } else if s[s.len() - 1] == c {
        Some(s.len() - 1)
    } else {
        rfind_char(s.drop_last(), c)
    }
}

/// What `find_char` returns: the first index holding `c`.
pub proof fn lemma_find_char(s: Seq<char>, c: char)
    ensures
        match find_char(s, c) {
            Some(i) => 0 <= i < s.len() && s[i] == c && forall|j: int| 0 <= j < i ==> s[j] != c,
            None => forall|j: int| 0 <= j < s.len() ==> s[j] != c,
        },
    decreases s.len(),
{
    if s.len() > 0 && s[0] != c {
        lemma_find_char(s.drop_first(), c);
        assert(forall|j: int| 1 <= j < s.len() ==> s[j] == s.drop_first()[j - 1]);
    }
}

/// What `rfind_char` returns: the last index holding `c`.
pub proof fn lemma_rfind_char(s: Seq<char>, c: char)
    ensures
        match rfind_char(s, c) {
            Some(i) => 0 <= i < s.len() && s[i] == c && forall|j: int|
                i < j < s.len() ==> s[j] != c,
            None => forall|j: int| 0 <= j < s.len() ==> s[j] != c,
        },
    decreases s.len(),
{
    if s.len() > 0 && s[s.len() - 1] != c {
        lemma_rfind_char(s.drop_last(), c);
        assert(forall|j: int| 0 <= j < s.len() - 1 ==> s[j] == s.drop_last()[j]);
    }
}

/// A position whose character is `c`, with none before it, is where
/// `find_char` points.
pub proof fn lemma_find_char_is(s: Seq<char>, c: char, i: int)
    requires
        0 <= i < s.len(),
        s[i] == c,
        forall|j: int| 0 <= j < i ==> s[j] != c,
    ensures
        find_char(s, c) == Some(i),
{
    lemma_find_char(s, c);
    match find_char(s, c) {
        Some(k) => {
            if k < i {
                assert(s[k] != c);
            } else if k > i {
                assert(s[i] != c);
            }
        },
        None => {
            assert(s[i] != c);
        },
    }
}

/// A position whose character is `c`, with none after it, is where
/// `rfind_char` points.
pub proof fn lemma_rfind_char_is(s: Seq<char>, c: char, i: int)
    requires
        0 <= i < s.len(),
        s[i] == c,
        forall|j: int| i < j < s.len() ==> s[j] != c,
    ensures
        rfind_char(s, c) == Some(i),
{
    lemma_rfind_char(s, c);
    match rfind_char(s, c) {
        Some(k) => {
            if k < i {
                assert(s[i] != c);
            } else if k > i {
                assert(s[k] != c);
            }
        },
        None => {
            assert(s[i] != c);
        },
    }
}

/// Where no position holds `c`, `find_char` and `rfind_char` find nothing.
pub proof fn lemma_find_char_absent(s: Seq<char>, c: char)
    requires
        forall|j: int| 0 <= j < s.len() ==> s[j] != c,
    ensures
        find_char(s, c) is None,
        rfind_char(s, c) is None,
{
    lemma_find_char(s, c);
    lemma_rfind_char(s, c);
    if find_char(s, c) is Some {
        let k = find_char(s, c)->0;
        assert(s[k] != c);
    }
    if rfind_char(s, c) is Some {
        let k = rfind_char(s, c)->0;
        assert(s[k] != c);
    }
}

/// Finds the first occurrence of `c` in `s` at run time.
pub(crate) fn find_char_str(s: &str, c: char) -> (r: Option<usize>)
    ensures
        match r {
            Some(i) => find_char(s@, c) == Some(i as int),
            None => find_char(s@, c) is None,
        },
{
    let n = s.unicode_len();
    proof {
        assert(s@.skip(0int) =~= s@);
    }
    let mut i: usize = 0;
    while i < n
        invariant
            0 <= i <= n,
            n == s@.len(),
            find_char(s@, c) == match find_char(s@.skip(i as int), c) {
                None => None::<int>,
                Some(k) => Some(k + i),
            },
        decreases n - i,
    {
        let ch = s.get_char(i);
        proof {
            assert(s@.skip(i as int).len() > 0);
            assert(s@.skip(i as int)[0] == s@[i as int]);
            assert(s@.skip(i as int).drop_first() =~= s@.skip(i + 1));
        }
        if ch == c {
            return Some(i);
        }
        i += 1;
    }
    proof {
        assert(s@.skip(n as int) =~= Seq::<char>::empty());
    }
    None
}

/// Finds the last occurrence of `c` in `s` at run time.
pub(crate) fn rfind_char_str(s: &str, c: char) -> (r: Option<usize>)
    ensures
        match r {
            Some(i) => rfind_char(s@, c) == Some(i as int),
            None => rfind_char(s@, c) is None,
        },
{
    let n = s.unicode_len();
    proof {
        assert(s@.take(n as int) =~= s@);
    }
    let mut j: usize = n;
    while j > 0
        invariant
            0 <= j <= n,
            n == s@.len(),
            rfind_char(s@, c) == rfind_char(s@.take(j as int), c),
        decreases j,
    {
        let ch = s.get_char(j - 1);
        proof {
            assert(s@.take(j as int).len() == j);
            assert(s@.take(j as int)[j - 1] == s@[j - 1]);
            assert(s@.take(j as int).drop_last() =~= s@.take(j - 1));
        }
        if ch == c {
            return Some(j - 1);
        }
        j -= 1;
    }
    proof {
        assert(s@.take(0int) =~= Seq::<char>::empty());
    }
    None
}

/// Whether the characters of `a` and `b` coincide, at run time.
pub(crate) fn eq_str(a: &str, b: &str) -> (r: bool)
    ensures
        r <==> a@ == b@,
{
    let na = a.unicode_len();
    let nb = b.unicode_len();
    if na != nb {
        proof {
            assert(a@ != b@);
        }
        return false;
    }
    let mut i: usize = 0;
    while i < na
        invariant
            0 <= i <= na,
            na == a@.len(),
            na == b@.len(),
            forall|j: int| 0 <= j < i ==> a@[j] == b@[j],
        decreases na - i,
    {
        if a.get_char(i) != b.get_char(i) {
            return false;
        }
        i += 1;
    }
    proof {
        assert(a@ =~= b@);
    }
    true
}

/// `s` with leading white space removed.
pub open spec fn trim_front(s: Seq<char>) -> Seq<char>
    decreases s.len(),
{
    if s.len() > 0 && is_space(s[0]) {
        trim_front(s.drop_first())
    } else {
        s
    }
}

/// `s` with trailing white space removed.
pub open spec fn trim_back(s: Seq<char>) -> Seq<char>
    decreases s.len(),
{
    if s.len() > 0 && is_space(s[s.len() - 1]) {
        trim_back(s.drop_last())
    } else {
        s
    }
}

/// `s` with leading and trailing white space removed, as `str::trim` yields it.
pub open spec fn trim_spec(s: Seq<char>) -> Seq<char> {
    trim_back(trim_front(s))
}

/// Removes leading and trailing white space at run time.
pub(crate) fn trim_str(s: &str) -> (r: &str)
    ensures
        r@ == trim_spec(s@),
{
    let n = s.unicode_len();
    proof {
        assert(s@.skip(0int) =~= s@);
    }
    let mut lo: usize = 0;
    while lo < n && is_space_char(s.get_char(lo))
        invariant
            0 <= lo <= n,
            n == s@.len(),
            trim_front(s@) == trim_front(s@.skip(lo as int)),
        decreases n - lo,
    {
        proof {
            assert(s@.skip(lo as int)[0] == s@[lo as int]);
            assert(s@.skip(lo as int).drop_first() =~= s@.skip(lo + 1));
        }
        lo += 1;
    }
    proof {
        if lo < n {
            assert(s@.skip(lo as int)[0] == s@[lo as int]);
        }
        assert(trim_front(s@) == s@.skip(lo as int));
    }
    let mut hi: usize = n;
    while hi > lo && is_space_char(s.get_char(hi - 1))
        invariant
            lo <= hi <= n,
            n == s@.len(),
            trim_front(s@) == s@.skip(lo as int),
            trim_back(s@.skip(lo as int)) == trim_back(s@.subrange(lo as int, hi as int)),
        decreases hi,
    {
        proof {
            let t = s@.subrange(lo as int, hi as int);
            assert(t[t.len() - 1] == s@[hi - 1]);
            assert(t.drop_last() =~= s@.subrange(lo as int, hi - 1));
        }
        hi -= 1;
    }
    proof {
        let t = s@.subrange(lo as int, hi as int);
        if hi > lo {
            assert(t[t.len() - 1] == s@[hi - 1]);
        }
        assert(trim_back(t) == t);
        assert(s@.skip(lo as int) =~= s@.subrange(lo as int, n as int));
    }
    s.substring_char(lo, hi)
}

/// The character for a decimal digit value.
pub open spec fn digit_char(d: u64) -> char
    recommends
        d < 10,
{
    if d == 0 {
        '0'
    } else if d == 1 {
        '1'
    } else if d == 2 {
        '2'
    } else if d == 3 {
        '3'
    } else if d == 4 {
        '4'
    } else if d == 5 {
        '5'
    } else if d == 6 {
        '6'
    } else if d == 7 {
        '7'
    } else if d == 8 {
        '8'
    } else {
        '9'
    }
}

/// The canonical decimal rendering of `n`: no sign, no leading zeros
/// (a single `0` for zero).
pub open spec fn dec_rep(n: u64) -> Seq<char>
    decreases n,
{
    if n < 10 {
        seq![digit_char(n)]
    } else {
        dec_rep((n / 10) as u64).push(digit_char(n % 10))
    }
}

/// Turns a digit value into its character at run time.
pub(crate) fn digit_to_char(d: u64) -> (c: char)
    requires
        d < 10,
    ensures
        c == digit_char(d),
{
    match d {
        0 => '0',
        1 => '1',
        2 => '2',
        3 => '3',
        4 => '4',
        5 => '5',
        6 => '6',
        7 => '7',
        8 => '8',
        _ => '9',
    }
}

/// Appends the canonical decimal rendering of `n` to `out`.
pub(crate) fn push_dec(out: &mut String, n: u64)
    ensures
        final(out)@ == old(out)@ + dec_rep(n),
    decreases n,
{
    if n < 10 {
        out.push(digit_to_char(n));
        proof {
            assert(final(out)@ =~= old(out)@ + dec_rep(n));
        }
    } else {
        push_dec(out, n / 10);
        out.push(digit_to_char(n % 10));
        proof {
            assert(final(out)@ =~= old(out)@ + dec_rep(n));
        }
    }
}

/// Every character of `s` is a decimal digit.
pub open spec fn all_digits(s: Seq<char>) -> bool {
    forall|i: int| 0 <= i < s.len() ==> is_digit(s[i])
}

/// The unbounded numeric value of a digit string.
pub open spec fn dec_val(s: Seq<char>) -> int
    decreases s.len(),
{
    if s.len() == 0 {
        0
    } else {
        dec_val(s.drop_last()) * 10 + digit_val(s[s.len() - 1])
    }
}

/// `dec_val` recovers the number that `dec_rep` rendered.
pub proof fn lemma_dec_val_of_rep(n: u64)
    ensures
        all_digits(dec_rep(n)),
        dec_val(dec_rep(n)) == n,
        dec_rep(n).len() > 0,
    decreases n,
{
    assert(forall|d: u64| d < 10 ==> #[trigger] digit_val(digit_char(d)) == d);
    if n < 10 {
        assert(dec_rep(n) =~= seq![digit_char(n as u64)]);
        assert(dec_rep(n).drop_last() =~= Seq::<char>::empty());
        assert(dec_val(Seq::<char>::empty()) == 0);
        assert(dec_val(dec_rep(n)) == digit_val(digit_char(n)));
    } else {
        lemma_dec_val_of_rep((n / 10) as u64);
        assert(dec_rep(n).drop_last() =~= dec_rep((n / 10) as u64));
        assert(dec_rep(n)[dec_rep(n).len() - 1] == digit_char(n % 10));
        assert(dec_val(dec_rep(n)) == (n / 10) * 10 + digit_val(digit_char(n % 10)));
    }
}

} // verus!
