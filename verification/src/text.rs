//! Character-level text utilities: decimal numbers, whitespace, trimming,
//! splitting and integer parsing, each with the meaning that Rust's `str`
//! methods of the same name have.

use vstd::prelude::*;
use vstd::string::*;

verus! {

// ---------------------------------------------------------------------------
// Decimal digits
// ---------------------------------------------------------------------------

pub open spec fn is_digit(c: char) -> bool {
    '0' <= c && c <= '9'
}

pub open spec fn digit_value(c: char) -> nat {
    ((c as int) - ('0' as int)) as nat
}

pub open spec fn digit_char(d: nat) -> char {
    ((d as int) + ('0' as int)) as char
}

/// The decimal representation of `n`, as `n.to_string()` writes it.
pub open spec fn dec(n: nat) -> Seq<char>
    decreases n,
{
    if n < 10 {
        seq![digit_char(n)]
    } else {
        dec(n / 10).push(digit_char(n % 10))
    }
}

/// The number that a non-empty sequence of decimal digits denotes.
pub open spec fn digits_value(s: Seq<char>) -> nat
    decreases s.len(),
{
    if s.len() == 0 {
        0
    } else {
        digits_value(s.drop_last()) * 10 + digit_value(s.last())
    }
}

pub open spec fn all_digits(s: Seq<char>) -> bool {
    forall|i: int| 0 <= i < s.len() ==> is_digit(#[trigger] s[i])
}

/// What `str::parse::<usize>` returns: an optional `+` sign followed by one
/// or more decimal digits whose value fits in a `usize`.
pub open spec fn parse_usize_spec(s: Seq<char>) -> Option<usize> {
    let d = if s.len() > 0 && s[0] == '+' { s.drop_first() } else { s };
    if d.len() > 0 && all_digits(d) && digits_value(d) <= usize::MAX {
        Some(digits_value(d) as usize)
    } else {
        None
    }
}

// ---------------------------------------------------------------------------
// Whitespace (the Unicode White_Space property, as `char::is_whitespace`)
// ---------------------------------------------------------------------------

pub open spec fn is_ws(c: char) -> bool {
    let x = c as u32;
    (9 <= x && x <= 13) || x == 32 || x == 0x85 || x == 0xa0 || x == 0x1680 || (0x2000 <= x
        && x <= 0x200a) || x == 0x2028 || x == 0x2029 || x == 0x202f || x == 0x205f || x == 0x3000
}

pub open spec fn trim_start(s: Seq<char>) -> Seq<char>
    decreases s.len(),
{
    if s.len() > 0 && is_ws(s[0]) {
        trim_start(s.drop_first())
    } else {
        s
    }
}

pub open spec fn trim_end(s: Seq<char>) -> Seq<char>
    decreases s.len(),
{
    if s.len() > 0 && is_ws(s.last()) {
        trim_end(s.drop_last())
    } else {
        s
    }
}

/// `str::trim`: leading and trailing whitespace removed.
pub open spec fn trim(s: Seq<char>) -> Seq<char> {
    trim_end(trim_start(s))
}

// ---------------------------------------------------------------------------
// Splitting
// ---------------------------------------------------------------------------

/// Glues `c` to the front of the first piece.
pub open spec fn prepend(c: Seq<char>, r: Seq<Seq<char>>) -> Seq<Seq<char>> {
    r.update(0, c + r[0])
}

pub open spec fn starts_with(s: Seq<char>, pat: Seq<char>) -> bool {
    pat.len() <= s.len() && s.take(pat.len() as int) == pat
}

/// `str::split` with a non-empty pattern: the pieces between the leftmost
/// non-overlapping occurrences of `pat`.
pub open spec fn split_seq(s: Seq<char>, pat: Seq<char>) -> Seq<Seq<char>>
    decreases s.len(),
{
    if s.len() == 0 {
        seq![Seq::<char>::empty()]
    } else if pat.len() > 0 && starts_with(s, pat) {
        seq![Seq::<char>::empty()] + split_seq(s.skip(pat.len() as int), pat)
    } else {
        prepend(seq![s[0]], split_seq(s.drop_first(), pat))
    }
}

/// The pieces of `s` between runs of whitespace, with empty pieces left out
/// (`str::split_whitespace`).
pub open spec fn words(s: Seq<char>) -> Seq<Seq<char>>
    decreases s.len(),
{
    if s.len() == 0 {
        Seq::empty()
    } else if is_ws(s[0]) {
        words(s.drop_first())
    } else {
        let w = word_prefix(s);
        proof {
            lemma_word_prefix_len(s);
        }
        seq![w] + words(s.skip(w.len() as int))
    }
}

pub proof fn lemma_word_prefix_len(s: Seq<char>)
    ensures
        word_prefix(s).len() <= s.len(),
        s.len() > 0 && !is_ws(s[0]) ==> word_prefix(s).len() > 0,
        word_prefix(s) == s.take(word_prefix(s).len() as int),
    decreases s.len(),
{
    if s.len() == 0 || is_ws(s[0]) {
        assert(s.take(0) =~= Seq::<char>::empty());
    } else {
        lemma_word_prefix_len(s.drop_first());
        assert(word_prefix(s) =~= s.take(word_prefix(s).len() as int));
    }
}

/// The longest prefix of `s` that holds no whitespace.
pub open spec fn word_prefix(s: Seq<char>) -> Seq<char>
    decreases s.len(),
{
    if s.len() == 0 || is_ws(s[0]) {
        Seq::empty()
    } else {
        seq![s[0]] + word_prefix(s.drop_first())
    }
}

/// The pieces that the ranges select.
pub open spec fn pieces(s: Seq<char>, r: Seq<(usize, usize)>) -> Seq<Seq<char>> {
    r.map_values(|p: (usize, usize)| s.subrange(p.0 as int, p.1 as int))
}

pub open spec fn ranges_within(r: Seq<(usize, usize)>, lo: int, hi: int) -> bool {
    forall|k: int| 0 <= k < r.len() ==> lo <= (#[trigger] r[k]).0 <= r[k].1 <= hi
}

/// Index of the first occurrence of `pat` in `s`.
pub open spec fn is_first_match(s: Seq<char>, pat: Seq<char>, i: int) -> bool {
    &&& 0 <= i
    &&& starts_with(s.skip(i), pat)
    &&& forall|k: int| 0 <= k < i ==> !starts_with(#[trigger] s.skip(k), pat)
}

pub open spec fn has_match(s: Seq<char>, pat: Seq<char>) -> bool {
    exists|i: int| 0 <= i <= s.len() && starts_with(#[trigger] s.skip(i), pat)
}

// ---------------------------------------------------------------------------
// Executable helpers
// ---------------------------------------------------------------------------

/// Calls `String::push`: the character is appended, as std documents.
#[verifier::external_body]
pub(crate) fn push_char(s: &mut String, c: char)
    ensures
        final(s)@ == old(s)@.push(c),
{
    s.push(c);
}

pub fn is_whitespace(c: char) -> (r: bool)
    ensures
        r == is_ws(c),
{
    let x = c as u32;
    (9 <= x && x <= 13) || x == 32 || x == 0x85 || x == 0xa0 || x == 0x1680 || (0x2000 <= x
        && x <= 0x200a) || x == 0x2028 || x == 0x2029 || x == 0x202f || x == 0x205f || x == 0x3000
}

pub fn is_digit_exec(c: char) -> (r: bool)
    ensures
        r == is_digit(c),
{
    '0' <= c && c <= '9'
}

/// Appends the decimal representation of `n`.
pub fn push_decimal(s: &mut String, n: usize)
    ensures
        final(s)@ == old(s)@ + dec(n as nat),
    decreases n,
{
    if n >= 10 {
        push_decimal(s, n / 10);
    }
    let d: u8 = (n % 10) as u8;
    let c = (d + 48u8) as char;
    push_char(s, c);
}

/// The characters of a string slice.
pub fn chars_of(s: &str) -> (r: Vec<char>)
    ensures
        r@ == s@,
{
    let mut r: Vec<char> = Vec::new();
    for c in it: s.chars()
        invariant
            r@ == it.seq().take(it.index() as int),
    {
        r.push(c);
    }
    r
}

/// A string made of the given characters.
pub fn string_of(cs: &[char]) -> (r: String)
    ensures
        r@ == cs@,
{
    let mut r = String::new();
    let mut i: usize = 0;
    while i < cs.len()
        invariant
            i <= cs.len(),
            r@ == cs@.take(i as int),
        decreases cs.len() - i,
    {
        push_char(&mut r, cs[i]);
        i = i + 1;
        assert(r@ =~= cs@.take(i as int));
    }
    assert(cs@.take(cs.len() as int) =~= cs@);
    r
}

/// A string made of the characters `cs[lo..hi]`.
pub fn string_of_range(cs: &[char], lo: usize, hi: usize) -> (r: String)
    requires
        lo <= hi <= cs@.len(),
    ensures
        r@ == cs@.subrange(lo as int, hi as int),
{
    let mut r = String::new();
    let mut i: usize = lo;
    while i < hi
        invariant
            lo <= i <= hi,
            hi <= cs@.len(),
            r@ == cs@.subrange(lo as int, i as int),
        decreases hi - i,
    {
        push_char(&mut r, cs[i]);
        i = i + 1;
        assert(r@ =~= cs@.subrange(lo as int, i as int));
    }
    r
}

/// `s[lo..hi].parse::<u32>()`, as an `Option`: an optional `+` sign and
/// one or more decimal digits whose value fits in a `u32`.
pub open spec fn parse_u32_spec(s: Seq<char>) -> Option<u32> {
    let d = if s.len() > 0 && s[0] == '+' { s.drop_first() } else { s };
    if d.len() > 0 && all_digits(d) && digits_value(d) <= u32::MAX {
        Some(digits_value(d) as u32)
    } else {
        None
    }
}

pub fn parse_u32(s: &[char], lo: usize, hi: usize) -> (r: Option<u32>)
    requires
        lo <= hi <= s@.len(),
    ensures
        r == parse_u32_spec(s@.subrange(lo as int, hi as int)),
{
    match parse_usize(s, lo, hi) {
        Some(v) => {
            if v <= 4294967295usize {
                Some(v as u32)
            } else {
                None
            }
        },
        None => None,
    }
}

/// The position of the last `c` in `s`.
pub open spec fn last_index_of(s: Seq<char>, c: char) -> Option<int> {
    if exists|k: int| 0 <= k < s.len() && s[k] == c {
        Some(choose|k: int| 0 <= k < s.len() && s[k] == c && forall|j: int| k < j < s.len() ==> s[j] != c)
    } else {
        None
    }
}

/// `s.rfind(c)`, on characters.
pub fn rfind_char(s: &[char], c: char) -> (r: Option<usize>)
    ensures
        match r {
            Some(k) => k < s@.len() && s@[k as int] == c && forall|j: int| k < j < s@.len() ==> s@[j] != c,
            None => forall|j: int| 0 <= j < s@.len() ==> s@[j] != c,
        },
        r matches Some(k) ==> last_index_of(s@, c) == Some(k as int),
        r is None ==> last_index_of(s@, c) is None,
{
    let mut k: usize = s.len();
    while k > 0
        invariant
            k <= s@.len(),
            forall|j: int| k <= j < s@.len() ==> s@[j] != c,
        decreases k,
    {
        if s[k - 1] == c {
            let r = k - 1;
            proof {
                let w = choose|w: int| 0 <= w < s@.len() && s@[w] == c && forall|j: int| w < j < s@.len() ==> s@[j] != c;
                assert(0 <= r < s@.len() && s@[r as int] == c && forall|j: int| r < j < s@.len() ==> s@[j] != c);
                if w < r {
                    assert(s@[r as int] != c);
                }
                if w > r {
                    assert(s@[w] != c);
                }
            }
            return Some(r);
        }
        k = k - 1;
    }
    None
}

pub proof fn lemma_trim_start_skip(s: Seq<char>, i: int)
    requires
        0 <= i <= s.len(),
        forall|k: int| 0 <= k < i ==> is_ws(#[trigger] s[k]),
    ensures
        trim_start(s) == trim_start(s.subrange(i, s.len() as int)),
    decreases i,
{
    if i > 0 {
        assert(is_ws(s[0]));
        assert(s.drop_first() =~= s.subrange(1, s.len() as int));
        assert forall|k: int| 0 <= k < i - 1 implies is_ws(#[trigger] s.drop_first()[k]) by {
            assert(s.drop_first()[k] == s[k + 1]);
        }
        lemma_trim_start_skip(s.drop_first(), i - 1);
        assert(s.drop_first().subrange(i - 1, s.drop_first().len() as int) =~= s.subrange(
            i,
            s.len() as int,
        ));
    } else {
        assert(s.subrange(0, s.len() as int) =~= s);
    }
}

pub proof fn lemma_trim_end_cut(s: Seq<char>, j: int)
    requires
        0 <= j <= s.len(),
        forall|k: int| j <= k < s.len() ==> is_ws(#[trigger] s[k]),
    ensures
        trim_end(s) == trim_end(s.subrange(0, j)),
    decreases s.len() - j,
{
    if j < s.len() {
        assert(s.drop_last() =~= s.subrange(0, s.len() - 1));
        lemma_trim_end_cut(s.drop_last(), j);
        assert(s.drop_last().subrange(0, j) =~= s.subrange(0, j));
    } else {
        assert(s.subrange(0, j) =~= s);
    }
}

/// The bounds of `s[lo..hi]` with leading and trailing whitespace removed.
pub fn trim_bounds(s: &[char], lo: usize, hi: usize) -> (r: (usize, usize))
    requires
        lo <= hi <= s@.len(),
    ensures
        lo <= r.0 <= r.1 <= hi,
        s@.subrange(r.0 as int, r.1 as int) == trim(s@.subrange(lo as int, hi as int)),
{
    let mut a = lo;
    while a < hi && is_whitespace(s[a])
        invariant
            lo <= a <= hi <= s@.len(),
            forall|k: int| lo <= k < a ==> is_ws(#[trigger] s@[k]),
        decreases hi - a,
    {
        a = a + 1;
    }
    let ghost t = s@.subrange(lo as int, hi as int);
    proof {
        assert forall|k: int| 0 <= k < a - lo implies is_ws(#[trigger] t[k]) by {
            assert(t[k] == s@[lo + k]);
        }
        lemma_trim_start_skip(t, a - lo);
        assert(t.subrange(a - lo, t.len() as int) =~= s@.subrange(a as int, hi as int));
        let u = s@.subrange(a as int, hi as int);
        if a < hi {
            assert(u[0] == s@[a as int]);
        }
        assert(trim_start(u) == u);
    }
    let mut b = hi;
    while b > a && is_whitespace(s[b - 1])
        invariant
            a <= b <= hi <= s@.len(),
            forall|k: int| b <= k < hi ==> is_ws(#[trigger] s@[k]),
        decreases b - a,
    {
        b = b - 1;
    }
    proof {
        let u = s@.subrange(a as int, hi as int);
        assert forall|k: int| b - a <= k < u.len() implies is_ws(#[trigger] u[k]) by {
            assert(u[k] == s@[a + k]);
        }
        lemma_trim_end_cut(u, b - a);
        let w = u.subrange(0, b - a);
        assert(w =~= s@.subrange(a as int, b as int));
        if b > a {
            assert(w.last() == s@[b - 1]);
        }
        assert(trim_end(w) == w);
    }
    (a, b)
}

pub proof fn lemma_digits_value_push(s: Seq<char>, c: char)
    ensures
        digits_value(s.push(c)) == digits_value(s) * 10 + digit_value(c),
{
    assert(s.push(c).drop_last() =~= s);
}

/// `dec(n)` is made of digits that denote `n`, so `dec` is one-to-one.
pub proof fn lemma_dec_value(n: nat)
    ensures
        all_digits(dec(n)),
        digits_value(dec(n)) == n,
        dec(n).len() >= 1,
        dec(n)[0] != '+',
    decreases n,
{
    assert(digit_value(digit_char(n % 10)) == n % 10);
    if n >= 10 {
        lemma_dec_value(n / 10);
        assert((n / 10) * 10 + n % 10 == n);
        lemma_digits_value_push(dec(n / 10), digit_char(n % 10));
        assert(dec(n) == dec(n / 10).push(digit_char(n % 10)));
        assert forall|i: int| 0 <= i < dec(n).len() implies is_digit(#[trigger] dec(n)[i]) by {
            if i < dec(n / 10).len() {
                assert(dec(n)[i] == dec(n / 10)[i]);
            }
        }
    } else {
        assert(dec(n).drop_last() =~= Seq::<char>::empty());
        assert(digits_value(dec(n)) == digits_value(dec(n).drop_last()) * 10 + digit_value(dec(n).last()));
    }
}

pub proof fn lemma_dec_injective(a: nat, b: nat)
    requires
        dec(a) == dec(b),
    ensures
        a == b,
{
    lemma_dec_value(a);
    lemma_dec_value(b);
}

pub proof fn lemma_digits_value_mono(s: Seq<char>, i: int)
    requires
        0 <= i <= s.len(),
    ensures
        digits_value(s.take(i)) <= digits_value(s),
    decreases s.len() - i,
{
    if i < s.len() {
        lemma_digits_value_mono(s, i + 1);
        assert(s.take(i + 1).drop_last() =~= s.take(i));
        assert(digits_value(s.take(i + 1)) == digits_value(s.take(i)) * 10 + digit_value(s[i]));
    } else {
        assert(s.take(i) =~= s);
    }
}

/// `s[lo..hi].parse::<usize>()`, as an `Option`.
pub fn parse_usize(s: &[char], lo: usize, hi: usize) -> (r: Option<usize>)
    requires
        lo <= hi <= s@.len(),
    ensures
        r == parse_usize_spec(s@.subrange(lo as int, hi as int)),
{
    let ghost t = s@.subrange(lo as int, hi as int);
    let mut a = lo;
    if a < hi && s[a] == '+' {
        a = a + 1;
    }
    let ghost d = s@.subrange(a as int, hi as int);
    proof {
        if t.len() > 0 && t[0] == '+' {
            assert(t.drop_first() =~= d);
        } else {
            assert(t =~= d);
        }
    }
    proof {
        assert(parse_usize_spec(t) == (if d.len() > 0 && all_digits(d) && digits_value(d)
            <= usize::MAX {
            Some(digits_value(d) as usize)
        } else {
            None
        }));
    }
    if a == hi {
        return None;
    }
    let mut v: usize = 0;
    let mut i = a;
    while i < hi
        invariant
            lo <= a <= i <= hi <= s@.len(),
            d == s@.subrange(a as int, hi as int),
            parse_usize_spec(s@.subrange(lo as int, hi as int)) == (if d.len() > 0 && all_digits(d)
                && digits_value(d) <= usize::MAX {
                Some(digits_value(d) as usize)
            } else {
                None
            }),
            all_digits(d.take(i - a)),
            v == digits_value(d.take(i - a)),
        decreases hi - i,
    {
        let c = s[i];
        proof {
            assert(d[i - a] == c);
            assert(d.take(i - a + 1) =~= d.take(i - a).push(c));
            lemma_digits_value_push(d.take(i - a), c);
        }
        if !is_digit_exec(c) {
            proof {
                assert(!is_digit(d[i - a]));
                assert(!all_digits(d));
            }
            return None;
        }
        let dv: usize = (c as u32 - 48u32) as usize;
        assert(dv == digit_value(c));
        match v.checked_mul(10) {
            None => {
                proof {
                    lemma_digits_value_mono(d, i - a + 1);
                    assert(v * 10 + dv >= v * 10);
                    assert(digits_value(d) > usize::MAX);
                }
                return None;
            },
            Some(v10) => match v10.checked_add(dv) {
                None => {
                    proof {
                        lemma_digits_value_mono(d, i - a + 1);
                        assert(digits_value(d) > usize::MAX);
                    }
                    return None;
                },
                Some(nv) => {
                    v = nv;
                },
            },
        }
        i = i + 1;
        proof {
            assert forall|k: int| 0 <= k < i - a implies is_digit(#[trigger] d.take(i - a)[k]) by {
                if k < i - a - 1 {
                    assert(d.take(i - a)[k] == d.take(i - a - 1)[k]);
                }
            }
        }
    }
    assert(d.take(hi - a) =~= d);
    Some(v)
}

pub proof fn lemma_split_nonempty(s: Seq<char>, pat: Seq<char>)
    ensures
        split_seq(s, pat).len() >= 1,
    decreases s.len(),
{
    if s.len() == 0 {
    } else if pat.len() > 0 && starts_with(s, pat) {
        lemma_split_nonempty(s.skip(pat.len() as int), pat);
    } else {
        lemma_split_nonempty(s.drop_first(), pat);
    }
}

/// Whether `pat` occurs in `s` at position `i`.
pub fn matches_at(s: &[char], i: usize, hi: usize, pat: &[char]) -> (r: bool)
    requires
        i <= hi <= s@.len(),
    ensures
        r == starts_with(s@.subrange(i as int, hi as int), pat@),
{
    let ghost t = s@.subrange(i as int, hi as int);
    if pat.len() > hi - i {
        return false;
    }
    let mut k: usize = 0;
    while k < pat.len()
        invariant
            k <= pat.len() <= hi - i,
            i <= hi <= s@.len(),
            t == s@.subrange(i as int, hi as int),
            forall|m: int| 0 <= m < k ==> s@[i + m] == pat@[m],
        decreases pat.len() - k,
    {
        if s[i + k] != pat[k] {
            proof {
                assert(t.take(pat.len() as int)[k as int] == s@[i + k]);
            }
            return false;
        }
        k = k + 1;
    }
    assert(t.take(pat.len() as int) =~= pat@);
    true
}

/// The pieces of `s[lo..hi]` split at `pat` (`str::split`), as ranges.
pub fn split_ranges(s: &[char], lo: usize, hi: usize, pat: &[char]) -> (r: Vec<(usize, usize)>)
    requires
        lo <= hi <= s@.len(),
        pat@.len() > 0,
    ensures
        ranges_within(r@, lo as int, hi as int),
        pieces(s@, r@) == split_seq(s@.subrange(lo as int, hi as int), pat@),
{
    let mut r: Vec<(usize, usize)> = Vec::new();
    let mut start = lo;
    let mut i = lo;
    proof {
        assert(s@.subrange(lo as int, lo as int) =~= Seq::<char>::empty());
        lemma_split_nonempty(s@.subrange(lo as int, hi as int), pat@);
        let x = split_seq(s@.subrange(lo as int, hi as int), pat@);
        assert(x[0] =~= Seq::<char>::empty() + x[0]);
        assert(pieces(s@, r@) + prepend(Seq::<char>::empty(), x) =~= x);
    }
    while i < hi
        invariant
            lo <= start <= i <= hi <= s@.len(),
            pat@.len() > 0,
            ranges_within(r@, lo as int, hi as int),
            split_seq(s@.subrange(lo as int, hi as int), pat@) == pieces(s@, r@) + prepend(
                s@.subrange(start as int, i as int),
                split_seq(s@.subrange(i as int, hi as int), pat@),
            ),
        decreases hi - i,
    {
        let ghost cur = s@.subrange(start as int, i as int);
        let ghost rest = s@.subrange(i as int, hi as int);
        if matches_at(s, i, hi, pat) {
            let ni = i + pat.len();
            proof {
                assert(rest.skip(pat@.len() as int) =~= s@.subrange(ni as int, hi as int));
                let x = split_seq(s@.subrange(ni as int, hi as int), pat@);
                lemma_split_nonempty(s@.subrange(ni as int, hi as int), pat@);
                assert(split_seq(rest, pat@) == seq![Seq::<char>::empty()] + x);
                assert(prepend(cur, seq![Seq::<char>::empty()] + x) =~= seq![cur] + x);
                assert(s@.subrange(ni as int, ni as int) =~= Seq::<char>::empty());
                assert(x[0] =~= Seq::<char>::empty() + x[0]);
                assert(prepend(Seq::<char>::empty(), x) =~= x);
            }
            let ghost old_r = r@;
            r.push((start, i));
            proof {
                assert(pieces(s@, r@) =~= pieces(s@, old_r).push(cur));
                assert(pieces(s@, old_r) + (seq![cur] + split_seq(
                    s@.subrange(ni as int, hi as int),
                    pat@,
                )) =~= pieces(s@, old_r).push(cur) + split_seq(
                    s@.subrange(ni as int, hi as int),
                    pat@,
                ));
            }
            start = ni;
            i = ni;
        } else {
            proof {
                assert(rest.drop_first() =~= s@.subrange(i + 1, hi as int));
                assert(rest[0] == s@[i as int]);
                let y = split_seq(s@.subrange(i + 1, hi as int), pat@);
                lemma_split_nonempty(s@.subrange(i + 1, hi as int), pat@);
                assert(split_seq(rest, pat@) == prepend(seq![s@[i as int]], y));
                assert(s@.subrange(start as int, i + 1) =~= cur + seq![s@[i as int]]);
                assert(cur + (seq![s@[i as int]] + y[0]) =~= (cur + seq![s@[i as int]]) + y[0]);
                assert(prepend(cur, prepend(seq![s@[i as int]], y)) =~= prepend(
                    s@.subrange(start as int, i + 1),
                    y,
                ));
            }
            i = i + 1;
        }
    }
    let ghost old_r = r@;
    r.push((start, hi));
    proof {
        assert(s@.subrange(hi as int, hi as int) =~= Seq::<char>::empty());
        let cur = s@.subrange(start as int, hi as int);
        assert(prepend(cur, seq![Seq::<char>::empty()]) =~= seq![cur]);
        assert(pieces(s@, r@) =~= pieces(s@, old_r).push(cur));
        assert(pieces(s@, old_r) + seq![cur] =~= pieces(s@, old_r).push(cur));
    }
    r
}

pub proof fn lemma_word_prefix_exact(s: Seq<char>, k: int)
    requires
        0 <= k <= s.len(),
        forall|m: int| 0 <= m < k ==> !is_ws(#[trigger] s[m]),
        k == s.len() || is_ws(s[k]),
    ensures
        word_prefix(s) == s.take(k),
    decreases k,
{
    if k == 0 {
        assert(s.take(0) =~= Seq::<char>::empty());
    } else {
        assert forall|m: int| 0 <= m < k - 1 implies !is_ws(#[trigger] s.drop_first()[m]) by {
            assert(s.drop_first()[m] == s[m + 1]);
        }
        assert(!is_ws(s[0]));
        if k < s.len() {
            assert(s.drop_first()[k - 1] == s[k]);
        }
        lemma_word_prefix_exact(s.drop_first(), k - 1);
        assert(s.take(k) =~= seq![s[0]] + s.drop_first().take(k - 1));
    }
}

/// The whitespace-separated words of `s[lo..hi]` (`str::split_whitespace`),
/// as ranges.
pub fn word_ranges(s: &[char], lo: usize, hi: usize) -> (r: Vec<(usize, usize)>)
    requires
        lo <= hi <= s@.len(),
    ensures
        ranges_within(r@, lo as int, hi as int),
        pieces(s@, r@) == words(s@.subrange(lo as int, hi as int)),
{
    let mut r: Vec<(usize, usize)> = Vec::new();
    let mut i = lo;
    assert(pieces(s@, r@) + words(s@.subrange(lo as int, hi as int)) =~= words(
        s@.subrange(lo as int, hi as int),
    ));
    while i < hi
        invariant
            lo <= i <= hi <= s@.len(),
            ranges_within(r@, lo as int, hi as int),
            words(s@.subrange(lo as int, hi as int)) == pieces(s@, r@) + words(
                s@.subrange(i as int, hi as int),
            ),
        decreases hi - i,
    {
        let ghost rest = s@.subrange(i as int, hi as int);
        if is_whitespace(s[i]) {
            proof {
                assert(rest[0] == s@[i as int]);
                assert(rest.drop_first() =~= s@.subrange(i + 1, hi as int));
            }
            i = i + 1;
        } else {
            let mut j = i + 1;
            while j < hi && !is_whitespace(s[j])
                invariant
                    i < j <= hi <= s@.len(),
                    forall|m: int| i <= m < j ==> !is_ws(#[trigger] s@[m]),
                decreases hi - j,
            {
                j = j + 1;
            }
            proof {
                assert forall|m: int| 0 <= m < j - i implies !is_ws(#[trigger] rest[m]) by {
                    assert(rest[m] == s@[i + m]);
                }
                if j < hi {
                    assert(rest[j - i] == s@[j as int]);
                }
                lemma_word_prefix_exact(rest, j - i);
                assert(rest[0] == s@[i as int]);
                assert(rest.take(j - i) =~= s@.subrange(i as int, j as int));
                assert(rest.skip(j - i) =~= s@.subrange(j as int, hi as int));
            }
            let ghost old_r = r@;
            r.push((i, j));
            proof {
                let w = s@.subrange(i as int, j as int);
                assert(pieces(s@, r@) =~= pieces(s@, old_r).push(w));
                assert(pieces(s@, old_r) + (seq![w] + words(s@.subrange(j as int, hi as int)))
                    =~= pieces(s@, old_r).push(w) + words(s@.subrange(j as int, hi as int)));
            }
            i = j;
        }
    }
    proof {
        assert(words(s@.subrange(hi as int, hi as int)) =~= Seq::<Seq<char>>::empty());
        assert(pieces(s@, r@) + Seq::<Seq<char>>::empty() =~= pieces(s@, r@));
    }
    r
}

/// The position of the first occurrence of `pat` in `s[lo..hi]`, counted
/// from `lo` (`str::find`).
pub fn find_pattern(s: &[char], lo: usize, hi: usize, pat: &[char]) -> (r: Option<usize>)
    requires
        lo <= hi <= s@.len(),
    ensures
        r is None <==> !has_match(s@.subrange(lo as int, hi as int), pat@),
        r matches Some(k) ==> k <= hi - lo && is_first_match(
            s@.subrange(lo as int, hi as int),
            pat@,
            k as int,
        ),
{
    let ghost t = s@.subrange(lo as int, hi as int);
    let mut i = lo;
    loop
        invariant
            lo <= i <= hi,
            hi <= s@.len(),
            t == s@.subrange(lo as int, hi as int),
            forall|k: int| 0 <= k < i - lo ==> !starts_with(#[trigger] t.skip(k), pat@),
        ensures
            forall|k: int| 0 <= k <= hi - lo ==> !starts_with(#[trigger] t.skip(k), pat@),
        decreases hi - i,
    {
        proof {
            assert(t.skip(i - lo) =~= s@.subrange(i as int, hi as int));
        }
        if matches_at(s, i, hi, pat) {
            return Some(i - lo);
        }
        if i == hi {
            break;
        }
        i = i + 1;
    }
    None
}

} // verus!
