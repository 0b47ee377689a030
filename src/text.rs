//! Characters and literal text: whitespace, number literals, conversions.
use vstd::prelude::*;
use vstd::string::*;

verus! {

/// The characters with the Unicode `White_Space` property.
pub open spec fn white_space(c: char) -> bool {
    let u = c as u32;
    (0x09 <= u && u <= 0x0d) || u == 0x20 || u == 0x85 || u == 0xa0 || u == 0x1680 || (0x2000
        <= u && u <= 0x200a) || u == 0x2028 || u == 0x2029 || u == 0x202f || u == 0x205f || u
        == 0x3000
}

/// Drops leading whitespace.
pub open spec fn trim_start(s: Seq<char>) -> Seq<char>
    decreases s.len(),
{
    if s.len() > 0 && white_space(s[0]) {
        trim_start(s.drop_first())
    } else {
        s
    }
}

/// Drops trailing whitespace.
pub open spec fn trim_end(s: Seq<char>) -> Seq<char>
    decreases s.len(),
{
    if s.len() > 0 && white_space(s.last()) {
        trim_end(s.drop_last())
    } else {
        s
    }
}

/// `s` with every space removed.
pub open spec fn without_spaces(s: Seq<char>) -> Seq<char> {
    s.filter(|c: char| c != ' ')
}

/// The text that is scanned: surrounding whitespace trimmed, every space removed.
pub open spec fn normalized(s: Seq<char>) -> Seq<char> {
    without_spaces(trim_end(trim_start(s)))
}

pub open spec fn is_digit(c: char) -> bool {
    '0' <= c && c <= '9'
}

pub open spec fn all_digits(s: Seq<char>) -> bool {
    forall|i: int| 0 <= i < s.len() ==> is_digit(#[trigger] s[i])
}

pub open spec fn is_sign(c: char) -> bool {
    c == '+' || c == '-'
}

/// `c` is the lower-case ASCII letter `l` in either case.
pub open spec fn letter_ignoring_case(c: char, l: char) -> bool {
    c == l || c as u32 + 32 == l as u32
}

pub open spec fn word_ignoring_case(s: Seq<char>, w: Seq<char>) -> bool {
    s.len() == w.len() && forall|i: int| 0 <= i < s.len() ==> letter_ignoring_case(s[i], w[i])
}

/// `inf`, `infinity` or `nan`, in any mix of cases.
pub open spec fn special_value(s: Seq<char>) -> bool {
    word_ignoring_case(s, seq!['i', 'n', 'f']) || word_ignoring_case(
        s,
        seq!['i', 'n', 'f', 'i', 'n', 'i', 't', 'y'],
    ) || word_ignoring_case(s, seq!['n', 'a', 'n'])
}

/// `Digit+ | Digit+ '.' Digit* | Digit* '.' Digit+`
pub open spec fn mantissa(m: Seq<char>) -> bool {
    (m.len() > 0 && all_digits(m)) || (m.len() >= 2 && exists|d: int|
        0 <= d < m.len() && m[d] == '.' && all_digits(m.take(d)) && all_digits(
            #[trigger] m.skip(d + 1),
        ))
}

/// `('e' | 'E') Sign? Digit+`
pub open spec fn exponent(x: Seq<char>) -> bool {
    x.len() >= 2 && (x[0] == 'e' || x[0] == 'E') && {
        let digits = if is_sign(x[1]) {
            x.skip(2)
        } else {
            x.skip(1)
        };
        digits.len() > 0 && all_digits(digits)
    }
}

/// `Mantissa Exponent?`
pub open spec fn decimal(s: Seq<char>) -> bool {
    mantissa(s) || exists|p: int| 0 <= p < s.len() && mantissa(s.take(p)) && exponent(
        #[trigger] s.skip(p),
    )
}

/// The text of a floating-point literal: `Sign? ( 'inf' | 'infinity' | 'nan' | Decimal )`,
/// letters in any case. This is the grammar that `str::parse::<f64>` documents.
pub open spec fn float_literal(s: Seq<char>) -> bool {
    if s.len() > 0 && is_sign(s[0]) {
        special_value(s.skip(1)) || decimal(s.skip(1))
    } else {
        special_value(s) || decimal(s)
    }
}

pub fn is_white_space(c: char) -> (r: bool)
    ensures
        r == white_space(c),
{
    let u = c as u32;
    (0x09 <= u && u <= 0x0d) || u == 0x20 || u == 0x85 || u == 0xa0 || u == 0x1680 || (0x2000
        <= u && u <= 0x200a) || u == 0x2028 || u == 0x2029 || u == 0x202f || u == 0x205f || u
        == 0x3000
}

/// The characters of `s`, in order.
pub fn chars_of(s: &str) -> (r: Vec<char>)
    ensures
        r@ == s@,
{
    let n = s.unicode_len();
    let mut r: Vec<char> = Vec::new();
    for i in 0..n
        invariant
            n == s@.len(),
            r@ == s@.take(i as int),
    {
        let c = s.get_char(i);
        r.push(c);
        assert(r@ =~= s@.take(i + 1));
    }
    assert(r@ =~= s@);
    r
}


proof fn lemma_trim_start_step(s: Seq<char>, a: int)
    requires
        0 <= a < s.len(),
        white_space(s[a]),
    ensures
        trim_start(s.subrange(a, s.len() as int)) == trim_start(s.subrange(a + 1, s.len() as int)),
{
    assert(s.subrange(a, s.len() as int).drop_first() =~= s.subrange(a + 1, s.len() as int));
}

proof fn lemma_trim_end_step(s: Seq<char>, a: int, b: int)
    requires
        0 <= a < b <= s.len(),
        white_space(s[b - 1]),
    ensures
        trim_end(s.subrange(a, b)) == trim_end(s.subrange(a, b - 1)),
{
    assert(s.subrange(a, b).drop_last() =~= s.subrange(a, b - 1));
}

/// Trims surrounding whitespace and removes every space.
pub fn normalize(s: &Vec<char>) -> (r: Vec<char>)
    ensures
        r@ == normalized(s@),
{
    let n = s.len();
    let mut a: usize = 0;
    assert(s@.subrange(0, n as int) =~= s@);
    while a < n && is_white_space(s[a])
        invariant
            a <= n == s@.len(),
            trim_start(s@) == trim_start(s@.subrange(a as int, n as int)),
        decreases n - a,
    {
        proof {
            lemma_trim_start_step(s@, a as int);
        }
        a = a + 1;
    }
    let ghost start = s@.subrange(a as int, n as int);
    assert(trim_start(s@) == start);
    let mut b: usize = n;
    while b > a && is_white_space(s[b - 1])
        invariant
            a <= b <= n == s@.len(),
            start == s@.subrange(a as int, n as int),
            trim_end(start) == trim_end(s@.subrange(a as int, b as int)),
        decreases b,
    {
        proof {
            lemma_trim_end_step(s@, a as int, b as int);
        }
        b = b - 1;
    }
    let ghost trimmed = s@.subrange(a as int, b as int);
    assert(trim_end(trimmed) == trimmed);
    assert(trimmed.take(0) =~= Seq::<char>::empty());
    reveal(Seq::filter);
    let mut r: Vec<char> = Vec::new();
    let mut i: usize = a;
    while i < b
        invariant
            a <= i <= b <= n == s@.len(),
            trimmed == s@.subrange(a as int, b as int),
            r@ == without_spaces(trimmed.take(i - a)),
        decreases b - i,
    {
        assert(trimmed.take(i - a + 1).drop_last() =~= trimmed.take(i - a));
        assert(trimmed.take(i - a + 1).last() == s@[i as int]);
        reveal(Seq::filter);
        assert(without_spaces(trimmed.take(i - a + 1)) == if s@[i as int] != ' ' {
            without_spaces(trimmed.take(i - a)).push(s@[i as int])
        } else {
            without_spaces(trimmed.take(i - a))
        });
        if s[i] != ' ' {
            r.push(s[i]);
        }
        assert(r@ == without_spaces(trimmed.take(i - a + 1)));
        i = i + 1;
    }
    assert(trimmed.take(b - a) =~= trimmed);
    r
}

/// Every character of `s[lo..hi]` is a decimal digit.
fn digits_only(s: &Vec<char>, lo: usize, hi: usize) -> (r: bool)
    requires
        lo <= hi <= s@.len(),
    ensures
        r == all_digits(s@.subrange(lo as int, hi as int)),
{
    let mut i: usize = lo;
    while i < hi
        invariant
            lo <= i <= hi <= s@.len(),
            all_digits(s@.subrange(lo as int, i as int)),
        decreases hi - i,
    {
        if !('0' <= s[i] && s[i] <= '9') {
            assert(s@.subrange(lo as int, hi as int)[i - lo] == s@[i as int]);
            return false;
        }
        i = i + 1;
        assert forall|k: int| 0 <= k < i - lo implies is_digit(
            #[trigger] s@.subrange(lo as int, i as int)[k],
        ) by {
            if k < i - 1 - lo {
                assert(s@.subrange(lo as int, i - 1)[k] == s@.subrange(lo as int, i as int)[k]);
            }
        }
    }
    true
}

/// The first position in `s[lo..hi]` that holds `x` or `y`, or `hi`.
fn first_of(s: &Vec<char>, lo: usize, hi: usize, x: char, y: char) -> (r: usize)
    requires
        lo <= hi <= s@.len(),
    ensures
        lo <= r <= hi,
        forall|k: int| lo <= k < r ==> s@[k] != x && s@[k] != y,
        r < hi ==> s@[r as int] == x || s@[r as int] == y,
{
    let mut i: usize = lo;
    while i < hi
        invariant
            lo <= i <= hi <= s@.len(),
            forall|k: int| lo <= k < i ==> s@[k] != x && s@[k] != y,
        decreases hi - i,
    {
        if s[i] == x || s[i] == y {
            return i;
        }
        i = i + 1;
    }
    hi
}


/// `s[lo..hi]` spells the lower-case word `w`, letters in either case.
fn word_in(s: &Vec<char>, lo: usize, hi: usize, w: &Vec<char>) -> (r: bool)
    requires
        lo <= hi <= s@.len(),
    ensures
        r == word_ignoring_case(s@.subrange(lo as int, hi as int), w@),
{
    let ghost m = s@.subrange(lo as int, hi as int);
    if hi - lo != w.len() {
        return false;
    }
    let mut i: usize = 0;
    while i < w.len()
        invariant
            lo <= hi <= s@.len(),
            m == s@.subrange(lo as int, hi as int),
            hi - lo == w@.len(),
            i <= w@.len(),
            forall|k: int| 0 <= k < i ==> letter_ignoring_case(m[k], w@[k]),
        decreases w@.len() - i,
    {
        let c = s[lo + i];
        let l = w[i];
        if !(c == l || (l as u32 >= 32 && c as u32 == l as u32 - 32)) {
            assert(m[i as int] == c);
            return false;
        }
        i = i + 1;
    }
    true
}

fn special_in(s: &Vec<char>, lo: usize, hi: usize) -> (r: bool)
    requires
        lo <= hi <= s@.len(),
    ensures
        r == special_value(s@.subrange(lo as int, hi as int)),
{
    let inf = vec!['i', 'n', 'f'];
    let infinity = vec!['i', 'n', 'f', 'i', 'n', 'i', 't', 'y'];
    let nan = vec!['n', 'a', 'n'];
    assert(inf@ == seq!['i', 'n', 'f']);
    assert(infinity@ == seq!['i', 'n', 'f', 'i', 'n', 'i', 't', 'y']);
    assert(nan@ == seq!['n', 'a', 'n']);
    word_in(s, lo, hi, &inf) || word_in(s, lo, hi, &infinity) || word_in(s, lo, hi, &nan)
}

proof fn lemma_mantissa_chars(m: Seq<char>, i: int)
    requires
        mantissa(m),
        0 <= i < m.len(),
    ensures
        is_digit(m[i]) || m[i] == '.',
{
    if !(m.len() > 0 && all_digits(m)) {
        let d = choose|d: int|
            0 <= d < m.len() && m[d] == '.' && all_digits(m.take(d)) && all_digits(
                #[trigger] m.skip(d + 1),
            );
        if i < d {
            assert(m.take(d)[i] == m[i]);
        } else if i > d {
            assert(m.skip(d + 1)[i - d - 1] == m[i]);
        }
    }
}

fn mantissa_in(s: &Vec<char>, lo: usize, hi: usize) -> (r: bool)
    requires
        lo <= hi <= s@.len(),
    ensures
        r == mantissa(s@.subrange(lo as int, hi as int)),
{
    let ghost m = s@.subrange(lo as int, hi as int);
    let d = first_of(s, lo, hi, '.', '.');
    if d == hi {
        let r = hi > lo && digits_only(s, lo, hi);
        assert forall|e: int| 0 <= e < m.len() implies #[trigger] m[e] != '.' by {
            assert(m[e] == s@[lo + e]);
        }
        r
    } else {
        let ghost dm = d - lo;
        assert(m[dm] == '.');
        assert(m.take(dm) =~= s@.subrange(lo as int, d as int));
        assert(m.skip(dm + 1) =~= s@.subrange(d + 1, hi as int));
        let r = hi - lo >= 2 && digits_only(s, lo, d) && digits_only(s, d + 1, hi);
        assert(!all_digits(m)) by {
            assert(!is_digit(m[dm]));
        }
        proof {
            if !r && mantissa(m) {
                let e = choose|e: int|
                    0 <= e < m.len() && m[e] == '.' && all_digits(m.take(e)) && all_digits(
                        #[trigger] m.skip(e + 1),
                    );
                assert(m[e] == s@[lo + e]);
                if e > dm {
                    assert(m.take(e)[dm] == m[dm]);
                }
                assert(e == dm);
            }
        }
        r
    }
}

fn exponent_in(s: &Vec<char>, lo: usize, hi: usize) -> (r: bool)
    requires
        lo <= hi <= s@.len(),
    ensures
        r == exponent(s@.subrange(lo as int, hi as int)),
{
    let ghost x = s@.subrange(lo as int, hi as int);
    if hi - lo < 2 || !(s[lo] == 'e' || s[lo] == 'E') {
        return false;
    }
    let start = if s[lo + 1] == '+' || s[lo + 1] == '-' {
        lo + 2
    } else {
        lo + 1
    };
    assert(x.skip(start - lo) =~= s@.subrange(start as int, hi as int));
    start < hi && digits_only(s, start, hi)
}

fn decimal_in(s: &Vec<char>, lo: usize, hi: usize) -> (r: bool)
    requires
        lo <= hi <= s@.len(),
    ensures
        r == decimal(s@.subrange(lo as int, hi as int)),
{
    let ghost t = s@.subrange(lo as int, hi as int);
    let p = first_of(s, lo, hi, 'e', 'E');
    if p == hi {
        let r = mantissa_in(s, lo, hi);
        assert forall|q: int| 0 <= q < t.len() && mantissa(t.take(q)) implies !exponent(
            #[trigger] t.skip(q),
        ) by {
            assert(t.skip(q)[0] == s@[lo + q]);
        }
        r
    } else {
        let ghost pt = p - lo;
        assert(t.take(pt) =~= s@.subrange(lo as int, p as int));
        assert(t.skip(pt) =~= s@.subrange(p as int, hi as int));
        assert(!mantissa(t)) by {
            if mantissa(t) {
                lemma_mantissa_chars(t, pt);
            }
        }
        let r = mantissa_in(s, lo, p) && exponent_in(s, p, hi);
        proof {
            if !r && decimal(t) {
                let q = choose|q: int|
                    0 <= q < t.len() && mantissa(t.take(q)) && exponent(#[trigger] t.skip(q));
                assert(t.skip(q)[0] == s@[lo + q]);
                if q > pt {
                    lemma_mantissa_chars(t.take(q), pt);
                }
                assert(q == pt);
            }
        }
        r
    }
}

/// Whether `s` is the text of a floating-point literal.
pub fn is_float_literal(s: &Vec<char>) -> (r: bool)
    ensures
        r == float_literal(s@),
{
    let n = s.len();
    assert(s@.subrange(0, n as int) =~= s@);
    if n > 0 && (s[0] == '+' || s[0] == '-') {
        assert(s@.subrange(1, n as int) =~= s@.skip(1));
        special_in(s, 1, n) || decimal_in(s, 1, n)
    } else {
        special_in(s, 0, n) || decimal_in(s, 0, n)
    }
}

/// Relies on `FromIterator<char>` for `String`: the string holds the characters in order.
#[verifier::external_body]
pub(crate) fn string_of(cs: &Vec<char>) -> (r: String)
    ensures
        r@ == cs@,
{
    String::from_iter(cs)
}

} // verus!
