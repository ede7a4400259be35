//! Text building blocks: decimal rendering, padding, repetition,
//! Unicode-safe truncation and digit parsing.

use vstd::prelude::*;
use vstd::string::StrSliceExecFns;
use vstd::string::StringExecFns;

verus! {

/// The character for a single decimal digit.
pub open spec fn digit_char(d: int) -> char {
    if d == 0 {
        '0'
    } else if d == 1 {
        '1'
    } else if d == 2 {
        '2'
    } else if d == 3 {
        '3'
    } else if d == 4 {
        '4'
    } else if d == 5 {
        '5'
    } else if d == 6 {
        '6'
    } else if d == 7 {
        '7'
    } else if d == 8 {
        '8'
    } else {
        '9'
    }
}

/// Decimal digits of a nonnegative number, most significant first.
pub open spec fn dec_digits(n: int) -> Seq<char>
    recommends
        n >= 0,
    decreases n,
{
    if n < 10 {
        seq![digit_char(n)]
    } else {
        dec_digits(n / 10).push(digit_char(n % 10))
    }
}

/// A run of `n` copies of one character.
pub open spec fn char_run(c: char, n: int) -> Seq<char> {
    Seq::new(n as nat, |i: int| c)
}

fn digit_str(d: u64) -> (s: &'static str)
    requires
        d < 10,
    ensures
        s@ =~= seq![digit_char(d as int)],
{
    proof {
        reveal_strlit("0");
        reveal_strlit("1");
        reveal_strlit("2");
        reveal_strlit("3");
        reveal_strlit("4");
        reveal_strlit("5");
        reveal_strlit("6");
        reveal_strlit("7");
        reveal_strlit("8");
        reveal_strlit("9");
    }
    if d == 0 {
        "0"
    } else if d == 1 {
        "1"
    } else if d == 2 {
        "2"
    } else if d == 3 {
        "3"
    } else if d == 4 {
        "4"
    } else if d == 5 {
        "5"
    } else if d == 6 {
        "6"
    } else if d == 7 {
        "7"
    } else if d == 8 {
        "8"
    } else {
        "9"
    }
}

/// Render a 64-bit integer in decimal.
pub fn u64_to_dec(n: u64) -> (s: String)
    ensures
        s@ == dec_digits(n as int),
        s@.len() >= 1,
    decreases n,
{
    if n < 10 {
        let s = digit_str(n).to_owned();
        proof {
            assert(s@ =~= dec_digits(n as int));
        }
        s
    } else {
        let mut s = u64_to_dec(n / 10);
        s.append(digit_str(n % 10));
        proof {
            assert(s@ =~= dec_digits(n as int));
        }
        s
    }
}

/// Render a 128-bit integer in decimal.
pub fn u128_to_dec(n: u128) -> (s: String)
    ensures
        s@ == dec_digits(n as int),
        s@.len() >= 1,
    decreases n,
{
    if n < 10 {
        let s = digit_str(n as u64).to_owned();
        proof {
            assert(s@ =~= dec_digits(n as int));
        }
        s
    } else {
        let mut s = u128_to_dec(n / 10);
        s.append(digit_str((n % 10) as u64));
        proof {
            assert(s@ =~= dec_digits(n as int));
        }
        s
    }
}

/// Relies on std's `String::push`: appends exactly the one character given.
#[verifier::external_body]
pub fn push_char(s: &mut String, c: char)
    ensures
        final(s)@ == old(s)@ + seq![c],
{
    s.push(c);
}

/// A string of `n` copies of one character.
pub fn repeat_char(c: char, n: usize) -> (s: String)
    ensures
        s@ == char_run(c, n as int),
{
    let mut s = String::new();
    let mut i: usize = 0;
    while i < n
        invariant
            i <= n,
            s@.len() == i,
            forall|j: int| 0 <= j < i ==> s@[j] == c,
        decreases n - i,
    {
        push_char(&mut s, c);
        i = i + 1;
    }
    proof {
        assert(s@ =~= char_run(c, n as int));
    }
    s
}

/// A string of `n` spaces.
pub fn spaces(n: usize) -> (s: String)
    ensures
        s@ == char_run(' ', n as int),
{
    repeat_char(' ', n)
}

/// Truncation to at most `max_len` characters, the last one an ellipsis
/// when anything was cut off; never splits a character.
pub open spec fn spec_ellipsis(s: Seq<char>, max_len: int) -> Seq<char>
    recommends
        max_len >= 1,
{
    if s.len() <= max_len {
        s
    } else {
        s.take(max_len - 1).push('\u{2026}')
    }
}

/// Shorten a string to `max_len` characters, ending in an ellipsis if cut.
pub fn ellipsis(s: &str, max_len: usize) -> (r: String)
    requires
        max_len >= 1,
    ensures
        r@ == spec_ellipsis(s@, max_len as int),
{
    let n = s.unicode_len();
    if n <= max_len {
        s.to_owned()
    } else {
        let t = s.substring_char(0, max_len - 1);
        let mut r = t.to_owned();
        push_char(&mut r, '\u{2026}');
        proof {
            assert(r@ =~= spec_ellipsis(s@, max_len as int));
        }
        r
    }
}

/// Shortening is idempotent and boundary-exact: a string within the
/// budget passes through unchanged; a longer one is cut to exactly the
/// budget, so shortening again changes nothing; and at the tightest legal
/// budget any too-long input leaves just the ellipsis.
pub proof fn lemma_ellipsis_idempotent(s: Seq<char>, max_len: int)
    requires
        max_len >= 1,
    ensures
        spec_ellipsis(spec_ellipsis(s, max_len), max_len) == spec_ellipsis(s, max_len),
        s.len() <= max_len ==> spec_ellipsis(s, max_len) == s,
        spec_ellipsis(s, max_len).len() <= if s.len() <= max_len {
            s.len() as int
        } else {
            max_len
        },
        s.len() > max_len && max_len == 1 ==> spec_ellipsis(s, max_len)
            =~= seq!['\u{2026}'],
{
    if s.len() > max_len {
        assert(spec_ellipsis(s, max_len).len() == max_len);
    }
}

/// All characters are decimal digits.
pub open spec fn all_digits(s: Seq<char>) -> bool {
    forall|i: int| 0 <= i < s.len() ==> 48 <= #[trigger] (s[i] as int) <= 57
}

/// The number the digit string denotes.
pub open spec fn digits_val(s: Seq<char>) -> int
    decreases s.len(),
{
    if s.len() == 0 {
        0
    } else {
        digits_val(s.drop_last()) * 10 + (s.last() as int - 48)
    }
}

/// A digit string's value only grows as more digits are appended.
proof fn lemma_digits_val_extend(s: Seq<char>, j: int)
    requires
        0 <= j <= s.len(),
        all_digits(s),
    ensures
        digits_val(s.take(j)) <= digits_val(s),
        digits_val(s) >= 0,
    decreases s.len() - j,
{
    if j == s.len() {
        assert(s.take(j) =~= s);
        lemma_digits_val_nonneg(s);
    } else {
        lemma_digits_val_extend(s, j + 1);
        lemma_digits_val_nonneg(s.take(j));
        let t = s.take(j + 1);
        assert(t.drop_last() =~= s.take(j));
        assert(digits_val(t) == digits_val(s.take(j)) * 10 + (s[j] as int - 48));
        assert(digits_val(s.take(j)) * 10 >= digits_val(s.take(j))) by (nonlinear_arith)
            requires digits_val(s.take(j)) >= 0;
    }
}

/// A digit string denotes a nonnegative number.
proof fn lemma_digits_val_nonneg(s: Seq<char>)
    requires
        all_digits(s),
    ensures
        digits_val(s) >= 0,
    decreases s.len(),
{
    if s.len() > 0 {
        assert(all_digits(s.drop_last()));
        lemma_digits_val_nonneg(s.drop_last());
        assert(digits_val(s.drop_last()) * 10 >= 0) by (nonlinear_arith)
            requires digits_val(s.drop_last()) >= 0;
    }
}

/// Parse an unsigned decimal integer; `Some` exactly on nonempty
/// all-digit strings whose value fits in 64 bits.
pub fn parse_u64(s: &str) -> (r: Option<u64>)
    ensures
        match r {
            Some(v) => s@.len() >= 1 && all_digits(s@) && v == digits_val(s@),
            None => s@.len() == 0 || !all_digits(s@) || digits_val(s@) > u64::MAX,
        },
{
    let n = s.unicode_len();
    if n == 0 {
        return None;
    }
    let mut v: u64 = 0;
    let mut i: usize = 0;
    while i < n
        invariant
            0 < n == s@.len(),
            i <= n,
            all_digits(s@.take(i as int)),
            v == digits_val(s@.take(i as int)),
        decreases n - i,
    {
        let c = s.get_char(i);
        let cv = c as u32;
        if cv < 48 || cv > 57 {
            proof {
                assert(!all_digits(s@)) by {
                    assert(s@[i as int] == c);
                }
            }
            return None;
        }
        let d = (cv - 48) as u64;
        let next = match v.checked_mul(10) {
            Some(x) => x.checked_add(d),
            None => None,
        };
        match next {
            Some(x) => {
                proof {
                    assert(s@.take(i + 1).drop_last() =~= s@.take(i as int));
                    assert(all_digits(s@.take(i + 1)));
                }
                v = x;
            },
            None => {
                proof {
                    assert(s@.take(i + 1).drop_last() =~= s@.take(i as int));
                    assert(all_digits(s@.take(i + 1)));
                    assert(digits_val(s@.take(i + 1)) > u64::MAX);
                    if all_digits(s@) {
                        lemma_digits_val_extend(s@, i + 1);
                    }
                }
                return None;
            },
        }
        i = i + 1;
    }
    proof {
        assert(s@.take(n as int) =~= s@);
    }
    Some(v)
}

/// Whitespace characters trimmed from value files.
pub open spec fn is_ws(c: char) -> bool {
    c == ' ' || c == '\n' || c == '\t' || c == '\r'
}

/// The string with trailing whitespace removed.
pub open spec fn spec_trim_end(s: Seq<char>) -> Seq<char>
    decreases s.len(),
{
    if s.len() == 0 {
        s
    } else if is_ws(s.last()) {
        spec_trim_end(s.drop_last())
    } else {
        s
    }
}

/// Trim trailing whitespace.
pub fn trim_end(s: &str) -> (r: String)
    ensures
        r@ == spec_trim_end(s@),
{
    let n = s.unicode_len();
    let mut k: usize = n;
    proof {
        assert(s@.take(n as int) =~= s@);
    }
    while k > 0
        invariant_except_break
            n == s@.len(),
            k <= n,
            spec_trim_end(s@) == spec_trim_end(s@.take(k as int)),
        ensures
            k <= n,
            spec_trim_end(s@) == s@.take(k as int),
        decreases k,
    {
        let c = s.get_char(k - 1);
        proof {
            assert(s@.take(k as int).last() == s@[k - 1]);
            assert(s@.take(k as int).drop_last() =~= s@.take(k - 1));
        }
        if c == ' ' || c == '\n' || c == '\t' || c == '\r' {
            k = k - 1;
        } else {
            proof {
                assert(spec_trim_end(s@.take(k as int)) == s@.take(k as int));
            }
            break;
        }
        proof {
            if k == 0 {
                assert(s@.take(0) =~= Seq::<char>::empty());
                assert(spec_trim_end(s@.take(0)) == s@.take(0));
            }
        }
    }
    proof {
        if k == 0 {
            assert(s@.take(0) =~= Seq::<char>::empty());
        }
    }
    s.substring_char(0, k).to_owned()
}

/// The string with leading whitespace removed.
pub open spec fn spec_trim_start(s: Seq<char>) -> Seq<char>
    decreases s.len(),
{
    if s.len() == 0 {
        s
    } else if is_ws(s[0]) {
        spec_trim_start(s.drop_first())
    } else {
        s
    }
}

/// Trim leading whitespace.
pub fn trim_start(s: &str) -> (r: String)
    ensures
        r@ == spec_trim_start(s@),
{
    let n = s.unicode_len();
    let mut k: usize = 0;
    proof {
        assert(s@.skip(0) =~= s@);
    }
    while k < n
        invariant_except_break
            n == s@.len(),
            k <= n,
            spec_trim_start(s@) == spec_trim_start(s@.skip(k as int)),
        ensures
            k <= n,
            spec_trim_start(s@) == s@.skip(k as int),
        decreases n - k,
    {
        let c = s.get_char(k);
        proof {
            assert(s@.skip(k as int)[0] == s@[k as int]);
            assert(s@.skip(k as int).drop_first() =~= s@.skip(k + 1));
        }
        if c == ' ' || c == '\n' || c == '\t' || c == '\r' {
            k = k + 1;
        } else {
            proof {
                assert(spec_trim_start(s@.skip(k as int)) == s@.skip(k as int));
            }
            break;
        }
        proof {
            if k == n {
                assert(s@.skip(n as int) =~= Seq::<char>::empty());
                assert(spec_trim_start(s@.skip(n as int)) == s@.skip(n as int));
            }
        }
    }
    proof {
        if k == n {
            assert(s@.skip(n as int) =~= Seq::<char>::empty());
        }
    }
    s.substring_char(k, n).to_owned()
}

/// Character-for-character string equality.
pub fn str_eq(a: &str, b: &str) -> (r: bool)
    ensures
        r == (a@ == b@),
{
    let na = a.unicode_len();
    let nb = b.unicode_len();
    if na != nb {
        return false;
    }
    let mut i: usize = 0;
    while i < na
        invariant
            na == a@.len(),
            na == b@.len(),
            i <= na,
            forall|j: int| 0 <= j < i ==> a@[j] == b@[j],
        decreases na - i,
    {
        if a.get_char(i) != b.get_char(i) {
            return false;
        }
        i = i + 1;
    }
    proof {
        assert(a@ =~= b@);
    }
    true
}

/// The first index where character `c` occurs.
pub open spec fn find_index(s: Seq<char>, c: char) -> Option<int>
    decreases s.len(),
{
    if s.len() == 0 {
        None
    } else if s[0] == c {
        Some(0)
    } else {
        match find_index(s.drop_first(), c) {
            Some(i) => Some(i + 1),
            None => None,
        }
    }
}

/// `find_index` returns the first occurrence, if any.
pub proof fn lemma_find_index(s: Seq<char>, c: char)
    ensures
        match find_index(s, c) {
            Some(i) => 0 <= i < s.len() && s[i] == c && forall|j: int|
                0 <= j < i ==> s[j] != c,
            None => forall|j: int| 0 <= j < s.len() ==> s[j] != c,
        },
    decreases s.len(),
{
    if s.len() > 0 && s[0] != c {
        lemma_find_index(s.drop_first(), c);
        let t = s.drop_first();
        assert(forall|j: int| 0 <= j < t.len() ==> #[trigger] t[j] == s[j + 1]);
        match find_index(t, c) {
            Some(i2) => {
                assert forall|j: int| 0 <= j < i2 + 1 implies s[j] != c by {
                    if j >= 1 {
                        assert(t[j - 1] != c);
                    }
                }
            },
            None => {
                assert forall|j: int| 0 <= j < s.len() implies s[j] != c by {
                    if j >= 1 {
                        assert(t[j - 1] != c);
                    }
                }
            },
        }
    }
}

/// Find the first occurrence of a character.
pub fn find_char(s: &str, c: char) -> (r: Option<usize>)
    ensures
        match r {
            Some(i) => find_index(s@, c) == Some(i as int),
            None => find_index(s@, c) is None,
        },
{
    proof {
        lemma_find_index(s@, c);
    }
    let n = s.unicode_len();
    let mut i: usize = 0;
    while i < n
        invariant
            n == s@.len(),
            i <= n,
            forall|j: int| 0 <= j < i ==> s@[j] != c,
        decreases n - i,
    {
        if s.get_char(i) == c {
            proof {
                lemma_find_index(s@, c);
                match find_index(s@, c) {
                    Some(k) => {
                        assert(k == i) by {
                            if k < i as int {
                                assert(s@[k] != c);
                            }
                        }
                    },
                    None => {
                        assert(s@[i as int] != c);
                    },
                }
            }
            return Some(i);
        }
        i = i + 1;
    }
    None
}

} // verus!
