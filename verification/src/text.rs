//! Character-level text helpers: decimal digits, whitespace trimming,
//! decimal rendering of integers and the lexicographic order of strings.
use vstd::prelude::*;

verus! {

// ---------------------------------------------------------------------------
// Decimal digits
// ---------------------------------------------------------------------------

/// An ASCII decimal digit, `'0'..='9'`.
pub open spec fn is_digit(c: char) -> bool {
    48 <= (c as u32) && (c as u32) <= 57
}

/// The numeric value of a digit character.
pub open spec fn digit_value(c: char) -> int {
    (c as u32) - 48
}

/// Every character of `s` is an ASCII decimal digit (vacuously true when empty).
pub open spec fn all_digits(s: Seq<char>) -> bool {
    forall|i: int| 0 <= i < s.len() ==> #[trigger] is_digit(s[i])
}

/// The value of a string of decimal digits, most significant first (0 when empty).
pub open spec fn digits_value(s: Seq<char>) -> int
    decreases s.len(),
{
    if s.len() == 0 {
        0
    } else {
        digits_value(s.drop_last()) * 10 + digit_value(s.last())
    }
}

/// Digit values are never negative.
pub proof fn lemma_digits_nonneg(s: Seq<char>)
    requires
        all_digits(s),
    ensures
        digits_value(s) >= 0,
    decreases s.len(),
{
    if s.len() > 0 {
        assert(is_digit(s[s.len() - 1]));
        lemma_digits_nonneg(s.drop_last());
    }
}

/// A longer prefix of a digit string never has a smaller value.
pub proof fn lemma_digits_prefix_monotone(s: Seq<char>, i: int, j: int)
    requires
        all_digits(s),
        0 <= i <= j <= s.len(),
    ensures
        digits_value(s.take(i)) <= digits_value(s.take(j)),
    decreases j - i,
{
    if i < j {
        lemma_digits_prefix_monotone(s, i, j - 1);
        let t = s.take(j);
        assert(t.drop_last() =~= s.take(j - 1));
        assert(is_digit(s[j - 1]));
        lemma_digits_nonneg(s.take(j - 1));
    }
}

/// Reads the digits `cs[lo..hi]` as an unsigned number; `None` when the value
/// does not fit in a `u64`.
pub fn parse_digits(cs: &Vec<char>, lo: usize, hi: usize) -> (r: Option<u64>)
    requires
        lo <= hi <= cs@.len(),
        all_digits(cs@.subrange(lo as int, hi as int)),
    ensures
        match r {
            Some(v) => v == digits_value(cs@.subrange(lo as int, hi as int)),
            None => digits_value(cs@.subrange(lo as int, hi as int)) > u64::MAX,
        },
{
    let ghost s = cs@.subrange(lo as int, hi as int);
    let mut acc: u64 = 0;
    let mut i: usize = lo;
    assert(s.take(0) =~= Seq::<char>::empty());
    while i < hi
        invariant
            lo <= i <= hi <= cs@.len(),
            s == cs@.subrange(lo as int, hi as int),
            all_digits(s),
            acc == digits_value(s.take(i - lo)),
        decreases hi - i,
    {
        let c = cs[i];
        assert(s[i - lo] == c);
        assert(is_digit(c));
        let d: u64 = ((c as u32) - 48) as u64;
        assert(s.take(i - lo + 1).drop_last() =~= s.take(i - lo));
        let m = acc.checked_mul(10);
        match m {
            None => {
                proof {
                    lemma_digits_prefix_monotone(s, i - lo + 1, s.len() as int);
                    assert(s.take(s.len() as int) =~= s);
                }
                return None;
            },
            Some(m) => {
                match m.checked_add(d) {
                    None => {
                        proof {
                            lemma_digits_prefix_monotone(s, i - lo + 1, s.len() as int);
                            assert(s.take(s.len() as int) =~= s);
                        }
                        return None;
                    },
                    Some(v) => {
                        acc = v;
                    },
                }
            },
        }
        i = i + 1;
    }
    assert(s.take(hi - lo) =~= s);
    Some(acc)
}

// ---------------------------------------------------------------------------
// Whitespace
// ---------------------------------------------------------------------------

/// Unicode `White_Space`, the property that `char::is_whitespace` tests.
pub open spec fn is_ws(c: char) -> bool {
    let n = c as u32;
    ||| 9 <= n <= 13
    ||| n == 32
    ||| n == 0x85
    ||| n == 0xA0
    ||| n == 0x1680
    ||| 0x2000 <= n <= 0x200A
    ||| n == 0x2028
    ||| n == 0x2029
    ||| n == 0x202F
    ||| n == 0x205F
    ||| n == 0x3000
}

fn is_ws_char(c: char) -> (b: bool)
    ensures
        b == is_ws(c),
{
    let n = c as u32;
    (9 <= n && n <= 13) || n == 32 || n == 0x85 || n == 0xA0 || n == 0x1680 || (0x2000 <= n && n
        <= 0x200A) || n == 0x2028 || n == 0x2029 || n == 0x202F || n == 0x205F || n == 0x3000
}

/// `s` without its leading whitespace.
pub open spec fn trim_start(s: Seq<char>) -> Seq<char>
    decreases s.len(),
{
    if s.len() > 0 && is_ws(s[0]) {
        trim_start(s.drop_first())
    } else {
        s
    }
}

/// `s` without its trailing whitespace.
pub open spec fn trim_end(s: Seq<char>) -> Seq<char>
    decreases s.len(),
{
    if s.len() > 0 && is_ws(s.last()) {
        trim_end(s.drop_last())
    } else {
        s
    }
}

/// `s` without leading and trailing whitespace, as `str::trim` gives it.
pub open spec fn trim(s: Seq<char>) -> Seq<char> {
    trim_end(trim_start(s))
}

proof fn lemma_trim_start_at(s: Seq<char>, i: int)
    requires
        0 <= i <= s.len(),
        forall|j: int| 0 <= j < i ==> is_ws(#[trigger] s[j]),
        i == s.len() || !is_ws(s[i]),
    ensures
        trim_start(s) == s.subrange(i, s.len() as int),
    decreases i,
{
    if i == 0 {
        assert(s.subrange(0, s.len() as int) =~= s);
    } else {
        assert(is_ws(s[0]));
        let t = s.drop_first();
        assert forall|j: int| 0 <= j < i - 1 implies is_ws(#[trigger] t[j]) by {
            assert(t[j] == s[j + 1]);
        }
        lemma_trim_start_at(t, i - 1);
        assert(t.subrange(i - 1, t.len() as int) =~= s.subrange(i, s.len() as int));
    }
}

proof fn lemma_trim_end_at(s: Seq<char>, j: int)
    requires
        0 <= j <= s.len(),
        forall|k: int| j <= k < s.len() ==> is_ws(#[trigger] s[k]),
        j == 0 || !is_ws(s[j - 1]),
    ensures
        trim_end(s) == s.subrange(0, j),
    decreases s.len() - j,
{
    if j == s.len() {
        assert(s.subrange(0, j) =~= s);
    } else {
        assert(is_ws(s[s.len() - 1]));
        let t = s.drop_last();
        assert forall|k: int| j <= k < t.len() implies is_ws(#[trigger] t[k]) by {
            assert(t[k] == s[k]);
        }
        lemma_trim_end_at(t, j);
        assert(t.subrange(0, j) =~= s.subrange(0, j));
    }
}

/// The bounds `(lo, hi)` of `cs` once leading and trailing whitespace is cut off.
pub fn trim_bounds(cs: &Vec<char>) -> (r: (usize, usize))
    ensures
        r.0 <= r.1 <= cs@.len(),
        trim(cs@) == cs@.subrange(r.0 as int, r.1 as int),
{
    let n = cs.len();
    let mut lo: usize = 0;
    while lo < n && is_ws_char(cs[lo])
        invariant
            lo <= n == cs@.len(),
            forall|j: int| 0 <= j < lo ==> is_ws(#[trigger] cs@[j]),
        decreases n - lo,
    {
        lo = lo + 1;
    }
    let mut hi: usize = n;
    while hi > lo && is_ws_char(cs[hi - 1])
        invariant
            lo <= hi <= n == cs@.len(),
            forall|k: int| hi <= k < n ==> is_ws(#[trigger] cs@[k]),
        decreases hi - lo,
    {
        hi = hi - 1;
    }
    proof {
        lemma_trim_start_at(cs@, lo as int);
        let t = cs@.subrange(lo as int, n as int);
        assert forall|k: int| hi - lo <= k < t.len() implies is_ws(#[trigger] t[k]) by {
            assert(t[k] == cs@[k + lo]);
        }
        if hi > lo {
            assert(t[hi - lo - 1] == cs@[hi - 1]);
        }
        lemma_trim_end_at(t, hi - lo);
        assert(t.subrange(0, hi - lo) =~= cs@.subrange(lo as int, hi as int));
    }
    (lo, hi)
}

// ---------------------------------------------------------------------------
// Reading and writing text
// ---------------------------------------------------------------------------

/// The characters of `s`, in order.
pub fn chars_of(s: &str) -> (v: Vec<char>)
    ensures
        v@ == s@,
{
    let mut v: Vec<char> = Vec::new();
    for c in it: s.chars()
        invariant
            v@ == it.seq().take(it.index() as int),
    {
        v.push(c);
    }
    v
}

/// Whether two strings hold the same characters.
pub fn same_text(a: &str, b: &str) -> (r: bool)
    ensures
        r == (a@ == b@),
{
    let x = String::from_str(a);
    let y = String::from_str(b);
    x == y
}

/// The character of a decimal digit value.
pub open spec fn digit_char(d: nat) -> char {
    (d + 48) as char
}

/// The decimal rendering of a natural number, without leading zeros.
pub open spec fn udec(n: nat) -> Seq<char>
    decreases n,
{
    if n < 10 {
        seq![digit_char(n)]
    } else {
        udec(n / 10).push(digit_char(n % 10))
    }
}

/// The decimal rendering of an integer, as `Display` writes an `i64`.
pub open spec fn idec(n: int) -> Seq<char> {
    if n < 0 {
        seq!['-'] + udec((-n) as nat)
    } else {
        udec(n as nat)
    }
}

fn digit_text(d: u64) -> (s: &'static str)
    requires
        d < 10,
    ensures
        s@ == seq![digit_char(d as nat)],
{
    proof {
        reveal_strlit("0");
        reveal_strlit("1");
        reveal_strlit("2");
        reveal_strlit("3");
        reveal_strlit("4");
        reveal_strlit("5");
        reveal_strlit("6");
        reveal_strlit("7");
        reveal_strlit("8");
        reveal_strlit("9");
    }
    if d == 0 {
        "0"
    } else if d == 1 {
        "1"
    } else if d == 2 {
        "2"
    } else if d == 3 {
        "3"
    } else if d == 4 {
        "4"
    } else if d == 5 {
        "5"
    } else if d == 6 {
        "6"
    } else if d == 7 {
        "7"
    } else if d == 8 {
        "8"
    } else {
        "9"
    }
}

/// Appends the decimal rendering of `n` to `out`.
pub fn push_udec(n: u64, out: &mut String)
    ensures
        final(out)@ == old(out)@ + udec(n as nat),
    decreases n,
{
    if n >= 10 {
        push_udec(n / 10, out);
    }
    out.append(digit_text(n % 10));
    proof {
        if n >= 10 {
            assert(udec(n as nat) == udec((n / 10) as nat).push(digit_char((n % 10) as nat)));
        }
    }
}


// ---------------------------------------------------------------------------
// Lexicographic order
// ---------------------------------------------------------------------------

/// `a` sorts strictly before `b`: the order of `String`, which compares the
/// UTF-8 bytes and so the code points one after the other.
pub open spec fn text_lt(a: Seq<char>, b: Seq<char>) -> bool
    decreases a.len(),
{
    if a.len() == 0 {
        b.len() > 0
    } else if b.len() == 0 {
        false
    } else if a[0] != b[0] {
        (a[0] as u32) < (b[0] as u32)
    } else {
        text_lt(a.drop_first(), b.drop_first())
    }
}

/// No text sorts before itself.
pub proof fn lemma_text_lt_irreflexive(a: Seq<char>)
    ensures
        !text_lt(a, a),
    decreases a.len(),
{
    if a.len() > 0 {
        lemma_text_lt_irreflexive(a.drop_first());
    }
}

/// The order is transitive.
pub proof fn lemma_text_lt_transitive(a: Seq<char>, b: Seq<char>, c: Seq<char>)
    requires
        text_lt(a, b),
        text_lt(b, c),
    ensures
        text_lt(a, c),
    decreases a.len(),
{
    if a.len() > 0 && b.len() > 0 && c.len() > 0 {
        if a[0] == b[0] && b[0] == c[0] {
            lemma_text_lt_transitive(a.drop_first(), b.drop_first(), c.drop_first());
        }
    }
}

pub proof fn lemma_char_code_injective(x: char, y: char)
    ensures
        x != y ==> (x as u32) != (y as u32),
{
}

proof fn lemma_text_lt_common_prefix(a: Seq<char>, b: Seq<char>, i: int)
    requires
        0 <= i <= a.len(),
        i <= b.len(),
        a.take(i) == b.take(i),
    ensures
        text_lt(a, b) == text_lt(a.skip(i), b.skip(i)),
    decreases i,
{
    if i > 0 {
        assert(a[0] == a.take(i)[0]);
        assert(b[0] == b.take(i)[0]);
        assert(a.drop_first().take(i - 1) =~= a.take(i).drop_first());
        assert(b.drop_first().take(i - 1) =~= b.take(i).drop_first());
        lemma_text_lt_common_prefix(a.drop_first(), b.drop_first(), i - 1);
        assert(a.drop_first().skip(i - 1) =~= a.skip(i));
        assert(b.drop_first().skip(i - 1) =~= b.skip(i));
    } else {
        assert(a.skip(0) =~= a);
        assert(b.skip(0) =~= b);
    }
}

/// How two texts are placed in the lexicographic order.
pub enum Placement {
    Before,
    Same,
    After,
}

/// Places `a` relative to `b` in the lexicographic order.
pub fn place_text(a: &Vec<char>, b: &Vec<char>) -> (r: Placement)
    ensures
        r is Before <==> text_lt(a@, b@),
        r is Same <==> a@ == b@,
        r is After <==> text_lt(b@, a@),
{
    let mut i: usize = 0;
    while i < a.len() && i < b.len() && a[i] == b[i]
        invariant
            i <= a@.len(),
            i <= b@.len(),
            a@.take(i as int) == b@.take(i as int),
        decreases a@.len() - i,
    {
        assert(a@.take(i + 1) =~= a@.take(i as int).push(a@[i as int]));
        assert(b@.take(i + 1) =~= b@.take(i as int).push(b@[i as int]));
        i = i + 1;
    }
    proof {
        lemma_text_lt_common_prefix(a@, b@, i as int);
        lemma_text_lt_common_prefix(b@, a@, i as int);
        lemma_text_lt_irreflexive(a@);
        if i == a@.len() && i == b@.len() {
            assert(a@ =~= a@.take(i as int));
            assert(b@ =~= b@.take(i as int));
        } else if i < a@.len() && i < b@.len() {
            assert(a@.skip(i as int)[0] == a@[i as int]);
            assert(b@.skip(i as int)[0] == b@[i as int]);
            assert(a@[i as int] != b@[i as int]);
            lemma_char_code_injective(a@[i as int], b@[i as int]);
            assert(text_lt(a@.skip(i as int), b@.skip(i as int)) == ((a@[i as int] as u32) < (
            b@[i as int] as u32)));
            assert(text_lt(b@.skip(i as int), a@.skip(i as int)) == ((b@[i as int] as u32) < (
            a@[i as int] as u32)));
            if a@ == b@ {
                assert(a@[i as int] == b@[i as int]);
            }
        } else if i == a@.len() {
            assert(a@.skip(i as int).len() == 0);
            if a@ == b@ {
                assert(false);
            }
        } else {
            assert(b@.skip(i as int).len() == 0);
        }
    }
    if i == a.len() && i == b.len() {
        Placement::Same
    } else if i == a.len() {
        Placement::Before
    } else if i == b.len() {
        Placement::After
    } else if (a[i] as u32) < (b[i] as u32) {
        Placement::Before
    } else {
        Placement::After
    }
}

// ---------------------------------------------------------------------------
// Finding the decimal point
// ---------------------------------------------------------------------------

/// The index of the first `'.'` in `s`, or -1 when it holds none.
pub open spec fn first_dot(s: Seq<char>) -> int
    decreases s.len(),
{
    if s.len() == 0 {
        -1
    } else if s[0] == '.' {
        0
    } else {
        let r = first_dot(s.drop_first());
        if r < 0 {
            -1
        } else {
            r + 1
        }
    }
}

pub proof fn lemma_first_dot_at(s: Seq<char>, i: int)
    requires
        0 <= i <= s.len(),
        forall|j: int| 0 <= j < i ==> #[trigger] s[j] != '.',
        i == s.len() || s[i] == '.',
    ensures
        first_dot(s) == if i == s.len() {
            -1
        } else {
            i
        },
    decreases i,
{
    if i > 0 {
        let t = s.drop_first();
        assert(s[0] != '.');
        assert forall|j: int| 0 <= j < i - 1 implies #[trigger] t[j] != '.' by {
            assert(t[j] == s[j + 1]);
        }
        if i < s.len() {
            assert(t[i - 1] == s[i]);
        }
        lemma_first_dot_at(t, i - 1);
    }
}

/// The index of the first `'.'` in `cs[lo..hi]`, relative to `lo`, or -1.
pub fn find_dot(cs: &Vec<char>, lo: usize, hi: usize) -> (r: Option<usize>)
    requires
        lo <= hi <= cs@.len(),
    ensures
        match r {
            Some(d) => lo <= d < hi && first_dot(cs@.subrange(lo as int, hi as int)) == d - lo,
            None => first_dot(cs@.subrange(lo as int, hi as int)) == -1,
        },
{
    let ghost s = cs@.subrange(lo as int, hi as int);
    let mut i: usize = lo;
    while i < hi
        invariant
            lo <= i <= hi <= cs@.len(),
            s == cs@.subrange(lo as int, hi as int),
            forall|j: int| 0 <= j < i - lo ==> #[trigger] s[j] != '.',
        decreases hi - i,
    {
        if cs[i] == '.' {
            proof {
                assert(s[i - lo] == cs@[i as int]);
                lemma_first_dot_at(s, i - lo);
            }
            return Some(i);
        }
        assert(s[i - lo] == cs@[i as int]);
        i = i + 1;
    }
    proof {
        lemma_first_dot_at(s, s.len() as int);
    }
    None
}

// ---------------------------------------------------------------------------
// Reading a signed integer
// ---------------------------------------------------------------------------

/// What `str::parse::<i64>` gives for `s`: an optional `+` or `-`, then one or
/// more ASCII digits, the value within the range of `i64`.
pub open spec fn read_i64(s: Seq<char>) -> Option<int> {
    if s.len() == 0 {
        None
    } else {
        let signed = s[0] == '-' || s[0] == '+';
        let body = if signed {
            s.drop_first()
        } else {
            s
        };
        let v = if s[0] == '-' {
            -digits_value(body)
        } else {
            digits_value(body)
        };
        if body.len() == 0 || !all_digits(body) {
            None
        } else if v < i64::MIN || v > i64::MAX {
            None
        } else {
            Some(v)
        }
    }
}

pub fn all_digits_in(cs: &Vec<char>, lo: usize, hi: usize) -> (b: bool)
    requires
        lo <= hi <= cs@.len(),
    ensures
        b == all_digits(cs@.subrange(lo as int, hi as int)),
{
    let ghost s = cs@.subrange(lo as int, hi as int);
    let mut i: usize = lo;
    while i < hi
        invariant
            lo <= i <= hi <= cs@.len(),
            s == cs@.subrange(lo as int, hi as int),
            forall|j: int| 0 <= j < i - lo ==> #[trigger] is_digit(s[j]),
        decreases hi - i,
    {
        let n = cs[i] as u32;
        assert(s[i - lo] == cs@[i as int]);
        if !(48 <= n && n <= 57) {
            assert(!is_digit(s[i - lo]));
            return false;
        }
        i = i + 1;
    }
    true
}

/// Parses `cs` as `str::parse::<i64>` does.
pub fn parse_i64(cs: &Vec<char>) -> (r: Option<i64>)
    ensures
        match read_i64(cs@) {
            Some(v) => r == Some(v as i64),
            None => r is None,
        },
{
    let n = cs.len();
    if n == 0 {
        return None;
    }
    let neg = cs[0] == '-';
    let start: usize = if cs[0] == '-' || cs[0] == '+' {
        1
    } else {
        0
    };
    assert(cs@.subrange(start as int, n as int) =~= if start == 1 {
        cs@.drop_first()
    } else {
        cs@
    });
    if start == n || !all_digits_in(cs, start, n) {
        return None;
    }
    proof {
        lemma_digits_nonneg(cs@.subrange(start as int, n as int));
    }
    match parse_digits(cs, start, n) {
        None => None,
        Some(m) => {
            if neg {
                if m <= 9223372036854775807u64 {
                    Some(-(m as i64))
                } else if m == 9223372036854775808u64 {
                    Some(i64::MIN)
                } else {
                    None
                }
            } else {
                if m <= 9223372036854775807u64 {
                    Some(m as i64)
                } else {
                    None
                }
            }
        },
    }
}

} // verus!
