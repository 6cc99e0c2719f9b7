//! Character-level text rules: whitespace trimming, separator search and the
//! decimal integer syntax used by port references.
use vstd::prelude::*;
use vstd::string::StrSliceExecFns;

verus! {

/// Unicode `White_Space`, the property behind `char::is_whitespace`.
pub open spec fn is_ws(c: char) -> bool {
    let u = c as u32;
    ||| 0x09 <= u <= 0x0d
    ||| u == 0x20
    ||| u == 0x85
    ||| u == 0xa0
    ||| u == 0x1680
    ||| 0x2000 <= u <= 0x200a
    ||| u == 0x2028
    ||| u == 0x2029
    ||| u == 0x202f
    ||| u == 0x205f
    ||| u == 0x3000
}

pub fn is_whitespace(c: char) -> (r: bool)
    ensures
        r == is_ws(c),
{
    let u = c as u32;
    (0x09 <= u && u <= 0x0d) || u == 0x20 || u == 0x85 || u == 0xa0 || u == 0x1680 || (0x2000
        <= u && u <= 0x200a) || u == 0x2028 || u == 0x2029 || u == 0x202f || u == 0x205f || u
        == 0x3000
}

/// Number of leading whitespace characters.
pub open spec fn lead_ws(s: Seq<char>) -> nat
    decreases s.len(),
{
    if s.len() > 0 && is_ws(s[0]) {
        1 + lead_ws(s.drop_first())
    } else {
        0
    }
}

/// Number of trailing whitespace characters.
pub open spec fn trail_ws(s: Seq<char>) -> nat
    decreases s.len(),
{
    if s.len() > 0 && is_ws(s.last()) {
        1 + trail_ws(s.drop_last())
    } else {
        0
    }
}

/// `str::trim`: both whitespace runs removed.
pub open spec fn trim(s: Seq<char>) -> Seq<char> {
    let t = s.skip(lead_ws(s) as int);
    t.take(t.len() - trail_ws(t))
}

pub proof fn lemma_lead_ws(s: Seq<char>)
    ensures
        lead_ws(s) <= s.len(),
        forall|i: int| 0 <= i < lead_ws(s) ==> is_ws(#[trigger] s[i]),
        lead_ws(s) < s.len() ==> !is_ws(s[lead_ws(s) as int]),
    decreases s.len(),
{
    if s.len() > 0 && is_ws(s[0]) {
        lemma_lead_ws(s.drop_first());
        assert forall|i: int| 0 <= i < lead_ws(s) implies is_ws(#[trigger] s[i]) by {
            if i > 0 {
                assert(s[i] == s.drop_first()[i - 1]);
            }
        }
        if lead_ws(s) < s.len() {
            assert(s[lead_ws(s) as int] == s.drop_first()[lead_ws(s.drop_first()) as int]);
        }
    }
}

pub proof fn lemma_trail_ws(s: Seq<char>)
    ensures
        trail_ws(s) <= s.len(),
        forall|i: int| s.len() - trail_ws(s) <= i < s.len() ==> is_ws(#[trigger] s[i]),
        trail_ws(s) < s.len() ==> !is_ws(s[s.len() - trail_ws(s) - 1]),
    decreases s.len(),
{
    if s.len() > 0 && is_ws(s.last()) {
        lemma_trail_ws(s.drop_last());
        assert forall|i: int| s.len() - trail_ws(s) <= i < s.len() implies is_ws(
            #[trigger] s[i],
        ) by {
            if i < s.len() - 1 {
                assert(s[i] == s.drop_last()[i]);
            }
        }
        if trail_ws(s) < s.len() {
            assert(s[s.len() - trail_ws(s) - 1] == s.drop_last()[s.drop_last().len() - trail_ws(
                s.drop_last(),
            ) - 1]);
        }
    }
}

/// A run `s[lo..hi]` with whitespace exactly on `[lo, k)` has `k - lo` leading blanks.
pub proof fn lemma_lead_ws_exact(s: Seq<char>, k: int)
    requires
        0 <= k <= s.len(),
        forall|i: int| 0 <= i < k ==> is_ws(#[trigger] s[i]),
        k < s.len() ==> !is_ws(s[k]),
    ensures
        lead_ws(s) == k,
    decreases s.len(),
{
    if k > 0 {
        assert(is_ws(s[0]));
        assert forall|i: int| 0 <= i < k - 1 implies is_ws(#[trigger] s.drop_first()[i]) by {
            assert(s.drop_first()[i] == s[i + 1]);
        }
        if k - 1 < s.drop_first().len() {
            assert(s.drop_first()[k - 1] == s[k]);
        }
        lemma_lead_ws_exact(s.drop_first(), k - 1);
    }
}

pub proof fn lemma_trail_ws_exact(s: Seq<char>, k: int)
    requires
        0 <= k <= s.len(),
        forall|i: int| s.len() - k <= i < s.len() ==> is_ws(#[trigger] s[i]),
        k < s.len() ==> !is_ws(s[s.len() - k - 1]),
    ensures
        trail_ws(s) == k,
    decreases s.len(),
{
    if k > 0 {
        assert(is_ws(s[s.len() - 1]));
        let d = s.drop_last();
        assert forall|i: int| d.len() - (k - 1) <= i < d.len() implies is_ws(#[trigger] d[i]) by {
            assert(d[i] == s[i]);
        }
        if k - 1 < d.len() {
            assert(d[d.len() - (k - 1) - 1] == s[s.len() - k - 1]);
        }
        lemma_trail_ws_exact(d, k - 1);
    }
}

/// Trimmed bounds of `s[lo..hi]`.
pub fn trim_bounds(s: &Vec<char>, lo: usize, hi: usize) -> (r: (usize, usize))
    requires
        lo <= hi <= s@.len(),
    ensures
        lo <= r.0 <= r.1 <= hi,
        s@.subrange(r.0 as int, r.1 as int) == trim(s@.subrange(lo as int, hi as int)),
{
    let mut a = lo;
    while a < hi && is_whitespace(s[a])
        invariant
            lo <= a <= hi <= s@.len(),
            forall|i: int| lo <= i < a ==> is_ws(#[trigger] s@[i]),
        decreases hi - a,
    {
        a = a + 1;
    }
    let mut b = hi;
    while b > a && is_whitespace(s[b - 1])
        invariant
            lo <= a <= b <= hi <= s@.len(),
            forall|i: int| b <= i < hi ==> is_ws(#[trigger] s@[i]),
        decreases b - a,
    {
        b = b - 1;
    }
    proof {
        let w = s@.subrange(lo as int, hi as int);
        assert forall|i: int| 0 <= i < a - lo implies is_ws(#[trigger] w[i]) by {
            assert(w[i] == s@[lo + i]);
        }
        if a < hi {
            assert(w[a - lo] == s@[a as int]);
        }
        lemma_lead_ws_exact(w, a - lo);
        let t = w.skip(lead_ws(w) as int);
        assert(t =~= s@.subrange(a as int, hi as int));
        assert forall|i: int| t.len() - (hi - b) <= i < t.len() implies is_ws(#[trigger] t[i]) by {
            assert(t[i] == s@[a + i]);
        }
        if hi - b < t.len() {
            assert(t[t.len() - (hi - b) - 1] == s@[b - 1]);
        }
        lemma_trail_ws_exact(t, hi - b);
        assert(t.take(t.len() - trail_ws(t)) =~= s@.subrange(a as int, b as int));
    }
    (a, b)
}

/// Position of the first `c`, as `str::find` reports it.
pub open spec fn find(s: Seq<char>, c: char) -> Option<int>
    decreases s.len(),
{
    if s.len() == 0 {
        None
    } else if s[0] == c {
        Some(0)
    } else {
        match find(s.drop_first(), c) {
            Some(i) => Some(i + 1),
            None => None,
        }
    }
}

pub proof fn lemma_find(s: Seq<char>, c: char)
    ensures
        match find(s, c) {
            Some(i) => 0 <= i < s.len() && s[i] == c && forall|j: int|
                0 <= j < i ==> s[j] != c,
            None => forall|j: int| 0 <= j < s.len() ==> s[j] != c,
        },
    decreases s.len(),
{
    if s.len() > 0 && s[0] != c {
        lemma_find(s.drop_first(), c);
        match find(s.drop_first(), c) {
            Some(i) => {
                assert forall|j: int| 0 <= j < i + 1 implies s[j] != c by {
                    if j > 0 {
                        assert(s[j] == s.drop_first()[j - 1]);
                    }
                }
                assert(s[i + 1] == s.drop_first()[i]);
            },
            None => {
                assert forall|j: int| 0 <= j < s.len() implies s[j] != c by {
                    if j > 0 {
                        assert(s[j] == s.drop_first()[j - 1]);
                    }
                }
            },
        }
    }
}

pub proof fn lemma_find_exact(s: Seq<char>, c: char, k: int)
    requires
        0 <= k <= s.len(),
        forall|j: int| 0 <= j < k ==> s[j] != c,
        k < s.len() ==> s[k] == c,
    ensures
        find(s, c) == (if k < s.len() {
            Some(k)
        } else {
            None::<int>
        }),
{
    lemma_find(s, c);
}

/// First index of `c` in `s[lo..hi]`, relative to the whole vector.
pub fn find_char(s: &Vec<char>, lo: usize, hi: usize, c: char) -> (r: Option<usize>)
    requires
        lo <= hi <= s@.len(),
    ensures
        match r {
            Some(i) => lo <= i < hi && find(s@.subrange(lo as int, hi as int), c) == Some(
                i - lo,
            ),
            None => find(s@.subrange(lo as int, hi as int), c) == None::<int>,
        },
{
    let mut i = lo;
    while i < hi
        invariant
            lo <= i <= hi <= s@.len(),
            forall|j: int| lo <= j < i ==> s@[j] != c,
        decreases hi - i,
    {
        if s[i] == c {
            proof {
                let w = s@.subrange(lo as int, hi as int);
                assert forall|j: int| 0 <= j < i - lo implies w[j] != c by {
                    assert(w[j] == s@[lo + j]);
                }
                lemma_find_exact(w, c, i - lo);
            }
            return Some(i);
        }
        i = i + 1;
    }
    proof {
        let w = s@.subrange(lo as int, hi as int);
        assert forall|j: int| 0 <= j < w.len() implies w[j] != c by {
            assert(w[j] == s@[lo + j]);
        }
        lemma_find_exact(w, c, w.len() as int);
    }
    None
}

/// Why an integer literal was refused, mirroring `std::num::IntErrorKind`.
#[derive(Clone, Copy, Debug, PartialEq, Eq)]
pub enum IntError {
    Empty,
    InvalidDigit,
    PosOverflow,
    NegOverflow,
}

impl IntError {
    pub open spec fn spec_message(self) -> Seq<char> {
        match self {
            IntError::Empty => "cannot parse integer from empty string"@,
            IntError::InvalidDigit => "invalid digit found in string"@,
            IntError::PosOverflow => "number too large to fit in target type"@,
            IntError::NegOverflow => "number too small to fit in target type"@,
        }
    }

    /// The text `ParseIntError` displays for this kind.
    pub fn message(self) -> (r: String)
        ensures
            r@ == self.spec_message(),
    {
        match self {
            IntError::Empty => {
                let s = "cannot parse integer from empty string";
                proof {
                    reveal_strlit("cannot parse integer from empty string");
                }
                s.to_owned()
            },
            IntError::InvalidDigit => {
                let s = "invalid digit found in string";
                proof {
                    reveal_strlit("invalid digit found in string");
                }
                s.to_owned()
            },
            IntError::PosOverflow => {
                let s = "number too large to fit in target type";
                proof {
                    reveal_strlit("number too large to fit in target type");
                }
                s.to_owned()
            },
            IntError::NegOverflow => {
                let s = "number too small to fit in target type";
                proof {
                    reveal_strlit("number too small to fit in target type");
                }
                s.to_owned()
            },
        }
    }
}

pub open spec fn is_digit(c: char) -> bool {
    '0' <= c <= '9'
}

pub open spec fn digit_value(c: char) -> int {
    (c as u32) - ('0' as u32)
}

/// Left-to-right accumulation with the overflow check applied after each digit.
pub open spec fn accumulate(ds: Seq<char>, acc: int, neg: bool) -> Result<int, IntError>
    decreases ds.len(),
{
    if ds.len() == 0 {
        Ok(acc)
    } else if !is_digit(ds[0]) {
        Err(IntError::InvalidDigit)
    } else {
        let next = if neg {
            acc * 10 - digit_value(ds[0])
        } else {
            acc * 10 + digit_value(ds[0])
        };
        if next > i64::MAX {
            Err(IntError::PosOverflow)
        } else if next < i64::MIN {
            Err(IntError::NegOverflow)
        } else {
            accumulate(ds.drop_first(), next, neg)
        }
    }
}

/// `<i64 as FromStr>::from_str`: an optional sign, then at least one decimal digit.
pub open spec fn parse_i64(s: Seq<char>) -> Result<int, IntError> {
    if s.len() == 0 {
        Err(IntError::Empty)
    } else if (s[0] == '-' || s[0] == '+') && s.len() == 1 {
        Err(IntError::InvalidDigit)
    } else if s[0] == '-' {
        accumulate(s.drop_first(), 0, true)
    } else if s[0] == '+' {
        accumulate(s.drop_first(), 0, false)
    } else {
        accumulate(s, 0, false)
    }
}

pub proof fn lemma_accumulate_range(ds: Seq<char>, acc: int, neg: bool)
    requires
        i64::MIN <= acc <= i64::MAX,
    ensures
        accumulate(ds, acc, neg) matches Ok(v) ==> i64::MIN <= v <= i64::MAX,
    decreases ds.len(),
{
    if ds.len() > 0 && is_digit(ds[0]) {
        let next = if neg {
            acc * 10 - digit_value(ds[0])
        } else {
            acc * 10 + digit_value(ds[0])
        };
        if i64::MIN <= next <= i64::MAX {
            lemma_accumulate_range(ds.drop_first(), next, neg);
        }
    }
}

/// Parse `s[lo..hi]` as an `i64`.
pub fn parse_i64_at(s: &Vec<char>, lo: usize, hi: usize) -> (r: Result<i64, IntError>)
    requires
        lo <= hi <= s@.len(),
    ensures
        match r {
            Ok(x) => parse_i64(s@.subrange(lo as int, hi as int)) == Ok::<int, IntError>(x as int),
            Err(e) => parse_i64(s@.subrange(lo as int, hi as int)) == Err::<int, IntError>(e),
        },
{
    let ghost w = s@.subrange(lo as int, hi as int);
    if lo == hi {
        return Err(IntError::Empty);
    }
    let first = s[lo];
    if (first == '-' || first == '+') && hi - lo == 1 {
        return Err(IntError::InvalidDigit);
    }
    let neg = first == '-';
    let start = if first == '-' || first == '+' {
        lo + 1
    } else {
        lo
    };
    let ghost ds = s@.subrange(start as int, hi as int);
    assert(parse_i64(w) == accumulate(ds, 0, neg)) by {
        if first == '-' || first == '+' {
            assert(w.drop_first() =~= ds);
        } else {
            assert(w =~= ds);
        }
    }
    let mut acc: i64 = 0;
    let mut i = start;
    while i < hi
        invariant
            start <= i <= hi <= s@.len(),
            lo <= start,
            parse_i64(s@.subrange(lo as int, hi as int)) == accumulate(ds, 0, neg),
            accumulate(ds, 0, neg) == accumulate(s@.subrange(i as int, hi as int), acc as int, neg),
        decreases hi - i,
    {
        let c = s[i];
        let ghost rest = s@.subrange(i as int, hi as int);
        assert(rest[0] == c);
        assert(rest.drop_first() =~= s@.subrange(i + 1, hi as int));
        if !('0' <= c && c <= '9') {
            return Err(IntError::InvalidDigit);
        }
        let d = (c as u32 - '0' as u32) as i128;
        let next: i128 = if neg {
            acc as i128 * 10 - d
        } else {
            acc as i128 * 10 + d
        };
        if next > i64::MAX as i128 {
            return Err(IntError::PosOverflow);
        }
        if next < i64::MIN as i128 {
            return Err(IntError::NegOverflow);
        }
        acc = next as i64;
        i = i + 1;
    }
    assert(s@.subrange(hi as int, hi as int).len() == 0);
    Ok(acc)
}


pub open spec fn digit_char(d: int) -> char {
    ((d + 48) as u32) as char
}

/// Decimal digits of a natural number, most significant first.
pub open spec fn nat_text(n: nat) -> Seq<char>
    decreases n,
{
    if n < 10 {
        seq![digit_char(n as int)]
    } else {
        nat_text(n / 10).push(digit_char((n % 10) as int))
    }
}

/// `Display` of a signed integer.
pub open spec fn int_text(n: int) -> Seq<char> {
    if n < 0 {
        seq!['-'] + nat_text((-n) as nat)
    } else {
        nat_text(n as nat)
    }
}

pub proof fn lemma_nat_text_digits(n: nat)
    ensures
        nat_text(n).len() >= 1,
        forall|i: int| 0 <= i < nat_text(n).len() ==> is_digit(#[trigger] nat_text(n)[i]),
    decreases n,
{
    if n >= 10 {
        lemma_nat_text_digits(n / 10);
        assert forall|i: int| 0 <= i < nat_text(n).len() implies is_digit(
            #[trigger] nat_text(n)[i],
        ) by {
            if i < nat_text(n / 10).len() {
                assert(nat_text(n)[i] == nat_text(n / 10)[i]);
            }
        }
    }
}

pub proof fn lemma_accumulate_append(p: Seq<char>, q: Seq<char>, acc: int, neg: bool)
    ensures
        accumulate(p + q, acc, neg) == (match accumulate(p, acc, neg) {
            Ok(a) => accumulate(q, a, neg),
            Err(e) => Err(e),
        }),
    decreases p.len(),
{
    if p.len() == 0 {
        assert(p + q =~= q);
    } else {
        assert((p + q)[0] == p[0]);
        assert((p + q).drop_first() =~= p.drop_first() + q);
        if is_digit(p[0]) {
            let next = if neg {
                acc * 10 - digit_value(p[0])
            } else {
                acc * 10 + digit_value(p[0])
            };
            lemma_accumulate_append(p.drop_first(), q, next, neg);
        }
    }
}

pub proof fn lemma_accumulate_nat_text(m: nat, neg: bool)
    requires
        neg ==> m <= 0x8000_0000_0000_0000,
        !neg ==> m <= 0x7fff_ffff_ffff_ffff,
    ensures
        accumulate(nat_text(m), 0, neg) == Ok::<int, IntError>(if neg {
            -m
        } else {
            m as int
        }),
    decreases m,
{
    if m < 10 {
        let t = nat_text(m);
        assert(t.drop_first().len() == 0);
        assert(digit_value(t[0]) == m);
        assert(is_digit(t[0]));
        let next: int = if neg { 0int - m } else { m as int };
        assert(accumulate(t, 0, neg) == accumulate(t.drop_first(), next, neg));
        assert(accumulate(t.drop_first(), next, neg) == Ok::<int, IntError>(next));
    } else {
        let q = m / 10;
        let d = m % 10;
        lemma_accumulate_nat_text(q, neg);
        let last = seq![digit_char(d as int)];
        assert(nat_text(m) =~= nat_text(q) + last);
        lemma_accumulate_append(nat_text(q), last, 0, neg);
        assert(last.drop_first().len() == 0);
        assert(digit_value(last[0]) == d);
        assert(is_digit(last[0]));
        assert(q * 10 + d == m);
        let a: int = if neg { -q } else { q as int };
        let next: int = if neg { a * 10 - d } else { a * 10 + d };
        assert(next == if neg { -m } else { m as int });
        assert(accumulate(last, a, neg) == accumulate(last.drop_first(), next, neg));
        assert(accumulate(last.drop_first(), next, neg) == Ok::<int, IntError>(next));
        assert(accumulate(nat_text(q), 0, neg) == Ok::<int, IntError>(a));
        assert(accumulate(nat_text(q) + last, 0, neg) == accumulate(last, a, neg));
        assert(accumulate(nat_text(m), 0, neg) == accumulate(nat_text(q) + last, 0, neg));
    }
}

/// Reading back a displayed integer gives the integer.
pub proof fn lemma_parse_int_text(n: int)
    requires
        i64::MIN <= n <= i64::MAX,
    ensures
        parse_i64(int_text(n)) == Ok::<int, IntError>(n),
{
    if n < 0 {
        let m = (-n) as nat;
        lemma_nat_text_digits(m);
        lemma_accumulate_nat_text(m, true);
        assert(int_text(n).drop_first() =~= nat_text(m));
    } else {
        let m = n as nat;
        lemma_nat_text_digits(m);
        lemma_accumulate_nat_text(m, false);
        assert(is_digit(nat_text(m)[0]));
    }
}

fn digit_to_char(d: u32) -> (c: char)
    requires
        d < 10,
    ensures
        c == digit_char(d as int),
{
    match d {
        0 => '0',
        1 => '1',
        2 => '2',
        3 => '3',
        4 => '4',
        5 => '5',
        6 => '6',
        7 => '7',
        8 => '8',
        _ => '9',
    }
}

/// Decimal text of `m`.
pub fn nat_chars(m: u64) -> (r: Vec<char>)
    ensures
        r@ == nat_text(m as nat),
{
    let mut m: u64 = m;
    let ghost orig = m as nat;
    let mut rev: Vec<char> = Vec::new();
    while m >= 10
        invariant
            nat_text(orig) == nat_text(m as nat) + rev@.reverse(),
        decreases m,
    {
        let d = (m % 10) as u32;
        let c = digit_to_char(d);
        proof {
            assert(nat_text(m as nat) == nat_text((m / 10) as nat).push(digit_char((m % 10) as int)));
        }
        let ghost before = rev@;
        rev.push(c);
        proof {
            assert(rev@.reverse() =~= seq![c] + before.reverse());
        }
        m = m / 10;
    }
    let mut out: Vec<char> = Vec::new();
    out.push(digit_to_char(m as u32));
    let ghost head = out@;
    let mut k = rev.len();
    while k > 0
        invariant
            k <= rev@.len(),
            out@ == head + rev@.reverse().take(rev@.len() - k),
        decreases k,
    {
        k = k - 1;
        out.push(rev[k]);
        proof {
            assert(rev@.reverse().take(rev@.len() - k) =~= rev@.reverse().take(rev@.len() - k - 1).push(rev@[k as int]));
        }
    }
    proof {
        assert(rev@.reverse().take(rev@.len() as int) =~= rev@.reverse());
        assert(nat_text(m as nat) =~= seq![digit_char(m as int)]);
        assert(out@ =~= nat_text(orig));
    }
    out
}

/// Decimal text of `n`.
pub fn int_chars(n: i64) -> (r: Vec<char>)
    ensures
        r@ == int_text(n as int),
{
    let m: u64 = if n < 0 {
        (0i128 - n as i128) as u64
    } else {
        n as u64
    };
    let digits = nat_chars(m);
    if n < 0 {
        let mut out: Vec<char> = Vec::new();
        out.push('-');
        let mut i: usize = 0;
        while i < digits.len()
            invariant
                i <= digits@.len(),
                out@ == seq!['-'] + digits@.take(i as int),
            decreases digits@.len() - i,
        {
            out.push(digits[i]);
            proof {
                assert(digits@.take(i + 1) =~= digits@.take(i as int).push(digits@[i as int]));
            }
            i = i + 1;
        }
        proof {
            assert(digits@.take(i as int) =~= digits@);
        }
        out
    } else {
        digits
    }
}

/// `String::push`: the string gains `c` at its end (std documents exactly this).
#[verifier::external_body]
pub(crate) fn push_char(s: &mut String, c: char)
    ensures
        final(s)@ == old(s)@.push(c),
{
    s.push(c);
}

/// The characters of `s`, in order.
pub fn chars_of(s: &str) -> (r: Vec<char>)
    ensures
        r@ == s@,
{
    let n = s.unicode_len();
    let mut out: Vec<char> = Vec::new();
    let mut i: usize = 0;
    while i < n
        invariant
            n == s@.len(),
            i <= n,
            out@ == s@.take(i as int),
        decreases n - i,
    {
        out.push(s.get_char(i));
        proof {
            assert(s@.take(i + 1) =~= s@.take(i as int).push(s@[i as int]));
        }
        i = i + 1;
    }
    proof {
        assert(s@.take(n as int) =~= s@);
    }
    out
}

/// A `String` holding `v[lo..hi]`.
pub fn string_of(v: &Vec<char>, lo: usize, hi: usize) -> (r: String)
    requires
        lo <= hi <= v@.len(),
    ensures
        r@ == v@.subrange(lo as int, hi as int),
{
    let mut out = String::new();
    let mut i = lo;
    while i < hi
        invariant
            lo <= i <= hi <= v@.len(),
            out@ == v@.subrange(lo as int, i as int),
        decreases hi - i,
    {
        push_char(&mut out, v[i]);
        proof {
            assert(v@.subrange(lo as int, i + 1) =~= v@.subrange(lo as int, i as int).push(v@[i as int]));
        }
        i = i + 1;
    }
    out
}

/// `a` followed by `b`.
pub fn concat(a: &str, b: &str) -> (r: String)
    ensures
        r@ == a@ + b@,
{
    let mut out = a.to_owned();
    out.append(b);
    out
}

} // verus!
