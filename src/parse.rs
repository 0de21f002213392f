use vstd::prelude::*;
use crate::items::SetupError;
use vstd::string::StringSliceAdditionalSpecFns;

verus! {

/// One-byte whitespace: space, tab, line feed, vertical tab, form feed, carriage return.
pub open spec fn is_space(b: u8) -> bool {
    b == 32 || (9 <= b && b <= 13)
}

/// An ASCII decimal digit.
pub open spec fn is_digit(b: u8) -> bool {
    48 <= b && b <= 57
}

/// The text split at every comma (a text without commas is one field).
pub open spec fn fields(s: Seq<u8>) -> Seq<Seq<u8>>
    decreases s.len(),
{
    if s.len() == 0 {
        seq![Seq::empty()]
    } else if s.last() == 44 {
        fields(s.drop_last()).push(Seq::empty())
    } else {
        let f = fields(s.drop_last());
        f.update(f.len() - 1, f.last().push(s.last()))
    }
}

/// UTF-8 of a two-byte whitespace character: U+0085 or U+00A0.
pub open spec fn is_space2(b0: u8, b1: u8) -> bool {
    b0 == 0xC2 && (b1 == 0x85 || b1 == 0xA0)
}

/// UTF-8 of a three-byte whitespace character: U+1680, U+2000 to U+200A,
/// U+2028, U+2029, U+202F, U+205F or U+3000.
pub open spec fn is_space3(b0: u8, b1: u8, b2: u8) -> bool {
    ||| (b0 == 0xE1 && b1 == 0x9A && b2 == 0x80)
    ||| (b0 == 0xE2 && b1 == 0x80 && ((0x80 <= b2 && b2 <= 0x8A) || b2 == 0xA8 || b2 == 0xA9
        || b2 == 0xAF))
    ||| (b0 == 0xE2 && b1 == 0x81 && b2 == 0x9F)
    ||| (b0 == 0xE3 && b1 == 0x80 && b2 == 0x80)
}

/// Bytes taken by the whitespace character that `t` starts with, or 0.
pub open spec fn leading_space(t: Seq<u8>) -> int {
    if t.len() >= 1 && is_space(t[0]) {
        1
    } else if t.len() >= 2 && is_space2(t[0], t[1]) {
        2
    } else if t.len() >= 3 && is_space3(t[0], t[1], t[2]) {
        3
    } else {
        0
    }
}

/// Bytes taken by the whitespace character that `t` ends with, or 0.
pub open spec fn trailing_space(t: Seq<u8>) -> int {
    let n = t.len() as int;
    if n >= 1 && is_space(t[n - 1]) {
        1
    } else if n >= 2 && is_space2(t[n - 2], t[n - 1]) {
        2
    } else if n >= 3 && is_space3(t[n - 3], t[n - 2], t[n - 1]) {
        3
    } else {
        0
    }
}

/// The field without its leading whitespace.
pub open spec fn trim_start(t: Seq<u8>) -> Seq<u8>
    decreases t.len(),
{
    let k = leading_space(t);
    if k > 0 {
        trim_start(t.subrange(k, t.len() as int))
    } else {
        t
    }
}

/// The field without its trailing whitespace.
pub open spec fn trim_end(t: Seq<u8>) -> Seq<u8>
    decreases t.len(),
{
    let k = trailing_space(t);
    if k > 0 {
        trim_end(t.subrange(0, t.len() - k))
    } else {
        t
    }
}

/// The field without its leading and trailing whitespace.
pub open spec fn trim(t: Seq<u8>) -> Seq<u8> {
    trim_end(trim_start(t))
}

/// The number written by decimal digits.
pub open spec fn digits_value(t: Seq<u8>) -> int
    decreases t.len(),
{
    if t.len() == 0 {
        0
    } else {
        10 * digits_value(t.drop_last()) + (t.last() - 48)
    }
}

/// Every byte is a decimal digit.
pub open spec fn all_digits(t: Seq<u8>) -> bool {
    forall|k: int| 0 <= k < t.len() ==> is_digit(#[trigger] t[k])
}

/// What one field says: nothing (blank), a number, or not a number.
pub enum FieldMeaning {
    Blank,
    Number(u64),
    Bad,
}

/// The trimmed field without the one `+` sign it may start with.
pub open spec fn unsigned_part(u: Seq<u8>) -> Seq<u8> {
    if u.len() > 0 && u[0] == 43 {
        u.drop_first()
    } else {
        u
    }
}

/// A field is blank when only whitespace, else a number when its trimmed
/// text is an optional `+` followed by at least one digit, and fits a `u64`.
pub open spec fn field_meaning(t: Seq<u8>) -> FieldMeaning {
    let u = trim(t);
    let g = unsigned_part(u);
    if u.len() == 0 {
        FieldMeaning::Blank
    } else if g.len() > 0 && all_digits(g) && digits_value(g) <= u64::MAX {
        FieldMeaning::Number(digits_value(g) as u64)
    } else {
        FieldMeaning::Bad
    }
}

/// The numbers of the fields, blank fields skipped; `None` if a field is not a number.
pub open spec fn numbers_of(fs: Seq<Seq<u8>>) -> Option<Seq<u64>>
    decreases fs.len(),
{
    if fs.len() == 0 {
        Some(Seq::empty())
    } else {
        match numbers_of(fs.drop_last()) {
            None => None,
            Some(v) => match field_meaning(fs.last()) {
                FieldMeaning::Blank => Some(v),
                FieldMeaning::Number(x) => Some(v.push(x)),
                FieldMeaning::Bad => None,
            },
        }
    }
}

/// The list that a comma-separated text of non-negative integers holds.
pub open spec fn parsed_list(s: Seq<u8>) -> Option<Seq<u64>> {
    numbers_of(fields(s))
}

/// Reading more digits never gives a smaller number.
proof fn lemma_digits_monotone(t: Seq<u8>, k: int)
    requires
        0 <= k <= t.len(),
        all_digits(t),
    ensures
        digits_value(t.take(k)) <= digits_value(t),
        0 <= digits_value(t.take(k)),
    decreases t.len() - k,
{
    if k < t.len() {
        assert(t.take(k + 1).drop_last() =~= t.take(k));
        assert(is_digit(t[k]));
        lemma_digits_monotone(t, k + 1);
    } else {
        assert(t.take(k) =~= t);
        lemma_digits_nonneg(t);
    }
}

/// Digits never give a negative number.
proof fn lemma_digits_nonneg(t: Seq<u8>)
    requires
        all_digits(t),
    ensures
        0 <= digits_value(t),
    decreases t.len(),
{
    if t.len() > 0 {
        assert(is_digit(t[t.len() - 1]));
        lemma_digits_nonneg(t.drop_last());
    }
}

/// Whether the byte is one-byte whitespace.
fn space_byte(b: u8) -> (r: bool)
    ensures
        r == is_space(b),
{
    b == 32 || (9 <= b && b <= 13)
}

/// Whether the bytes encode a three-byte whitespace character.
fn space_bytes3(b0: u8, b1: u8, b2: u8) -> (r: bool)
    ensures
        r == is_space3(b0, b1, b2),
{
    (b0 == 0xE1 && b1 == 0x9A && b2 == 0x80) || (b0 == 0xE2 && b1 == 0x80 && ((0x80 <= b2 && b2
        <= 0x8A) || b2 == 0xA8 || b2 == 0xA9 || b2 == 0xAF)) || (b0 == 0xE2 && b1 == 0x81 && b2
        == 0x9F) || (b0 == 0xE3 && b1 == 0x80 && b2 == 0x80)
}

/// `leading_space` of `s[lo..hi]`.
fn leading_space_at(s: &[u8], lo: usize, hi: usize) -> (k: usize)
    requires
        lo <= hi <= s@.len(),
    ensures
        k == leading_space(s@.subrange(lo as int, hi as int)),
        k <= hi - lo,
{
    let n = hi - lo;
    if n >= 1 && space_byte(s[lo]) {
        1
    } else if n >= 2 && s[lo] == 0xC2 && (s[lo + 1] == 0x85 || s[lo + 1] == 0xA0) {
        2
    } else if n >= 3 && space_bytes3(s[lo], s[lo + 1], s[lo + 2]) {
        3
    } else {
        0
    }
}

/// `trailing_space` of `s[lo..hi]`.
fn trailing_space_at(s: &[u8], lo: usize, hi: usize) -> (k: usize)
    requires
        lo <= hi <= s@.len(),
    ensures
        k == trailing_space(s@.subrange(lo as int, hi as int)),
        k <= hi - lo,
{
    let n = hi - lo;
    if n >= 1 && space_byte(s[hi - 1]) {
        1
    } else if n >= 2 && s[hi - 2] == 0xC2 && (s[hi - 1] == 0x85 || s[hi - 1] == 0xA0) {
        2
    } else if n >= 3 && space_bytes3(s[hi - 3], s[hi - 2], s[hi - 1]) {
        3
    } else {
        0
    }
}

/// What `s[a..e]` says as a field.
fn read_field(s: &[u8], a: usize, e: usize) -> (r: Option<Option<u64>>)
    requires
        a <= e <= s@.len(),
    ensures
        r == match field_meaning(s@.subrange(a as int, e as int)) {
            FieldMeaning::Blank => Some(None::<u64>),
            FieldMeaning::Number(x) => Some(Some(x)),
            FieldMeaning::Bad => None::<Option<u64>>,
        },
{
    let ghost t = s@.subrange(a as int, e as int);
    let mut lo = a;
    let mut hi = e;
    let mut k = leading_space_at(s, lo, hi);
    while k > 0
        invariant
            lo <= hi <= s@.len(),
            t == s@.subrange(a as int, e as int),
            trim_start(t) == trim_start(s@.subrange(lo as int, hi as int)),
            k == leading_space(s@.subrange(lo as int, hi as int)),
        decreases hi - lo,
    {
        assert(s@.subrange(lo as int, hi as int).subrange(k as int, hi - lo) =~= s@.subrange(
            lo + k,
            hi as int,
        ));
        lo = lo + k;
        k = leading_space_at(s, lo, hi);
    }
    assert(trim_start(t) == s@.subrange(lo as int, hi as int));
    let mut k = trailing_space_at(s, lo, hi);
    while k > 0
        invariant
            lo <= hi <= s@.len(),
            t == s@.subrange(a as int, e as int),
            trim(t) == trim_end(s@.subrange(lo as int, hi as int)),
            k == trailing_space(s@.subrange(lo as int, hi as int)),
        decreases hi - lo,
    {
        assert(s@.subrange(lo as int, hi as int).subrange(0, hi - lo - k) =~= s@.subrange(
            lo as int,
            hi - k,
        ));
        hi = hi - k;
        k = trailing_space_at(s, lo, hi);
    }
    let ghost u = s@.subrange(lo as int, hi as int);
    assert(trim(t) == u);
    if lo == hi {
        return Some(None);
    }
    if s[lo] == 43 {
        assert(u.drop_first() =~= s@.subrange(lo + 1, hi as int));
        lo = lo + 1;
    }
    let ghost g = s@.subrange(lo as int, hi as int);
    assert(unsigned_part(u) == g);
    if lo == hi {
        return None;
    }
    let mut v: u64 = 0;
    let mut k: usize = lo;
    while k < hi
        invariant
            lo <= k <= hi <= s@.len(),
            g == s@.subrange(lo as int, hi as int),
            t == s@.subrange(a as int, e as int),
            trim(t) == u,
            unsigned_part(u) == g,
            g.len() > 0,
            forall|q: int| lo <= q < k ==> is_digit(#[trigger] s@[q]),
            v == digits_value(g.take(k - lo)),
        decreases hi - k,
    {
        let b = s[k];
        assert(g.take(k - lo + 1).drop_last() =~= g.take(k - lo));
        assert(g[k - lo] == b);
        if b < 48 || b > 57 {
            assert(!is_digit(g[k - lo]));
            return None;
        }
        match v.checked_mul(10) {
            Some(m) => match m.checked_add((b - 48) as u64) {
                Some(x) => {
                    v = x;
                },
                None => {
                    proof {
                        if all_digits(g) {
                            lemma_digits_monotone(g, k - lo + 1);
                        }
                    }
                    return None;
                },
            },
            None => {
                proof {
                    if all_digits(g) {
                        lemma_digits_monotone(g, k - lo + 1);
                        lemma_digits_monotone(g, k - lo);
                    }
                }
                return None;
            },
        }
        k = k + 1;
    }
    assert(g.take(hi - lo) =~= g);
    assert(all_digits(g)) by {
        assert forall|q: int| 0 <= q < g.len() implies is_digit(#[trigger] g[q]) by {
            assert(g[q] == s@[lo + q]);
        }
    }
    Some(Some(v))
}

/// Parses a comma-separated list of non-negative integers. Each field may
/// carry whitespace (any Unicode white space character) around its digits and a `+` before them; blank
/// fields are skipped. Fails with `SetupError::Parse` if some other field is not a number that fits a `u64`.
pub fn parse_list(text: &str) -> (r: Result<Vec<u64>, SetupError>)
    ensures
        parsed_list(text.spec_bytes()) matches Some(v) ==> (r matches Ok(w) && w@ == v),
        parsed_list(text.spec_bytes()) is None ==> r == Err::<Vec<u64>, SetupError>(
            SetupError::Parse,
        ),
{
    let s = text.as_bytes();
    let n = s.len();
    let mut out: Vec<u64> = Vec::new();
    let mut failed = false;
    let mut start: usize = 0;
    let mut i: usize = 0;
    let ghost mut done: Seq<Seq<u8>> = Seq::empty();
    assert(s@.take(0) =~= Seq::<u8>::empty());
    assert(s@.subrange(0, 0) =~= Seq::<u8>::empty());
    while i < n
        invariant
            n == s@.len(),
            start <= i <= n,
            fields(s@.take(i as int)) == done.push(s@.subrange(start as int, i as int)),
            failed ==> numbers_of(done) is None,
            !failed ==> numbers_of(done) == Some(out@),
        decreases n - i,
    {
        let ghost before = s@.take(i as int);
        assert(s@.take(i + 1).drop_last() =~= before);
        if s[i] == 44 {
            let ghost f = s@.subrange(start as int, i as int);
            match read_field(s, start, i) {
                Some(Some(x)) => {
                    out.push(x);
                },
                Some(None) => {},
                None => {
                    failed = true;
                },
            }
            proof {
                assert(done.push(f).drop_last() =~= done);
                done = done.push(f);
            }
            start = i + 1;
            assert(s@.subrange(start as int, i + 1) =~= Seq::<u8>::empty());
        } else {
            assert(s@.subrange(start as int, i + 1) =~= s@.subrange(start as int, i as int).push(s@[i as int]));
            assert(done.push(s@.subrange(start as int, i as int)).update(
                done.len() as int,
                s@.subrange(start as int, i + 1),
            ) =~= done.push(s@.subrange(start as int, i + 1)));
        }
        i = i + 1;
    }
    let ghost f = s@.subrange(start as int, n as int);
    match read_field(s, start, n) {
        Some(Some(x)) => {
            out.push(x);
        },
        Some(None) => {},
        None => {
            failed = true;
        },
    }
    proof {
        assert(s@.take(n as int) =~= s@);
        assert(done.push(f).drop_last() =~= done);
    }
    if failed {
        Err(SetupError::Parse)
    } else {
        Ok(out)
    }
}

} // verus!
