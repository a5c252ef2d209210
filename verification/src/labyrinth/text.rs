//! The text format of a labyrinth: a first line `n m`, then `n` lines of `m`
//! cells. Lines end at `\n` (a `\r` before it is dropped); tokens of the first
//! line are separated by ASCII whitespace.

use vstd::prelude::*;

verus! {

/// The byte ends a line.
pub open spec fn is_newline(c: u8) -> bool {
    c == 10
}

/// ASCII whitespace: space, tab, line feed, form feed, carriage return.
pub open spec fn is_ascii_ws(c: u8) -> bool {
    c == 32 || c == 9 || c == 10 || c == 12 || c == 13
}

/// The first position at or after `i` holding a newline, or the end.
pub open spec fn line_end(b: Seq<u8>, i: int) -> int
    decreases b.len() - i,
{
    if i >= b.len() || i < 0 || is_newline(b[i]) {
        i
    } else {
        line_end(b, i + 1)
    }
}

/// Where line `k` starts.
pub open spec fn line_start(b: Seq<u8>, k: nat) -> int
    decreases k,
{
    if k == 0 {
        0
    } else {
        line_end(b, line_start(b, (k - 1) as nat)) + 1
    }
}

/// Line `k` exists: the text does not end before it starts.
pub open spec fn has_line(b: Seq<u8>, k: nat) -> bool {
    line_start(b, k) < b.len()
}

/// Where the content of line `k` ends: before its newline, and before a
/// carriage return that precedes the newline.
pub open spec fn content_end(b: Seq<u8>, k: nat) -> int {
    let s = line_start(b, k);
    let e = line_end(b, s);
    if e < b.len() && e > s && b[e - 1] == 13 { e - 1 } else { e }
}

/// The content of line `k`.
pub open spec fn line(b: Seq<u8>, k: nat) -> Seq<u8> {
    b.subrange(line_start(b, k), content_end(b, k))
}

/// The first position at or after `i`, below `hi`, that is not whitespace.
pub open spec fn skip_ws(b: Seq<u8>, i: int, hi: int) -> int
    decreases hi - i,
{
    if i >= hi || i < 0 || !is_ascii_ws(b[i]) {
        i
    } else {
        skip_ws(b, i + 1, hi)
    }
}

/// The first position at or after `i`, below `hi`, that is whitespace.
pub open spec fn token_end(b: Seq<u8>, i: int, hi: int) -> int
    decreases hi - i,
{
    if i >= hi || i < 0 || is_ascii_ws(b[i]) {
        i
    } else {
        token_end(b, i + 1, hi)
    }
}

/// The decimal value of the digits `b[lo..hi]`.
pub open spec fn digits_value(b: Seq<u8>, lo: int, hi: int) -> int
    decreases hi - lo,
{
    if hi <= lo {
        0
    } else {
        digits_value(b, lo, hi - 1) * 10 + (b[hi - 1] - 48)
    }
}

/// Decimal notation: the digits `b[lo..hi]` cut at `k` are worth the value
/// of the front part times ten to the length of the back part, plus the
/// value of the back part.
pub proof fn lemma_digits_split(b: Seq<u8>, lo: int, k: int, hi: int)
    requires
        lo <= k <= hi,
    ensures
        digits_value(b, lo, hi) == digits_value(b, lo, k) * vstd::arithmetic::power::pow(10, (hi - k) as nat)
            + digits_value(b, k, hi),
    decreases hi - k,
{
    reveal(vstd::arithmetic::power::pow);
    if hi > k {
        lemma_digits_split(b, lo, k, hi - 1);
        let p = vstd::arithmetic::power::pow(10, (hi - 1 - k) as nat);
        let f = digits_value(b, lo, k);
        assert(vstd::arithmetic::power::pow(10, (hi - k) as nat) == 10 * p);
        assert((f * p) * 10 == f * (10 * p)) by (nonlinear_arith);
    }
}

/// One digit is worth its face value, and a digit `d` put after digits
/// worth `v` gives `10 * v + d`.
pub proof fn lemma_digits_append(b: Seq<u8>, lo: int, hi: int)
    requires
        lo < hi,
    ensures
        digits_value(b, hi - 1, hi) == b[hi - 1] - 48,
        digits_value(b, lo, hi) == 10 * digits_value(b, lo, hi - 1) + (b[hi - 1] - 48),
{
    lemma_digits_split(b, lo, hi - 1, hi);
    assert(vstd::arithmetic::power::pow(10, 1) == 10) by {
        vstd::arithmetic::power::lemma_pow1(10);
    }
}

/// `b[lo..hi]` is a nonempty run of decimal digits.
pub open spec fn all_digits(b: Seq<u8>, lo: int, hi: int) -> bool {
    &&& lo < hi
    &&& forall|i: int| lo <= i < hi ==> 48 <= #[trigger] b[i] <= 57
}

/// `b[lo..hi]` reads as an unsigned machine-word integer: an optional `+`,
/// then digits, with a value that fits.
pub open spec fn usize_token(b: Seq<u8>, lo: int, hi: int) -> bool {
    let d = if lo < hi && b[lo] == 43 { lo + 1 } else { lo };
    &&& all_digits(b, d, hi)
    &&& digits_value(b, d, hi) <= usize::MAX
}

/// The value of such a token.
pub open spec fn token_value(b: Seq<u8>, lo: int, hi: int) -> int {
    let d = if lo < hi && b[lo] == 43 { lo + 1 } else { lo };
    digits_value(b, d, hi)
}

/// Where the first token of the first line starts and ends.
pub open spec fn tok1_start(b: Seq<u8>) -> int {
    skip_ws(b, 0, content_end(b, 0))
}

pub open spec fn tok1_end(b: Seq<u8>) -> int {
    token_end(b, tok1_start(b), content_end(b, 0))
}

/// Where the second token of the first line starts and ends.
pub open spec fn tok2_start(b: Seq<u8>) -> int {
    skip_ws(b, tok1_end(b), content_end(b, 0))
}

pub open spec fn tok2_end(b: Seq<u8>) -> int {
    token_end(b, tok2_start(b), content_end(b, 0))
}

/// The height given on the first line.
pub open spec fn header_n(b: Seq<u8>) -> int {
    token_value(b, tok1_start(b), tok1_end(b))
}

/// The width given on the first line.
pub open spec fn header_m(b: Seq<u8>) -> int {
    token_value(b, tok2_start(b), tok2_end(b))
}

/// The text describes a labyrinth: the first line holds two numbers `n` and
/// `m` whose product fits a machine word, and `n` more lines follow, each of at
/// least `m` bytes.
pub open spec fn well_formed(b: Seq<u8>) -> bool {
    &&& has_line(b, 0)
    &&& tok1_start(b) < content_end(b, 0)
    &&& usize_token(b, tok1_start(b), tok1_end(b))
    &&& tok2_start(b) < content_end(b, 0)
    &&& usize_token(b, tok2_start(b), tok2_end(b))
    &&& header_n(b) * header_m(b) <= usize::MAX
    &&& forall|k: nat| 1 <= k <= header_n(b) ==> has_line(b, k) && #[trigger] line(b, k).len() >= header_m(b)
}

/// The last index below `k` holding `ch`, or 0 when there is none.
pub open spec fn last_index_of(s: Seq<u8>, ch: u8, k: int) -> int
    decreases k,
{
    if k <= 0 {
        0
    } else if s[k - 1] == ch {
        k - 1
    } else {
        last_index_of(s, ch, k - 1)
    }
}

pub proof fn lemma_line_end_bounds(b: Seq<u8>, i: int)
    requires
        0 <= i <= b.len(),
    ensures
        i <= line_end(b, i) <= b.len(),
        line_end(b, i) < b.len() ==> is_newline(b[line_end(b, i)]),
        forall|j: int| i <= j < line_end(b, i) ==> !is_newline(#[trigger] b[j]),
    decreases b.len() - i,
{
    if i < b.len() && !is_newline(b[i]) {
        lemma_line_end_bounds(b, i + 1);
    }
}

/// The parts of an existing line lie in order inside the text.
pub proof fn lemma_line_facts(b: Seq<u8>, k: nat)
    ensures
        line_start(b, k) >= 0,
        has_line(b, k) ==> {
            &&& line_start(b, k) <= content_end(b, k)
            &&& content_end(b, k) <= line_end(b, line_start(b, k))
            &&& line_end(b, line_start(b, k)) <= b.len()
            &&& line(b, k).len() == content_end(b, k) - line_start(b, k)
        },
    decreases k,
{
    if k > 0 {
        lemma_line_facts(b, (k - 1) as nat);
        let p = line_start(b, (k - 1) as nat);
        if p <= b.len() {
            lemma_line_end_bounds(b, p);
        }
    }
    if has_line(b, k) {
        lemma_line_end_bounds(b, line_start(b, k));
    }
}

/// Finds the end of the line starting at `s`.
pub fn find_line_end(b: &[u8], s: usize) -> (e: usize)
    requires
        s <= b.len(),
    ensures
        e == line_end(b@, s as int),
{
    let mut e = s;
    proof {
        lemma_line_end_bounds(b@, s as int);
    }
    while e < b.len() && b[e] != 10
        invariant
            s <= e <= b.len(),
            line_end(b@, e as int) == line_end(b@, s as int),
        decreases b.len() - e,
    {
        e += 1;
    }
    e
}

/// Finds the first non-whitespace position at or after `i`, below `hi`.
pub fn find_skip_ws(b: &[u8], i: usize, hi: usize) -> (j: usize)
    requires
        i <= hi <= b.len(),
    ensures
        j == skip_ws(b@, i as int, hi as int),
        i <= j <= hi,
{
    let mut j = i;
    while j < hi && (b[j] == 32 || b[j] == 9 || b[j] == 10 || b[j] == 12 || b[j] == 13)
        invariant
            i <= j <= hi,
            hi <= b.len(),
            skip_ws(b@, j as int, hi as int) == skip_ws(b@, i as int, hi as int),
        decreases hi - j,
    {
        j += 1;
    }
    j
}

/// Finds the first whitespace position at or after `i`, below `hi`.
pub fn find_token_end(b: &[u8], i: usize, hi: usize) -> (j: usize)
    requires
        i <= hi <= b.len(),
    ensures
        j == token_end(b@, i as int, hi as int),
        i <= j <= hi,
{
    let mut j = i;
    while j < hi && !(b[j] == 32 || b[j] == 9 || b[j] == 10 || b[j] == 12 || b[j] == 13)
        invariant
            i <= j <= hi,
            hi <= b.len(),
            token_end(b@, j as int, hi as int) == token_end(b@, i as int, hi as int),
        decreases hi - j,
    {
        j += 1;
    }
    j
}

proof fn lemma_digits_monotone(b: Seq<u8>, lo: int, k: int, hi: int)
    requires
        lo <= k <= hi,
        forall|i: int| lo <= i < hi ==> 48 <= #[trigger] b[i] <= 57,
    ensures
        0 <= digits_value(b, lo, k) <= digits_value(b, lo, hi),
    decreases hi - k,
{
    if k < hi {
        lemma_digits_monotone(b, lo, k + 1, hi);
        lemma_digits_nonneg(b, lo, k);
    } else {
        lemma_digits_nonneg(b, lo, k);
    }
}

proof fn lemma_digits_nonneg(b: Seq<u8>, lo: int, k: int)
    requires
        forall|i: int| lo <= i < k ==> 48 <= #[trigger] b[i] <= 57,
    ensures
        0 <= digits_value(b, lo, k),
    decreases k - lo,
{
    if k > lo {
        lemma_digits_nonneg(b, lo, k - 1);
    }
}

/// Reads the unsigned integer token `b[lo..hi]`.
pub fn parse_usize(b: &[u8], lo: usize, hi: usize) -> (v: usize)
    requires
        lo <= hi <= b.len(),
        usize_token(b@, lo as int, hi as int),
    ensures
        v == token_value(b@, lo as int, hi as int),
{
    let d = if lo < hi && b[lo] == 43 { lo + 1 } else { lo };
    let mut v: usize = 0;
    let mut i = d;
    while i < hi
        invariant
            d <= i <= hi,
            hi <= b.len(),
            all_digits(b@, d as int, hi as int),
            digits_value(b@, d as int, hi as int) <= usize::MAX,
            v == digits_value(b@, d as int, i as int),
        decreases hi - i,
    {
        proof {
            lemma_digits_monotone(b@, d as int, i + 1, hi as int);
        }
        v = v * 10 + (b[i] - 48) as usize;
        i += 1;
    }
    v
}

/// Reads `b[lo..hi]` as an unsigned machine-word integer, or gives `None`
/// when it is not one (no digits, a stray byte, or a value too large).
pub fn read_usize(b: &[u8], lo: usize, hi: usize) -> (v: Option<usize>)
    requires
        lo <= hi <= b.len(),
    ensures
        v.is_some() == usize_token(b@, lo as int, hi as int),
        v.is_some() ==> v.unwrap() == token_value(b@, lo as int, hi as int),
{
    let d = if lo < hi && b[lo] == 43 { lo + 1 } else { lo };
    if d >= hi {
        return None;
    }
    let mut v: usize = 0;
    let mut i = d;
    while i < hi
        invariant
            d <= i <= hi,
            d < hi,
            hi <= b.len(),
            d as int == (if lo < hi && b@[lo as int] == 43 { lo + 1 } else { lo as int }),
            forall|j: int| d <= j < i ==> 48 <= #[trigger] b@[j] <= 57,
            v == digits_value(b@, d as int, i as int),
        decreases hi - i,
    {
        if b[i] < 48 || b[i] > 57 {
            proof {
                assert(!all_digits(b@, d as int, hi as int));
            }
            return None;
        }
        let digit = (b[i] - 48) as usize;
        let next = match v.checked_mul(10) {
            Some(t) => t.checked_add(digit),
            None => None,
        };
        match next {
            Some(t) => {
                v = t;
            },
            None => {
                proof {
                    if all_digits(b@, d as int, hi as int) {
                        lemma_digits_monotone(b@, d as int, i + 1, hi as int);
                    }
                }
                return None;
            },
        }
        i += 1;
    }
    Some(v)
}

/// Tells whether the text describes a labyrinth: a first line with two
/// numbers `n` and `m` whose product fits a machine word, then `n` lines of
/// at least `m` bytes each.
pub fn check_format(b: &[u8]) -> (ok: bool)
    ensures
        ok == well_formed(b@),
{
    let ghost bs = b@;
    if b.len() == 0 {
        return false;
    }
    let e0 = find_line_end(b, 0);
    proof {
        lemma_line_facts(bs, 0);
        lemma_line_end_bounds(bs, 0);
    }
    let ce0 = if e0 < b.len() && e0 > 0 && b[e0 - 1] == 13 { e0 - 1 } else { e0 };
    proof {
        assert(ce0 == content_end(bs, 0));
    }
    let t1s = find_skip_ws(b, 0, ce0);
    if t1s >= ce0 {
        return false;
    }
    let t1e = find_token_end(b, t1s, ce0);
    let n = match read_usize(b, t1s, t1e) {
        Some(v) => v,
        None => {
            return false;
        },
    };
    let t2s = find_skip_ws(b, t1e, ce0);
    if t2s >= ce0 {
        return false;
    }
    let t2e = find_token_end(b, t2s, ce0);
    let m = match read_usize(b, t2s, t2e) {
        Some(v) => v,
        None => {
            return false;
        },
    };
    if n.checked_mul(m).is_none() {
        return false;
    }
    proof {
        assert(n * m <= usize::MAX);
    }
    if n == 0 {
        return true;
    }
    if e0 >= b.len() {
        proof {
            assert(line_start(bs, 1) == e0 + 1);
            assert(!has_line(bs, 1));
            assert(line(bs, 1).len() >= 0);
        }
        return false;
    }
    let mut s: usize = e0 + 1;
    let mut k: usize = 1;
    loop
        invariant
            bs == b@,
            1 <= k <= n,
            n == header_n(bs),
            m == header_m(bs),
            has_line(bs, 0),
            tok1_start(bs) < content_end(bs, 0),
            usize_token(bs, tok1_start(bs), tok1_end(bs)),
            tok2_start(bs) < content_end(bs, 0),
            usize_token(bs, tok2_start(bs), tok2_end(bs)),
            n * m <= usize::MAX,
            s == line_start(bs, k as nat),
            forall|j: nat|
                #![trigger has_line(bs, j)]
                #![trigger line(bs, j)]
                1 <= j < k ==> has_line(bs, j) && line(bs, j).len() >= m,
        decreases n - k,
    {
        if s >= b.len() {
            proof {
                assert(line(bs, k as nat).len() >= 0);
            }
            return false;
        }
        let e = find_line_end(b, s);
        proof {
            lemma_line_facts(bs, k as nat);
            lemma_line_end_bounds(bs, s as int);
        }
        let ce = if e < b.len() && e > s && b[e - 1] == 13 { e - 1 } else { e };
        proof {
            assert(has_line(bs, k as nat));
            assert(ce == content_end(bs, k as nat));
            assert(line(bs, k as nat).len() == ce - s);
        }
        if ce - s < m {
            proof {
                assert(line(bs, k as nat).len() < m);
            }
            return false;
        }
        if k == n {
            proof {
                assert forall|j: nat|
                    #![trigger has_line(bs, j)]
                    #![trigger line(bs, j)]
                    1 <= j <= header_n(bs) implies has_line(bs, j) && line(bs, j).len() >= header_m(
                    bs,
                ) by {
                    assert(line(bs, j).len() >= 0);
                    if j == k {
                        assert(line(bs, k as nat).len() == ce - s);
                    }
                }
                assert(well_formed(bs));
            }
            return true;
        }
        if e >= b.len() {
            proof {
                assert(line_start(bs, (k + 1) as nat) == e + 1);
                assert(line(bs, (k + 1) as nat).len() >= 0);
            }
            return false;
        }
        proof {
            assert forall|j: nat|
                #![trigger has_line(bs, j)]
                #![trigger line(bs, j)]
                1 <= j < k + 1 implies has_line(bs, j) && line(bs, j).len() >= m by {
                assert(line(bs, j).len() >= 0);
            }
        }
        s = e + 1;
        k += 1;
    }
}

} // verus!
