use vstd::prelude::*;

verus! {

broadcast use vstd::string::group_string_axioms;

// ---------------------------------------------------------------------------
// Characters
// ---------------------------------------------------------------------------

/// The characters of `s`, in order.
pub fn chars_of(s: &str) -> (v: Vec<char>)
    ensures
        v@ == s@,
{
    let mut v: Vec<char> = Vec::new();
    for c in it: s.chars()
        invariant
            v@ == it.seq().take(it.index() as int),
            it.seq() == s@,
    {
        v.push(c);
    }
    v
}

/// Whether `c` has the Unicode `White_Space` property, which is what
/// `char::is_whitespace` and `str::trim` go by.
pub open spec fn is_white_space(c: char) -> bool {
    ||| c == '\t'
    ||| c == '\n'
    ||| c == '\u{0B}'
    ||| c == '\u{0C}'
    ||| c == '\r'
    ||| c == ' '
    ||| c == '\u{85}'
    ||| c == '\u{A0}'
    ||| c == '\u{1680}'
    ||| ('\u{2000}' <= c && c <= '\u{200A}')
    ||| c == '\u{2028}'
    ||| c == '\u{2029}'
    ||| c == '\u{202F}'
    ||| c == '\u{205F}'
    ||| c == '\u{3000}'
}

/// Executable test of `is_white_space`.
pub fn white_space(c: char) -> (b: bool)
    ensures
        b == is_white_space(c),
{
    c == '\t' || c == '\n' || c == '\u{0B}' || c == '\u{0C}' || c == '\r' || c == ' '
        || c == '\u{85}' || c == '\u{A0}' || c == '\u{1680}' || ('\u{2000}' <= c && c
        <= '\u{200A}') || c == '\u{2028}' || c == '\u{2029}' || c == '\u{202F}' || c
        == '\u{205F}' || c == '\u{3000}'
}

/// `s` without its leading white space.
pub open spec fn trim_start(s: Seq<char>) -> Seq<char>
    decreases s.len(),
{
    if s.len() > 0 && is_white_space(s[0]) {
        trim_start(s.drop_first())
    } else {
        s
    }
}

/// `s` without its trailing white space.
pub open spec fn trim_end(s: Seq<char>) -> Seq<char>
    decreases s.len(),
{
    if s.len() > 0 && is_white_space(s.last()) {
        trim_end(s.drop_last())
    } else {
        s
    }
}

/// `s` without leading and trailing white space, as `str::trim` gives it.
pub open spec fn trim(s: Seq<char>) -> Seq<char> {
    trim_end(trim_start(s))
}

/// The bounds, within `[lo, hi)`, of that range of `v` trimmed.
pub fn trim_range(v: &Vec<char>, lo: usize, hi: usize) -> (r: (usize, usize))
    requires
        lo <= hi <= v.len(),
    ensures
        lo <= r.0 <= r.1 <= hi,
        v@.subrange(r.0 as int, r.1 as int) == trim(v@.subrange(lo as int, hi as int)),
{
    let mut i = lo;
    while i < hi && white_space(v[i])
        invariant
            lo <= i <= hi <= v.len(),
            trim_start(v@.subrange(lo as int, hi as int)) == trim_start(
                v@.subrange(i as int, hi as int),
            ),
        decreases hi - i,
    {
        assert(v@.subrange(i as int, hi as int).drop_first() =~= v@.subrange(
            i + 1,
            hi as int,
        ));
        i = i + 1;
    }
    assert(trim_start(v@.subrange(lo as int, hi as int)) == v@.subrange(i as int, hi as int));
    let mut j = hi;
    while j > i && white_space(v[j - 1])
        invariant
            lo <= i <= j <= hi <= v.len(),
            trim_end(v@.subrange(i as int, hi as int)) == trim_end(
                v@.subrange(i as int, j as int),
            ),
        decreases j - i,
    {
        assert(v@.subrange(i as int, j as int).drop_last() =~= v@.subrange(
            i as int,
            j - 1,
        ));
        j = j - 1;
    }
    (i, j)
}

// ---------------------------------------------------------------------------
// Searching
// ---------------------------------------------------------------------------

/// Whether `pat` occurs in `s` at position `k`.
pub open spec fn occurs_at(s: Seq<char>, pat: Seq<char>, k: int) -> bool {
    0 <= k && k + pat.len() <= s.len() && s.subrange(k, k + pat.len()) == pat
}

/// Whether `pat` occurs anywhere in `s`, as `str::contains` tests.
pub open spec fn contains_seq(s: Seq<char>, pat: Seq<char>) -> bool {
    exists|k: int| occurs_at(s, pat, k)
}

/// Whether `pat` occurs in the range `[lo, hi)` of `v`.
pub fn range_contains(v: &Vec<char>, lo: usize, hi: usize, pat: &Vec<char>) -> (b: bool)
    requires
        lo <= hi <= v.len(),
    ensures
        b == contains_seq(v@.subrange(lo as int, hi as int), pat@),
{
    let ghost s = v@.subrange(lo as int, hi as int);
    if pat.len() > hi - lo {
        return false;
    }
    let last = hi - pat.len();
    let mut k = lo;
    while k <= last
        invariant
            lo <= k <= last + 1,
            last + pat.len() == hi,
            hi <= v.len(),
            s == v@.subrange(lo as int, hi as int),
            forall|m: int| 0 <= m < k - lo ==> !occurs_at(s, pat@, m),
        decreases last + 1 - k,
    {
        let mut j: usize = 0;
        let mut same = true;
        while j < pat.len()
            invariant
                j <= pat.len(),
                k + pat.len() <= hi <= v.len(),
                same == (forall|t: int| 0 <= t < j ==> v@[k + t] == pat@[t]),
            decreases pat.len() - j,
        {
            if v[k + j] != pat[j] {
                same = false;
            }
            j = j + 1;
        }
        if same {
            assert(s.subrange(k - lo, k - lo + pat.len()) =~= pat@);
            assert(occurs_at(s, pat@, k - lo));
            return true;
        }
        assert(!occurs_at(s, pat@, k - lo)) by {
            if occurs_at(s, pat@, k - lo) {
                let t = choose|t: int| 0 <= t < pat.len() && v@[k + t] != pat@[t];
                assert(s.subrange(k - lo, k - lo + pat.len())[t] == v@[k + t]);
            }
        }
        k = k + 1;
    }
    assert forall|m: int| !occurs_at(s, pat@, m) by {
        if occurs_at(s, pat@, m) {
            assert(m < k - lo);
        }
    }
    false
}

/// Whether `k` is the first position of `c` in `s`.
pub open spec fn is_first_index(s: Seq<char>, c: char, k: int) -> bool {
    &&& 0 <= k < s.len()
    &&& s[k] == c
    &&& forall|j: int| 0 <= j < k ==> s[j] != c
}

/// Whether `k` is the last position of `c` in `s`.
pub open spec fn is_last_index(s: Seq<char>, c: char, k: int) -> bool {
    &&& 0 <= k < s.len()
    &&& s[k] == c
    &&& forall|j: int| k < j < s.len() ==> s[j] != c
}

/// The first piece of `s` split at `c`: all of `s` up to its first `c`.
pub open spec fn split_head(s: Seq<char>, c: char) -> Seq<char> {
    if exists|k: int| is_first_index(s, c, k) {
        s.take(choose|k: int| is_first_index(s, c, k))
    } else {
        s
    }
}

/// What follows the first `c` in `s`, if `s` holds a `c`.
pub open spec fn split_rest(s: Seq<char>, c: char) -> Option<Seq<char>> {
    if exists|k: int| is_first_index(s, c, k) {
        Some(s.skip((choose|k: int| is_first_index(s, c, k)) + 1))
    } else {
        None
    }
}

/// The last piece of `s` split at `c`: what follows its last `c`, or all of
/// `s` where it holds none.
pub open spec fn split_last(s: Seq<char>, c: char) -> Seq<char> {
    if exists|k: int| is_last_index(s, c, k) {
        s.skip((choose|k: int| is_last_index(s, c, k)) + 1)
    } else {
        s
    }
}

/// The first position of `c` in the range `[lo, hi)` of `v`, or `hi`.
pub fn find_first(v: &Vec<char>, lo: usize, hi: usize, c: char) -> (k: usize)
    requires
        lo <= hi <= v.len(),
    ensures
        lo <= k <= hi,
        k < hi ==> is_first_index(v@.subrange(lo as int, hi as int), c, k - lo),
        k == hi ==> !(exists|m: int| is_first_index(v@.subrange(lo as int, hi as int), c, m)),
        split_head(v@.subrange(lo as int, hi as int), c) == v@.subrange(lo as int, k as int),
        k < hi ==> split_rest(v@.subrange(lo as int, hi as int), c) == Some(
            v@.subrange(k + 1, hi as int),
        ),
        k == hi ==> split_rest(v@.subrange(lo as int, hi as int), c) == None::<Seq<char>>,
{
    let ghost s = v@.subrange(lo as int, hi as int);
    let mut k = lo;
    while k < hi && v[k] != c
        invariant
            lo <= k <= hi <= v.len(),
            s == v@.subrange(lo as int, hi as int),
            forall|j: int| 0 <= j < k - lo ==> s[j] != c,
        decreases hi - k,
    {
        k = k + 1;
    }
    if k < hi {
        assert(is_first_index(s, c, k - lo));
        let ghost m = choose|m: int| is_first_index(s, c, m);
        assert(m == k - lo) by {
            if m < k - lo {
                assert(s[m] != c);
            }
            if m > k - lo {
                assert(s[k - lo] != c);
            }
        }
        assert(s.take(k - lo) =~= v@.subrange(lo as int, k as int));
        assert(s.skip(k - lo + 1) =~= v@.subrange(k + 1, hi as int));
    } else {
        assert(s =~= v@.subrange(lo as int, k as int));
    }
    k
}

/// The position just after the last `c` in the range `[lo, hi)` of `v`, or
/// `lo` where the range holds none.
pub fn after_last(v: &Vec<char>, lo: usize, hi: usize, c: char) -> (k: usize)
    requires
        lo <= hi <= v.len(),
    ensures
        lo <= k <= hi,
        split_last(v@.subrange(lo as int, hi as int), c) == v@.subrange(k as int, hi as int),
{
    let ghost s = v@.subrange(lo as int, hi as int);
    let mut k = hi;
    while k > lo && v[k - 1] != c
        invariant
            lo <= k <= hi <= v.len(),
            s == v@.subrange(lo as int, hi as int),
            forall|j: int| k - lo <= j < s.len() ==> s[j] != c,
        decreases k - lo,
    {
        k = k - 1;
    }
    if k > lo {
        assert(is_last_index(s, c, k - 1 - lo));
        let ghost m = choose|m: int| is_last_index(s, c, m);
        assert(m == k - 1 - lo) by {
            if m < k - 1 - lo {
                assert(s[k - 1 - lo] != c);
            }
            if m > k - 1 - lo {
                assert(s[m] != c);
            }
        }
        assert(s.skip(k - lo) =~= v@.subrange(k as int, hi as int));
    } else {
        assert forall|m: int| !is_last_index(s, c, m) by {
            if is_last_index(s, c, m) {
                assert(s[m] != c);
            }
        }
        assert(s =~= v@.subrange(k as int, hi as int));
    }
    k
}

/// Whether the range `[lo, hi)` of `v` is exactly `pat`.
pub fn range_equals(v: &Vec<char>, lo: usize, hi: usize, pat: &Vec<char>) -> (b: bool)
    requires
        lo <= hi <= v.len(),
    ensures
        b == (v@.subrange(lo as int, hi as int) == pat@),
{
    if hi - lo != pat.len() {
        return false;
    }
    let mut j: usize = 0;
    while j < pat.len()
        invariant
            j <= pat.len(),
            lo + pat.len() == hi <= v.len(),
            forall|t: int| 0 <= t < j ==> v@[lo + t] == pat@[t],
        decreases pat.len() - j,
    {
        if v[lo + j] != pat[j] {
            assert(v@.subrange(lo as int, hi as int)[j as int] != pat@[j as int]);
            return false;
        }
        j = j + 1;
    }
    assert(v@.subrange(lo as int, hi as int) =~= pat@);
    true
}

// ---------------------------------------------------------------------------
// Unsigned integers
// ---------------------------------------------------------------------------

/// Whether `c` is an ASCII decimal digit.
pub open spec fn is_digit(c: char) -> bool {
    '0' <= c && c <= '9'
}

/// The value of the decimal digit `c`.
pub open spec fn digit_value(c: char) -> nat {
    (c as int - '0' as int) as nat
}

/// The value of a string of decimal digits.
pub open spec fn digits_value(s: Seq<char>) -> nat
    decreases s.len(),
{
    if s.len() == 0 {
        0
    } else {
        digits_value(s.drop_last()) * 10 + digit_value(s.last())
    }
}

/// The digits that `str::parse` reads for an unsigned integer: `s` without
/// one leading `+`.
pub open spec fn unsigned_digits(s: Seq<char>) -> Seq<char> {
    if s.len() > 0 && s[0] == '+' {
        s.drop_first()
    } else {
        s
    }
}

/// The number that `str::parse` reads from `s` for an unsigned integer type
/// before it checks the range: an optional `+` and then one or more decimal
/// digits, nothing else.
pub open spec fn unsigned_value(s: Seq<char>) -> Option<nat> {
    let d = unsigned_digits(s);
    if d.len() > 0 && (forall|i: int| 0 <= i < d.len() ==> is_digit(d[i])) {
        Some(digits_value(d))
    } else {
        None
    }
}

/// What `s.parse::<u64>()` gives, with `None` for its error.
pub open spec fn parse_u64_spec(s: Seq<char>) -> Option<u64> {
    match unsigned_value(s) {
        Some(v) => if v <= u64::MAX {
            Some(v as u64)
        } else {
            None
        },
        None => None,
    }
}

/// What `s.parse::<u32>()` gives, with `None` for its error.
pub open spec fn parse_u32_spec(s: Seq<char>) -> Option<u32> {
    match unsigned_value(s) {
        Some(v) => if v <= u32::MAX {
            Some(v as u32)
        } else {
            None
        },
        None => None,
    }
}

proof fn lemma_digits_value_prefix(s: Seq<char>, i: int)
    requires
        0 <= i < s.len(),
    ensures
        digits_value(s.take(i + 1)) == digits_value(s.take(i)) * 10 + digit_value(s[i]),
{
    assert(s.take(i + 1).drop_last() =~= s.take(i));
}

proof fn lemma_digits_value_monotone(s: Seq<char>, i: int, j: int)
    requires
        0 <= i <= j <= s.len(),
    ensures
        digits_value(s.take(i)) <= digits_value(s.take(j)),
    decreases j - i,
{
    if i < j {
        lemma_digits_value_monotone(s, i, j - 1);
        lemma_digits_value_prefix(s, j - 1);
    }
}

/// Reads the range `[lo, hi)` of `v` as `str::parse::<u64>` does.
pub fn parse_u64(v: &Vec<char>, lo: usize, hi: usize) -> (r: Option<u64>)
    requires
        lo <= hi <= v.len(),
    ensures
        r == parse_u64_spec(v@.subrange(lo as int, hi as int)),
{
    let ghost s = v@.subrange(lo as int, hi as int);
    let mut start = lo;
    if lo < hi && v[lo] == '+' {
        start = lo + 1;
    }
    let ghost d = v@.subrange(start as int, hi as int);
    assert(unsigned_digits(s) =~= d);
    if start == hi {
        return None;
    }
    let mut acc: u128 = 0;
    let mut i = start;
    while i < hi
        invariant
            start <= i <= hi <= v.len(),
            d == v@.subrange(start as int, hi as int),
            s == v@.subrange(lo as int, hi as int),
            unsigned_digits(s) == d,
            d.len() > 0,
            forall|t: int| 0 <= t < i - start ==> is_digit(d[t]),
            acc == digits_value(d.take(i - start)),
            acc <= u64::MAX,
        decreases hi - i,
    {
        let c = v[i];
        if !('0' <= c && c <= '9') {
            assert(!is_digit(d[i - start]));
            return None;
        }
        proof {
            lemma_digits_value_prefix(d, i - start);
        }
        let dig = ((c as u32) - ('0' as u32)) as u128;
        acc = acc * 10 + dig;
        if acc > u64::MAX as u128 {
            proof {
                lemma_digits_value_monotone(d, i + 1 - start, d.len() as int);
                assert(d.take(d.len() as int) =~= d);
            }
            return None;
        }
        i = i + 1;
    }
    assert(d.take(d.len() as int) =~= d);
    Some(acc as u64)
}

/// Reads the range `[lo, hi)` of `v` as `str::parse::<u32>` does.
pub fn parse_u32(v: &Vec<char>, lo: usize, hi: usize) -> (r: Option<u32>)
    requires
        lo <= hi <= v.len(),
    ensures
        r == parse_u32_spec(v@.subrange(lo as int, hi as int)),
{
    match parse_u64(v, lo, hi) {
        Some(n) => if n <= u32::MAX as u64 {
            Some(n as u32)
        } else {
            None
        },
        None => None,
    }
}

// ---------------------------------------------------------------------------
// Decimal output
// ---------------------------------------------------------------------------

/// The ASCII decimal digits of `n`, with no leading zeros, as `Display`
/// writes an unsigned integer.
pub open spec fn decimal(n: nat) -> Seq<u8>
    decreases n,
{
    if n < 10 {
        seq![(n + 48) as u8]
    } else {
        decimal(n / 10).push((n % 10 + 48) as u8)
    }
}

/// Appends the decimal digits of `n` to `out`.
pub fn push_decimal(out: &mut Vec<u8>, n: u64)
    ensures
        final(out)@ == old(out)@ + decimal(n as nat),
    decreases n,
{
    if n >= 10 {
        push_decimal(out, n / 10);
    }
    out.push(((n % 10) + 48) as u8);
    assert(final(out)@ =~= old(out)@ + decimal(n as nat));
}

/// `s` followed by `fill` bytes up to `width` bytes, as `{:fill<width}`
/// pads.
pub open spec fn pad_right_with(s: Seq<u8>, width: nat, fill: u8) -> Seq<u8> {
    if s.len() >= width {
        s
    } else {
        s + Seq::new((width - s.len()) as nat, |i: int| fill)
    }
}

/// `s` followed by spaces up to `width` bytes, as `{:<width}` pads.
pub open spec fn pad_right(s: Seq<u8>, width: nat) -> Seq<u8> {
    pad_right_with(s, width, 32u8)
}

/// Appends the decimal digits of `n`, left aligned in a field of `width`
/// bytes filled with `fill`, to `out`.
pub fn push_decimal_padded_with(out: &mut Vec<u8>, n: u64, width: usize, fill: u8)
    ensures
        final(out)@ == old(out)@ + pad_right_with(decimal(n as nat), width as nat, fill),
{
    let start = out.len();
    push_decimal(out, n);
    let ghost digits = decimal(n as nat);
    let mut written = out.len() - start;
    while written < width
        invariant
            out@ == old(out)@ + digits + Seq::new(
                (written - digits.len()) as nat,
                |i: int| fill,
            ),
            written >= digits.len(),
            written == digits.len() || written <= width,
        decreases width - written,
    {
        out.push(fill);
        written = written + 1;
        assert(out@ =~= old(out)@ + digits + Seq::new(
            (written - digits.len()) as nat,
            |i: int| fill,
        ));
    }
    proof {
        if digits.len() >= width {
            assert(out@ =~= old(out)@ + digits);
        } else {
            assert(written == width);
        }
    }
    assert(out@ =~= old(out)@ + pad_right_with(digits, width as nat, fill));
}

/// Appends the decimal digits of `n`, left aligned in a field of `width`
/// bytes, to `out`.
pub fn push_decimal_padded(out: &mut Vec<u8>, n: u64, width: usize)
    ensures
        final(out)@ == old(out)@ + pad_right(decimal(n as nat), width as nat),
{
    push_decimal_padded_with(out, n, width, 32u8);
}

/// Reads bytes as characters, one for one, as an ASCII text is read.
pub open spec fn ascii_chars(b: Seq<u8>) -> Seq<char> {
    b.map_values(|x: u8| x as char)
}


/// The decimal text of `n`, read back as `str::parse` reads an unsigned
/// integer, gives `n`, and holds no white space to trim.
pub proof fn lemma_decimal_reads_back(n: nat)
    ensures
        forall|i: int|
            0 <= i < ascii_chars(decimal(n)).len() ==> is_digit(
                #[trigger] ascii_chars(decimal(n))[i],
            ),
        ascii_chars(decimal(n)).len() >= 1,
        digits_value(ascii_chars(decimal(n))) == n,
        unsigned_value(ascii_chars(decimal(n))) == Some(n),
        trim(ascii_chars(decimal(n))) == ascii_chars(decimal(n)),
        forall|i: int| 0 <= i < decimal(n).len() ==> 48 <= #[trigger] decimal(n)[i] <= 57,
    decreases n,
{
    let s = ascii_chars(decimal(n));
    if n >= 10 {
        lemma_decimal_reads_back(n / 10);
        let p = ascii_chars(decimal(n / 10));
        assert(s.drop_last() =~= p);
        assert(decimal(n) == decimal(n / 10).push((n % 10 + 48) as u8));
        assert(s.last() == ((n % 10 + 48) as u8) as char);
        assert(digit_value(s.last()) == n % 10);
        assert(digits_value(s) == (n / 10) * 10 + n % 10);
        assert(digits_value(s) == n);
        assert forall|i: int| 0 <= i < decimal(n).len() implies 48 <= #[trigger] decimal(n)[i]
            <= 57 by {
            if i < decimal(n / 10).len() {
                assert(decimal(n)[i] == decimal(n / 10)[i]);
            }
        }
    }
    assert(s.len() == decimal(n).len());
    if n < 10 {
        assert(s.drop_last() =~= Seq::<char>::empty());
        assert(digit_value(s.last()) == n);
        assert(digits_value(s.drop_last()) == 0);
        assert(digits_value(s) == n);
    }
    assert(forall|i: int| 0 <= i < s.len() ==> s[i] == decimal(n)[i] as char);
    assert(forall|i: int| 0 <= i < s.len() ==> is_digit(#[trigger] s[i]));
    assert(s.len() >= 1);
    assert(unsigned_digits(s) == s) by {
        assert(is_digit(s[0]));
    }
    assert(!is_white_space(s[0]));
    assert(!is_white_space(s.last()));
    assert(trim_start(s) == s);
    assert(trim_end(s) == s);
}

/// A text that starts and ends with no white space is its own trim.
pub proof fn lemma_trim_unpadded(t: Seq<char>)
    requires
        t.len() > 0,
        !is_white_space(t[0]),
        !is_white_space(t.last()),
    ensures
        trim(t) == t,
{
}

/// Trimming the end of a text after a part that ends in no white space
/// trims only what follows that part.
pub proof fn lemma_trim_end_after(p: Seq<char>, y: Seq<char>)
    requires
        p.len() > 0,
        !is_white_space(p.last()),
    ensures
        trim_end(p + y) == p + trim_end(y),
    decreases y.len(),
{
    if y.len() == 0 {
        assert(p + y =~= p);
        assert(p + trim_end(y) =~= p);
    } else {
        assert((p + y).last() == y.last());
        if is_white_space(y.last()) {
            assert((p + y).drop_last() =~= p + y.drop_last());
            lemma_trim_end_after(p, y.drop_last());
        }
    }
}

/// Trimming the end keeps a prefix of the text, one whose last character,
/// if any, is no white space.
pub proof fn lemma_trim_end_prefix(y: Seq<char>) -> (j: int)
    ensures
        0 <= j <= y.len(),
        trim_end(y) == y.take(j),
        j > 0 ==> !is_white_space(y[j - 1]),
    decreases y.len(),
{
    if y.len() > 0 && is_white_space(y.last()) {
        let j = lemma_trim_end_prefix(y.drop_last());
        assert(y.drop_last().take(j) =~= y.take(j));
        j
    } else {
        assert(y.take(y.len() as int) =~= y);
        y.len() as int
    }
}

/// A part that holds no `c` comes before the first `c`.
pub proof fn lemma_split_at_first(p: Seq<char>, c: char, r: Seq<char>)
    requires
        forall|i: int| 0 <= i < p.len() ==> p[i] != c,
    ensures
        split_head(p + seq![c] + r, c) == p,
        split_rest(p + seq![c] + r, c) == Some(r),
{
    let s = p + seq![c] + r;
    let k = p.len() as int;
    assert(is_first_index(s, c, k));
    let m = choose|m: int| is_first_index(s, c, m);
    assert(m == k) by {
        if m < k {
            assert(s[m] == p[m]);
        }
        if m > k {
            assert(s[k] == c);
        }
    }
    assert(s.take(k) =~= p);
    assert(s.skip(k + 1) =~= r);
}

/// A text that holds no `c` is its own first piece.
pub proof fn lemma_split_none(s: Seq<char>, c: char)
    requires
        forall|i: int| 0 <= i < s.len() ==> s[i] != c,
    ensures
        split_head(s, c) == s,
        split_rest(s, c) == None::<Seq<char>>,
{
    assert(!exists|k: int| is_first_index(s, c, k));
}

/// A pattern that begins with a character that `p` does not hold occurs in
/// `p + z` only within `z`.
pub proof fn lemma_occurs_after(p: Seq<char>, z: Seq<char>, pat: Seq<char>)
    requires
        pat.len() > 0,
        forall|i: int| 0 <= i < p.len() ==> p[i] != pat[0],
        contains_seq(p + z, pat),
    ensures
        contains_seq(z, pat),
{
    let s = p + z;
    let k = choose|k: int| occurs_at(s, pat, k);
    assert(s.subrange(k, k + pat.len())[0] == pat[0]);
    assert(s[k] == pat[0]);
    assert(k >= p.len());
    let k2 = k - p.len();
    assert(z.subrange(k2, k2 + pat.len()) =~= s.subrange(k, k + pat.len()));
    assert(occurs_at(z, pat, k2));
}

/// A pattern in a prefix occurs in the whole text.
pub proof fn lemma_occurs_in_prefix(x: Seq<char>, j: int, pat: Seq<char>)
    requires
        0 <= j <= x.len(),
        contains_seq(x.take(j), pat),
    ensures
        contains_seq(x, pat),
{
    let k = choose|k: int| occurs_at(x.take(j), pat, k);
    assert(x.subrange(k, k + pat.len()) =~= x.take(j).subrange(k, k + pat.len()));
    assert(occurs_at(x, pat, k));
}

/// Trimming the start keeps a suffix of the text, one whose first
/// character, if any, is no white space.
pub proof fn lemma_trim_start_suffix(y: Seq<char>) -> (i: int)
    ensures
        0 <= i <= y.len(),
        trim_start(y) == y.skip(i),
        i < y.len() ==> !is_white_space(y[i]),
    decreases y.len(),
{
    if y.len() > 0 && is_white_space(y[0]) {
        let i = lemma_trim_start_suffix(y.drop_first());
        assert(y.drop_first().skip(i) =~= y.skip(i + 1));
        i + 1
    } else {
        assert(y.skip(0) =~= y);
        0
    }
}

/// Trimming twice is trimming once.
pub proof fn lemma_trim_idempotent(s: Seq<char>)
    ensures
        trim(trim(s)) == trim(s),
{
    let i = lemma_trim_start_suffix(s);
    let u = trim_start(s);
    let j = lemma_trim_end_prefix(u);
    let t = trim(s);
    if t.len() > 0 {
        assert(t[0] == u[0]);
        assert(u[0] == s[i]);
        assert(t.last() == u[j - 1]);
        lemma_trim_unpadded(t);
    } else {
        assert(trim_start(t) == t);
        assert(trim_end(t) == t);
    }
}

/// A part that holds no `c` follows the last `c`.
pub proof fn lemma_split_at_last(p: Seq<char>, c: char, w: Seq<char>)
    requires
        forall|i: int| 0 <= i < w.len() ==> w[i] != c,
    ensures
        split_last(p + seq![c] + w, c) == w,
{
    let s = p + seq![c] + w;
    let k = p.len() as int;
    assert(is_last_index(s, c, k)) by {
        assert forall|j: int| k < j < s.len() implies s[j] != c by {
            assert(s[j] == w[j - k - 1]);
        }
    }
    let m = choose|m: int| is_last_index(s, c, m);
    assert(m == k) by {
        if m > k {
            assert(s[m] == w[m - k - 1]);
        }
        if m < k {
            assert(s[k] == c);
        }
    }
    assert(s.skip(k + 1) =~= w);
}

} // verus!
