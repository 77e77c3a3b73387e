use vstd::prelude::*;

use crate::error::Error;
use crate::fps::{frametime_of_fps, Fps};
use crate::text::{
    ascii_chars, is_white_space, lemma_decimal_reads_back, lemma_occurs_after,
    lemma_occurs_in_prefix, lemma_split_at_first, lemma_split_none, lemma_trim_end_after,
    lemma_trim_end_prefix, lemma_trim_idempotent, lemma_trim_unpadded, occurs_at, unsigned_value, trim_end, trim_start,
    chars_of, contains_seq, decimal, find_first, parse_u32, parse_u32_spec, parse_u64,
    parse_u64_spec, push_decimal, range_contains, split_head, split_rest, trim, trim_range,
};

verus! {

/// The word by which the input file says that there is no target now.
pub open spec fn none_word() -> Seq<char> {
    seq!['n', 'o', 'n', 'e']
}

/// What `Connection::parse_input` makes of the text `s`: the target frame
/// rate and a fix time in nanoseconds, given as `fps:fix_time`.
pub open spec fn parse_input_spec(s: Seq<char>) -> Result<Option<(Fps, u64)>, Error> {
    let input = trim(s);
    if input.len() == 0 {
        Err(Error::Other("No input now"))
    } else if contains_seq(input, none_word()) {
        Ok(None)
    } else {
        let fields = trim(input);
        match parse_u32_spec(trim(split_head(fields, ':'))) {
            None => Err(Error::Other("Failed to parse input")),
            Some(fps) => match split_rest(fields, ':') {
                None => Err(Error::Other("Failed to parse input")),
                Some(rest) => match parse_u64_spec(trim(split_head(rest, ':'))) {
                    None => Err(Error::Other("Failed to parse input")),
                    Some(fix_time) => Ok(
                        Some(
                            (
                                Fps { fps, frametime: frametime_of_fps(fps as nat) as u64 },
                                fix_time,
                            ),
                        ),
                    ),
                },
            },
        }
    }
}

/// The target after the input file has been read again as `raw`, where
/// the target was `input`, read from the text `last_raw`: unchanged text
/// keeps the target, new text that parses replaces it, and new text that
/// does not parse keeps it.
pub open spec fn next_input(input: Option<(Fps, u64)>, last_raw: Seq<char>, raw: Seq<char>) -> Option<
    (Fps, u64),
> {
    if raw == last_raw {
        input
    } else {
        match parse_input_spec(raw) {
            Ok(i) => i,
            Err(_) => input,
        }
    }
}

/// Reading the same text twice gives the same target as reading it once.
pub proof fn law_reread_keeps_input(input: Option<(Fps, u64)>, last_raw: Seq<char>, raw: Seq<char>)
    ensures
        next_input(next_input(input, last_raw, raw), raw, raw) == next_input(input, last_raw, raw),
{
}

/// What the jank file says, trimmed and read as a number, is the level
/// that was written.
pub proof fn law_jank_message_reads_back(j: u32)
    ensures
        parse_u64_spec(trim(ascii_chars(decimal(j as nat).push(10u8)))) == Some(j as u64),
{
    lemma_decimal_reads_back(j as nat);
    let d = ascii_chars(decimal(j as nat));
    let s = ascii_chars(decimal(j as nat).push(10u8));
    assert(s =~= d.push('\n'));
    assert(s.drop_last() =~= d);
    assert(trim_end(s) == trim_end(d));
    assert(d.len() >= 1);
    assert(d[0] == decimal(j as nat)[0] as char);
    assert(!is_white_space(d[0]));
    assert(trim_start(s) == s);
    assert(trim(s) == trim_end(d));
    assert(trim_end(d) == trim(d)) by {
        assert(trim_start(d) == d);
    }
}

/// The decimal digits of `n` as characters.
pub open spec fn digits_of(n: nat) -> Seq<char> {
    ascii_chars(decimal(n))
}

/// The value that an input text `fps:fix_time` of plain numbers gives.
pub open spec fn input_value(f: u32, n: u64) -> Result<Option<(Fps, u64)>, Error> {
    Ok(Some((Fps { fps: f, frametime: frametime_of_fps(f as nat) as u64 }, n)))
}

proof fn lemma_digits_facts(n: nat)
    ensures
        digits_of(n).len() >= 1,
        forall|i: int|
            0 <= i < digits_of(n).len() ==> {
                &&& #[trigger] digits_of(n)[i] != ':'
                &&& digits_of(n)[i] != 'n'
                &&& digits_of(n)[i] != ' '
                &&& !is_white_space(digits_of(n)[i])
            },
        trim(digits_of(n)) == digits_of(n),
        unsigned_value(digits_of(n)) == Some(n),
{
    lemma_decimal_reads_back(n);
}

/// The input text `fps:fix_time` of plain numbers reads as those numbers.
pub proof fn law_plain_input(f: u32, n: u64)
    ensures
        parse_input_spec(digits_of(f as nat) + seq![':'] + digits_of(n as nat)) == input_value(f, n),
{
    lemma_digits_facts(f as nat);
    lemma_digits_facts(n as nat);
    let df = digits_of(f as nat);
    let dn = digits_of(n as nat);
    let s = df + seq![':'] + dn;
    assert(s[0] == df[0]);
    assert(s.last() == dn.last());
    lemma_trim_unpadded(s);
    assert forall|i: int| 0 <= i < s.len() implies s[i] != 'n' by {
        if i < df.len() {
            assert(s[i] == df[i]);
        } else if i > df.len() {
            assert(s[i] == dn[i - df.len() - 1]);
        }
    }
    if contains_seq(s, none_word()) {
        let k = choose|k: int| occurs_at(s, none_word(), k);
        assert(s.subrange(k, k + 4)[0] == 'n');
        assert(s[k] == 'n');
    }
    lemma_split_at_first(df, ':', dn);
    lemma_split_none(dn, ':');
}

/// New text that cannot be parsed, the emptied file among it, keeps the
/// target last read; new text that parses replaces it; the same text keeps
/// it.
pub proof fn law_unparsable_input_keeps_target(
    input: Option<(Fps, u64)>,
    last_raw: Seq<char>,
    raw: Seq<char>,
)
    ensures
        parse_input_spec(raw) is Err ==> next_input(input, last_raw, raw) == input,
        trim(raw).len() == 0 ==> parse_input_spec(raw) == Err::<Option<(Fps, u64)>, Error>(
            Error::Other("No input now"),
        ),
        trim(raw).len() == 0 ==> next_input(input, last_raw, raw) == input,
        raw == last_raw ==> next_input(input, last_raw, raw) == input,
        raw != last_raw && parse_input_spec(raw) is Ok ==> Ok::<Option<(Fps, u64)>, Error>(
            next_input(input, last_raw, raw),
        ) == parse_input_spec(raw),
{
}

/// Blanks around the input change nothing.
pub proof fn law_input_ignores_surrounding_blanks(s: Seq<char>)
    ensures
        parse_input_spec(s) == parse_input_spec(trim(s)),
{
    lemma_trim_idempotent(s);
    lemma_trim_idempotent(trim(s));
}

/// The input `  fps :fix_time:rest\n` with `rest` = `x`.
pub open spec fn padded_input(f: u32, n: u64, x: Seq<char>) -> Seq<char> {
    seq![' ', ' '] + digits_of(f as nat) + seq![' ', ':'] + digits_of(n as nat) + seq![':'] + x
        + seq!['\n']
}

/// The part of the padded input before `rest`.
pub open spec fn padded_head(f: u32, n: u64) -> Seq<char> {
    digits_of(f as nat) + seq![' ', ':'] + digits_of(n as nat) + seq![':']
}

proof fn lemma_padded_trim(f: u32, n: u64, x: Seq<char>) -> (j: int)
    ensures
        0 <= j <= x.len(),
        trim_end(x) == x.take(j),
        j > 0 ==> !is_white_space(x[j - 1]),
        trim(padded_input(f, n, x)) == padded_head(f, n) + trim_end(x),
{
    lemma_digits_facts(f as nat);
    lemma_digits_facts(n as nat);
    let df = digits_of(f as nat);
    let s1 = padded_input(f, n, x);
    let u = padded_head(f, n) + (x + seq!['\n']);
    assert(s1[0] == ' ');
    assert(s1.drop_first()[0] == ' ');
    assert(s1.drop_first().drop_first() =~= u);
    assert(u[0] == df[0]);
    assert(trim_start(u) == u);
    assert(trim_start(s1.drop_first()) == trim_start(u));
    assert(trim_start(s1) == u);
    let p = padded_head(f, n);
    assert(p.last() == ':');
    lemma_trim_end_after(p, x + seq!['\n']);
    assert((x + seq!['\n']).drop_last() =~= x);
    assert(trim_end(x + seq!['\n']) == trim_end(x));
    lemma_trim_end_prefix(x)
}

proof fn lemma_padded_head_facts(f: u32, n: u64)
    ensures
        padded_head(f, n).len() > 0,
        padded_head(f, n)[0] == digits_of(f as nat)[0],
        !is_white_space(padded_head(f, n)[0]),
        forall|i: int| 0 <= i < padded_head(f, n).len() ==> #[trigger] padded_head(f, n)[i] != 'n',
{
    lemma_digits_facts(f as nat);
    lemma_digits_facts(n as nat);
    let df = digits_of(f as nat);
    let dn = digits_of(n as nat);
    let p = padded_head(f, n);
    assert forall|i: int| 0 <= i < p.len() implies #[trigger] p[i] != 'n' by {
        if i < df.len() {
            assert(p[i] == df[i]);
        } else if df.len() + 1 < i < p.len() - 1 {
            assert(p[i] == dn[i - df.len() - 2]);
        }
    }
}

proof fn lemma_padded_fields(f: u32, n: u64, z: Seq<char>)
    ensures
        ({
            let t = padded_head(f, n) + z;
            &&& parse_u32_spec(trim(split_head(t, ':'))) == Some(f)
            &&& split_rest(t, ':') == Some(digits_of(n as nat) + seq![':'] + z)
            &&& parse_u64_spec(trim(split_head(digits_of(n as nat) + seq![':'] + z, ':')))
                == Some(n)
        }),
{
    lemma_digits_facts(f as nat);
    lemma_digits_facts(n as nat);
    let df = digits_of(f as nat);
    let dn = digits_of(n as nat);
    let t = padded_head(f, n) + z;
    let h = df + seq![' '];
    let rest = dn + seq![':'] + z;
    assert(t =~= h + seq![':'] + rest);
    assert forall|i: int| 0 <= i < h.len() implies h[i] != ':' by {
        if i < df.len() {
            assert(h[i] == df[i]);
        }
    }
    lemma_split_at_first(h, ':', rest);
    lemma_split_at_first(dn, ':', z);
    assert(h.last() == ' ');
    assert(h.drop_last() =~= df);
    assert(h[0] == df[0]);
    assert(trim_start(h) == h);
    assert(trim_end(h) == trim_end(df));
    assert(trim_start(df) == df);
    assert(trim(h) == df);
}

/// Blanks around the input and any fields after the second `:` change
/// nothing: `  fps :fix_time:rest\n` reads as `fps:fix_time` where `rest`
/// does not say `none`.
pub proof fn law_input_ignores_blanks_and_later_fields(f: u32, n: u64, x: Seq<char>)
    requires
        !contains_seq(x, none_word()),
    ensures
        parse_input_spec(padded_input(f, n, x)) == parse_input_spec(
            digits_of(f as nat) + seq![':'] + digits_of(n as nat),
        ),
        parse_input_spec(digits_of(f as nat) + seq![':'] + digits_of(n as nat)) == input_value(f, n),
{
    law_plain_input(f, n);
    let j = lemma_padded_trim(f, n, x);
    lemma_padded_head_facts(f, n);
    let p = padded_head(f, n);
    let z = trim_end(x);
    let t = p + z;
    assert(trim(padded_input(f, n, x)) == t);
    if contains_seq(t, none_word()) {
        lemma_occurs_after(p, z, none_word());
        lemma_occurs_in_prefix(x, j, none_word());
    }
    assert(t[0] == p[0]);
    if z.len() > 0 {
        assert(t.last() == z.last());
        assert(z.last() == x[j - 1]);
    } else {
        assert(t =~= p);
        assert(p.last() == ':');
    }
    lemma_trim_unpadded(t);
    lemma_padded_fields(f, n, z);
}

/// The connection to the root daemon: the target it last set, the text
/// that it was read from, and the paths of the two files that carry them.
pub struct Connection {
    input: Option<(Fps, u64)>,
    input_raw: String,
    input_path: String,
    jank_path: String,
}

impl Connection {
    /// The target frame rate and fix time last read.
    pub closed spec fn input_spec(&self) -> Option<(Fps, u64)> {
        self.input
    }

    /// The text that the last target was read from.
    pub closed spec fn input_raw_spec(&self) -> Seq<char> {
        self.input_raw@
    }

    /// The path of the input file.
    pub closed spec fn input_path_spec(&self) -> Seq<char> {
        self.input_path@
    }

    /// The path of the jank file.
    pub closed spec fn jank_path_spec(&self) -> Seq<char> {
        self.jank_path@
    }

    /// Parses the input file's text `i`, `fps:fix_time` with the fix time in
    /// nanoseconds. `Ok(None)` where the text says `none`; an error where it
    /// is empty or malformed.
    pub fn parse_input(i: &str) -> (r: Result<Option<(Fps, u64)>, Error>)
        ensures
            r == parse_input_spec(i@),
    {
        let v = chars_of(i);
        let (lo, hi) = trim_range(&v, 0, v.len());
        assert(v@.subrange(0, v.len() as int) =~= i@);
        if lo == hi {
            return Err(Error::Other("No input now"));
        }
        let pat: Vec<char> = vec!['n', 'o', 'n', 'e'];
        assert(pat@ =~= none_word());
        if range_contains(&v, lo, hi, &pat) {
            return Ok(None);
        }
        let (lo2, hi2) = trim_range(&v, lo, hi);
        let ghost fields = v@.subrange(lo2 as int, hi2 as int);
        let colon = find_first(&v, lo2, hi2, ':');
        let (a, b) = trim_range(&v, lo2, colon);
        let fps = match parse_u32(&v, a, b) {
            Some(f) => f,
            None => {
                return Err(Error::Other("Failed to parse input"));
            },
        };
        if colon == hi2 {
            return Err(Error::Other("Failed to parse input"));
        }
        let second_end = find_first(&v, colon + 1, hi2, ':');
        let (c, d) = trim_range(&v, colon + 1, second_end);
        let fix_time = match parse_u64(&v, c, d) {
            Some(t) => t,
            None => {
                return Err(Error::Other("Failed to parse input"));
            },
        };
        Ok(Some((Fps::from_fps(fps), fix_time)))
    }

    /// The connection once the input file reads `input_raw`: `None` while
    /// that text cannot be parsed, so that the caller waits and reads again.
    pub fn from_input(input_raw: String, input_path: String, jank_path: String) -> (r: Option<
        Connection,
    >)
        ensures
            r is Some <==> parse_input_spec(input_raw@) is Ok,
            r matches Some(c) ==> {
                &&& parse_input_spec(input_raw@) == Ok::<Option<(Fps, u64)>, Error>(
                    c.input_spec(),
                )
                &&& c.input_raw_spec() == input_raw@
                &&& c.input_path_spec() == input_path@
                &&& c.jank_path_spec() == jank_path@
            },
    {
        match Self::parse_input(input_raw.as_str()) {
            Ok(input) => Some(Connection { input, input_raw, input_path, jank_path }),
            Err(_) => None,
        }
    }

    /// The text that the last target was read from.
    pub fn input_raw(&self) -> (r: &String)
        ensures
            r@ == self.input_raw_spec(),
    {
        &self.input_raw
    }

    /// The path of the input file.
    pub fn input_path(&self) -> (r: &String)
        ensures
            r@ == self.input_path_spec(),
    {
        &self.input_path
    }

    /// The path of the jank file.
    pub fn jank_path(&self) -> (r: &String)
        ensures
            r@ == self.jank_path_spec(),
    {
        &self.jank_path
    }

    /// Takes the input file's current text `input_raw` and gives the
    /// target: the last one read where the text has not changed, the newly
    /// parsed one where it has, and the last one again where the new text
    /// cannot be parsed.
    pub fn get_input(&mut self, input_raw: String) -> (r: Option<(Fps, u64)>)
        ensures
            final(self).input_raw_spec() == input_raw@,
            final(self).input_path_spec() == old(self).input_path_spec(),
            final(self).jank_path_spec() == old(self).jank_path_spec(),
            final(self).input_spec() == next_input(
                old(self).input_spec(),
                old(self).input_raw_spec(),
                input_raw@,
            ),
            r == final(self).input_spec(),
    {
        if input_raw == self.input_raw {
            return self.input;
        }
        self.input_raw = input_raw;
        match Self::parse_input(self.input_raw.as_str()) {
            Ok(i) => {
                self.input = i;
            },
            Err(_) => {},
        }
        self.input
    }

    /// The bytes written to the jank file to report jank level `j`: its
    /// decimal digits and a newline.
    pub fn jank_message(j: u32) -> (r: Vec<u8>)
        ensures
            r@ == decimal(j as nat).push(10u8),
    {
        let mut out: Vec<u8> = Vec::new();
        push_decimal(&mut out, j as u64);
        out.push(10u8);
        assert(out@ =~= decimal(j as nat).push(10u8));
        out
    }
}

} // verus!
