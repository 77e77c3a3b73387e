use vstd::prelude::*;

use crate::text::{
    is_white_space, lemma_trim_end_after, trim_end, trim_start, ascii_chars, chars_of, decimal, lemma_decimal_reads_back, pad_right, parse_u64,
    parse_u64_spec, push_decimal, push_decimal_padded, trim, trim_range,
};

verus! {

/// Lines in the frame time buffer.
pub const HISTORY_LEN: usize = 512;

/// Bytes in one line of the frame time buffer.
pub const LINE_LEN: usize = 10;

/// Frame times of this many nanoseconds or more do not fit a line.
pub const LINE_LIMIT: u64 = 1_000_000_000;

/// The longest frame time, in nanoseconds, that `update_mmap` records.
pub const MMAP_FRAMETIME_CAP: u64 = 100_000_000;

/// The fps sample time, in milliseconds, before the daemon sets one.
pub const DEFAULT_SAMPLE_MS: u64 = 400;

/// The longest fps sample time, in milliseconds.
pub const MAX_SAMPLE_MS: u64 = 5000;

/// The largest frame rate that the fps file shows.
pub const MAX_SHOWN_FPS: u64 = 9999;

/// One line of the frame time buffer: the frame time in nanoseconds, left
/// aligned in nine bytes, and a newline (`{:<9}\n`).
pub open spec fn frametime_line_spec(ns: nat) -> Seq<u8> {
    pad_right(decimal(ns), 9).push(10u8)
}

/// `n` copies of `line`, one after the other.
pub open spec fn repeat_line(line: Seq<u8>, n: nat) -> Seq<u8>
    decreases n,
{
    if n == 0 {
        Seq::empty()
    } else {
        repeat_line(line, (n - 1) as nat) + line
    }
}

/// The buffer after each frame time of `fts` in turn has been appended as
/// a line and the first line has been dropped.
pub open spec fn after_frametimes(buf: Seq<u8>, fts: Seq<u64>) -> Seq<u8>
    decreases fts.len(),
{
    if fts.len() == 0 {
        buf
    } else {
        after_frametimes(
            buf.skip(LINE_LEN as int) + frametime_line_spec(fts[0] as nat),
            fts.drop_first(),
        )
    }
}

/// The frame times of `fts` that a buffer update records: the first
/// `HISTORY_LEN` of them.
pub open spec fn recorded(fts: Seq<u64>) -> Seq<u64> {
    if fts.len() <= HISTORY_LEN {
        fts
    } else {
        fts.take(HISTORY_LEN as int)
    }
}

/// The fps sample time, in milliseconds, that the sample file's text `s`
/// sets: its trimmed number, or the default where it is none, capped at
/// `MAX_SAMPLE_MS`.
pub open spec fn sample_time_spec(s: Seq<char>) -> u64 {
    let t = match parse_u64_spec(trim(s)) {
        Some(v) => v,
        None => DEFAULT_SAMPLE_MS,
    };
    if t > MAX_SAMPLE_MS {
        MAX_SAMPLE_MS
    } else {
        t
    }
}

/// Ten to the power `k`.
pub open spec fn pow10(k: nat) -> nat
    decreases k,
{
    if k == 0 {
        1
    } else {
        10 * pow10((k - 1) as nat)
    }
}

/// A number below `10^k`, for `k` at least one, has at most `k` digits.
pub proof fn lemma_decimal_len_bound(n: nat, k: nat)
    requires
        k >= 1,
        n < pow10(k),
    ensures
        1 <= decimal(n).len() <= k,
    decreases n,
{
    if n >= 10 {
        let k1 = (k - 1) as nat;
        if k1 == 0 {
            assert(pow10(k) == 10) by {
                reveal_with_fuel(pow10, 2);
            }
        }
        assert(n / 10 < pow10(k1));
        lemma_decimal_len_bound(n / 10, k1);
    }
}

proof fn lemma_decimal_len(n: nat)
    ensures
        decimal(n).len() >= 1,
        n < LINE_LIMIT ==> decimal(n).len() <= 9,
        n < 10000 ==> decimal(n).len() <= 4,
{
    assert(pow10(4) == 10000) by {
        reveal_with_fuel(pow10, 5);
    }
    assert(pow10(9) == 1_000_000_000) by {
        reveal_with_fuel(pow10, 10);
    }
    if n < LINE_LIMIT {
        lemma_decimal_len_bound(n, 9);
    }
    if n < 10000 {
        lemma_decimal_len_bound(n, 4);
    }
}

/// One line of the frame time buffer for `ns` nanoseconds.
pub fn frametime_line(ns: u64) -> (r: Vec<u8>)
    ensures
        r@ == frametime_line_spec(ns as nat),
        ns < LINE_LIMIT ==> r@.len() == LINE_LEN,
{
    let mut out: Vec<u8> = Vec::new();
    push_decimal_padded(&mut out, ns, 9);
    out.push(10u8);
    proof {
        lemma_decimal_len(ns as nat);
        assert(out@ =~= frametime_line_spec(ns as nat));
    }
    out
}

/// Appends `n` copies of `line` to `out`.
fn push_lines(out: &mut Vec<u8>, line: &Vec<u8>, n: usize)
    ensures
        final(out)@ == old(out)@ + repeat_line(line@, n as nat),
{
    let mut i: usize = 0;
    while i < n
        invariant
            i <= n,
            out@ == old(out)@ + repeat_line(line@, i as nat),
        decreases n - i,
    {
        let mut j: usize = 0;
        let ghost before = out@;
        while j < line.len()
            invariant
                j <= line.len(),
                out@ == before + line@.take(j as int),
            decreases line.len() - j,
        {
            out.push(line[j]);
            j = j + 1;
            assert(out@ =~= before + line@.take(j as int));
        }
        assert(line@.take(line.len() as int) =~= line@);
        i = i + 1;
        assert(out@ =~= old(out)@ + repeat_line(line@, i as nat));
    }
}

/// The frame time buffer as a new file holds it: `HISTORY_LEN` lines of a
/// zero frame time.
pub fn initial_frametimes() -> (r: Vec<u8>)
    ensures
        r@ == repeat_line(frametime_line_spec(0), HISTORY_LEN as nat),
{
    let line = frametime_line(0);
    let mut out: Vec<u8> = Vec::new();
    push_lines(&mut out, &line, HISTORY_LEN);
    assert(out@ =~= repeat_line(frametime_line_spec(0), HISTORY_LEN as nat));
    out
}

/// The first content of the shared frame time file: `HISTORY_LEN` lines of
/// nine zeros.
pub fn zeroed_frametimes() -> (r: Vec<u8>)
    ensures
        r@ == repeat_line(seq![48u8, 48u8, 48u8, 48u8, 48u8, 48u8, 48u8, 48u8, 48u8, 10u8], HISTORY_LEN as nat),
{
    let line: Vec<u8> = vec![48u8, 48u8, 48u8, 48u8, 48u8, 48u8, 48u8, 48u8, 48u8, 10u8];
    let mut out: Vec<u8> = Vec::new();
    push_lines(&mut out, &line, HISTORY_LEN);
    assert(out@ =~= repeat_line(line@, HISTORY_LEN as nat));
    out
}

/// Drops the first line of the frame time buffer and appends the line of
/// `ns` nanoseconds, keeping the buffer's length.
pub fn push_frametime(buf: &mut Vec<u8>, ns: u64)
    requires
        old(buf)@.len() >= LINE_LEN,
        ns < LINE_LIMIT,
    ensures
        final(buf)@ == old(buf)@.skip(LINE_LEN as int) + frametime_line_spec(ns as nat),
        final(buf)@.len() == old(buf)@.len(),
{
    let line = frametime_line(ns);
    let mut up: Vec<u8> = Vec::new();
    let mut i: usize = LINE_LEN;
    while i < buf.len()
        invariant
            LINE_LEN <= i <= buf.len(),
            up@ == buf@.subrange(LINE_LEN as int, i as int),
        decreases buf.len() - i,
    {
        up.push(buf[i]);
        i = i + 1;
        assert(up@ =~= buf@.subrange(LINE_LEN as int, i as int));
    }
    let mut j: usize = 0;
    let ghost rest = up@;
    while j < line.len()
        invariant
            j <= line.len(),
            up@ == rest + line@.take(j as int),
        decreases line.len() - j,
    {
        up.push(line[j]);
        j = j + 1;
        assert(up@ =~= rest + line@.take(j as int));
    }
    assert(line@.take(line.len() as int) =~= line@);
    assert(buf@.subrange(LINE_LEN as int, buf.len() as int) =~= buf@.skip(LINE_LEN as int));
    *buf = up;
}

/// Records the frame times `fts` in the buffer, at most `HISTORY_LEN` of
/// them, each as a new last line.
pub fn update_frametimes(buf: &mut Vec<u8>, fts: &Vec<u64>)
    requires
        old(buf)@.len() >= LINE_LEN,
        forall|i: int| 0 <= i < recorded(fts@).len() ==> recorded(fts@)[i] < LINE_LIMIT,
    ensures
        final(buf)@ == after_frametimes(old(buf)@, recorded(fts@)),
        final(buf)@.len() == old(buf)@.len(),
{
    let n = if fts.len() <= HISTORY_LEN {
        fts.len()
    } else {
        HISTORY_LEN
    };
    let ghost all = recorded(fts@);
    assert(all.len() == n);
    let mut i: usize = 0;
    assert(all.skip(0) =~= all);
    while i < n
        invariant
            i <= n <= fts.len(),
            all == recorded(fts@),
            all.len() == n,
            forall|t: int| 0 <= t < n ==> all[t] == fts@[t],
            forall|t: int| 0 <= t < all.len() ==> all[t] < LINE_LIMIT,
            buf@.len() == old(buf)@.len(),
            buf@.len() >= LINE_LEN,
            after_frametimes(old(buf)@, all) == after_frametimes(buf@, all.skip(i as int)),
        decreases n - i,
    {
        let ghost before = buf@;
        push_frametime(buf, fts[i]);
        proof {
            assert(all.skip(i as int).drop_first() =~= all.skip(i + 1));
            assert(all.skip(i as int)[0] == fts@[i as int]);
        }
        i = i + 1;
    }
    assert(all.skip(n as int) =~= Seq::<u64>::empty());
}

/// Records the frame time `t`, capped at `MMAP_FRAMETIME_CAP` nanoseconds,
/// in the shared frame time file `m`: its line (`{:<9}\n`, filled with
/// spaces) comes first, every other line moves down by one, and the last
/// line is dropped. On a map of two lines this is exactly the line followed
/// by the old first line; on a longer map, where copying those twenty bytes
/// would not fit, the shift follows the layout that the file is meant to
/// have: newest line first, oldest dropped.
pub fn update_mmap(m: &mut Vec<u8>, t: u64)
    requires
        old(m)@.len() >= LINE_LEN,
    ensures
        final(m)@ == frametime_line_spec(
            (if t < MMAP_FRAMETIME_CAP {
                t
            } else {
                MMAP_FRAMETIME_CAP
            }) as nat,
        ) + old(m)@.take(old(m)@.len() - LINE_LEN),
        final(m)@.len() == old(m)@.len(),
{
    let t = if t < MMAP_FRAMETIME_CAP {
        t
    } else {
        MMAP_FRAMETIME_CAP
    };
    let mut up = frametime_line(t);
    let ghost line = up@;
    let keep = m.len() - LINE_LEN;
    let mut i: usize = 0;
    while i < keep
        invariant
            i <= keep,
            keep + LINE_LEN == m@.len(),
            up@ == line + m@.take(i as int),
        decreases keep - i,
    {
        up.push(m[i]);
        i = i + 1;
        assert(up@ =~= line + m@.take(i as int));
    }
    *m = up;
}

/// The fps sample time, in milliseconds, that the sample file's text `s`
/// sets.
pub fn sample_time_from_text(s: &str) -> (r: u64)
    ensures
        r == sample_time_spec(s@),
        r <= MAX_SAMPLE_MS,
{
    let v = chars_of(s);
    let (lo, hi) = trim_range(&v, 0, v.len());
    assert(v@.subrange(0, v.len() as int) =~= s@);
    let t = match parse_u64(&v, lo, hi) {
        Some(t) => t,
        None => DEFAULT_SAMPLE_MS,
    };
    if t > MAX_SAMPLE_MS {
        MAX_SAMPLE_MS
    } else {
        t
    }
}

/// The text written back to the sample file for a sample time of `ms`
/// milliseconds: its decimal digits.
pub fn sample_time_text(ms: u64) -> (r: Vec<u8>)
    ensures
        r@ == decimal(ms as nat),
{
    let mut out: Vec<u8> = Vec::new();
    push_decimal(&mut out, ms);
    assert(out@ =~= decimal(ms as nat));
    out
}

/// The four bytes of the fps file for an average of `avg` frames per
/// second: the average, capped at `MAX_SHOWN_FPS`, left aligned (`{:<4}`).
pub fn fps_text(avg: u64) -> (r: Vec<u8>)
    ensures
        r@ == pad_right(
            decimal(
                (if avg < MAX_SHOWN_FPS {
                    avg
                } else {
                    MAX_SHOWN_FPS
                }) as nat,
            ),
            4,
        ),
        r@.len() == 4,
{
    let shown = if avg < MAX_SHOWN_FPS {
        avg
    } else {
        MAX_SHOWN_FPS
    };
    let mut out: Vec<u8> = Vec::new();
    push_decimal_padded(&mut out, shown, 4);
    proof {
        lemma_decimal_len(shown as nat);
        assert(out@ =~= pad_right(decimal(shown as nat), 4));
    }
    out
}

/// How long, in nanoseconds, the sample time stands before the sample
/// file is read again.
pub const SAMPLE_REFRESH_NS: u64 = 1_000_000_000;

/// Whether the sample file is read again, `elapsed_ns` nanoseconds after
/// the stamp: only once more than a second has passed.
pub fn sample_refresh_due(elapsed_ns: u64) -> (r: bool)
    ensures
        r == (elapsed_ns > SAMPLE_REFRESH_NS),
{
    elapsed_ns > SAMPLE_REFRESH_NS
}

/// Whether `k` counts the leading entries of `elapsed` that are at most
/// `limit`: those come first, and the next one, if any, exceeds it.
pub open spec fn is_leading_count(elapsed: Seq<u64>, limit: u64, k: int) -> bool {
    &&& 0 <= k <= elapsed.len()
    &&& forall|i: int| 0 <= i < k ==> #[trigger] elapsed[i] <= limit
    &&& k < elapsed.len() ==> elapsed[k] > limit
}

/// The number of frames in the fps sample: of the frames' ages, newest
/// first, in nanoseconds, those that lead the list and are no older than
/// the sample time `sample_ns`.
pub fn frame_count(elapsed: &Vec<u64>, sample_ns: u64) -> (r: usize)
    ensures
        is_leading_count(elapsed@, sample_ns, r as int),
{
    let mut k: usize = 0;
    while k < elapsed.len() && elapsed[k] <= sample_ns
        invariant
            k <= elapsed.len(),
            forall|i: int| 0 <= i < k ==> #[trigger] elapsed@[i] <= sample_ns,
        decreases elapsed.len() - k,
    {
        k = k + 1;
    }
    k
}

/// A sample time written back to the sample file reads back as itself:
/// updating the sample time again from that text changes nothing.
pub proof fn law_sample_time_round_trip(ms: u64)
    requires
        ms <= MAX_SAMPLE_MS,
    ensures
        sample_time_spec(ascii_chars(decimal(ms as nat))) == ms,
{
    lemma_decimal_reads_back(ms as nat);
}

proof fn lemma_trim_end_all_white(y: Seq<char>)
    requires
        forall|i: int| 0 <= i < y.len() ==> is_white_space(#[trigger] y[i]),
    ensures
        trim_end(y) == Seq::<char>::empty(),
    decreases y.len(),
{
    if y.len() > 0 {
        assert(is_white_space(y[y.len() - 1]));
        lemma_trim_end_all_white(y.drop_last());
    }
}

/// A line of the frame time buffer, trimmed and read as a number, gives
/// the frame time written, for every frame time that fits a line.
pub proof fn lemma_line_reads_back(t: nat)
    requires
        t < LINE_LIMIT,
    ensures
        frametime_line_spec(t).len() == LINE_LEN,
        parse_u64_spec(trim(ascii_chars(frametime_line_spec(t)))) == Some(t as u64),
{
    lemma_decimal_reads_back(t);
    lemma_decimal_len(t);
    let d = decimal(t);
    let pad = (9 - d.len()) as nat;
    let line = frametime_line_spec(t);
    let tail: Seq<u8> = Seq::new(pad, |i: int| 32u8).push(10u8);
    assert(line =~= d + tail);
    let dc = ascii_chars(d);
    let tc = ascii_chars(tail);
    assert(ascii_chars(line) =~= dc + tc);
    assert forall|i: int| 0 <= i < tc.len() implies is_white_space(#[trigger] tc[i]) by {
        assert(tc[i] == tail[i] as char);
        if i < pad {
            assert(tail[i] == 32u8);
        } else {
            assert(tail[i] == 10u8);
        }
    }
    lemma_trim_end_all_white(tc);
    assert(dc.len() >= 1);
    assert(!is_white_space(dc.last()));
    lemma_trim_end_after(dc, tc);
    assert(dc + Seq::<char>::empty() =~= dc);
    assert(!is_white_space(dc[0]));
    assert((dc + tc)[0] == dc[0]);
    assert(trim_start(dc + tc) == dc + tc);
    assert(trim(ascii_chars(line)) == dc);
    assert(trim_start(dc) == dc);
    assert(trim_end(dc) == dc);
}

/// One frame time below `LINE_LIMIT` is recorded as it is: the oldest line
/// goes, and the new last line reads back as that frame time.
pub proof fn law_frametime_recorded_verbatim(buf: Seq<u8>, t: u64)
    requires
        buf.len() >= LINE_LEN,
        t < LINE_LIMIT,
    ensures
        after_frametimes(buf, seq![t]) == buf.skip(LINE_LEN as int) + frametime_line_spec(t as nat),
        after_frametimes(buf, seq![t]).len() == buf.len(),
        parse_u64_spec(
            trim(ascii_chars(after_frametimes(buf, seq![t]).skip(buf.len() - LINE_LEN))),
        ) == Some(t),
{
    lemma_line_reads_back(t as nat);
    let out = buf.skip(LINE_LEN as int) + frametime_line_spec(t as nat);
    assert(seq![t].drop_first() =~= Seq::<u64>::empty());
    assert(after_frametimes(buf, seq![t]) == after_frametimes(out, Seq::<u64>::empty()));
    assert(out.skip(buf.len() - LINE_LEN) =~= frametime_line_spec(t as nat));
}

/// Recording frame times in two batches is recording them in one.
pub proof fn law_frametimes_compose(buf: Seq<u8>, a: Seq<u64>, b: Seq<u64>)
    ensures
        after_frametimes(buf, a + b) == after_frametimes(after_frametimes(buf, a), b),
    decreases a.len(),
{
    if a.len() > 0 {
        let next = buf.skip(LINE_LEN as int) + frametime_line_spec(a[0] as nat);
        assert((a + b)[0] == a[0]);
        assert((a + b).drop_first() =~= a.drop_first() + b);
        law_frametimes_compose(next, a.drop_first(), b);
    } else {
        assert(a + b =~= b);
    }
}

} // verus!
