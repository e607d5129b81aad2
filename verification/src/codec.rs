//! The frame scanner: the mathematical decoding of wire bytes, shared by
//! the executable `check` and `parse` functions and by the codec laws.
//!
//! Scanning a byte sequence either finds one complete frame at the front
//! (with the count of bytes it occupies), reports that the bytes are a
//! partial frame and more are needed, or reports malformed bytes.

use vstd::prelude::*;
use crate::frame::{
    all_digits, crlf, decimal_rep, decimal_value, enc, enc_list, is_digit, lemma_decimal_rep,
    lemma_enc_len, lemma_model_list_len, lemma_model_list_push, line_ok, model_list, utf8_ok,
    utf8_valid, wf_list, Frame, FrameModel, CR, DIGIT_ONE, LF, TAG_ARRAY, TAG_BULK, TAG_ERROR,
    TAG_INTEGER, TAG_SIMPLE,
};

verus! {

/// The outcome of scanning for one frame at the front of a byte sequence.
pub enum ScanResult {
    /// A complete frame occupies exactly the first `int` bytes.
    Found(FrameModel, int),
    /// The bytes end before the frame does; more are needed.
    Partial,
    /// The bytes cannot begin a frame.
    Bad,
}

/// The outcome of scanning for a fixed count of consecutive frames.
pub enum ScanListResult {
    /// The frames occupy exactly the first `int` bytes.
    FoundList(Seq<FrameModel>, int),
    PartialList,
    BadList,
}

/// Index of the first terminator pair (carriage return then line feed).
pub open spec fn find_crlf(s: Seq<u8>) -> Option<int>
    decreases s.len(),
{
    if s.len() < 2 {
        None
    } else if s[0] == CR && s[1] == LF {
        Some(0)
    } else {
        match find_crlf(s.subrange(1, s.len() as int)) {
            Some(j) => Some(j + 1),
            None => None,
        }
    }
}

/// Whether a decimal line is acceptable: at least one digit, all digits,
/// and a value that fits in an unsigned 64-bit integer.
pub open spec fn decimal_line_ok(line: Seq<u8>) -> bool {
    line.len() >= 1 && all_digits(line) && decimal_value(line) <= u64::MAX
}

/// Scan for one complete frame at the front of `s`.
pub open spec fn scan(s: Seq<u8>) -> ScanResult
    decreases s.len(), 0int,
{
    if s.len() == 0 {
        ScanResult::Partial
    } else {
        let t = s.subrange(1, s.len() as int);
        if s[0] == TAG_SIMPLE {
            match find_crlf(t) {
                Some(i) => {
                    let p = t.subrange(0, i);
                    if utf8_ok(p) {
                        ScanResult::Found(FrameModel::Simple(p), 3 + i)
                    } else {
                        ScanResult::Bad
                    }
                }
                None => ScanResult::Partial,
            }
        } else if s[0] == TAG_ERROR {
            match find_crlf(t) {
                Some(i) => {
                    let p = t.subrange(0, i);
                    if utf8_ok(p) {
                        ScanResult::Found(FrameModel::Error(p), 3 + i)
                    } else {
                        ScanResult::Bad
                    }
                }
                None => ScanResult::Partial,
            }
        } else if s[0] == TAG_INTEGER {
            match find_crlf(t) {
                Some(i) => {
                    let line = t.subrange(0, i);
                    if decimal_line_ok(line) {
                        ScanResult::Found(
                            FrameModel::Integer(decimal_value(line) as u64),
                            3 + i,
                        )
                    } else {
                        ScanResult::Bad
                    }
                }
                None => ScanResult::Partial,
            }
        } else if s[0] == TAG_BULK {
            match find_crlf(t) {
                Some(i) => {
                    let line = t.subrange(0, i);
                    if line.len() == 2 && line[0] == TAG_ERROR && line[1] == DIGIT_ONE {
                        ScanResult::Found(FrameModel::Null, 3 + i)
                    } else if decimal_line_ok(line) {
                        let n = decimal_value(line) as int;
                        let h = 3 + i;
                        if s.len() < h + n + 2 {
                            ScanResult::Partial
                        } else if s[h + n] == CR && s[h + n + 1] == LF {
                            ScanResult::Found(FrameModel::Bulk(s.subrange(h, h + n)), h + n + 2)
                        } else {
                            ScanResult::Bad
                        }
                    } else {
                        ScanResult::Bad
                    }
                }
                None => ScanResult::Partial,
            }
        } else if s[0] == TAG_ARRAY {
            match find_crlf(t) {
                Some(i) => {
                    if 0 <= i && i + 2 <= t.len() {
                        let line = t.subrange(0, i);
                        if decimal_line_ok(line) {
                            let h = 3 + i;
                            match scan_list(s.subrange(h, s.len() as int), decimal_value(line)) {
                                ScanListResult::FoundList(fs, m) => ScanResult::Found(
                                    FrameModel::Array(fs),
                                    h + m,
                                ),
                                ScanListResult::PartialList => ScanResult::Partial,
                                ScanListResult::BadList => ScanResult::Bad,
                            }
                        } else {
                            ScanResult::Bad
                        }
                    } else {
                        // a terminator index is always in range; never reached
                        ScanResult::Bad
                    }
                }
                None => ScanResult::Partial,
            }
        } else {
            ScanResult::Bad
        }
    }
}

/// Scan for `count` consecutive frames at the front of `s`.
pub open spec fn scan_list(s: Seq<u8>, count: nat) -> ScanListResult
    decreases s.len(), count,
{
    if count == 0 {
        ScanListResult::FoundList(Seq::empty(), 0)
    } else {
        match scan(s) {
            ScanResult::Found(f, n) => {
                if 1 <= n && n <= s.len() {
                    match scan_list(s.subrange(n, s.len() as int), (count - 1) as nat) {
                        ScanListResult::FoundList(fs, m) => ScanListResult::FoundList(
                            seq![f] + fs,
                            n + m,
                        ),
                        ScanListResult::PartialList => ScanListResult::PartialList,
                        ScanListResult::BadList => ScanListResult::BadList,
                    }
                } else {
                    // a found frame always spans one to `s.len()` bytes; never reached
                    ScanListResult::BadList
                }
            }
            ScanResult::Partial => ScanListResult::PartialList,
            ScanResult::Bad => ScanListResult::BadList,
        }
    }
}

/// Where the terminator search finds an index, that index carries a
/// terminator pair and no pair starts earlier; where it finds none,
/// no pair starts anywhere.
pub proof fn lemma_find_crlf(s: Seq<u8>)
    ensures
        match find_crlf(s) {
            Some(i) => 0 <= i && i + 2 <= s.len() && s[i] == CR && s[i + 1] == LF
                && forall|j: int| 0 <= j < i ==> !(#[trigger] s[j] == CR && s[j + 1] == LF),
            None => forall|j: int| 0 <= j && j + 2 <= s.len() ==> !(#[trigger] s[j] == CR && s[j + 1] == LF),
        },
    decreases s.len(),
{
    if s.len() < 2 {
    } else if s[0] == CR && s[1] == LF {
    } else {
        let t = s.subrange(1, s.len() as int);
        lemma_find_crlf(t);
        match find_crlf(t) {
            Some(jt) => {
                let i = jt + 1;
                assert(s[i] == t[jt] && s[i + 1] == t[jt + 1]);
                assert forall|j: int| 0 <= j < i implies !(#[trigger] s[j] == CR && s[j + 1]
                    == LF) by {
                    if j > 0 {
                        assert(t[j - 1] == s[j] && t[j] == s[j + 1]);
                    }
                }
            }
            None => {
                assert forall|j: int| 0 <= j && j + 2 <= s.len() implies !(#[trigger] s[j] == CR
                    && s[j + 1] == LF) by {
                    if j > 0 {
                        assert(t[j - 1] == s[j] && t[j] == s[j + 1]);
                    }
                }
            }
        }
    }
}

/// The terminator search over a clean line followed by the terminator
/// finds exactly the end of the line.
pub proof fn lemma_find_crlf_line(p: Seq<u8>, rest: Seq<u8>)
    requires
        line_ok(p),
    ensures
        find_crlf(p + crlf() + rest) == Some(p.len() as int),
    decreases p.len(),
{
    let s = p + crlf() + rest;
    if p.len() == 0 {
        assert(s[0] == CR && s[1] == LF);
    } else {
        assert(s[0] == p[0]);
        assert(s.len() >= 2);
        assert(s[1] == if p.len() == 1 { CR } else { p[1] });
        assert(!(s[0] == CR && s[1] == LF));
        let t = s.subrange(1, s.len() as int);
        let p1 = p.subrange(1, p.len() as int);
        assert(t =~= p1 + crlf() + rest);
        lemma_find_crlf_line(p1, rest);
    }
}

/// The terminator search over a strict prefix of a clean line plus its
/// terminator finds nothing.
pub proof fn lemma_find_crlf_prefix(p: Seq<u8>, k: int)
    requires
        line_ok(p),
        0 <= k < p.len() + 2,
    ensures
        find_crlf((p + crlf()).take(k)) == None::<int>,
{
    let s = (p + crlf()).take(k);
    assert(forall|j: int| 0 <= j && j + 2 <= s.len() ==> #[trigger] s[j] == p[j] && p[j] != CR);
    lemma_find_crlf(s);
    if find_crlf(s) is Some {
        let i = find_crlf(s)->Some_0;
        assert(!(s[i] == CR && s[i + 1] == LF));
    }
}

/// Scanning the encoding of a well-formed frame, whatever bytes follow,
/// finds exactly that frame, occupying exactly its encoding's length.
#[verifier::rlimit(100)]
pub proof fn lemma_scan_enc(f: FrameModel, rest: Seq<u8>)
    requires
        f.wf(),
    ensures
        scan(enc(f) + rest) == ScanResult::Found(f, enc(f).len() as int),
    decreases f, 1int,
{
    let s = enc(f) + rest;
    let t = s.subrange(1, s.len() as int);
    match f {
        FrameModel::Simple(p) => {
            assert(s[0] == TAG_SIMPLE);
            assert(t =~= p + crlf() + rest);
            lemma_find_crlf_line(p, rest);
            let i = p.len() as int;
            assert(t.subrange(0, i) =~= p);
            assert(utf8_ok(t.subrange(0, i)));
            assert(enc(f).len() == 3 + i);
        }
        FrameModel::Error(p) => {
            assert(s[0] == TAG_ERROR);
            assert(t =~= p + crlf() + rest);
            lemma_find_crlf_line(p, rest);
            let i = p.len() as int;
            assert(t.subrange(0, i) =~= p);
            assert(utf8_ok(t.subrange(0, i)));
            assert(enc(f).len() == 3 + i);
        }
        FrameModel::Integer(v) => {
            lemma_decimal_rep(v as nat);
            let digits = decimal_rep(v as nat);
            assert(s[0] == TAG_INTEGER);
            assert(t =~= digits + crlf() + rest);
            lemma_find_crlf_line(digits, rest);
            let i = digits.len() as int;
            let line = t.subrange(0, i);
            assert(line =~= digits);
            assert(decimal_value(line) == v as nat);
            assert(enc(f).len() == 3 + i);
        }
        FrameModel::Bulk(p) => {
            lemma_decimal_rep(p.len());
            let digits = decimal_rep(p.len());
            assert(s[0] == TAG_BULK);
            assert(t =~= digits + crlf() + (p + crlf() + rest));
            lemma_find_crlf_line(digits, p + crlf() + rest);
            let i = digits.len() as int;
            let line = t.subrange(0, i);
            assert(line =~= digits);
            assert(is_digit(line[0]));
            assert(decimal_value(line) == p.len());
            let h = 3 + i;
            let n = p.len() as int;
            assert(s.len() == h + n + 2 + rest.len());
            assert(s[h + n] == CR && s[h + n + 1] == LF);
            assert(s.subrange(h, h + n) =~= p);
            assert(enc(f).len() == h + n + 2);
        }
        FrameModel::Null => {
            assert(s[0] == TAG_BULK);
            let pair = seq![TAG_ERROR, DIGIT_ONE];
            assert(t =~= pair + crlf() + rest);
            assert(line_ok(pair));
            lemma_find_crlf_line(pair, rest);
            let line = t.subrange(0, 2);
            assert(line =~= pair);
            assert(line.len() == 2 && line[0] == TAG_ERROR && line[1] == DIGIT_ONE);
            assert(enc(f).len() == 5);
        }
        FrameModel::Array(fs) => {
            lemma_decimal_rep(fs.len());
            let digits = decimal_rep(fs.len());
            assert(s[0] == TAG_ARRAY);
            assert(t =~= digits + crlf() + (enc_list(fs) + rest));
            lemma_find_crlf_line(digits, enc_list(fs) + rest);
            let i = digits.len() as int;
            let line = t.subrange(0, i);
            assert(line =~= digits);
            assert(decimal_value(line) == fs.len());
            let h = 3 + i;
            assert(s.subrange(h, s.len() as int) =~= enc_list(fs) + rest);
            lemma_scan_enc_list(fs, rest);
            assert(enc(f).len() == h + enc_list(fs).len());
        }
    }
}

/// Scanning the concatenated encodings of well-formed frames, whatever
/// bytes follow, finds exactly those frames.
pub proof fn lemma_scan_enc_list(fs: Seq<FrameModel>, rest: Seq<u8>)
    requires
        wf_list(fs),
    ensures
        scan_list(enc_list(fs) + rest, fs.len()) == ScanListResult::FoundList(
            fs,
            enc_list(fs).len() as int,
        ),
    decreases fs, 0int,
{
    if fs.len() == 0 {
        assert(fs =~= Seq::<FrameModel>::empty());
    } else {
        let f0 = fs[0];
        let fs1 = fs.subrange(1, fs.len() as int);
        let s = enc_list(fs) + rest;
        assert(s =~= enc(f0) + (enc_list(fs1) + rest));
        lemma_scan_enc(f0, enc_list(fs1) + rest);
        lemma_enc_len(f0);
        let n = enc(f0).len() as int;
        assert(1 <= n && n <= s.len());
        assert(s.subrange(n, s.len() as int) =~= enc_list(fs1) + rest);
        lemma_scan_enc_list(fs1, rest);
        assert(seq![f0] + fs1 =~= fs);
        assert(enc_list(fs).len() == n + enc_list(fs1).len());
    }
}

/// Scanning any strict prefix of a well-formed frame's encoding reports
/// a partial frame: never a wrong frame, and never an error.
#[verifier::rlimit(100)]
pub proof fn lemma_scan_prefix(f: FrameModel, k: int)
    requires
        f.wf(),
        0 <= k < enc(f).len(),
    ensures
        scan(enc(f).take(k)) == ScanResult::Partial,
    decreases f, 1int,
{
    let s = enc(f).take(k);
    if k == 0 {
        assert(s.len() == 0);
    } else {
        let t = s.subrange(1, s.len() as int);
        match f {
            FrameModel::Simple(p) => {
                assert(s[0] == TAG_SIMPLE);
                assert(t =~= (p + crlf()).take(k - 1));
                lemma_find_crlf_prefix(p, k - 1);
            }
            FrameModel::Error(p) => {
                assert(s[0] == TAG_ERROR);
                assert(t =~= (p + crlf()).take(k - 1));
                lemma_find_crlf_prefix(p, k - 1);
            }
            FrameModel::Integer(v) => {
                lemma_decimal_rep(v as nat);
                let digits = decimal_rep(v as nat);
                assert(s[0] == TAG_INTEGER);
                assert(t =~= (digits + crlf()).take(k - 1));
                lemma_find_crlf_prefix(digits, k - 1);
            }
            FrameModel::Bulk(p) => {
                lemma_decimal_rep(p.len());
                let digits = decimal_rep(p.len());
                let i = digits.len() as int;
                let h = 3 + i;
                let n = p.len() as int;
                assert(s[0] == TAG_BULK);
                if k - 1 < i + 2 {
                    assert(t =~= (digits + crlf()).take(k - 1));
                    lemma_find_crlf_prefix(digits, k - 1);
                } else {
                    assert(t =~= digits + crlf() + (p + crlf()).take(k - h));
                    lemma_find_crlf_line(digits, (p + crlf()).take(k - h));
                    let line = t.subrange(0, i);
                    assert(line =~= digits);
                    assert(is_digit(line[0]));
                    assert(decimal_value(line) == p.len());
                    assert(s.len() == k && k < h + n + 2);
                }
            }
            FrameModel::Null => {
                assert(s[0] == TAG_BULK);
                let pair = seq![TAG_ERROR, DIGIT_ONE];
                assert(line_ok(pair));
                assert(t =~= (pair + crlf()).take(k - 1));
                lemma_find_crlf_prefix(pair, k - 1);
            }
            FrameModel::Array(fs) => {
                lemma_decimal_rep(fs.len());
                let digits = decimal_rep(fs.len());
                let i = digits.len() as int;
                let h = 3 + i;
                assert(s[0] == TAG_ARRAY);
                if k - 1 < i + 2 {
                    assert(t =~= (digits + crlf()).take(k - 1));
                    lemma_find_crlf_prefix(digits, k - 1);
                } else {
                    assert(t =~= digits + crlf() + enc_list(fs).take(k - h));
                    lemma_find_crlf_line(digits, enc_list(fs).take(k - h));
                    let line = t.subrange(0, i);
                    assert(line =~= digits);
                    assert(decimal_value(line) == fs.len());
                    assert(s.subrange(h, s.len() as int) =~= enc_list(fs).take(k - h));
                    assert(enc(f).len() == h + enc_list(fs).len());
                    lemma_scan_list_prefix(fs, k - h);
                }
            }
        }
    }
}

/// Scanning any strict prefix of the concatenated encodings of well-formed
/// frames, with their exact count expected, reports a partial frame.
pub proof fn lemma_scan_list_prefix(fs: Seq<FrameModel>, k: int)
    requires
        wf_list(fs),
        0 <= k < enc_list(fs).len(),
    ensures
        scan_list(enc_list(fs).take(k), fs.len()) == ScanListResult::PartialList,
    decreases fs, 0int,
{
    if fs.len() == 0 {
        assert(enc_list(fs).len() == 0);
    } else {
        let f0 = fs[0];
        let fs1 = fs.subrange(1, fs.len() as int);
        let s = enc_list(fs).take(k);
        let n = enc(f0).len() as int;
        lemma_enc_len(f0);
        assert(enc_list(fs).len() == n + enc_list(fs1).len());
        if k < n {
            assert(s =~= enc(f0).take(k));
            lemma_scan_prefix(f0, k);
        } else {
            assert(s =~= enc(f0) + enc_list(fs1).take(k - n));
            lemma_scan_enc(f0, enc_list(fs1).take(k - n));
            assert(s.subrange(n, s.len() as int) =~= enc_list(fs1).take(k - n));
            lemma_scan_list_prefix(fs1, k - n);
        }
    }
}

/// Round trip: decoding the encoding of any well-formed frame yields
/// exactly that frame, consuming exactly its encoding.
pub proof fn lemma_round_trip(f: FrameModel)
    requires
        f.wf(),
    ensures
        scan(enc(f)) == ScanResult::Found(f, enc(f).len() as int),
{
    assert(enc(f) + Seq::<u8>::empty() =~= enc(f));
    lemma_scan_enc(f, Seq::empty());
}

/// Splitting a well-formed frame's encoded bytes at any boundary and
/// delivering the two parts in turn yields the same frame as one-shot
/// delivery: the first part alone scans as partial, and once the second
/// part arrives the whole scans as exactly that frame, whatever bytes
/// of later frames follow.
pub proof fn lemma_split_delivery(f: FrameModel, k: int, rest: Seq<u8>)
    requires
        f.wf(),
        0 <= k < enc(f).len(),
    ensures
        scan(enc(f).take(k)) == ScanResult::Partial,
        scan(enc(f).take(k) + enc(f).skip(k) + rest) == ScanResult::Found(
            f,
            enc(f).len() as int,
        ),
{
    lemma_scan_prefix(f, k);
    assert(enc(f).take(k) + enc(f).skip(k) + rest =~= enc(f) + rest);
    lemma_scan_enc(f, rest);
}

/// A found frame always spans at least one byte and at most the whole input.
pub proof fn lemma_scan_bounds(s: Seq<u8>)
    ensures
        match scan(s) {
            ScanResult::Found(f, n) => 1 <= n && n <= s.len(),
            _ => true,
        },
    decreases s.len(), 0int,
{
    if s.len() > 0 {
        let t = s.subrange(1, s.len() as int);
        lemma_find_crlf(t);
        if s[0] == TAG_ARRAY {
            match find_crlf(t) {
                Some(i) => {
                    if 0 <= i && i + 2 <= t.len() {
                        let line = t.subrange(0, i);
                        if decimal_line_ok(line) {
                            lemma_scan_list_bounds(
                                s.subrange(3 + i, s.len() as int),
                                decimal_value(line),
                            );
                        }
                    }
                }
                None => {}
            }
        }
    }
}

/// A found frame list spans at most the whole input and has exactly the
/// expected count of frames.
pub proof fn lemma_scan_list_bounds(s: Seq<u8>, count: nat)
    ensures
        match scan_list(s, count) {
            ScanListResult::FoundList(fs, m) => 0 <= m && m <= s.len() && fs.len() == count,
            _ => true,
        },
    decreases s.len(), count,
{
    if count > 0 {
        lemma_scan_bounds(s);
        match scan(s) {
            ScanResult::Found(f, n) => {
                if 1 <= n && n <= s.len() {
                    lemma_scan_list_bounds(s.subrange(n, s.len() as int), (count - 1) as nat);
                }
            }
            _ => {}
        }
    }
}

/// Where a terminator pair stands at `q` and none earlier, the search
/// finds exactly `q`.
pub proof fn lemma_find_crlf_at(s: Seq<u8>, q: int)
    requires
        0 <= q,
        q + 2 <= s.len(),
        s[q] == CR,
        s[q + 1] == LF,
        forall|j: int| 0 <= j < q ==> !(#[trigger] s[j] == CR && s[j + 1] == LF),
    ensures
        find_crlf(s) == Some(q),
    decreases s.len(),
{
    if q > 0 {
        assert(!(s[0] == CR && s[1] == LF));
        let t = s.subrange(1, s.len() as int);
        assert(t[q - 1] == s[q] && t[q] == s[q + 1]);
        assert forall|j: int| 0 <= j < q - 1 implies !(#[trigger] t[j] == CR && t[j + 1]
            == LF) by {
            assert(t[j] == s[j + 1] && t[j + 1] == s[j + 2]);
        }
        lemma_find_crlf_at(t, q - 1);
    }
}

/// Extending the scanned prefix of a digit string never shrinks its value.
pub proof fn lemma_decimal_value_grows(s: Seq<u8>, i: int)
    requires
        0 <= i <= s.len(),
    ensures
        decimal_value(s) >= decimal_value(s.take(i)),
    decreases s.len() - i,
{
    if i == s.len() {
        assert(s.take(i) =~= s);
    } else {
        let a = s.take(i);
        let b = s.take(i + 1);
        assert(b.drop_last() =~= a);
        assert(b.last() == s[i]);
        assert(decimal_value(b) == decimal_value(a) * 10 + (s[i] - 48) as nat);
        assert(decimal_value(a) * 10 >= decimal_value(a));
        lemma_decimal_value_grows(s, i + 1);
    }
}

/// A found list followed by further expected frames scans as the found
/// list does, continued from where it ended.
pub proof fn lemma_scan_list_split(s: Seq<u8>, fs: Seq<FrameModel>, d: int, extra: nat)
    requires
        scan_list(s, fs.len()) == ScanListResult::FoundList(fs, d),
        0 <= d <= s.len(),
    ensures
        scan_list(s, (fs.len() + extra) as nat) == (match scan_list(
            s.subrange(d, s.len() as int),
            extra,
        ) {
            ScanListResult::FoundList(fs2, m) => ScanListResult::FoundList(fs + fs2, d + m),
            ScanListResult::PartialList => ScanListResult::PartialList,
            ScanListResult::BadList => ScanListResult::BadList,
        }),
    decreases fs.len(),
{
    if fs.len() == 0 {
        assert(s.subrange(0, s.len() as int) =~= s);
        assert(d == 0);
        match scan_list(s, extra) {
            ScanListResult::FoundList(fs2, m) => {
                assert(fs + fs2 =~= fs2);
            }
            _ => {}
        }
    } else {
        match scan(s) {
            ScanResult::Found(f1, n1) => {
                assert(1 <= n1 && n1 <= s.len());
                let s1 = s.subrange(n1, s.len() as int);
                match scan_list(s1, (fs.len() - 1) as nat) {
                    ScanListResult::FoundList(fs1, m1) => {
                        lemma_scan_list_bounds(s1, (fs.len() - 1) as nat);
                        assert(fs == seq![f1] + fs1);
                        assert(d == n1 + m1);
                        assert(fs1.len() == fs.len() - 1);
                        lemma_scan_list_split(s1, fs1, m1, extra);
                        assert(s1.subrange(m1, s1.len() as int) =~= s.subrange(
                            d,
                            s.len() as int,
                        ));
                        match scan_list(s.subrange(d, s.len() as int), extra) {
                            ScanListResult::FoundList(fs2, m) => {
                                assert(seq![f1] + (fs1 + fs2) =~= fs + fs2);
                            }
                            _ => {}
                        }
                    }
                    _ => {
                        assert(false);
                    }
                }
            }
            _ => {
                assert(false);
            }
        }
    }
}

/// A found list followed by one more found frame scans as the list with
/// that frame appended.
pub proof fn lemma_scan_list_snoc(s: Seq<u8>, fs: Seq<FrameModel>, d: int, f: FrameModel, n: int)
    requires
        scan_list(s, fs.len()) == ScanListResult::FoundList(fs, d),
        0 <= d <= s.len(),
        scan(s.subrange(d, s.len() as int)) == ScanResult::Found(f, n),
        1 <= n,
        d + n <= s.len(),
    ensures
        scan_list(s, (fs.len() + 1) as nat) == ScanListResult::FoundList(fs.push(f), d + n),
{
    lemma_scan_list_split(s, fs, d, 1);
    let sd = s.subrange(d, s.len() as int);
    let inner = sd.subrange(n, sd.len() as int);
    assert(scan_list(inner, 0) == ScanListResult::FoundList(Seq::<FrameModel>::empty(), 0));
    assert(scan_list(sd, 1) == ScanListResult::FoundList(seq![f] + Seq::<FrameModel>::empty(), n));
    assert(seq![f] + Seq::<FrameModel>::empty() =~= seq![f]);
    assert(fs + seq![f] =~= fs.push(f));
}

/// How decoding a frame can fail: the bytes end before the frame does,
/// or the bytes cannot be a frame at all.
#[derive(Clone, Copy, Debug, PartialEq, Eq, Structural)]
pub enum FrameError {
    /// Not enough bytes yet; read more and retry.
    Incomplete,
    /// Malformed bytes: a bad tag, a bad decimal line, or a bad terminator.
    Malformed,
}

/// Find the first terminator pair at or after `pos`, scanning forward.
fn find_terminator(buf: &[u8], pos: usize) -> (r: Option<usize>)
    requires
        pos <= buf@.len(),
    ensures
        match r {
            Some(j) => pos <= j && j + 2 <= buf@.len() && find_crlf(buf@.skip(pos as int))
                == Some(j - pos),
            None => find_crlf(buf@.skip(pos as int)) == None::<int>,
        },
{
    let mut i: usize = pos;
    while i < buf.len() && i + 1 < buf.len()
        invariant
            pos <= i <= buf@.len(),
            forall|j: int| pos <= j < i ==> !(#[trigger] buf@[j] == CR && buf@[j + 1] == LF),
        decreases buf@.len() - i,
    {
        if buf[i] == CR && buf[i + 1] == LF {
            proof {
                let s = buf@.skip(pos as int);
                assert forall|x: int| 0 <= x < i - pos implies !(#[trigger] s[x] == CR && s[x
                    + 1] == LF) by {
                    assert(s[x] == buf@[pos + x] && s[x + 1] == buf@[pos + x + 1]);
                }
                assert(s[i - pos] == buf@[i as int] && s[i - pos + 1] == buf@[i + 1]);
                lemma_find_crlf_at(s, i - pos);
            }
            return Some(i);
        }
        i = i + 1;
    }
    proof {
        let s = buf@.skip(pos as int);
        assert forall|x: int| 0 <= x && x + 2 <= s.len() implies !(#[trigger] s[x] == CR && s[x
            + 1] == LF) by {
            assert(s[x] == buf@[pos + x] && s[x + 1] == buf@[pos + x + 1]);
        }
        lemma_find_crlf(s);
        if find_crlf(s) is Some {
            let q = find_crlf(s)->Some_0;
            assert(!(s[q] == CR && s[q + 1] == LF));
        }
    }
    None
}

/// Parse an ASCII decimal line as an unsigned 64-bit value: some value
/// exactly when the line is acceptable, and then exactly its value.
fn parse_decimal(line: &[u8]) -> (r: Option<u64>)
    ensures
        match r {
            Some(v) => decimal_line_ok(line@) && v as nat == decimal_value(line@),
            None => !decimal_line_ok(line@),
        },
{
    if line.len() == 0 {
        return None;
    }
    let mut v: u64 = 0;
    let mut i: usize = 0;
    while i < line.len()
        invariant
            0 <= i <= line@.len(),
            all_digits(line@.take(i as int)),
            v as nat == decimal_value(line@.take(i as int)),
        decreases line@.len() - i,
    {
        let b: u8 = line[i];
        if b < 48 || b > 57 {
            proof {
                assert(!is_digit(line@[i as int]));
            }
            return None;
        }
        let d: u8 = b - 48;
        proof {
            let a = line@.take(i as int);
            let g = line@.take(i as int + 1);
            assert(g.drop_last() =~= a);
            assert(g.last() == line@[i as int]);
            assert(decimal_value(g) == decimal_value(a) * 10 + (d as u8) as nat);
        }
        if v > 1844674407370955161u64 || (v == 1844674407370955161u64 && d > 5) {
            proof {
                assert(1844674407370955161u64 * 10 + 5 == u64::MAX);
                assert(decimal_value(line@.take(i as int + 1)) > u64::MAX);
                if all_digits(line@) {
                    lemma_decimal_value_grows(line@, i as int + 1);
                }
            }
            return None;
        }
        proof {
            assert(v * 10 + d <= u64::MAX);
        }
        v = v * 10 + (d as u64);
        i = i + 1;
        proof {
            assert forall|j: int| 0 <= j < i implies is_digit(#[trigger] line@.take(
                i as int,
            )[j]) by {
                assert(line@.take(i as int)[j] == line@[j]);
                if j < i - 1 {
                    assert(line@.take(i as int - 1)[j] == line@[j]);
                }
            }
        }
    }
    proof {
        assert(line@.take(line@.len() as int) =~= line@);
    }
    Some(v)
}

/// Copy the bytes of `buf` from `a` (inclusive) to `b` (exclusive).
pub fn copy_range(buf: &[u8], a: usize, b: usize) -> (r: Vec<u8>)
    requires
        a <= b && b <= buf@.len(),
    ensures
        r@ == buf@.subrange(a as int, b as int),
{
    let mut r: Vec<u8> = Vec::new();
    let mut i: usize = a;
    while i < b
        invariant
            a <= i <= b && b <= buf@.len(),
            r@ == buf@.subrange(a as int, i as int),
        decreases b - i,
    {
        r.push(buf[i]);
        i = i + 1;
        proof {
            assert(r@ =~= buf@.subrange(a as int, i as int));
        }
    }
    r
}

/// Decode one frame starting at `pos`: on success the frame and the index
/// just past it, exactly as the scanner finds them; on failure the
/// scanner's verdict on the bytes from `pos` on.
#[verifier::loop_isolation(false)]
#[verifier::rlimit(100)]
fn parse_at(buf: &[u8], pos: usize) -> (r: Result<(Frame, usize), FrameError>)
    requires
        pos <= buf@.len(),
    ensures
        match r {
            Ok(p) => scan(buf@.skip(pos as int)) == ScanResult::Found(p.0.model(), p.1 - pos)
                && pos < p.1 <= buf@.len(),
            Err(FrameError::Incomplete) => scan(buf@.skip(pos as int)) is Partial,
            Err(FrameError::Malformed) => scan(buf@.skip(pos as int)) is Bad,
        },
    decreases buf@.len() - pos,
{
    let ghost s = buf@.skip(pos as int);
    proof {
        assert(forall|x: int| 0 <= x < s.len() ==> #[trigger] s[x] == buf@[pos + x]);
    }
    if pos == buf.len() {
        return Err(FrameError::Incomplete);
    }
    let tag: u8 = buf[pos];
    if tag != TAG_SIMPLE && tag != TAG_ERROR && tag != TAG_INTEGER && tag != TAG_BULK && tag
        != TAG_ARRAY {
        return Err(FrameError::Malformed);
    }
    let ghost t = s.subrange(1, s.len() as int);
    proof {
        assert(t =~= buf@.skip(pos as int + 1));
    }
    let tr = find_terminator(buf, pos + 1);
    let j: usize = match tr {
        Some(j) => j,
        None => {
            return Err(FrameError::Incomplete);
        }
    };
    let ghost i_rel: int = j - (pos + 1);
    proof {
        assert(find_crlf(t) == Some(i_rel));
        lemma_find_crlf(t);
    }
    if tag == TAG_SIMPLE {
        let payload = copy_range(buf, pos + 1, j);
        proof {
            assert(payload@ =~= t.subrange(0, i_rel));
        }
        if utf8_valid(payload.as_slice()) {
            Ok((Frame::Simple(payload), j + 2))
        } else {
            Err(FrameError::Malformed)
        }
    } else if tag == TAG_ERROR {
        let payload = copy_range(buf, pos + 1, j);
        proof {
            assert(payload@ =~= t.subrange(0, i_rel));
        }
        if utf8_valid(payload.as_slice()) {
            Ok((Frame::Error(payload), j + 2))
        } else {
            Err(FrameError::Malformed)
        }
    } else if tag == TAG_INTEGER {
        let line = copy_range(buf, pos + 1, j);
        proof {
            assert(line@ =~= t.subrange(0, i_rel));
        }
        match parse_decimal(line.as_slice()) {
            Some(v) => Ok((Frame::Integer(v), j + 2)),
            None => Err(FrameError::Malformed),
        }
    } else if tag == TAG_BULK {
        let line = copy_range(buf, pos + 1, j);
        proof {
            assert(line@ =~= t.subrange(0, i_rel));
        }
        if line.len() == 2 && line[0] == TAG_ERROR && line[1] == DIGIT_ONE {
            return Ok((Frame::Null, j + 2));
        }
        match parse_decimal(line.as_slice()) {
            None => Err(FrameError::Malformed),
            Some(len) => {
                let h: usize = j + 2;
                let rem: u64 = (buf.len() - h) as u64;
                if rem < 2 || rem - 2 < len {
                    proof {
                        assert(s.len() < (3 + i_rel) + (len as int) + 2);
                    }
                    Err(FrameError::Incomplete)
                } else {
                    proof {
                        assert(len as nat <= usize::MAX as nat);
                    }
                    let nlen: usize = len as usize;
                    let pend: usize = h + nlen;
                    if buf[pend] == CR && buf[pend + 1] == LF {
                        let payload = copy_range(buf, h, pend);
                        proof {
                            assert(s[3 + i_rel + (nlen as int)] == buf@[pend as int]);
                            assert(s[3 + i_rel + (nlen as int) + 1] == buf@[pend as int + 1]);
                            assert(payload@ =~= s.subrange(3 + i_rel, 3 + i_rel + (nlen as int)));
                        }
                        Ok((Frame::Bulk(payload), pend + 2))
                    } else {
                        proof {
                            assert(s[3 + i_rel + (nlen as int)] == buf@[pend as int]);
                            assert(s[3 + i_rel + (nlen as int) + 1] == buf@[pend as int + 1]);
                        }
                        Err(FrameError::Malformed)
                    }
                }
            }
        }
    } else {
        let line = copy_range(buf, pos + 1, j);
        proof {
            assert(line@ =~= t.subrange(0, i_rel));
        }
        match parse_decimal(line.as_slice()) {
            None => Err(FrameError::Malformed),
            Some(count) => {
                let h: usize = j + 2;
                let ghost sl = buf@.skip(h as int);
                proof {
                    assert(s.subrange(3 + i_rel, s.len() as int) =~= sl);
                }
                let mut items: Vec<Frame> = Vec::new();
                let mut done: u64 = 0;
                let mut q: usize = h;
                proof {
                    assert(model_list(items@) =~= Seq::<FrameModel>::empty());
                    assert(scan_list(sl, 0) == ScanListResult::FoundList(
                        Seq::<FrameModel>::empty(),
                        0,
                    ));
                }
                while done < count
                    invariant
                        h <= q <= buf@.len(),
                        done <= count,
                        items@.len() == done as nat,
                        scan_list(sl, done as nat) == ScanListResult::FoundList(
                            model_list(items@),
                            q - h,
                        ),
                    decreases count - done,
                {
                    proof {
                        lemma_model_list_len(items@);
                        assert(sl.subrange((q - h) as int, sl.len() as int) =~= buf@.skip(
                            q as int,
                        ));
                    }
                    match parse_at(buf, q) {
                        Ok(pr) => {
                            let fr = pr.0;
                            let end: usize = pr.1;
                            proof {
                                lemma_scan_list_snoc(
                                    sl,
                                    model_list(items@),
                                    q - h,
                                    fr.model(),
                                    end - q,
                                );
                                lemma_model_list_push(items@, fr);
                            }
                            items.push(fr);
                            q = end;
                            done = done + 1;
                        }
                        Err(e) => {
                            proof {
                                lemma_scan_list_split(
                                    sl,
                                    model_list(items@),
                                    q - h,
                                    (count - done) as nat,
                                );
                            }
                            return Err(e);
                        }
                    }
                }
                let ghost gitems = items@;
                let out = Frame::Array(items);
                proof {
                    assert(out.model() == FrameModel::Array(model_list(gitems)));
                    assert(q - pos == (3 + i_rel) + (q - h));
                }
                Ok((out, q))
            }
        }
    }
}

/// Scan one frame starting at `pos` without building it: the index just
/// past it, reading only the bytes the scan needs; otherwise the
/// scanner's verdict on the bytes from `pos` on.
#[verifier::loop_isolation(false)]
#[verifier::rlimit(100)]
fn check_at(buf: &[u8], pos: usize) -> (r: Result<usize, FrameError>)
    requires
        pos <= buf@.len(),
    ensures
        match r {
            Ok(end) => scan(buf@.skip(pos as int)) matches ScanResult::Found(f, n) && end - pos
                == n && pos < end <= buf@.len(),
            Err(FrameError::Incomplete) => scan(buf@.skip(pos as int)) is Partial,
            Err(FrameError::Malformed) => scan(buf@.skip(pos as int)) is Bad,
        },
    decreases buf@.len() - pos,
{
    let ghost s = buf@.skip(pos as int);
    proof {
        assert(forall|x: int| 0 <= x < s.len() ==> #[trigger] s[x] == buf@[pos + x]);
    }
    if pos == buf.len() {
        return Err(FrameError::Incomplete);
    }
    let tag: u8 = buf[pos];
    if tag != TAG_SIMPLE && tag != TAG_ERROR && tag != TAG_INTEGER && tag != TAG_BULK && tag
        != TAG_ARRAY {
        return Err(FrameError::Malformed);
    }
    let ghost t = s.subrange(1, s.len() as int);
    proof {
        assert(t =~= buf@.skip(pos as int + 1));
    }
    let tr = find_terminator(buf, pos + 1);
    let j: usize = match tr {
        Some(j) => j,
        None => {
            return Err(FrameError::Incomplete);
        }
    };
    let ghost i_rel: int = j - (pos + 1);
    proof {
        assert(find_crlf(t) == Some(i_rel));
        lemma_find_crlf(t);
    }
    let line = &buf[pos + 1..j];
    proof {
        assert(line@ =~= t.subrange(0, i_rel));
    }
    if tag == TAG_SIMPLE || tag == TAG_ERROR {
        if utf8_valid(line) {
            return Ok(j + 2);
        }
        return Err(FrameError::Malformed);
    }
    if tag == TAG_INTEGER {
        match parse_decimal(line) {
            Some(_) => Ok(j + 2),
            None => Err(FrameError::Malformed),
        }
    } else if tag == TAG_BULK {
        if line.len() == 2 && line[0] == TAG_ERROR && line[1] == DIGIT_ONE {
            return Ok(j + 2);
        }
        match parse_decimal(line) {
            None => Err(FrameError::Malformed),
            Some(len) => {
                let h: usize = j + 2;
                let rem: u64 = (buf.len() - h) as u64;
                if rem < 2 || rem - 2 < len {
                    proof {
                        assert(s.len() < (3 + i_rel) + (len as int) + 2);
                    }
                    Err(FrameError::Incomplete)
                } else {
                    proof {
                        assert(len as nat <= usize::MAX as nat);
                    }
                    let nlen: usize = len as usize;
                    let pend: usize = h + nlen;
                    proof {
                        assert(s[3 + i_rel + (nlen as int)] == buf@[pend as int]);
                        assert(s[3 + i_rel + (nlen as int) + 1] == buf@[pend as int + 1]);
                    }
                    if buf[pend] == CR && buf[pend + 1] == LF {
                        Ok(pend + 2)
                    } else {
                        Err(FrameError::Malformed)
                    }
                }
            }
        }
    } else {
        match parse_decimal(line) {
            None => Err(FrameError::Malformed),
            Some(count) => {
                let h: usize = j + 2;
                let ghost sl = buf@.skip(h as int);
                proof {
                    assert(s.subrange(3 + i_rel, s.len() as int) =~= sl);
                    assert(scan_list(sl, 0) == ScanListResult::FoundList(
                        Seq::<FrameModel>::empty(),
                        0,
                    ));
                }
                let mut done: u64 = 0;
                let mut q: usize = h;
                while done < count
                    invariant
                        h <= q <= buf@.len(),
                        done <= count,
                        scan_list(sl, done as nat) matches ScanListResult::FoundList(fs, d)
                            && d == q - h,
                    decreases count - done,
                {
                    let ghost fs = scan_list(sl, done as nat)->FoundList_0;
                    proof {
                        lemma_scan_list_bounds(sl, done as nat);
                        assert(sl.subrange((q - h) as int, sl.len() as int) =~= buf@.skip(
                            q as int,
                        ));
                    }
                    match check_at(buf, q) {
                        Ok(end) => {
                            proof {
                                let f = scan(buf@.skip(q as int))->Found_0;
                                lemma_scan_list_snoc(sl, fs, q - h, f, end - q);
                            }
                            q = end;
                            done = done + 1;
                        }
                        Err(e) => {
                            proof {
                                lemma_scan_list_split(sl, fs, q - h, (count - done) as nat);
                            }
                            return Err(e);
                        }
                    }
                }
                proof {
                    lemma_scan_list_bounds(sl, count as nat);
                }
                Ok(q)
            }
        }
    }
}

/// Determine, without consuming input and without building anything,
/// whether a complete frame starts at the front of `buf`: the count of
/// bytes it occupies on success, otherwise whether the bytes are
/// incomplete or malformed — exactly the scanner's verdict.
pub fn check(buf: &[u8]) -> (r: Result<usize, FrameError>)
    ensures
        scan(buf@) matches ScanResult::Found(f, n) ==> r == Ok::<usize, FrameError>(n as usize),
        scan(buf@) is Partial ==> r == Err::<usize, FrameError>(FrameError::Incomplete),
        scan(buf@) is Bad ==> r == Err::<usize, FrameError>(FrameError::Malformed),
{
    proof {
        assert(buf@.skip(0) =~= buf@);
    }
    check_at(buf, 0)
}

/// Decode one complete frame from the front of `buf`: the frame's model
/// and the count of bytes consumed are exactly what the scanner finds.
pub fn parse(buf: &[u8]) -> (r: Result<(Frame, usize), FrameError>)
    ensures
        scan(buf@) matches ScanResult::Found(f, n) ==> r is Ok && r->Ok_0.0.model() == f
            && r->Ok_0.1 == n && n <= buf@.len(),
        scan(buf@) is Partial ==> r == Err::<(Frame, usize), FrameError>(FrameError::Incomplete),
        scan(buf@) is Bad ==> r == Err::<(Frame, usize), FrameError>(FrameError::Malformed),
{
    proof {
        assert(buf@.skip(0) =~= buf@);
    }
    parse_at(buf, 0)
}

} // verus!
