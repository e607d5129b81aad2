//! The wire-level frame type, its mathematical model, and its encoding.
//!
//! A frame is one self-delimited unit of the protocol: a type tag byte,
//! a payload, and a two-byte terminator (carriage return, line feed).

use vstd::prelude::*;
use vstd::arithmetic::div_mod::lemma_fundamental_div_mod;

verus! {

/// Byte value of the carriage-return character.
pub const CR: u8 = 13;

/// Byte value of the line-feed character.
pub const LF: u8 = 10;

/// Tag byte of a simple-text frame (`+`).
pub const TAG_SIMPLE: u8 = 43;

/// Tag byte of an error-text frame (`-`).
pub const TAG_ERROR: u8 = 45;

/// Tag byte of an integer frame (`:`).
pub const TAG_INTEGER: u8 = 58;

/// Tag byte of a bulk (length-prefixed binary) frame (`$`).
pub const TAG_BULK: u8 = 36;

/// Tag byte of an array frame (`*`).
pub const TAG_ARRAY: u8 = 42;

/// ASCII digit one, used by the null frame's `-1` length line.
pub const DIGIT_ONE: u8 = 49;

/// One protocol unit as exchanged on the wire.
#[derive(Debug, PartialEq, Eq)]
pub enum Frame {
    /// Short status text; must not contain the terminator bytes.
    Simple(Vec<u8>),
    /// Error text; must not contain the terminator bytes.
    Error(Vec<u8>),
    /// An unsigned 64-bit integer.
    Integer(u64),
    /// A length-prefixed binary payload.
    Bulk(Vec<u8>),
    /// The explicit absence-of-value marker.
    Null,
    /// An ordered sequence of nested frames.
    Array(Vec<Frame>),
}

/// The mathematical value of a frame: the same shape over `Seq<u8>`,
/// so that contracts can state equality of frame contents.
pub enum FrameModel {
    Simple(Seq<u8>),
    Error(Seq<u8>),
    Integer(u64),
    Bulk(Seq<u8>),
    Null,
    Array(Seq<FrameModel>),
}

/// The terminator sequence: carriage return then line feed.
pub open spec fn crlf() -> Seq<u8> {
    seq![CR, LF]
}

/// A payload may stand on a single protocol line only if it contains
/// neither carriage return nor line feed.
pub open spec fn line_ok(p: Seq<u8>) -> bool {
    forall|i: int| 0 <= i < p.len() ==> p[i] != CR && p[i] != LF
}

/// Whether a byte is an ASCII decimal digit.
pub open spec fn is_digit(b: u8) -> bool {
    48 <= b && b <= 57
}

/// Whether every byte of `s` is an ASCII decimal digit.
pub open spec fn all_digits(s: Seq<u8>) -> bool {
    forall|i: int| 0 <= i < s.len() ==> is_digit(s[i])
}

/// Whether a byte is a UTF-8 continuation byte.
pub open spec fn is_cont(b: u8) -> bool {
    128 <= b && b <= 191
}

/// Whether a byte sequence is valid UTF-8: it decomposes into one-byte
/// characters and well-formed two-, three- and four-byte characters,
/// with overlong forms and surrogate range excluded.
pub open spec fn utf8_ok(s: Seq<u8>) -> bool
    decreases s.len(),
{
    if s.len() == 0 {
        true
    } else {
        let b0 = s[0];
        if b0 <= 127 {
            utf8_ok(s.skip(1))
        } else if 194 <= b0 && b0 <= 223 {
            s.len() >= 2 && is_cont(s[1]) && utf8_ok(s.skip(2))
        } else if b0 == 224 {
            s.len() >= 3 && 160 <= s[1] && s[1] <= 191 && is_cont(s[2]) && utf8_ok(s.skip(3))
        } else if (225 <= b0 && b0 <= 236) || b0 == 238 || b0 == 239 {
            s.len() >= 3 && is_cont(s[1]) && is_cont(s[2]) && utf8_ok(s.skip(3))
        } else if b0 == 237 {
            s.len() >= 3 && 128 <= s[1] && s[1] <= 159 && is_cont(s[2]) && utf8_ok(s.skip(3))
        } else if b0 == 240 {
            s.len() >= 4 && 144 <= s[1] && s[1] <= 191 && is_cont(s[2]) && is_cont(s[3])
                && utf8_ok(s.skip(4))
        } else if 241 <= b0 && b0 <= 243 {
            s.len() >= 4 && is_cont(s[1]) && is_cont(s[2]) && is_cont(s[3]) && utf8_ok(s.skip(4))
        } else if b0 == 244 {
            s.len() >= 4 && 128 <= s[1] && s[1] <= 143 && is_cont(s[2]) && is_cont(s[3])
                && utf8_ok(s.skip(4))
        } else {
            false
        }
    }
}

/// A sequence of plain ASCII bytes is valid UTF-8.
pub proof fn lemma_ascii_utf8(s: Seq<u8>)
    requires
        forall|i: int| 0 <= i < s.len() ==> s[i] <= 127,
    ensures
        utf8_ok(s),
    decreases s.len(),
{
    if s.len() > 0 {
        lemma_ascii_utf8(s.skip(1));
    }
}

/// The number denoted by a sequence of ASCII digits, most significant first.
pub open spec fn decimal_value(s: Seq<u8>) -> nat
    decreases s.len(),
{
    if s.len() == 0 {
        0
    } else {
        decimal_value(s.drop_last()) * 10 + (s.last() - 48) as nat
    }
}

/// The canonical decimal digits of `n`: no leading zeros, at least one digit.
pub open spec fn decimal_rep(n: nat) -> Seq<u8>
    decreases n,
{
    if n < 10 {
        seq![(48 + n) as u8]
    } else {
        decimal_rep(n / 10).push((48 + n % 10) as u8)
    }
}

impl Frame {
    /// The mathematical value of this frame.
    pub open spec fn model(self) -> FrameModel
        decreases self, 1int, via Self::model_decreases
    {
        match self {
            Frame::Simple(p) => FrameModel::Simple(p@),
            Frame::Error(p) => FrameModel::Error(p@),
            Frame::Integer(v) => FrameModel::Integer(v),
            Frame::Bulk(p) => FrameModel::Bulk(p@),
            Frame::Null => FrameModel::Null,
            Frame::Array(items) => FrameModel::Array(model_list(items@)),
        }
    }

    #[via_fn]
    proof fn model_decreases(self) {
        match self {
            Frame::Array(items) => {
                assert(decreases_to!(self => items));
                assert(decreases_to!(items => items@));
            }
            _ => {}
        }
    }
}

/// The mathematical values of a sequence of frames, in order.
pub open spec fn model_list(items: Seq<Frame>) -> Seq<FrameModel>
    decreases items, 0int,
{
    if items.len() == 0 {
        Seq::empty()
    } else {
        seq![items[0].model()] + model_list(items.subrange(1, items.len() as int))
    }
}

impl FrameModel {
    /// Well-formedness: simple and error payloads are UTF-8 text and never
    /// contain the terminator bytes (else the encoding would corrupt
    /// framing), and every length written on the wire fits in an
    /// unsigned 64-bit line.
    pub open spec fn wf(self) -> bool
        decreases self, 1int,
    {
        match self {
            FrameModel::Simple(p) => line_ok(p) && utf8_ok(p),
            FrameModel::Error(p) => line_ok(p) && utf8_ok(p),
            FrameModel::Integer(_) => true,
            FrameModel::Bulk(p) => p.len() <= u64::MAX,
            FrameModel::Null => true,
            FrameModel::Array(fs) => fs.len() <= u64::MAX && wf_list(fs),
        }
    }
}

/// Well-formedness of every frame in a sequence.
pub open spec fn wf_list(fs: Seq<FrameModel>) -> bool
    decreases fs, 0int,
{
    if fs.len() == 0 {
        true
    } else {
        fs[0].wf() && wf_list(fs.subrange(1, fs.len() as int))
    }
}

/// The exact wire bytes of a frame: tag byte, payload, terminator, with
/// bulk and array lengths written in decimal ahead of their contents.
pub open spec fn enc(f: FrameModel) -> Seq<u8>
    decreases f, 1int,
{
    match f {
        FrameModel::Simple(p) => seq![TAG_SIMPLE] + p + crlf(),
        FrameModel::Error(p) => seq![TAG_ERROR] + p + crlf(),
        FrameModel::Integer(v) => seq![TAG_INTEGER] + decimal_rep(v as nat) + crlf(),
        FrameModel::Bulk(p) => seq![TAG_BULK] + decimal_rep(p.len()) + crlf() + p + crlf(),
        FrameModel::Null => seq![TAG_BULK, TAG_ERROR, DIGIT_ONE] + crlf(),
        FrameModel::Array(fs) => seq![TAG_ARRAY] + decimal_rep(fs.len()) + crlf() + enc_list(fs),
    }
}

/// The concatenated wire bytes of a sequence of frames.
pub open spec fn enc_list(fs: Seq<FrameModel>) -> Seq<u8>
    decreases fs, 0int,
{
    if fs.len() == 0 {
        Seq::empty()
    } else {
        enc(fs[0]) + enc_list(fs.subrange(1, fs.len() as int))
    }
}

/// The decimal digits of `n` denote `n`, are all digits, are at least one
/// byte, and contain no terminator byte.
pub proof fn lemma_decimal_rep(n: nat)
    ensures
        all_digits(decimal_rep(n)),
        decimal_rep(n).len() >= 1,
        decimal_value(decimal_rep(n)) == n,
        line_ok(decimal_rep(n)),
    decreases n,
{
    if n < 10 {
        let s = decimal_rep(n);
        assert(s =~= seq![(48 + n) as u8]);
        assert(s.drop_last() =~= Seq::<u8>::empty());
        assert(decimal_value(Seq::<u8>::empty()) == 0);
        assert(decimal_value(s) == decimal_value(s.drop_last()) * 10 + (s.last() - 48) as nat);
        assert(decimal_value(s) == n);
    } else {
        lemma_decimal_rep(n / 10);
        lemma_fundamental_div_mod(n as int, 10);
        let d = (48 + n % 10) as u8;
        let s = decimal_rep(n / 10).push(d);
        assert(s.drop_last() =~= decimal_rep(n / 10));
        assert(s.last() == d);
        assert(decimal_value(s) == decimal_value(decimal_rep(n / 10)) * 10 + (d - 48) as nat);
        assert(decimal_value(s) == (n / 10) * 10 + n % 10);
        assert(forall|i: int| 0 <= i < s.len() ==> is_digit(#[trigger] s[i]));
    }
}

/// A frame's encoding is never shorter than three bytes.
pub proof fn lemma_enc_len(f: FrameModel)
    ensures
        enc(f).len() >= 3,
{
    match f {
        FrameModel::Integer(v) => { lemma_decimal_rep(v as nat); }
        FrameModel::Bulk(p) => { lemma_decimal_rep(p.len()); }
        FrameModel::Array(fs) => { lemma_decimal_rep(fs.len()); }
        _ => {}
    }
}

/// A frame sequence and its model have the same length.
pub proof fn lemma_model_list_len(items: Seq<Frame>)
    ensures
        model_list(items).len() == items.len(),
    decreases items.len(),
{
    if items.len() > 0 {
        lemma_model_list_len(items.subrange(1, items.len() as int));
    }
}

/// Each frame in a sequence models to the matching element of the
/// sequence's model.
pub proof fn lemma_model_list_index(items: Seq<Frame>, i: int)
    requires
        0 <= i < items.len(),
    ensures
        model_list(items)[i] == items[i].model(),
    decreases i,
{
    lemma_model_list_len(items);
    let it1 = items.subrange(1, items.len() as int);
    if i > 0 {
        lemma_model_list_index(it1, i - 1);
    }
}

/// The model of a frame sequence extended by one frame is the model of
/// the sequence extended by the model of the frame.
pub proof fn lemma_model_list_push(items: Seq<Frame>, f: Frame)
    ensures
        model_list(items.push(f)) == model_list(items).push(f.model()),
    decreases items.len(),
{
    let p = items.push(f);
    if items.len() == 0 {
        assert(p.subrange(1, p.len() as int) =~= Seq::<Frame>::empty());
        assert(model_list(Seq::<Frame>::empty()) =~= Seq::<FrameModel>::empty());
        assert(model_list(p) == seq![p[0].model()] + model_list(p.subrange(1, p.len() as int)));
        assert(items =~= Seq::<Frame>::empty());
        assert(model_list(p) =~= model_list(items).push(f.model()));
    } else {
        let it1 = items.subrange(1, items.len() as int);
        assert(p[0] == items[0]);
        assert(p.subrange(1, p.len() as int) =~= it1.push(f));
        lemma_model_list_push(it1, f);
        assert(model_list(p) == seq![p[0].model()] + model_list(p.subrange(1, p.len() as int)));
        assert(model_list(p.subrange(1, p.len() as int)) == model_list(it1).push(f.model()));
        assert(model_list(items) == seq![items[0].model()] + model_list(it1));
        assert(seq![items[0].model()] + model_list(it1).push(f.model()) =~= (seq![
            items[0].model(),
        ] + model_list(it1)).push(f.model()));
    }
}

/// Whether a byte string is valid UTF-8, checked character by character.
pub fn utf8_valid(s: &[u8]) -> (r: bool)
    ensures
        r == utf8_ok(s@),
{
    let n: usize = s.len();
    let mut i: usize = 0;
    proof {
        assert(s@.skip(0) =~= s@);
    }
    while i < n
        invariant
            i <= n && n == s@.len(),
            utf8_ok(s@) == utf8_ok(s@.skip(i as int)),
        decreases n - i,
    {
        let ghost t = s@.skip(i as int);
        proof {
            assert(t.len() == n - i);
            assert(t[0] == s@[i as int]);
            if n - i >= 2 {
                assert(t[1] == s@[i as int + 1]);
            }
            if n - i >= 3 {
                assert(t[2] == s@[i as int + 2]);
            }
            if n - i >= 4 {
                assert(t[3] == s@[i as int + 3]);
            }
        }
        let b0: u8 = s[i];
        let w: usize;
        if b0 <= 127 {
            w = 1;
        } else if 194 <= b0 && b0 <= 223 {
            if n - i < 2 || !(128 <= s[i + 1] && s[i + 1] <= 191) {
                return false;
            }
            w = 2;
        } else if b0 == 224 {
            if n - i < 3 || !(160 <= s[i + 1] && s[i + 1] <= 191) || !(128 <= s[i + 2] && s[i
                + 2] <= 191) {
                return false;
            }
            w = 3;
        } else if (225 <= b0 && b0 <= 236) || b0 == 238 || b0 == 239 {
            if n - i < 3 || !(128 <= s[i + 1] && s[i + 1] <= 191) || !(128 <= s[i + 2] && s[i
                + 2] <= 191) {
                return false;
            }
            w = 3;
        } else if b0 == 237 {
            if n - i < 3 || !(128 <= s[i + 1] && s[i + 1] <= 159) || !(128 <= s[i + 2] && s[i
                + 2] <= 191) {
                return false;
            }
            w = 3;
        } else if b0 == 240 {
            if n - i < 4 || !(144 <= s[i + 1] && s[i + 1] <= 191) || !(128 <= s[i + 2] && s[i
                + 2] <= 191) || !(128 <= s[i + 3] && s[i + 3] <= 191) {
                return false;
            }
            w = 4;
        } else if 241 <= b0 && b0 <= 243 {
            if n - i < 4 || !(128 <= s[i + 1] && s[i + 1] <= 191) || !(128 <= s[i + 2] && s[i
                + 2] <= 191) || !(128 <= s[i + 3] && s[i + 3] <= 191) {
                return false;
            }
            w = 4;
        } else if b0 == 244 {
            if n - i < 4 || !(128 <= s[i + 1] && s[i + 1] <= 143) || !(128 <= s[i + 2] && s[i
                + 2] <= 191) || !(128 <= s[i + 3] && s[i + 3] <= 191) {
                return false;
            }
            w = 4;
        } else {
            return false;
        }
        proof {
            assert(t.skip(w as int) =~= s@.skip(i as int + w as int));
        }
        i = i + w;
    }
    proof {
        assert(s@.skip(n as int) =~= Seq::<u8>::empty());
    }
    true
}

/// Whether no byte of `s` is a terminator byte.
fn line_clear(s: &[u8]) -> (r: bool)
    ensures
        r == line_ok(s@),
{
    let mut i: usize = 0;
    while i < s.len()
        invariant
            i <= s@.len(),
            forall|j: int| 0 <= j < i ==> #[trigger] s@[j] != CR && s@[j] != LF,
        decreases s@.len() - i,
    {
        if s[i] == CR || s[i] == LF {
            return false;
        }
        i = i + 1;
    }
    true
}

/// Append every byte of `bs` to `out`.
fn append_bytes(out: &mut Vec<u8>, bs: &[u8])
    ensures
        final(out)@ == old(out)@ + bs@,
{
    proof {
        assert(out@ =~= old(out)@ + bs@.take(0));
    }
    let mut i: usize = 0;
    while i < bs.len()
        invariant
            i <= bs@.len(),
            out@ == old(out)@ + bs@.take(i as int),
        decreases bs@.len() - i,
    {
        out.push(bs[i]);
        i = i + 1;
        proof {
            assert(old(out)@ + bs@.take(i as int) =~= (old(out)@ + bs@.take(i as int - 1)).push(
                bs@[i as int - 1],
            ));
        }
    }
    proof {
        assert(bs@.take(bs@.len() as int) =~= bs@);
    }
}

/// Append the two terminator bytes to `out`.
fn append_crlf(out: &mut Vec<u8>)
    ensures
        final(out)@ == old(out)@ + crlf(),
{
    out.push(CR);
    out.push(LF);
    proof {
        assert(out@ =~= old(out)@ + crlf());
    }
}

/// The decimal digits of `v`, most significant first, no leading zeros.
pub fn decimal_digits(v: u64) -> (r: Vec<u8>)
    ensures
        r@ == decimal_rep(v as nat),
{
    let mut tmp: Vec<u8> = Vec::new();
    let mut cur: u64 = v;
    proof {
        assert(decimal_rep(v as nat) =~= decimal_rep(cur as nat) + tmp@.reverse());
    }
    while cur >= 10
        invariant
            decimal_rep(v as nat) == decimal_rep(cur as nat) + tmp@.reverse(),
        decreases cur,
    {
        let d: u8 = 48 + (cur % 10) as u8;
        proof {
            assert(decimal_rep(cur as nat) == decimal_rep((cur as nat) / 10).push(
                (48 + (cur as nat) % 10) as u8,
            ));
            assert((48 + (cur as nat) % 10) as u8 == d);
            assert((tmp@.push(d)).reverse() =~= seq![d] + tmp@.reverse());
            assert(decimal_rep((cur as nat) / 10) + (seq![d] + tmp@.reverse()) =~= decimal_rep(
                (cur as nat) / 10,
            ).push(d) + tmp@.reverse());
        }
        tmp.push(d);
        cur = cur / 10;
    }
    let d: u8 = 48 + (cur % 10) as u8;
    proof {
        assert(decimal_rep(cur as nat) =~= seq![d]);
        assert((tmp@.push(d)).reverse() =~= seq![d] + tmp@.reverse());
        assert(decimal_rep(v as nat) =~= (tmp@.push(d)).reverse());
    }
    tmp.push(d);
    let mut out: Vec<u8> = Vec::new();
    let mut k: usize = tmp.len();
    proof {
        assert(out@ =~= tmp@.reverse().take((tmp@.len() - k) as int));
    }
    while k > 0
        invariant
            k <= tmp@.len(),
            out@ == tmp@.reverse().take((tmp@.len() - k) as int),
        decreases k,
    {
        k = k - 1;
        out.push(tmp[k]);
        proof {
            assert(tmp@.reverse()[tmp@.len() - 1 - k] == tmp@[k as int]);
            assert(out@ =~= tmp@.reverse().take((tmp@.len() - k) as int));
        }
    }
    proof {
        assert(tmp@.reverse().take(tmp@.len() as int) =~= tmp@.reverse());
    }
    out
}

impl Frame {
    /// Whether this frame can be serialized: not an array (a gap this
    /// core keeps), and well-formed. Unverified callers test this before
    /// `encode`.
    pub fn encodable(&self) -> (r: bool)
        ensures
            r == (!(self is Array) && self.model().wf()),
    {
        match self {
            Frame::Simple(p) => line_clear(p.as_slice()) && utf8_valid(p.as_slice()),
            Frame::Error(p) => line_clear(p.as_slice()) && utf8_valid(p.as_slice()),
            Frame::Integer(_) => true,
            Frame::Bulk(p) => {
                let n: usize = p.len();
                proof {
                    assert(p@.len() <= u64::MAX);
                }
                true
            }
            Frame::Null => true,
            Frame::Array(_) => false,
        }
    }

    /// Serialize this frame into its exact wire bytes. Array encoding is
    /// not part of this core, so an array frame is excluded by contract.
    pub fn encode(&self) -> (r: Vec<u8>)
        requires
            !(self is Array),
            self.model().wf(),
        ensures
            r@ == enc(self.model()),
    {
        let mut out: Vec<u8> = Vec::new();
        match self {
            Frame::Simple(p) => {
                out.push(TAG_SIMPLE);
                append_bytes(&mut out, p.as_slice());
                append_crlf(&mut out);
                proof {
                    assert(out@ =~= enc(self.model()));
                }
            }
            Frame::Error(p) => {
                out.push(TAG_ERROR);
                append_bytes(&mut out, p.as_slice());
                append_crlf(&mut out);
                proof {
                    assert(out@ =~= enc(self.model()));
                }
            }
            Frame::Integer(v) => {
                out.push(TAG_INTEGER);
                let ds = decimal_digits(*v);
                append_bytes(&mut out, ds.as_slice());
                append_crlf(&mut out);
                proof {
                    assert(out@ =~= enc(self.model()));
                }
            }
            Frame::Bulk(p) => {
                out.push(TAG_BULK);
                let ds = decimal_digits(p.len() as u64);
                append_bytes(&mut out, ds.as_slice());
                append_crlf(&mut out);
                append_bytes(&mut out, p.as_slice());
                append_crlf(&mut out);
                proof {
                    assert(out@ =~= enc(self.model()));
                }
            }
            Frame::Null => {
                out.push(TAG_BULK);
                out.push(TAG_ERROR);
                out.push(DIGIT_ONE);
                append_crlf(&mut out);
                proof {
                    assert(out@ =~= enc(self.model()));
                }
            }
            Frame::Array(_) => {
                proof {
                    assert(false);
                }
            }
        }
        out
    }
}

} // verus!
