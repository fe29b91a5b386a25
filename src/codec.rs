//! Decoding one frame from the front of a byte buffer. The buffer may hold a
//! partial frame: the decoder tells "not enough bytes yet" apart from "these
//! bytes can never be a frame".
use crate::error::FrameError;
use crate::frame::{
    crlf, dict_put, digits, encoding, encoding_pairs, encoding_seq, header, int_text, is_line_text,
    keys_sorted, lemma_dict_insert, lex_lt,
    model_wf, models, pair_models, pairs_wf, seq_wf, lemma_models, lemma_pair_models, Frame,
    FrameModel, CR, LF,
};
use vstd::prelude::*;

verus! {

broadcast use vstd::std_specs::vec::group_vec_axioms, vstd::seq::group_seq_axioms;

/// `a` and `b` are equal on every position that both have: one is a prefix of
/// the other.
pub open spec fn agrees(a: Seq<u8>, b: Seq<u8>) -> bool {
    forall|i: int| 0 <= i < a.len() && 0 <= i < b.len() ==> a[i] == b[i]
}

/// The bytes of `buf` from position `p` on.
pub open spec fn rest(buf: Seq<u8>, p: int) -> Seq<u8> {
    buf.subrange(p, buf.len() as int)
}

pub open spec fn is_digit(b: u8) -> bool {
    48 <= b <= 57
}

/// A non-empty run of ASCII digits.
pub open spec fn is_digits(s: Seq<u8>) -> bool {
    s.len() > 0 && forall|i: int| 0 <= i < s.len() ==> is_digit(#[trigger] s[i])
}

/// The number that a run of digits spells in decimal.
pub open spec fn digits_value(s: Seq<u8>) -> nat
    decreases s.len(),
{
    if s.len() == 0 {
        0
    } else {
        digits_value(s.drop_last()) * 10 + (s.last() as int - 48) as nat
    }
}

/// The integer that a line spells: digits, optionally after a `-` or `+` sign.
pub open spec fn int_value(s: Seq<u8>) -> Option<int> {
    if s.len() > 0 && s[0] == 45u8 && is_digits(s.drop_first()) {
        Some(-digits_value(s.drop_first()))
    } else if s.len() > 0 && s[0] == 43u8 && is_digits(s.drop_first()) {
        Some(digits_value(s.drop_first()) as int)
    } else if is_digits(s) {
        Some(digits_value(s) as int)
    } else {
        None
    }
}

pub proof fn lemma_digits(n: nat)
    ensures
        is_digits(digits(n)),
        digits_value(digits(n)) == n,
        is_line_text(digits(n)),
    decreases n,
{
    if n >= 10 {
        lemma_digits(n / 10);
        assert(digits(n).drop_last() =~= digits(n / 10));
        assert(digits(n).last() as int - 48 == n % 10);
        assert(n == (n / 10) * 10 + n % 10);
        assert(digits_value(digits(n)) == digits_value(digits(n / 10)) * 10 + n % 10);
    } else {
        assert(digits(n).drop_last() =~= Seq::<u8>::empty());
        assert(digits_value(digits(n)) == digits_value(Seq::<u8>::empty()) * 10 + n);
    }
}

pub proof fn lemma_int_text(n: int)
    ensures
        int_value(int_text(n)) == Some(n),
        is_line_text(int_text(n)),
{
    if n < 0 {
        lemma_digits((-n) as nat);
        assert(int_text(n).drop_first() =~= digits((-n) as nat));
    } else {
        lemma_digits(n as nat);
        assert(is_digit(digits(n as nat)[0]));
    }
}

/// A prefix of a run of digits spells no larger a number.
proof fn lemma_value_prefix(s: Seq<u8>, k: int)
    requires
        0 <= k <= s.len(),
    ensures
        digits_value(s.subrange(0, k)) <= digits_value(s),
    decreases s.len(),
{
    if k < s.len() {
        lemma_value_prefix(s.drop_last(), k);
        assert(s.drop_last().subrange(0, k) =~= s.subrange(0, k));
    } else {
        assert(s.subrange(0, k) =~= s);
    }
}

/// A complete line starts at `start`: text up to a CRLF whose CR is at `e`.
pub open spec fn line_at(buf: Seq<u8>, start: int, e: int) -> bool {
    &&& 0 <= start <= e
    &&& e + 2 <= buf.len()
    &&& is_line_text(buf.subrange(start, e))
    &&& buf[e] == CR
    &&& buf[e + 1] == LF
}

/// The first CR or LF after `start`, or the end of the buffer, is where a
/// complete line ends.
proof fn lemma_line_end_first(buf: Seq<u8>, start: int, i: int, e: int)
    requires
        line_at(buf, start, e),
        start <= i <= buf.len(),
        is_line_text(buf.subrange(start, i)),
        i == buf.len() || buf[i] == CR || buf[i] == LF,
    ensures
        i == e,
{
    if i < e {
        assert(buf.subrange(start, e)[i - start] == buf[i]);
    } else if i > e {
        assert(buf.subrange(start, i)[e - start] == buf[e]);
    }
}

/// Before any CRLF at `start`, `buf` holds a bare LF, or a CR followed by a
/// byte other than LF.
#[verifier::opaque]
pub open spec fn has_bare_break(buf: Seq<u8>, start: int) -> bool {
    exists|j: int|
        start <= j < buf.len() && is_line_text(buf.subrange(start, j)) && (#[trigger] buf[j] == LF || (
        buf[j] == CR && j + 1 < buf.len() && buf[j + 1] != LF))
}

/// The first CR or LF of a line is the one that a bare break names.
proof fn lemma_bare_break_at(buf: Seq<u8>, start: int, i: int)
    requires
        0 <= start <= i < buf.len(),
        is_line_text(buf.subrange(start, i)),
        buf[i] == CR || buf[i] == LF,
        has_bare_break(buf, start),
    ensures
        buf[i] == LF || (buf[i] == CR && i + 1 < buf.len() && buf[i + 1] != LF),
{
    reveal(has_bare_break);
    let j = choose|j: int|
        start <= j < buf.len() && is_line_text(buf.subrange(start, j)) && (#[trigger] buf[j] == LF || (
        buf[j] == CR && j + 1 < buf.len() && buf[j + 1] != LF));
    if j < i {
        assert(buf.subrange(start, i)[j - start] == buf[j]);
    } else if j > i {
        assert(buf.subrange(start, j)[i - start] == buf[i]);
    }
}

/// A line with no CR or LF to its end holds no bare break.
proof fn lemma_no_bare_break(buf: Seq<u8>, start: int)
    requires
        0 <= start <= buf.len(),
        is_line_text(buf.subrange(start, buf.len() as int)),
    ensures
        !has_bare_break(buf, start),
{
    reveal(has_bare_break);
    if has_bare_break(buf, start) {
        let j = choose|j: int|
            start <= j < buf.len() && is_line_text(buf.subrange(start, j)) && (#[trigger] buf[j] == LF
                || (buf[j] == CR && j + 1 < buf.len() && buf[j + 1] != LF));
        assert(buf.subrange(start, buf.len() as int)[j - start] == buf[j]);
    }
}

/// Finds the CRLF that ends a line starting at `start`, and returns the
/// position of its CR. A bare CR or LF before it is malformed; a buffer that
/// ends first is incomplete.
pub fn find_line_end(buf: &[u8], start: usize) -> (r: Result<usize, FrameError>)
    requires
        start <= buf@.len(),
    ensures
        r matches Ok(e) ==> start <= e && e + 2 <= buf@.len() && buf@[e as int] == CR && buf@[e
            + 1] == LF && is_line_text(buf@.subrange(start as int, e as int)),
        r matches Err(err) ==> err == FrameError::Incomplete || err == FrameError::InvalidFrame,
        forall|t: Seq<u8>|
            is_line_text(t) && #[trigger] agrees(rest(buf@, start as int), t + crlf()) ==> if buf@.len()
                >= start + t.len() + 2 {
                r == Ok::<usize, FrameError>((start + t.len()) as usize)
            } else {
                r == Err::<usize, FrameError>(FrameError::Incomplete)
            },
        has_bare_break(buf@, start as int) ==> r == Err::<usize, FrameError>(FrameError::InvalidFrame),
        forall|e: int| #[trigger] line_at(buf@, start as int, e) ==> r == Ok::<usize, FrameError>(e as usize),
{
    let mut i: usize = start;
    while i < buf.len()
        invariant
            start <= i <= buf@.len(),
            is_line_text(buf@.subrange(start as int, i as int)),
        decreases buf.len() - i,
    {
        let b = buf[i];
        if b == CR || b == LF {
            proof {
                assert forall|t: Seq<u8>|
                    is_line_text(t) && #[trigger] agrees(rest(buf@, start as int), t + crlf())
                        implies i - start == t.len() by {
                    let s = t + crlf();
                    let rs = rest(buf@, start as int);
                    if i - start < t.len() {
                        assert(rs[i - start] == s[i - start]);
                    } else if i - start > t.len() {
                        assert(rs[t.len() as int] == s[t.len() as int]);
                        assert(buf@.subrange(start as int, i as int)[t.len() as int] == rs[t.len() as int]);
                    }
                }
            }
            proof {
                if has_bare_break(buf@, start as int) {
                    lemma_bare_break_at(buf@, start as int, i as int);
                }
                assert forall|e: int| #[trigger] line_at(buf@, start as int, e) implies i == e by {
                    lemma_line_end_first(buf@, start as int, i as int, e);
                }
            }
            if b == LF {
                proof {
                    assert forall|t: Seq<u8>|
                        is_line_text(t) && #[trigger] agrees(rest(buf@, start as int), t + crlf())
                            implies false by {
                        let s = t + crlf();
                        let rs = rest(buf@, start as int);
                        assert(rs[i - start] == s[i - start]);
                    }
                }
                return Err(FrameError::InvalidFrame);
            }
            if i + 1 == buf.len() {
                return Err(FrameError::Incomplete);
            }
            if buf[i + 1] != LF {
                proof {
                    assert forall|t: Seq<u8>|
                        is_line_text(t) && #[trigger] agrees(rest(buf@, start as int), t + crlf())
                            implies false by {
                        let s = t + crlf();
                        let rs = rest(buf@, start as int);
                        assert(rs[i + 1 - start] == s[i + 1 - start]);
                    }
                }
                return Err(FrameError::InvalidFrame);
            }
            return Ok(i);
        }
        proof {
            assert(buf@.subrange(start as int, i + 1) =~= buf@.subrange(start as int, i as int).push(b));
        }
        i = i + 1;
    }
    proof {
        lemma_no_bare_break(buf@, start as int);
        assert forall|e: int| #[trigger] line_at(buf@, start as int, e) implies false by {
            lemma_line_end_first(buf@, start as int, i as int, e);
        }
        assert forall|t: Seq<u8>|
            is_line_text(t) && #[trigger] agrees(rest(buf@, start as int), t + crlf())
                implies buf@.len() < start + t.len() + 2 by {
            let s = t + crlf();
            let rs = rest(buf@, start as int);
            if buf@.len() >= start + t.len() + 2 {
                assert(rs[t.len() as int] == s[t.len() as int]);
                assert(buf@.subrange(start as int, i as int)[t.len() as int] == rs[t.len() as int]);
            }
        }
    }
    Err(FrameError::Incomplete)
}

/// Reads `buf[start..end]` as a run of decimal digits; `None` when it is empty,
/// holds another byte, or spells a number above `u64::MAX`.
pub fn parse_digits(buf: &[u8], start: usize, end: usize) -> (r: Option<u64>)
    requires
        start <= end <= buf@.len(),
    ensures
        ({
            let s = buf@.subrange(start as int, end as int);
            match r {
                Some(v) => is_digits(s) && v == digits_value(s),
                None => !is_digits(s) || digits_value(s) > u64::MAX,
            }
        }),
{
    let ghost s = buf@.subrange(start as int, end as int);
    if start == end {
        return None;
    }
    let mut acc: u64 = 0;
    let mut i: usize = start;
    while i < end
        invariant
            start <= i <= end <= buf@.len(),
            s == buf@.subrange(start as int, end as int),
            forall|j: int| 0 <= j < i - start ==> is_digit(#[trigger] s[j]),
            acc == digits_value(s.subrange(0, i - start)),
        decreases end - i,
    {
        let b = buf[i];
        if b < 48 || b > 57 {
            proof {
                assert(s[i - start] == b);
            }
            return None;
        }
        let d: u64 = (b - 48) as u64;
        proof {
            assert(s.subrange(0, i + 1 - start).drop_last() =~= s.subrange(0, i - start));
        }
        if acc > (u64::MAX - d) / 10 {
            proof {
                assert(acc * 10 + d > u64::MAX) by (nonlinear_arith)
                    requires
                        acc > (u64::MAX - d) / 10,
                        d <= 9,
                ;
                if is_digits(s) {
                    lemma_value_prefix(s, i + 1 - start);
                }
            }
            return None;
        }
        proof {
            assert(acc * 10 + d <= u64::MAX) by (nonlinear_arith)
                requires
                    acc <= (u64::MAX - d) / 10,
                    d <= 9,
            ;
        }
        acc = acc * 10 + d;
        i = i + 1;
    }
    proof {
        assert(s.subrange(0, i - start) =~= s);
    }
    Some(acc)
}

/// Reads `buf[start..end]` as a signed decimal integer, an optional `-` or `+`
/// sign followed by digits, that fits in an `i64`.
pub fn parse_integer(buf: &[u8], start: usize, end: usize) -> (r: Result<i64, FrameError>)
    requires
        start <= end <= buf@.len(),
    ensures
        ({
            let s = buf@.subrange(start as int, end as int);
            match r {
                Ok(n) => int_value(s) == Some(n as int),
                Err(e) => e == FrameError::IntFromUTF8 && !(int_value(s) matches Some(v) && i64::MIN
                    <= v <= i64::MAX),
            }
        }),
{
    let ghost s = buf@.subrange(start as int, end as int);
    if start < end && (buf[start] == 45u8 || buf[start] == 43u8) {
        let negative = buf[start] == 45u8;
        proof {
            assert(buf@.subrange(start + 1, end as int) =~= s.drop_first());
            assert(!is_digit(s[0]));
        }
        match parse_digits(buf, start + 1, end) {
            Some(v) => {
                if negative {
                    if v <= 0x8000_0000_0000_0000u64 {
                        if v == 0x8000_0000_0000_0000u64 {
                            return Ok(i64::MIN);
                        }
                        return Ok(0i64 - (v as i64));
                    }
                } else if v <= i64::MAX as u64 {
                    return Ok(v as i64);
                }
                Err(FrameError::IntFromUTF8)
            },
            None => Err(FrameError::IntFromUTF8),
        }
    } else {
        proof {
            if s.len() > 0 {
                assert(s[0] == buf@[start as int]);
            }
        }
        match parse_digits(buf, start, end) {
            Some(v) => {
                if v <= i64::MAX as u64 {
                    return Ok(v as i64);
                }
                Err(FrameError::IntFromUTF8)
            },
            None => Err(FrameError::IntFromUTF8),
        }
    }
}

/// The tag byte that starts the wire form of each variant.
pub open spec fn tag_of(m: FrameModel) -> u8 {
    match m {
        FrameModel::Simple(_) => 43u8,
        FrameModel::Error(_) => 45u8,
        FrameModel::Integer(_) => 58u8,
        FrameModel::Bulk(_) => 36u8,
        FrameModel::Array(_) => 42u8,
        FrameModel::Null => 95u8,
        FrameModel::Boolean(_) => 35u8,
        FrameModel::Dict(_) => 37u8,
    }
}

proof fn lemma_encoding_head(m: FrameModel)
    ensures
        encoding(m).len() >= 3,
        encoding(m)[0] == tag_of(m),
{
    match m {
        FrameModel::Bulk(b) => {
            assert(digits(b.len()).len() >= 1);
        },
        FrameModel::Array(v) => {
            assert(digits(v.len()).len() >= 1);
        },
        FrameModel::Dict(d) => {
            assert(digits(d.len()).len() >= 1);
        },
        FrameModel::Integer(n) => {
            if n >= 0 {
                assert(digits(n as nat).len() >= 1);
            }
        },
        _ => {},
    }
}

/// Every frame has a non-empty wire form.
pub proof fn lemma_encoding_nonempty(m: FrameModel)
    ensures
        encoding(m).len() > 0,
{
    lemma_encoding_head(m);
}

/// Once the front `x` of `x + y` has been matched, what follows agrees with `y`.
proof fn lemma_agrees_shift(buf: Seq<u8>, p: int, x: Seq<u8>, y: Seq<u8>)
    requires
        0 <= p,
        p + x.len() <= buf.len(),
        agrees(rest(buf, p), x + y),
    ensures
        buf.subrange(p, p + x.len()) == x,
        agrees(rest(buf, p + x.len()), y),
{
    let a = rest(buf, p);
    assert forall|i: int| 0 <= i < x.len() implies buf.subrange(p, p + x.len())[i] == x[i] by {
        assert(a[i] == (x + y)[i]);
    }
    assert(buf.subrange(p, p + x.len()) =~= x);
    assert forall|i: int|
        0 <= i < rest(buf, p + x.len()).len() && 0 <= i < y.len() implies rest(
            buf,
            p + x.len(),
        )[i] == y[i] by {
        assert(a[i + x.len()] == (x + y)[i + x.len()]);
    }
}

proof fn lemma_agrees_front(a: Seq<u8>, x: Seq<u8>, y: Seq<u8>)
    requires
        agrees(a, x + y),
    ensures
        agrees(a, x),
{
    assert forall|i: int| 0 <= i < a.len() && 0 <= i < x.len() implies a[i] == x[i] by {
        assert(a[i] == (x + y)[i]);
    }
}

proof fn lemma_encoding_seq_split(s: Seq<FrameModel>, i: int)
    requires
        0 <= i < s.len(),
    ensures
        encoding_seq(s) == encoding_seq(s.subrange(0, i)) + encoding(s[i]) + encoding_seq(
            s.subrange(i + 1, s.len() as int),
        ),
    decreases i,
{
    if i == 0 {
        assert(s.subrange(0, 0) =~= Seq::<FrameModel>::empty());
        assert(encoding_seq(s.subrange(0, 0)) =~= Seq::<u8>::empty());
        assert(encoding_seq(s) =~= encoding_seq(s.subrange(0, i)) + encoding(s[i]) + encoding_seq(
            s.subrange(i + 1, s.len() as int),
        ));
    } else {
        let t = s.subrange(1, s.len() as int);
        lemma_encoding_seq_split(t, i - 1);
        assert(t.subrange(0, i - 1) =~= s.subrange(1, i));
        assert(t.subrange(i, t.len() as int) =~= s.subrange(i + 1, s.len() as int));
        assert(s.subrange(0, i).subrange(1, i) =~= s.subrange(1, i));
        assert(encoding_seq(s.subrange(0, i)) == encoding(s[0]) + encoding_seq(s.subrange(1, i)));
        assert(encoding_seq(s) =~= encoding_seq(s.subrange(0, i)) + encoding(s[i]) + encoding_seq(
            s.subrange(i + 1, s.len() as int),
        ));
    }
}

pub proof fn lemma_encoding_seq_extend(s: Seq<FrameModel>, i: int)
    requires
        0 <= i < s.len(),
    ensures
        encoding_seq(s.subrange(0, i + 1)) == encoding_seq(s.subrange(0, i)) + encoding(s[i]),
{
    let t = s.subrange(0, i + 1);
    lemma_encoding_seq_split(t, i);
    assert(t.subrange(0, i) =~= s.subrange(0, i));
    assert(t.subrange(i + 1, t.len() as int) =~= Seq::<FrameModel>::empty());
    assert(encoding_seq(Seq::<FrameModel>::empty()) =~= Seq::<u8>::empty());
    assert(encoding_seq(s.subrange(0, i + 1)) =~= encoding_seq(s.subrange(0, i)) + encoding(s[i]));
}

proof fn lemma_encoding_pairs_split(s: Seq<(FrameModel, FrameModel)>, i: int)
    requires
        0 <= i < s.len(),
    ensures
        encoding_pairs(s) == encoding_pairs(s.subrange(0, i)) + encoding(s[i].0) + encoding(s[i].1)
            + encoding_pairs(s.subrange(i + 1, s.len() as int)),
    decreases i,
{
    if i == 0 {
        assert(s.subrange(0, 0) =~= Seq::<(FrameModel, FrameModel)>::empty());
        assert(encoding_pairs(s.subrange(0, 0)) =~= Seq::<u8>::empty());
        assert(encoding_pairs(s) =~= encoding_pairs(s.subrange(0, i)) + encoding(s[i].0) + encoding(
            s[i].1,
        ) + encoding_pairs(s.subrange(i + 1, s.len() as int)));
    } else {
        let t = s.subrange(1, s.len() as int);
        lemma_encoding_pairs_split(t, i - 1);
        assert(t.subrange(0, i - 1) =~= s.subrange(1, i));
        assert(t.subrange(i, t.len() as int) =~= s.subrange(i + 1, s.len() as int));
        assert(s.subrange(0, i).subrange(1, i) =~= s.subrange(1, i));
        assert(encoding_pairs(s.subrange(0, i)) == encoding(s[0].0) + encoding(s[0].1)
            + encoding_pairs(s.subrange(1, i)));
        assert(encoding_pairs(s) =~= encoding_pairs(s.subrange(0, i)) + encoding(s[i].0) + encoding(
            s[i].1,
        ) + encoding_pairs(s.subrange(i + 1, s.len() as int)));
    }
}

proof fn lemma_encoding_pairs_extend(s: Seq<(FrameModel, FrameModel)>, i: int)
    requires
        0 <= i < s.len(),
    ensures
        encoding_pairs(s.subrange(0, i + 1)) == encoding_pairs(s.subrange(0, i)) + encoding(s[i].0)
            + encoding(s[i].1),
{
    let t = s.subrange(0, i + 1);
    lemma_encoding_pairs_split(t, i);
    assert(t.subrange(0, i) =~= s.subrange(0, i));
    assert(t.subrange(i + 1, t.len() as int) =~= Seq::<(FrameModel, FrameModel)>::empty());
    assert(encoding_pairs(Seq::<(FrameModel, FrameModel)>::empty()) =~= Seq::<u8>::empty());
    assert(encoding_pairs(s.subrange(0, i + 1)) =~= encoding_pairs(s.subrange(0, i)) + encoding(
        s[i].0,
    ) + encoding(s[i].1));
}

proof fn lemma_seq_wf(s: Seq<FrameModel>)
    ensures
        seq_wf(s) <==> forall|i: int| 0 <= i < s.len() ==> model_wf(#[trigger] s[i]),
    decreases s.len(),
{
    if s.len() > 0 {
        let t = s.subrange(1, s.len() as int);
        lemma_seq_wf(t);
        if forall|i: int| 0 <= i < s.len() ==> model_wf(#[trigger] s[i]) {
            assert forall|i: int| 0 <= i < t.len() implies model_wf(#[trigger] t[i]) by {
                assert(t[i] == s[i + 1]);
            }
        }
        if seq_wf(s) {
            assert forall|i: int| 0 <= i < s.len() implies model_wf(#[trigger] s[i]) by {
                if i > 0 {
                    assert(s[i] == t[i - 1]);
                }
            }
        }
    }
}

pub open spec fn pair_wf(p: (FrameModel, FrameModel)) -> bool {
    model_wf(p.0) && model_wf(p.1)
}

proof fn lemma_pairs_wf(s: Seq<(FrameModel, FrameModel)>)
    ensures
        pairs_wf(s) <==> forall|i: int| 0 <= i < s.len() ==> pair_wf(#[trigger] s[i]),
    decreases s.len(),
{
    if s.len() > 0 {
        let t = s.subrange(1, s.len() as int);
        lemma_pairs_wf(t);
        if forall|i: int| 0 <= i < s.len() ==> pair_wf(#[trigger] s[i]) {
            assert forall|i: int| 0 <= i < t.len() implies pair_wf(#[trigger] t[i]) by {
                assert(t[i] == s[i + 1]);
            }
            assert(pair_wf(s[0]));
        }
        if pairs_wf(s) {
            assert forall|i: int| 0 <= i < s.len() implies pair_wf(#[trigger] s[i]) by {
                if i > 0 {
                    assert(s[i] == t[i - 1]);
                }
            }
        }
    }
}

/// A copy of `buf[start..end]`.
fn copy_range(buf: &[u8], start: usize, end: usize) -> (r: Vec<u8>)
    requires
        start <= end <= buf@.len(),
    ensures
        r@ == buf@.subrange(start as int, end as int),
{
    let mut out: Vec<u8> = Vec::new();
    let mut i: usize = start;
    while i < end
        invariant
            start <= i <= end <= buf@.len(),
            out@ == buf@.subrange(start as int, i as int),
        decreases end - i,
    {
        out.push(buf[i]);
        proof {
            assert(buf@.subrange(start as int, i + 1) =~= buf@.subrange(start as int, i as int).push(
                buf@[i as int],
            ));
        }
        i = i + 1;
    }
    out
}

/// Every frame whose wire form agrees with the bytes at `pos` starts with the
/// tag byte found there.
proof fn lemma_agreeing_tag(buf: Seq<u8>, pos: int)
    requires
        0 <= pos < buf.len(),
    ensures
        forall|m: FrameModel| #[trigger]
            agrees(rest(buf, pos), encoding(m)) ==> tag_of(m) == buf[pos] && encoding(m).len()
                >= 3,
{
    assert forall|m: FrameModel| #[trigger]
        agrees(rest(buf, pos), encoding(m)) implies tag_of(m) == buf[pos] && encoding(m).len()
            >= 3 by {
        lemma_encoding_head(m);
        assert(rest(buf, pos)[0] == encoding(m)[0]);
    }
}

/// The bytes from `pos` start with a tag byte of some frame.
pub open spec fn is_tag(b: u8) -> bool {
    b == 43u8 || b == 45u8 || b == 58u8 || b == 36u8 || b == 42u8 || b == 95u8 || b == 35u8
        || b == 37u8
}

/// A line that spells an integer that fits in an `i64`.
pub open spec fn fits_i64(s: Seq<u8>) -> bool {
    int_value(s) matches Some(v) && i64::MIN <= v <= i64::MAX
}

/// After the tag at `pos`, a complete line that is not an `i64`.
#[verifier::opaque]
pub open spec fn bad_integer_line(buf: Seq<u8>, pos: int) -> bool {
    exists|e: int| #[trigger] line_at(buf, pos + 1, e) && !fits_i64(buf.subrange(pos + 1, e))
}

/// After the tag at `pos`, a complete line that is neither `t` nor `f`.
#[verifier::opaque]
pub open spec fn bad_boolean_line(buf: Seq<u8>, pos: int) -> bool {
    exists|e: int|
        #[trigger] line_at(buf, pos + 1, e) && buf.subrange(pos + 1, e) != seq![116u8]
            && buf.subrange(pos + 1, e) != seq![102u8]
}

/// After the tag at `pos`, a complete line that is not empty.
#[verifier::opaque]
pub open spec fn bad_null_line(buf: Seq<u8>, pos: int) -> bool {
    exists|e: int| #[trigger] line_at(buf, pos + 1, e) && e != pos + 1
}

/// After the tag at `pos`, a count `L`, then `L` bytes and two more, which are
/// not CRLF.
#[verifier::opaque]
pub open spec fn bad_bulk_end(buf: Seq<u8>, pos: int) -> bool {
    exists|e: int|
        #[trigger] line_at(buf, pos + 1, e) && is_digits(buf.subrange(pos + 1, e)) && ({
            let n = digits_value(buf.subrange(pos + 1, e));
            &&& n <= usize::MAX
            &&& e + 2 + n + 2 <= buf.len()
            &&& !(buf[e + 2 + n] == CR && buf[e + 3 + n] == LF)
        })
}

/// What decoding at `pos` owes: a well-formed frame that starts with its own
/// tag; for every well-formed frame whose wire form agrees with the bytes at
/// `pos`, that very frame when all of its bytes are there, and `Incomplete`
/// when they are not yet; and `InvalidFrame` for a simple string or error
/// whose line holds a bare CR or LF; and, for the malformed cases, the error
/// each one gets.
pub open spec fn decodes(buf: Seq<u8>, pos: int, r: Result<(Frame, usize), FrameError>) -> bool {
    &&& r matches Ok((f, end)) ==> pos < end <= buf.len() && model_wf(f@) && buf[pos] == tag_of(
        f@,
    )
    &&& forall|m: FrameModel|
        model_wf(m) && #[trigger] agrees(rest(buf, pos), encoding(m)) ==> if pos + encoding(m).len()
            <= buf.len() {
            r matches Ok((f, end)) && f@ == m && end == pos + encoding(m).len()
        } else {
            r == Err::<(Frame, usize), FrameError>(FrameError::Incomplete)
        }
    &&& 0 <= pos < buf.len() && (buf[pos] == 43u8 || buf[pos] == 45u8) && has_bare_break(buf, pos + 1)
        ==> r == Err::<(Frame, usize), FrameError>(FrameError::InvalidFrame)
    &&& 0 <= pos < buf.len() && !is_tag(buf[pos]) ==> r == Err::<(Frame, usize), FrameError>(
        FrameError::InvalidType,
    )
    &&& 0 <= pos < buf.len() && buf[pos] == 58u8 && bad_integer_line(buf, pos) ==> r == Err::<
        (Frame, usize),
        FrameError,
    >(FrameError::IntFromUTF8)
    &&& 0 <= pos < buf.len() && buf[pos] == 35u8 && bad_boolean_line(buf, pos) ==> r == Err::<
        (Frame, usize),
        FrameError,
    >(FrameError::InvalidFrame)
    &&& 0 <= pos < buf.len() && buf[pos] == 95u8 && bad_null_line(buf, pos) ==> r == Err::<
        (Frame, usize),
        FrameError,
    >(FrameError::InvalidFrame)
    &&& 0 <= pos < buf.len() && buf[pos] == 36u8 && bad_bulk_end(buf, pos) ==> r == Err::<
        (Frame, usize),
        FrameError,
    >(FrameError::InvalidFrame)
}

/// Reads the decimal count that follows a tag byte, and returns it with the
/// position just past its CRLF.
fn read_count(buf: &[u8], pos: usize, tag: u8) -> (r: Result<(usize, usize), FrameError>)
    requires
        pos < buf@.len(),
        buf@[pos as int] == tag,
    ensures
        r matches Ok((n, p)) ==> pos + 3 <= p <= buf@.len(),
        forall|n0: nat|
            n0 <= usize::MAX && #[trigger] agrees(rest(buf@, pos as int), header(tag, n0)) ==> if pos
                + header(tag, n0).len() <= buf@.len() {
                r == Ok::<(usize, usize), FrameError>(
                    (n0 as usize, (pos + header(tag, n0).len()) as usize),
                )
            } else {
                r == Err::<(usize, usize), FrameError>(FrameError::Incomplete)
            },
        forall|e: int|
            #[trigger] line_at(buf@, pos + 1, e) && is_digits(buf@.subrange(pos + 1, e))
                && digits_value(buf@.subrange(pos + 1, e)) <= usize::MAX ==> r == Ok::<
                (usize, usize),
                FrameError,
            >((digits_value(buf@.subrange(pos + 1, e)) as usize, (e + 2) as usize)),
{
    let len = buf.len();
    let start = pos + 1;
    proof {
        assert forall|n0: nat|
            n0 <= usize::MAX && #[trigger] agrees(rest(buf@, pos as int), header(tag, n0)) implies agrees(
                rest(buf@, start as int),
                digits(n0) + crlf(),
            ) by {
            assert(header(tag, n0) =~= seq![tag] + (digits(n0) + crlf()));
            lemma_agrees_shift(buf@, pos as int, seq![tag], digits(n0) + crlf());
            lemma_digits(n0);
        }
    }
    let e = match find_line_end(buf, start) {
        Ok(e) => e,
        Err(err) => {
            proof {
                assert forall|n0: nat|
                    n0 <= usize::MAX && #[trigger] agrees(rest(buf@, pos as int), header(tag, n0))
                        implies pos + header(tag, n0).len() > buf@.len() && err
                        == FrameError::Incomplete by {
                    lemma_digits(n0);
                    assert(agrees(rest(buf@, start as int), digits(n0) + crlf()));
                }
            }
            return Err(err);
        },
    };
    proof {
        assert forall|n0: nat|
            n0 <= usize::MAX && #[trigger] agrees(rest(buf@, pos as int), header(tag, n0)) implies e
                == start + digits(n0).len() && buf@.subrange(start as int, e as int) == digits(n0) by {
            lemma_digits(n0);
            assert(agrees(rest(buf@, start as int), digits(n0) + crlf()));
            assert(e == start + digits(n0).len());
            lemma_agrees_shift(buf@, start as int, digits(n0), crlf());
        }
    }
    match parse_digits(buf, start, e) {
        Some(v) => {
            proof {
                assert forall|n0: nat|
                    n0 <= usize::MAX && #[trigger] agrees(rest(buf@, pos as int), header(tag, n0))
                        implies v == n0 && e + 2 == pos + header(tag, n0).len() by {
                    lemma_digits(n0);
                }
            }
            if v <= usize::MAX as u64 {
                Ok((v as usize, e + 2))
            } else {
                proof {
                    assert forall|n0: nat|
                        n0 <= usize::MAX && #[trigger] agrees(rest(buf@, pos as int), header(tag, n0))
                            implies false by {
                        lemma_digits(n0);
                    }
                }
                Err(FrameError::InvalidFrame)
            }
        },
        None => {
            proof {
                assert forall|n0: nat|
                    n0 <= usize::MAX && #[trigger] agrees(rest(buf@, pos as int), header(tag, n0))
                        implies false by {
                    lemma_digits(n0);
                }
            }
            Err(FrameError::InvalidFrame)
        },
    }
}

/// A simple string or an error: a line of text after the tag.
fn decode_text(buf: &[u8], pos: usize) -> (r: Result<(Frame, usize), FrameError>)
    requires
        pos < buf@.len(),
        buf@[pos as int] == 43u8 || buf@[pos as int] == 45u8,
    ensures
        decodes(buf@, pos as int, r),
{
    let len = buf.len();
    let tag = buf[pos];
    let start = pos + 1;
    let ghost text = |m: FrameModel|
        if m is Simple {
            m->Simple_0
        } else {
            m->Error_0
        };
    proof {
        lemma_agreeing_tag(buf@, pos as int);
        assert forall|m: FrameModel|
            model_wf(m) && #[trigger] agrees(rest(buf@, pos as int), encoding(m)) implies agrees(
                rest(buf@, start as int),
                text(m) + crlf(),
            ) && is_line_text(text(m)) && encoding(m) =~= seq![tag] + (text(m) + crlf()) by {
            if m is Simple {
                assert(encoding(m) =~= seq![tag] + (m->Simple_0 + crlf()));
                lemma_agrees_shift(buf@, pos as int, seq![tag], m->Simple_0 + crlf());
            } else {
                assert(encoding(m) =~= seq![tag] + (m->Error_0 + crlf()));
                lemma_agrees_shift(buf@, pos as int, seq![tag], m->Error_0 + crlf());
            }
        }
    }
    let e = match find_line_end(buf, start) {
        Ok(e) => e,
        Err(err) => {
            proof {
                assert forall|m: FrameModel|
                    model_wf(m) && #[trigger] agrees(rest(buf@, pos as int), encoding(m)) implies pos
                        + encoding(m).len() > buf@.len() && err == FrameError::Incomplete by {
                    assert(agrees(rest(buf@, start as int), text(m) + crlf()));
                }
            }
            return Err(err);
        },
    };
    let payload = copy_range(buf, start, e);
    let f = if tag == 43u8 {
        Frame::Simple(payload)
    } else {
        Frame::Error(payload)
    };
    proof {
        assert forall|m: FrameModel|
            model_wf(m) && #[trigger] agrees(rest(buf@, pos as int), encoding(m)) implies pos
                + encoding(m).len() <= buf@.len() && f@ == m && e + 2 == pos + encoding(m).len() by {
            assert(agrees(rest(buf@, start as int), text(m) + crlf()));
            assert(e == start + text(m).len());
            lemma_agrees_shift(buf@, start as int, text(m), crlf());
        }
    }
    Ok((f, e + 2))
}

/// An integer: a signed decimal line after the tag.
fn decode_integer(buf: &[u8], pos: usize) -> (r: Result<(Frame, usize), FrameError>)
    requires
        pos < buf@.len(),
        buf@[pos as int] == 58u8,
    ensures
        decodes(buf@, pos as int, r),
{
    let len = buf.len();
    let start = pos + 1;
    proof {
        lemma_agreeing_tag(buf@, pos as int);
        assert forall|m: FrameModel|
            model_wf(m) && #[trigger] agrees(rest(buf@, pos as int), encoding(m)) implies agrees(
                rest(buf@, start as int),
                int_text(m->Integer_0) + crlf(),
            ) && is_line_text(int_text(m->Integer_0)) by {
            assert(encoding(m) =~= seq![58u8] + (int_text(m->Integer_0) + crlf()));
            lemma_agrees_shift(buf@, pos as int, seq![58u8], int_text(m->Integer_0) + crlf());
            lemma_int_text(m->Integer_0);
        }
    }
    let e = match find_line_end(buf, start) {
        Ok(e) => e,
        Err(err) => {
            proof {
                assert forall|m: FrameModel|
                    model_wf(m) && #[trigger] agrees(rest(buf@, pos as int), encoding(m)) implies pos
                        + encoding(m).len() > buf@.len() && err == FrameError::Incomplete by {
                    assert(agrees(rest(buf@, start as int), int_text(m->Integer_0) + crlf()));
                }
                reveal(bad_integer_line);
                if bad_integer_line(buf@, pos as int) {
                    let e2 = choose|e2: int|
                        #[trigger] line_at(buf@, pos + 1, e2) && !fits_i64(buf@.subrange(pos + 1, e2));
                    assert(line_at(buf@, start as int, e2));
                }
            }
            return Err(err);
        },
    };
    proof {
        assert forall|m: FrameModel|
            model_wf(m) && #[trigger] agrees(rest(buf@, pos as int), encoding(m)) implies pos
                + encoding(m).len() <= buf@.len() && e + 2 == pos + encoding(m).len() && buf@.subrange(
                start as int,
                e as int,
            ) == int_text(m->Integer_0) by {
            let t = int_text(m->Integer_0);
            assert(agrees(rest(buf@, start as int), t + crlf()));
            assert(e == start + t.len());
            lemma_agrees_shift(buf@, start as int, t, crlf());
            lemma_int_text(m->Integer_0);
        }
    }
    match parse_integer(buf, start, e) {
        Ok(n) => {
            proof {
                reveal(bad_integer_line);
                if bad_integer_line(buf@, pos as int) {
                    let e2 = choose|e2: int|
                        #[trigger] line_at(buf@, pos + 1, e2) && !fits_i64(buf@.subrange(pos + 1, e2));
                    assert(line_at(buf@, start as int, e2));
                    assert(e2 == e);
                }
                assert forall|m: FrameModel|
                    model_wf(m) && #[trigger] agrees(rest(buf@, pos as int), encoding(m)) implies m
                        == FrameModel::Integer(n as int) by {
                    lemma_int_text(m->Integer_0);
                }
            }
            Ok((Frame::Integer(n), e + 2))
        },
        Err(err) => {
            proof {
                reveal(bad_integer_line);
                assert(line_at(buf@, pos + 1, e as int));
                assert(bad_integer_line(buf@, pos as int));
                assert forall|m: FrameModel|
                    model_wf(m) && #[trigger] agrees(rest(buf@, pos as int), encoding(m)) implies false by {
                    lemma_int_text(m->Integer_0);
                }
            }
            Err(err)
        },
    }
}

/// No complete line starts at `start` when the line scanner found none, so no
/// line after the tag at `pos` is malformed.
proof fn lemma_no_line(buf: Seq<u8>, start: int, pos: int)
    requires
        start == pos + 1,
        forall|e: int| !#[trigger] line_at(buf, start, e),
    ensures
        !bad_boolean_line(buf, pos),
        !bad_null_line(buf, pos),
{
    reveal(bad_boolean_line);
    reveal(bad_null_line);
    if bad_boolean_line(buf, pos) {
        let e2 = choose|e2: int|
            #[trigger] line_at(buf, pos + 1, e2) && buf.subrange(pos + 1, e2) != seq![116u8]
                && buf.subrange(pos + 1, e2) != seq![102u8];
        assert(line_at(buf, start, e2));
    }
    if bad_null_line(buf, pos) {
        let e2 = choose|e2: int| #[trigger] line_at(buf, pos + 1, e2) && e2 != pos + 1;
        assert(line_at(buf, start, e2));
    }
}

/// When the only complete line after the tag at `pos` ends at `e`, the flag
/// lines are malformed exactly by what that line holds.
proof fn lemma_flag_line(buf: Seq<u8>, start: int, pos: int, e: int)
    requires
        start == pos + 1,
        line_at(buf, start, e),
        forall|e2: int| #[trigger] line_at(buf, start, e2) ==> e2 == e,
    ensures
        bad_boolean_line(buf, pos) == (buf.subrange(start, e) != seq![116u8] && buf.subrange(
            start,
            e,
        ) != seq![102u8]),
        bad_null_line(buf, pos) == (e != pos + 1),
{
    reveal(bad_boolean_line);
    reveal(bad_null_line);
    if bad_boolean_line(buf, pos) {
        let e2 = choose|e2: int|
            #[trigger] line_at(buf, pos + 1, e2) && buf.subrange(pos + 1, e2) != seq![116u8]
                && buf.subrange(pos + 1, e2) != seq![102u8];
        assert(line_at(buf, start, e2));
    }
    if bad_null_line(buf, pos) {
        let e2 = choose|e2: int| #[trigger] line_at(buf, pos + 1, e2) && e2 != pos + 1;
        assert(line_at(buf, start, e2));
    }
    assert(line_at(buf, pos + 1, e));
}

/// A boolean, `t` or `f`, or the null frame, whose line is empty.
fn decode_flag(buf: &[u8], pos: usize) -> (r: Result<(Frame, usize), FrameError>)
    requires
        pos < buf@.len(),
        buf@[pos as int] == 35u8 || buf@[pos as int] == 95u8,
    ensures
        decodes(buf@, pos as int, r),
{
    let len = buf.len();
    let tag = buf[pos];
    let start = pos + 1;
    let ghost text = |m: FrameModel|
        if m is Null {
            Seq::<u8>::empty()
        } else if m->Boolean_0 {
            seq![116u8]
        } else {
            seq![102u8]
        };
    proof {
        lemma_agreeing_tag(buf@, pos as int);
        assert forall|m: FrameModel|
            model_wf(m) && #[trigger] agrees(rest(buf@, pos as int), encoding(m)) implies agrees(
                rest(buf@, start as int),
                text(m) + crlf(),
            ) && is_line_text(text(m)) && encoding(m) =~= seq![tag] + (text(m) + crlf()) by {
            assert(encoding(m) =~= seq![tag] + (text(m) + crlf()));
            lemma_agrees_shift(buf@, pos as int, seq![tag], text(m) + crlf());
        }
    }
    let e = match find_line_end(buf, start) {
        Ok(e) => e,
        Err(err) => {
            proof {
                assert forall|m: FrameModel|
                    model_wf(m) && #[trigger] agrees(rest(buf@, pos as int), encoding(m)) implies pos
                        + encoding(m).len() > buf@.len() && err == FrameError::Incomplete by {
                    assert(agrees(rest(buf@, start as int), text(m) + crlf()));
                }
                lemma_no_line(buf@, start as int, pos as int);
            }
            return Err(err);
        },
    };
    proof {
        assert forall|m: FrameModel|
            model_wf(m) && #[trigger] agrees(rest(buf@, pos as int), encoding(m)) implies pos
                + encoding(m).len() <= buf@.len() && e + 2 == pos + encoding(m).len() && buf@.subrange(
                start as int,
                e as int,
            ) == text(m) by {
            assert(agrees(rest(buf@, start as int), text(m) + crlf()));
            assert(e == start + text(m).len());
            lemma_agrees_shift(buf@, start as int, text(m), crlf());
        }
    }
    proof {
        lemma_flag_line(buf@, start as int, pos as int, e as int);
    }
    if tag == 95u8 {
        if e == pos + 1 {
            return Ok((Frame::Null, e + 2));
        }
    } else if e == pos + 2 {
        let b = buf[start];
        proof {
            assert(buf@.subrange(start as int, e as int)[0] == b);
        }
        proof {
            if b == 116u8 {
                assert(buf@.subrange(start as int, e as int) =~= seq![116u8]);
            } else if b == 102u8 {
                assert(buf@.subrange(start as int, e as int) =~= seq![102u8]);
            }
        }
        if b == 116u8 {
            return Ok((Frame::Boolean(true), e + 2));
        } else if b == 102u8 {
            return Ok((Frame::Boolean(false), e + 2));
        }
    }
    proof {
        assert forall|m: FrameModel|
            model_wf(m) && #[trigger] agrees(rest(buf@, pos as int), encoding(m)) implies false by {
            if e == pos + 2 {
                assert(buf@.subrange(start as int, e as int)[0] == buf@[start as int]);
            }
        }
    }
    Err(FrameError::InvalidFrame)
}

/// A bulk string: a byte count, then exactly that many bytes and CRLF.
fn decode_bulk(buf: &[u8], pos: usize) -> (r: Result<(Frame, usize), FrameError>)
    requires
        pos < buf@.len(),
        buf@[pos as int] == 36u8,
    ensures
        decodes(buf@, pos as int, r),
{
    let len = buf.len();
    proof {
        lemma_agreeing_tag(buf@, pos as int);
        assert forall|m: FrameModel|
            model_wf(m) && #[trigger] agrees(rest(buf@, pos as int), encoding(m)) implies agrees(
                rest(buf@, pos as int),
                header(36u8, m->Bulk_0.len()),
            ) by {
            let b = m->Bulk_0;
            assert(encoding(m) =~= header(36u8, b.len()) + (b + crlf()));
            lemma_agrees_front(rest(buf@, pos as int), header(36u8, b.len()), b + crlf());
        }
    }
    let (n, p) = match read_count(buf, pos, 36u8) {
        Ok(x) => x,
        Err(err) => {
            proof {
                reveal(bad_bulk_end);
                if bad_bulk_end(buf@, pos as int) {
                    let e2 = choose|e2: int|
                        #[trigger] line_at(buf@, pos + 1, e2) && is_digits(buf@.subrange(pos + 1, e2))
                            && ({
                            let n = digits_value(buf@.subrange(pos + 1, e2));
                            &&& n <= usize::MAX
                            &&& e2 + 2 + n + 2 <= buf@.len()
                            &&& !(buf@[e2 + 2 + n] == CR && buf@[e2 + 3 + n] == LF)
                        });
                    assert(line_at(buf@, pos + 1, e2));
                }
            }
            return Err(err);
        },
    };
    proof {
        reveal(bad_bulk_end);
        if bad_bulk_end(buf@, pos as int) {
            let e2 = choose|e2: int|
                #[trigger] line_at(buf@, pos + 1, e2) && is_digits(buf@.subrange(pos + 1, e2)) && ({
                    let n = digits_value(buf@.subrange(pos + 1, e2));
                    &&& n <= usize::MAX
                    &&& e2 + 2 + n + 2 <= buf@.len()
                    &&& !(buf@[e2 + 2 + n] == CR && buf@[e2 + 3 + n] == LF)
                });
            assert(line_at(buf@, pos + 1, e2));
            assert(n == digits_value(buf@.subrange(pos + 1, e2)) && p == e2 + 2);
        }
    }
    proof {
        assert forall|m: FrameModel|
            model_wf(m) && #[trigger] agrees(rest(buf@, pos as int), encoding(m)) implies n
                == m->Bulk_0.len() && p == pos + header(36u8, n as nat).len() && agrees(
                rest(buf@, p as int),
                m->Bulk_0 + crlf(),
            ) by {
            let b = m->Bulk_0;
            assert(agrees(rest(buf@, pos as int), header(36u8, b.len())));
            assert(encoding(m) =~= header(36u8, b.len()) + (b + crlf()));
            lemma_agrees_shift(buf@, pos as int, header(36u8, b.len()), b + crlf());
        }
    }
    if n > buf.len() - p || buf.len() - p - n < 2 {
        return Err(FrameError::Incomplete);
    }
    if buf[p + n] != CR || buf[p + n + 1] != LF {
        proof {
            assert forall|m: FrameModel|
                model_wf(m) && #[trigger] agrees(rest(buf@, pos as int), encoding(m)) implies false by {
                let b = m->Bulk_0;
                lemma_agrees_shift(buf@, p as int, b, crlf());
                assert(rest(buf@, p + n)[0] == crlf()[0]);
                assert(rest(buf@, p + n)[1] == crlf()[1]);
            }
        }
        return Err(FrameError::InvalidFrame);
    }
    let payload = copy_range(buf, p, p + n);
    proof {
        assert forall|m: FrameModel|
            model_wf(m) && #[trigger] agrees(rest(buf@, pos as int), encoding(m)) implies m
                == FrameModel::Bulk(payload@) by {
            let b = m->Bulk_0;
            lemma_agrees_shift(buf@, p as int, b, crlf());
        }
    }
    Ok((Frame::Bulk(payload), p + n + 2))
}

/// An array: a count, then that many frames.
fn decode_array(buf: &[u8], pos: usize) -> (r: Result<(Frame, usize), FrameError>)
    requires
        pos < buf@.len(),
        buf@[pos as int] == 42u8,
    ensures
        decodes(buf@, pos as int, r),
    decreases buf@.len() - pos, 0nat,
{
    let len = buf.len();
    proof {
        lemma_agreeing_tag(buf@, pos as int);
        assert forall|m: FrameModel|
            model_wf(m) && #[trigger] agrees(rest(buf@, pos as int), encoding(m)) implies agrees(
                rest(buf@, pos as int),
                header(42u8, m->Array_0.len()),
            ) by {
            let v = m->Array_0;
            lemma_agrees_front(rest(buf@, pos as int), header(42u8, v.len()), encoding_seq(v));
        }
    }
    let (n, p0) = match read_count(buf, pos, 42u8) {
        Ok(x) => x,
        Err(err) => {
            return Err(err);
        },
    };
    let mut items: Vec<Frame> = Vec::new();
    let mut p: usize = p0;
    let mut i: usize = 0;
    proof {
        assert(models(items@) =~= Seq::<FrameModel>::empty());
        assert forall|m: FrameModel|
            model_wf(m) && #[trigger] agrees(rest(buf@, pos as int), encoding(m)) implies m is Array
                && m->Array_0.len() == n && models(items@) == m->Array_0.subrange(0, 0) && p0
                == pos + header(42u8, n as nat).len() && p == p0 + encoding_seq(
                m->Array_0.subrange(0, 0),
            ).len() by {
            assert(agrees(rest(buf@, pos as int), header(42u8, m->Array_0.len())));
            assert(m->Array_0.subrange(0, 0) =~= Seq::<FrameModel>::empty());
        }
    }
    while i < n
        invariant
            pos < p0 <= p <= buf@.len(),
            i <= n,
            items@.len() == i,
            buf@[pos as int] == 42u8,
            forall|k: int| 0 <= k < i ==> model_wf(#[trigger] models(items@)[k]),
            forall|m: FrameModel|
                model_wf(m) && #[trigger] agrees(rest(buf@, pos as int), encoding(m)) ==> m is Array
                    && m->Array_0.len() == n && models(items@) == m->Array_0.subrange(0, i as int)
                    && p0 == pos + header(42u8, n as nat).len() && p == p0 + encoding_seq(
                    m->Array_0.subrange(0, i as int),
                ).len(),
        decreases n - i,
    {
        proof {
            assert forall|m: FrameModel|
                model_wf(m) && #[trigger] agrees(rest(buf@, pos as int), encoding(m)) implies model_wf(
                    m->Array_0[i as int],
                ) && agrees(rest(buf@, p as int), encoding(m->Array_0[i as int])) && pos
                    + encoding(m).len() == p + encoding(m->Array_0[i as int]).len()
                    + encoding_seq(m->Array_0.subrange(i + 1, n as int)).len() by {
                let v = m->Array_0;
                lemma_seq_wf(v);
                lemma_encoding_seq_split(v, i as int);
                let x = header(42u8, n as nat) + encoding_seq(v.subrange(0, i as int));
                let y = encoding(v[i as int]) + encoding_seq(v.subrange(i + 1, n as int));
                assert(encoding(m) =~= x + y);
                lemma_agrees_shift(buf@, pos as int, x, y);
                lemma_agrees_front(rest(buf@, p as int), encoding(v[i as int]), encoding_seq(
                    v.subrange(i + 1, n as int),
                ));
            }
        }
        let res = decode(buf, p);
        match res {
            Ok((child, q)) => {
                let ghost before = items@;
                items.push(child);
                proof {
                    lemma_models(items@);
                    lemma_models(before);
                    assert(items@.subrange(0, items@.len() - 1) =~= before);
                    assert forall|k: int| 0 <= k < i + 1 implies model_wf(
                        #[trigger] models(items@)[k],
                    ) by {
                        if k < i {
                            assert(models(items@)[k] == models(before)[k]);
                        }
                    }
                    assert forall|m: FrameModel|
                        model_wf(m) && #[trigger] agrees(rest(buf@, pos as int), encoding(m)) implies models(
                            items@,
                        ) == m->Array_0.subrange(0, i + 1) && q == p0 + encoding_seq(
                            m->Array_0.subrange(0, i + 1),
                        ).len() by {
                        let v = m->Array_0;
                        assert(agrees(rest(buf@, p as int), encoding(v[i as int])));
                        lemma_encoding_seq_extend(v, i as int);
                        assert(models(items@) =~= v.subrange(0, i + 1));
                    }
                }
                p = q;
                i = i + 1;
            },
            Err(err) => {
                proof {
                    assert forall|m: FrameModel|
                        model_wf(m) && #[trigger] agrees(rest(buf@, pos as int), encoding(m)) implies pos
                            + encoding(m).len() > buf@.len() && err == FrameError::Incomplete by {
                        assert(agrees(rest(buf@, p as int), encoding(m->Array_0[i as int])));
                    }
                }
                return Err(err);
            },
        }
    }
    let ghost items_view = models(items@);
    let f = Frame::Array(items);
    proof {
        lemma_seq_wf(items_view);
        lemma_models(items@);
        assert forall|m: FrameModel|
            model_wf(m) && #[trigger] agrees(rest(buf@, pos as int), encoding(m)) implies f@ == m
                && p == pos + encoding(m).len() by {
            assert(m->Array_0.subrange(0, n as int) =~= m->Array_0);
        }
    }
    Ok((f, p))
}

/// A map: a count, then that many keys, each followed by its value.
fn decode_dict(buf: &[u8], pos: usize) -> (r: Result<(Frame, usize), FrameError>)
    requires
        pos < buf@.len(),
        buf@[pos as int] == 37u8,
    ensures
        decodes(buf@, pos as int, r),
    decreases buf@.len() - pos, 0nat,
{
    let len = buf.len();
    proof {
        lemma_agreeing_tag(buf@, pos as int);
        assert forall|m: FrameModel|
            model_wf(m) && #[trigger] agrees(rest(buf@, pos as int), encoding(m)) implies agrees(
                rest(buf@, pos as int),
                header(37u8, m->Dict_0.len()),
            ) by {
            let v = m->Dict_0;
            lemma_agrees_front(rest(buf@, pos as int), header(37u8, v.len()), encoding_pairs(v));
        }
    }
    let (n, p0) = match read_count(buf, pos, 37u8) {
        Ok(x) => x,
        Err(err) => {
            return Err(err);
        },
    };
    let mut items: Vec<(Frame, Frame)> = Vec::new();
    let mut p: usize = p0;
    let mut i: usize = 0;
    proof {
        assert(pair_models(items@) =~= Seq::<(FrameModel, FrameModel)>::empty());
        assert forall|m: FrameModel|
            model_wf(m) && #[trigger] agrees(rest(buf@, pos as int), encoding(m)) implies m is Dict
                && m->Dict_0.len() == n && pair_models(items@) == m->Dict_0.subrange(0, 0) && p0
                == pos + header(37u8, n as nat).len() && p == p0 + encoding_pairs(
                m->Dict_0.subrange(0, 0),
            ).len() by {
            assert(agrees(rest(buf@, pos as int), header(37u8, m->Dict_0.len())));
            assert(m->Dict_0.subrange(0, 0) =~= Seq::<(FrameModel, FrameModel)>::empty());
        }
    }
    while i < n
        invariant
            pos < p0 <= p <= buf@.len(),
            i <= n,
            items@.len() <= i,
            buf@[pos as int] == 37u8,
            pair_models(items@).len() == items@.len(),
            forall|k: int|
                0 <= k < pair_models(items@).len() ==> pair_wf(#[trigger] pair_models(items@)[k]),
            keys_sorted(pair_models(items@)),
            forall|m: FrameModel|
                model_wf(m) && #[trigger] agrees(rest(buf@, pos as int), encoding(m)) ==> m is Dict
                    && m->Dict_0.len() == n && pair_models(items@) == m->Dict_0.subrange(0, i as int)
                    && p0 == pos + header(37u8, n as nat).len() && p == p0 + encoding_pairs(
                    m->Dict_0.subrange(0, i as int),
                ).len(),
        decreases n - i,
    {
        proof {
            assert forall|m: FrameModel|
                model_wf(m) && #[trigger] agrees(rest(buf@, pos as int), encoding(m)) implies model_wf(
                    m->Dict_0[i as int].0,
                ) && model_wf(m->Dict_0[i as int].1) && agrees(
                    rest(buf@, p as int),
                    encoding(m->Dict_0[i as int].0),
                ) && agrees(
                    rest(buf@, p as int),
                    encoding(m->Dict_0[i as int].0) + (encoding(m->Dict_0[i as int].1)
                        + encoding_pairs(m->Dict_0.subrange(i + 1, n as int))),
                ) && pos + encoding(m).len() == p + encoding(m->Dict_0[i as int].0).len()
                    + encoding(m->Dict_0[i as int].1).len() + encoding_pairs(
                    m->Dict_0.subrange(i + 1, n as int),
                ).len() by {
                let v = m->Dict_0;
                lemma_pairs_wf(v);
                assert(pair_wf(v[i as int]));
                lemma_encoding_pairs_split(v, i as int);
                let x = header(37u8, n as nat) + encoding_pairs(v.subrange(0, i as int));
                let z = encoding(v[i as int].1) + encoding_pairs(v.subrange(i + 1, n as int));
                let y = encoding(v[i as int].0) + z;
                assert(encoding(m) =~= x + y);
                lemma_agrees_shift(buf@, pos as int, x, y);
                lemma_agrees_front(rest(buf@, p as int), encoding(v[i as int].0), z);
            }
        }
        let key = match decode(buf, p) {
            Ok(x) => x,
            Err(err) => {
                proof {
                    assert forall|m: FrameModel|
                        model_wf(m) && #[trigger] agrees(rest(buf@, pos as int), encoding(m)) implies pos
                            + encoding(m).len() > buf@.len() && err == FrameError::Incomplete by {
                        assert(agrees(rest(buf@, p as int), encoding(m->Dict_0[i as int].0)));
                    }
                }
                return Err(err);
            },
        };
        let (k, q1) = key;
        proof {
            assert forall|m: FrameModel|
                model_wf(m) && #[trigger] agrees(rest(buf@, pos as int), encoding(m)) implies k@
                    == m->Dict_0[i as int].0 && q1 == p + encoding(m->Dict_0[i as int].0).len()
                    && agrees(rest(buf@, q1 as int), encoding(m->Dict_0[i as int].1)) by {
                let v = m->Dict_0;
                assert(agrees(rest(buf@, p as int), encoding(v[i as int].0)));
                let z = encoding(v[i as int].1) + encoding_pairs(v.subrange(i + 1, n as int));
                lemma_agrees_shift(buf@, p as int, encoding(v[i as int].0), z);
                lemma_agrees_front(
                    rest(buf@, q1 as int),
                    encoding(v[i as int].1),
                    encoding_pairs(v.subrange(i + 1, n as int)),
                );
            }
        }
        let value = match decode(buf, q1) {
            Ok(x) => x,
            Err(err) => {
                proof {
                    assert forall|m: FrameModel|
                        model_wf(m) && #[trigger] agrees(rest(buf@, pos as int), encoding(m)) implies pos
                            + encoding(m).len() > buf@.len() && err == FrameError::Incomplete by {
                        assert(agrees(rest(buf@, q1 as int), encoding(m->Dict_0[i as int].1)));
                    }
                }
                return Err(err);
            },
        };
        let (val, q2) = value;
        let ghost before = items@;
        proof {
            assert forall|m: FrameModel|
                model_wf(m) && #[trigger] agrees(rest(buf@, pos as int), encoding(m)) implies val@
                    == m->Dict_0[i as int].1 && q2 == q1 + encoding(m->Dict_0[i as int].1).len() by {
                assert(agrees(rest(buf@, q1 as int), encoding(m->Dict_0[i as int].1)));
            }
        }
        dict_put(&mut items, k, val);
        proof {
            let old_pm = pair_models(before);
            lemma_pair_models(items@);
            lemma_pair_models(before);
            lemma_dict_insert(old_pm, k@, val@);
            assert forall|j: int| 0 <= j < pair_models(items@).len() implies pair_wf(
                #[trigger] pair_models(items@)[j],
            ) by {
                let x = pair_models(items@)[j];
                if x != (k@, val@) {
                    let y = choose|y: int| 0 <= y < old_pm.len() && old_pm[y] == x;
                    assert(pair_wf(old_pm[y]));
                }
            }
            assert forall|m: FrameModel|
                model_wf(m) && #[trigger] agrees(rest(buf@, pos as int), encoding(m)) implies pair_models(
                    items@,
                ) == m->Dict_0.subrange(0, i + 1) && q2 == p0 + encoding_pairs(
                    m->Dict_0.subrange(0, i + 1),
                ).len() by {
                let v = m->Dict_0;
                lemma_encoding_pairs_extend(v, i as int);
                assert(old_pm == v.subrange(0, i as int));
                assert forall|j: int| 0 <= j < old_pm.len() implies lex_lt(
                    #[trigger] encoding(old_pm[j].0),
                    encoding(k@),
                ) by {
                    assert(old_pm[j] == v[j]);
                }
                assert(pair_models(items@) == old_pm.push((k@, val@)));
                assert(pair_models(items@) =~= v.subrange(0, i + 1));
            }
        }
        p = q2;
        i = i + 1;
    }
    let ghost items_view = pair_models(items@);
    let f = Frame::Dict(items);
    proof {
        lemma_pairs_wf(items_view);
        lemma_pair_models(items@);
        assert forall|m: FrameModel|
            model_wf(m) && #[trigger] agrees(rest(buf@, pos as int), encoding(m)) implies f@ == m
                && p == pos + encoding(m).len() by {
            assert(m->Dict_0.subrange(0, n as int) =~= m->Dict_0);
        }
    }
    Ok((f, p))
}

/// Decodes the frame that starts at `pos` in `buf`, and returns it with the
/// position just past it. `Incomplete` means that the bytes so far may still
/// become a frame; the caller reads more and tries again from the same
/// position.
pub fn decode(buf: &[u8], pos: usize) -> (r: Result<(Frame, usize), FrameError>)
    requires
        pos <= buf@.len(),
    ensures
        decodes(buf@, pos as int, r),
    decreases buf@.len() - pos, 1nat,
{
    if pos >= buf.len() {
        proof {
            assert forall|m: FrameModel|
                model_wf(m) && #[trigger] agrees(rest(buf@, pos as int), encoding(m)) implies pos
                    + encoding(m).len() > buf@.len() by {
                lemma_encoding_head(m);
            }
        }
        return Err(FrameError::Incomplete);
    }
    let tag = buf[pos];
    if tag == 43u8 || tag == 45u8 {
        decode_text(buf, pos)
    } else if tag == 58u8 {
        decode_integer(buf, pos)
    } else if tag == 35u8 || tag == 95u8 {
        decode_flag(buf, pos)
    } else if tag == 36u8 {
        decode_bulk(buf, pos)
    } else if tag == 42u8 {
        decode_array(buf, pos)
    } else if tag == 37u8 {
        decode_dict(buf, pos)
    } else {
        proof {
            lemma_agreeing_tag(buf@, pos as int);
        }
        Err(FrameError::InvalidType)
    }
}

/// Decoding the wire form of a well-formed frame, wherever it starts in the
/// buffer and whatever follows it, gives back that frame and stops right
/// after it.
pub proof fn lemma_decode_round_trip(
    buf: Seq<u8>,
    pos: int,
    m: FrameModel,
    r: Result<(Frame, usize), FrameError>,
)
    requires
        decodes(buf, pos, r),
        model_wf(m),
        0 <= pos,
        pos + encoding(m).len() <= buf.len(),
        buf.subrange(pos, pos + encoding(m).len()) == encoding(m),
    ensures
        r matches Ok((f, end)) && f@ == m && end == pos + encoding(m).len(),
{
    assert forall|i: int|
        0 <= i < rest(buf, pos).len() && 0 <= i < encoding(m).len() implies rest(buf, pos)[i]
        == encoding(m)[i] by {
        assert(buf.subrange(pos, pos + encoding(m).len())[i] == buf[pos + i]);
    }
    assert(agrees(rest(buf, pos), encoding(m)));
}

/// Every proper prefix of the wire form of a well-formed frame decodes as
/// `Incomplete`, so the reader waits for more bytes at the same position.
pub proof fn lemma_prefix_incomplete(m: FrameModel, n: int, r: Result<(Frame, usize), FrameError>)
    requires
        model_wf(m),
        0 <= n < encoding(m).len(),
        decodes(encoding(m).subrange(0, n), 0, r),
    ensures
        r == Err::<(Frame, usize), FrameError>(FrameError::Incomplete),
{
    let buf = encoding(m).subrange(0, n);
    assert(rest(buf, 0) =~= buf);
    assert(agrees(rest(buf, 0), encoding(m)));
}

/// A bulk string comes back unchanged whatever its bytes, CR, LF and bytes
/// that are not UTF-8 included.
pub proof fn lemma_bulk_round_trip(b: Seq<u8>, r: Result<(Frame, usize), FrameError>)
    requires
        b.len() <= usize::MAX,
        decodes(encoding(FrameModel::Bulk(b)), 0, r),
    ensures
        r matches Ok((f, end)) && f@ == FrameModel::Bulk(b) && end == encoding(
            FrameModel::Bulk(b),
        ).len(),
{
    let e = encoding(FrameModel::Bulk(b));
    assert(e.subrange(0, e.len() as int) =~= e);
    lemma_decode_round_trip(e, 0, FrameModel::Bulk(b), r);
}

/// A line that is not text holds a first CR or LF, after text.
proof fn lemma_first_break(x: Seq<u8>)
    requires
        !is_line_text(x),
    ensures
        exists|j: int|
            0 <= j < x.len() && is_line_text(x.subrange(0, j)) && (#[trigger] x[j] == CR || x[j]
                == LF),
    decreases x.len(),
{
    if x[0] == CR || x[0] == LF {
        assert(is_line_text(x.subrange(0, 0)));
        assert(x[0] == CR || x[0] == LF);
    } else {
        let y = x.drop_first();
        assert(!is_line_text(y)) by {
            let i = choose|i: int| 0 <= i < x.len() && !(x[i] != CR && x[i] != LF);
            assert(y[i - 1] == x[i]);
        }
        lemma_first_break(y);
        let j = choose|j: int|
            0 <= j < y.len() && is_line_text(y.subrange(0, j)) && (#[trigger] y[j] == CR || y[j] == LF);
        let xs = x.subrange(0, j + 1);
        assert forall|k: int| 0 <= k < j + 1 implies #[trigger] xs[k] != CR && xs[k] != LF by {
            if k > 0 {
                assert(x.subrange(0, j + 1)[k] == y.subrange(0, j)[k - 1]);
            }
        }
        assert(x[j + 1] == y[j]);
    }
}

/// A simple string or an error whose text holds a CR or LF, but no CRLF, is
/// malformed: the line cannot be read up to its real end.
pub proof fn lemma_simple_line_strict(tag: u8, x: Seq<u8>, r: Result<(Frame, usize), FrameError>)
    requires
        tag == 43u8 || tag == 45u8,
        !is_line_text(x),
        forall|i: int| 0 <= i < x.len() - 1 ==> !(#[trigger] x[i] == CR && x[i + 1] == LF),
        decodes(seq![tag] + x + crlf(), 0, r),
    ensures
        r == Err::<(Frame, usize), FrameError>(FrameError::InvalidFrame),
{
    let buf = seq![tag] + x + crlf();
    lemma_first_break(x);
    let j = choose|j: int|
        0 <= j < x.len() && is_line_text(x.subrange(0, j)) && (#[trigger] x[j] == CR || x[j] == LF);
    assert(buf.subrange(1, j + 1) =~= x.subrange(0, j));
    assert(buf[j + 1] == x[j]);
    if x[j] == CR {
        if j + 1 < x.len() {
            assert(buf[j + 2] == x[j + 1]);
        } else {
            assert(buf[j + 2] == CR);
        }
    }
    reveal(has_bare_break);
    assert(has_bare_break(buf, 1));
}

} // verus!
