//! The RESP frame: the values that travel on the wire, and their encoding.
use crate::bytes::bytes_eq;
use crate::error::FrameError;
use vstd::prelude::*;

verus! {

broadcast use vstd::std_specs::vec::group_vec_axioms, vstd::seq::group_seq_axioms;

/// One RESP value. Text payloads are kept as bytes; a bulk payload may hold any
/// byte, CR and LF included.
#[derive(Debug)]
pub enum Frame {
    Simple(Vec<u8>),
    Error(Vec<u8>),
    Integer(i64),
    Bulk(Vec<u8>),
    Array(Vec<Frame>),
    Null,
    Boolean(bool),
    /// Key/value pairs, one per key, in the order of the keys' wire forms.
    Dict(Vec<(Frame, Frame)>),
}

pub const CR: u8 = 13;

pub const LF: u8 = 10;

pub open spec fn crlf() -> Seq<u8> {
    seq![CR, LF]
}

/// The ASCII decimal digits of `n`, most significant first, without leading zeros.
pub open spec fn digits(n: nat) -> Seq<u8>
    decreases n,
{
    if n < 10 {
        seq![(n + 48) as u8]
    } else {
        digits(n / 10).push((n % 10 + 48) as u8)
    }
}

/// The decimal text of a signed integer: a `-` sign for negative values.
pub open spec fn int_text(n: int) -> Seq<u8> {
    if n < 0 {
        seq![45u8] + digits((-n) as nat)
    } else {
        digits(n as nat)
    }
}

/// A tag byte followed by a decimal count and CRLF.
pub open spec fn header(tag: u8, n: nat) -> Seq<u8> {
    seq![tag] + digits(n) + crlf()
}

/// The mathematical value of a frame: payloads as byte sequences, integers as
/// `int`, nested frames as sequences of values.
pub enum FrameModel {
    Simple(Seq<u8>),
    Error(Seq<u8>),
    Integer(int),
    Bulk(Seq<u8>),
    Array(Seq<FrameModel>),
    Null,
    Boolean(bool),
    Dict(Seq<(FrameModel, FrameModel)>),
}

pub open spec fn model(f: Frame) -> FrameModel
    decreases f,
{
    match f {
        Frame::Simple(s) => FrameModel::Simple(s@),
        Frame::Error(s) => FrameModel::Error(s@),
        Frame::Integer(n) => FrameModel::Integer(n as int),
        Frame::Bulk(b) => FrameModel::Bulk(b@),
        Frame::Array(v) => FrameModel::Array(models(v@)),
        Frame::Null => FrameModel::Null,
        Frame::Boolean(b) => FrameModel::Boolean(b),
        Frame::Dict(m) => FrameModel::Dict(pair_models(m@)),
    }
}

pub open spec fn models(s: Seq<Frame>) -> Seq<FrameModel>
    decreases s,
{
    if s.len() == 0 {
        seq![]
    } else {
        models(s.subrange(0, s.len() - 1)).push(model(s[s.len() - 1]))
    }
}

pub open spec fn pair_models(s: Seq<(Frame, Frame)>) -> Seq<(FrameModel, FrameModel)>
    decreases s,
{
    if s.len() == 0 {
        seq![]
    } else {
        pair_models(s.subrange(0, s.len() - 1)).push(
            (model(s[s.len() - 1].0), model(s[s.len() - 1].1)),
        )
    }
}

impl View for Frame {
    type V = FrameModel;

    open spec fn view(&self) -> FrameModel {
        model(*self)
    }
}

/// The wire form of a frame.
pub open spec fn encoding(f: FrameModel) -> Seq<u8>
    decreases f,
{
    match f {
        FrameModel::Simple(s) => seq![43u8] + s + crlf(),
        FrameModel::Error(s) => seq![45u8] + s + crlf(),
        FrameModel::Integer(n) => seq![58u8] + int_text(n) + crlf(),
        FrameModel::Bulk(b) => header(36u8, b.len()) + b + crlf(),
        FrameModel::Boolean(v) => if v {
            seq![35u8, 116u8] + crlf()
        } else {
            seq![35u8, 102u8] + crlf()
        },
        FrameModel::Null => seq![95u8] + crlf(),
        FrameModel::Array(v) => header(42u8, v.len()) + encoding_seq(v),
        FrameModel::Dict(m) => header(37u8, m.len()) + encoding_pairs(m),
    }
}

/// The encodings of a sequence of frames, one after another.
pub open spec fn encoding_seq(s: Seq<FrameModel>) -> Seq<u8>
    decreases s,
{
    if s.len() == 0 {
        seq![]
    } else {
        encoding(s[0]) + encoding_seq(s.subrange(1, s.len() as int))
    }
}

/// The encodings of key/value pairs: each key, then its value.
pub open spec fn encoding_pairs(s: Seq<(FrameModel, FrameModel)>) -> Seq<u8>
    decreases s,
{
    if s.len() == 0 {
        seq![]
    } else {
        encoding(s[0].0) + encoding(s[0].1) + encoding_pairs(s.subrange(1, s.len() as int))
    }
}

/// Byte strings in lexicographic order: `a` comes strictly before `b`.
pub open spec fn lex_lt(a: Seq<u8>, b: Seq<u8>) -> bool
    decreases a.len(),
{
    if a.len() == 0 {
        b.len() > 0
    } else if b.len() == 0 {
        false
    } else if a[0] != b[0] {
        a[0] < b[0]
    } else {
        lex_lt(a.drop_first(), b.drop_first())
    }
}

/// The keys of a map, compared by their wire forms, strictly increase: each
/// key appears once, and the order is fixed by the keys alone.
pub open spec fn keys_sorted(m: Seq<(FrameModel, FrameModel)>) -> bool {
    forall|i: int, j: int|
        0 <= i < j < m.len() ==> lex_lt(#[trigger] encoding(m[i].0), #[trigger] encoding(m[j].0))
}

/// Where a key whose wire form is `ek` belongs: after every key that comes
/// before it.
pub open spec fn insert_pos(m: Seq<(FrameModel, FrameModel)>, ek: Seq<u8>) -> nat
    decreases m.len(),
{
    if m.len() == 0 {
        0
    } else if lex_lt(encoding(m[0].0), ek) {
        1 + insert_pos(m.drop_first(), ek)
    } else {
        0
    }
}

/// A map with the pair `(k, v)` put in: an equal key gets the new value, and
/// a new key goes to its place in the order.
pub open spec fn dict_insert(
    m: Seq<(FrameModel, FrameModel)>,
    k: FrameModel,
    v: FrameModel,
) -> Seq<(FrameModel, FrameModel)> {
    let p = insert_pos(m, encoding(k)) as int;
    if p < m.len() && encoding(m[p].0) == encoding(k) {
        m.update(p, (k, v))
    } else {
        m.insert(p, (k, v))
    }
}

pub proof fn lemma_lex_irreflexive(a: Seq<u8>)
    ensures
        !lex_lt(a, a),
    decreases a.len(),
{
    if a.len() > 0 {
        lemma_lex_irreflexive(a.drop_first());
    }
}

pub proof fn lemma_lex_transitive(a: Seq<u8>, b: Seq<u8>, c: Seq<u8>)
    requires
        lex_lt(a, b),
        lex_lt(b, c),
    ensures
        lex_lt(a, c),
    decreases a.len(),
{
    if a.len() > 0 && b.len() > 0 && c.len() > 0 && a[0] == b[0] && b[0] == c[0] {
        lemma_lex_transitive(a.drop_first(), b.drop_first(), c.drop_first());
    }
}

pub proof fn lemma_lex_total(a: Seq<u8>, b: Seq<u8>)
    ensures
        a == b || lex_lt(a, b) || lex_lt(b, a),
    decreases a.len(),
{
    if a.len() > 0 && b.len() > 0 && a[0] == b[0] {
        lemma_lex_total(a.drop_first(), b.drop_first());
        if a.drop_first() == b.drop_first() {
            assert(a =~= seq![a[0]] + a.drop_first());
            assert(b =~= seq![b[0]] + b.drop_first());
        }
    } else if a.len() == 0 && b.len() == 0 {
        assert(a =~= b);
    }
}

/// The place of a key: every key before it comes before it, the key there
/// does not.
pub proof fn lemma_insert_pos(m: Seq<(FrameModel, FrameModel)>, ek: Seq<u8>)
    ensures
        insert_pos(m, ek) <= m.len(),
        forall|j: int| 0 <= j < insert_pos(m, ek) ==> lex_lt(#[trigger] encoding(m[j].0), ek),
        insert_pos(m, ek) < m.len() ==> !lex_lt(encoding(m[insert_pos(m, ek) as int].0), ek),
    decreases m.len(),
{
    if m.len() > 0 && lex_lt(encoding(m[0].0), ek) {
        let t = m.drop_first();
        lemma_insert_pos(t, ek);
        assert forall|j: int| 0 <= j < insert_pos(m, ek) implies lex_lt(
            #[trigger] encoding(m[j].0),
            ek,
        ) by {
            if j > 0 {
                assert(m[j] == t[j - 1]);
            }
        }
        if insert_pos(m, ek) < m.len() {
            assert(m[insert_pos(m, ek) as int] == t[insert_pos(t, ek) as int]);
        }
    }
}

/// The place is the first index whose key does not come before the new one.
pub proof fn lemma_insert_pos_at(m: Seq<(FrameModel, FrameModel)>, ek: Seq<u8>, i: int)
    requires
        0 <= i <= m.len(),
        forall|j: int| 0 <= j < i ==> lex_lt(#[trigger] encoding(m[j].0), ek),
        i < m.len() ==> !lex_lt(encoding(m[i].0), ek),
    ensures
        insert_pos(m, ek) == i,
    decreases m.len(),
{
    if i > 0 {
        let t = m.drop_first();
        assert(lex_lt(encoding(m[0].0), ek));
        assert forall|j: int| 0 <= j < i - 1 implies lex_lt(#[trigger] encoding(t[j].0), ek) by {
            assert(t[j] == m[j + 1]);
        }
        if i - 1 < t.len() {
            assert(t[i - 1] == m[i]);
        }
        lemma_insert_pos_at(t, ek, i - 1);
    }
}

/// Putting a pair into a map with ordered keys keeps them ordered, and every
/// pair of the result is the new one or one of the map's.
pub proof fn lemma_dict_insert(m: Seq<(FrameModel, FrameModel)>, k: FrameModel, v: FrameModel)
    requires
        keys_sorted(m),
    ensures
        keys_sorted(dict_insert(m, k, v)),
        forall|i: int|
            0 <= i < dict_insert(m, k, v).len() ==> #[trigger] dict_insert(m, k, v)[i] == (k, v)
                || m.contains(dict_insert(m, k, v)[i]),
        (forall|j: int| 0 <= j < m.len() ==> lex_lt(#[trigger] encoding(m[j].0), encoding(k)))
            ==> dict_insert(m, k, v) == m.push((k, v)),
{
    let ek = encoding(k);
    lemma_insert_pos(m, ek);
    let p = insert_pos(m, ek) as int;
    let r = dict_insert(m, k, v);
    // every key at or after the place does not come before the new one
    assert forall|j: int| p <= j < m.len() implies !lex_lt(#[trigger] encoding(m[j].0), ek) by {
        if j > p {
            let a = encoding(m[p].0);
            let b = encoding(m[j].0);
            assert(lex_lt(a, b));
            lemma_lex_total(a, ek);
            if lex_lt(b, ek) {
                if a == ek {
                    lemma_lex_transitive(b, a, b);
                    lemma_lex_irreflexive(b);
                } else if lex_lt(ek, a) {
                    lemma_lex_transitive(b, ek, a);
                    lemma_lex_transitive(a, b, a);
                    lemma_lex_irreflexive(a);
                }
            }
        }
    }
    if p < m.len() && encoding(m[p].0) == ek {
        assert forall|i: int, j: int| 0 <= i < j < r.len() implies lex_lt(
            #[trigger] encoding(r[i].0),
            #[trigger] encoding(r[j].0),
        ) by {
            assert(encoding(r[i].0) == encoding(m[i].0));
            assert(encoding(r[j].0) == encoding(m[j].0));
        }
        assert forall|i: int| 0 <= i < r.len() implies #[trigger] r[i] == (k, v) || m.contains(
            r[i],
        ) by {
            if i != p {
                assert(r[i] == m[i]);
            }
        }
    } else {
        if p < m.len() {
            lemma_lex_total(encoding(m[p].0), ek);
        }
        assert forall|j: int| p <= j < m.len() implies lex_lt(ek, #[trigger] encoding(m[j].0)) by {
            lemma_lex_total(encoding(m[j].0), ek);
        }
        assert forall|i: int, j: int| 0 <= i < j < r.len() implies lex_lt(
            #[trigger] encoding(r[i].0),
            #[trigger] encoding(r[j].0),
        ) by {
            if j < p {
                assert(r[i] == m[i] && r[j] == m[j]);
            } else if j == p {
                assert(r[i] == m[i]);
            } else if i < p {
                assert(r[i] == m[i] && r[j] == m[j - 1]);
                lemma_lex_transitive(encoding(m[i].0), ek, encoding(m[j - 1].0));
            } else if i == p {
                assert(r[j] == m[j - 1]);
            } else {
                assert(r[i] == m[i - 1] && r[j] == m[j - 1]);
            }
        }
        assert forall|i: int| 0 <= i < r.len() implies #[trigger] r[i] == (k, v) || m.contains(
            r[i],
        ) by {
            if i < p {
                assert(r[i] == m[i]);
            } else if i > p {
                assert(r[i] == m[i - 1]);
            }
        }
    }
    if forall|j: int| 0 <= j < m.len() ==> lex_lt(#[trigger] encoding(m[j].0), ek) {
        lemma_insert_pos_at(m, ek, m.len() as int);
        assert(r =~= m.push((k, v)));
    }
}

/// Two maps with ordered keys that hold the same pairs are the same map, so
/// they encode alike whatever order their pairs were put in.
pub proof fn lemma_equal_maps_encode_alike(
    m1: Seq<(FrameModel, FrameModel)>,
    m2: Seq<(FrameModel, FrameModel)>,
)
    requires
        keys_sorted(m1),
        keys_sorted(m2),
        forall|x: (FrameModel, FrameModel)| m1.contains(x) <==> m2.contains(x),
    ensures
        m1 == m2,
        encoding(FrameModel::Dict(m1)) == encoding(FrameModel::Dict(m2)),
    decreases m1.len() + m2.len(),
{
    if m1.len() == 0 || m2.len() == 0 {
        if m1.len() > 0 {
            assert(m1.contains(m1[0]));
        }
        if m2.len() > 0 {
            assert(m2.contains(m2[0]));
        }
        assert(m1 =~= m2);
    } else {
        assert(m1.contains(m1[0]) && m2.contains(m2[0]));
        let i = choose|i: int| 0 <= i < m1.len() && m1[i] == m2[0];
        let j = choose|j: int| 0 <= j < m2.len() && m2[j] == m1[0];
        if i > 0 && j > 0 {
            let a = encoding(m1[0].0);
            let b = encoding(m2[0].0);
            assert(lex_lt(a, encoding(m1[i].0)));
            assert(lex_lt(b, encoding(m2[j].0)));
            lemma_lex_transitive(a, b, a);
            lemma_lex_irreflexive(a);
        }
        assert(m1[0] == m2[0]);
        let t1 = m1.drop_first();
        let t2 = m2.drop_first();
        assert forall|x: (FrameModel, FrameModel)| t1.contains(x) <==> t2.contains(x) by {
            if t1.contains(x) {
                let k = choose|k: int| 0 <= k < t1.len() && t1[k] == x;
                assert(m1[k + 1] == x);
                assert(m1.contains(x));
                let k2 = choose|k2: int| 0 <= k2 < m2.len() && m2[k2] == x;
                if k2 == 0 {
                    assert(lex_lt(encoding(m1[0].0), encoding(m1[k + 1].0)));
                    lemma_lex_irreflexive(encoding(x.0));
                }
                assert(t2[k2 - 1] == x);
            }
            if t2.contains(x) {
                let k = choose|k: int| 0 <= k < t2.len() && t2[k] == x;
                assert(m2[k + 1] == x);
                assert(m2.contains(x));
                let k2 = choose|k2: int| 0 <= k2 < m1.len() && m1[k2] == x;
                if k2 == 0 {
                    assert(lex_lt(encoding(m2[0].0), encoding(m2[k + 1].0)));
                    lemma_lex_irreflexive(encoding(x.0));
                }
                assert(t1[k2 - 1] == x);
            }
        }
        assert(keys_sorted(t1)) by {
            assert forall|a: int, b: int| 0 <= a < b < t1.len() implies lex_lt(
                #[trigger] encoding(t1[a].0),
                #[trigger] encoding(t1[b].0),
            ) by {
                assert(t1[a] == m1[a + 1] && t1[b] == m1[b + 1]);
            }
        }
        assert(keys_sorted(t2)) by {
            assert forall|a: int, b: int| 0 <= a < b < t2.len() implies lex_lt(
                #[trigger] encoding(t2[a].0),
                #[trigger] encoding(t2[b].0),
            ) by {
                assert(t2[a] == m2[a + 1] && t2[b] == m2[b + 1]);
            }
        }
        lemma_equal_maps_encode_alike(t1, t2);
        assert(m1 =~= seq![m1[0]] + t1);
        assert(m2 =~= seq![m2[0]] + t2);
    }
}

/// A line payload may not hold CR or LF.
pub open spec fn is_line_text(s: Seq<u8>) -> bool {
    forall|i: int| 0 <= i < s.len() ==> s[i] != CR && s[i] != LF
}

/// A frame that can be written and read back: simple and error texts hold no
/// CR or LF, at every depth, integers fit in 64 bits, counts in a `usize`, and
/// the keys of a map are distinct and in order.
pub open spec fn model_wf(f: FrameModel) -> bool
    decreases f,
{
    match f {
        FrameModel::Simple(s) => is_line_text(s),
        FrameModel::Error(s) => is_line_text(s),
        FrameModel::Integer(n) => i64::MIN <= n <= i64::MAX,
        FrameModel::Bulk(b) => b.len() <= usize::MAX,
        FrameModel::Array(v) => v.len() <= usize::MAX && seq_wf(v),
        FrameModel::Dict(m) => m.len() <= usize::MAX && pairs_wf(m) && keys_sorted(m),
        _ => true,
    }
}

pub open spec fn seq_wf(s: Seq<FrameModel>) -> bool
    decreases s,
{
    s.len() > 0 ==> model_wf(s[0]) && seq_wf(s.subrange(1, s.len() as int))
}

pub open spec fn pairs_wf(s: Seq<(FrameModel, FrameModel)>) -> bool
    decreases s,
{
    s.len() > 0 ==> model_wf(s[0].0) && model_wf(s[0].1) && pairs_wf(
        s.subrange(1, s.len() as int),
    )
}

/// The view of a sequence of frames is the sequence of their views.
pub proof fn lemma_models(s: Seq<Frame>)
    ensures
        models(s).len() == s.len(),
        forall|i: int| 0 <= i < s.len() ==> #[trigger] models(s)[i] == model(s[i]),
    decreases s.len(),
{
    if s.len() > 0 {
        lemma_models(s.subrange(0, s.len() - 1));
    }
}

pub proof fn lemma_pair_models(s: Seq<(Frame, Frame)>)
    ensures
        pair_models(s).len() == s.len(),
        forall|i: int|
            0 <= i < s.len() ==> #[trigger] pair_models(s)[i] == (model(s[i].0), model(s[i].1)),
    decreases s.len(),
{
    if s.len() > 0 {
        lemma_pair_models(s.subrange(0, s.len() - 1));
    }
}

/// Appends the decimal digits of `n`.
fn push_digits(out: &mut Vec<u8>, n: u64)
    ensures
        final(out)@ == old(out)@ + digits(n as nat),
    decreases n,
{
    if n >= 10 {
        push_digits(out, n / 10);
    }
    out.push((n % 10) as u8 + 48);
    proof {
        assert(final(out)@ =~= old(out)@ + digits(n as nat));
    }
}

/// Appends a tag byte, a decimal count and CRLF.
fn push_header(out: &mut Vec<u8>, tag: u8, n: usize)
    ensures
        final(out)@ == old(out)@ + header(tag, n as nat),
{
    out.push(tag);
    push_digits(out, n as u64);
    out.push(CR);
    out.push(LF);
    proof {
        assert(final(out)@ =~= old(out)@ + header(tag, n as nat));
    }
}

/// Appends a line: a tag byte, the payload and CRLF.
fn push_line(out: &mut Vec<u8>, tag: u8, payload: &Vec<u8>)
    ensures
        final(out)@ == old(out)@ + seq![tag] + payload@ + crlf(),
{
    out.push(tag);
    let mut i: usize = 0;
    while i < payload.len()
        invariant
            i <= payload.len(),
            out@ == old(out)@ + seq![tag] + payload@.subrange(0, i as int),
        decreases payload.len() - i,
    {
        out.push(payload[i]);
        proof {
            assert(payload@.subrange(0, i + 1) =~= payload@.subrange(0, i as int).push(payload@[i as int]));
        }
        i = i + 1;
    }
    out.push(CR);
    out.push(LF);
    proof {
        assert(payload@.subrange(0, i as int) =~= payload@);
        assert(final(out)@ =~= old(out)@ + seq![tag] + payload@ + crlf());
    }
}

/// Whether the bytes of `a` come strictly before those of `b`.
pub fn lex_less(a: &[u8], b: &[u8]) -> (r: bool)
    ensures
        r == lex_lt(a@, b@),
{
    let mut i: usize = 0;
    proof {
        assert(a@.subrange(0, a@.len() as int) =~= a@);
        assert(b@.subrange(0, b@.len() as int) =~= b@);
    }
    while i < a.len() && i < b.len()
        invariant
            i <= a@.len(),
            i <= b@.len(),
            lex_lt(a@, b@) == lex_lt(
                a@.subrange(i as int, a@.len() as int),
                b@.subrange(i as int, b@.len() as int),
            ),
        decreases a@.len() - i,
    {
        let ghost sa = a@.subrange(i as int, a@.len() as int);
        let ghost sb = b@.subrange(i as int, b@.len() as int);
        if a[i] != b[i] {
            proof {
                assert(sa[0] == a@[i as int] && sb[0] == b@[i as int]);
            }
            return a[i] < b[i];
        }
        proof {
            assert(sa[0] == sb[0]);
            assert(sa.drop_first() =~= a@.subrange(i + 1, a@.len() as int));
            assert(sb.drop_first() =~= b@.subrange(i + 1, b@.len() as int));
        }
        i = i + 1;
    }
    proof {
        let sa = a@.subrange(i as int, a@.len() as int);
        let sb = b@.subrange(i as int, b@.len() as int);
        assert(sa.len() == 0 || sb.len() == 0);
    }
    i == a.len() && i < b.len()
}

/// Where a key whose wire form is `ek` belongs among the pairs of a map.
fn key_place(items: &Vec<(Frame, Frame)>, ek: &Vec<u8>) -> (r: usize)
    ensures
        r == insert_pos(pair_models(items@), ek@),
        r <= items@.len(),
{
    let ghost pm = pair_models(items@);
    proof {
        lemma_pair_models(items@);
    }
    let mut i: usize = 0;
    while i < items.len()
        invariant
            i <= items@.len(),
            pm == pair_models(items@),
            pm.len() == items@.len(),
            forall|j: int|
                0 <= j < items@.len() ==> #[trigger] pm[j] == (
                    model(items@[j].0),
                    model(items@[j].1),
                ),
            forall|j: int| 0 <= j < i ==> lex_lt(#[trigger] encoding(pm[j].0), ek@),
        decreases items@.len() - i,
    {
        let ki = items[i].0.encode();
        if !lex_less(ki.as_slice(), ek.as_slice()) {
            proof {
                lemma_insert_pos_at(pm, ek@, i as int);
            }
            return i;
        }
        i = i + 1;
    }
    proof {
        lemma_insert_pos_at(pm, ek@, i as int);
    }
    i
}

/// Puts the pair `(key, value)` into the pairs of a map: an equal key gets
/// the new value, a new key goes to its place in the order.
pub fn dict_put(items: &mut Vec<(Frame, Frame)>, key: Frame, value: Frame)
    ensures
        pair_models(final(items)@) == dict_insert(pair_models(old(items)@), key@, value@),
        final(items)@.len() <= old(items)@.len() + 1,
{
    let ghost pm = pair_models(items@);
    let ek = key.encode();
    let p = key_place(items, &ek);
    let ghost kv = (key@, value@);
    proof {
        lemma_pair_models(items@);
    }
    if p < items.len() {
        let kp = items[p].0.encode();
        if bytes_eq(kp.as_slice(), ek.as_slice()) {
            let _ = items.remove(p);
            items.insert(p, (key, value));
            proof {
                lemma_pair_models(items@);
                assert(pair_models(items@) =~= pm.update(p as int, kv));
            }
            return;
        }
    }
    items.insert(p, (key, value));
    proof {
        lemma_pair_models(items@);
        assert(pair_models(items@) =~= pm.insert(p as int, kv));
    }
}

impl Frame {
    /// An empty array frame.
    pub fn array() -> (r: Frame)
        ensures
            r@ == FrameModel::Array(seq![]),
    {
        let r = Frame::Array(Vec::new());
        proof {
            assert(models(seq![]) =~= seq![]);
        }
        r
    }

    /// An empty map frame.
    pub fn map() -> (r: Frame)
        ensures
            r@ == FrameModel::Dict(seq![]),
    {
        let r = Frame::Dict(Vec::new());
        proof {
            assert(pair_models(seq![]) =~= seq![]);
        }
        r
    }

    /// Appends `frame` to an array frame; any other variant is left unchanged
    /// and refused.
    pub fn push_back(&mut self, frame: Frame) -> (r: Result<(), FrameError>)
        ensures
            match old(self)@ {
                FrameModel::Array(v) => r is Ok && final(self)@ == FrameModel::Array(v.push(frame@)),
                _ => r == Err::<(), FrameError>(FrameError::InvalidType) && *final(self) == *old(
                    self,
                ),
            },
    {
        match self {
            Frame::Array(frames) => {
                let ghost before = frames@;
                frames.push(frame);
                proof {
                    assert(frames@.subrange(0, frames@.len() - 1) =~= before);
                }
                Ok(())
            },
            _ => Err(FrameError::InvalidType),
        }
    }

    /// Puts the pair `key`, `value` into a map frame: an equal key gets the new
    /// value, a new key goes to its place in the order of keys. Any other
    /// variant is left unchanged and refused.
    pub fn add_map_frame(&mut self, key: Frame, value: Frame) -> (r: Result<(), FrameError>)
        ensures
            match old(self)@ {
                FrameModel::Dict(m) => r is Ok && final(self)@ == FrameModel::Dict(
                    dict_insert(m, key@, value@),
                ),
                _ => r == Err::<(), FrameError>(FrameError::InvalidType) && *final(self) == *old(
                    self,
                ),
            },
    {
        match self {
            Frame::Dict(frames) => {
                dict_put(frames, key, value);
                Ok(())
            },
            _ => Err(FrameError::InvalidType),
        }
    }

    /// The wire form of this frame.
    pub fn encode(&self) -> (r: Vec<u8>)
        ensures
            r@ == encoding(self@),
    {
        let mut out: Vec<u8> = Vec::new();
        self.encode_into(&mut out);
        proof {
            assert(out@ =~= encoding(self@));
        }
        out
    }

    /// Appends the wire form of this frame.
    pub fn encode_into(&self, out: &mut Vec<u8>)
        ensures
            final(out)@ == old(out)@ + encoding(self@),
        decreases self,
    {
        match self {
            Frame::Simple(s) => push_line(out, 43u8, s),
            Frame::Error(s) => push_line(out, 45u8, s),
            Frame::Integer(n) => {
                out.push(58u8);
                let m: u64 = if *n < 0 {
                    out.push(45u8);
                    (0i128 - (*n as i128)) as u64
                } else {
                    *n as u64
                };
                push_digits(out, m);
                out.push(CR);
                out.push(LF);
                proof {
                    assert(final(out)@ =~= old(out)@ + encoding(self@));
                }
            },
            Frame::Bulk(b) => {
                push_header(out, 36u8, b.len());
                let mut i: usize = 0;
                let ghost start = out@;
                while i < b.len()
                    invariant
                        i <= b.len(),
                        out@ == start + b@.subrange(0, i as int),
                    decreases b.len() - i,
                {
                    out.push(b[i]);
                    proof {
                        assert(b@.subrange(0, i + 1) =~= b@.subrange(0, i as int).push(b@[i as int]));
                    }
                    i = i + 1;
                }
                out.push(CR);
                out.push(LF);
                proof {
                    assert(b@.subrange(0, i as int) =~= b@);
                    assert(final(out)@ =~= old(out)@ + encoding(self@));
                }
            },
            Frame::Boolean(v) => {
                out.push(35u8);
                if *v {
                    out.push(116u8);
                } else {
                    out.push(102u8);
                }
                out.push(CR);
                out.push(LF);
                proof {
                    assert(final(out)@ =~= old(out)@ + encoding(self@));
                }
            },
            Frame::Null => {
                out.push(95u8);
                out.push(CR);
                out.push(LF);
                proof {
                    assert(final(out)@ =~= old(out)@ + encoding(self@));
                }
            },
            Frame::Array(v) => {
                push_header(out, 42u8, v.len());
                let ghost start = out@;
                proof {
                    lemma_models(v@);
                    assert(models(v@).subrange(0, v@.len() as int) =~= models(v@));
                }
                let mut i: usize = 0;
                while i < v.len()
                    invariant
                        i <= v.len(),
                        *self == Frame::Array(*v),
                        start == old(out)@ + header(42u8, v@.len()),
                        out@ + encoding_seq(models(v@).subrange(i as int, v@.len() as int)) == start
                            + encoding_seq(models(v@)),
                    decreases v.len() - i,
                {
                    proof {
                        lemma_models(v@);
                        let rest = models(v@).subrange(i as int, v@.len() as int);
                        assert(rest.subrange(1, rest.len() as int) =~= models(v@).subrange(
                            i + 1,
                            v@.len() as int,
                        ));
                        assert(decreases_to!(*self => self->Array_0));
                        assert(decreases_to!(self->Array_0 => self->Array_0@));
                        assert(decreases_to!(self->Array_0@ => self->Array_0@[i as int]));
                    }
                    v[i].encode_into(out);
                    i = i + 1;
                }
                proof {
                    assert(out@ =~= old(out)@ + encoding(self@));
                }
            },
            Frame::Dict(m) => {
                push_header(out, 37u8, m.len());
                let ghost start = out@;
                proof {
                    lemma_pair_models(m@);
                    assert(pair_models(m@).subrange(0, m@.len() as int) =~= pair_models(m@));
                }
                let mut i: usize = 0;
                while i < m.len()
                    invariant
                        i <= m.len(),
                        *self == Frame::Dict(*m),
                        start == old(out)@ + header(37u8, m@.len()),
                        out@ + encoding_pairs(pair_models(m@).subrange(i as int, m@.len() as int)) == start
                            + encoding_pairs(pair_models(m@)),
                    decreases m.len() - i,
                {
                    proof {
                        lemma_pair_models(m@);
                        let rest = pair_models(m@).subrange(i as int, m@.len() as int);
                        assert(rest.subrange(1, rest.len() as int) =~= pair_models(m@).subrange(
                            i + 1,
                            m@.len() as int,
                        ));
                        assert(decreases_to!(*self => self->Dict_0));
                        assert(decreases_to!(self->Dict_0 => self->Dict_0@));
                        assert(decreases_to!(self->Dict_0@ => self->Dict_0@[i as int]));
                        assert(decreases_to!(self->Dict_0@[i as int] => self->Dict_0@[i as int].0));
                        assert(decreases_to!(self->Dict_0@[i as int] => self->Dict_0@[i as int].1));
                    }
                    m[i].0.encode_into(out);
                    m[i].1.encode_into(out);
                    i = i + 1;
                }
                proof {
                    assert(out@ =~= old(out)@ + encoding(self@));
                }
            },
        }
    }
}

} // verus!
