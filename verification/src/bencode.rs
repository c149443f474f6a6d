//! Bencode: the value model, a decoder that mirrors a byte-level grammar, and
//! the canonical encoder.

use vstd::prelude::*;

verus! {

/// A decoded bencode value. A dictionary holds its entries sorted by key with
/// no key twice, as an ordered map of byte strings does.
#[derive(Debug)]
pub enum BencodeValue {
    Integer(i64),
    ByteString(Vec<u8>),
    List(Vec<BencodeValue>),
    Dictionary(Vec<(Vec<u8>, BencodeValue)>),
}

/// The mathematical model of a bencode value.
pub enum Bencode {
    Int(int),
    Bytes(Seq<u8>),
    List(Seq<Bencode>),
    Dict(Seq<(Seq<u8>, Bencode)>),
}

impl BencodeValue {
    pub open spec fn model(self) -> Bencode
        decreases self, 0nat,
    {
        match self {
            BencodeValue::Integer(i) => Bencode::Int(i as int),
            BencodeValue::ByteString(b) => Bencode::Bytes(b@),
            BencodeValue::List(l) => Bencode::List(model_list(l@)),
            BencodeValue::Dictionary(d) => Bencode::Dict(model_dict(d@)),
        }
    }
}

pub open spec fn model_list(l: Seq<BencodeValue>) -> Seq<Bencode>
    decreases l, 1nat,
{
    if l.len() == 0 {
        Seq::empty()
    } else {
        model_list(l.drop_last()).push(l.last().model())
    }
}

pub open spec fn model_dict(d: Seq<(Vec<u8>, BencodeValue)>) -> Seq<(Seq<u8>, Bencode)>
    decreases d, 1nat,
{
    if d.len() == 0 {
        Seq::empty()
    } else {
        model_dict(d.drop_last()).push((d.last().0@, d.last().1.model()))
    }
}

} // verus!

verus! {

/// Why decoding stopped.
#[derive(Debug, Clone, Copy, PartialEq, Eq, Structural)]
pub enum BencodeDecoderError {
    /// The data ended inside a value.
    UnexpectedEof,
    /// An integer is empty, has a leading zero, is `-0`, is not closed by `e`
    /// or does not fit in an `i64`.
    InvalidInteger,
    /// A string length is empty, has a leading zero or is not followed by `:`.
    InvalidStringLength,
    /// A dictionary key does not start like a byte string.
    NonStringKey,
    /// A value starts with a byte that starts no value.
    UnexpectedByte(u8),
}

/// Byte strings ordered as `Vec<u8>` orders them: lexicographically, a proper
/// prefix first.
pub open spec fn bytes_lt(a: Seq<u8>, b: Seq<u8>) -> bool
    decreases a.len(),
{
    if a.len() == 0 {
        b.len() > 0
    } else if b.len() == 0 {
        false
    } else if a[0] != b[0] {
        a[0] < b[0]
    } else {
        bytes_lt(a.drop_first(), b.drop_first())
    }
}

/// Inserting into a dictionary kept sorted by key, the new value replacing
/// the one of an equal key.
pub open spec fn dict_insert(d: Seq<(Seq<u8>, Bencode)>, k: Seq<u8>, v: Bencode) -> Seq<
    (Seq<u8>, Bencode),
>
    decreases d.len(),
{
    if d.len() == 0 {
        seq![(k, v)]
    } else if d[0].0 == k {
        seq![(k, v)] + d.drop_first()
    } else if bytes_lt(k, d[0].0) {
        seq![(k, v)] + d
    } else {
        seq![d[0]] + dict_insert(d.drop_first(), k, v)
    }
}

/// The value stored under `k`, if any.
pub open spec fn dict_get(d: Seq<(Seq<u8>, Bencode)>, k: Seq<u8>) -> Option<Bencode>
    decreases d.len(),
{
    if d.len() == 0 {
        None
    } else if d[0].0 == k {
        Some(d[0].1)
    } else {
        dict_get(d.drop_first(), k)
    }
}

pub open spec fn is_digit(b: u8) -> bool {
    48 <= b <= 57
}

pub open spec fn digit_of(b: u8) -> nat {
    if is_digit(b) {
        (b - 48) as nat
    } else {
        0
    }
}

/// The first position at or after `p` that does not hold a digit.
pub open spec fn digits_end(s: Seq<u8>, p: int) -> int
    decreases s.len() - p,
{
    if 0 <= p < s.len() && is_digit(s[p]) {
        digits_end(s, p + 1)
    } else {
        p
    }
}

/// The number written in decimal by `s[p..q]`.
pub open spec fn digits_value(s: Seq<u8>, p: int, q: int) -> nat
    decreases q - p,
{
    if q <= p {
        0
    } else {
        digits_value(s, p, q - 1) * 10 + digit_of(s[q - 1])
    }
}

/// `s[p..q]` is a canonical decimal: not empty, no leading zero but in `0`.
pub open spec fn canonical_digits(s: Seq<u8>, p: int, q: int) -> bool {
    p < q && (s[p] == 48 ==> q == p + 1)
}

/// A decoded value with the position just after it, or why decoding failed.
pub type Parsed = Result<(Bencode, int), BencodeDecoderError>;

/// An integer whose digits start at `p`, just after its `i`.
pub open spec fn parse_integer(s: Seq<u8>, p: int) -> Parsed {
    let neg = 0 <= p < s.len() && s[p] == 45;
    let d = if neg {
        p + 1
    } else {
        p
    };
    let q = digits_end(s, d);
    if q >= s.len() {
        Err(BencodeDecoderError::UnexpectedEof)
    } else if s[q] != 101 || !canonical_digits(s, d, q) || (neg && s[d] == 48) {
        Err(BencodeDecoderError::InvalidInteger)
    } else {
        let m = digits_value(s, d, q) as int;
        let v = if neg {
            -m
        } else {
            m
        };
        if i64::MIN <= v <= i64::MAX {
            Ok((Bencode::Int(v), q + 1))
        } else {
            Err(BencodeDecoderError::InvalidInteger)
        }
    }
}

/// A byte string whose length starts at `p`: the bytes and the position after them.
pub open spec fn parse_bytes(s: Seq<u8>, p: int) -> Result<(Seq<u8>, int), BencodeDecoderError> {
    let q = digits_end(s, p);
    if q >= s.len() {
        Err(BencodeDecoderError::UnexpectedEof)
    } else if s[q] != 58 || !canonical_digits(s, p, q) {
        Err(BencodeDecoderError::InvalidStringLength)
    } else {
        let n = digits_value(s, p, q) as int;
        if n > s.len() - (q + 1) {
            Err(BencodeDecoderError::UnexpectedEof)
        } else {
            Ok((s.subrange(q + 1, q + 1 + n), q + 1 + n))
        }
    }
}

/// The value that starts at `p`.
pub open spec fn parse_value(s: Seq<u8>, p: int) -> Parsed
    decreases s.len() - p, 0nat,
{
    if p < 0 || p >= s.len() {
        Err(BencodeDecoderError::UnexpectedEof)
    } else {
        let b = s[p];
        if b == 105 {
            parse_integer(s, p + 1)
        } else if is_digit(b) {
            match parse_bytes(s, p) {
                Ok((x, e)) => Ok((Bencode::Bytes(x), e)),
                Err(x) => Err(x),
            }
        } else if b == 108 {
            parse_list(s, p + 1, Seq::empty())
        } else if b == 100 {
            parse_dict(s, p + 1, Seq::empty())
        } else {
            Err(BencodeDecoderError::UnexpectedByte(b))
        }
    }
}

/// The rest of a list from `p`, `acc` holding the items before `p`.
pub open spec fn parse_list(s: Seq<u8>, p: int, acc: Seq<Bencode>) -> Parsed
    decreases s.len() - p, 1nat,
{
    if p < 0 || p >= s.len() {
        Err(BencodeDecoderError::UnexpectedEof)
    } else if s[p] == 101 {
        Ok((Bencode::List(acc), p + 1))
    } else {
        match parse_value(s, p) {
            Ok((v, e)) => if p < e <= s.len() {
                parse_list(s, e, acc.push(v))
            } else {
                Err(BencodeDecoderError::UnexpectedEof)
            },
            Err(x) => Err(x),
        }
    }
}

/// The rest of a dictionary from `p`, `acc` holding the entries before `p`.
pub open spec fn parse_dict(s: Seq<u8>, p: int, acc: Seq<(Seq<u8>, Bencode)>) -> Parsed
    decreases s.len() - p, 1nat,
{
    if p < 0 || p >= s.len() {
        Err(BencodeDecoderError::UnexpectedEof)
    } else if s[p] == 101 {
        Ok((Bencode::Dict(acc), p + 1))
    } else if !is_digit(s[p]) {
        Err(BencodeDecoderError::NonStringKey)
    } else {
        match parse_bytes(s, p) {
            Err(x) => Err(x),
            Ok((k, e1)) => if p < e1 <= s.len() {
                match parse_value(s, e1) {
                    Err(x) => Err(x),
                    Ok((v, e2)) => if e1 < e2 <= s.len() {
                        parse_dict(s, e2, dict_insert(acc, k, v))
                    } else {
                        Err(BencodeDecoderError::UnexpectedEof)
                    },
                }
            } else {
                Err(BencodeDecoderError::UnexpectedEof)
            },
        }
    }
}

} // verus!

verus! {

proof fn lemma_digits_end(s: Seq<u8>, p: int)
    requires
        0 <= p <= s.len(),
    ensures
        p <= digits_end(s, p) <= s.len(),
        forall|j: int| p <= j < digits_end(s, p) ==> is_digit(#[trigger] s[j]),
        digits_end(s, p) < s.len() ==> !is_digit(s[digits_end(s, p)]),
    decreases s.len() - p,
{
    if p < s.len() && is_digit(s[p]) {
        lemma_digits_end(s, p + 1);
    }
}

/// A longer run of digits is worth at least as much.
proof fn lemma_digits_value_mono(s: Seq<u8>, p: int, q1: int, q2: int)
    requires
        p <= q1 <= q2,
    ensures
        digits_value(s, p, q1) <= digits_value(s, p, q2),
    decreases q2 - q1,
{
    if q1 < q2 {
        lemma_digits_value_mono(s, p, q1, q2 - 1);
    }
}

proof fn lemma_parse_bytes_advances(s: Seq<u8>, p: int)
    requires
        0 <= p < s.len(),
    ensures
        parse_bytes(s, p) matches Ok((x, e)) ==> p < e <= s.len() && x == s.subrange(
            e - x.len(),
            e,
        ),
{
    lemma_digits_end(s, p);
}

proof fn lemma_parse_advances(s: Seq<u8>, p: int)
    ensures
        parse_value(s, p) matches Ok((v, e)) ==> p < e <= s.len(),
    decreases s.len() - p, 0nat,
{
    if 0 <= p < s.len() {
        let b = s[p];
        if b == 105 {
            lemma_digits_end(s, if p + 1 < s.len() && s[p + 1] == 45 { p + 2 } else { p + 1 });
        } else if is_digit(b) {
            lemma_parse_bytes_advances(s, p);
        } else if b == 108 {
            lemma_parse_list_advances(s, p + 1, Seq::empty());
        } else if b == 100 {
            lemma_parse_dict_advances(s, p + 1, Seq::empty());
        }
    }
}

proof fn lemma_parse_list_advances(s: Seq<u8>, p: int, acc: Seq<Bencode>)
    ensures
        parse_list(s, p, acc) matches Ok((v, e)) ==> p < e <= s.len(),
    decreases s.len() - p, 1nat,
{
    if 0 <= p < s.len() && s[p] != 101 {
        lemma_parse_advances(s, p);
        if let Ok((v, e)) = parse_value(s, p) {
            if p < e <= s.len() {
                lemma_parse_list_advances(s, e, acc.push(v));
            }
        }
    }
}

proof fn lemma_parse_dict_advances(s: Seq<u8>, p: int, acc: Seq<(Seq<u8>, Bencode)>)
    ensures
        parse_dict(s, p, acc) matches Ok((v, e)) ==> p < e <= s.len(),
    decreases s.len() - p, 1nat,
{
    if 0 <= p < s.len() && s[p] != 101 && is_digit(s[p]) {
        if let Ok((k, e1)) = parse_bytes(s, p) {
            if p < e1 <= s.len() {
                lemma_parse_advances(s, e1);
                if let Ok((v, e2)) = parse_value(s, e1) {
                    if e1 < e2 <= s.len() {
                        lemma_parse_dict_advances(s, e2, dict_insert(acc, k, v));
                    }
                }
            }
        }
    }
}

} // verus!

verus! {

pub proof fn lemma_bytes_lt_irreflexive(a: Seq<u8>)
    ensures
        !bytes_lt(a, a),
    decreases a.len(),
{
    if a.len() > 0 {
        lemma_bytes_lt_irreflexive(a.drop_first());
    }
}

pub proof fn lemma_bytes_lt_asymmetric(a: Seq<u8>, b: Seq<u8>)
    ensures
        bytes_lt(a, b) ==> !bytes_lt(b, a),
    decreases a.len(),
{
    if a.len() > 0 && b.len() > 0 && a[0] == b[0] {
        lemma_bytes_lt_asymmetric(a.drop_first(), b.drop_first());
    }
}

pub proof fn lemma_bytes_lt_total(a: Seq<u8>, b: Seq<u8>)
    ensures
        a != b ==> bytes_lt(a, b) || bytes_lt(b, a),
    decreases a.len(),
{
    if a.len() == 0 {
        if b.len() == 0 {
            assert(a =~= b);
        }
    } else if b.len() > 0 && a[0] == b[0] {
        lemma_bytes_lt_total(a.drop_first(), b.drop_first());
        if a.drop_first() == b.drop_first() {
            assert(a =~= seq![a[0]] + a.drop_first());
            assert(b =~= seq![b[0]] + b.drop_first());
        }
    }
}

pub proof fn lemma_bytes_lt_transitive(a: Seq<u8>, b: Seq<u8>, c: Seq<u8>)
    requires
        bytes_lt(a, b),
        bytes_lt(b, c),
    ensures
        bytes_lt(a, c),
    decreases a.len(),
{
    if a.len() > 0 && b.len() > 0 && c.len() > 0 && a[0] == b[0] && b[0] == c[0] {
        lemma_bytes_lt_transitive(a.drop_first(), b.drop_first(), c.drop_first());
    }
}

/// Entry-wise reading of the model of a list.
pub proof fn lemma_model_list(l: Seq<BencodeValue>)
    ensures
        model_list(l).len() == l.len(),
        forall|j: int| 0 <= j < l.len() ==> #[trigger] model_list(l)[j] == l[j].model(),
    decreases l.len(),
{
    if l.len() > 0 {
        lemma_model_list(l.drop_last());
    }
}

/// Entry-wise reading of the model of a dictionary.
pub proof fn lemma_model_dict(d: Seq<(Vec<u8>, BencodeValue)>)
    ensures
        model_dict(d).len() == d.len(),
        forall|j: int|
            0 <= j < d.len() ==> #[trigger] model_dict(d)[j] == (d[j].0@, d[j].1.model()),
    decreases d.len(),
{
    if d.len() > 0 {
        lemma_model_dict(d.drop_last());
    }
}

/// Inserting past keys that are all smaller.
proof fn lemma_dict_insert_skip(d: Seq<(Seq<u8>, Bencode)>, k: Seq<u8>, v: Bencode, i: int)
    requires
        0 <= i <= d.len(),
        forall|j: int| 0 <= j < i ==> bytes_lt(#[trigger] d[j].0, k),
    ensures
        dict_insert(d, k, v) == d.take(i) + dict_insert(d.skip(i), k, v),
    decreases i,
{
    if i == 0 {
        assert(d.skip(0) =~= d);
        assert(d.take(0) + dict_insert(d, k, v) =~= dict_insert(d, k, v));
    } else {
        lemma_bytes_lt_irreflexive(k);
        lemma_bytes_lt_asymmetric(d[0].0, k);
        assert(bytes_lt(d[0].0, k));
        let t = d.drop_first();
        assert forall|j: int| 0 <= j < i - 1 implies bytes_lt(#[trigger] t[j].0, k) by {
            assert(t[j] == d[j + 1]);
        }
        lemma_dict_insert_skip(t, k, v, i - 1);
        assert(t.skip(i - 1) =~= d.skip(i));
        assert(seq![d[0]] + t.take(i - 1) =~= d.take(i));
        assert(dict_insert(d, k, v) == seq![d[0]] + dict_insert(t, k, v));
        assert(dict_insert(d, k, v) =~= d.take(i) + dict_insert(d.skip(i), k, v));
    }
}

} // verus!

verus! {

/// The model of what the decoder returns.
pub open spec fn model_parsed(r: Result<(BencodeValue, usize), BencodeDecoderError>) -> Parsed {
    match r {
        Ok((v, e)) => Ok((v.model(), e as int)),
        Err(x) => Err(x),
    }
}

/// `a` sorts before `b`.
pub fn bytes_less(a: &[u8], b: &[u8]) -> (r: bool)
    ensures
        r == bytes_lt(a@, b@),
{
    let mut i: usize = 0;
    assert(a@.skip(0) =~= a@);
    assert(b@.skip(0) =~= b@);
    while i < a.len() && i < b.len()
        invariant
            i <= a@.len(),
            i <= b@.len(),
            bytes_lt(a@, b@) == bytes_lt(a@.skip(i as int), b@.skip(i as int)),
        decreases a@.len() - i,
    {
        if a[i] != b[i] {
            return a[i] < b[i];
        }
        assert(a@.skip(i as int).drop_first() =~= a@.skip(i + 1));
        assert(b@.skip(i as int).drop_first() =~= b@.skip(i + 1));
        i = i + 1;
    }
    i == a.len() && i < b.len()
}

/// `a` and `b` hold the same bytes.
pub fn bytes_equal(a: &[u8], b: &[u8]) -> (r: bool)
    ensures
        r == (a@ == b@),
{
    if a.len() != b.len() {
        return false;
    }
    let mut i: usize = 0;
    while i < a.len()
        invariant
            a@.len() == b@.len(),
            i <= a@.len(),
            forall|j: int| 0 <= j < i ==> a@[j] == b@[j],
        decreases a@.len() - i,
    {
        if a[i] != b[i] {
            return false;
        }
        i = i + 1;
    }
    assert(a@ =~= b@);
    true
}

/// Inserts `(k, v)` into a dictionary sorted by key, replacing an equal key.
pub fn dict_insert_entry(d: &mut Vec<(Vec<u8>, BencodeValue)>, k: Vec<u8>, v: BencodeValue)
    ensures
        model_dict(final(d)@) == dict_insert(model_dict(old(d)@), k@, v.model()),
{
    let ghost md = model_dict(d@);
    proof {
        lemma_model_dict(d@);
    }
    let mut i: usize = 0;
    while i < d.len() && bytes_less(d[i].0.as_slice(), k.as_slice())
        invariant
            i <= d@.len(),
            md == model_dict(d@),
            md.len() == d@.len(),
            forall|j: int| 0 <= j < d@.len() ==> #[trigger] md[j] == (d@[j].0@, d@[j].1.model()),
            forall|j: int| 0 <= j < i ==> bytes_lt(#[trigger] md[j].0, k@),
        decreases d@.len() - i,
    {
        i = i + 1;
    }
    proof {
        lemma_dict_insert_skip(md, k@, v.model(), i as int);
    }
    let ghost kv = k@;
    let ghost vm = v.model();
    if i < d.len() && bytes_equal(d[i].0.as_slice(), k.as_slice()) {
        let _ = d.remove(i);
        d.insert(i, (k, v));
        proof {
            lemma_model_dict(d@);
            assert(md.skip(i as int)[0].0 == kv);
            assert(dict_insert(md.skip(i as int), kv, vm) =~= seq![(kv, vm)] + md.skip(
                i as int,
            ).drop_first());
            assert(model_dict(d@) =~= md.take(i as int) + dict_insert(md.skip(i as int), kv, vm));
        }
    } else {
        proof {
            if i < md.len() {
                lemma_bytes_lt_total(md[i as int].0, kv);
                assert(md.skip(i as int)[0] == md[i as int]);
                assert(dict_insert(md.skip(i as int), kv, vm) =~= seq![(kv, vm)] + md.skip(
                    i as int,
                ));
            } else {
                assert(md.skip(i as int) =~= Seq::<(Seq<u8>, Bencode)>::empty());
            }
        }
        d.insert(i, (k, v));
        proof {
            lemma_model_dict(d@);
            assert(model_dict(d@) =~= md.take(i as int) + dict_insert(md.skip(i as int), kv, vm));
        }
    }
}

} // verus!

verus! {

/// The end of the run of digits that starts at `p`.
fn scan_digits(s: &[u8], p: usize) -> (q: usize)
    requires
        p <= s@.len(),
    ensures
        q == digits_end(s@, p as int),
{
    let mut q = p;
    while q < s.len() && 48 <= s[q] && s[q] <= 57
        invariant
            p <= q <= s@.len(),
            digits_end(s@, p as int) == digits_end(s@, q as int),
        decreases s@.len() - q,
    {
        q = q + 1;
    }
    q
}

/// The number written by the digits `s[p..q]` if it is at most `limit`.
fn bounded_digits_value(s: &[u8], p: usize, q: usize, limit: u128) -> (r: Option<u128>)
    requires
        p <= q <= s@.len(),
        limit <= 0x1_0000_0000_0000_0000,
        forall|j: int| p <= j < q ==> is_digit(#[trigger] s@[j]),
    ensures
        r matches Some(v) ==> v == digits_value(s@, p as int, q as int) && v <= limit,
        r is None ==> digits_value(s@, p as int, q as int) > limit,
{
    let mut v: u128 = 0;
    let mut j = p;
    while j < q
        invariant
            p <= j <= q,
            q <= s@.len(),
            limit <= 0x1_0000_0000_0000_0000,
            forall|i: int| p <= i < q ==> is_digit(#[trigger] s@[i]),
            v == digits_value(s@, p as int, j as int),
            v <= limit,
        decreases q - j,
    {
        assert(is_digit(s@[j as int]));
        v = v * 10 + (s[j] - 48) as u128;
        j = j + 1;
        if v > limit {
            proof {
                lemma_digits_value_mono(s@, p as int, j as int, q as int);
            }
            return None;
        }
    }
    Some(v)
}

/// Copies `s[from..to]`.
fn copy_range(s: &[u8], from: usize, to: usize) -> (r: Vec<u8>)
    requires
        from <= to <= s@.len(),
    ensures
        r@ == s@.subrange(from as int, to as int),
{
    let mut r: Vec<u8> = Vec::new();
    let mut j = from;
    while j < to
        invariant
            from <= j <= to,
            to <= s@.len(),
            r@ == s@.subrange(from as int, j as int),
        decreases to - j,
    {
        r.push(s[j]);
        j = j + 1;
        assert(r@ =~= s@.subrange(from as int, j as int));
    }
    r
}

/// Decodes the byte string whose length starts at `p`.
fn decode_bytes(s: &[u8], p: usize) -> (r: Result<(Vec<u8>, usize), BencodeDecoderError>)
    requires
        p < s@.len(),
    ensures
        match (r, parse_bytes(s@, p as int)) {
            (Ok((x, e)), Ok((sx, se))) => x@ == sx && e == se,
            (Err(x), Err(sx)) => x == sx,
            _ => false,
        },
{
    proof {
        lemma_digits_end(s@, p as int);
    }
    let q = scan_digits(s, p);
    if q >= s.len() {
        return Err(BencodeDecoderError::UnexpectedEof);
    }
    if s[q] != 58 || q == p || (s[p] == 48 && q != p + 1) {
        return Err(BencodeDecoderError::InvalidStringLength);
    }
    let room = s.len() - (q + 1);
    match bounded_digits_value(s, p, q, room as u128) {
        None => Err(BencodeDecoderError::UnexpectedEof),
        Some(n) => {
            let n = n as usize;
            let x = copy_range(s, q + 1, q + 1 + n);
            Ok((x, q + 1 + n))
        },
    }
}

/// Decodes the integer whose digits start at `p`, just after its `i`.
fn decode_integer(s: &[u8], p: usize) -> (r: Result<(BencodeValue, usize), BencodeDecoderError>)
    requires
        p <= s@.len(),
    ensures
        model_parsed(r) == parse_integer(s@, p as int),
{
    let neg = p < s.len() && s[p] == 45;
    let d = if neg {
        p + 1
    } else {
        p
    };
    proof {
        lemma_digits_end(s@, d as int);
    }
    let q = scan_digits(s, d);
    if q >= s.len() {
        return Err(BencodeDecoderError::UnexpectedEof);
    }
    if s[q] != 101 || q == d || (s[d] == 48 && q != d + 1) || (neg && s[d] == 48) {
        return Err(BencodeDecoderError::InvalidInteger);
    }
    let limit: u128 = if neg {
        0x8000_0000_0000_0000
    } else {
        0x7fff_ffff_ffff_ffff
    };
    match bounded_digits_value(s, d, q, limit) {
        None => Err(BencodeDecoderError::InvalidInteger),
        Some(m) => {
            let v: i64 = if !neg {
                m as i64
            } else if m == 0x8000_0000_0000_0000 {
                i64::MIN
            } else {
                -(m as i64)
            };
            Ok((BencodeValue::Integer(v), q + 1))
        },
    }
}

} // verus!

verus! {

/// Decodes the value that starts at `p`; returns it with the position after it.
pub fn decode_at(s: &[u8], p: usize) -> (r: Result<(BencodeValue, usize), BencodeDecoderError>)
    requires
        p <= s@.len(),
    ensures
        model_parsed(r) == parse_value(s@, p as int),
    decreases s@.len() - p, 0nat,
{
    if p >= s.len() {
        return Err(BencodeDecoderError::UnexpectedEof);
    }
    let b = s[p];
    if b == 105 {
        decode_integer(s, p + 1)
    } else if 48 <= b && b <= 57 {
        match decode_bytes(s, p) {
            Ok((x, e)) => Ok((BencodeValue::ByteString(x), e)),
            Err(x) => Err(x),
        }
    } else if b == 108 {
        decode_list(s, p + 1)
    } else if b == 100 {
        decode_dict(s, p + 1)
    } else {
        Err(BencodeDecoderError::UnexpectedByte(b))
    }
}

/// Decodes the items of a list from `p`, just after its `l`.
fn decode_list(s: &[u8], p: usize) -> (r: Result<(BencodeValue, usize), BencodeDecoderError>)
    requires
        p <= s@.len(),
    ensures
        model_parsed(r) == parse_list(s@, p as int, Seq::empty()),
    decreases s@.len() - p, 1nat,
{
    let mut acc: Vec<BencodeValue> = Vec::new();
    let mut cur = p;
    assert(model_list(acc@) =~= Seq::<Bencode>::empty());
    loop
        invariant
            p <= cur <= s@.len(),
            parse_list(s@, p as int, Seq::empty()) == parse_list(
                s@,
                cur as int,
                model_list(acc@),
            ),
        decreases s@.len() - cur,
    {
        if cur >= s.len() {
            return Err(BencodeDecoderError::UnexpectedEof);
        }
        if s[cur] == 101 {
            return Ok((BencodeValue::List(acc), cur + 1));
        }
        proof {
            lemma_parse_advances(s@, cur as int);
        }
        match decode_at(s, cur) {
            Err(x) => {
                return Err(x);
            },
            Ok((v, e)) => {
                let ghost before = acc@;
                acc.push(v);
                assert(acc@.drop_last() =~= before);
                cur = e;
            },
        }
    }
}

/// Decodes the entries of a dictionary from `p`, just after its `d`.
fn decode_dict(s: &[u8], p: usize) -> (r: Result<(BencodeValue, usize), BencodeDecoderError>)
    requires
        p <= s@.len(),
    ensures
        model_parsed(r) == parse_dict(s@, p as int, Seq::empty()),
    decreases s@.len() - p, 1nat,
{
    let mut acc: Vec<(Vec<u8>, BencodeValue)> = Vec::new();
    let mut cur = p;
    assert(model_dict(acc@) =~= Seq::<(Seq<u8>, Bencode)>::empty());
    loop
        invariant
            p <= cur <= s@.len(),
            parse_dict(s@, p as int, Seq::empty()) == parse_dict(
                s@,
                cur as int,
                model_dict(acc@),
            ),
        decreases s@.len() - cur,
    {
        if cur >= s.len() {
            return Err(BencodeDecoderError::UnexpectedEof);
        }
        if s[cur] == 101 {
            return Ok((BencodeValue::Dictionary(acc), cur + 1));
        }
        if !(48 <= s[cur] && s[cur] <= 57) {
            return Err(BencodeDecoderError::NonStringKey);
        }
        proof {
            lemma_parse_bytes_advances(s@, cur as int);
        }
        match decode_bytes(s, cur) {
            Err(x) => {
                return Err(x);
            },
            Ok((k, e1)) => {
                proof {
                    lemma_parse_advances(s@, e1 as int);
                }
                match decode_at(s, e1) {
                    Err(x) => {
                        return Err(x);
                    },
                    Ok((v, e2)) => {
                        dict_insert_entry(&mut acc, k, v);
                        cur = e2;
                    },
                }
            },
        }
    }
}

} // verus!

verus! {

/// The ASCII decimal digits of `n`, most significant first.
pub open spec fn decimal_bytes(n: nat) -> Seq<u8>
    decreases n,
{
    if n < 10 {
        seq![(n + 48) as u8]
    } else {
        decimal_bytes(n / 10).push(((n % 10) + 48) as u8)
    }
}

/// The ASCII decimal text of an integer, with `-` when it is negative.
pub open spec fn integer_text(i: int) -> Seq<u8> {
    if i < 0 {
        seq![45u8] + decimal_bytes((-i) as nat)
    } else {
        decimal_bytes(i as nat)
    }
}

/// A byte string in bencode: its length, `:`, its bytes.
pub open spec fn encode_bytes(b: Seq<u8>) -> Seq<u8> {
    decimal_bytes(b.len()) + seq![58u8] + b
}

/// The canonical bencode encoding of a value.
pub open spec fn encode(v: Bencode) -> Seq<u8>
    decreases v, 0nat,
{
    match v {
        Bencode::Int(i) => seq![105u8] + integer_text(i) + seq![101u8],
        Bencode::Bytes(b) => encode_bytes(b),
        Bencode::List(l) => seq![108u8] + encode_items(l) + seq![101u8],
        Bencode::Dict(d) => seq![100u8] + encode_entries(d) + seq![101u8],
    }
}

/// The encodings of the items of a list, one after another.
pub open spec fn encode_items(l: Seq<Bencode>) -> Seq<u8>
    decreases l, 1nat,
{
    if l.len() == 0 {
        Seq::empty()
    } else {
        encode_items(l.drop_last()) + encode(l.last())
    }
}

/// The encodings of the entries of a dictionary, key then value, in order.
pub open spec fn encode_entries(d: Seq<(Seq<u8>, Bencode)>) -> Seq<u8>
    decreases d, 1nat,
{
    if d.len() == 0 {
        Seq::empty()
    } else {
        encode_entries(d.drop_last()) + encode_bytes(d.last().0) + encode(d.last().1)
    }
}

/// Appends the ASCII decimal digits of `n`.
fn push_decimal_bytes(out: &mut Vec<u8>, n: u64)
    ensures
        final(out)@ == old(out)@ + decimal_bytes(n as nat),
    decreases n,
{
    let ghost start = out@;
    if n >= 10 {
        push_decimal_bytes(out, n / 10);
    }
    out.push(((n % 10) as u8) + 48);
    assert(out@ =~= start + decimal_bytes(n as nat));
}

/// Appends a byte string in bencode.
fn push_encoded_bytes(out: &mut Vec<u8>, b: &[u8])
    ensures
        final(out)@ == old(out)@ + encode_bytes(b@),
{
    let ghost start = out@;
    push_decimal_bytes(out, b.len() as u64);
    out.push(58);
    let mut j: usize = 0;
    while j < b.len()
        invariant
            j <= b@.len(),
            out@ == start + decimal_bytes(b@.len()) + seq![58u8] + b@.take(j as int),
        decreases b@.len() - j,
    {
        out.push(b[j]);
        j = j + 1;
        assert(out@ =~= start + decimal_bytes(b@.len()) + seq![58u8] + b@.take(j as int));
    }
    assert(b@.take(j as int) =~= b@);
    assert(out@ =~= start + encode_bytes(b@));
}

/// Appends the canonical bencode encoding of `v`.
pub fn encode_bencode_value(v: &BencodeValue, out: &mut Vec<u8>)
    ensures
        final(out)@ == old(out)@ + encode(v.model()),
    decreases v,
{
    let ghost start = out@;
    match v {
        BencodeValue::Integer(i) => {
            out.push(105);
            if *i < 0 {
                out.push(45);
                let m: u64 = if *i == i64::MIN {
                    0x8000_0000_0000_0000
                } else {
                    (-*i) as u64
                };
                push_decimal_bytes(out, m);
            } else {
                push_decimal_bytes(out, *i as u64);
            }
            out.push(101);
            assert(out@ =~= start + encode(v.model()));
        },
        BencodeValue::ByteString(b) => {
            push_encoded_bytes(out, b.as_slice());
        },
        BencodeValue::List(l) => {
            out.push(108);
            proof {
                lemma_model_list(l@);
            }
            let ghost ml = model_list(l@);
            let mut i: usize = 0;
            assert(ml.take(0) =~= Seq::<Bencode>::empty());
            #[verifier::loop_isolation(false)]
            while i < l.len()
                invariant
                    i <= l@.len(),
                    ml == model_list(l@),
                    ml.len() == l@.len(),
                    forall|j: int| 0 <= j < l@.len() ==> #[trigger] ml[j] == l@[j].model(),
                    out@ == start + seq![108u8] + encode_items(ml.take(i as int)),
                decreases l@.len() - i,
            {
                proof {
                    assert(decreases_to!(*v => *l));
                    assert(decreases_to!(*l => l@));
                    assert(decreases_to!(l@ => l@[i as int]));
                }
                encode_bencode_value(&l[i], out);
                assert(ml.take(i + 1).drop_last() =~= ml.take(i as int));
                i = i + 1;
                assert(out@ =~= start + seq![108u8] + encode_items(ml.take(i as int)));
            }
            out.push(101);
            assert(ml.take(i as int) =~= ml);
            assert(out@ =~= start + encode(v.model()));
        },
        BencodeValue::Dictionary(d) => {
            out.push(100);
            proof {
                lemma_model_dict(d@);
            }
            let ghost md = model_dict(d@);
            let mut i: usize = 0;
            assert(md.take(0) =~= Seq::<(Seq<u8>, Bencode)>::empty());
            #[verifier::loop_isolation(false)]
            while i < d.len()
                invariant
                    i <= d@.len(),
                    md == model_dict(d@),
                    md.len() == d@.len(),
                    forall|j: int|
                        0 <= j < d@.len() ==> #[trigger] md[j] == (d@[j].0@, d@[j].1.model()),
                    out@ == start + seq![100u8] + encode_entries(md.take(i as int)),
                decreases d@.len() - i,
            {
                push_encoded_bytes(out, d[i].0.as_slice());
                proof {
                    assert(decreases_to!(*v => *d));
                    assert(decreases_to!(*d => d@));
                    assert(decreases_to!(d@ => d@[i as int]));
                    assert(decreases_to!(d@[i as int] => d@[i as int].1));
                }
                encode_bencode_value(&d[i].1, out);
                assert(md.take(i + 1).drop_last() =~= md.take(i as int));
                i = i + 1;
                assert(out@ =~= start + seq![100u8] + encode_entries(md.take(i as int)));
            }
            out.push(101);
            assert(md.take(i as int) =~= md);
            assert(out@ =~= start + encode(v.model()));
        },
    }
}

/// The value stored under `key` in a dictionary.
pub fn dict_lookup<'a>(d: &'a Vec<(Vec<u8>, BencodeValue)>, key: &[u8]) -> (r: Option<
    &'a BencodeValue,
>)
    ensures
        match r {
            Some(v) => dict_get(model_dict(d@), key@) == Some(v.model()),
            None => dict_get(model_dict(d@), key@) is None,
        },
{
    proof {
        lemma_model_dict(d@);
    }
    let ghost md = model_dict(d@);
    let mut i: usize = 0;
    assert(md.skip(0) =~= md);
    while i < d.len()
        invariant
            i <= d@.len(),
            md == model_dict(d@),
            md.len() == d@.len(),
            forall|j: int| 0 <= j < d@.len() ==> #[trigger] md[j] == (d@[j].0@, d@[j].1.model()),
            dict_get(md, key@) == dict_get(md.skip(i as int), key@),
        decreases d@.len() - i,
    {
        if bytes_equal(d[i].0.as_slice(), key) {
            assert(md.skip(i as int)[0] == md[i as int]);
            assert(md[i as int] == (d@[i as int].0@, d@[i as int].1.model()));
            let r = &d[i].1;
            assert(r.model() == d@[i as int].1.model());
            return Some(r);
        }
        assert(md.skip(i as int).drop_first() =~= md.skip(i + 1));
        i = i + 1;
    }
    None
}

} // verus!

verus! {

/// Reads bencode values one after another from a byte slice.
pub struct BencodeDecoder<'a> {
    data: &'a [u8],
    pos: usize,
}

impl<'a> BencodeDecoder<'a> {
    #[verifier::type_invariant]
    spec fn inv(self) -> bool {
        self.pos <= self.data@.len()
    }

    /// The bytes being read.
    pub closed spec fn input(self) -> Seq<u8> {
        self.data@
    }

    /// Where the next value starts.
    pub closed spec fn position(self) -> int {
        self.pos as int
    }

    /// A decoder at the start of `data`.
    pub fn new(data: &'a [u8]) -> (r: Self)
        ensures
            r.input() == data@,
            r.position() == 0,
    {
        BencodeDecoder { data, pos: 0 }
    }

    /// Decodes the next value and moves past it; on an error the position stays.
    pub fn decode(&mut self) -> (r: Result<BencodeValue, BencodeDecoderError>)
        ensures
            final(self).input() == old(self).input(),
            match parse_value(old(self).input(), old(self).position()) {
                Ok((v, e)) => r matches Ok(x) && x.model() == v && final(self).position() == e,
                Err(x) => r == Err::<BencodeValue, _>(x) && final(self).position()
                    == old(self).position(),
            },
    {
        proof {
            use_type_invariant(&*self);
        }
        let data = self.data;
        match decode_at(data, self.pos) {
            Ok((v, e)) => {
                proof {
                    lemma_parse_advances(data@, self.pos as int);
                }
                self.pos = e;
                Ok(v)
            },
            Err(x) => Err(x),
        }
    }
}

} // verus!

verus! {

/// The keys of a dictionary strictly increase.
pub open spec fn sorted_keys(d: Seq<(Seq<u8>, Bencode)>) -> bool {
    forall|i: int, j: int| 0 <= i < j < d.len() ==> bytes_lt(d[i].0, d[j].0)
}

/// A value the decoder can return: integers fit in an `i64` and every
/// dictionary has strictly increasing keys.
pub open spec fn well_formed(v: Bencode) -> bool
    decreases v,
{
    match v {
        Bencode::Int(i) => i64::MIN <= i <= i64::MAX,
        Bencode::Bytes(_) => true,
        Bencode::List(l) => forall|j: int| 0 <= j < l.len() ==> well_formed(#[trigger] l[j]),
        Bencode::Dict(d) => sorted_keys(d) && forall|j: int|
            0 <= j < d.len() ==> well_formed(#[trigger] d[j].1),
    }
}

/// Inserting keeps the keys sorted, and every entry comes from the
/// dictionary or is the new one.
proof fn lemma_dict_insert_sorted(d: Seq<(Seq<u8>, Bencode)>, k: Seq<u8>, v: Bencode)
    requires
        sorted_keys(d),
    ensures
        sorted_keys(dict_insert(d, k, v)),
        forall|i: int|
            0 <= i < dict_insert(d, k, v).len() ==> #[trigger] dict_insert(d, k, v)[i] == (k, v)
                || d.contains(dict_insert(d, k, v)[i]),
        forall|i: int|
            0 <= i < dict_insert(d, k, v).len() ==> #[trigger] dict_insert(d, k, v)[i].0 == k
                || exists|j: int| 0 <= j < d.len() && dict_insert(d, k, v)[i].0 == d[j].0,
    decreases d.len(),
{
    let r = dict_insert(d, k, v);
    if d.len() == 0 {
    } else if d[0].0 == k {
        assert forall|i: int, j: int| 0 <= i < j < r.len() implies bytes_lt(r[i].0, r[j].0) by {
            assert(r[j] == d[j]);
            if i > 0 {
                assert(r[i] == d[i]);
            }
        }
        assert forall|i: int| 0 <= i < r.len() implies r[i] == (k, v) || d.contains(r[i]) by {
            if i > 0 {
                assert(r[i] == d[i]);
            }
        }
        assert forall|i: int| 0 <= i < r.len() implies r[i].0 == k || exists|j: int|
            0 <= j < d.len() && r[i].0 == d[j].0 by {
            if i > 0 {
                assert(r[i] == d[i]);
            }
        }
    } else if bytes_lt(k, d[0].0) {
        assert forall|i: int, j: int| 0 <= i < j < r.len() implies bytes_lt(r[i].0, r[j].0) by {
            assert(r[j] == d[j - 1]);
            if i > 0 {
                assert(r[i] == d[i - 1]);
            } else if j > 1 {
                lemma_bytes_lt_transitive(k, d[0].0, d[j - 1].0);
            }
        }
        assert forall|i: int| 0 <= i < r.len() implies r[i] == (k, v) || d.contains(r[i]) by {
            if i > 0 {
                assert(r[i] == d[i - 1]);
            }
        }
        assert forall|i: int| 0 <= i < r.len() implies r[i].0 == k || exists|j: int|
            0 <= j < d.len() && r[i].0 == d[j].0 by {
            if i > 0 {
                assert(r[i] == d[i - 1]);
            }
        }
    } else {
        let t = d.drop_first();
        assert(sorted_keys(t)) by {
            assert forall|i: int, j: int| 0 <= i < j < t.len() implies bytes_lt(t[i].0, t[j].0) by {
                assert(t[i] == d[i + 1]);
                assert(t[j] == d[j + 1]);
            }
        }
        lemma_dict_insert_sorted(t, k, v);
        let rt = dict_insert(t, k, v);
        assert(r == seq![d[0]] + rt);
        lemma_bytes_lt_total(d[0].0, k);
        assert forall|i: int, j: int| 0 <= i < j < r.len() implies bytes_lt(r[i].0, r[j].0) by {
            assert(r[j] == rt[j - 1]);
            if i > 0 {
                assert(r[i] == rt[i - 1]);
            } else {
                assert(r[i] == d[0]);
                if rt[j - 1].0 != k {
                    let w = choose|w: int| 0 <= w < t.len() && rt[j - 1].0 == t[w].0;
                    assert(t[w] == d[w + 1]);
                }
            }
        }
        assert forall|i: int| 0 <= i < r.len() implies r[i] == (k, v) || d.contains(r[i]) by {
            if i > 0 {
                assert(r[i] == rt[i - 1]);
                if r[i] != (k, v) {
                    let w = choose|w: int| 0 <= w < t.len() && t[w] == r[i];
                    assert(d[w + 1] == r[i]);
                }
            } else {
                assert(d[0] == r[0]);
            }
        }
        assert forall|i: int| 0 <= i < r.len() implies r[i].0 == k || exists|j: int|
            0 <= j < d.len() && r[i].0 == d[j].0 by {
            if i > 0 {
                assert(r[i] == rt[i - 1]);
                if r[i].0 != k {
                    let w = choose|w: int| 0 <= w < t.len() && rt[i - 1].0 == t[w].0;
                    assert(d[w + 1].0 == r[i].0);
                }
            } else {
                assert(d[0].0 == r[0].0);
            }
        }
    }
}

} // verus!

verus! {

/// Every value the decoder returns is well formed: its integers fit in an
/// `i64` and its dictionaries have strictly increasing keys.
pub proof fn lemma_parse_well_formed(s: Seq<u8>, p: int)
    ensures
        parse_value(s, p) matches Ok((v, _)) ==> well_formed(v),
    decreases s.len() - p, 0nat,
{
    if 0 <= p < s.len() {
        let b = s[p];
        if b == 108 {
            lemma_parse_list_well_formed(s, p + 1, Seq::empty());
        } else if b == 100 {
            lemma_parse_dict_well_formed(s, p + 1, Seq::empty());
        }
    }
}

proof fn lemma_parse_list_well_formed(s: Seq<u8>, p: int, acc: Seq<Bencode>)
    requires
        forall|j: int| 0 <= j < acc.len() ==> well_formed(#[trigger] acc[j]),
    ensures
        parse_list(s, p, acc) matches Ok((v, _)) ==> well_formed(v),
    decreases s.len() - p, 1nat,
{
    if 0 <= p < s.len() && s[p] != 101 {
        lemma_parse_well_formed(s, p);
        if let Ok((v, e)) = parse_value(s, p) {
            if p < e <= s.len() {
                let a = acc.push(v);
                assert forall|j: int| 0 <= j < a.len() implies well_formed(#[trigger] a[j]) by {
                    if j < acc.len() {
                        assert(a[j] == acc[j]);
                    }
                }
                lemma_parse_list_well_formed(s, e, a);
            }
        }
    }
}

proof fn lemma_parse_dict_well_formed(s: Seq<u8>, p: int, acc: Seq<(Seq<u8>, Bencode)>)
    requires
        sorted_keys(acc),
        forall|j: int| 0 <= j < acc.len() ==> well_formed(#[trigger] acc[j].1),
    ensures
        parse_dict(s, p, acc) matches Ok((v, _)) ==> well_formed(v),
    decreases s.len() - p, 1nat,
{
    if 0 <= p < s.len() && s[p] != 101 && is_digit(s[p]) {
        if let Ok((k, e1)) = parse_bytes(s, p) {
            if p < e1 <= s.len() {
                lemma_parse_well_formed(s, e1);
                if let Ok((v, e2)) = parse_value(s, e1) {
                    if e1 < e2 <= s.len() {
                        lemma_dict_insert_sorted(acc, k, v);
                        let a = dict_insert(acc, k, v);
                        assert forall|j: int| 0 <= j < a.len() implies well_formed(
                            #[trigger] a[j].1,
                        ) by {
                            if a[j] != (k, v) {
                                let w = choose|w: int| 0 <= w < acc.len() && acc[w] == a[j];
                                assert(well_formed(acc[w].1));
                            }
                        }
                        lemma_parse_dict_well_formed(s, e2, a);
                    }
                }
            }
        }
    }
}

} // verus!

verus! {

/// `x` stands in `s` from position `p` on.
pub open spec fn occurs_at(s: Seq<u8>, p: int, x: Seq<u8>) -> bool {
    0 <= p && p + x.len() <= s.len() && s.subrange(p, p + x.len()) == x
}

proof fn lemma_occurs_index(s: Seq<u8>, p: int, x: Seq<u8>)
    requires
        occurs_at(s, p, x),
    ensures
        forall|j: int| 0 <= j < x.len() ==> s[p + j] == #[trigger] x[j],
{
    assert forall|j: int| 0 <= j < x.len() implies s[p + j] == #[trigger] x[j] by {
        assert(s.subrange(p, p + x.len())[j] == s[p + j]);
    }
}

proof fn lemma_occurs_split(s: Seq<u8>, p: int, a: Seq<u8>, b: Seq<u8>)
    requires
        occurs_at(s, p, a + b),
    ensures
        occurs_at(s, p, a),
        occurs_at(s, p + a.len(), b),
{
    let t = s.subrange(p, p + (a + b).len());
    assert forall|j: int| 0 <= j < a.len() implies s.subrange(p, p + a.len())[j] == a[j] by {
        assert(t[j] == s[p + j]);
        assert((a + b)[j] == a[j]);
    }
    assert(s.subrange(p, p + a.len()) =~= a);
    assert forall|j: int| 0 <= j < b.len() implies s.subrange(p + a.len(), p + a.len() + b.len())[j]
        == b[j] by {
        assert(t[a.len() + j] == s[p + a.len() + j]);
        assert((a + b)[a.len() + j] == b[j]);
    }
    assert(s.subrange(p + a.len(), p + a.len() + b.len()) =~= b);
}

proof fn lemma_decimal_bytes(n: nat)
    ensures
        decimal_bytes(n).len() >= 1,
        forall|j: int|
            0 <= j < decimal_bytes(n).len() ==> is_digit(#[trigger] decimal_bytes(n)[j]),
        n > 0 ==> decimal_bytes(n)[0] != 48,
        n < 10 ==> decimal_bytes(n).len() == 1,
    decreases n,
{
    if n >= 10 {
        lemma_decimal_bytes(n / 10);
        let d = decimal_bytes(n);
        assert(d == decimal_bytes(n / 10).push(((n % 10) + 48) as u8));
        assert forall|j: int| 0 <= j < d.len() implies is_digit(#[trigger] d[j]) by {
            if j < d.len() - 1 {
                assert(d[j] == decimal_bytes(n / 10)[j]);
            }
        }
        assert(d[0] == decimal_bytes(n / 10)[0]);
    }
}

proof fn lemma_digits_end_at(s: Seq<u8>, p: int, q: int)
    requires
        0 <= p <= q <= s.len(),
        forall|j: int| p <= j < q ==> is_digit(#[trigger] s[j]),
        q == s.len() || !is_digit(s[q]),
    ensures
        digits_end(s, p) == q,
    decreases q - p,
{
    if p < q {
        lemma_digits_end_at(s, p + 1, q);
    }
}

proof fn lemma_digits_value_of_decimal(s: Seq<u8>, p: int, n: nat)
    requires
        occurs_at(s, p, decimal_bytes(n)),
    ensures
        digits_value(s, p, p + decimal_bytes(n).len()) == n,
    decreases n,
{
    lemma_decimal_bytes(n);
    lemma_occurs_index(s, p, decimal_bytes(n));
    if n < 10 {
        assert(s[p + 0] == decimal_bytes(n)[0]);
        assert(digits_value(s, p, p) == 0);
    } else {
        let m = n / 10;
        let dm = decimal_bytes(m);
        lemma_decimal_bytes(m);
        assert(decimal_bytes(n) == dm + seq![((n % 10) + 48) as u8]);
        lemma_occurs_split(s, p, dm, seq![((n % 10) + 48) as u8]);
        lemma_digits_value_of_decimal(s, p, m);
        let last = p + dm.len();
        assert(s[p + dm.len()] == decimal_bytes(n)[dm.len() as int]);
        assert(digit_of(s[last]) == n % 10);
        vstd::arithmetic::div_mod::lemma_fundamental_div_mod(n as int, 10);
    }
}

/// The decimal `n` at `p`, followed by a byte that is not a digit, reads as a
/// canonical run of digits worth `n`.
proof fn lemma_read_decimal(s: Seq<u8>, p: int, n: nat)
    requires
        occurs_at(s, p, decimal_bytes(n)),
        p + decimal_bytes(n).len() < s.len(),
        !is_digit(s[p + decimal_bytes(n).len()]),
    ensures
        digits_end(s, p) == p + decimal_bytes(n).len(),
        canonical_digits(s, p, p + decimal_bytes(n).len()),
        digits_value(s, p, p + decimal_bytes(n).len()) == n,
        is_digit(s[p]),
        n > 0 ==> s[p] != 48,
{
    let d = decimal_bytes(n);
    lemma_decimal_bytes(n);
    lemma_occurs_index(s, p, d);
    assert forall|j: int| p <= j < p + d.len() implies is_digit(#[trigger] s[j]) by {
        assert(s[p + (j - p)] == d[j - p]);
    }
    lemma_digits_end_at(s, p, p + d.len());
    lemma_digits_value_of_decimal(s, p, n);
    assert(s[p + 0] == d[0]);
}

proof fn lemma_parse_bytes_encoding(b: Seq<u8>, s: Seq<u8>, p: int)
    requires
        occurs_at(s, p, encode_bytes(b)),
    ensures
        parse_bytes(s, p) == Ok::<_, BencodeDecoderError>((b, p + encode_bytes(b).len())),
        is_digit(s[p]),
{
    let d = decimal_bytes(b.len());
    lemma_occurs_split(s, p, d + seq![58u8], b);
    lemma_occurs_split(s, p, d, seq![58u8]);
    lemma_occurs_index(s, p + d.len(), seq![58u8]);
    assert(seq![58u8][0] == 58);
    assert(s[p + d.len() + 0] == 58);
    lemma_read_decimal(s, p, b.len());
    let q = p + d.len();
    assert(s.subrange(q + 1, q + 1 + b.len()) == b);
}

/// The first byte of an encoding starts a value: never the `e` that ends a list.
proof fn lemma_encode_first_byte(v: Bencode)
    ensures
        encode(v).len() >= 1,
        encode(v)[0] != 101,
{
    match v {
        Bencode::Bytes(b) => {
            lemma_decimal_bytes(b.len());
            assert(encode(v)[0] == decimal_bytes(b.len())[0]);
        },
        _ => {},
    }
}

proof fn lemma_encode_items_first(l: Seq<Bencode>)
    requires
        l.len() > 0,
    ensures
        encode_items(l) == encode(l[0]) + encode_items(l.drop_first()),
    decreases l.len(),
{
    if l.len() == 1 {
        assert(l.drop_last() =~= Seq::<Bencode>::empty());
        assert(l.drop_first() =~= Seq::<Bencode>::empty());
        assert(encode_items(l) =~= encode(l[0]) + encode_items(l.drop_first()));
    } else {
        lemma_encode_items_first(l.drop_last());
        assert(l.drop_first().drop_last() =~= l.drop_last().drop_first());
        assert(l.drop_first().last() == l.last());
        assert(encode_items(l) =~= encode(l[0]) + encode_items(l.drop_first()));
    }
}

proof fn lemma_encode_entries_first(d: Seq<(Seq<u8>, Bencode)>)
    requires
        d.len() > 0,
    ensures
        encode_entries(d) == encode_bytes(d[0].0) + encode(d[0].1) + encode_entries(
            d.drop_first(),
        ),
    decreases d.len(),
{
    if d.len() == 1 {
        assert(d.drop_last() =~= Seq::<(Seq<u8>, Bencode)>::empty());
        assert(d.drop_first() =~= Seq::<(Seq<u8>, Bencode)>::empty());
        assert(encode_entries(d) =~= encode_bytes(d[0].0) + encode(d[0].1) + encode_entries(
            d.drop_first(),
        ));
    } else {
        lemma_encode_entries_first(d.drop_last());
        assert(d.drop_first().drop_last() =~= d.drop_last().drop_first());
        assert(d.drop_first().last() == d.last());
        assert(encode_entries(d) =~= encode_bytes(d[0].0) + encode(d[0].1) + encode_entries(
            d.drop_first(),
        ));
    }
}

} // verus!

verus! {

/// The encoding of a well-formed value, wherever it stands, decodes to the
/// value and ends right after itself.
proof fn lemma_parse_encoding(v: Bencode, s: Seq<u8>, p: int)
    requires
        well_formed(v),
        occurs_at(s, p, encode(v)),
    ensures
        parse_value(s, p) == Ok::<_, BencodeDecoderError>((v, p + encode(v).len())),
    decreases v, 0nat,
{
    lemma_occurs_index(s, p, encode(v));
    lemma_encode_first_byte(v);
    assert(s[p + 0] == encode(v)[0]);
    match v {
        Bencode::Int(i) => {
            let t = integer_text(i);
            lemma_occurs_split(s, p, seq![105u8] + t, seq![101u8]);
            lemma_occurs_split(s, p, seq![105u8], t);
            let after = p + 1 + t.len();
            lemma_occurs_index(s, after, seq![101u8]);
            assert(seq![101u8][0] == 101);
            assert(s[after + 0] == 101);
            if i < 0 {
                let d = decimal_bytes((-i) as nat);
                lemma_occurs_split(s, p + 1, seq![45u8], d);
                lemma_occurs_index(s, p + 1, seq![45u8]);
                assert(seq![45u8][0] == 45);
                assert(s[p + 1 + 0] == 45);
                lemma_read_decimal(s, p + 2, (-i) as nat);
            } else {
                lemma_read_decimal(s, p + 1, i as nat);
            }
        },
        Bencode::Bytes(b) => {
            lemma_parse_bytes_encoding(b, s, p);
        },
        Bencode::List(l) => {
            let items = encode_items(l);
            assert(encode(v) == seq![108u8] + (items + seq![101u8]));
            lemma_occurs_split(s, p, seq![108u8], items + seq![101u8]);
            lemma_parse_items(l, s, p + 1, Seq::empty());
            assert(Seq::<Bencode>::empty() + l =~= l);
        },
        Bencode::Dict(d) => {
            let entries = encode_entries(d);
            assert(encode(v) == seq![100u8] + (entries + seq![101u8]));
            lemma_occurs_split(s, p, seq![100u8], entries + seq![101u8]);
            assert(Seq::<(Seq<u8>, Bencode)>::empty() + d =~= d);
            lemma_parse_entries(d, s, p + 1, Seq::empty());
        },
    }
}

proof fn lemma_parse_items(l: Seq<Bencode>, s: Seq<u8>, p: int, acc: Seq<Bencode>)
    requires
        forall|j: int| 0 <= j < l.len() ==> well_formed(#[trigger] l[j]),
        occurs_at(s, p, encode_items(l) + seq![101u8]),
    ensures
        parse_list(s, p, acc) == Ok::<_, BencodeDecoderError>(
            (Bencode::List(acc + l), p + encode_items(l).len() + 1),
        ),
    decreases l, 1nat,
{
    if l.len() == 0 {
        assert(encode_items(l) + seq![101u8] =~= seq![101u8]);
        lemma_occurs_index(s, p, seq![101u8]);
        assert(seq![101u8][0] == 101);
        assert(s[p + 0] == 101);
        assert(acc + l =~= acc);
    } else {
        let x = l[0];
        let rest = l.drop_first();
        lemma_encode_items_first(l);
        let ex = encode(x);
        assert(encode_items(l) + seq![101u8] == ex + (encode_items(rest) + seq![101u8]));
        lemma_occurs_split(s, p, ex, encode_items(rest) + seq![101u8]);
        lemma_encode_first_byte(x);
        lemma_occurs_index(s, p, ex);
        assert(s[p + 0] == ex[0]);
        assert(well_formed(l[0]));
        lemma_parse_encoding(x, s, p);
        assert forall|j: int| 0 <= j < rest.len() implies well_formed(#[trigger] rest[j]) by {
            assert(rest[j] == l[j + 1]);
        }
        lemma_parse_items(rest, s, p + ex.len(), acc.push(x));
        assert(acc.push(x) + rest =~= acc + l);
    }
}

proof fn lemma_parse_entries(
    d: Seq<(Seq<u8>, Bencode)>,
    s: Seq<u8>,
    p: int,
    acc: Seq<(Seq<u8>, Bencode)>,
)
    requires
        sorted_keys(acc + d),
        forall|j: int| 0 <= j < d.len() ==> well_formed(#[trigger] d[j].1),
        occurs_at(s, p, encode_entries(d) + seq![101u8]),
    ensures
        parse_dict(s, p, acc) == Ok::<_, BencodeDecoderError>(
            (Bencode::Dict(acc + d), p + encode_entries(d).len() + 1),
        ),
    decreases d, 1nat,
{
    if d.len() == 0 {
        assert(encode_entries(d) + seq![101u8] =~= seq![101u8]);
        lemma_occurs_index(s, p, seq![101u8]);
        assert(seq![101u8][0] == 101);
        assert(s[p + 0] == 101);
        assert(acc + d =~= acc);
    } else {
        let (k, x) = d[0];
        let rest = d.drop_first();
        lemma_encode_entries_first(d);
        let ek = encode_bytes(k);
        let ex = encode(x);
        let tail = encode_entries(rest) + seq![101u8];
        assert(encode_entries(d) + seq![101u8] == ek + (ex + tail));
        lemma_occurs_split(s, p, ek, ex + tail);
        lemma_occurs_split(s, p + ek.len(), ex, tail);
        lemma_parse_bytes_encoding(k, s, p);
        lemma_decimal_bytes(k.len());
        assert(well_formed(d[0].1));
        assert(decreases_to!(d => d[0]));
        lemma_parse_encoding(x, s, p + ek.len());
        lemma_parse_advances(s, p + ek.len());
        let all = acc + d;
        assert forall|j: int| 0 <= j < acc.len() implies bytes_lt(#[trigger] acc[j].0, k) by {
            assert(all[j] == acc[j]);
            assert(all[acc.len() as int] == d[0]);
        }
        lemma_dict_insert_skip(acc, k, x, acc.len() as int);
        assert(acc.skip(acc.len() as int) =~= Seq::<(Seq<u8>, Bencode)>::empty());
        assert(acc.take(acc.len() as int) =~= acc);
        assert(dict_insert(acc, k, x) =~= acc.push((k, x)));
        assert(acc.push((k, x)) + rest =~= acc + d);
        assert forall|j: int| 0 <= j < rest.len() implies well_formed(#[trigger] rest[j].1) by {
            assert(rest[j] == d[j + 1]);
        }
        lemma_parse_entries(rest, s, p + ek.len() + ex.len(), acc.push((k, x)));
    }
}

/// Decoding the encoding of a well-formed value gives the value back,
/// having read the whole encoding.
pub proof fn lemma_decode_encode(v: Bencode)
    requires
        well_formed(v),
    ensures
        parse_value(encode(v), 0) == Ok::<_, BencodeDecoderError>((v, encode(v).len() as int)),
{
    assert(encode(v).subrange(0, encode(v).len() as int) =~= encode(v));
    lemma_parse_encoding(v, encode(v), 0);
}

/// Whatever the decoder returns, its canonical encoding decodes back to it:
/// re-encoding a decoded value loses nothing.
pub proof fn lemma_reencode_decoded(s: Seq<u8>, p: int)
    ensures
        parse_value(s, p) matches Ok((v, _)) ==> parse_value(encode(v), 0) == Ok::<
            _,
            BencodeDecoderError,
        >((v, encode(v).len() as int)),
{
    lemma_parse_well_formed(s, p);
    if let Ok((v, _)) = parse_value(s, p) {
        lemma_decode_encode(v);
    }
}

} // verus!

verus! {

/// A value found in a dictionary is the value of one of its entries.
pub proof fn lemma_dict_get_member(d: Seq<(Seq<u8>, Bencode)>, k: Seq<u8>)
    ensures
        dict_get(d, k) matches Some(x) ==> exists|j: int| 0 <= j < d.len() && d[j].1 == x,
    decreases d.len(),
{
    if d.len() > 0 && d[0].0 != k {
        lemma_dict_get_member(d.drop_first(), k);
        if let Some(x) = dict_get(d.drop_first(), k) {
            let j = choose|j: int| 0 <= j < d.drop_first().len() && d.drop_first()[j].1 == x;
            assert(d[j + 1].1 == x);
        }
    }
}

} // verus!
