//! Character-level text helpers: decimal, hexadecimal and percent encodings,
//! quote escaping and prefix tests.

use vstd::prelude::*;
use vstd::string::*;

verus! {

/// The character of a hexadecimal digit, lower-case letters for 10..=15.
pub open spec fn lower_hex_char(d: int) -> char {
    if d < 10 {
        (d + 48) as char
    } else {
        (d + 87) as char
    }
}

/// The character of a hexadecimal digit, upper-case letters for 10..=15.
pub open spec fn upper_hex_char(d: int) -> char {
    if d < 10 {
        (d + 48) as char
    } else {
        (d + 55) as char
    }
}

/// The decimal digits of `n`, most significant first, without leading zeros.
pub open spec fn decimal(n: nat) -> Seq<char>
    decreases n,
{
    if n < 10 {
        seq![(n + 48) as char]
    } else {
        decimal(n / 10).push(((n % 10) + 48) as char)
    }
}

/// Two lower-case hexadecimal digits per byte, high nibble first.
pub open spec fn hex_lower(bytes: Seq<u8>) -> Seq<char>
    decreases bytes.len(),
{
    if bytes.len() == 0 {
        Seq::empty()
    } else {
        let b = bytes.last();
        hex_lower(bytes.drop_last()).push(lower_hex_char(b as int / 16)).push(
            lower_hex_char(b as int % 16),
        )
    }
}

/// Bytes that URL percent-encoding leaves as they are (RFC 3986 "unreserved").
pub open spec fn is_unreserved(b: u8) -> bool {
    ||| 65 <= b <= 90
    ||| 97 <= b <= 122
    ||| 48 <= b <= 57
    ||| b == 45
    ||| b == 46
    ||| b == 95
    ||| b == 126
}

/// Percent-encoding of a byte string: unreserved bytes stay, every other byte
/// becomes `%` and two upper-case hexadecimal digits.
pub open spec fn percent_encoded(bytes: Seq<u8>) -> Seq<char>
    decreases bytes.len(),
{
    if bytes.len() == 0 {
        Seq::empty()
    } else {
        let b = bytes.last();
        let prefix = percent_encoded(bytes.drop_last());
        if is_unreserved(b) {
            prefix.push(b as char)
        } else {
            prefix.push('%').push(upper_hex_char(b as int / 16)).push(upper_hex_char(b as int % 16))
        }
    }
}

/// What one character becomes once double quotes are escaped.
pub open spec fn escape_char(c: char) -> Seq<char> {
    if c == '"' {
        seq!['\\', '"']
    } else {
        seq![c]
    }
}

/// The text with every double quote preceded by a backslash.
pub open spec fn escape_quotes(s: Seq<char>) -> Seq<char>
    decreases s.len(),
{
    if s.len() == 0 {
        Seq::empty()
    } else {
        escape_quotes(s.drop_last()) + escape_char(s.last())
    }
}

/// `p` is a prefix of `s`.
pub open spec fn has_prefix(s: Seq<char>, p: Seq<char>) -> bool {
    p.len() <= s.len() && s.take(p.len() as int) == p
}

/// Escaping distributes over concatenation.
pub proof fn lemma_escape_append(a: Seq<char>, b: Seq<char>)
    ensures
        escape_quotes(a + b) == escape_quotes(a) + escape_quotes(b),
    decreases b.len(),
{
    if b.len() == 0 {
        assert(a + b =~= a);
        assert(escape_quotes(a) + escape_quotes(b) =~= escape_quotes(a));
    } else {
        lemma_escape_append(a, b.drop_last());
        assert((a + b).drop_last() =~= a + b.drop_last());
        assert((a + b).last() == b.last());
        assert(escape_quotes(a + b) =~= escape_quotes(a) + escape_quotes(b));
    }
}

/// Text without double quotes is its own escape.
pub proof fn lemma_escape_plain(s: Seq<char>)
    requires
        forall|i: int| 0 <= i < s.len() ==> s[i] != '"',
    ensures
        escape_quotes(s) == s,
    decreases s.len(),
{
    if s.len() > 0 {
        lemma_escape_plain(s.drop_last());
        assert(escape_quotes(s) =~= s);
    }
}

/// Appends the printable ASCII character with code `b`.
pub fn push_printable(s: &mut String, b: u8)
    requires
        32 <= b < 127,
    ensures
        final(s)@ == old(s)@.push(b as char),
{
    let table = " !\"#$%&'()*+,-./0123456789:;<=>?@ABCDEFGHIJKLMNOPQRSTUVWXYZ[\\]^_`abcdefghijklmnopqrstuvwxyz{|}~";
    proof {
        reveal_strlit(
            " !\"#$%&'()*+,-./0123456789:;<=>?@ABCDEFGHIJKLMNOPQRSTUVWXYZ[\\]^_`abcdefghijklmnopqrstuvwxyz{|}~",
        );
    }
    let i = (b - 32) as usize;
    let piece = table.substring_ascii(i, i + 1);
    assert(piece@ =~= seq![b as char]);
    s.append(piece);
}

/// The code of the lower-case hexadecimal digit `d`.
fn lower_hex_code(d: u8) -> (c: u8)
    requires
        d < 16,
    ensures
        32 <= c < 127,
        c as char == lower_hex_char(d as int),
{
    if d < 10 {
        d + 48
    } else {
        d + 87
    }
}

/// The code of the upper-case hexadecimal digit `d`.
fn upper_hex_code(d: u8) -> (c: u8)
    requires
        d < 16,
    ensures
        32 <= c < 127,
        c as char == upper_hex_char(d as int),
{
    if d < 10 {
        d + 48
    } else {
        d + 55
    }
}

/// Appends the decimal representation of `n`.
pub fn push_decimal(s: &mut String, n: u64)
    ensures
        final(s)@ == old(s)@ + decimal(n as nat),
    decreases n,
{
    let ghost start = s@;
    if n >= 10 {
        push_decimal(s, n / 10);
    }
    let d = (n % 10) as u8;
    push_printable(s, d + 48);
    assert(s@ =~= start + decimal(n as nat));
}

/// Lower-case hexadecimal text of a byte string, two digits per byte.
pub fn hex_encode(bytes: &[u8]) -> (r: String)
    ensures
        r@ == hex_lower(bytes@),
{
    let mut r = String::new();
    let mut i: usize = 0;
    while i < bytes.len()
        invariant
            i <= bytes@.len(),
            r@ == hex_lower(bytes@.take(i as int)),
        decreases bytes@.len() - i,
    {
        let b = bytes[i];
        push_printable(&mut r, lower_hex_code(b / 16));
        push_printable(&mut r, lower_hex_code(b % 16));
        assert(bytes@.take(i + 1).drop_last() =~= bytes@.take(i as int));
        i = i + 1;
    }
    assert(bytes@.take(i as int) =~= bytes@);
    r
}

/// URL percent-encoding of a byte string (see `percent_encoded`).
pub fn percent_encoding(bytes: &[u8]) -> (r: String)
    ensures
        r@ == percent_encoded(bytes@),
{
    let mut r = String::new();
    let mut i: usize = 0;
    while i < bytes.len()
        invariant
            i <= bytes@.len(),
            r@ == percent_encoded(bytes@.take(i as int)),
        decreases bytes@.len() - i,
    {
        let b = bytes[i];
        if (65 <= b && b <= 90) || (97 <= b && b <= 122) || (48 <= b && b <= 57) || b == 45
            || b == 46 || b == 95 || b == 126 {
            push_printable(&mut r, b);
        } else {
            push_printable(&mut r, 37);
            push_printable(&mut r, upper_hex_code(b / 16));
            push_printable(&mut r, upper_hex_code(b % 16));
        }
        assert(bytes@.take(i + 1).drop_last() =~= bytes@.take(i as int));
        i = i + 1;
    }
    assert(bytes@.take(i as int) =~= bytes@);
    r
}

/// Appends `t` with every double quote preceded by a backslash.
pub fn push_escaped_quotes(s: &mut String, t: &str)
    ensures
        final(s)@ == old(s)@ + escape_quotes(t@),
{
    let ghost start = s@;
    let n = t.unicode_len();
    let mut from: usize = 0;
    let mut i: usize = 0;
    while i < n
        invariant
            n == t@.len(),
            from <= i <= n,
            s@ == start + escape_quotes(t@.take(from as int)),
            forall|j: int| from <= j < i ==> t@[j] != '"',
        decreases n - i,
    {
        let c = t.get_char(i);
        if c == '"' {
            let piece = t.substring_char(from, i);
            s.append(piece);
            s.append("\\\"");
            proof {
                reveal_strlit("\\\"");
                lemma_escape_plain(piece@);
                let a = t@.take(from as int);
                lemma_escape_append(a, piece@);
                assert(a + piece@ =~= t@.take(i as int));
                lemma_escape_append(t@.take(i as int), seq![c]);
                assert(t@.take(i as int) + seq![c] =~= t@.take(i + 1));
                assert(escape_quotes(seq![c]) =~= seq!['\\', '"']) by {
                    assert(seq![c].drop_last() =~= Seq::<char>::empty());
                    assert(seq![c].last() == c);
                    assert(escape_quotes(Seq::<char>::empty()) =~= Seq::<char>::empty());
                    assert(escape_char(c) =~= seq!['\\', '"']);
                }
                assert(s@ =~= start + escape_quotes(t@.take(i + 1)));
            }
            from = i + 1;
        }
        i = i + 1;
    }
    let piece = t.substring_char(from, n);
    s.append(piece);
    proof {
        lemma_escape_plain(piece@);
        lemma_escape_append(t@.take(from as int), piece@);
        assert(t@.take(from as int) + piece@ =~= t@);
        assert(s@ =~= start + escape_quotes(t@));
    }
}

/// Whether `s` begins with `p`.
pub fn starts_with(s: &str, p: &str) -> (r: bool)
    ensures
        r == has_prefix(s@, p@),
{
    let n = s.unicode_len();
    let m = p.unicode_len();
    if m > n {
        return false;
    }
    let mut i: usize = 0;
    while i < m
        invariant
            n == s@.len(),
            m == p@.len(),
            m <= n,
            i <= m,
            forall|j: int| 0 <= j < i ==> s@[j] == p@[j],
        decreases m - i,
    {
        if s.get_char(i) != p.get_char(i) {
            assert(s@.take(m as int)[i as int] != p@[i as int]);
            return false;
        }
        i = i + 1;
    }
    assert(s@.take(m as int) =~= p@);
    true
}

} // verus!
