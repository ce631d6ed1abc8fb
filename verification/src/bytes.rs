//! Byte-string primitives: little-endian 32-bit fields, copying, and the
//! lexicographic order on keys.
use vstd::prelude::*;

verus! {

/// The four bytes of `n`, least significant first.
pub open spec fn le_bytes(n: u32) -> Seq<u8> {
    seq![
        (n % 256) as u8,
        (n / 256 % 256) as u8,
        (n / 65536 % 256) as u8,
        (n / 16777216) as u8,
    ]
}

/// The number whose little-endian bytes are the first four bytes of `s`.
pub open spec fn le_value(s: Seq<u8>) -> u32
    recommends
        s.len() >= 4,
{
    (s[0] + 256 * s[1] + 65536 * s[2] + 16777216 * s[3]) as u32
}

/// What a 32-bit length field holds for a byte string of length `len`:
/// the length reduced modulo 2^32.
pub open spec fn length_field(len: nat) -> u32 {
    (len % 0x1_0000_0000) as u32
}

/// Decoding the encoding of a number gives the number back.
pub proof fn lemma_le_value_of_bytes(n: u32)
    ensures
        le_bytes(n).len() == 4,
        le_value(le_bytes(n)) == n,
{
}

/// Encoding the number read from four bytes gives the four bytes back.
pub proof fn lemma_le_bytes_of_value(s: Seq<u8>)
    requires
        s.len() == 4,
    ensures
        le_bytes(le_value(s)) == s,
{
    let b0: int = s[0] as int;
    let b1: int = s[1] as int;
    let b2: int = s[2] as int;
    let b3: int = s[3] as int;
    let v: int = b0 + 256 * b1 + 65536 * b2 + 16777216 * b3;
    assert(v == le_value(s));
    assert(v % 256 == b0 && v / 256 % 256 == b1 && v / 65536 % 256 == b2 && v / 16777216 == b3)
        by (nonlinear_arith)
        requires
            v == b0 + 256 * b1 + 65536 * b2 + 16777216 * b3,
            0 <= b0 < 256,
            0 <= b1 < 256,
            0 <= b2 < 256,
            0 <= b3 < 256,
    ;
    assert(le_bytes(le_value(s)) =~= s);
}

/// Appends the little-endian encoding of `n` to `out`.
pub fn put_u32(out: &mut Vec<u8>, n: u32)
    ensures
        final(out)@ == old(out)@ + le_bytes(n),
{
    out.push((n % 256) as u8);
    out.push((n / 256 % 256) as u8);
    out.push((n / 65536 % 256) as u8);
    out.push((n / 16777216) as u8);
    assert(out@ =~= old(out)@ + le_bytes(n));
}

/// Appends the 32-bit length field for a byte string of length `len`.
pub fn put_len(out: &mut Vec<u8>, len: usize)
    ensures
        final(out)@ == old(out)@ + le_bytes(length_field(len as nat)),
{
    let low: u64 = (len as u64) % 0x1_0000_0000u64;
    put_u32(out, low as u32);
}

/// Reads the little-endian number stored in the four bytes at `pos`.
pub fn read_u32(data: &[u8], pos: usize) -> (n: u32)
    requires
        pos + 4 <= data@.len(),
    ensures
        n == le_value(data@.subrange(pos as int, pos + 4)),
{
    let b0: u32 = data[pos] as u32;
    let b1: u32 = data[pos + 1] as u32;
    let b2: u32 = data[pos + 2] as u32;
    let b3: u32 = data[pos + 3] as u32;
    b0 + 256 * b1 + 65536 * b2 + 16777216 * b3
}

/// Appends the bytes of `part` to `out`.
pub fn put_slice(out: &mut Vec<u8>, part: &[u8])
    ensures
        final(out)@ == old(out)@ + part@,
{
    let mut i: usize = 0;
    while i < part.len()
        invariant
            i <= part@.len(),
            out@ == old(out)@ + part@.subrange(0, i as int),
        decreases part@.len() - i,
    {
        out.push(part[i]);
        i += 1;
        assert(out@ =~= old(out)@ + part@.subrange(0, i as int));
    }
    assert(part@.subrange(0, i as int) =~= part@);
}

/// A fresh vector holding the bytes of `data` from `from` up to `to`.
pub fn copy_range(data: &[u8], from: usize, to: usize) -> (out: Vec<u8>)
    requires
        from <= to <= data@.len(),
    ensures
        out@ == data@.subrange(from as int, to as int),
{
    let mut out: Vec<u8> = Vec::new();
    let mut i: usize = from;
    while i < to
        invariant
            from <= i <= to <= data@.len(),
            out@ == data@.subrange(from as int, i as int),
        decreases to - i,
    {
        out.push(data[i]);
        i += 1;
        assert(out@ =~= data@.subrange(from as int, i as int));
    }
    out
}

/// A length-prefixed field: the 32-bit length field of `payload`, then
/// `payload` itself.
pub open spec fn field_bytes(payload: Seq<u8>) -> Seq<u8> {
    le_bytes(length_field(payload.len())) + payload
}

/// Reads the length-prefixed field at the start of `data`: its payload and
/// the number of bytes the field takes. There is none if `data` ends before
/// the length field or before the payload does.
pub open spec fn parse_field(data: Seq<u8>) -> Option<(Seq<u8>, int)> {
    if data.len() < 4 {
        None
    } else {
        let len = le_value(data.subrange(0, 4)) as int;
        if data.len() < 4 + len {
            None
        } else {
            Some((data.subrange(4, 4 + len), 4 + len))
        }
    }
}

/// A field whose payload fits a 32-bit length is read back as written,
/// whatever follows it.
pub proof fn lemma_parse_field_bytes(payload: Seq<u8>, rest: Seq<u8>)
    requires
        payload.len() <= u32::MAX,
    ensures
        field_bytes(payload).len() == 4 + payload.len(),
        parse_field(field_bytes(payload) + rest) == Some((payload, 4 + payload.len() as int)),
        (field_bytes(payload) + rest).skip(4 + payload.len() as int) == rest,
{
    let n = length_field(payload.len());
    let data = field_bytes(payload) + rest;
    lemma_le_value_of_bytes(n);
    assert(data.subrange(0, 4) =~= le_bytes(n));
    assert(data.subrange(4, 4 + payload.len() as int) =~= payload);
    assert(data.skip(4 + payload.len() as int) =~= rest);
}

/// Appends `payload` as a length-prefixed field.
pub fn put_field(out: &mut Vec<u8>, payload: &[u8])
    ensures
        final(out)@ == old(out)@ + field_bytes(payload@),
{
    put_len(out, payload.len());
    put_slice(out, payload);
    assert(out@ =~= old(out)@ + field_bytes(payload@));
}

/// Reads the length-prefixed field that starts at `pos`: the positions at
/// which its payload starts and ends.
pub fn read_field(data: &[u8], pos: usize) -> (span: Option<(usize, usize)>)
    requires
        pos <= data@.len(),
    ensures
        match span {
            Some((start, end)) => start == pos + 4 && start <= end <= data@.len() && parse_field(
                data@.skip(pos as int),
            ) == Some((data@.subrange(start as int, end as int), end - pos)),
            None => parse_field(data@.skip(pos as int)) is None,
        },
{
    let rest = data.len() - pos;
    if rest < 4 {
        return None;
    }
    let len = read_u32(data, pos) as usize;
    assert(data@.skip(pos as int).subrange(0, 4) =~= data@.subrange(pos as int, pos + 4));
    if len > rest - 4 {
        return None;
    }
    assert(data@.skip(pos as int).subrange(4, 4 + len) =~= data@.subrange(pos + 4, pos + 4 + len));
    Some((pos + 4, pos + 4 + len))
}

/// Concatenation of byte strings is associative.
pub proof fn lemma_concat_assoc(a: Seq<u8>, b: Seq<u8>, c: Seq<u8>)
    ensures
        (a + b) + c == a + (b + c),
{
    assert((a + b) + c =~= a + (b + c));
}

/// Skipping a first part of a concatenation leaves the second part.
pub proof fn lemma_skip_concat(a: Seq<u8>, b: Seq<u8>)
    ensures
        (a + b).skip(a.len() as int) == b,
{
    assert((a + b).skip(a.len() as int) =~= b);
}

/// Whether two byte strings are equal.
pub fn bytes_eq(a: &[u8], b: &[u8]) -> (same: bool)
    ensures
        same == (a@ == b@),
{
    if a.len() != b.len() {
        return false;
    }
    let mut i: usize = 0;
    while i < a.len()
        invariant
            a@.len() == b@.len(),
            i <= a@.len(),
            a@.subrange(0, i as int) == b@.subrange(0, i as int),
        decreases a@.len() - i,
    {
        if a[i] != b[i] {
            return false;
        }
        i += 1;
        assert(a@.subrange(0, i as int) =~= a@.subrange(0, i - 1).push(a@[i - 1]));
        assert(b@.subrange(0, i as int) =~= b@.subrange(0, i - 1).push(b@[i - 1]));
    }
    assert(a@ =~= a@.subrange(0, i as int));
    assert(b@ =~= b@.subrange(0, i as int));
    true
}

/// The lexicographic order on byte strings: `a` comes strictly before `b`.
/// At the first position where they differ the smaller byte decides; a
/// proper prefix comes before the longer string.
pub open spec fn lex_less(a: Seq<u8>, b: Seq<u8>) -> bool
    decreases a.len(),
{
    if b.len() == 0 {
        false
    } else if a.len() == 0 {
        true
    } else if a[0] != b[0] {
        a[0] < b[0]
    } else {
        lex_less(a.skip(1), b.skip(1))
    }
}

/// No byte string comes before itself.
pub proof fn lemma_lex_irreflexive(a: Seq<u8>)
    ensures
        !lex_less(a, a),
    decreases a.len(),
{
    if a.len() > 0 {
        lemma_lex_irreflexive(a.skip(1));
    }
}

/// The order is transitive.
pub proof fn lemma_lex_transitive(a: Seq<u8>, b: Seq<u8>, c: Seq<u8>)
    requires
        lex_less(a, b),
        lex_less(b, c),
    ensures
        lex_less(a, c),
    decreases a.len(),
{
    if a.len() > 0 && a[0] == b[0] && b[0] == c[0] {
        lemma_lex_transitive(a.skip(1), b.skip(1), c.skip(1));
    }
}

/// Of two different byte strings exactly one comes before the other.
pub proof fn lemma_lex_total(a: Seq<u8>, b: Seq<u8>)
    ensures
        lex_less(a, b) || lex_less(b, a) || a == b,
        !(lex_less(a, b) && lex_less(b, a)),
    decreases a.len(),
{
    if a.len() > 0 && b.len() > 0 {
        if a[0] == b[0] {
            lemma_lex_total(a.skip(1), b.skip(1));
            if a.skip(1) == b.skip(1) {
                assert(a =~= seq![a[0]] + a.skip(1));
                assert(b =~= seq![b[0]] + b.skip(1));
            }
        }
    } else if a.len() == 0 && b.len() == 0 {
        assert(a =~= b);
    }
}

/// Stripping a common prefix does not change the order of two byte strings.
pub proof fn lemma_lex_skip_common(a: Seq<u8>, b: Seq<u8>, n: int)
    requires
        0 <= n <= a.len(),
        n <= b.len(),
        a.subrange(0, n) == b.subrange(0, n),
    ensures
        lex_less(a, b) == lex_less(a.skip(n), b.skip(n)),
    decreases n,
{
    if n > 0 {
        assert(a[0] == a.subrange(0, n)[0]);
        assert(b[0] == b.subrange(0, n)[0]);
        assert(a.skip(1).subrange(0, n - 1) =~= a.subrange(0, n).skip(1));
        assert(b.skip(1).subrange(0, n - 1) =~= b.subrange(0, n).skip(1));
        lemma_lex_skip_common(a.skip(1), b.skip(1), n - 1);
        assert(a.skip(1).skip(n - 1) =~= a.skip(n));
        assert(b.skip(1).skip(n - 1) =~= b.skip(n));
    } else {
        assert(a.skip(0) =~= a);
        assert(b.skip(0) =~= b);
    }
}

/// Whether `a` comes strictly before `b` in the lexicographic order.
pub fn bytes_less(a: &[u8], b: &[u8]) -> (less: bool)
    ensures
        less == lex_less(a@, b@),
{
    let mut i: usize = 0;
    while i < a.len() && i < b.len()
        invariant
            i <= a@.len(),
            i <= b@.len(),
            a@.subrange(0, i as int) == b@.subrange(0, i as int),
        decreases a@.len() - i,
    {
        if a[i] != b[i] {
            proof {
                lemma_lex_skip_common(a@, b@, i as int);
            }
            return a[i] < b[i];
        }
        i += 1;
        assert(a@.subrange(0, i as int) =~= a@.subrange(0, i - 1).push(a@[i - 1]));
        assert(b@.subrange(0, i as int) =~= b@.subrange(0, i - 1).push(b@[i - 1]));
    }
    proof {
        lemma_lex_skip_common(a@, b@, i as int);
    }
    i < b.len()
}

} // verus!
