//! Images embedded in a scene as base64 data URIs.
use vstd::prelude::*;

verus! {

/// The value of a character of the base64 alphabet.
pub open spec fn sextet(c: u8) -> Option<int> {
    if 65 <= c <= 90 {
        Some(c - 65)
    } else if 97 <= c <= 122 {
        Some(c - 97 + 26)
    } else if 48 <= c <= 57 {
        Some(c - 48 + 52)
    } else if c == 43 {
        Some(62int)
    } else if c == 47 {
        Some(63int)
    } else {
        None
    }
}

/// The values of the alphabet characters of a payload, in order. Padding, line
/// breaks and anything else outside the alphabet is passed over.
pub open spec fn sextets(payload: Seq<u8>) -> Seq<int>
    decreases payload.len(),
{
    if payload.len() == 0 {
        Seq::empty()
    } else {
        let before = sextets(payload.drop_last());
        match sextet(payload.last()) {
            Some(v) => before.push(v),
            None => before,
        }
    }
}

/// Byte `i` of the bit stream that the six-bit values spell out.
pub open spec fn byte_at(s: Seq<int>, i: int) -> int {
    let k = i / 3 * 4;
    if i % 3 == 0 {
        s[k] * 4 + s[k + 1] / 16
    } else if i % 3 == 1 {
        s[k + 1] % 16 * 16 + s[k + 2] / 4
    } else {
        s[k + 2] % 4 * 64 + s[k + 3]
    }
}

/// The whole bytes of the bit stream that the six-bit values spell out.
pub open spec fn bytes_of(s: Seq<int>) -> Seq<u8> {
    Seq::new((6 * s.len() / 8) as nat, |i: int| byte_at(s, i) as u8)
}

pub open spec fn data_prefix() -> Seq<u8> {
    seq![100u8, 97, 116, 97, 58]
}

pub open spec fn base64_mark() -> Seq<u8> {
    seq![98u8, 97, 115, 101, 54, 52]
}

/// `part` stands somewhere in `s`.
pub open spec fn holds(s: Seq<u8>, part: Seq<u8>) -> bool {
    exists|i: int|
        0 <= i <= s.len() - part.len() && #[trigger] s.subrange(i, i + part.len()) == part
}

/// `uri` is `data:`, then a header without a comma that mentions base64, then a
/// comma at `comma`, then the payload.
pub open spec fn splits_at(uri: Seq<u8>, comma: int) -> bool {
    &&& uri.len() >= 5
    &&& uri.subrange(0, 5) == data_prefix()
    &&& 5 <= comma < uri.len()
    &&& uri[comma] == 44
    &&& forall|j: int| 5 <= j < comma ==> #[trigger] uri[j] != 44
    &&& holds(uri.subrange(5, comma), base64_mark())
}

fn sextet_of(c: u8) -> (r: Option<u32>)
    ensures
        match r {
            Some(v) => sextet(c) == Some(v as int) && v < 64,
            None => sextet(c) is None,
        },
{
    if 65 <= c && c <= 90 {
        Some((c - 65) as u32)
    } else if 97 <= c && c <= 122 {
        Some((c - 97) as u32 + 26)
    } else if 48 <= c && c <= 57 {
        Some((c - 48) as u32 + 52)
    } else if c == 43 {
        Some(62)
    } else if c == 47 {
        Some(63)
    } else {
        None
    }
}

fn matches_at(s: &[u8], at: usize, part: &[u8]) -> (r: bool)
    requires
        at + part.len() <= s.len(),
    ensures
        r == (s@.subrange(at as int, at + part@.len()) == part@),
{
    let mut i: usize = 0;
    while i < part.len()
        invariant
            i <= part.len(),
            at + part.len() <= s.len(),
            forall|j: int| 0 <= j < i ==> s@[at + j] == #[trigger] part@[j],
        decreases part.len() - i,
    {
        if s[at + i] != part[i] {
            assert(s@.subrange(at as int, at + part@.len())[i as int] != part@[i as int]);
            return false;
        }
        i = i + 1;
    }
    assert(s@.subrange(at as int, at + part@.len()) =~= part@);
    true
}

/// Whether the header `s[from..to]` mentions base64.
fn mentions_base64(s: &[u8], from: usize, to: usize) -> (r: bool)
    requires
        from <= to <= s.len(),
    ensures
        r == holds(s@.subrange(from as int, to as int), base64_mark()),
{
    let mark: [u8; 6] = [98, 97, 115, 101, 54, 52];
    let ghost header = s@.subrange(from as int, to as int);
    assert(mark@ =~= base64_mark());
    let mut i: usize = from;
    while to - i >= 6
        invariant
            from <= i <= to <= s.len(),
            mark@ == base64_mark(),
            header == s@.subrange(from as int, to as int),
            forall|j: int|
                0 <= j < i - from ==> #[trigger] header.subrange(j, j + 6) != base64_mark(),
        decreases to - i,
    {
        let ghost j = i - from;
        assert(header.subrange(j, j + 6) =~= s@.subrange(i as int, i + 6));
        if matches_at(s, i, &mark) {
            assert(header.subrange(j, j + base64_mark().len()) == base64_mark());
            return true;
        }
        i = i + 1;
    }
    assert(!holds(header, base64_mark())) by {
        if holds(header, base64_mark()) {
            let j = choose|j: int|
                0 <= j <= header.len() - base64_mark().len() && #[trigger] header.subrange(
                    j,
                    j + base64_mark().len(),
                ) == base64_mark();
            assert(header.subrange(j, j + 6) == base64_mark());
        }
    }
    false
}

/// What is left over of the last six-bit value after `s` has been cut into bytes.
spec fn left_over(s: Seq<int>) -> int {
    if s.len() % 4 == 0 {
        0
    } else if s.len() % 4 == 1 {
        s.last()
    } else if s.len() % 4 == 2 {
        s.last() % 16
    } else {
        s.last() % 4
    }
}

proof fn lemma_sextets_in_range(payload: Seq<u8>)
    ensures
        forall|i: int| 0 <= i < sextets(payload).len() ==> 0 <= #[trigger] sextets(payload)[i] < 64,
    decreases payload.len(),
{
    if payload.len() > 0 {
        let before = sextets(payload.drop_last());
        lemma_sextets_in_range(payload.drop_last());
        assert forall|i: int| 0 <= i < sextets(payload).len() implies 0 <= #[trigger] sextets(
            payload,
        )[i] < 64 by {
            if i < before.len() {
                assert(sextets(payload)[i] == before[i]);
            }
        }
    }
}

/// One more six-bit value completes a byte, unless it opens a group of four.
proof fn lemma_push_sextet(s: Seq<int>, v: int)
    requires
        0 <= v < 64,
        forall|i: int| 0 <= i < s.len() ==> 0 <= #[trigger] s[i] < 64,
    ensures
        s.len() % 4 == 0 ==> bytes_of(s.push(v)) == bytes_of(s) && left_over(s.push(v)) == v,
        s.len() % 4 == 1 ==> bytes_of(s.push(v)) == bytes_of(s).push(
            ((left_over(s) * 64 + v) / 16) as u8,
        ) && left_over(s.push(v)) == (left_over(s) * 64 + v) % 16,
        s.len() % 4 == 2 ==> bytes_of(s.push(v)) == bytes_of(s).push(
            ((left_over(s) * 64 + v) / 4) as u8,
        ) && left_over(s.push(v)) == (left_over(s) * 64 + v) % 4,
        s.len() % 4 == 3 ==> bytes_of(s.push(v)) == bytes_of(s).push(
            (left_over(s) * 64 + v) as u8,
        ) && left_over(s.push(v)) == 0,
        0 <= left_over(s) < 64,
        s.len() % 4 == 2 ==> left_over(s) < 16,
        s.len() % 4 == 3 ==> left_over(s) < 4,
{
    let t = s.push(v);
    let n = s.len() as int;
    let q = n / 4;
    let old_len = 6 * n / 8;
    assert forall|i: int| 0 <= i < old_len implies byte_at(t, i) == byte_at(s, i) by {
        let k = i / 3 * 4;
        assert(k + 1 < n);
        assert(i % 3 == 1 ==> k + 2 < n);
        assert(i % 3 == 2 ==> k + 3 < n);
    }
    if n % 4 == 0 {
        assert(bytes_of(t) =~= bytes_of(s));
    } else if n % 4 == 1 {
        assert(old_len == 3 * q);
        assert(byte_at(t, old_len) == s[4 * q] * 4 + v / 16);
        assert(bytes_of(t) =~= bytes_of(s).push(((left_over(s) * 64 + v) / 16) as u8));
    } else if n % 4 == 2 {
        assert(old_len == 3 * q + 1);
        assert(byte_at(t, old_len) == s[4 * q + 1] % 16 * 16 + v / 4);
        assert(bytes_of(t) =~= bytes_of(s).push(((left_over(s) * 64 + v) / 4) as u8));
    } else {
        assert(old_len == 3 * q + 2);
        assert(byte_at(t, old_len) == s[4 * q + 2] % 4 * 64 + v);
        assert(bytes_of(t) =~= bytes_of(s).push((left_over(s) * 64 + v) as u8));
    }
}

/// Decodes the base64 payload `s[from..]`.
fn decode_payload(s: &[u8], from: usize) -> (out: Vec<u8>)
    requires
        from <= s.len(),
    ensures
        out@ == bytes_of(sextets(s@.subrange(from as int, s@.len() as int))),
{
    let ghost payload = s@.subrange(from as int, s@.len() as int);
    let mut out: Vec<u8> = Vec::with_capacity((s.len() - from) / 4 * 3);
    let mut acc: u32 = 0;
    let mut bits: u32 = 0;
    let mut i: usize = from;
    assert(bytes_of(sextets(payload.take(0))) =~= Seq::<u8>::empty());
    while i < s.len()
        invariant
            from <= i <= s.len(),
            payload == s@.subrange(from as int, s@.len() as int),
            out@ == bytes_of(sextets(payload.take(i - from))),
            acc == left_over(sextets(payload.take(i - from))),
            bits == 6 * sextets(payload.take(i - from)).len() % 8,
        decreases s.len() - i,
    {
        let ghost before = payload.take(i - from);
        let ghost values = sextets(before);
        proof {
            assert(payload.take(i - from + 1).drop_last() =~= before);
            assert(payload.take(i - from + 1).last() == s@[i as int]);
            lemma_sextets_in_range(before);
        }
        if let Some(v) = sextet_of(s[i]) {
            proof {
                lemma_push_sextet(values, v as int);
            }
            let wide: u32 = acc * 64 + v;
            if bits == 6 {
                out.push((wide / 16) as u8);
                acc = wide % 16;
                bits = 4;
            } else if bits == 4 {
                out.push((wide / 4) as u8);
                acc = wide % 4;
                bits = 2;
            } else if bits == 2 {
                out.push(wide as u8);
                acc = 0;
                bits = 0;
            } else {
                acc = v;
                bits = 6;
            }
        }
        i = i + 1;
    }
    assert(payload.take(i - from) =~= payload);
    out
}

/// The bytes of a base64 data URI, or nothing where the text is not one.
pub open spec fn decoded_uri(uri: Seq<u8>) -> Option<Seq<u8>> {
    if exists|comma: int| splits_at(uri, comma) {
        let comma = choose|comma: int| splits_at(uri, comma);
        Some(bytes_of(sextets(uri.subrange(comma + 1, uri.len() as int))))
    } else {
        None
    }
}

/// A data URI has one header.
pub proof fn lemma_splits_once(uri: Seq<u8>, one: int, other: int)
    requires
        splits_at(uri, one),
        splits_at(uri, other),
    ensures
        one == other,
{
    assert(uri[one] == 44 && uri[other] == 44);
}

/// Reads a base64 data URI, see `decoded_uri`.
pub fn decode_data_uri(uri: &str) -> (r: Option<Vec<u8>>)
    ensures
        match r {
            Some(out) => decoded_uri(vstd::utf8::encode_utf8(uri@)) == Some(out@),
            None => decoded_uri(vstd::utf8::encode_utf8(uri@)) is None,
        },
{
    let s: &[u8] = uri.as_bytes();
    let prefix: [u8; 5] = [100, 97, 116, 97, 58];
    assert(prefix@ =~= data_prefix());
    if s.len() < 5 {
        return None;
    }
    if !matches_at(s, 0, &prefix) {
        return None;
    }
    let mut comma: usize = 5;
    while comma < s.len() && s[comma] != 44
        invariant
            5 <= comma <= s.len(),
            forall|j: int| 5 <= j < comma ==> #[trigger] s@[j] != 44,
        decreases s.len() - comma,
    {
        comma = comma + 1;
    }
    if comma == s.len() {
        return None;
    }
    assert forall|other: int| #[trigger] splits_at(s@, other) implies other == comma by {
        assert(s@[comma as int] == 44 && s@[other] == 44);
    }
    if !mentions_base64(s, 5, comma) {
        return None;
    }
    assert(splits_at(s@, comma as int));
    Some(decode_payload(s, comma + 1))
}

/// Decoding two payloads one after the other reads their six-bit values one after the other.
pub proof fn lemma_sextets_concat(a: Seq<u8>, b: Seq<u8>)
    ensures
        sextets(a + b) == sextets(a) + sextets(b),
    decreases b.len(),
{
    if b.len() == 0 {
        assert(a + b =~= a);
        assert(sextets(a) + sextets(b) =~= sextets(a));
    } else {
        lemma_sextets_concat(a, b.drop_last());
        assert((a + b).drop_last() =~= a + b.drop_last());
        assert((a + b).last() == b.last());
        assert(sextets(a + b) =~= sextets(a) + sextets(b));
    }
}

/// Characters outside the alphabet carry no bits: taking a run of them out of a
/// payload leaves what it decodes to unchanged.
pub proof fn law_other_characters_carry_no_bits(a: Seq<u8>, junk: Seq<u8>, b: Seq<u8>)
    requires
        forall|i: int| 0 <= i < junk.len() ==> sextet(#[trigger] junk[i]) is None,
    ensures
        bytes_of(sextets(a + junk + b)) == bytes_of(sextets(a + b)),
{
    lemma_junk(junk);
    lemma_sextets_concat(a + junk, b);
    lemma_sextets_concat(a, junk);
    lemma_sextets_concat(a, b);
    assert(sextets(a) + Seq::<int>::empty() =~= sextets(a));
}

proof fn lemma_junk(junk: Seq<u8>)
    requires
        forall|i: int| 0 <= i < junk.len() ==> sextet(#[trigger] junk[i]) is None,
    ensures
        sextets(junk) == Seq::<int>::empty(),
    decreases junk.len(),
{
    if junk.len() > 0 {
        lemma_junk(junk.drop_last());
        assert(sextet(junk[junk.len() - 1]) is None);
    }
}

/// The character of the base64 alphabet that stands for a six-bit value.
pub open spec fn alphabet(v: int) -> u8 {
    if v < 26 {
        (v + 65) as u8
    } else if v < 52 {
        (v - 26 + 97) as u8
    } else if v < 62 {
        (v - 52 + 48) as u8
    } else if v == 62 {
        43
    } else {
        47
    }
}

/// Six-bit value `j` of the bit stream of `data`, with zero bits after its end.
pub open spec fn sextet_at(data: Seq<u8>, j: int) -> int {
    let k = j / 4 * 3;
    let next = if k + 1 < data.len() {
        data[k + 1] as int
    } else {
        0
    };
    let after = if k + 2 < data.len() {
        data[k + 2] as int
    } else {
        0
    };
    if j % 4 == 0 {
        data[k] as int / 4
    } else if j % 4 == 1 {
        data[k] % 4 * 16 + next / 16
    } else if j % 4 == 2 {
        next % 16 * 4 + after / 64
    } else {
        after % 64
    }
}

/// `data` in base64, without padding.
pub open spec fn base64_of(data: Seq<u8>) -> Seq<u8> {
    Seq::new(((8 * data.len() + 5) / 6) as nat, |j: int| alphabet(sextet_at(data, j)))
}

proof fn lemma_base64_sextets(data: Seq<u8>, n: int)
    requires
        0 <= n <= base64_of(data).len(),
    ensures
        sextets(base64_of(data).take(n)) == Seq::new(n as nat, |j: int| sextet_at(data, j)),
    decreases n,
{
    let text = base64_of(data);
    if n > 0 {
        lemma_base64_sextets(data, n - 1);
        assert(text.take(n).drop_last() =~= text.take(n - 1));
        let v = sextet_at(data, n - 1);
        assert(0 <= v < 64) by {
            let k = (n - 1) / 4 * 3;
            assert(k < data.len());
        }
        assert(sextet(alphabet(v)) == Some(v));
        assert(sextets(text.take(n)) =~= Seq::new(n as nat, |j: int| sextet_at(data, j)));
    } else {
        assert(sextets(text.take(0)) =~= Seq::new(0, |j: int| sextet_at(data, j)));
    }
}

/// Decoding what base64 encoding wrote gives the data back, with or without padding.
pub proof fn law_decoding_undoes_encoding(data: Seq<u8>, padding: Seq<u8>)
    requires
        forall|i: int| 0 <= i < padding.len() ==> #[trigger] padding[i] == 61,
    ensures
        bytes_of(sextets(base64_of(data) + padding)) == data,
{
    let text = base64_of(data);
    lemma_base64_sextets(data, text.len() as int);
    assert(text.take(text.len() as int) =~= text);
    lemma_junk(padding);
    lemma_sextets_concat(text, padding);
    let s = sextets(text);
    assert(s + Seq::<int>::empty() =~= s);
    let n = data.len() as int;
    assert(6 * s.len() / 8 == n);
    assert forall|i: int| 0 <= i < n implies byte_at(s, i) == #[trigger] data[i] by {
        let q = i / 3;
        let k = 4 * q;
        if i % 3 == 0 {
            assert(s[k] == data[i] / 4 && s[k + 1] / 16 == data[i] % 4);
        } else if i % 3 == 1 {
            assert(s[k + 1] % 16 == data[i] / 16 && s[k + 2] / 4 == data[i] % 16);
        } else {
            assert(s[k + 2] % 4 == data[i] / 64 && s[k + 3] == data[i] % 64);
        }
    }
    assert(bytes_of(s) =~= data);
}

/// A data URI whose header mentions base64 decodes to what was encoded in it.
pub proof fn law_data_uri_round_trip(header: Seq<u8>, data: Seq<u8>, padding: Seq<u8>)
    requires
        forall|i: int| 0 <= i < header.len() ==> #[trigger] header[i] != 44,
        holds(header, base64_mark()),
        forall|i: int| 0 <= i < padding.len() ==> #[trigger] padding[i] == 61,
    ensures
        decoded_uri(data_prefix() + header + seq![44u8] + base64_of(data) + padding) == Some(data),
{
    let payload = base64_of(data) + padding;
    let uri = data_prefix() + header + seq![44u8] + base64_of(data) + padding;
    let comma = 5 + header.len() as int;
    assert(uri.subrange(0, 5) =~= data_prefix());
    assert(uri.subrange(5, comma) =~= header);
    assert(uri.subrange(comma + 1, uri.len() as int) =~= payload);
    assert forall|j: int| 5 <= j < comma implies #[trigger] uri[j] != 44 by {
        assert(uri[j] == header[j - 5]);
    }
    assert(splits_at(uri, comma));
    lemma_splits_once(uri, comma, choose|c: int| splits_at(uri, c));
    law_decoding_undoes_encoding(data, padding);
}

/// Text that does not start with `data:`, or whose header does not mention base64, is not
/// taken for a data URI.
pub proof fn law_other_text_is_refused(uri: Seq<u8>, comma: int)
    requires
        uri.len() < 5 || uri.subrange(0, 5) != data_prefix() || (5 <= comma < uri.len()
            && uri[comma] == 44 && (forall|j: int| 5 <= j < comma ==> #[trigger] uri[j] != 44)
            && !holds(uri.subrange(5, comma), base64_mark())),
    ensures
        decoded_uri(uri) is None,
{
    assert forall|c: int| !#[trigger] splits_at(uri, c) by {
        if splits_at(uri, c) {
            assert(uri[comma] == 44 && uri[c] == 44);
            assert(c == comma);
        }
    }
}

} // verus!
