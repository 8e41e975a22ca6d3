use vstd::prelude::*;

verus! {

/// The two kinds of on-disk records: live key/value pairs and tombstones.
#[derive(Clone, Copy, Debug, PartialEq, Eq, Structural)]
pub enum LogRecordType {
    Normal,
    Deleted,
}

/// The unit of durability: one key/value pair together with its kind.
#[derive(Debug, PartialEq, Eq)]
pub struct LogRecord {
    pub key: Vec<u8>,
    pub value: Vec<u8>,
    pub record_type: LogRecordType,
}

/// Identifies the first byte of a record within a specific segment.
#[derive(Clone, Copy, Debug, PartialEq, Eq, Structural)]
pub struct LogRecordPos {
    /// The id of the segment file where the record is located.
    pub file_id: u32,
    /// The byte offset within the segment where the record starts.
    pub offset: u64,
}

/// Mathematical image of a [`LogRecord`]: byte sequences instead of vectors.
pub ghost struct SpecRecord {
    pub key: Seq<u8>,
    pub value: Seq<u8>,
    pub record_type: LogRecordType,
}

impl View for LogRecord {
    type V = SpecRecord;

    open spec fn view(&self) -> SpecRecord {
        SpecRecord { key: self.key@, value: self.value@, record_type: self.record_type }
    }
}

/// The single byte that encodes a record type on disk.
pub open spec fn type_byte(t: LogRecordType) -> u8 {
    match t {
        LogRecordType::Normal => 1,
        LogRecordType::Deleted => 2,
    }
}

/// A record is encodable when both lengths fit the format's 32-bit bound.
pub open spec fn encodable(r: SpecRecord) -> bool {
    r.key.len() <= u32::MAX && r.value.len() <= u32::MAX
}

/// Unsigned LEB128 encoding: low seven bits per byte, high bit set on
/// every byte except the last.
pub open spec fn varint_bytes(n: nat) -> Seq<u8>
    decreases n,
{
    if n < 128 {
        seq![n as u8]
    } else {
        seq![(128 + (n % 128)) as u8] + varint_bytes(n / 128)
    }
}

/// Number of bytes the varint encoding of `n` occupies.
pub open spec fn varint_len(n: nat) -> nat {
    varint_bytes(n).len()
}

/// Parses a varint that starts at index `i` of `s`. Returns the decoded
/// value and the number of bytes consumed. Rejects non-minimal encodings,
/// so a successful parse always consumes exactly `varint_len` bytes.
pub open spec fn spec_parse_varint(s: Seq<u8>, i: int) -> Option<(nat, int)>
    decreases s.len() - i,
{
    if i < 0 || i >= s.len() {
        None
    } else if s[i] < 128 {
        Some((s[i] as nat, 1))
    } else {
        match spec_parse_varint(s, i + 1) {
            None => None,
            Some((v, c)) => if v == 0 {
                None
            } else {
                Some((((s[i] - 128) + 128 * v) as nat, c + 1))
            },
        }
    }
}

pub proof fn lemma_varint_len_bounds(n: nat)
    ensures
        1 <= varint_len(n),
        n <= u32::MAX ==> varint_len(n) <= 5,
    decreases n,
{
    if n >= 128 {
        lemma_varint_len_bounds(n / 128);
        if n <= u32::MAX {
            assert(n / 128 / 128 / 128 / 128 < 128) by (nonlinear_arith)
                requires n <= u32::MAX;
            lemma_varint_len_small(n);
        }
    }
}

proof fn lemma_varint_len_small(n: nat)
    ensures
        n < 128 ==> varint_len(n) == 1,
        128 <= n < 16384 ==> varint_len(n) == 2,
        16384 <= n < 2097152 ==> varint_len(n) == 3,
        2097152 <= n < 268435456 ==> varint_len(n) == 4,
        268435456 <= n < 34359738368 ==> varint_len(n) == 5,
    decreases n,
{
    if n >= 128 {
        lemma_varint_len_small(n / 128);
    }
}

/// A varint embedded in a longer sequence parses back to its value,
/// whatever follows it.
pub proof fn lemma_varint_roundtrip(s: Seq<u8>, i: int, n: nat)
    requires
        0 <= i,
        i + varint_len(n) <= s.len(),
        s.subrange(i, i + varint_len(n)) == varint_bytes(n),
    ensures
        spec_parse_varint(s, i) == Some((n, varint_len(n) as int)),
    decreases n,
{
    let w = s.subrange(i, i + varint_len(n));
    if n < 128 {
        assert(s[i] == w[0]);
    } else {
        let rest = varint_bytes(n / 128);
        assert(varint_bytes(n) == seq![(128 + (n % 128)) as u8] + rest);
        assert(s[i] == w[0]);
        assert(s[i] == 128 + (n % 128));
        assert(s.subrange(i + 1, i + 1 + varint_len(n / 128)) =~= rest) by {
            assert forall|k: int| 0 <= k < rest.len() implies
                s.subrange(i + 1, i + 1 + varint_len(n / 128))[k] == rest[k] by {
                assert(s.subrange(i + 1, i + 1 + varint_len(n / 128))[k] == s[i + 1 + k]);
                assert(w[k + 1] == s[i + 1 + k]);
                assert(w[k + 1] == rest[k]);
            }
        }
        lemma_varint_roundtrip(s, i + 1, n / 128);
        assert(n / 128 >= 1);
        assert((s[i] - 128) + 128 * (n / 128) == n % 128 + 128 * (n / 128));
        assert(n % 128 + 128 * (n / 128) == n) by {
            vstd::arithmetic::div_mod::lemma_fundamental_div_mod(n as int, 128);
        }
    }
}

/// A successful varint parse reads exactly the minimal encoding of its
/// value: the consumed bytes are `varint_bytes` of the result.
pub proof fn lemma_varint_parse_props(s: Seq<u8>, i: int)
    requires
        spec_parse_varint(s, i) is Some,
    ensures
        ({
            let (v, c) = spec_parse_varint(s, i)->Some_0;
            &&& c == varint_len(v)
            &&& 0 <= i
            &&& i + c <= s.len()
            &&& s.subrange(i, i + c) =~= varint_bytes(v)
        }),
    decreases s.len() - i,
{
    let (v, c) = spec_parse_varint(s, i)->Some_0;
    if s[i] < 128 {
        assert(s.subrange(i, i + 1) =~= seq![s[i]]);
    } else {
        lemma_varint_parse_props(s, i + 1);
        let (v2, c2) = spec_parse_varint(s, i + 1)->Some_0;
        assert(v == (s[i] - 128) + 128 * v2);
        assert(v % 128 == (s[i] - 128) as nat && v / 128 == v2) by {
            vstd::arithmetic::div_mod::lemma_fundamental_div_mod_converse(
                v as int, 128, v2 as int, (s[i] - 128) as int);
        }
        assert(v >= 128) by {
            assert(v2 >= 1);
            assert(128 * v2 >= 128) by (nonlinear_arith)
                requires v2 >= 1;
        }
        assert(varint_bytes(v) == seq![(128 + (v % 128)) as u8] + varint_bytes(v / 128));
        assert(s.subrange(i, i + c) =~= varint_bytes(v)) by {
            let w = s.subrange(i, i + c);
            let rest = s.subrange(i + 1, i + 1 + c2);
            assert(rest =~= varint_bytes(v2));
            assert forall|k: int| 0 <= k < c implies w[k] == varint_bytes(v)[k] by {
                if k == 0 {
                    assert(w[0] == s[i]);
                } else {
                    assert(w[k] == s[i + k]);
                    assert(varint_bytes(v)[k] == varint_bytes(v2)[k - 1]);
                    assert(rest[k - 1] == s[i + k]);
                }
            }
        }
    }
}

/// 128 raised to the `k`-th power: the place value of the `k`-th varint
/// byte.
pub open spec fn pow128(k: nat) -> nat
    decreases k,
{
    if k == 0 {
        1
    } else {
        128 * pow128((k - 1) as nat)
    }
}

/// The value contributed by `k` continuation bytes starting at `start`:
/// the low seven bits of each, by ascending place value.
pub open spec fn chunks_val(s: Seq<u8>, start: int, k: nat) -> int
    decreases k,
{
    if k == 0 {
        0
    } else {
        (s[start] - 128) + 128 * chunks_val(s, start + 1, (k - 1) as nat)
    }
}

proof fn lemma_chunks_snoc(s: Seq<u8>, start: int, k: nat)
    ensures
        chunks_val(s, start, (k + 1) as nat)
            == chunks_val(s, start, k) + pow128(k) * (s[start + k] - 128),
    decreases k,
{
    if k > 0 {
        reveal_with_fuel(chunks_val, 3);
        let km1 = (k - 1) as nat;
        lemma_chunks_snoc(s, start + 1, km1);
        let x = s[start + k] - 128;
        let a = chunks_val(s, start + 1, km1);
        let p = pow128(km1) as int;
        assert(chunks_val(s, start + 1, k) == a + p * x);
        assert(chunks_val(s, start, (k + 1) as nat)
            == (s[start] - 128) + 128 * chunks_val(s, start + 1, k));
        assert(chunks_val(s, start, k) == (s[start] - 128) + 128 * a);
        assert(128 * (a + p * x) == 128 * a + (128 * p) * x) by (nonlinear_arith);
        assert(pow128(k) == 128 * p);
        assert(128 * p * x == pow128(k) * x) by (nonlinear_arith)
            requires pow128(k) == 128 * p;
        assert(chunks_val(s, start, (k + 1) as nat) == (s[start] - 128) + 128 * (a + p * x));
        assert(chunks_val(s, start, (k + 1) as nat)
            == chunks_val(s, start, k) + pow128(k) * (s[start + k] - 128));
    } else {
        let y = s[start + k] - 128;
        assert(pow128(k) * y == y) by (nonlinear_arith)
            requires pow128(k) == 1;
        assert(chunks_val(s, start, (k + 1) as nat)
            == (s[start] - 128) + 128 * chunks_val(s, start + 1, 0nat));
        assert(chunks_val(s, start, (k + 1) as nat)
            == chunks_val(s, start, k) + pow128(k) * (s[start + k] - 128));
    }
}

/// Peeling `k` continuation bytes off the front of a varint: the whole
/// parse succeeds exactly when the parse after those bytes does, with the
/// continuation bytes contributing their place values.
proof fn lemma_varint_compose(s: Seq<u8>, start: int, k: nat)
    requires
        0 <= start,
        start + k <= s.len(),
        k >= 1,
        forall|j: int| start <= j < start + k ==> s[j] >= 128,
    ensures
        spec_parse_varint(s, start) == (match spec_parse_varint(s, start + k) {
            None => None::<(nat, int)>,
            Some((v, c)) => if v == 0 {
                None::<(nat, int)>
            } else {
                Some((((chunks_val(s, start, k) + pow128(k) * v)) as nat, c + k))
            },
        }),
        0 <= chunks_val(s, start, k) < pow128(k),
    decreases k,
{
    if k == 1 {
        assert(0 <= s[start] - 128 < 128);
    } else {
        lemma_varint_compose(s, start + 1, (k - 1) as nat);
        let km1 = (k - 1) as nat;
        assert(pow128(k) == 128 * pow128(km1));
        assert(chunks_val(s, start, k) == (s[start] - 128) + 128 * chunks_val(s, start + 1, km1));
        assert(0 <= chunks_val(s, start, k) < pow128(k)) by (nonlinear_arith)
            requires
                0 <= chunks_val(s, start + 1, km1) < pow128(km1),
                0 <= s[start] - 128 < 128,
                pow128(k) == 128 * pow128(km1),
                chunks_val(s, start, k) == (s[start] - 128) + 128 * chunks_val(s, start + 1, km1);
        match spec_parse_varint(s, start + k) {
            None => {},
            Some((v, c)) => {
                if v != 0 {
                    let w = (chunks_val(s, start + 1, km1) + pow128(km1) * v) as nat;
                    assert(w > 0) by (nonlinear_arith)
                        requires
                            v >= 1,
                            pow128(km1) >= 1,
                            chunks_val(s, start + 1, km1) >= 0,
                            w == chunks_val(s, start + 1, km1) + pow128(km1) * v;
                    assert(spec_parse_varint(s, start + 1) == Some((w, c + k - 1)));
                    assert(spec_parse_varint(s, start)
                        == Some((((s[start] - 128) + 128 * w) as nat, c + k)));
                    assert((s[start] - 128) + 128 * (chunks_val(s, start + 1, km1) + pow128(km1) * v)
                        == chunks_val(s, start, k) + pow128(k) * v) by (nonlinear_arith)
                        requires
                            pow128(k) == 128 * pow128(km1),
                            chunks_val(s, start, k)
                                == (s[start] - 128) + 128 * chunks_val(s, start + 1, km1);
                } else {
                    assert(spec_parse_varint(s, start + 1) is None);
                }
            },
        }
    }
}

proof fn lemma_pow128_values()
    ensures
        pow128(0) == 1,
        pow128(1) == 128,
        pow128(2) == 16384,
        pow128(3) == 2097152,
        pow128(4) == 268435456,
        pow128(5) == 34359738368,
{
    reveal_with_fuel(pow128, 7);
}

/// Decodes the varint that starts at `start`. Returns the value and the
/// number of bytes consumed, or `None` when the bytes are not a minimal
/// varint of a value that fits the format's 32-bit bound.
pub(crate) fn parse_varint(data: &Vec<u8>, start: usize) -> (r: Option<(u64, usize)>)
    requires
        start <= data.len(),
    ensures
        r matches Some((v, c)) ==> {
            &&& spec_parse_varint(data@, start as int) == Some((v as nat, c as int))
            &&& 1 <= c <= 5
        },
        r is None ==> (spec_parse_varint(data@, start as int) is None
            || spec_parse_varint(data@, start as int)->Some_0.0 > u32::MAX),
{
    let ghost s = data@;
    let n = data.len();
    let mut k: usize = 0;
    let mut acc: u64 = 0;
    let mut factor: u64 = 1;
    proof {
        lemma_pow128_values();
    }
    loop
        invariant
            start <= n,
            n == s.len(),
            s == data@,
            0 <= k <= 5,
            start + k <= n,
            factor == pow128(k as nat),
            acc == chunks_val(s, start as int, k as nat),
            0 <= acc < factor,
            forall|j: int| start <= j < start + k ==> s[j] >= 128,
            pow128(5) == 34359738368,
            factor <= 34359738368,
        decreases 5 - k,
    {
        if k == 5 {
            proof {
                lemma_varint_compose(s, start as int, 5);
                match spec_parse_varint(s, start as int + 5) {
                    None => {},
                    Some((v, c)) => {
                        if v != 0 {
                            assert(pow128(5) * v >= 34359738368) by (nonlinear_arith)
                                requires v >= 1, pow128(5) == 34359738368;
                        }
                    },
                }
            }
            return None;
        }
        if k >= n - start {
            proof {
                assert(spec_parse_varint(s, start as int + k) is None);
                if k >= 1 {
                    lemma_varint_compose(s, start as int, k as nat);
                }
            }
            return None;
        }
        let b = data[start + k];
        if b < 128 {
            if k > 0 && b == 0 {
                proof {
                    assert(spec_parse_varint(s, start as int + k) == Some((0nat, 1int)));
                    lemma_varint_compose(s, start as int, k as nat);
                }
                return None;
            }
            proof {
                lemma_pow128_values();
                lemma_pow128_le(k as nat, 4);
                assert(factor <= 268435456);
                assert(factor * b <= 268435456 * 127) by (nonlinear_arith)
                    requires b <= 127, 0 <= factor <= 268435456;
            }
            let v = acc + factor * (b as u64);
            proof {
                assert(spec_parse_varint(s, start as int + k) == Some((b as nat, 1int)));
                if k >= 1 {
                    lemma_varint_compose(s, start as int, k as nat);
                    assert(v == chunks_val(s, start as int, k as nat) + pow128(k as nat) * b);
                } else {
                    assert(v == 1 * (b as u64)) by (nonlinear_arith)
                        requires acc == 0, factor == 1, v == acc + factor * (b as u64);
                    assert(spec_parse_varint(s, start as int) == Some((b as nat, 1int)));
                }
            }
            return Some((v, k + 1));
        }
        proof {
            lemma_pow128_values();
            lemma_pow128_le(k as nat, 4);
            assert(factor <= 268435456);
            lemma_chunks_snoc(s, start as int, k as nat);
            assert(factor * (b - 128) <= 268435456 * 127) by (nonlinear_arith)
                requires b <= 255, b >= 128, 0 <= factor <= 268435456;
            assert(acc + factor * (b - 128) < factor * 128) by (nonlinear_arith)
                requires acc < factor, b <= 255, factor >= 1;
            assert(pow128((k + 1) as nat) == 128 * pow128(k as nat));
        }
        acc = acc + factor * ((b - 128) as u64);
        factor = factor * 128;
        k += 1;
    }
}

proof fn lemma_pow128_le(a: nat, b: nat)
    requires
        a <= b,
    ensures
        pow128(a) <= pow128(b),
    decreases b,
{
    if a < b {
        lemma_pow128_le(a, (b - 1) as nat);
        assert(pow128(b) == 128 * pow128((b - 1) as nat));
        assert(pow128((b - 1) as nat) <= 128 * pow128((b - 1) as nat)) by (nonlinear_arith)
            requires pow128((b - 1) as nat) >= 0;
    }
}

proof fn lemma_pow128_pos(k: nat)
    ensures
        pow128(k) >= 1,
    decreases k,
{
    if k > 0 {
        lemma_pow128_pos((k - 1) as nat);
    }
}

/// The byte image of a record after the CRC field:
/// type byte, key length, value length, key bytes, value bytes.
pub open spec fn spec_payload(r: SpecRecord) -> Seq<u8> {
    seq![type_byte(r.record_type)]
        + varint_bytes(r.key.len())
        + varint_bytes(r.value.len())
        + r.key
        + r.value
}

/// The full byte image of a record: little-endian CRC-32 of the payload,
/// then the payload.
pub open spec fn spec_encoding(r: SpecRecord) -> Seq<u8> {
    u32_le(crc32_of(spec_payload(r))) + spec_payload(r)
}

/// Encoded size of a record in bytes.
pub open spec fn spec_record_size(r: SpecRecord) -> nat {
    5 + varint_len(r.key.len()) + varint_len(r.value.len()) + r.key.len() + r.value.len()
}

pub proof fn lemma_encoding_size(r: SpecRecord)
    ensures
        spec_encoding(r).len() == spec_record_size(r),
        spec_payload(r).len() == spec_record_size(r) - 4,
{
}

/// The little-endian four-byte image of a 32-bit value.
pub open spec fn u32_le(c: u32) -> Seq<u8> {
    seq![
        (c % 256) as u8,
        ((c / 256) % 256) as u8,
        ((c / 65536) % 256) as u8,
        ((c / 16777216) % 256) as u8,
    ]
}

/// The value of the four little-endian bytes of `s` starting at `off`.
pub open spec fn le32_at(s: Seq<u8>, off: int) -> int {
    s[off] + 256 * (s[off + 1] + 256 * (s[off + 2] + 256 * s[off + 3]))
}

pub proof fn lemma_u32_le_roundtrip(s: Seq<u8>, off: int, c: u32)
    requires
        0 <= off,
        off + 4 <= s.len(),
        s.subrange(off, off + 4) == u32_le(c),
    ensures
        le32_at(s, off) == c,
{
    let w = s.subrange(off, off + 4);
    assert(s[off] == w[0] && s[off + 1] == w[1] && s[off + 2] == w[2] && s[off + 3] == w[3]);
    assert(c % 256 + 256 * ((c / 256) % 256 + 256 * ((c / 65536) % 256 + 256 * ((c / 16777216) % 256))) == c)
        by (bit_vector);
}

/// The CRC-32 (IEEE) checksum of a byte sequence, as `crc32fast` computes
/// it. The checksum is a pure function of the bytes; its table-driven
/// definition is left uninterpreted.
pub uninterp spec fn crc32_of(data: Seq<u8>) -> u32;

/// Relies on `crc32fast::hash`: the CRC-32 (IEEE) checksum of the bytes,
/// a pure function of its input.
#[verifier::external_body]
pub(crate) fn crc32(data: &Vec<u8>) -> (c: u32)
    ensures
        c == crc32_of(data@),
{
    crc32fast::hash(data.as_slice())
}

/// Appends every byte of `src` to `dst`.
pub(crate) fn push_all(dst: &mut Vec<u8>, src: &Vec<u8>)
    ensures
        final(dst)@ == old(dst)@ + src@,
{
    let mut i: usize = 0;
    while i < src.len()
        invariant
            i <= src.len(),
            dst@ == old(dst)@ + src@.subrange(0, i as int),
        decreases src.len() - i,
    {
        dst.push(src[i]);
        assert(old(dst)@ + src@.subrange(0, i as int) + seq![src@[i as int]]
            =~= old(dst)@ + src@.subrange(0, i + 1));
        i += 1;
    }
    assert(src@.subrange(0, src@.len() as int) =~= src@);
}

/// Appends the varint encoding of `n` to `out`.
pub(crate) fn push_varint(out: &mut Vec<u8>, n: u64)
    ensures
        final(out)@ == old(out)@ + varint_bytes(n as nat),
{
    let mut cur: u64 = n;
    while cur >= 128
        invariant
            out@ + varint_bytes(cur as nat) == old(out)@ + varint_bytes(n as nat),
        decreases cur,
    {
        let b: u8 = (128 + (cur % 128)) as u8;
        let ghost prev = cur;
        proof {
            assert(varint_bytes(prev as nat)
                == seq![(128 + (prev as nat % 128)) as u8] + varint_bytes(prev as nat / 128));
        }
        out.push(b);
        cur = cur / 128;
        proof {
            assert(out@ + varint_bytes(cur as nat) =~= old(out)@ + varint_bytes(n as nat));
        }
    }
    out.push(cur as u8);
    proof {
        assert(varint_bytes(cur as nat) == seq![cur as u8]);
        assert(out@ =~= old(out)@ + varint_bytes(n as nat));
    }
}

/// Number of bytes the varint encoding of `n` occupies.
pub(crate) fn varint_size(n: u64) -> (r: u64)
    requires
        n <= u32::MAX,
    ensures
        r == varint_len(n as nat),
        1 <= r <= 5,
{
    proof {
        lemma_varint_len_bounds(n as nat);
    }
    let mut cur: u64 = n;
    let mut count: u64 = 1;
    while cur >= 128
        invariant
            count + varint_len(cur as nat) == 1 + varint_len(n as nat),
            count >= 1,
            varint_len(cur as nat) >= 1,
            varint_len(n as nat) <= 5,
        decreases cur,
    {
        proof {
            assert(varint_bytes(cur as nat)
                == seq![(128 + (cur as nat % 128)) as u8] + varint_bytes(cur as nat / 128));
        }
        cur = cur / 128;
        count += 1;
        proof {
            lemma_varint_len_bounds(cur as nat);
        }
    }
    assert(varint_bytes(cur as nat) == seq![cur as u8]);
    count
}

impl LogRecord {
    /// The payload of the record: everything after the CRC field.
    pub fn compress(&self) -> (out: Vec<u8>)
        requires
            encodable(self@),
        ensures
            out@ == spec_payload(self@),
    {
        let mut out: Vec<u8> = Vec::new();
        out.push(match self.record_type {
            LogRecordType::Normal => 1,
            LogRecordType::Deleted => 2,
        });
        assert(out@ =~= seq![type_byte(self@.record_type)]);
        push_varint(&mut out, self.key.len() as u64);
        push_varint(&mut out, self.value.len() as u64);
        push_all(&mut out, &self.key);
        push_all(&mut out, &self.value);
        proof {
            assert(out@ =~= spec_payload(self@));
        }
        out
    }

    /// The full byte image of the record, CRC first.
    pub fn encode(&self) -> (out: Vec<u8>)
        requires
            encodable(self@),
        ensures
            out@ == spec_encoding(self@),
    {
        let payload = self.compress();
        let c = crc32(&payload);
        let mut out: Vec<u8> = Vec::new();
        out.push((c % 256) as u8);
        out.push(((c / 256) % 256) as u8);
        out.push(((c / 65536) % 256) as u8);
        out.push(((c / 16777216) % 256) as u8);
        assert(out@ =~= u32_le(c));
        push_all(&mut out, &payload);
        out
    }

    /// Encoded size of the record in bytes.
    pub fn size(&self) -> (r: u64)
        requires
            encodable(self@),
        ensures
            r == spec_record_size(self@),
    {
        proof {
            lemma_varint_len_bounds(self@.key.len());
            lemma_varint_len_bounds(self@.value.len());
        }
        5 + varint_size(self.key.len() as u64)
            + varint_size(self.value.len() as u64)
            + self.key.len() as u64
            + self.value.len() as u64
    }

    /// CRC-32 checksum of the record's payload.
    pub fn crc(&self) -> (c: u32)
        requires
            encodable(self@),
        ensures
            c == crc32_of(spec_payload(self@)),
    {
        let payload = self.compress();
        crc32(&payload)
    }
}

} // verus!
