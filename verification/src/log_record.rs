use vstd::prelude::*;
use crate::error::{Errors, Result};

verus! {

/// The two kinds of durable log records.
#[derive(Clone, Copy, Debug, PartialEq, Eq, Structural)]
pub enum LogRecordType {
    /// A record written by a put.
    NORMAL,
    /// A tombstone marking a key as deleted.
    DELETED,
}

/// A single durable unit appended to a data file.
#[derive(Clone, Debug)]
pub struct LogRecord {
    pub key: Vec<u8>,
    pub value: Vec<u8>,
    pub rec_type: LogRecordType,
}

/// The mathematical content of a [`LogRecord`].
#[verifier::ext_equal]
pub struct RecordView {
    pub key: Seq<u8>,
    pub value: Seq<u8>,
    pub rec_type: LogRecordType,
}

impl View for LogRecord {
    type V = RecordView;

    open spec fn view(&self) -> RecordView {
        RecordView { key: self.key@, value: self.value@, rec_type: self.rec_type }
    }
}

/// Where a record's first byte sits on disk: a data file id and a byte offset.
#[derive(Clone, Copy, Debug, PartialEq, Eq, Structural)]
pub struct LogRecordPos {
    pub file_id: u32,
    pub offset: u64,
}

/// A record decoded from a data file, paired with the exact number of bytes
/// it occupied; `size` is the sole authority on how far a scan advances.
#[derive(Debug)]
pub struct ReadLogRecord {
    pub record: LogRecord,
    pub size: u64,
}

impl LogRecordPos {
    pub fn new(file_id: u32, offset: u64) -> (r: Self)
        ensures
            r.file_id == file_id,
            r.offset == offset,
    {
        Self { file_id, offset }
    }

    pub fn get_file_id(&self) -> (r: u32)
        ensures
            r == self.file_id,
    {
        self.file_id
    }

    pub fn get_offset(&self) -> (r: u64)
        ensures
            r == self.offset,
    {
        self.offset
    }
}

// ---------------------------------------------------------------------------
// CRC-32 (IEEE, reflected, bitwise definition)
// ---------------------------------------------------------------------------

/// One shift-and-conditionally-xor round of the reflected CRC-32 polynomial.
pub open spec fn crc32_step(c: u32) -> u32 {
    if c & 1 == 1 {
        (c >> 1) ^ 0xEDB8_8320u32
    } else {
        c >> 1
    }
}

/// `crc32_step` applied `k` times.
pub open spec fn crc32_steps(c: u32, k: nat) -> u32
    decreases k,
{
    if k == 0 {
        c
    } else {
        crc32_step(crc32_steps(c, (k - 1) as nat))
    }
}

/// Folding one byte into a running CRC-32 state.
pub open spec fn crc32_byte(c: u32, b: u8) -> u32 {
    crc32_steps(c ^ (b as u32), 8)
}

/// Folding a whole byte sequence into a running CRC-32 state.
pub open spec fn crc32_acc(c: u32, s: Seq<u8>) -> u32
    decreases s.len(),
{
    if s.len() == 0 {
        c
    } else {
        crc32_acc(crc32_byte(c, s[0]), s.drop_first())
    }
}

/// The CRC-32 checksum of a byte sequence.
pub open spec fn crc32_of(s: Seq<u8>) -> u32 {
    crc32_acc(0xFFFF_FFFFu32, s) ^ 0xFFFF_FFFFu32
}

fn crc32_step_exec(c: u32) -> (r: u32)
    ensures
        r == crc32_step(c),
{
    if c & 1 == 1 {
        (c >> 1) ^ 0xEDB8_8320u32
    } else {
        c >> 1
    }
}

fn crc32_byte_exec(c: u32, b: u8) -> (r: u32)
    ensures
        r == crc32_byte(c, b),
{
    let mut x = c ^ (b as u32);
    let mut k: usize = 0;
    while k < 8
        invariant
            k <= 8,
            x == crc32_steps(c ^ (b as u32), k as nat),
        decreases 8 - k,
    {
        x = crc32_step_exec(x);
        k = k + 1;
    }
    x
}

proof fn lemma_crc32_acc_snoc(c: u32, s: Seq<u8>, b: u8)
    ensures
        crc32_acc(c, s.push(b)) == crc32_byte(crc32_acc(c, s), b),
    decreases s.len(),
{
    assert(s.push(b).len() == s.len() + 1);
    if s.len() == 0 {
        assert(s.push(b)[0] == b);
        assert(s.push(b).drop_first() =~= Seq::<u8>::empty());
        assert(crc32_acc(crc32_byte(c, b), Seq::<u8>::empty()) == crc32_byte(c, b));
    } else {
        assert(s.push(b)[0] == s[0]);
        assert(s.push(b).drop_first() =~= s.drop_first().push(b));
        lemma_crc32_acc_snoc(crc32_byte(c, s[0]), s.drop_first(), b);
    }
}

/// The CRC-32 of `buf[start..end]`.
fn crc32_range(buf: &Vec<u8>, start: usize, end: usize) -> (r: u32)
    requires
        start <= end <= buf.len(),
    ensures
        r == crc32_of(buf@.subrange(start as int, end as int)),
{
    let mut c: u32 = 0xFFFF_FFFF;
    let mut i = start;
    while i < end
        invariant
            start <= i <= end <= buf.len(),
            c == crc32_acc(0xFFFF_FFFFu32, buf@.subrange(start as int, i as int)),
        decreases end - i,
    {
        c = crc32_byte_exec(c, buf[i]);
        proof {
            assert(buf@.subrange(start as int, i + 1) =~= buf@.subrange(
                start as int,
                i as int,
            ).push(buf@[i as int]));
            lemma_crc32_acc_snoc(0xFFFF_FFFFu32, buf@.subrange(start as int, i as int), buf@[i as int]);
        }
        i = i + 1;
    }
    c ^ 0xFFFF_FFFF
}

// ---------------------------------------------------------------------------
// Variable-length unsigned integers (LEB128)
// ---------------------------------------------------------------------------

/// The LEB128 encoding of an unsigned integer: seven payload bits per byte,
/// least significant group first, high bit set on every byte but the last.
pub open spec fn spec_varint(n: nat) -> Seq<u8>
    decreases n,
{
    if n < 128 {
        seq![n as u8]
    } else {
        seq![(n % 128 + 128) as u8] + spec_varint(n / 128)
    }
}

/// Parsing a LEB128 integer at `off`: the value and the offset just past it.
pub open spec fn parse_varint(s: Seq<u8>, off: nat) -> Option<(nat, nat)>
    decreases s.len() - off,
{
    if off >= s.len() {
        None
    } else {
        let b = s[off as int];
        if b < 128 {
            Some(((b as nat), off + 1))
        } else {
            match parse_varint(s, off + 1) {
                None => None,
                Some((v, end)) => Some((((b - 128) as nat) + 128 * v, end)),
            }
        }
    }
}

pub proof fn lemma_parse_varint_bounds(s: Seq<u8>, off: nat)
    requires
        parse_varint(s, off) is Some,
    ensures
        off < parse_varint(s, off)->Some_0.1 <= s.len(),
    decreases s.len() - off,
{
    let b = s[off as int];
    if b >= 128 {
        lemma_parse_varint_bounds(s, off + 1);
    }
}

/// A successful varint parse depends only on the bytes it consumed.
pub proof fn lemma_parse_varint_extension(s1: Seq<u8>, s2: Seq<u8>, off: nat)
    requires
        parse_varint(s1, off) is Some,
        parse_varint(s1, off)->Some_0.1 <= s2.len(),
        s2.subrange(off as int, parse_varint(s1, off)->Some_0.1 as int) == s1.subrange(
            off as int,
            parse_varint(s1, off)->Some_0.1 as int,
        ),
    ensures
        parse_varint(s2, off) == parse_varint(s1, off),
    decreases s1.len() - off,
{
    let end = parse_varint(s1, off)->Some_0.1;
    lemma_parse_varint_bounds(s1, off);
    assert(s2[off as int] == s2.subrange(off as int, end as int)[0]);
    assert(s1[off as int] == s1.subrange(off as int, end as int)[0]);
    let b = s1[off as int];
    if b >= 128 {
        lemma_parse_varint_bounds(s1, off + 1);
        assert(parse_varint(s1, off + 1)->Some_0.1 == end);
        assert(s2.subrange(off as int + 1, end as int) =~= s2.subrange(off as int, end as int).subrange(
            1,
            end - off,
        ));
        assert(s1.subrange(off as int + 1, end as int) =~= s1.subrange(off as int, end as int).subrange(
            1,
            end - off,
        ));
        lemma_parse_varint_extension(s1, s2, off + 1);
    }
}

/// Parsing an encoded varint recovers the encoded value.
pub proof fn lemma_varint_roundtrip_at(s: Seq<u8>, off: nat, n: nat)
    requires
        off + spec_varint(n).len() <= s.len(),
        s.subrange(off as int, off + spec_varint(n).len() as int) == spec_varint(n),
    ensures
        parse_varint(s, off) == Some((n, (off + spec_varint(n).len()) as nat)),
    decreases n,
{
    let enc = spec_varint(n);
    assert(s[off as int] == s.subrange(off as int, off as int + enc.len() as int)[0]);
    if n < 128 {
        assert(s[off as int] == n as u8);
    } else {
        let tail = spec_varint(n / 128);
        assert(s[off as int] == (n % 128 + 128) as u8);
        assert(s.subrange(off as int + 1, off as int + 1 + tail.len() as int) =~= enc.subrange(1, enc.len() as int));
        assert(enc.subrange(1, enc.len() as int) =~= tail);
        lemma_varint_roundtrip_at(s, off + 1, n / 128);
        let b = s[off as int];
        assert((b - 128) as nat == n % 128);
        assert(n % 128 + 128 * (n / 128) == n) by {
            vstd::arithmetic::div_mod::lemma_fundamental_div_mod(n as int, 128);
        }
    }
}

/// Append the LEB128 encoding of `n` to `out`.
fn write_varint(out: &mut Vec<u8>, n: u64)
    ensures
        final(out)@ == old(out)@ + spec_varint(n as nat),
{
    let mut m = n;
    while m >= 128
        invariant
            out@ + spec_varint(m as nat) == old(out)@ + spec_varint(n as nat),
        decreases m,
    {
        let b: u8 = (m % 128 + 128) as u8;
        proof {
            assert(spec_varint(m as nat) =~= seq![b] + spec_varint((m as nat) / 128));
            assert(out@.push(b) + spec_varint((m as nat) / 128) =~= out@ + spec_varint(m as nat));
        }
        out.push(b);
        m = m / 128;
    }
    proof {
        assert(spec_varint(m as nat) =~= seq![m as u8]);
        assert(out@.push(m as u8) =~= out@ + spec_varint(m as nat));
    }
    out.push(m as u8);
}

/// A parsed varint clipped to `u64`: `None` when the bytes do not form a
/// varint here or the value does not fit.
pub open spec fn varint_result(s: Seq<u8>, off: nat) -> Option<(u64, usize)> {
    match parse_varint(s, off) {
        None => None,
        Some((v, end)) => if v <= u64::MAX as nat {
            Some((v as u64, end as usize))
        } else {
            None
        },
    }
}

/// Read a LEB128 integer from `buf` at `off`.
fn read_varint(buf: &Vec<u8>, off: usize) -> (r: Option<(u64, usize)>)
    ensures
        r == varint_result(buf@, off as nat),
    decreases buf.len() - off,
{
    if off >= buf.len() {
        return None;
    }
    let b = buf[off];
    if b < 128 {
        Some((b as u64, off + 1))
    } else {
        match read_varint(buf, off + 1) {
            None => {
                proof {
                    if parse_varint(buf@, off as nat + 1) is Some {
                        let (v2, _) = parse_varint(buf@, off as nat + 1)->Some_0;
                        assert(128 * v2 >= v2) by (nonlinear_arith);
                    }
                }
                None
            },
            Some((v, end)) => {
                let low = (b - 128) as u64;
                if v > (u64::MAX - low) / 128 {
                    proof {
                        let q = ((u64::MAX - low) / 128) as nat;
                        assert(((u64::MAX - low) as nat) < 128 * q + 128) by {
                            vstd::arithmetic::div_mod::lemma_fundamental_div_mod(
                                (u64::MAX - low) as int,
                                128,
                            );
                        }
                        assert(v as nat >= q + 1);
                        assert(128 * (v as nat) >= 128 * (q + 1)) by (nonlinear_arith)
                            requires
                                v as nat >= q + 1,
                        ;
                    }
                    None
                } else {
                    proof {
                        let q = ((u64::MAX - low) / 128) as nat;
                        assert(128 * q <= (u64::MAX - low) as nat) by {
                            vstd::arithmetic::div_mod::lemma_fundamental_div_mod(
                                (u64::MAX - low) as int,
                                128,
                            );
                        }
                        assert(128 * (v as nat) <= 128 * q) by (nonlinear_arith)
                            requires
                                v as nat <= q,
                        ;
                    }
                    Some((low + 128 * v, end))
                }
            },
        }
    }
}

// ---------------------------------------------------------------------------
// Record encoding
// ---------------------------------------------------------------------------

/// The little-endian interpretation of four bytes.
pub open spec fn le32(b0: u8, b1: u8, b2: u8, b3: u8) -> u32 {
    (b0 as u32) | ((b1 as u32) << 8) | ((b2 as u32) << 16) | ((b3 as u32) << 24)
}

/// The four little-endian bytes of a 32-bit integer.
pub open spec fn le32_bytes(c: u32) -> Seq<u8> {
    seq![
        (c & 0xFF) as u8,
        ((c >> 8) & 0xFF) as u8,
        ((c >> 16) & 0xFF) as u8,
        ((c >> 24) & 0xFF) as u8,
    ]
}

pub proof fn lemma_le32_roundtrip(c: u32)
    ensures
        le32(
            (c & 0xFF) as u8,
            ((c >> 8) & 0xFF) as u8,
            ((c >> 16) & 0xFF) as u8,
            ((c >> 24) & 0xFF) as u8,
        ) == c,
{
    assert((((c & 0xFF) as u8) as u32) | (((((c >> 8) & 0xFF) as u8) as u32) << 8) | (((((c >> 16)
        & 0xFF) as u8) as u32) << 16) | (((((c >> 24) & 0xFF) as u8) as u32) << 24) == c)
        by (bit_vector);
}

/// The wire byte of a record type tag.
pub open spec fn type_byte(t: LogRecordType) -> u8 {
    match t {
        LogRecordType::NORMAL => 1,
        LogRecordType::DELETED => 2,
    }
}

/// Everything after the CRC field: type tag, the two length varints, key, value.
pub open spec fn record_body(r: RecordView) -> Seq<u8> {
    seq![type_byte(r.rec_type)] + spec_varint(r.key.len()) + spec_varint(r.value.len()) + r.key
        + r.value
}

/// The full on-disk encoding of a record: CRC-32 of the body, then the body.
pub open spec fn record_encoding(r: RecordView) -> Seq<u8> {
    le32_bytes(crc32_of(record_body(r))) + record_body(r)
}

/// Append a copy of `src` to `dst`.
fn push_bytes(dst: &mut Vec<u8>, src: &Vec<u8>)
    ensures
        final(dst)@ == old(dst)@ + src@,
{
    let ghost dst0 = dst@;
    let mut i: usize = 0;
    while i < src.len()
        invariant
            i <= src.len(),
            dst@ == dst0 + src@.subrange(0, i as int),
        decreases src.len() - i,
    {
        proof {
            assert(dst0 + src@.subrange(0, i + 1) =~= (dst0 + src@.subrange(0, i as int)).push(
                src@[i as int],
            ));
        }
        dst.push(src[i]);
        i = i + 1;
    }
    proof {
        assert(dst0 + src@.subrange(0, src@.len() as int) =~= dst0 + src@);
    }
}

impl LogRecord {
    /// A record carrying a put of `value` under `key`.
    pub fn new(key: Vec<u8>, value: Vec<u8>) -> (r: Self)
        ensures
            r@ == (RecordView { key: key@, value: value@, rec_type: LogRecordType::NORMAL }),
    {
        Self { key, value, rec_type: LogRecordType::NORMAL }
    }

    /// The on-disk byte sequence of this record.
    pub fn encode(&self) -> (r: Vec<u8>)
        ensures
            r@ == record_encoding(self@),
    {
        let mut body: Vec<u8> = Vec::new();
        let tb: u8 = match self.rec_type {
            LogRecordType::NORMAL => 1,
            LogRecordType::DELETED => 2,
        };
        body.push(tb);
        write_varint(&mut body, self.key.len() as u64);
        write_varint(&mut body, self.value.len() as u64);
        push_bytes(&mut body, &self.key);
        push_bytes(&mut body, &self.value);
        proof {
            assert(body@ =~= record_body(self@));
        }
        let c = crc32_range(&body, 0, body.len());
        proof {
            assert(body@.subrange(0, body@.len() as int) =~= body@);
        }
        let mut out: Vec<u8> = Vec::new();
        out.push((c & 0xFF) as u8);
        out.push(((c >> 8) & 0xFF) as u8);
        out.push(((c >> 16) & 0xFF) as u8);
        out.push(((c >> 24) & 0xFF) as u8);
        push_bytes(&mut out, &body);
        proof {
            assert(out@ =~= record_encoding(self@));
        }
        out
    }
}

// ---------------------------------------------------------------------------
// Record parsing
// ---------------------------------------------------------------------------

/// Parsing one record at `off`: the record's content and the offset just past
/// it. `None` when the bytes at `off` do not hold a well-formed record: too
/// few bytes, an unknown type tag, a length that cannot be represented, a
/// payload that runs past the end, or a checksum mismatch.
pub open spec fn spec_parse_record(s: Seq<u8>, off: nat) -> Option<(RecordView, nat)> {
    if off + 5 > s.len() {
        None
    } else {
        let stored = le32(s[off as int], s[off as int + 1], s[off as int + 2], s[off as int + 3]);
        let tb = s[off as int + 4];
        if tb != 1 && tb != 2 {
            None
        } else {
            match parse_varint(s, off + 5) {
                None => None,
                Some((klen, o1)) => match parse_varint(s, o1) {
                    None => None,
                    Some((vlen, o2)) => {
                        if klen > u64::MAX as nat || vlen > u64::MAX as nat {
                            None
                        } else if o2 + klen + vlen > s.len() {
                            None
                        } else {
                            let kend = o2 + klen;
                            let end = o2 + klen + vlen;
                            let rv = RecordView {
                                key: s.subrange(o2 as int, kend as int),
                                value: s.subrange(kend as int, end as int),
                                rec_type: if tb == 1 {
                                    LogRecordType::NORMAL
                                } else {
                                    LogRecordType::DELETED
                                },
                            };
                            if stored == crc32_of(s.subrange(off as int + 4, end as int)) {
                                Some((rv, end))
                            } else {
                                None
                            }
                        }
                    },
                },
            }
        }
    }
}

pub proof fn lemma_parse_record_bounds(s: Seq<u8>, off: nat)
    requires
        spec_parse_record(s, off) is Some,
    ensures
        off + 5 <= spec_parse_record(s, off)->Some_0.1 <= s.len(),
{
    let (klen, o1) = parse_varint(s, off + 5)->Some_0;
    lemma_parse_varint_bounds(s, off + 5);
    lemma_parse_varint_bounds(s, o1);
}

/// A successful record parse depends only on the bytes it consumed.
pub proof fn lemma_parse_record_extension(s1: Seq<u8>, s2: Seq<u8>, off: nat)
    requires
        spec_parse_record(s1, off) is Some,
        spec_parse_record(s1, off)->Some_0.1 <= s2.len(),
        s2.subrange(off as int, spec_parse_record(s1, off)->Some_0.1 as int) == s1.subrange(
            off as int,
            spec_parse_record(s1, off)->Some_0.1 as int,
        ),
    ensures
        spec_parse_record(s2, off) == spec_parse_record(s1, off),
{
    let end = spec_parse_record(s1, off)->Some_0.1;
    lemma_parse_record_bounds(s1, off);
    let w1 = s1.subrange(off as int, end as int);
    let w2 = s2.subrange(off as int, end as int);
    assert forall|j: int| off <= j < end implies s2[j] == s1[j] by {
        assert(s1[j] == w1[j - off]);
        assert(s2[j] == w2[j - off]);
    }
    let (klen, o1) = parse_varint(s1, off + 5)->Some_0;
    lemma_parse_varint_bounds(s1, off + 5);
    let (vlen, o2) = parse_varint(s1, o1)->Some_0;
    lemma_parse_varint_bounds(s1, o1);
    assert(s2.subrange(off as int + 5, o1 as int) =~= s1.subrange(off as int + 5, o1 as int));
    lemma_parse_varint_extension(s1, s2, off + 5);
    assert(s2.subrange(o1 as int, o2 as int) =~= s1.subrange(o1 as int, o2 as int));
    lemma_parse_varint_extension(s1, s2, o1);
    let kend = o2 + klen;
    assert(s2.subrange(o2 as int, kend as int) =~= s1.subrange(o2 as int, kend as int));
    assert(s2.subrange(kend as int, end as int) =~= s1.subrange(kend as int, end as int));
    assert(s2.subrange(off as int + 4, end as int) =~= s1.subrange(off as int + 4, end as int));
}

/// Parsing an encoded record at its own offset recovers the record.
pub proof fn lemma_record_roundtrip_at(s: Seq<u8>, off: nat, r: RecordView)
    requires
        r.key.len() <= u64::MAX as nat,
        r.value.len() <= u64::MAX as nat,
        off + record_encoding(r).len() <= s.len(),
        s.subrange(off as int, off + record_encoding(r).len() as int) == record_encoding(r),
    ensures
        spec_parse_record(s, off) == Some((r, (off + record_encoding(r).len()) as nat)),
{
    let body = record_body(r);
    let enc = record_encoding(r);
    let c = crc32_of(body);
    let end = off + enc.len();
    let w = s.subrange(off as int, end as int);
    assert forall|j: int| 0 <= j < enc.len() implies s[off + j] == enc[j] by {
        assert(s[off + j] == w[j]);
    }
    let vk = spec_varint(r.key.len());
    let vv = spec_varint(r.value.len());
    // positions inside the encoding
    let o1 = off + 5 + vk.len();
    let o2 = o1 + vv.len();
    let kend = o2 + r.key.len();
    assert(enc.len() == 5 + vk.len() + vv.len() + r.key.len() + r.value.len());
    assert(enc[4] == type_byte(r.rec_type));
    assert(s[off as int + 4] == type_byte(r.rec_type));
    // the two varints parse back to the lengths
    assert(s.subrange(off as int + 5, o1 as int) =~= vk) by {
        assert forall|j: int| 0 <= j < vk.len() implies s.subrange(
            off as int + 5,
            o1 as int,
        )[j] == vk[j] by {
            assert(enc[5 + j] == vk[j]);
        }
    }
    lemma_varint_roundtrip_at(s, off + 5, r.key.len());
    assert(s.subrange(o1 as int, o2 as int) =~= vv) by {
        assert forall|j: int| 0 <= j < vv.len() implies s.subrange(o1 as int, o2 as int)[j]
            == vv[j] by {
            assert(enc[o1 - off + j] == vv[j]);
        }
    }
    lemma_varint_roundtrip_at(s, o1, r.value.len());
    assert(parse_varint(s, off + 5) == Some((r.key.len(), o1)));
    assert(parse_varint(s, o1) == Some((r.value.len(), o2)));
    // key and value slices
    assert(s.subrange(o2 as int, kend as int) =~= r.key) by {
        assert forall|j: int| 0 <= j < r.key.len() implies s.subrange(
            o2 as int,
            kend as int,
        )[j] == r.key[j] by {
            assert(enc[o2 - off + j] == r.key[j]);
        }
    }
    assert(s.subrange(kend as int, end as int) =~= r.value) by {
        assert forall|j: int| 0 <= j < r.value.len() implies s.subrange(
            kend as int,
            end as int,
        )[j] == r.value[j] by {
            assert(enc[kend - off + j] == r.value[j]);
        }
    }
    // the checksum matches
    assert(s.subrange(off as int + 4, end as int) =~= body) by {
        assert forall|j: int| 0 <= j < body.len() implies s.subrange(
            off as int + 4,
            end as int,
        )[j] == body[j] by {
            assert(enc[4 + j] == body[j]);
        }
    }
    assert(le32_bytes(c)[0] == (c & 0xFF) as u8);
    assert(s[off as int + 0] == enc[0] && s[off as int + 1] == enc[1] && s[off as int + 2]
        == enc[2] && s[off as int + 3] == enc[3]);
    assert(enc[0] == (c & 0xFF) as u8);
    assert(enc[1] == ((c >> 8) & 0xFF) as u8);
    assert(enc[2] == ((c >> 16) & 0xFF) as u8);
    assert(enc[3] == ((c >> 24) & 0xFF) as u8);
    assert(s[off as int] == (c & 0xFF) as u8);
    assert(s[off as int + 1] == ((c >> 8) & 0xFF) as u8);
    assert(s[off as int + 2] == ((c >> 16) & 0xFF) as u8);
    assert(s[off as int + 3] == ((c >> 24) & 0xFF) as u8);
    lemma_le32_roundtrip(c);
    let parsed = spec_parse_record(s, off)->Some_0.0;
    assert(parsed =~= r);
}

/// Copy `buf[from..to]` into a fresh vector.
pub(crate) fn copy_range(buf: &Vec<u8>, from: usize, to: usize) -> (r: Vec<u8>)
    requires
        from <= to <= buf.len(),
    ensures
        r@ == buf@.subrange(from as int, to as int),
{
    let mut out: Vec<u8> = Vec::new();
    let mut i = from;
    while i < to
        invariant
            from <= i <= to <= buf.len(),
            out@ == buf@.subrange(from as int, i as int),
        decreases to - i,
    {
        proof {
            assert(buf@.subrange(from as int, i + 1) =~= buf@.subrange(from as int, i as int).push(
                buf@[i as int],
            ));
        }
        out.push(buf[i]);
        i = i + 1;
    }
    out
}

/// Decode the record stored in `buf` at `offset`.
///
/// An offset at or past the end of the buffer is the distinguished end-of-file
/// signal; any other failure to parse is a read failure.
pub fn decode_log_record(buf: &Vec<u8>, offset: u64) -> (r: Result<ReadLogRecord>)
    ensures
        match spec_parse_record(buf@, offset as nat) {
            Some((rv, end)) => match r {
                Ok(rr) => rr.record@ == rv && rr.size as int == end - offset,
                Err(_) => false,
            },
            None => r == Err::<ReadLogRecord, Errors>(
                if offset >= buf@.len() {
                    Errors::ReadDataFileEOF
                } else {
                    Errors::FailedToReadFromDataFile
                },
            ),
        },
{
    if offset >= buf.len() as u64 {
        return Err(Errors::ReadDataFileEOF);
    }
    let off = offset as usize;
    if buf.len() - off < 5 {
        return Err(Errors::FailedToReadFromDataFile);
    }
    let stored: u32 = (buf[off] as u32) | ((buf[off + 1] as u32) << 8) | ((buf[off + 2] as u32)
        << 16) | ((buf[off + 3] as u32) << 24);
    let tb = buf[off + 4];
    if tb != 1 && tb != 2 {
        return Err(Errors::FailedToReadFromDataFile);
    }
    let (klen, o1) = match read_varint(buf, off + 5) {
        Some(p) => p,
        None => {
            return Err(Errors::FailedToReadFromDataFile);
        },
    };
    let (vlen, o2) = match read_varint(buf, o1) {
        Some(p) => p,
        None => {
            return Err(Errors::FailedToReadFromDataFile);
        },
    };
    proof {
        lemma_parse_varint_bounds(buf@, off as nat + 5);
        lemma_parse_varint_bounds(buf@, o1 as nat);
    }
    let avail = (buf.len() - o2) as u64;
    if klen > avail || vlen > avail - klen {
        return Err(Errors::FailedToReadFromDataFile);
    }
    let kend = o2 + klen as usize;
    let end = kend + vlen as usize;
    let crc = crc32_range(buf, off + 4, end);
    if stored != crc {
        return Err(Errors::FailedToReadFromDataFile);
    }
    let key = copy_range(buf, o2, kend);
    let value = copy_range(buf, kend, end);
    let rec_type = if tb == 1 {
        LogRecordType::NORMAL
    } else {
        LogRecordType::DELETED
    };
    let record = LogRecord { key, value, rec_type };
    let size = (end - off) as u64;
    proof {
        let (rv, _) = spec_parse_record(buf@, offset as nat)->Some_0;
        assert(record@ =~= rv);
    }
    Ok(ReadLogRecord { record, size })
}

} // verus!
