//! Extraction of the AS_PATH from a blob of concatenated BGP path attributes.
use vstd::prelude::*;

verus! {

/// Why an attribute blob yielded no AS_PATH.
#[derive(Debug, Clone, Copy, PartialEq, Eq, Structural)]
pub enum DecodeError {
    /// The blob holds no attribute at all.
    MissingAllAttributes,
    /// The blob ended before an AS_SEQUENCE segment of an AS_PATH attribute was found.
    MissingAsPath,
    /// An AS_PATH segment carries a segment type other than AS_SET or AS_SEQUENCE.
    UnknownAsValue(u8),
    /// An attribute carries a type code outside 1..=16.
    UnknownTypeCode(u8),
    /// A field, or an attribute value, reaches past the end of the blob.
    Truncated,
}

/// Attribute type code of AS_PATH.
pub const AS_PATH: u8 = 2;

/// Segment type of an unordered AS_SET.
pub const AS_SET: u8 = 1;

/// Segment type of an ordered AS_SEQUENCE.
pub const AS_SEQUENCE: u8 = 2;

/// The flag bit that announces a two-byte length field.
pub const EXTENDED_LENGTH: u8 = 0x10;

/// The value of two bytes read as a big-endian unsigned integer.
pub open spec fn be_u16(hi: u8, lo: u8) -> nat {
    hi as nat * 256 + lo as nat
}

/// The value of the four bytes of `b` from `p` on, read as a big-endian unsigned integer.
pub open spec fn be_u32(b: Seq<u8>, p: int) -> nat {
    b[p] as nat * 16777216 + b[p + 1] as nat * 65536 + b[p + 2] as nat * 256 + b[p + 3] as nat
}

/// Whether attribute flags announce a two-byte length field.
pub open spec fn is_extended(flags: u8) -> bool {
    flags & EXTENDED_LENGTH != 0
}

/// The size of the attribute header at `pos`: flags, type code and length field.
pub open spec fn header_size(b: Seq<u8>, pos: int) -> int {
    if is_extended(b[pos]) {
        4
    } else {
        3
    }
}

/// The length field of the attribute header at `pos`.
pub open spec fn length_field(b: Seq<u8>, pos: int) -> nat {
    if is_extended(b[pos]) {
        be_u16(b[pos + 2], b[pos + 3])
    } else {
        b[pos + 2] as nat
    }
}

/// Whether the whole attribute header at `pos` lies within `b`.
pub open spec fn header_fits(b: Seq<u8>, pos: int) -> bool {
    pos + 3 <= b.len() && pos + header_size(b, pos) <= b.len()
}

/// The `count` ASNs stored as consecutive four-byte big-endian values from `start` on.
pub open spec fn asns_at(b: Seq<u8>, start: int, count: nat) -> Seq<u32> {
    Seq::new(count, |i: int| be_u32(b, start + 4 * i) as u32)
}

/// Whether `t` is the type code of an attribute that the decoder steps over.
pub open spec fn is_skipped_type(t: u8) -> bool {
    t == 1 || (3 <= t && t <= 16)
}

/// The outcome of decoding from `pos` on. While `pos < end` the cursor stands at a
/// segment of an AS_PATH value that ends at `end`; otherwise at an attribute header.
pub open spec fn scan(b: Seq<u8>, pos: int, end: int) -> Result<Seq<u32>, DecodeError>
    decreases b.len() - pos,
{
    if 0 <= pos && pos < end && end <= b.len() {
        let kind = b[pos];
        if kind == AS_SET || kind == AS_SEQUENCE {
            if pos + 2 > end {
                Err(DecodeError::Truncated)
            } else {
                let count = b[pos + 1] as nat;
                let next = pos + 2 + 4 * count;
                if next > end {
                    Err(DecodeError::Truncated)
                } else if kind == AS_SET {
                    scan(b, next, end)
                } else {
                    Ok(asns_at(b, pos + 2, count))
                }
            }
        } else {
            Err(DecodeError::UnknownAsValue(kind))
        }
    } else if pos < 0 || pos >= b.len() {
        Err(DecodeError::MissingAsPath)
    } else if !header_fits(b, pos) {
        Err(DecodeError::Truncated)
    } else {
        let t = b[pos + 1];
        let value = pos + header_size(b, pos);
        let value_end = value + length_field(b, pos);
        if !(t == AS_PATH || is_skipped_type(t)) {
            Err(DecodeError::UnknownTypeCode(t))
        } else if value_end > b.len() {
            Err(DecodeError::Truncated)
        } else if t == AS_PATH {
            scan(b, value, value_end)
        } else {
            scan(b, value_end, value_end)
        }
    }
}

/// The AS_PATH that a blob of path attributes holds, before adjacent repeats are collapsed.
pub open spec fn decode_spec(b: Seq<u8>) -> Result<Seq<u32>, DecodeError> {
    if b.len() == 0 {
        Err(DecodeError::MissingAllAttributes)
    } else {
        scan(b, 0, 0)
    }
}

/// The length field is a single byte (0 to 255) where the flags lack the
/// extended-length bit, and a big-endian 16-bit value where they carry it.
pub proof fn lemma_length_field_width(b: Seq<u8>, pos: int)
    requires
        0 <= pos,
        header_fits(b, pos),
    ensures
        b[pos] & 0x10 == 0 ==> length_field(b, pos) == b[pos + 2] as nat && length_field(b, pos)
            <= 255,
        b[pos] & 0x10 != 0 ==> length_field(b, pos) == b[pos + 2] as nat * 256 + b[pos + 3] as nat,
{
}

/// A blob whose first attribute is an AS_PATH that opens with an AS_SEQUENCE segment of
/// `n` ASNs decodes to exactly those `n` ASNs, in encoded order.
pub proof fn lemma_sequence_decodes(b: Seq<u8>)
    requires
        header_fits(b, 0),
        b[1] == AS_PATH,
        header_size(b, 0) + length_field(b, 0) <= b.len(),
        b[header_size(b, 0)] == AS_SEQUENCE,
        header_size(b, 0) + 2 + 4 * b[header_size(b, 0) + 1] <= header_size(b, 0) + length_field(
            b,
            0,
        ),
    ensures
        ({
            let v = header_size(b, 0);
            let n = b[v + 1] as nat;
            &&& decode_spec(b) == Ok::<Seq<u32>, DecodeError>(asns_at(b, v + 2, n))
            &&& asns_at(b, v + 2, n).len() == n
            &&& forall|i: int| 0 <= i < n ==> #[trigger] asns_at(b, v + 2, n)[i] as nat == be_u32(b, v + 2 + 4 * i)
        }),
{
    let v = header_size(b, 0);
    let n = b[v + 1] as nat;
    assert(scan(b, v, v + length_field(b, 0)) == Ok::<Seq<u32>, DecodeError>(asns_at(b, v + 2, n)));
    assert forall|i: int| 0 <= i < n implies #[trigger] asns_at(b, v + 2, n)[i] as nat == be_u32(b, v + 2 + 4 * i) by {
        assert(be_u32(b, v + 2 + 4 * i) < 0x1_0000_0000) by (nonlinear_arith)
            requires
                b[v + 2 + 4 * i] < 256,
                b[v + 3 + 4 * i] < 256,
                b[v + 4 + 4 * i] < 256,
                b[v + 5 + 4 * i] < 256,
                be_u32(b, v + 2 + 4 * i) == b[v + 2 + 4 * i] as nat * 16777216 + b[v + 3 + 4 * i] as nat * 65536
                    + b[v + 4 + 4 * i] as nat * 256 + b[v + 5 + 4 * i] as nat,
        ;
    }
}

/// A blob that holds one AS_PATH attribute whose only segment is an AS_SET decodes to
/// the missing-AS_PATH error: the segment is skipped, not returned.
pub proof fn lemma_lone_set_is_missing(b: Seq<u8>)
    requires
        header_fits(b, 0),
        b[1] == AS_PATH,
        header_size(b, 0) + length_field(b, 0) == b.len(),
        header_size(b, 0) < b.len(),
        b[header_size(b, 0)] == AS_SET,
        header_size(b, 0) + 2 + 4 * b[header_size(b, 0) + 1] == b.len(),
    ensures
        decode_spec(b) == Err::<Seq<u32>, DecodeError>(DecodeError::MissingAsPath),
{
    let v = header_size(b, 0);
    let end = b.len() as int;
    assert(scan(b, end, end) == Err::<Seq<u32>, DecodeError>(DecodeError::MissingAsPath));
    assert(scan(b, v, end) == scan(b, end, end));
}

/// Reads a big-endian `u16` at `pos`.
pub fn read_be_u16(b: &[u8], pos: usize) -> (r: u16)
    requires
        pos + 2 <= b@.len(),
    ensures
        r as nat == be_u16(b@[pos as int], b@[pos + 1]),
{
    (b[pos] as u16) * 256 + (b[pos + 1] as u16)
}

/// Reads a big-endian `u32` at `pos`.
pub fn read_be_u32(b: &[u8], pos: usize) -> (r: u32)
    requires
        pos + 4 <= b@.len(),
    ensures
        r as nat == be_u32(b@, pos as int),
{
    let b0 = b[pos] as u32;
    let b1 = b[pos + 1] as u32;
    let b2 = b[pos + 2] as u32;
    let b3 = b[pos + 3] as u32;
    assert(b0 * 16777216 + b1 * 65536 + b2 * 256 + b3 <= 0xffff_ffff) by (nonlinear_arith)
        requires
            b0 <= 255,
            b1 <= 255,
            b2 <= 255,
            b3 <= 255,
    ;
    b0 * 16777216 + b1 * 65536 + b2 * 256 + b3
}

/// The header of one path attribute.
#[derive(Debug, Clone, Copy, PartialEq, Eq, Structural)]
pub struct AttributeHeader {
    pub flags: u8,
    pub type_code: u8,
    /// The number of value bytes.
    pub length: u16,
    /// Where the value starts in the blob.
    pub value_start: usize,
}

/// Reads the attribute header at `pos`. The length field is one byte, or two
/// big-endian bytes where the flags carry the extended-length bit.
pub fn read_attribute_header(b: &[u8], pos: usize) -> (r: Result<AttributeHeader, DecodeError>)
    requires
        pos < b@.len(),
    ensures
        header_fits(b@, pos as int) <==> r is Ok,
        !header_fits(b@, pos as int) ==> r == Err::<AttributeHeader, DecodeError>(
            DecodeError::Truncated,
        ),
        r matches Ok(h) ==> {
            &&& h.flags == b@[pos as int]
            &&& h.type_code == b@[pos + 1]
            &&& h.length as nat == length_field(b@, pos as int)
            &&& h.value_start == pos + header_size(b@, pos as int)
            &&& !is_extended(h.flags) ==> h.length == b@[pos + 2]
            &&& is_extended(h.flags) ==> h.length as nat == be_u16(b@[pos + 2], b@[pos + 3])
        },
{
    if b.len() - pos < 3 {
        return Err(DecodeError::Truncated);
    }
    let flags = b[pos];
    let type_code = b[pos + 1];
    if flags & EXTENDED_LENGTH != 0 {
        if b.len() - pos < 4 {
            return Err(DecodeError::Truncated);
        }
        let length = read_be_u16(b, pos + 2);
        Ok(AttributeHeader { flags, type_code, length, value_start: pos + 4 })
    } else {
        Ok(AttributeHeader { flags, type_code, length: b[pos + 2] as u16, value_start: pos + 3 })
    }
}

/// Reads the AS_PATH out of a blob of concatenated path attributes: attributes of
/// type 1 and 3 to 16 are stepped over, AS_SET segments of an AS_PATH are skipped,
/// and the ASNs of the first AS_SEQUENCE segment are returned in encoded order.
pub fn as_path_from_bgp_attributes(bgp_attributes: Vec<u8>) -> (r: Result<Vec<u32>, DecodeError>)
    ensures
        match r {
            Ok(path) => decode_spec(bgp_attributes@) == Ok::<Seq<u32>, DecodeError>(path@),
            Err(e) => decode_spec(bgp_attributes@) == Err::<Seq<u32>, DecodeError>(e),
        },
{
    let b = bgp_attributes.as_slice();
    if b.len() == 0 {
        return Err(DecodeError::MissingAllAttributes);
    }
    let mut pos: usize = 0;
    let mut end: usize = 0;
    loop
        invariant
            b@ == bgp_attributes@,
            b@.len() > 0,
            pos <= b@.len(),
            end <= b@.len(),
            scan(b@, pos as int, end as int) == decode_spec(b@),
        decreases b@.len() - pos,
    {
        if pos < end {
            let kind = b[pos];
            if kind != AS_SET && kind != AS_SEQUENCE {
                return Err(DecodeError::UnknownAsValue(kind));
            }
            if end - pos < 2 {
                return Err(DecodeError::Truncated);
            }
            let count = b[pos + 1] as usize;
            if 4 * count > end - pos - 2 {
                return Err(DecodeError::Truncated);
            }
            let next = pos + 2 + 4 * count;
            if kind == AS_SET {
                pos = next;
            } else {
                let mut path: Vec<u32> = Vec::new();
                let mut i: usize = 0;
                while i < count
                    invariant
                        b@ == bgp_attributes@,
                        i <= count,
                        b@.len() <= usize::MAX,
                        pos + 2 + 4 * count <= b@.len(),
                        path@ == asns_at(b@, pos + 2, count as nat).take(i as int),
                    decreases count - i,
                {
                    assert(4 * i + 4 <= 4 * count) by (nonlinear_arith)
                        requires
                            i < count,
                    ;
                    let asn = read_be_u32(b, pos + 2 + 4 * i);
                    path.push(asn);
                    i = i + 1;
                    assert(path@ =~= asns_at(b@, pos + 2, count as nat).take(i as int));
                }
                assert(path@ =~= asns_at(b@, pos + 2, count as nat));
                return Ok(path);
            }
        } else {
            if pos >= b.len() {
                return Err(DecodeError::MissingAsPath);
            }
            let header = match read_attribute_header(b, pos) {
                Ok(h) => h,
                Err(e) => {
                    return Err(e);
                },
            };
            let t = header.type_code;
            if !(t == AS_PATH || t == 1 || (3 <= t && t <= 16)) {
                return Err(DecodeError::UnknownTypeCode(t));
            }
            if header.length as usize > b.len() - header.value_start {
                return Err(DecodeError::Truncated);
            }
            let value_end = header.value_start + header.length as usize;
            if t == AS_PATH {
                pos = header.value_start;
            } else {
                pos = value_end;
            }
            end = value_end;
        }
    }
}

/// `s` with every run of equal adjacent elements collapsed to one element.
pub open spec fn dedup_spec(s: Seq<u32>) -> Seq<u32>
    decreases s.len(),
{
    if s.len() <= 1 {
        s
    } else {
        let d = dedup_spec(s.drop_last());
        if s.last() == s[s.len() - 2] {
            d
        } else {
            d.push(s.last())
        }
    }
}

/// Collapsing keeps the last element of a non-empty sequence.
pub proof fn lemma_dedup_last(s: Seq<u32>)
    requires
        s.len() > 0,
    ensures
        dedup_spec(s).len() > 0,
        dedup_spec(s).last() == s.last(),
    decreases s.len(),
{
    if s.len() > 1 {
        lemma_dedup_last(s.drop_last());
    }
}

/// Collapses runs of equal adjacent ASNs of `path` to one ASN each.
pub fn dedup(path: &mut Vec<u32>)
    ensures
        final(path)@ == dedup_spec(old(path)@),
{
    let mut out: Vec<u32> = Vec::new();
    let mut i: usize = 0;
    while i < path.len()
        invariant
            i <= path@.len(),
            path@ == old(path)@,
            out@ == dedup_spec(path@.take(i as int)),
            i > 0 ==> out@.len() > 0 && out@.last() == path@[i - 1],
        decreases path@.len() - i,
    {
        let x = path[i];
        proof {
            let t = path@.take(i as int + 1);
            assert(t.drop_last() =~= path@.take(i as int));
            if i > 0 {
                lemma_dedup_last(path@.take(i as int));
            }
        }
        if out.len() == 0 || out[out.len() - 1] != x {
            out.push(x);
        }
        i = i + 1;
    }
    assert(path@.take(i as int) =~= path@);
    *path = out;
}

} // verus!
