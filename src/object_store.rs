use vstd::prelude::*;

use crate::bytes::{append_bytes, copy_range};
use crate::error::{JogenError, Result};
use crate::wrappers::{blake3_digest, blake3_of, hex_encode, hex_lower, is_lower_hex_of_len, lemma_hex_lower_is_lower, zstd_compress, zstd_frame, zstd_decompress};
use vstd::string::StrSliceExecFns;

verus! {

/// The version byte written at the start of every object envelope.
pub const JOGEN_OBJECT_STORE_VERSION: u8 = 1;

/// The three kinds of stored objects.
#[derive(Debug, PartialEq, Eq, Clone, Copy, Structural)]
pub enum ObjectType {
    Blob,
    Directory,
    Snapshot,
}

/// The on-disk tag byte of each kind.
pub open spec fn kind_tag(k: ObjectType) -> u8 {
    match k {
        ObjectType::Blob => 1,
        ObjectType::Directory => 2,
        ObjectType::Snapshot => 3,
    }
}

/// The name of each kind, as shown to users.
pub open spec fn kind_name(k: ObjectType) -> Seq<char> {
    match k {
        ObjectType::Blob => "blob"@,
        ObjectType::Directory => "directory"@,
        ObjectType::Snapshot => "snapshot"@,
    }
}

/// The kind that a tag byte names, if any.
pub open spec fn kind_of_tag(b: u8) -> Option<ObjectType> {
    if b == 1 {
        Some(ObjectType::Blob)
    } else if b == 2 {
        Some(ObjectType::Directory)
    } else if b == 3 {
        Some(ObjectType::Snapshot)
    } else {
        None
    }
}

impl ObjectType {
    /// The tag byte of this kind.
    pub fn to_u8(&self) -> (r: u8)
        ensures
            r == kind_tag(*self),
    {
        match self {
            ObjectType::Blob => 1,
            ObjectType::Directory => 2,
            ObjectType::Snapshot => 3,
        }
    }

    /// The name of this kind, as shown to users.
    pub fn as_str(&self) -> (r: &'static str)
        ensures
            r@ == kind_name(*self),
    {
        match self {
            ObjectType::Blob => "blob",
            ObjectType::Directory => "directory",
            ObjectType::Snapshot => "snapshot",
        }
    }

    /// The kind named by a tag byte; any other byte is corruption.
    pub fn from_u8(byte: u8) -> (r: Result<Self>)
        ensures
            kind_of_tag(byte) matches Some(k) ==> r matches Ok(v) && v == k,
            kind_of_tag(byte) is None ==> (r matches Err(JogenError::ObjectCorrupt(m)) && m@
                == "unknown object type byte"@),
    {
        match byte {
            1 => Ok(ObjectType::Blob),
            2 => Ok(ObjectType::Directory),
            3 => Ok(ObjectType::Snapshot),
            _ => Err(JogenError::ObjectCorrupt("unknown object type byte".to_owned())),
        }
    }
}

} // verus!

verus! {

/// `n` written as `k` little-endian bytes (truncated to them).
pub open spec fn le_bytes(n: nat, k: nat) -> Seq<u8>
    decreases k,
{
    if k == 0 {
        seq![]
    } else {
        seq![(n % 256) as u8] + le_bytes(n / 256, (k - 1) as nat)
    }
}

/// The number that a little-endian byte sequence spells.
pub open spec fn le_value(s: Seq<u8>) -> nat
    decreases s.len(),
{
    if s.len() == 0 {
        0
    } else {
        s[0] as nat + 256 * le_value(s.drop_first())
    }
}

/// 256 to the power `k`.
pub open spec fn pow256(k: nat) -> nat
    decreases k,
{
    if k == 0 {
        1
    } else {
        256 * pow256((k - 1) as nat)
    }
}

pub proof fn lemma_le_round_trip(n: nat, k: nat)
    requires
        n < pow256(k),
    ensures
        le_bytes(n, k).len() == k,
        le_value(le_bytes(n, k)) == n,
    decreases k,
{
    if k > 0 {
        lemma_le_round_trip(n / 256, (k - 1) as nat);
        assert(le_bytes(n, k).drop_first() == le_bytes(n / 256, (k - 1) as nat));
    }
}

pub proof fn lemma_le_value_bound(s: Seq<u8>)
    ensures
        le_value(s) < pow256(s.len()),
    decreases s.len(),
{
    if s.len() > 0 {
        lemma_le_value_bound(s.drop_first());
    }
}

/// The ten header bytes: version, kind tag, payload size in little-endian.
pub open spec fn header_bytes(version: u8, kind: ObjectType, size: u64) -> Seq<u8> {
    seq![version, kind_tag(kind)] + le_bytes(size as nat, 8)
}

/// The object envelope of a payload: the current header, then the payload.
pub open spec fn envelope(kind: ObjectType, payload: Seq<u8>) -> Seq<u8> {
    header_bytes(JOGEN_OBJECT_STORE_VERSION, kind, payload.len() as u64) + payload
}

/// Whether `s` begins with a header this store reads: enough bytes, the
/// current version and a known kind.
pub open spec fn header_ok(s: Seq<u8>) -> bool {
    s.len() >= 10 && s[0] == JOGEN_OBJECT_STORE_VERSION && kind_of_tag(s[1]) is Some
}

/// The payload size that the header at the start of `s` records.
pub open spec fn header_size(s: Seq<u8>) -> nat {
    le_value(s.subrange(2, 10))
}

/// Whether `s` is a well-formed envelope: a header this store reads whose
/// size matches the payload that follows it.
pub open spec fn envelope_ok(s: Seq<u8>) -> bool {
    header_ok(s) && header_size(s) == s.len() - 10
}

/// The kind that a well-formed envelope declares.
pub open spec fn envelope_kind(s: Seq<u8>) -> ObjectType {
    kind_of_tag(s[1])->Some_0
}

/// The payload that a well-formed envelope carries.
pub open spec fn envelope_payload(s: Seq<u8>) -> Seq<u8> {
    s.subrange(10, s.len() as int)
}

/// The fixed-size header in front of every stored payload.
pub struct ObjectHeader {
    pub version: u8,
    pub kind: ObjectType,
    pub size: u64,
}

impl ObjectHeader {
    pub const SIZE: usize = 10;

    /// The ten bytes of this header.
    pub fn to_bytes(&self) -> (r: [u8; 10])
        ensures
            r@ == header_bytes(self.version, self.kind, self.size),
    {
        let mut le: Vec<u8> = Vec::new();
        let mut rest: u64 = self.size;
        let mut i: usize = 0;
        while i < 8
            invariant
                i <= 8,
                le@.len() == i,
                le@ + le_bytes(rest as nat, (8 - i) as nat) == le_bytes(self.size as nat, 8),
            decreases 8 - i,
        {
            proof {
                let tail = le_bytes((rest / 256) as nat, (8 - i - 1) as nat);
                assert(le_bytes(rest as nat, (8 - i) as nat) == seq![(rest % 256) as u8] + tail);
                assert(le@.push((rest % 256) as u8) + tail == le@ + (seq![(rest % 256) as u8] + tail));
            }
            le.push((rest % 256) as u8);
            rest = rest / 256;
            i = i + 1;
        }
        assert(le@ == le_bytes(self.size as nat, 8));
        let buf: [u8; 10] = [
            self.version,
            self.kind.to_u8(),
            le[0], le[1], le[2], le[3], le[4], le[5], le[6], le[7],
        ];
        assert(buf@ =~= header_bytes(self.version, self.kind, self.size));
        buf
    }

    /// Reads a header from the first ten bytes of `bytes`.
    pub fn from_bytes(bytes: &[u8]) -> (r: Result<Self>)
        ensures
            r is Ok <==> header_ok(bytes@),
            r matches Ok(h) ==> h.version == bytes@[0] && kind_of_tag(bytes@[1]) == Some(h.kind)
                && h.size as nat == header_size(bytes@),
            r is Err ==> r matches Err(JogenError::ObjectCorrupt(_)),
            bytes@.len() < 10 ==> (r matches Err(JogenError::ObjectCorrupt(m)) && m@ == "header too short"@),
            bytes@.len() >= 10 && bytes@[0] != JOGEN_OBJECT_STORE_VERSION ==> (r matches Err(
                JogenError::ObjectCorrupt(m),
            ) && m@ == "unsupported version"@),
            bytes@.len() >= 10 && bytes@[0] == JOGEN_OBJECT_STORE_VERSION && kind_of_tag(bytes@[1]) is None
                ==> (r matches Err(JogenError::ObjectCorrupt(m)) && m@ == "unknown object type byte"@),
    {
        if bytes.len() < Self::SIZE {
            return Err(JogenError::ObjectCorrupt("header too short".to_owned()));
        }
        let version = bytes[0];
        if version != JOGEN_OBJECT_STORE_VERSION {
            return Err(JogenError::ObjectCorrupt("unsupported version".to_owned()));
        }
        let kind = ObjectType::from_u8(bytes[1])?;
        let ghost field = bytes@.subrange(2, 10);
        let mut size: u64 = 0;
        let mut i: usize = 10;
        while i > 2
            invariant
                2 <= i <= 10,
                bytes@.len() >= 10,
                field == bytes@.subrange(2, 10),
                size as nat == le_value(bytes@.subrange(i as int, 10)),
            decreases i,
        {
            let ghost tail = bytes@.subrange(i as int, 10);
            proof {
                lemma_le_value_bound(tail);
                assert(bytes@.subrange(i - 1, 10).drop_first() == tail);
                assert(pow256((10 - i) as nat) <= pow256(7)) by {
                    lemma_pow256_mono((10 - i) as nat, 7);
                }
                reveal_with_fuel(pow256, 8);
                assert(pow256(7) == 72057594037927936);
            }
            size = bytes[i - 1] as u64 + 256 * size;
            i = i - 1;
        }
        Ok(ObjectHeader { version, kind, size })
    }
}

pub proof fn lemma_pow256_mono(a: nat, b: nat)
    requires
        a <= b,
    ensures
        pow256(a) <= pow256(b),
    decreases b,
{
    if a < b {
        lemma_pow256_mono(a, (b - 1) as nat);
    }
}

} // verus!

verus! {

/// A path on the host filesystem, carried opaquely.
#[verifier::external_type_specification]
#[verifier::external_body]
pub struct ExPathBuf(std::path::PathBuf);

/// Whether `r` reports corrupt data for the given reason.
pub open spec fn corrupt_because<T>(r: Result<T>, reason: Seq<char>) -> bool {
    r matches Err(JogenError::ObjectCorrupt(m)) && m@ == reason
}

/// The hash that names an object: lowercase hex of the BLAKE3 digest of
/// its envelope.
pub open spec fn object_id(kind: ObjectType, payload: Seq<u8>) -> Seq<char> {
    hex_lower(blake3_of(envelope(kind, payload)))
}

/// The envelope of `data`: the current header for `kind`, then `data`.
pub fn encode_envelope(data: &[u8], kind: ObjectType) -> (r: Vec<u8>)
    ensures
        r@ == envelope(kind, data@),
{
    let header = ObjectHeader { version: JOGEN_OBJECT_STORE_VERSION, kind, size: data.len() as u64 };
    let hb = header.to_bytes();
    let mut out: Vec<u8> = Vec::new();
    append_bytes(&mut out, hb.as_slice());
    append_bytes(&mut out, data);
    out
}

/// Reads a decompressed envelope: the declared kind and the payload.
pub fn decode_envelope(content: &[u8]) -> (r: Result<(ObjectType, Vec<u8>)>)
    ensures
        r is Ok <==> envelope_ok(content@),
        r matches Ok((k, p)) ==> k == envelope_kind(content@) && p@ == envelope_payload(content@),
        r is Err ==> r matches Err(JogenError::ObjectCorrupt(_)),
        content@.len() < 10 ==> (r matches Err(JogenError::ObjectCorrupt(m)) && m@ == "header too short"@),
        content@.len() >= 10 && content@[0] != JOGEN_OBJECT_STORE_VERSION ==> (r matches Err(
            JogenError::ObjectCorrupt(m),
        ) && m@ == "unsupported version"@),
        content@.len() >= 10 && content@[0] == JOGEN_OBJECT_STORE_VERSION && kind_of_tag(content@[1])
            is None ==> (r matches Err(JogenError::ObjectCorrupt(m)) && m@ == "unknown object type byte"@),
        header_ok(content@) && header_size(content@) != content@.len() - 10 ==> (r matches Err(
            JogenError::ObjectCorrupt(m),
        ) && m@ == "size mismatch"@),
{
    if content.len() < ObjectHeader::SIZE {
        return Err(JogenError::ObjectCorrupt("header too short".to_owned()));
    }
    let header = ObjectHeader::from_bytes(content)?;
    let data_len: usize = content.len() - ObjectHeader::SIZE;
    if data_len as u64 != header.size {
        return Err(JogenError::ObjectCorrupt("size mismatch".to_owned()));
    }
    let payload = copy_range(content, ObjectHeader::SIZE, content.len());
    Ok((header.kind, payload))
}

/// Reading an envelope gives back the kind and payload it was written with.
pub proof fn lemma_envelope_round_trip(kind: ObjectType, payload: Seq<u8>)
    requires
        payload.len() <= u64::MAX,
    ensures
        envelope_ok(envelope(kind, payload)),
        envelope_kind(envelope(kind, payload)) == kind,
        envelope_payload(envelope(kind, payload)) == payload,
{
    let e = envelope(kind, payload);
    reveal_with_fuel(pow256, 9);
    assert(pow256(8) == 18446744073709551616);
    lemma_le_round_trip(payload.len(), 8);
    assert(e.subrange(2, 10) == le_bytes(payload.len(), 8));
    assert(e.subrange(10, e.len() as int) == payload);
}

/// Content-addressed storage of objects under a root directory. The
/// filesystem side lives with the caller; this type computes what is
/// written and checks what is read.
pub struct ObjectStore {
    root_path: std::path::PathBuf,
}

impl ObjectStore {
    /// The directory under which objects are stored.
    pub closed spec fn root(&self) -> std::path::PathBuf {
        self.root_path
    }

    pub fn new(root_path: std::path::PathBuf) -> (r: Self)
        ensures
            r.root() == root_path,
    {
        ObjectStore { root_path }
    }

    pub fn root_path(&self) -> (r: &std::path::PathBuf)
        ensures
            *r == self.root(),
    {
        &self.root_path
    }

    /// The hash that names `data` stored as `kind`: 64 lowercase hex digits.
    pub fn hash_object(data: &[u8], kind: ObjectType) -> (r: String)
        ensures
            r@ == object_id(kind, data@),
            is_lower_hex_of_len(r@, 32),
    {
        let env = encode_envelope(data, kind);
        let digest = blake3_digest(env.as_slice());
        let r = hex_encode(digest.as_slice());
        proof { lemma_hex_lower_is_lower(digest@); }
        r
    }

    /// Where an object lives under the root: its fan-out directory (the
    /// first two characters of the hash) and file name (the rest). A hash of
    /// fewer than two characters names no object.
    pub fn object_location(hash: &str) -> (r: Result<(String, String)>)
        ensures
            hash@.len() < 2 <==> r matches Err(JogenError::ObjectNotFound(_)),
            r matches Ok((d, f)) ==> d@ == hash@.subrange(0, 2) && f@ == hash@.subrange(
                2,
                hash@.len() as int,
            ),
            r is Err ==> (r matches Err(JogenError::ObjectNotFound(h)) && h@ == hash@),
    {
        let n = hash.unicode_len();
        if n < 2 {
            return Err(JogenError::ObjectNotFound(hash.to_owned()));
        }
        let d = hash.substring_char(0, 2).to_owned();
        let f = hash.substring_char(2, n).to_owned();
        Ok((d, f))
    }

    /// The bytes of the file that stores `data` as `kind`: one Zstandard
    /// frame of its envelope.
    pub fn encode_object(data: &[u8], kind: ObjectType) -> (r: Result<Vec<u8>>)
        ensures
            r matches Ok(v) && v@ == zstd_frame(envelope(kind, data@)),
    {
        let env = encode_envelope(data, kind);
        match zstd_compress(env.as_slice()) {
            Ok(v) => Ok(v),
            Err(e) => Err(JogenError::Io(e)),
        }
    }

    /// Reads the contents of a stored object file: decompresses it and
    /// checks its envelope.
    pub fn decode_object(stored: &[u8]) -> (r: Result<(ObjectType, Vec<u8>)>)
        ensures
            forall|plain: Seq<u8>|
                #![trigger zstd_frame(plain)]
                zstd_frame(plain) == stored@ ==> {
                    &&& (r is Ok <==> envelope_ok(plain))
                    &&& r matches Ok((k, p)) ==> k == envelope_kind(plain) && p@ == envelope_payload(plain)
                    &&& r is Err ==> (r matches Err(JogenError::ObjectCorrupt(_)))
                    &&& plain.len() < 10 ==> corrupt_because(r, "header too short"@)
                    &&& plain.len() >= 10 && plain[0] != JOGEN_OBJECT_STORE_VERSION ==> corrupt_because(
                        r,
                        "unsupported version"@,
                    )
                    &&& header_ok(plain) && header_size(plain) != plain.len() - 10 ==> corrupt_because(
                        r,
                        "size mismatch"@,
                    )
                },
    {
        match zstd_decompress(stored) {
            Ok(plain) => decode_envelope(plain.as_slice()),
            Err(e) => Err(JogenError::Io(e)),
        }
    }
}

} // verus!
