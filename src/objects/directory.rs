use std::borrow::Cow;

use vstd::prelude::*;
use vstd::string::StringSliceAdditionalSpecFns;
use vstd::utf8::{decode_utf8, encode_scalar, encode_utf8, has_width_1_encoding, is_scalar, valid_utf8};

use crate::bytes::{append_bytes, bytes_lt, copy_range, eq_bytes, find_byte, first_from, lemma_first_from, lemma_first_from_at, lt_bytes};
use crate::error::{JogenError, Result};
use crate::object_store::ObjectType;
use crate::objects::JogenObject;
use crate::wrappers::{hex_bytes, hex_decode, hex_encode, hex_lower, is_hex_char, is_hex_text, is_lower_hex_char, is_lower_hex_of_len, lemma_hex_lower_of_bytes, utf8_string};

verus! {

/// The kind of a directory entry.
#[derive(Debug, PartialEq, Eq, Clone, Copy, Structural)]
pub enum EntryMode {
    File,
    Executable,
    Directory,
}

/// The compact in-memory tag of each mode.
pub open spec fn mode_tag(m: EntryMode) -> u8 {
    match m {
        EntryMode::File => 1,
        EntryMode::Executable => 2,
        EntryMode::Directory => 4,
    }
}

/// The ASCII form of each mode on the wire.
pub open spec fn mode_text(m: EntryMode) -> Seq<u8> {
    match m {
        EntryMode::File => seq![49u8, 48, 48, 54, 52, 52],
        EntryMode::Executable => seq![49u8, 48, 48, 55, 53, 53],
        EntryMode::Directory => seq![48u8, 52, 48, 48, 48, 48],
    }
}

/// The mode that a wire text names, if any.
pub open spec fn mode_of_text(t: Seq<u8>) -> Option<EntryMode> {
    if t == mode_text(EntryMode::File) {
        Some(EntryMode::File)
    } else if t == mode_text(EntryMode::Executable) {
        Some(EntryMode::Executable)
    } else if t == mode_text(EntryMode::Directory) {
        Some(EntryMode::Directory)
    } else {
        None
    }
}

impl EntryMode {
    /// The mode that a compact tag names; any other tag is refused.
    pub fn from_tag(value: u8) -> (r: Result<Self>)
        ensures
            r matches Ok(m) ==> mode_tag(m) == value,
            r is Err <==> value != 1 && value != 2 && value != 4,
            r is Err ==> (r matches Err(JogenError::InvalidEntryMode(b)) && b == value),
    {
        match value {
            1 => Ok(EntryMode::File),
            2 => Ok(EntryMode::Executable),
            4 => Ok(EntryMode::Directory),
            _ => Err(JogenError::InvalidEntryMode(value)),
        }
    }

    /// The compact tag of this mode.
    pub fn tag(&self) -> (r: u8)
        ensures
            r == mode_tag(*self),
    {
        match self {
            EntryMode::File => 1,
            EntryMode::Executable => 2,
            EntryMode::Directory => 4,
        }
    }

    /// The ASCII form of this mode on the wire.
    pub fn wire_text(&self) -> (r: Vec<u8>)
        ensures
            r@ == mode_text(*self),
    {
        let r = match self {
            EntryMode::File => vec![49u8, 48, 48, 54, 52, 52],
            EntryMode::Executable => vec![49u8, 48, 48, 55, 53, 53],
            EntryMode::Directory => vec![48u8, 52, 48, 48, 48, 48],
        };
        assert(r@ =~= mode_text(*self));
        r
    }
}

/// What a directory entry stands for: its mode, name and hash as text.
pub struct EntrySpec {
    pub mode: EntryMode,
    pub name: Seq<char>,
    pub hash: Seq<char>,
}

/// One named child of a directory.
#[derive(Debug, PartialEq, Eq, Clone)]
pub struct DirectoryEntry {
    pub mode: EntryMode,
    pub name: String,
    pub hash: String,
}

impl View for DirectoryEntry {
    type V = EntrySpec;

    open spec fn view(&self) -> EntrySpec {
        EntrySpec { mode: self.mode, name: self.name@, hash: self.hash@ }
    }
}

/// The bytes by which entries are ordered: the UTF-8 encoding of the name.
pub open spec fn name_key(e: EntrySpec) -> Seq<u8> {
    encode_utf8(e.name)
}

/// Inserts `e` after every entry whose name does not order after its own.
pub open spec fn insert_by_name(e: EntrySpec, s: Seq<EntrySpec>) -> Seq<EntrySpec>
    decreases s.len(),
{
    if s.len() == 0 {
        seq![e]
    } else if bytes_lt(name_key(e), name_key(s[0])) {
        seq![e] + s
    } else {
        seq![s[0]] + insert_by_name(e, s.drop_first())
    }
}

/// The entries sorted by name, ascending; entries of equal names keep
/// their order.
pub open spec fn sort_by_name(s: Seq<EntrySpec>) -> Seq<EntrySpec>
    decreases s.len(),
{
    if s.len() == 0 {
        seq![]
    } else {
        insert_by_name(s.last(), sort_by_name(s.drop_last()))
    }
}

/// The wire form of one entry: mode, space, name, NUL, the raw hash bytes.
pub open spec fn entry_bytes(e: EntrySpec) -> Seq<u8> {
    mode_text(e.mode) + seq![32u8] + encode_utf8(e.name) + seq![0u8] + hex_bytes(e.hash)
}

/// The wire forms of the entries, one after another.
pub open spec fn entries_bytes(s: Seq<EntrySpec>) -> Seq<u8>
    decreases s.len(),
{
    if s.len() == 0 {
        seq![]
    } else {
        entry_bytes(s[0]) + entries_bytes(s.drop_first())
    }
}

/// Whether every entry's hash is hexadecimal text that decodes.
pub open spec fn hashes_decode(s: Seq<EntrySpec>) -> bool {
    forall|i: int| 0 <= i < s.len() ==> is_hex_text(#[trigger] s[i].hash)
}

/// A directory: its entries in the order they were added.
pub struct Directory {
    entries: Vec<DirectoryEntry>,
}

impl View for Directory {
    type V = Seq<EntrySpec>;

    closed spec fn view(&self) -> Seq<EntrySpec> {
        self.entries@.map_values(|e: DirectoryEntry| e@)
    }
}

/// The position at which `insert_by_name` places `e` in `s`.
pub open spec fn insert_position(e: EntrySpec, s: Seq<EntrySpec>, from: int) -> int
    decreases s.len() - from,
{
    if from >= s.len() || from < 0 {
        s.len() as int
    } else if bytes_lt(name_key(e), name_key(s[from])) {
        from
    } else {
        insert_position(e, s, from + 1)
    }
}

pub proof fn lemma_insert_position(e: EntrySpec, s: Seq<EntrySpec>, from: int)
    requires
        0 <= from <= s.len(),
    ensures
        from <= insert_position(e, s, from) <= s.len(),
        insert_by_name(e, s.subrange(from, s.len() as int)) == s.subrange(
            from,
            insert_position(e, s, from),
        ).push(e) + s.subrange(insert_position(e, s, from), s.len() as int),
    decreases s.len() - from,
{
    let t = s.subrange(from, s.len() as int);
    if from < s.len() {
        assert(t[0] == s[from]);
        if !bytes_lt(name_key(e), name_key(s[from])) {
            lemma_insert_position(e, s, from + 1);
            assert(t.drop_first() == s.subrange(from + 1, s.len() as int));
            let p = insert_position(e, s, from);
            assert(seq![s[from]] + (s.subrange(from + 1, p).push(e) + s.subrange(p, s.len() as int))
                == s.subrange(from, p).push(e) + s.subrange(p, s.len() as int));
        } else {
            assert(s.subrange(from, from).push(e) == seq![e]);
        }
    } else {
        assert(t.len() == 0);
        assert(s.subrange(from, from).push(e) == seq![e]);
    }
}

impl Directory {
    pub fn new() -> (r: Self)
        ensures
            r@ == Seq::<EntrySpec>::empty(),
    {
        let r = Directory { entries: Vec::new() };
        assert(r@ =~= Seq::<EntrySpec>::empty());
        r
    }

    pub fn add_entry(&mut self, entry: DirectoryEntry)
        ensures
            final(self)@ == old(self)@.push(entry@),
    {
        self.entries.push(entry);
        assert(self@ =~= old(self)@.push(entry@));
    }

    pub fn entries(&self) -> (r: &Vec<DirectoryEntry>)
        ensures
            r@.map_values(|e: DirectoryEntry| e@) == self@,
    {
        &self.entries
    }

    /// The positions of the entries in name order (a stable sort).
    fn sorted_order(&self) -> (r: Vec<usize>)
        ensures
            r@.len() == self@.len(),
            forall|i: int| 0 <= i < r@.len() ==> #[trigger] r@[i] < self@.len(),
            r@.map_values(|k: usize| self@[k as int]) == sort_by_name(self@),
    {
        let n = self.entries.len();
        let mut order: Vec<usize> = Vec::new();
        let mut i: usize = 0;
        while i < n
            invariant
                n == self@.len(),
                i <= n,
                order@.len() == i,
                forall|j: int| 0 <= j < order@.len() ==> #[trigger] order@[j] < n,
                order@.map_values(|k: usize| self@[k as int]) == sort_by_name(self@.subrange(0, i as int)),
            decreases n - i,
        {
            let ghost s = order@.map_values(|k: usize| self@[k as int]);
            let ghost e = self@[i as int];
            let key = self.entries[i].name.as_str().as_bytes();
            let mut p: usize = 0;
            while p < order.len() && !lt_bytes(key, self.entries[order[p]].name.as_str().as_bytes())
                invariant
                    n == self@.len(),
                    i < n,
                    p <= order@.len(),
                    order@.len() == i,
                    forall|j: int| 0 <= j < order@.len() ==> #[trigger] order@[j] < n,
                    s == order@.map_values(|k: usize| self@[k as int]),
                    key@ == name_key(e),
                    insert_position(e, s, 0) == insert_position(e, s, p as int),
                decreases order@.len() - p,
            {
                p = p + 1;
            }
            proof {
                lemma_insert_position(e, s, 0);
                assert(s.subrange(0, s.len() as int) == s);
                let t = self@.subrange(0, i + 1);
                assert(t.drop_last() == self@.subrange(0, i as int));
                assert(t.last() == e);
            }
            order.insert(p, i);
            proof {
                let s2 = order@.map_values(|k: usize| self@[k as int]);
                assert(s2 =~= s.subrange(0, p as int).push(e) + s.subrange(p as int, s.len() as int));
            }
            i = i + 1;
        }
        assert(self@.subrange(0, n as int) == self@);
        order
    }
}

} // verus!

verus! {

pub proof fn lemma_insert_by_name_is_insert(e: EntrySpec, s: Seq<EntrySpec>)
    ensures
        0 <= insert_position(e, s, 0) <= s.len(),
        insert_by_name(e, s) == s.insert(insert_position(e, s, 0), e),
{
    lemma_insert_position(e, s, 0);
    assert(s.subrange(0, s.len() as int) == s);
    let p = insert_position(e, s, 0);
    assert(s.subrange(0, p).push(e) + s.subrange(p, s.len() as int) =~= s.insert(p, e));
}

/// Sorting by name only reorders: the same entries, as often as before.
pub proof fn lemma_sort_by_name_permutes(s: Seq<EntrySpec>)
    ensures
        sort_by_name(s).to_multiset() == s.to_multiset(),
        sort_by_name(s).len() == s.len(),
    decreases s.len(),
{
    broadcast use vstd::seq_lib::to_multiset_insert, vstd::seq_lib::to_multiset_build, vstd::seq_lib::to_multiset_len;

    if s.len() > 0 {
        lemma_sort_by_name_permutes(s.drop_last());
        let t = sort_by_name(s.drop_last());
        lemma_insert_by_name_is_insert(s.last(), t);
        let p = insert_position(s.last(), t, 0);
        assert(sort_by_name(s) == t.insert(p, s.last()));
        assert(t.insert(p, s.last()).to_multiset() == t.to_multiset().insert(s.last()));
        assert(s == s.drop_last().push(s.last()));
        assert(s.drop_last().push(s.last()).to_multiset() == s.drop_last().to_multiset().insert(s.last()));
    } else {
        assert(sort_by_name(s) =~= s);
    }
}

pub proof fn lemma_sorted_same_members(s: Seq<EntrySpec>, x: EntrySpec)
    ensures
        sort_by_name(s).contains(x) <==> s.contains(x),
{
    broadcast use vstd::seq_lib::to_multiset_contains;

    lemma_sort_by_name_permutes(s);
    assert(sort_by_name(s).to_multiset().count(x) == s.to_multiset().count(x));
}

pub proof fn lemma_sorted_hashes_decode(s: Seq<EntrySpec>)
    ensures
        hashes_decode(sort_by_name(s)) <==> hashes_decode(s),
{
    let t = sort_by_name(s);
    if hashes_decode(s) {
        assert forall|i: int| 0 <= i < t.len() implies is_hex_text(#[trigger] t[i].hash) by {
            lemma_sorted_same_members(s, t[i]);
            assert(t.contains(t[i]));
            let j = choose|j: int| 0 <= j < s.len() && s[j] == t[i];
            assert(is_hex_text(s[j].hash));
        }
    }
    if hashes_decode(t) {
        assert forall|i: int| 0 <= i < s.len() implies is_hex_text(#[trigger] s[i].hash) by {
            lemma_sorted_same_members(s, s[i]);
            assert(s.contains(s[i]));
            let j = choose|j: int| 0 <= j < t.len() && t[j] == s[i];
            assert(is_hex_text(t[j].hash));
        }
    }
}

pub proof fn lemma_entries_bytes_push(s: Seq<EntrySpec>, e: EntrySpec)
    ensures
        entries_bytes(s.push(e)) == entries_bytes(s) + entry_bytes(e),
    decreases s.len(),
{
    if s.len() == 0 {
        assert(s.push(e).drop_first() == s);
    } else {
        lemma_entries_bytes_push(s.drop_first(), e);
        assert(s.push(e).drop_first() == s.drop_first().push(e));
    }
}

impl JogenObject for Directory {
    open spec fn spec_kind(&self) -> ObjectType {
        ObjectType::Directory
    }

    /// Encoding fails exactly when some entry's hash is not hexadecimal text.
    open spec fn spec_encodes(&self) -> bool {
        hashes_decode(self@)
    }

    /// The entries in name order, each in its wire form.
    open spec fn spec_payload(&self) -> Seq<u8> {
        entries_bytes(sort_by_name(self@))
    }

    fn object_type(&self) -> (r: ObjectType) {
        ObjectType::Directory
    }

    fn serialize(&self) -> (r: Result<Cow<'_, [u8]>>) {
        let order = self.sorted_order();
        let ghost sorted = sort_by_name(self@);
        proof { lemma_sorted_hashes_decode(self@); }
        let mut content: Vec<u8> = Vec::new();
        let mut j: usize = 0;
        while j < order.len()
            invariant
                j <= order@.len(),
                order@.len() == self@.len(),
                sorted.len() == order@.len(),
                forall|i: int| 0 <= i < order@.len() ==> #[trigger] order@[i] < self@.len(),
                order@.map_values(|k: usize| self@[k as int]) == sorted,
                sorted == sort_by_name(self@),
                hashes_decode(sorted) <==> hashes_decode(self@),
                content@ == entries_bytes(sorted.subrange(0, j as int)),
                forall|i: int| 0 <= i < j ==> is_hex_text(#[trigger] sorted[i].hash),
            decreases order@.len() - j,
        {
            let entry = &self.entries[order[j]];
            assert(entry@ == sorted[j as int]);
            let mode = entry.mode.wire_text();
            append_bytes(&mut content, mode.as_slice());
            content.push(32u8);
            append_bytes(&mut content, entry.name.as_str().as_bytes());
            content.push(0u8);
            match hex_decode(entry.hash.as_str()) {
                Some(raw) => {
                    append_bytes(&mut content, raw.as_slice());
                },
                None => {
                    assert(!is_hex_text(sorted[j as int].hash));
                    assert(!hashes_decode(sorted));
                    return Err(JogenError::ObjectCorrupt("invalid hex hash in directory entry".to_owned()));
                },
            }
            proof {
                let e = sorted[j as int];
                lemma_entries_bytes_push(sorted.subrange(0, j as int), e);
                assert(sorted.subrange(0, j + 1) == sorted.subrange(0, j as int).push(e));
                assert(content@ =~= entries_bytes(sorted.subrange(0, j as int)) + entry_bytes(e));
            }
            j = j + 1;
        }
        assert(sorted.subrange(0, j as int) == sorted);
        Ok(Cow::Owned(content))
    }
}

} // verus!

verus! {

/// The entry whose wire form starts at `pos`, and the position after it.
pub open spec fn entry_at(s: Seq<u8>, pos: int) -> Option<(EntrySpec, int)> {
    match first_from(s, pos, 32) {
        None => None,
        Some(sp) => match mode_of_text(s.subrange(pos, sp)) {
            None => None,
            Some(mode) => match first_from(s, sp + 1, 0) {
                None => None,
                Some(nul) => {
                    let name = s.subrange(sp + 1, nul);
                    if !valid_utf8(name) || nul + 1 + 32 > s.len() {
                        None
                    } else {
                        Some(
                            (
                                EntrySpec {
                                    mode,
                                    name: decode_utf8(name),
                                    hash: hex_lower(s.subrange(nul + 1, nul + 33)),
                                },
                                nul + 33,
                            ),
                        )
                    }
                },
            },
        },
    }
}

/// The entries whose wire forms fill `s` from `pos` to its end, if they do.
pub open spec fn entries_from(s: Seq<u8>, pos: int) -> Option<Seq<EntrySpec>>
    decreases s.len() - pos,
{
    if pos < 0 {
        None
    } else if pos >= s.len() {
        Some(seq![])
    } else {
        match entry_at(s, pos) {
            None => None,
            Some((e, next)) => if next <= pos {
                None
            } else {
                match entries_from(s, next) {
                    None => None,
                    Some(rest) => Some(seq![e] + rest),
                }
            },
        }
    }
}

/// `p` put in front of the entries of `o`, if there are any.
pub open spec fn prepend_entries(p: Seq<EntrySpec>, o: Option<Seq<EntrySpec>>) -> Option<Seq<EntrySpec>> {
    match o {
        None => None,
        Some(rest) => Some(p + rest),
    }
}

/// The mode named by the bytes `data[from..to]`.
fn mode_from_wire(data: &[u8], from: usize, to: usize) -> (r: Option<EntryMode>)
    requires
        from <= to <= data@.len(),
    ensures
        r == mode_of_text(data@.subrange(from as int, to as int)),
{
    let t = copy_range(data, from, to);
    if eq_bytes(t.as_slice(), EntryMode::File.wire_text().as_slice()) {
        Some(EntryMode::File)
    } else if eq_bytes(t.as_slice(), EntryMode::Executable.wire_text().as_slice()) {
        Some(EntryMode::Executable)
    } else if eq_bytes(t.as_slice(), EntryMode::Directory.wire_text().as_slice()) {
        Some(EntryMode::Directory)
    } else {
        None
    }
}

impl Directory {
    /// Reads a directory payload: entries one after another, each mode,
    /// space, name, NUL and 32 raw hash bytes, kept in the order read.
    pub fn parse(data: &[u8]) -> (r: Result<Self>)
        ensures
            r is Ok <==> entries_from(data@, 0) is Some,
            r matches Ok(d) ==> d@ == entries_from(data@, 0)->Some_0,
            r is Err ==> r matches Err(JogenError::ObjectCorrupt(_)),
    {
        let mut dir = Directory::new();
        let mut cursor: usize = 0;
        let len = data.len();
        assert(prepend_entries(dir@, entries_from(data@, 0)) =~= entries_from(data@, 0)) by {
            if let Some(x) = entries_from(data@, 0) {
                assert(dir@ + x =~= x);
            }
        }
        while cursor < len
            invariant
                cursor <= len == data@.len(),
                entries_from(data@, 0) == prepend_entries(dir@, entries_from(data@, cursor as int)),
            decreases len - cursor,
        {
            proof {
                lemma_first_from(data@, cursor as int, 32);
            }
            let sp = match find_byte(data, cursor, 32u8) {
                Some(k) => k,
                None => {
                    return Err(JogenError::ObjectCorrupt("missing space after mode".to_owned()));
                },
            };
            let mode = match mode_from_wire(data, cursor, sp) {
                Some(m) => m,
                None => {
                    return Err(JogenError::ObjectCorrupt("unknown mode".to_owned()));
                },
            };
            proof {
                lemma_first_from(data@, sp + 1, 0);
            }
            let nul = match find_byte(data, sp + 1, 0u8) {
                Some(k) => k,
                None => {
                    return Err(JogenError::ObjectCorrupt("missing null terminator for name".to_owned()));
                },
            };
            let name_bytes = copy_range(data, sp + 1, nul);
            let ghost name_seq = name_bytes@;
            let name = match utf8_string(name_bytes) {
                Some(s) => s,
                None => {
                    return Err(JogenError::ObjectCorrupt("invalid UTF-8 file name".to_owned()));
                },
            };
            proof {
                vstd::utf8::encode_utf8_decode_utf8(name@);
            }
            if len - (nul + 1) < 32 {
                return Err(JogenError::ObjectCorrupt("truncated hash bytes".to_owned()));
            }
            let raw = copy_range(data, nul + 1, nul + 33);
            let hash = hex_encode(raw.as_slice());
            let entry = DirectoryEntry { mode, name, hash };
            let ghost old_dir = dir@;
            proof {
                assert(entry_at(data@, cursor as int) == Some((entry@, nul + 33)));
                if let Some(rest) = entries_from(data@, nul + 33) {
                    assert(old_dir + (seq![entry@] + rest) =~= old_dir.push(entry@) + rest);
                }
            }
            dir.add_entry(entry);
            cursor = nul + 33;
        }
        proof {
            if let Some(x) = entries_from(data@, 0) {
                assert(dir@ + seq![] =~= dir@);
            }
        }
        Ok(dir)
    }
}

} // verus!

verus! {

/// Whether an entry survives the wire form unchanged: its name holds no
/// NUL and its hash is 64 lowercase hexadecimal digits.
pub open spec fn wire_safe(e: EntrySpec) -> bool {
    &&& forall|i: int| 0 <= i < e.name.len() ==> #[trigger] e.name[i] != '\0'
    &&& is_lower_hex_of_len(e.hash, 32)
}

/// Whether every entry survives the wire form unchanged.
pub open spec fn all_wire_safe(s: Seq<EntrySpec>) -> bool {
    forall|i: int| 0 <= i < s.len() ==> wire_safe(#[trigger] s[i])
}

proof fn lemma_scalar_has_no_zero(v: u32)
    requires
        is_scalar(v),
        v != 0,
    ensures
        forall|i: int| 0 <= i < encode_scalar(v).len() ==> #[trigger] encode_scalar(v)[i] != 0,
{
    if has_width_1_encoding(v) {
        assert((v & 0x7F) as u8 != 0) by (bit_vector)
            requires
                0 < v <= 0x7F,
        ;
    } else {
        assert(0x80u8 | (v & 0x3F) as u8 != 0) by (bit_vector);
        assert(0x80u8 | ((v >> 6) & 0x3F) as u8 != 0) by (bit_vector);
        assert(0x80u8 | ((v >> 12) & 0x3F) as u8 != 0) by (bit_vector);
        assert(0xC0u8 | ((v >> 6) & 0x1F) as u8 != 0) by (bit_vector);
        assert(0xE0u8 | ((v >> 12) & 0x0F) as u8 != 0) by (bit_vector);
        assert(0xF0u8 | ((v >> 18) & 0x7) as u8 != 0) by (bit_vector);
    }
}

pub proof fn lemma_name_bytes_have_no_zero(name: Seq<char>)
    requires
        forall|i: int| 0 <= i < name.len() ==> #[trigger] name[i] != '\0',
    ensures
        forall|i: int| 0 <= i < encode_utf8(name).len() ==> #[trigger] encode_utf8(name)[i] != 0,
    decreases name.len(),
{
    if name.len() > 0 {
        let rest = name.drop_first();
        assert forall|i: int| 0 <= i < rest.len() implies #[trigger] rest[i] != '\0' by {
            assert(rest[i] == name[i + 1]);
        }
        lemma_name_bytes_have_no_zero(rest);
        vstd::utf8::char_is_scalar(name[0]);
        vstd::utf8::char_u32_cast(name[0], name[0] as u32);
        assert(name[0] as u32 != 0);
        lemma_scalar_has_no_zero(name[0] as u32);
        let a = encode_scalar(name[0] as u32);
        let b = encode_utf8(rest);
        assert forall|i: int| 0 <= i < (a + b).len() implies #[trigger] (a + b)[i] != 0 by {
            if i >= a.len() {
                assert((a + b)[i] == b[i - a.len()]);
            }
        }
    }
}

proof fn lemma_mode_text_reads(m: EntryMode)
    ensures
        mode_of_text(mode_text(m)) == Some(m),
        mode_text(m).len() == 6,
        forall|i: int| 0 <= i < 6 ==> #[trigger] mode_text(m)[i] != 32,
{
    assert(mode_text(EntryMode::File)[3] != mode_text(EntryMode::Executable)[3]);
    assert(mode_text(EntryMode::File)[0] != mode_text(EntryMode::Directory)[0]);
    assert(mode_text(EntryMode::Executable)[0] != mode_text(EntryMode::Directory)[0]);
}

proof fn lemma_entry_at_reads(p: Seq<u8>, e: EntrySpec, rest: Seq<u8>)
    requires
        wire_safe(e),
    ensures
        entry_at(p + entry_bytes(e) + rest, p.len() as int) == Some(
            (e, p.len() + entry_bytes(e).len() as int),
        ),
        entry_bytes(e).len() > 0,
{
    broadcast use vstd::utf8::encode_utf8_valid_utf8, vstd::utf8::encode_utf8_decode_utf8;

    let s = p + entry_bytes(e) + rest;
    let pos = p.len() as int;
    let n = encode_utf8(e.name);
    let h = hex_bytes(e.hash);
    lemma_mode_text_reads(e.mode);
    lemma_name_bytes_have_no_zero(e.name);
    lemma_hex_lower_of_bytes(e.hash, 32);
    let eb = entry_bytes(e);
    assert(eb == mode_text(e.mode) + seq![32u8] + n + seq![0u8] + h);
    assert forall|j: int| 0 <= j < eb.len() implies #[trigger] s[pos + j] == eb[j] by {}
    let sp = pos + 6;
    assert(s[sp] == 32);
    assert forall|j: int| pos <= j < sp implies s[j] != 32 by {
        assert(s[j] == eb[j - pos]);
        assert(eb[j - pos] == mode_text(e.mode)[j - pos]);
    }
    lemma_first_from_at(s, pos, sp, 32);
    assert(s.subrange(pos, sp) =~= mode_text(e.mode));
    let nul = sp + 1 + n.len();
    assert(s[nul] == 0) by {
        assert(s[nul] == eb[7 + n.len() as int]);
    }
    assert forall|j: int| sp + 1 <= j < nul implies s[j] != 0 by {
        assert(s[j] == eb[j - pos]);
        assert(eb[j - pos] == n[j - sp - 1]);
    }
    lemma_first_from_at(s, sp + 1, nul, 0);
    assert(s.subrange(sp + 1, nul) =~= n);
    assert(s.subrange(nul + 1, nul + 33) =~= h) by {
        assert forall|j: int| 0 <= j < 32 implies #[trigger] s.subrange(nul + 1, nul + 33)[j] == h[j] by {
            assert(s[nul + 1 + j] == eb[8 + n.len() as int + j]);
        }
    }
}

/// Entries written in their wire forms read back as the same entries.
pub proof fn lemma_entries_read_back(p: Seq<u8>, t: Seq<EntrySpec>)
    requires
        all_wire_safe(t),
    ensures
        entries_from(p + entries_bytes(t), p.len() as int) == Some(t),
    decreases t.len(),
{
    let s = p + entries_bytes(t);
    if t.len() == 0 {
        assert(s.len() == p.len());
    } else {
        let e = t[0];
        assert(wire_safe(e));
        let rest = entries_bytes(t.drop_first());
        assert(s == p + entry_bytes(e) + rest);
        lemma_entry_at_reads(p, e, rest);
        let longer = p + entry_bytes(e);
        assert(all_wire_safe(t.drop_first())) by {
            assert forall|i: int| 0 <= i < t.drop_first().len() implies wire_safe(#[trigger] t.drop_first()[i]) by {
                assert(t.drop_first()[i] == t[i + 1]);
            }
        }
        lemma_entries_read_back(longer, t.drop_first());
        assert(longer + rest == s);
        assert(seq![e] + t.drop_first() == t);
    }
}

/// Parsing a serialized directory gives its entries sorted by name, when
/// every name is free of NUL and every hash is 64 lowercase hex digits.
pub proof fn lemma_directory_round_trip(d: Directory)
    requires
        all_wire_safe(d@),
    ensures
        d.spec_encodes(),
        entries_from(d.spec_payload(), 0) == Some(sort_by_name(d@)),
{
    let t = sort_by_name(d@);
    assert(all_wire_safe(t)) by {
        assert forall|i: int| 0 <= i < t.len() implies wire_safe(#[trigger] t[i]) by {
            lemma_sorted_same_members(d@, t[i]);
            assert(t.contains(t[i]));
            let j = choose|j: int| 0 <= j < d@.len() && d@[j] == t[i];
            assert(wire_safe(d@[j]));
        }
    }
    assert(hashes_decode(d@)) by {
        assert forall|i: int| 0 <= i < d@.len() implies is_hex_text(#[trigger] d@[i].hash) by {
            assert(wire_safe(d@[i]));
            let h = d@[i].hash;
            assert forall|k: int| 0 <= k < h.len() implies is_hex_char(#[trigger] h[k]) by {
                assert(is_lower_hex_char(h[k]));
            }
        }
    }
    lemma_entries_read_back(seq![], t);
    assert(Seq::<u8>::empty() + entries_bytes(t) == entries_bytes(t));
}

} // verus!

verus! {

impl DirectoryEntry {
    /// A copy of this entry.
    pub fn duplicate(&self) -> (r: Self)
        ensures
            r@ == self@,
    {
        DirectoryEntry { mode: self.mode, name: self.name.clone(), hash: self.hash.clone() }
    }
}

} // verus!

verus! {

/// Whether no two entries share a name.
pub open spec fn unique_names(s: Seq<EntrySpec>) -> bool {
    forall|i: int, j: int|
        0 <= i < s.len() && 0 <= j < s.len() && i != j ==> #[trigger] s[i].name != #[trigger] s[j].name
}

/// Whether entries are in name order (ties allowed).
pub open spec fn sorted_by_name(s: Seq<EntrySpec>) -> bool {
    forall|i: int, j: int|
        0 <= i < j < s.len() ==> !bytes_lt(name_key(#[trigger] s[j]), name_key(#[trigger] s[i]))
}

/// Whether entries are in strictly ascending name order.
pub open spec fn strictly_sorted_by_name(s: Seq<EntrySpec>) -> bool {
    forall|i: int, j: int| 0 <= i < j < s.len() ==> bytes_lt(name_key(#[trigger] s[i]), name_key(#[trigger] s[j]))
}

proof fn lemma_insert_position_bounds(e: EntrySpec, s: Seq<EntrySpec>, from: int)
    requires
        0 <= from <= s.len(),
    ensures
        forall|j: int| from <= j < insert_position(e, s, from) ==> !bytes_lt(name_key(e), name_key(#[trigger] s[j])),
        insert_position(e, s, from) < s.len() ==> bytes_lt(name_key(e), name_key(s[insert_position(e, s, from)])),
    decreases s.len() - from,
{
    if from < s.len() && !bytes_lt(name_key(e), name_key(s[from])) {
        lemma_insert_position_bounds(e, s, from + 1);
    }
}

proof fn lemma_sort_is_sorted(s: Seq<EntrySpec>)
    ensures
        sorted_by_name(sort_by_name(s)),
    decreases s.len(),
{
    if s.len() > 0 {
        lemma_sort_is_sorted(s.drop_last());
        let t = sort_by_name(s.drop_last());
        let e = s.last();
        lemma_insert_by_name_is_insert(e, t);
        lemma_insert_position(e, t, 0);
        lemma_insert_position_bounds(e, t, 0);
        let p = insert_position(e, t, 0);
        let u = t.insert(p, e);
        assert forall|i: int, j: int| 0 <= i < j < u.len() implies !bytes_lt(
            name_key(#[trigger] u[j]),
            name_key(#[trigger] u[i]),
        ) by {
            let ki = name_key(u[i]);
            let kj = name_key(u[j]);
            if i < p && j == p {
                assert(u[i] == t[i]);
            } else if i == p && j > p {
                assert(u[j] == t[j - 1]);
                let kp = name_key(t[p]);
                if bytes_lt(kj, ki) {
                    if j - 1 > p {
                        assert(!bytes_lt(name_key(t[j - 1]), name_key(t[p])));
                        crate::bytes::lemma_bytes_lt_transitive(kj, ki, kp);
                    } else {
                        crate::bytes::lemma_bytes_lt_asymmetric(ki, kj);
                    }
                }
            } else if j < p {
                assert(u[i] == t[i] && u[j] == t[j]);
            } else if i > p {
                assert(u[i] == t[i - 1] && u[j] == t[j - 1]);
            } else {
                assert(u[i] == t[i] && u[j] == t[j - 1]);
            }
        }
    }
}

proof fn lemma_sort_unique(s: Seq<EntrySpec>)
    requires
        unique_names(s),
    ensures
        unique_names(sort_by_name(s)),
    decreases s.len(),
{
    if s.len() > 0 {
        let init = s.drop_last();
        assert(unique_names(init)) by {
            assert forall|i: int, j: int| 0 <= i < init.len() && 0 <= j < init.len() && i != j implies #[trigger] init[i].name
                != #[trigger] init[j].name by {
                assert(init[i] == s[i] && init[j] == s[j]);
            }
        }
        lemma_sort_unique(init);
        let t = sort_by_name(init);
        let e = s.last();
        lemma_insert_by_name_is_insert(e, t);
        let p = insert_position(e, t, 0);
        let u = t.insert(p, e);
        assert forall|k: int| 0 <= k < t.len() implies #[trigger] t[k].name != e.name by {
            lemma_sorted_same_members(init, t[k]);
            assert(t.contains(t[k]));
            let m = choose|m: int| 0 <= m < init.len() && init[m] == t[k];
            assert(s[m] == init[m]);
            assert(s[s.len() - 1] == e);
        }
        assert forall|i: int, j: int| 0 <= i < u.len() && 0 <= j < u.len() && i != j implies #[trigger] u[i].name
            != #[trigger] u[j].name by {
            if i == p {
                assert(u[j] == (if j < p { t[j] } else { t[j - 1] }));
            } else if j == p {
                assert(u[i] == (if i < p { t[i] } else { t[i - 1] }));
            } else {
                assert(u[i] == (if i < p { t[i] } else { t[i - 1] }));
                assert(u[j] == (if j < p { t[j] } else { t[j - 1] }));
            }
        }
    }
}

proof fn lemma_strictly_sorted(s: Seq<EntrySpec>)
    requires
        sorted_by_name(s),
        unique_names(s),
    ensures
        strictly_sorted_by_name(s),
{
    assert forall|i: int, j: int| 0 <= i < j < s.len() implies bytes_lt(name_key(#[trigger] s[i]), name_key(#[trigger] s[j])) by {
        vstd::utf8::encode_utf8_decode_utf8(s[i].name);
        vstd::utf8::encode_utf8_decode_utf8(s[j].name);
        crate::bytes::lemma_bytes_lt_total(name_key(s[i]), name_key(s[j]));
    }
}

proof fn lemma_strictly_sorted_equal(a: Seq<EntrySpec>, b: Seq<EntrySpec>)
    requires
        strictly_sorted_by_name(a),
        strictly_sorted_by_name(b),
        forall|x: EntrySpec| a.contains(x) <==> b.contains(x),
    ensures
        a == b,
    decreases a.len() + b.len(),
{
    if a.len() == 0 || b.len() == 0 {
        if a.len() > 0 {
            assert(a.contains(a[0]));
        }
        if b.len() > 0 {
            assert(b.contains(b[0]));
        }
        assert(a =~= b);
    } else {
        assert(a.contains(a[0]) && b.contains(b[0]));
        let j = choose|j: int| 0 <= j < b.len() && b[j] == a[0];
        let i = choose|i: int| 0 <= i < a.len() && a[i] == b[0];
        if i > 0 && j > 0 {
            crate::bytes::lemma_bytes_lt_asymmetric(name_key(a[0]), name_key(a[i]));
        }
        if i == 0 || j == 0 {
            assert(a[0] == b[0]);
        }
        let a1 = a.drop_first();
        let b1 = b.drop_first();
        assert forall|x: EntrySpec| a1.contains(x) <==> b1.contains(x) by {
            if a1.contains(x) {
                let k = choose|k: int| 0 <= k < a1.len() && a1[k] == x;
                assert(a[k + 1] == x);
                assert(a.contains(x));
                crate::bytes::lemma_bytes_lt_irreflexive(name_key(a[0]));
                assert(x != a[0]);
                let m = choose|m: int| 0 <= m < b.len() && b[m] == x;
                assert(m != 0);
                assert(b1[m - 1] == x);
            }
            if b1.contains(x) {
                let k = choose|k: int| 0 <= k < b1.len() && b1[k] == x;
                assert(b[k + 1] == x);
                assert(b.contains(x));
                crate::bytes::lemma_bytes_lt_irreflexive(name_key(b[0]));
                assert(x != b[0]);
                let m = choose|m: int| 0 <= m < a.len() && a[m] == x;
                assert(m != 0);
                assert(a1[m - 1] == x);
            }
        }
        assert(strictly_sorted_by_name(a1)) by {
            assert forall|i: int, j: int| 0 <= i < j < a1.len() implies bytes_lt(name_key(#[trigger] a1[i]), name_key(#[trigger] a1[j])) by {
                assert(a1[i] == a[i + 1] && a1[j] == a[j + 1]);
            }
        }
        assert(strictly_sorted_by_name(b1)) by {
            assert forall|i: int, j: int| 0 <= i < j < b1.len() implies bytes_lt(name_key(#[trigger] b1[i]), name_key(#[trigger] b1[j])) by {
                assert(b1[i] == b[i + 1] && b1[j] == b[j + 1]);
            }
        }
        lemma_strictly_sorted_equal(a1, b1);
        assert(a =~= seq![a[0]] + a1);
        assert(b =~= seq![b[0]] + b1);
    }
}

/// Sorting by name does not depend on the order of the entries: the same
/// entries, each name once, sort alike.
pub proof fn lemma_sort_order_independent(a: Seq<EntrySpec>, b: Seq<EntrySpec>)
    requires
        a.to_multiset() == b.to_multiset(),
        unique_names(a),
        unique_names(b),
    ensures
        sort_by_name(a) == sort_by_name(b),
        hashes_decode(a) == hashes_decode(b),
{
    let sa = sort_by_name(a);
    let sb = sort_by_name(b);
    lemma_sort_is_sorted(a);
    lemma_sort_is_sorted(b);
    lemma_sort_unique(a);
    lemma_sort_unique(b);
    lemma_strictly_sorted(sa);
    lemma_strictly_sorted(sb);
    assert forall|x: EntrySpec| sa.contains(x) <==> sb.contains(x) by {
        lemma_sorted_same_members(a, x);
        lemma_sorted_same_members(b, x);
        vstd::seq_lib::to_multiset_contains(a, x);
        vstd::seq_lib::to_multiset_contains(b, x);
        assert(a.to_multiset().count(x) == b.to_multiset().count(x));
    }
    lemma_strictly_sorted_equal(sa, sb);
    lemma_sorted_hashes_decode(a);
    lemma_sorted_hashes_decode(b);
}

/// Serialization does not depend on the order in which entries were
/// added: two directories holding the same entries, each name once,
/// sort and serialize alike.
pub proof fn lemma_serialize_order_independent(a: Directory, b: Directory)
    requires
        a@.to_multiset() == b@.to_multiset(),
        unique_names(a@),
        unique_names(b@),
    ensures
        sort_by_name(a@) == sort_by_name(b@),
        a.spec_payload() == b.spec_payload(),
        a.spec_encodes() == b.spec_encodes(),
{
    lemma_sort_order_independent(a@, b@);
}

} // verus!
