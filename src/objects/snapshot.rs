use std::borrow::Cow;

use vstd::prelude::*;
use vstd::string::{StrSliceExecFns, StringExecFns, StringSliceAdditionalSpecFns};
use vstd::utf8::{decode_utf8, encode_utf8, valid_utf8};

use crate::error::Result;
use crate::object_store::ObjectType;
use crate::objects::JogenObject;
use crate::text::{chars_eq, chars_of};
use crate::wrappers::{lossy_string, utf8_lossy};

verus! {

/// The kind of change a snapshot records.
#[derive(Debug, Clone, Copy, PartialEq, Eq, Structural)]
pub enum SnapshotContext {
    Feature,
    Fix,
    Refactor,
    Docs,
    Chore,
    Merge,
    Initial,
}

/// The tag written for each context.
pub open spec fn context_name(c: SnapshotContext) -> Seq<char> {
    match c {
        SnapshotContext::Feature => "feature"@,
        SnapshotContext::Fix => "fix"@,
        SnapshotContext::Refactor => "refactor"@,
        SnapshotContext::Docs => "docs"@,
        SnapshotContext::Chore => "chore"@,
        SnapshotContext::Merge => "merge"@,
        SnapshotContext::Initial => "initial"@,
    }
}

/// The context a tag names; an unknown tag means `Chore`.
pub open spec fn context_of(t: Seq<char>) -> SnapshotContext {
    if t == "feature"@ {
        SnapshotContext::Feature
    } else if t == "fix"@ {
        SnapshotContext::Fix
    } else if t == "refactor"@ {
        SnapshotContext::Refactor
    } else if t == "docs"@ {
        SnapshotContext::Docs
    } else if t == "chore"@ {
        SnapshotContext::Chore
    } else if t == "merge"@ {
        SnapshotContext::Merge
    } else if t == "initial"@ {
        SnapshotContext::Initial
    } else {
        SnapshotContext::Chore
    }
}

impl SnapshotContext {
    /// The tag of this context.
    pub fn as_str(&self) -> (r: &'static str)
        ensures
            r@ == context_name(*self),
    {
        match self {
            SnapshotContext::Feature => "feature",
            SnapshotContext::Fix => "fix",
            SnapshotContext::Refactor => "refactor",
            SnapshotContext::Docs => "docs",
            SnapshotContext::Chore => "chore",
            SnapshotContext::Merge => "merge",
            SnapshotContext::Initial => "initial",
        }
    }
}

/// What a snapshot records, as text and numbers.
pub struct SnapshotView {
    pub directory: Seq<char>,
    pub parents: Seq<Seq<char>>,
    pub author: Seq<char>,
    pub time: i64,
    pub context: SnapshotContext,
    pub message: Seq<char>,
}

/// A commit: the root directory, its parents and its metadata.
#[derive(Debug, Clone)]
pub struct Snapshot {
    pub directory_hash: String,
    pub parent_hashes: Vec<String>,
    pub author: String,
    pub timestamp: i64,
    pub context: SnapshotContext,
    pub message: String,
}

impl View for Snapshot {
    type V = SnapshotView;

    open spec fn view(&self) -> SnapshotView {
        SnapshotView {
            directory: self.directory_hash@,
            parents: self.parent_hashes@.map_values(|p: String| p@),
            author: self.author@,
            time: self.timestamp,
            context: self.context,
            message: self.message@,
        }
    }
}

/// The decimal digit for a value below ten.
pub open spec fn digit_char(d: int) -> char {
    if d == 0 { '0' } else if d == 1 { '1' } else if d == 2 { '2' } else if d == 3 { '3' }
    else if d == 4 { '4' } else if d == 5 { '5' } else if d == 6 { '6' } else if d == 7 { '7' }
    else if d == 8 { '8' } else { '9' }
}

/// The value of a decimal digit character.
pub open spec fn digit_value(c: char) -> int {
    (c as int) - ('0' as int)
}

pub open spec fn is_digit(c: char) -> bool {
    '0' <= c && c <= '9'
}

/// The decimal digits of a natural number, most significant first.
pub open spec fn nat_text(n: nat) -> Seq<char>
    decreases n,
{
    if n < 10 {
        seq![digit_char(n as int)]
    } else {
        nat_text(n / 10).push(digit_char((n % 10) as int))
    }
}

/// The decimal text of an integer, with a leading `-` when negative.
pub open spec fn int_text(n: int) -> Seq<char> {
    if n < 0 {
        seq!['-'] + nat_text((-n) as nat)
    } else {
        nat_text(n as nat)
    }
}

/// The lines naming the parents, in order.
pub open spec fn parents_text(ps: Seq<Seq<char>>) -> Seq<char>
    decreases ps.len(),
{
    if ps.len() == 0 {
        seq![]
    } else {
        parents_text(ps.drop_last()) + "parent "@ + ps.last() + "\n"@
    }
}

/// The text of a snapshot payload: the header lines, a blank line, the
/// message.
pub open spec fn snapshot_text(v: SnapshotView) -> Seq<char> {
    "directory "@ + v.directory + "\n"@ + parents_text(v.parents) + "author "@ + v.author + "\n"@
        + "time "@ + int_text(v.time as int) + "\n"@ + "context "@ + context_name(v.context) + "\n"@
        + "\n"@ + v.message
}

fn digit_str(d: u64) -> (r: &'static str)
    requires
        d < 10,
    ensures
        r@ == seq![digit_char(d as int)],
{
    proof {
        reveal_strlit("0");
        reveal_strlit("1");
        reveal_strlit("2");
        reveal_strlit("3");
        reveal_strlit("4");
        reveal_strlit("5");
        reveal_strlit("6");
        reveal_strlit("7");
        reveal_strlit("8");
        reveal_strlit("9");
    }
    let r = if d == 0 { "0" } else if d == 1 { "1" } else if d == 2 { "2" } else if d == 3 { "3" }
    else if d == 4 { "4" } else if d == 5 { "5" } else if d == 6 { "6" } else if d == 7 { "7" }
    else if d == 8 { "8" } else { "9" };
    assert(r@ =~= seq![digit_char(d as int)]);
    r
}

/// Appends the decimal digits of `n` to `out`.
fn append_nat(out: &mut String, n: u64)
    ensures
        final(out)@ == old(out)@ + nat_text(n as nat),
    decreases n,
{
    if n < 10 {
        out.append(digit_str(n));
    } else {
        append_nat(out, n / 10);
        out.append(digit_str(n % 10));
        assert(old(out)@ + nat_text(n as nat) =~= old(out)@ + nat_text((n / 10) as nat) + seq![digit_char((n % 10) as int)]);
    }
}

/// Appends the decimal text of `n` to `out`.
fn append_int(out: &mut String, n: i64)
    ensures
        final(out)@ == old(out)@ + int_text(n as int),
{
    if n < 0 {
        proof { reveal_strlit("-"); }
        out.append("-");
        let m: u64 = (0i128 - (n as i128)) as u64;
        append_nat(out, m);
        assert(old(out)@ + int_text(n as int) =~= old(out)@ + "-"@ + nat_text(m as nat));
    } else {
        append_nat(out, n as u64);
    }
}

impl Snapshot {
    pub fn new(
        directory_hash: String,
        parent_hashes: Vec<String>,
        author: String,
        timestamp: i64,
        context: SnapshotContext,
        message: String,
    ) -> (r: Self)
        ensures
            r.directory_hash == directory_hash,
            r.parent_hashes == parent_hashes,
            r.author == author,
            r.timestamp == timestamp,
            r.context == context,
            r.message == message,
    {
        Snapshot { directory_hash, parent_hashes, author, timestamp, context, message }
    }

    /// The text of this snapshot's payload.
    pub fn to_text(&self) -> (r: String)
        ensures
            r@ == snapshot_text(self@),
    {
        let mut out = String::new();
        out.append("directory ");
        out.append(self.directory_hash.as_str());
        out.append("\n");
        let ghost ps = self@.parents;
        let ghost start = out@;
        let mut i: usize = 0;
        assert(ps.subrange(0, 0) =~= Seq::<Seq<char>>::empty());
        while i < self.parent_hashes.len()
            invariant
                i <= self.parent_hashes@.len(),
                ps == self.parent_hashes@.map_values(|p: String| p@),
                out@ == start + parents_text(ps.subrange(0, i as int)),
            decreases self.parent_hashes@.len() - i,
        {
            out.append("parent ");
            out.append(self.parent_hashes[i].as_str());
            out.append("\n");
            assert(ps.subrange(0, i + 1).drop_last() =~= ps.subrange(0, i as int));
            i = i + 1;
        }
        assert(ps.subrange(0, i as int) =~= ps);
        out.append("author ");
        out.append(self.author.as_str());
        out.append("\n");
        out.append("time ");
        append_int(&mut out, self.timestamp);
        out.append("\n");
        out.append("context ");
        out.append(self.context.as_str());
        out.append("\n");
        out.append("\n");
        out.append(self.message.as_str());
        assert(out@ =~= snapshot_text(self@));
        out
    }
}

impl JogenObject for Snapshot {
    open spec fn spec_kind(&self) -> ObjectType {
        ObjectType::Snapshot
    }

    open spec fn spec_encodes(&self) -> bool {
        true
    }

    /// The UTF-8 bytes of the snapshot's text.
    open spec fn spec_payload(&self) -> Seq<u8> {
        encode_utf8(snapshot_text(self@))
    }

    fn object_type(&self) -> (r: ObjectType) {
        ObjectType::Snapshot
    }

    fn serialize(&self) -> (r: Result<Cow<'_, [u8]>>) {
        let text = self.to_text();
        Ok(Cow::Owned(text.as_str().as_bytes_vec()))
    }
}

} // verus!

verus! {

/// The first index at or after `from` where `s` holds `c`, if any.
pub open spec fn char_from(s: Seq<char>, from: int, c: char) -> Option<int>
    decreases s.len() - from,
{
    if from < 0 || from >= s.len() {
        None
    } else if s[from] == c {
        Some(from)
    } else {
        char_from(s, from + 1, c)
    }
}

pub proof fn lemma_char_from(s: Seq<char>, from: int, c: char)
    requires
        0 <= from,
    ensures
        char_from(s, from, c) matches Some(k) ==> from <= k < s.len() && s[k] == c
            && forall|j: int| from <= j < k ==> s[j] != c,
        char_from(s, from, c) is None ==> forall|j: int| from <= j < s.len() ==> s[j] != c,
    decreases s.len() - from,
{
    if from < s.len() && s[from] != c {
        lemma_char_from(s, from + 1, c);
    }
}

/// Where the line starting at `pos` ends: its newline, or the end of `s`.
pub open spec fn line_end(s: Seq<char>, pos: int) -> int {
    match char_from(s, pos, '\n') {
        Some(k) => k,
        None => s.len() as int,
    }
}

/// The line starting at `pos`, without its line ending (a newline, or a
/// carriage return and a newline).
pub open spec fn line_at(s: Seq<char>, pos: int) -> Seq<char> {
    let e = line_end(s, pos);
    let raw = s.subrange(pos, e);
    if e < s.len() && raw.len() > 0 && raw.last() == '\r' {
        raw.drop_last()
    } else {
        raw
    }
}

/// Where the line after the one starting at `pos` starts.
pub open spec fn next_line(s: Seq<char>, pos: int) -> int {
    if line_end(s, pos) < s.len() {
        line_end(s, pos) + 1
    } else {
        s.len() as int
    }
}

/// A header line's key: the text before its first space.
pub open spec fn key_of(line: Seq<char>) -> Seq<char> {
    match char_from(line, 0, ' ') {
        Some(k) => line.subrange(0, k),
        None => line,
    }
}

/// A header line's value: the text after its first space, if any.
pub open spec fn value_of(line: Seq<char>) -> Seq<char> {
    match char_from(line, 0, ' ') {
        Some(k) => line.subrange(k + 1, line.len() as int),
        None => seq![],
    }
}

/// The number that a run of decimal digits spells.
pub open spec fn digits_value(t: Seq<char>) -> int
    decreases t.len(),
{
    if t.len() == 0 {
        0
    } else {
        10 * digits_value(t.drop_last()) + digit_value(t.last())
    }
}

/// Whether every character of `t` is a decimal digit.
pub open spec fn all_digits(t: Seq<char>) -> bool {
    forall|i: int| 0 <= i < t.len() ==> is_digit(#[trigger] t[i])
}

/// Whether `t` starts with a sign character.
pub open spec fn has_sign(t: Seq<char>) -> bool {
    t.len() > 0 && (t[0] == '-' || t[0] == '+')
}

/// `t` without its leading sign, if it has one.
pub open spec fn unsigned_part(t: Seq<char>) -> Seq<char> {
    if has_sign(t) {
        t.drop_first()
    } else {
        t
    }
}

/// The value that a signed run of digits spells.
pub open spec fn signed_value(t: Seq<char>) -> int {
    if t.len() > 0 && t[0] == '-' {
        -digits_value(unsigned_part(t))
    } else {
        digits_value(unsigned_part(t))
    }
}

/// A signed 64-bit integer in decimal: an optional sign, then one or more
/// digits, in range.
pub open spec fn parse_i64(t: Seq<char>) -> Option<i64> {
    if unsigned_part(t).len() == 0 || !all_digits(unsigned_part(t)) {
        None
    } else if i64::MIN <= signed_value(t) <= i64::MAX {
        Some(signed_value(t) as i64)
    } else {
        None
    }
}

/// What the header lines read so far have set.
pub struct HeaderState {
    pub directory: Seq<char>,
    pub parents: Seq<Seq<char>>,
    pub author: Seq<char>,
    pub time: i64,
    pub context: SnapshotContext,
}

/// The header state before any line: everything empty, time zero, `Chore`.
pub open spec fn initial_header() -> HeaderState {
    HeaderState { directory: seq![], parents: seq![], author: seq![], time: 0, context: SnapshotContext::Chore }
}

/// The header state after one more line; unknown keys change nothing and
/// an unreadable time reads as zero.
pub open spec fn absorb(st: HeaderState, line: Seq<char>) -> HeaderState {
    let k = key_of(line);
    let v = value_of(line);
    if k == "directory"@ {
        HeaderState { directory: v, ..st }
    } else if k == "parent"@ {
        HeaderState { parents: st.parents.push(v), ..st }
    } else if k == "author"@ {
        HeaderState { author: v, ..st }
    } else if k == "time"@ {
        HeaderState {
            time: match parse_i64(v) {
                Some(x) => x,
                None => 0,
            },
            ..st
        }
    } else if k == "context"@ {
        HeaderState { context: context_of(v), ..st }
    } else {
        st
    }
}

/// The header read from the line at `pos` up to the first empty line, and
/// where the message starts.
pub open spec fn header_from(s: Seq<char>, pos: int, st: HeaderState) -> (HeaderState, int)
    decreases s.len() - pos,
{
    if pos < 0 || pos >= s.len() || next_line(s, pos) <= pos {
        (st, s.len() as int)
    } else if line_at(s, pos).len() == 0 {
        (st, next_line(s, pos))
    } else {
        header_from(s, next_line(s, pos), absorb(st, line_at(s, pos)))
    }
}

/// The lines from `pos` on, joined by newlines.
pub open spec fn join_from(s: Seq<char>, pos: int) -> Seq<char>
    decreases s.len() - pos,
{
    if pos < 0 || pos >= s.len() || next_line(s, pos) <= pos {
        seq![]
    } else if next_line(s, pos) < s.len() {
        line_at(s, pos) + "\n"@ + join_from(s, next_line(s, pos))
    } else {
        line_at(s, pos)
    }
}

/// The snapshot that a payload's text describes.
pub open spec fn snapshot_of_text(s: Seq<char>) -> SnapshotView {
    let (h, body) = header_from(s, 0, initial_header());
    SnapshotView {
        directory: h.directory,
        parents: h.parents,
        author: h.author,
        time: h.time,
        context: h.context,
        message: join_from(s, body),
    }
}

} // verus!

verus! {

/// The first index in `from..to` where `c` holds `ch`, if any.
fn find_char(c: &Vec<char>, from: usize, to: usize, ch: char) -> (r: Option<usize>)
    requires
        from <= to <= c@.len(),
    ensures
        r matches Some(k) ==> from <= k < to && char_from(c@.subrange(from as int, to as int), 0, ch)
            == Some(k - from),
        r is None ==> char_from(c@.subrange(from as int, to as int), 0, ch) is None,
{
    let ghost t = c@.subrange(from as int, to as int);
    let mut i: usize = from;
    while i < to
        invariant
            from <= i <= to <= c@.len(),
            t == c@.subrange(from as int, to as int),
            char_from(t, 0, ch) == char_from(t, i - from, ch),
        decreases to - i,
    {
        if c[i] == ch {
            assert(t[i - from] == ch);
            return Some(i);
        }
        i = i + 1;
    }
    None
}

pub proof fn lemma_digits_value_nonneg(t: Seq<char>)
    requires
        forall|i: int| 0 <= i < t.len() ==> is_digit(#[trigger] t[i]),
    ensures
        digits_value(t) >= 0,
    decreases t.len(),
{
    if t.len() > 0 {
        lemma_digits_value_nonneg(t.drop_last());
    }
}

/// Reads `c[from..to]` as a signed 64-bit decimal integer.
fn parse_i64_chars(c: &Vec<char>, from: usize, to: usize) -> (r: Option<i64>)
    requires
        from <= to <= c@.len(),
    ensures
        r == parse_i64(c@.subrange(from as int, to as int)),
{
    let ghost t = c@.subrange(from as int, to as int);
    let mut start = from;
    let mut neg = false;
    if from < to && (c[from] == '-' || c[from] == '+') {
        neg = c[from] == '-';
        start = from + 1;
    }
    assert(neg == (t.len() > 0 && t[0] == '-'));
    let ghost d = c@.subrange(start as int, to as int);
    assert(d =~= unsigned_part(t));
    if start == to {
        return None;
    }
    let limit: u128 = 9223372036854775808;
    let mut acc: u128 = 0;
    let mut over = false;
    let mut i: usize = start;
    while i < to
        invariant
            start <= i <= to <= c@.len(),
            d == c@.subrange(start as int, to as int),
            t == c@.subrange(from as int, to as int),
            d == unsigned_part(t),
            neg == (t.len() > 0 && t[0] == '-'),
            forall|j: int| start <= j < i ==> is_digit(#[trigger] c@[j]),
            !over ==> acc == digits_value(c@.subrange(start as int, i as int)) && acc <= limit,
            over ==> digits_value(c@.subrange(start as int, i as int)) > limit,
            limit == 9223372036854775808,
        decreases to - i,
    {
        let ch = c[i];
        if !('0' <= ch && ch <= '9') {
            assert(d[i - start] == c@[i as int]);
            assert(!is_digit(d[i - start]));
            assert(!all_digits(d));
            return None;
        }
        let ghost pre = c@.subrange(start as int, i as int);
        let ghost post = c@.subrange(start as int, i + 1);
        assert(post.drop_last() == pre);
        assert forall|j: int| 0 <= j < pre.len() implies is_digit(#[trigger] pre[j]) by {
            assert(pre[j] == c@[start + j]);
        }
        proof { lemma_digits_value_nonneg(pre); }
        let dv = (ch as u32 - '0' as u32) as u128;
        if !over {
            acc = acc * 10 + dv;
            if acc > limit {
                over = true;
            }
        }
        i = i + 1;
    }
    assert(c@.subrange(start as int, to as int) == d);
    assert forall|j: int| 0 <= j < d.len() implies is_digit(#[trigger] d[j]) by {
        assert(d[j] == c@[start + j]);
    }
    if over {
        return None;
    }
    if neg {
        Some((0i128 - acc as i128) as i64)
    } else if acc < limit {
        Some(acc as i64)
    } else {
        None
    }
}

/// The context named by `c[from..to]`.
fn context_from(c: &Vec<char>, from: usize, to: usize) -> (r: SnapshotContext)
    requires
        from <= to <= c@.len(),
    ensures
        r == context_of(c@.subrange(from as int, to as int)),
{
    if chars_eq(c, from, to, "feature") {
        SnapshotContext::Feature
    } else if chars_eq(c, from, to, "fix") {
        SnapshotContext::Fix
    } else if chars_eq(c, from, to, "refactor") {
        SnapshotContext::Refactor
    } else if chars_eq(c, from, to, "docs") {
        SnapshotContext::Docs
    } else if chars_eq(c, from, to, "chore") {
        SnapshotContext::Chore
    } else if chars_eq(c, from, to, "merge") {
        SnapshotContext::Merge
    } else if chars_eq(c, from, to, "initial") {
        SnapshotContext::Initial
    } else {
        SnapshotContext::Chore
    }
}

} // verus!

verus! {

/// The first index at or after `from` where `c` holds `ch`.
fn find_char_from(c: &Vec<char>, from: usize, ch: char) -> (r: Option<usize>)
    ensures
        r matches Some(k) ==> char_from(c@, from as int, ch) == Some(k as int),
        r is None ==> char_from(c@, from as int, ch) is None,
{
    let mut i: usize = from;
    while i < c.len()
        invariant
            from <= i,
            char_from(c@, from as int, ch) == char_from(c@, i as int, ch),
        decreases c@.len() - i,
    {
        if c[i] == ch {
            return Some(i);
        }
        i = i + 1;
    }
    None
}

/// The end of the line starting at `pos`, without its line ending, and
/// where the next line starts.
fn line_bounds(c: &Vec<char>, pos: usize) -> (r: (usize, usize))
    requires
        pos < c@.len(),
    ensures
        pos <= r.0 <= c@.len(),
        c@.subrange(pos as int, r.0 as int) == line_at(c@, pos as int),
        r.1 == next_line(c@, pos as int),
        pos < r.1 <= c@.len(),
{
    proof { lemma_char_from(c@, pos as int, '\n'); }
    let n = c.len();
    match find_char_from(c, pos, '\n') {
        Some(k) => {
            assert(k < c@.len());
            if k > pos && c[k - 1] == '\r' {
                assert(c@.subrange(pos as int, k - 1) =~= c@.subrange(pos as int, k as int).drop_last());
                (k - 1, k + 1)
            } else {
                (k, k + 1)
            }
        },
        None => (c.len(), c.len()),
    }
}

/// The header fields read so far.
struct HeaderFields {
    directory: String,
    parents: Vec<String>,
    author: String,
    time: i64,
    context: SnapshotContext,
}

impl View for HeaderFields {
    type V = HeaderState;

    closed spec fn view(&self) -> HeaderState {
        HeaderState {
            directory: self.directory@,
            parents: self.parents@.map_values(|p: String| p@),
            author: self.author@,
            time: self.time,
            context: self.context,
        }
    }
}

impl HeaderFields {
    /// Applies the header line `c[from..to]`, whose text is `text`.
    fn absorb_line(&mut self, c: &Vec<char>, text: &str, from: usize, to: usize)
        requires
            text@ == c@,
            from <= to <= c@.len(),
        ensures
            final(self)@ == absorb(old(self)@, c@.subrange(from as int, to as int)),
    {
        let ghost line = c@.subrange(from as int, to as int);
        let (kend, vstart) = match find_char(c, from, to, ' ') {
            Some(k) => (k, k + 1),
            None => (to, to),
        };
        assert(c@.subrange(from as int, kend as int) =~= key_of(line));
        assert(c@.subrange(vstart as int, to as int) =~= value_of(line));
        let ghost v = value_of(line);
        if chars_eq(c, from, kend, "directory") {
            self.directory = text.substring_char(vstart, to).to_owned();
        } else if chars_eq(c, from, kend, "parent") {
            let ghost before = self.parents@.map_values(|p: String| p@);
            self.parents.push(text.substring_char(vstart, to).to_owned());
            assert(self.parents@.map_values(|p: String| p@) =~= before.push(v));
        } else if chars_eq(c, from, kend, "author") {
            self.author = text.substring_char(vstart, to).to_owned();
        } else if chars_eq(c, from, kend, "time") {
            self.time = match parse_i64_chars(c, vstart, to) {
                Some(x) => x,
                None => 0,
            };
        } else if chars_eq(c, from, kend, "context") {
            self.context = context_from(c, vstart, to);
        }
    }
}

impl Snapshot {
    /// Reads a snapshot payload. The bytes are decoded as UTF-8 (an invalid
    /// sequence reads as U+FFFD); header lines run up to the first empty
    /// line and the remaining lines, joined by newlines, are the message.
    pub fn deserialize(data: &[u8]) -> (r: Result<Self>)
        ensures
            r matches Ok(s) && s@ == snapshot_of_text(utf8_lossy(data@)),
            valid_utf8(data@) ==> (r matches Ok(s) && s@ == snapshot_of_text(decode_utf8(data@))),
    {
        let content = lossy_string(data);
        let text = content.as_str();
        let c = chars_of(text);
        let ghost s = c@;
        let n = c.len();
        let mut h = HeaderFields {
            directory: String::new(),
            parents: Vec::new(),
            author: String::new(),
            time: 0,
            context: SnapshotContext::Chore,
        };
        assert(h.parents@.map_values(|p: String| p@) =~= Seq::<Seq<char>>::empty());
        assert(h@ =~= initial_header());
        let mut pos: usize = 0;
        let mut body: usize = n;
        let mut done = false;
        while !done && pos < n
            invariant
                s == c@,
                n == s.len(),
                text@ == s,
                pos <= n,
                !done ==> header_from(s, 0, initial_header()) == header_from(s, pos as int, h@),
                done ==> header_from(s, 0, initial_header()) == (h@, body as int),
                !done ==> body == n,
                body <= n,
            decreases n - pos + (if done { 0int } else { 1int }),
        {
            let (lend, next) = line_bounds(&c, pos);
            if lend == pos {
                body = next;
                done = true;
            } else {
                h.absorb_line(&c, text, pos, lend);
                pos = next;
            }
        }
        let mut message = String::new();
        let mut p: usize = body;
        assert(message@ + join_from(s, body as int) =~= join_from(s, body as int));
        while p < n
            invariant
                s == c@,
                n == s.len(),
                text@ == s,
                body <= p <= n,
                join_from(s, body as int) == message@ + join_from(s, p as int),
            decreases n - p,
        {
            let (lend, next) = line_bounds(&c, p);
            let ghost before = message@;
            message.append(text.substring_char(p, lend));
            if next < n {
                message.append("\n");
            }
            assert(before + join_from(s, p as int) =~= message@ + join_from(s, next as int));
            p = next;
        }
        assert(message@ + join_from(s, p as int) =~= message@);
        assert(header_from(s, 0, initial_header()) == (h@, body as int));
        assert(s == utf8_lossy(data@));
        let ghost hv = h@;
        let r = Snapshot {
            directory_hash: h.directory,
            parent_hashes: h.parents,
            author: h.author,
            timestamp: h.time,
            context: h.context,
            message,
        };
        assert(r@.parents == hv.parents);
        assert(r@ == snapshot_of_text(s));
        Ok(r)
    }
}

} // verus!


verus! {

/// Whether a header value survives line splitting: no line breaks.
pub open spec fn header_safe(t: Seq<char>) -> bool {
    forall|i: int| 0 <= i < t.len() ==> #[trigger] t[i] != '\n' && t[i] != '\r'
}

/// Whether a message survives line splitting and joining: no carriage
/// return and no trailing newline.
pub open spec fn message_safe(m: Seq<char>) -> bool {
    (forall|i: int| 0 <= i < m.len() ==> #[trigger] m[i] != '\r') && !(m.len() > 0 && m.last() == '\n')
}

proof fn lemma_line_step(s: Seq<char>, pos: int, l: Seq<char>)
    requires
        0 <= pos,
        pos + l.len() + 1 <= s.len(),
        s.subrange(pos, pos + l.len() + 1) == l + "\n"@,
        forall|i: int| 0 <= i < l.len() ==> #[trigger] l[i] != '\n',
        l.len() == 0 || l.last() != '\r',
    ensures
        line_at(s, pos) == l,
        next_line(s, pos) == pos + l.len() + 1,
{
    reveal_strlit("\n");
    let e = pos + l.len();
    assert forall|j: int| pos <= j < e implies s[j] != '\n' by {
        assert(s[j] == s.subrange(pos, pos + l.len() + 1)[j - pos]);
        assert((l + "\n"@)[j - pos] == l[j - pos]);
    }
    assert(s[e] == s.subrange(pos, pos + l.len() + 1)[l.len() as int]);
    assert(s[e] == '\n');
    lemma_char_from_at(s, pos, e, '\n');
    assert(s.subrange(pos, e) =~= l) by {
        assert forall|j: int| 0 <= j < l.len() implies s.subrange(pos, e)[j] == l[j] by {
            assert(s[pos + j] == s.subrange(pos, pos + l.len() + 1)[j]);
        }
    }
}

proof fn lemma_char_from_at(s: Seq<char>, from: int, k: int, c: char)
    requires
        0 <= from <= k < s.len(),
        s[k] == c,
        forall|j: int| from <= j < k ==> s[j] != c,
    ensures
        char_from(s, from, c) == Some(k),
    decreases k - from,
{
    if from < k {
        lemma_char_from_at(s, from + 1, k, c);
    }
}

proof fn lemma_header_line(s: Seq<char>, pos: int, l: Seq<char>, st: HeaderState)
    requires
        0 <= pos,
        pos + l.len() + 1 <= s.len(),
        s.subrange(pos, pos + l.len() + 1) == l + "\n"@,
        forall|i: int| 0 <= i < l.len() ==> #[trigger] l[i] != '\n',
        l.len() > 0,
        l.last() != '\r',
    ensures
        header_from(s, pos, st) == header_from(s, pos + l.len() + 1, absorb(st, l)),
{
    lemma_line_step(s, pos, l);
}

proof fn lemma_key_value(k: Seq<char>, v: Seq<char>)
    requires
        forall|i: int| 0 <= i < k.len() ==> #[trigger] k[i] != ' ',
    ensures
        key_of(k + " "@ + v) == k,
        value_of(k + " "@ + v) == v,
{
    reveal_strlit(" ");
    let line = k + " "@ + v;
    assert(line[k.len() as int] == ' ');
    assert forall|j: int| 0 <= j < k.len() implies line[j] != ' ' by {
        assert(line[j] == k[j]);
    }
    lemma_char_from_at(line, 0, k.len() as int, ' ');
    assert(line.subrange(0, k.len() as int) =~= k);
    assert(line.subrange(k.len() as int + 1, line.len() as int) =~= v);
}

proof fn lemma_join_message(s: Seq<char>, q: int)
    requires
        0 <= q <= s.len(),
        forall|i: int| q <= i < s.len() ==> #[trigger] s[i] != '\r',
        s.len() == q || s.last() != '\n',
    ensures
        join_from(s, q) == s.subrange(q, s.len() as int),
    decreases s.len() - q,
{
    reveal_strlit("\n");
    if q < s.len() {
        lemma_char_from(s, q, '\n');
        let e = line_end(s, q);
        if e < s.len() {
            assert(e != s.len() - 1);
            assert(line_at(s, q) == s.subrange(q, e));
            lemma_join_message(s, e + 1);
            assert(s.subrange(q, e) + "\n"@ + s.subrange(e + 1, s.len() as int) =~= s.subrange(q, s.len() as int));
        } else {
            assert(line_at(s, q) == s.subrange(q, s.len() as int));
        }
    }
}

} // verus!

verus! {

proof fn lemma_kv_line(pre: Seq<char>, k: Seq<char>, v: Seq<char>, rest: Seq<char>, st: HeaderState)
    requires
        k.len() > 0,
        forall|i: int| 0 <= i < k.len() ==> #[trigger] k[i] != ' ' && k[i] != '\n' && k[i] != '\r',
        header_safe(v),
    ensures
        ({
            let l = k + " "@ + v;
            let s = pre + l + "\n"@ + rest;
            &&& header_from(s, pre.len() as int, st) == header_from(s, (pre.len() + l.len() + 1) as int, absorb(st, l))
            &&& key_of(l) == k
            &&& value_of(l) == v
        }),
{
    reveal_strlit(" ");
    reveal_strlit("\n");
    let l = k + " "@ + v;
    let s = pre + l + "\n"@ + rest;
    lemma_key_value(k, v);
    assert forall|i: int| 0 <= i < l.len() implies #[trigger] l[i] != '\n' by {
        if i < k.len() {
            assert(l[i] == k[i]);
        } else if i > k.len() {
            assert(l[i] == v[i - k.len() - 1]);
        }
    }
    if v.len() > 0 {
        assert(l.last() == v.last());
        assert(v[v.len() - 1] != '\r');
    }
    assert(s.subrange(pre.len() as int, (pre.len() + l.len() + 1) as int) =~= l + "\n"@);
    lemma_header_line(s, pre.len() as int, l, st);
}

proof fn lemma_digit(d: int)
    requires
        0 <= d < 10,
    ensures
        digit_value(digit_char(d)) == d,
        is_digit(digit_char(d)),
{
}

/// The decimal digits of a natural number read back as that number.
pub proof fn lemma_nat_text(n: nat)
    ensures
        nat_text(n).len() > 0,
        all_digits(nat_text(n)),
        digits_value(nat_text(n)) == n,
    decreases n,
{
    lemma_digit((n % 10) as int);
    if n >= 10 {
        lemma_nat_text(n / 10);
        let t = nat_text(n);
        assert(t.last() == digit_char((n % 10) as int));
        assert(t.drop_last() == nat_text(n / 10));
        assert forall|i: int| 0 <= i < t.len() implies is_digit(#[trigger] t[i]) by {
            if i < t.len() - 1 {
                assert(t[i] == nat_text(n / 10)[i]);
            }
        }
    } else {
        assert(nat_text(n).drop_last() =~= Seq::<char>::empty());
        assert(digits_value(nat_text(n)) == 10 * digits_value(Seq::<char>::empty()) + digit_value(digit_char(n as int)));
    }
}

/// The decimal text of a 64-bit integer parses back as that integer.
pub proof fn lemma_int_text_parses(t: i64)
    ensures
        parse_i64(int_text(t as int)) == Some(t),
{
    if t < 0 {
        let m = (-(t as int)) as nat;
        lemma_nat_text(m);
        let s = int_text(t as int);
        assert(s.drop_first() =~= nat_text(m));
        assert(has_sign(s));
    } else {
        lemma_nat_text(t as nat);
        let s = nat_text(t as nat);
        assert(is_digit(s[0]));
        assert(!has_sign(s));
    }
}

proof fn lemma_header_parents(pre: Seq<char>, ps: Seq<Seq<char>>, rest: Seq<char>, st: HeaderState)
    requires
        forall|i: int| 0 <= i < ps.len() ==> header_safe(#[trigger] ps[i]),
    ensures
        header_from(pre + parents_text(ps) + rest, pre.len() as int, st) == header_from(
            pre + parents_text(ps) + rest,
            (pre.len() + parents_text(ps).len()) as int,
            HeaderState { parents: st.parents + ps, ..st },
        ),
    decreases ps.len(),
{
    reveal_strlit("parent ");
    reveal_strlit("parent");
    reveal_strlit(" ");
    lemma_literals();
    reveal_strlit("\n");
    let s = pre + parents_text(ps) + rest;
    if ps.len() == 0 {
        assert(st.parents + ps =~= st.parents);
        assert(parents_text(ps).len() == 0);
        assert(HeaderState { parents: st.parents + ps, ..st } == st);
    } else {
        let init = ps.drop_last();
        let p = ps.last();
        let line = "parent"@ + " "@ + p;
        assert("parent "@ =~= "parent"@ + " "@);
        let tail = line + "\n"@ + rest;
        assert(s =~= pre + parents_text(init) + tail);
        assert forall|i: int| 0 <= i < init.len() implies header_safe(#[trigger] init[i]) by {
            assert(init[i] == ps[i]);
        }
        lemma_header_parents(pre, init, tail, st);
        let st1 = HeaderState { parents: st.parents + init, ..st };
        let pre1 = pre + parents_text(init);
        assert(header_safe(ps[ps.len() - 1]));
        lemma_kv_line(pre1, "parent"@, p, rest, st1);
        assert(pre1 + line + "\n"@ + rest =~= s);
        assert(st1.parents.push(p) =~= st.parents + ps);
        assert(key_of(line) == "parent"@);
        assert(absorb(st1, line) == HeaderState { parents: st.parents + ps, ..st });
        assert(parents_text(ps) == parents_text(init) + "parent "@ + p + "\n"@);
        let mid = (pre.len() + parents_text(init).len()) as int;
        assert(pre1.len() == mid);
        assert(header_from(s, pre.len() as int, st) == header_from(s, mid, st1));
        assert(header_from(s, mid, st1) == header_from(s, (pre1.len() + line.len() + 1) as int, absorb(st1, line)));
        assert(pre1.len() + line.len() + 1 == pre.len() + parents_text(ps).len());
    }
}

proof fn lemma_context_round_trip(c: SnapshotContext)
    ensures
        context_of(context_name(c)) == c,
{
    lemma_literals();
}

/// The lengths and first characters that tell the literal keys and tags
/// apart.
proof fn lemma_literals()
    ensures
        "feature"@.len() == 7 && "feature"@[0] == 'f',
        "fix"@.len() == 3,
        "refactor"@.len() == 8,
        "docs"@.len() == 4,
        "chore"@.len() == 5 && "chore"@[0] == 'c',
        "merge"@.len() == 5 && "merge"@[0] == 'm',
        "initial"@.len() == 7 && "initial"@[0] == 'i',
        "directory"@.len() == 9,
        "parent"@.len() == 6 && "parent"@[0] == 'p',
        "author"@.len() == 6 && "author"@[0] == 'a',
        "time"@.len() == 4,
        "context"@.len() == 7,
{
    reveal_strlit("feature");
    reveal_strlit("fix");
    reveal_strlit("refactor");
    reveal_strlit("docs");
    reveal_strlit("chore");
    reveal_strlit("merge");
    reveal_strlit("initial");
    reveal_strlit("directory");
    reveal_strlit("parent");
    reveal_strlit("author");
    reveal_strlit("time");
    reveal_strlit("context");
}

} // verus!

verus! {

proof fn lemma_tags_header_safe(c: SnapshotContext)
    ensures
        header_safe(context_name(c)),
        forall|i: int| 0 <= i < "directory"@.len() ==> #[trigger] "directory"@[i] != ' ' && "directory"@[i] != '\n' && "directory"@[i] != '\r',
        forall|i: int| 0 <= i < "author"@.len() ==> #[trigger] "author"@[i] != ' ' && "author"@[i] != '\n' && "author"@[i] != '\r',
        forall|i: int| 0 <= i < "time"@.len() ==> #[trigger] "time"@[i] != ' ' && "time"@[i] != '\n' && "time"@[i] != '\r',
        forall|i: int| 0 <= i < "context"@.len() ==> #[trigger] "context"@[i] != ' ' && "context"@[i] != '\n' && "context"@[i] != '\r',
        forall|i: int| 0 <= i < "parent"@.len() ==> #[trigger] "parent"@[i] != ' ' && "parent"@[i] != '\n' && "parent"@[i] != '\r',
{
    reveal_strlit("feature");
    reveal_strlit("fix");
    reveal_strlit("refactor");
    reveal_strlit("docs");
    reveal_strlit("chore");
    reveal_strlit("merge");
    reveal_strlit("initial");
    reveal_strlit("directory");
    reveal_strlit("parent");
    reveal_strlit("author");
    reveal_strlit("time");
    reveal_strlit("context");
}

proof fn lemma_int_text_header_safe(t: int)
    ensures
        header_safe(int_text(t)),
{
    let s = int_text(t);
    if t < 0 {
        lemma_nat_text((-t) as nat);
        assert forall|i: int| 0 <= i < s.len() implies #[trigger] s[i] != '\n' && s[i] != '\r' by {
            if i > 0 {
                assert(s[i] == nat_text((-t) as nat)[i - 1]);
            }
        }
    } else {
        lemma_nat_text(t as nat);
        assert forall|i: int| 0 <= i < s.len() implies #[trigger] s[i] != '\n' && s[i] != '\r' by {
            assert(is_digit(s[i]));
        }
    }
}

proof fn lemma_prefix_literals()
    ensures
        "directory "@ == "directory"@ + " "@,
        "author "@ == "author"@ + " "@,
        "time "@ == "time"@ + " "@,
        "context "@ == "context"@ + " "@,
        "\n"@ == seq!['\n'],
{
    reveal_strlit("directory ");
    reveal_strlit("directory");
    reveal_strlit("author ");
    reveal_strlit("author");
    reveal_strlit("time ");
    reveal_strlit("time");
    reveal_strlit("context ");
    reveal_strlit("context");
    reveal_strlit(" ");
    reveal_strlit("\n");
    assert("directory "@ =~= "directory"@ + " "@);
    assert("author "@ =~= "author"@ + " "@);
    assert("time "@ =~= "time"@ + " "@);
    assert("context "@ =~= "context"@ + " "@);
    assert("\n"@ =~= seq!['\n']);
}

/// A snapshot's text reads back as the same snapshot, when its header
/// values hold no line breaks and its message holds no carriage return
/// and does not end in a newline.
spec fn text_before_author(v: SnapshotView) -> Seq<char> {
    "directory"@ + " "@ + v.directory + "\n"@ + parents_text(v.parents)
}

spec fn text_before_time(v: SnapshotView) -> Seq<char> {
    text_before_author(v) + ("author"@ + " "@ + v.author) + "\n"@
}

spec fn text_before_context(v: SnapshotView) -> Seq<char> {
    text_before_time(v) + ("time"@ + " "@ + int_text(v.time as int)) + "\n"@
}

spec fn text_before_blank(v: SnapshotView) -> Seq<char> {
    text_before_context(v) + ("context"@ + " "@ + context_name(v.context)) + "\n"@
}

proof fn lemma_text_shape(v: SnapshotView)
    ensures
        snapshot_text(v) == text_before_blank(v) + "\n"@ + v.message,
{
    lemma_prefix_literals();
    assert(snapshot_text(v) =~= text_before_blank(v) + "\n"@ + v.message);
}

proof fn lemma_step_directory(v: SnapshotView, st: HeaderState)
    requires
        header_safe(v.directory),
    ensures
        header_from(snapshot_text(v), 0, st) == header_from(
            snapshot_text(v),
            ("directory"@ + " "@ + v.directory + "\n"@).len() as int,
            HeaderState { directory: v.directory, ..st },
        ),
{
    lemma_text_shape(v);
    lemma_prefix_literals();
    lemma_tags_header_safe(v.context);
    lemma_literals();
    let l = "directory"@ + " "@ + v.directory;
    let rest = parents_text(v.parents) + ("author"@ + " "@ + v.author) + "\n"@ + ("time"@ + " "@ + int_text(
        v.time as int,
    )) + "\n"@ + ("context"@ + " "@ + context_name(v.context)) + "\n"@ + "\n"@ + v.message;
    assert(snapshot_text(v) =~= Seq::<char>::empty() + l + "\n"@ + rest);
    lemma_kv_line(Seq::<char>::empty(), "directory"@, v.directory, rest, st);
    assert(absorb(st, l) == HeaderState { directory: v.directory, ..st });
}

proof fn lemma_step_parents(v: SnapshotView, st: HeaderState)
    requires
        forall|i: int| 0 <= i < v.parents.len() ==> header_safe(#[trigger] v.parents[i]),
    ensures
        header_from(snapshot_text(v), ("directory"@ + " "@ + v.directory + "\n"@).len() as int, st)
            == header_from(
            snapshot_text(v),
            text_before_author(v).len() as int,
            HeaderState { parents: st.parents + v.parents, ..st },
        ),
{
    lemma_text_shape(v);
    lemma_prefix_literals();
    let pre = "directory"@ + " "@ + v.directory + "\n"@;
    let rest = ("author"@ + " "@ + v.author) + "\n"@ + ("time"@ + " "@ + int_text(v.time as int)) + "\n"@ + (
    "context"@ + " "@ + context_name(v.context)) + "\n"@ + "\n"@ + v.message;
    assert(snapshot_text(v) =~= pre + parents_text(v.parents) + rest);
    lemma_header_parents(pre, v.parents, rest, st);
}

proof fn lemma_step_author(v: SnapshotView, st: HeaderState)
    requires
        header_safe(v.author),
    ensures
        header_from(snapshot_text(v), text_before_author(v).len() as int, st) == header_from(
            snapshot_text(v),
            text_before_time(v).len() as int,
            HeaderState { author: v.author, ..st },
        ),
{
    lemma_text_shape(v);
    lemma_prefix_literals();
    lemma_tags_header_safe(v.context);
    lemma_literals();
    let rest = ("time"@ + " "@ + int_text(v.time as int)) + "\n"@ + ("context"@ + " "@ + context_name(v.context))
        + "\n"@ + "\n"@ + v.message;
    assert(snapshot_text(v) =~= text_before_author(v) + ("author"@ + " "@ + v.author) + "\n"@ + rest);
    lemma_kv_line(text_before_author(v), "author"@, v.author, rest, st);
    let l = "author"@ + " "@ + v.author;
    assert(key_of(l) == "author"@);
    assert("author"@ != "directory"@);
    assert("author"@ != "parent"@);
    assert(absorb(st, l) == HeaderState { author: v.author, ..st });
}

proof fn lemma_step_time(v: SnapshotView, st: HeaderState)
    ensures
        header_from(snapshot_text(v), text_before_time(v).len() as int, st) == header_from(
            snapshot_text(v),
            text_before_context(v).len() as int,
            HeaderState { time: v.time, ..st },
        ),
{
    lemma_text_shape(v);
    lemma_prefix_literals();
    lemma_tags_header_safe(v.context);
    lemma_int_text_header_safe(v.time as int);
    lemma_literals();
    lemma_int_text_parses(v.time);
    let tt = int_text(v.time as int);
    let rest = ("context"@ + " "@ + context_name(v.context)) + "\n"@ + "\n"@ + v.message;
    assert(snapshot_text(v) =~= text_before_time(v) + ("time"@ + " "@ + tt) + "\n"@ + rest);
    lemma_kv_line(text_before_time(v), "time"@, tt, rest, st);
    let l = "time"@ + " "@ + tt;
    assert("time"@ != "directory"@);
    assert("time"@ != "parent"@);
    assert("time"@ != "author"@);
    assert(absorb(st, l) == HeaderState { time: v.time, ..st });
}

proof fn lemma_step_context(v: SnapshotView, st: HeaderState)
    ensures
        header_from(snapshot_text(v), text_before_context(v).len() as int, st) == header_from(
            snapshot_text(v),
            text_before_blank(v).len() as int,
            HeaderState { context: v.context, ..st },
        ),
{
    lemma_text_shape(v);
    lemma_prefix_literals();
    lemma_tags_header_safe(v.context);
    lemma_literals();
    lemma_context_round_trip(v.context);
    let cn = context_name(v.context);
    let rest = "\n"@ + v.message;
    assert(snapshot_text(v) =~= text_before_context(v) + ("context"@ + " "@ + cn) + "\n"@ + rest);
    lemma_kv_line(text_before_context(v), "context"@, cn, rest, st);
    let l = "context"@ + " "@ + cn;
    assert("context"@ != "directory"@);
    assert("context"@ != "parent"@);
    assert("context"@ != "author"@);
    assert("context"@ != "time"@);
    assert(absorb(st, l) == HeaderState { context: v.context, ..st });
}

proof fn lemma_step_blank(v: SnapshotView, st: HeaderState)
    ensures
        header_from(snapshot_text(v), text_before_blank(v).len() as int, st) == (
            st,
            text_before_blank(v).len() as int + 1,
        ),
        snapshot_text(v).subrange(text_before_blank(v).len() as int + 1, snapshot_text(v).len() as int)
            == v.message,
{
    lemma_text_shape(v);
    lemma_prefix_literals();
    let s = snapshot_text(v);
    let q = text_before_blank(v).len() as int;
    assert(s[q] == '\n');
    lemma_char_from_at(s, q, q, '\n');
    assert(line_at(s, q) =~= Seq::<char>::empty());
    assert(s.subrange(q + 1, s.len() as int) =~= v.message);
}

/// The header of a snapshot's text reads back as its header fields, and
/// the message starts after the blank line.
proof fn lemma_snapshot_header(v: SnapshotView)
    requires
        header_safe(v.directory),
        header_safe(v.author),
        forall|i: int| 0 <= i < v.parents.len() ==> header_safe(#[trigger] v.parents[i]),
    ensures
        ({
            let s = snapshot_text(v);
            let q = s.len() - v.message.len();
            &&& 1 <= q <= s.len()
            &&& s.subrange(q, s.len() as int) == v.message
            &&& header_from(s, 0, initial_header()) == (
                HeaderState {
                    directory: v.directory,
                    parents: v.parents,
                    author: v.author,
                    time: v.time,
                    context: v.context,
                },
                q,
            )
        }),
{
    let st0 = initial_header();
    let st1 = HeaderState { directory: v.directory, ..st0 };
    let st2 = HeaderState { parents: st1.parents + v.parents, ..st1 };
    let st3 = HeaderState { author: v.author, ..st2 };
    let st4 = HeaderState { time: v.time, ..st3 };
    let st5 = HeaderState { context: v.context, ..st4 };
    lemma_step_directory(v, st0);
    lemma_step_parents(v, st1);
    lemma_step_author(v, st2);
    lemma_step_time(v, st3);
    lemma_step_context(v, st4);
    lemma_step_blank(v, st5);
    lemma_text_shape(v);
    assert(st1.parents + v.parents =~= v.parents);
}

/// A snapshot's text reads back as the same snapshot, when its header
/// values hold no line breaks and its message holds no carriage return
/// and does not end in a newline.
pub proof fn lemma_snapshot_round_trip(v: SnapshotView)
    requires
        header_safe(v.directory),
        header_safe(v.author),
        forall|i: int| 0 <= i < v.parents.len() ==> header_safe(#[trigger] v.parents[i]),
        message_safe(v.message),
    ensures
        snapshot_of_text(snapshot_text(v)) == v,
        decode_utf8(encode_utf8(snapshot_text(v))) == snapshot_text(v),
{
    vstd::utf8::encode_utf8_decode_utf8(snapshot_text(v));
    lemma_snapshot_header(v);
    let s = snapshot_text(v);
    let q = s.len() - v.message.len();
    assert forall|i: int| q <= i < s.len() implies #[trigger] s[i] != '\r' by {
        assert(s[i] == s.subrange(q, s.len() as int)[i - q]);
    }
    if v.message.len() > 0 {
        assert(s.last() == s.subrange(q, s.len() as int).last());
    }
    lemma_join_message(s, q);
}

} // verus!
