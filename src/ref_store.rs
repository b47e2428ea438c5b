//! References: how `HEAD` and track files are read and which file an
//! update goes to. The files themselves are read and written by the caller.
use vstd::prelude::*;
use vstd::string::StrSliceExecFns;

use crate::bytes::{bytes_lt, lt_bytes};
use crate::error::{JogenError, Result};
use crate::wrappers::already_exists_error;
use crate::text::{chars_eq, chars_of};

verus! {

/// Whether `c` has the Unicode `White_Space` property.
pub open spec fn is_white_space(c: char) -> bool {
    let v = c as u32;
    (9 <= v <= 13) || v == 32 || v == 0x85 || v == 0xA0 || v == 0x1680 || (0x2000 <= v <= 0x200A)
        || v == 0x2028 || v == 0x2029 || v == 0x202F || v == 0x205F || v == 0x3000
}

/// `s` without leading white space.
pub open spec fn trim_front(s: Seq<char>) -> Seq<char>
    decreases s.len(),
{
    if s.len() > 0 && is_white_space(s[0]) {
        trim_front(s.drop_first())
    } else {
        s
    }
}

/// `s` without trailing white space.
pub open spec fn trim_back(s: Seq<char>) -> Seq<char>
    decreases s.len(),
{
    if s.len() > 0 && is_white_space(s.last()) {
        trim_back(s.drop_last())
    } else {
        s
    }
}

/// `s` without leading or trailing white space.
pub open spec fn trimmed(s: Seq<char>) -> Seq<char> {
    trim_back(trim_front(s))
}

/// Whether `s` starts with `p`.
pub open spec fn starts_with(s: Seq<char>, p: Seq<char>) -> bool {
    s.len() >= p.len() && s.subrange(0, p.len() as int) == p
}

/// What the text after a prefix is.
pub open spec fn after(s: Seq<char>, p: Seq<char>) -> Seq<char> {
    s.subrange(p.len() as int, s.len() as int)
}

fn is_white_space_char(c: char) -> (r: bool)
    ensures
        r == is_white_space(c),
{
    let v = c as u32;
    (9 <= v && v <= 13) || v == 32 || v == 0x85 || v == 0xA0 || v == 0x1680 || (0x2000 <= v && v
        <= 0x200A) || v == 0x2028 || v == 0x2029 || v == 0x202F || v == 0x205F || v == 0x3000
}

/// `s` without leading or trailing white space.
pub fn trim_text(s: &str) -> (r: String)
    ensures
        r@ == trimmed(s@),
{
    let c = chars_of(s);
    let n = c.len();
    let mut a: usize = 0;
    assert(c@.subrange(0, n as int) == c@);
    while a < n && is_white_space_char(c[a])
        invariant
            a <= n == c@.len(),
            c@ == s@,
            trim_front(s@) == trim_front(c@.subrange(a as int, n as int)),
        decreases n - a,
    {
        assert(c@.subrange(a as int, n as int).drop_first() =~= c@.subrange(a + 1, n as int));
        a = a + 1;
    }
    assert(trim_front(s@) == c@.subrange(a as int, n as int));
    let mut b: usize = n;
    assert(c@.subrange(a as int, b as int) == trim_front(s@));
    while b > a && is_white_space_char(c[b - 1])
        invariant
            a <= b <= n == c@.len(),
            c@ == s@,
            trimmed(s@) == trim_back(c@.subrange(a as int, b as int)),
        decreases b,
    {
        assert(c@.subrange(a as int, b as int).drop_last() =~= c@.subrange(a as int, b - 1));
        b = b - 1;
    }
    s.substring_char(a, b).to_owned()
}

/// Where `HEAD` points.
pub enum HeadRef {
    /// `HEAD` names another reference by its path under the control
    /// directory.
    Symbolic(String),
    /// `HEAD` holds a snapshot hash itself.
    Direct(String),
}

/// The prefix that marks a symbolic reference.
pub open spec fn ref_prefix() -> Seq<char> {
    "ref: "@
}

/// The prefix of a symbolic `HEAD` that names a track.
pub open spec fn track_prefix() -> Seq<char> {
    "ref: refs/tracks/"@
}

/// Whether a name is listed as a track: it does not start with a dot.
pub open spec fn listed_track(n: Seq<char>) -> bool {
    !(n.len() > 0 && n[0] == '.')
}

/// The names that are listed as tracks, in their order.
pub open spec fn listed_names(s: Seq<Seq<char>>) -> Seq<Seq<char>>
    decreases s.len(),
{
    if s.len() == 0 {
        seq![]
    } else if listed_track(s.last()) {
        listed_names(s.drop_last()).push(s.last())
    } else {
        listed_names(s.drop_last())
    }
}

/// Whether names are in ascending byte order.
pub open spec fn names_sorted(s: Seq<Seq<char>>) -> bool {
    forall|i: int, j: int| 0 <= i < j < s.len() ==> !bytes_lt(
        vstd::utf8::encode_utf8(#[trigger] s[j]),
        vstd::utf8::encode_utf8(#[trigger] s[i]),
    )
}

/// Whether `t` is `s` with the prefix `p` removed, where `s` has it.
fn strip_prefix_of(s: &str, p: &str) -> (r: Option<String>)
    ensures
        r is Some <==> starts_with(s@, p@),
        r matches Some(t) ==> t@ == after(s@, p@),
{
    let c = chars_of(s);
    let n = c.len();
    let m = p.unicode_len();
    if m <= n && chars_eq(&c, 0, m, p) {
        Some(s.substring_char(m, n).to_owned())
    } else {
        None
    }
}

/// A store of named references under a repository root.
pub struct RefStore {
    root_path: std::path::PathBuf,
}

impl RefStore {
    /// The repository root that references live under.
    pub closed spec fn root(&self) -> std::path::PathBuf {
        self.root_path
    }

    pub fn new(root_path: std::path::PathBuf) -> (r: Self)
        ensures
            r.root() == root_path,
    {
        RefStore { root_path }
    }

    pub fn root_path(&self) -> (r: &std::path::PathBuf)
        ensures
            *r == self.root(),
    {
        &self.root_path
    }

    /// Reads the contents of `HEAD`: trimmed, a `ref: ` prefix makes it
    /// symbolic, anything else is a hash.
    pub fn parse_head(content: &str) -> (r: HeadRef)
        ensures
            starts_with(trimmed(content@), ref_prefix()) ==> (r matches HeadRef::Symbolic(n) && n@
                == after(trimmed(content@), ref_prefix())),
            !starts_with(trimmed(content@), ref_prefix()) ==> (r matches HeadRef::Direct(h) && h@
                == trimmed(content@)),
    {
        let t = trim_text(content);
        match strip_prefix_of(t.as_str(), "ref: ") {
            Some(name) => HeadRef::Symbolic(name),
            None => HeadRef::Direct(t),
        }
    }

    /// The value a reference file holds: its contents, trimmed.
    pub fn parse_ref(content: &str) -> (r: String)
        ensures
            r@ == trimmed(content@),
    {
        trim_text(content)
    }

    /// The reference that an update of `HEAD` rewrites, given the current
    /// contents of `HEAD` (none when it is absent): the named reference
    /// when `HEAD` is symbolic, `HEAD` itself otherwise.
    pub fn head_update_target(head: Option<&str>) -> (r: String)
        ensures
            r@ == match head {
                Some(c) => if starts_with(trimmed(c@), ref_prefix()) {
                    after(trimmed(c@), ref_prefix())
                } else {
                    "HEAD"@
                },
                None => "HEAD"@,
            },
    {
        match head {
            Some(c) => match RefStore::parse_head(c) {
                HeadRef::Symbolic(name) => name,
                HeadRef::Direct(_) => "HEAD".to_owned(),
            },
            None => "HEAD".to_owned(),
        }
    }

    /// The track that `HEAD` names, when it reads `ref: refs/tracks/<name>`.
    pub fn track_of_head(content: &str) -> (r: Option<String>)
        ensures
            r is Some <==> starts_with(trimmed(content@), track_prefix()),
            r matches Some(n) ==> n@ == after(trimmed(content@), track_prefix()),
    {
        let t = trim_text(content);
        strip_prefix_of(t.as_str(), "ref: refs/tracks/")
    }

    /// The path of a track's file under the control directory.
    pub fn track_ref_name(track: &str) -> (r: String)
        ensures
            r@ == "refs/tracks/"@ + track@,
    {
        let mut r = "refs/tracks/".to_owned();
        vstd::string::StringExecFns::append(&mut r, track);
        r
    }

    /// Refuses to create a track that exists already, with an I/O error of
    /// kind `AlreadyExists`.
    pub fn check_new_track(track: &str, exists: bool) -> (r: Result<()>)
        ensures
            r is Ok <==> !exists,
            r is Err ==> r matches Err(JogenError::Io(_)),
    {
        if exists {
            let mut message = "track already exists: ".to_owned();
            vstd::string::StringExecFns::append(&mut message, track);
            Err(JogenError::Io(already_exists_error(message.as_str())))
        } else {
            Ok(())
        }
    }

    /// The track names to list, given the names found in the tracks
    /// directory: those not starting with a dot, in ascending order.
    pub fn select_tracks(names: Vec<String>) -> (r: Vec<String>)
        ensures
            names_sorted(r@.map_values(|s: String| s@)),
            r@.map_values(|s: String| s@).to_multiset() == listed_names(names@.map_values(|s: String| s@)).to_multiset(),
    {
        let ghost src = names@.map_values(|s: String| s@);
        let mut out: Vec<String> = Vec::new();
        let mut i: usize = 0;
        let mut names = names;
        assert(listed_names(src.subrange(0, 0)) =~= Seq::<Seq<char>>::empty());
        assert(out@.map_values(|s: String| s@) =~= Seq::<Seq<char>>::empty());
        while i < names.len()
            invariant
                i <= names@.len(),
                src == names@.map_values(|s: String| s@),
                names_sorted(out@.map_values(|s: String| s@)),
                out@.map_values(|s: String| s@).to_multiset() == listed_names(src.subrange(0, i as int)).to_multiset(),
            decreases names@.len() - i,
        {
            let name = names[i].clone();
            let ghost v = name@;
            let listed = !(name.as_str().unicode_len() > 0 && name.as_str().get_char(0) == '.');
            proof {
                let pre = src.subrange(0, i as int);
                assert(src.subrange(0, i + 1) == pre.push(v));
                assert(src.subrange(0, i + 1).drop_last() == pre);
                assert(listed == listed_track(v));
            }
            if listed {
                let ghost before = out@.map_values(|s: String| s@);
                let key = name.as_str().as_bytes();
                let mut p: usize = 0;
                while p < out.len() && !lt_bytes(key, out[p].as_str().as_bytes())
                    invariant
                        p <= out@.len(),
                        before == out@.map_values(|s: String| s@),
                        key@ == vstd::utf8::encode_utf8(v),
                        forall|j: int| 0 <= j < p ==> !bytes_lt(key@, vstd::utf8::encode_utf8(#[trigger] before[j])),
                    decreases out@.len() - p,
                {
                    p = p + 1;
                }
                out.insert(p, name);
                proof {
                    let after_ins = out@.map_values(|s: String| s@);
                    assert(after_ins =~= before.insert(p as int, v));
                    vstd::seq_lib::to_multiset_insert(before, p as int, v);
                    lemma_insert_keeps_sorted(before, p as int, v);
                    vstd::seq_lib::to_multiset_build(listed_names(src.subrange(0, i as int)), v);
                }
            }
            i = i + 1;
        }
        assert(src.subrange(0, i as int) == src);
        out
    }
}

proof fn lemma_insert_keeps_sorted(s: Seq<Seq<char>>, p: int, v: Seq<char>)
    requires
        names_sorted(s),
        0 <= p <= s.len(),
        forall|j: int| 0 <= j < p ==> !bytes_lt(vstd::utf8::encode_utf8(v), vstd::utf8::encode_utf8(#[trigger] s[j])),
        p < s.len() ==> bytes_lt(vstd::utf8::encode_utf8(v), vstd::utf8::encode_utf8(s[p])),
    ensures
        names_sorted(s.insert(p, v)),
{
    let t = s.insert(p, v);
    assert forall|i: int, j: int| 0 <= i < j < t.len() implies !bytes_lt(
        vstd::utf8::encode_utf8(#[trigger] t[j]),
        vstd::utf8::encode_utf8(#[trigger] t[i]),
    ) by {
        let ki = vstd::utf8::encode_utf8(t[i]);
        let kj = vstd::utf8::encode_utf8(t[j]);
        if i < p && j == p {
        } else if i == p && j > p {
            // v orders before s[p], and s[p] does not order after s[j - 1].
            let kp = vstd::utf8::encode_utf8(s[p]);
            if bytes_lt(kj, ki) {
                if j - 1 > p {
                    assert(!bytes_lt(kj, kp));
                    crate::bytes::lemma_bytes_lt_transitive(kj, ki, kp);
                } else {
                    crate::bytes::lemma_bytes_lt_asymmetric(ki, kj);
                }
            }
        } else if i < p && j > p {
        } else {
        }
    }
}

} // verus!
