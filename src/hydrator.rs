//! Tree reconciliation: the decisions that turn a workspace matching one
//! directory tree into one matching another, one directory level at a time.
use vstd::prelude::*;

use crate::error::{JogenError, Result};
use crate::object_store::{ObjectStore, ObjectType};
use crate::objects::directory::{entries_from, unique_names, Directory, DirectoryEntry, EntryMode, EntrySpec};

verus! {

/// One filesystem step of reconciling a directory level.
pub enum DiffAction {
    /// Both sides hold a directory of this name with different contents:
    /// reconcile the child from `old_hash` to `new_hash`.
    Descend { name: String, old_hash: String, new_hash: String },
    /// The child changed kind or content: remove `old`, then create `new`.
    Replace { old: DirectoryEntry, new: DirectoryEntry },
    /// The child is new: create it (a whole tree for a directory).
    Create { entry: DirectoryEntry },
    /// The child is gone from the target: remove it (recursively for a
    /// directory).
    Remove { entry: DirectoryEntry },
}

/// What a [`DiffAction`] stands for.
pub enum ActionSpec {
    Descend { name: Seq<char>, old_hash: Seq<char>, new_hash: Seq<char> },
    Replace { old: EntrySpec, new: EntrySpec },
    Create { entry: EntrySpec },
    Remove { entry: EntrySpec },
}

impl View for DiffAction {
    type V = ActionSpec;

    open spec fn view(&self) -> ActionSpec {
        match self {
            DiffAction::Descend { name, old_hash, new_hash } => ActionSpec::Descend {
                name: name@,
                old_hash: old_hash@,
                new_hash: new_hash@,
            },
            DiffAction::Replace { old, new } => ActionSpec::Replace { old: old@, new: new@ },
            DiffAction::Create { entry } => ActionSpec::Create { entry: entry@ },
            DiffAction::Remove { entry } => ActionSpec::Remove { entry: entry@ },
        }
    }
}

/// The last index below `upto` whose entry has name `n`.
pub open spec fn last_named(s: Seq<EntrySpec>, n: Seq<char>, upto: int) -> Option<int>
    decreases upto,
{
    if upto <= 0 {
        None
    } else if s[upto - 1].name == n {
        Some(upto - 1)
    } else {
        last_named(s, n, upto - 1)
    }
}

pub proof fn lemma_last_named(s: Seq<EntrySpec>, n: Seq<char>, upto: int)
    requires
        upto <= s.len(),
    ensures
        last_named(s, n, upto) matches Some(k) ==> 0 <= k < upto && s[k].name == n
            && forall|i: int| k < i < upto ==> #[trigger] s[i].name != n,
        last_named(s, n, upto) is None ==> forall|i: int| 0 <= i < upto ==> #[trigger] s[i].name != n,
    decreases upto,
{
    if upto > 0 {
        lemma_last_named(s, n, upto - 1);
    }
}

/// Whether some entry of `s` below `upto` has name `n`.
pub open spec fn named_below(s: Seq<EntrySpec>, n: Seq<char>, upto: int) -> bool {
    exists|i: int| 0 <= i < upto && #[trigger] s[i].name == n
}

/// The entry that the old side holds for a name: the last one of that name.
pub open spec fn old_for(old: Seq<EntrySpec>, n: Seq<char>) -> Option<int> {
    last_named(old, n, old.len() as int)
}

/// The step for the `j`-th target entry. Only the first target entry of a
/// name meets the old entry of that name; a later one is created afresh.
pub open spec fn action_for(old: Seq<EntrySpec>, new: Seq<EntrySpec>, j: int) -> Option<ActionSpec> {
    let e = new[j];
    match old_for(old, e.name) {
        Some(k) if !named_below(new, e.name, j) => {
            let o = old[k];
            if o.hash == e.hash && o.mode == e.mode {
                None
            } else if o.mode == EntryMode::Directory && e.mode == EntryMode::Directory {
                Some(ActionSpec::Descend { name: e.name, old_hash: o.hash, new_hash: e.hash })
            } else {
                Some(ActionSpec::Replace { old: o, new: e })
            }
        },
        _ => Some(ActionSpec::Create { entry: e }),
    }
}

/// The step for the `k`-th old entry: removal, when it is the entry its
/// name stands for and the target has no entry of that name.
pub open spec fn removal_for(old: Seq<EntrySpec>, new: Seq<EntrySpec>, k: int) -> Option<ActionSpec> {
    if old_for(old, old[k].name) == Some(k) && !named_below(new, old[k].name, new.len() as int) {
        Some(ActionSpec::Remove { entry: old[k] })
    } else {
        None
    }
}

pub open spec fn opt_seq(a: Option<ActionSpec>) -> Seq<ActionSpec> {
    match a {
        Some(x) => seq![x],
        None => seq![],
    }
}

/// The steps for the first `j` target entries, in target order.
pub open spec fn target_steps(old: Seq<EntrySpec>, new: Seq<EntrySpec>, j: int) -> Seq<ActionSpec>
    decreases j,
{
    if j <= 0 {
        seq![]
    } else {
        target_steps(old, new, j - 1) + opt_seq(action_for(old, new, j - 1))
    }
}

/// The removals among the first `k` old entries, in old order.
pub open spec fn removal_steps(old: Seq<EntrySpec>, new: Seq<EntrySpec>, k: int) -> Seq<ActionSpec>
    decreases k,
{
    if k <= 0 {
        seq![]
    } else {
        removal_steps(old, new, k - 1) + opt_seq(removal_for(old, new, k - 1))
    }
}

/// All steps that reconcile a level: creations and updates first, in
/// target order, then removals.
pub open spec fn diff_plan(old: Seq<EntrySpec>, new: Seq<EntrySpec>) -> Seq<ActionSpec> {
    target_steps(old, new, new.len() as int) + removal_steps(old, new, old.len() as int)
}

/// Reconciles a workspace with directory trees read from an object store.
pub struct Hydrator<'a> {
    store: &'a ObjectStore,
}

fn last_named_index(s: &Vec<DirectoryEntry>, name: &String, upto: usize) -> (r: Option<usize>)
    requires
        upto <= s@.len(),
    ensures
        r matches Some(k) ==> k < upto && last_named(s@.map_values(|e: DirectoryEntry| e@), name@, upto as int)
            == Some(k as int),
        r is None ==> last_named(s@.map_values(|e: DirectoryEntry| e@), name@, upto as int) is None,
{
    let ghost v = s@.map_values(|e: DirectoryEntry| e@);
    let mut i: usize = upto;
    while i > 0
        invariant
            i <= upto <= s@.len(),
            v == s@.map_values(|e: DirectoryEntry| e@),
            last_named(v, name@, upto as int) == last_named(v, name@, i as int),
        decreases i,
    {
        if s[i - 1].name == *name {
            proof { lemma_last_named(v, name@, upto as int); }
            return Some(i - 1);
        }
        i = i - 1;
    }
    None
}

fn has_name_below(s: &Vec<DirectoryEntry>, name: &String, upto: usize) -> (r: bool)
    requires
        upto <= s@.len(),
    ensures
        r == named_below(s@.map_values(|e: DirectoryEntry| e@), name@, upto as int),
{
    let ghost v = s@.map_values(|e: DirectoryEntry| e@);
    let mut i: usize = 0;
    while i < upto
        invariant
            i <= upto <= s@.len(),
            v == s@.map_values(|e: DirectoryEntry| e@),
            forall|j: int| 0 <= j < i ==> #[trigger] v[j].name != name@,
        decreases upto - i,
    {
        if s[i].name == *name {
            assert(v[i as int].name == name@);
            return true;
        }
        i = i + 1;
    }
    false
}

impl<'a> Hydrator<'a> {
    pub fn new(store: &'a ObjectStore) -> (r: Self)
        ensures
            r.store() == store,
    {
        Hydrator { store }
    }

    /// The store that directory trees are read from.
    pub closed spec fn store(&self) -> &'a ObjectStore {
        self.store
    }

    pub fn object_store(&self) -> (r: &'a ObjectStore)
        ensures
            r == self.store(),
    {
        self.store
    }

    /// Turns an object read from the store into a directory: it must be of
    /// kind `Directory` and parse.
    pub fn load_directory(&self, kind: ObjectType, content: &[u8]) -> (r: Result<Directory>)
        ensures
            kind != ObjectType::Directory ==> r matches Err(JogenError::ObjectCorrupt(_)),
            kind == ObjectType::Directory ==> {
                &&& r is Ok <==> entries_from(content@, 0) is Some
                &&& r matches Ok(d) ==> d@ == entries_from(content@, 0)->Some_0
                &&& r is Err ==> r matches Err(JogenError::ObjectCorrupt(_))
            },
    {
        if kind != ObjectType::Directory {
            return Err(JogenError::ObjectCorrupt("expected a directory object".to_owned()));
        }
        Directory::parse(content)
    }

    /// The steps that turn a directory level matching `old` into one
    /// matching `new`.
    pub fn plan_diff(&self, old: &Directory, new: &Directory) -> (r: Vec<DiffAction>)
        ensures
            r@.map_values(|a: DiffAction| a@) == diff_plan(old@, new@),
    {
        let olds = old.entries();
        let news = new.entries();
        let ghost ov = old@;
        let ghost nv = new@;
        let mut actions: Vec<DiffAction> = Vec::new();
        let mut j: usize = 0;
        while j < news.len()
            invariant
                j <= news@.len(),
                olds@.map_values(|e: DirectoryEntry| e@) == ov,
                news@.map_values(|e: DirectoryEntry| e@) == nv,
                actions@.map_values(|a: DiffAction| a@) == target_steps(ov, nv, j as int),
            decreases news@.len() - j,
        {
            let e = &news[j];
            assert(e@ == nv[j as int]);
            let seen = has_name_below(news, &e.name, j);
            let found = last_named_index(olds, &e.name, olds.len());
            let ghost before = actions@.map_values(|a: DiffAction| a@);
            match found {
                Some(k) if !seen => {
                    let o = &olds[k];
                    assert(o@ == ov[k as int]);
                    if o.hash == e.hash && o.mode == e.mode {
                    } else if o.mode == EntryMode::Directory && e.mode == EntryMode::Directory {
                        actions.push(
                            DiffAction::Descend {
                                name: e.name.clone(),
                                old_hash: o.hash.clone(),
                                new_hash: e.hash.clone(),
                            },
                        );
                    } else {
                        actions.push(DiffAction::Replace { old: o.duplicate(), new: e.duplicate() });
                    }
                },
                _ => {
                    actions.push(DiffAction::Create { entry: e.duplicate() });
                },
            }
            assert(actions@.map_values(|a: DiffAction| a@) =~= before + opt_seq(action_for(ov, nv, j as int)));
            j = j + 1;
        }
        let mut k: usize = 0;
        while k < olds.len()
            invariant
                k <= olds@.len(),
                olds@.map_values(|e: DirectoryEntry| e@) == ov,
                news@.map_values(|e: DirectoryEntry| e@) == nv,
                actions@.map_values(|a: DiffAction| a@) == target_steps(ov, nv, nv.len() as int)
                    + removal_steps(ov, nv, k as int),
            decreases olds@.len() - k,
        {
            let o = &olds[k];
            assert(o@ == ov[k as int]);
            let rep = last_named_index(olds, &o.name, olds.len());
            let kept = has_name_below(news, &o.name, news.len());
            let ghost before = actions@.map_values(|a: DiffAction| a@);
            if rep == Some(k) && !kept {
                actions.push(DiffAction::Remove { entry: o.duplicate() });
            }
            assert(actions@.map_values(|a: DiffAction| a@) =~= before + opt_seq(removal_for(ov, nv, k as int)));
            assert(target_steps(ov, nv, nv.len() as int) + removal_steps(ov, nv, k + 1) =~= before + opt_seq(removal_for(ov, nv, k as int)));
            k = k + 1;
        }
        actions
    }
}

} // verus!

verus! {

/// What a directory level lists: each name with its entry (a later entry
/// of a name stands for it).
pub open spec fn listing(s: Seq<EntrySpec>) -> Map<Seq<char>, EntrySpec>
    decreases s.len(),
{
    if s.len() == 0 {
        Map::empty()
    } else {
        listing(s.drop_last()).insert(s.last().name, s.last())
    }
}

/// The listing of a level after one step. A descent is taken to leave the
/// child matching its target, as the recursive reconciliation makes it.
pub open spec fn apply_step(ws: Map<Seq<char>, EntrySpec>, a: ActionSpec) -> Map<Seq<char>, EntrySpec> {
    match a {
        ActionSpec::Descend { name, old_hash, new_hash } => ws.insert(
            name,
            EntrySpec { mode: EntryMode::Directory, name, hash: new_hash },
        ),
        ActionSpec::Replace { old, new } => ws.remove(old.name).insert(new.name, new),
        ActionSpec::Create { entry } => ws.insert(entry.name, entry),
        ActionSpec::Remove { entry } => ws.remove(entry.name),
    }
}

/// The listing of a level after the steps, in order.
pub open spec fn apply_steps(ws: Map<Seq<char>, EntrySpec>, s: Seq<ActionSpec>) -> Map<Seq<char>, EntrySpec>
    decreases s.len(),
{
    if s.len() == 0 {
        ws
    } else {
        apply_step(apply_steps(ws, s.drop_last()), s.last())
    }
}

pub proof fn lemma_listing(s: Seq<EntrySpec>)
    requires
        unique_names(s),
    ensures
        forall|n: Seq<char>| #[trigger] listing(s).contains_key(n) <==> named_below(s, n, s.len() as int),
        forall|i: int| 0 <= i < s.len() ==> #[trigger] listing(s)[s[i].name] == s[i],
    decreases s.len(),
{
    if s.len() > 0 {
        let t = s.drop_last();
        assert(unique_names(t)) by {
            assert forall|i: int, j: int| 0 <= i < t.len() && 0 <= j < t.len() && i != j implies #[trigger] t[i].name != #[trigger] t[j].name by {
                assert(t[i] == s[i] && t[j] == s[j]);
            }
        }
        lemma_listing(t);
        assert forall|n: Seq<char>| #[trigger] listing(s).contains_key(n) <==> named_below(s, n, s.len() as int) by {
            if named_below(s, n, s.len() as int) {
                let i = choose|i: int| 0 <= i < s.len() && #[trigger] s[i].name == n;
                if i < t.len() {
                    assert(t[i].name == n);
                    assert(named_below(t, n, t.len() as int));
                }
            }
            if listing(t).contains_key(n) {
                let i = choose|i: int| 0 <= i < t.len() && #[trigger] t[i].name == n;
                assert(s[i].name == n);
            }
        }
        assert forall|i: int| 0 <= i < s.len() implies #[trigger] listing(s)[s[i].name] == s[i] by {
            if i < t.len() {
                assert(t[i] == s[i]);
                assert(s[i].name != s[s.len() - 1].name);
                assert(listing(t)[t[i].name] == t[i]);
            }
        }
    }
}

pub proof fn lemma_apply_steps_concat(ws: Map<Seq<char>, EntrySpec>, a: Seq<ActionSpec>, b: Seq<ActionSpec>)
    ensures
        apply_steps(ws, a + b) == apply_steps(apply_steps(ws, a), b),
    decreases b.len(),
{
    if b.len() == 0 {
        assert(a + b == a);
    } else {
        lemma_apply_steps_concat(ws, a, b.drop_last());
        assert((a + b).drop_last() == a + b.drop_last());
    }
}

proof fn lemma_apply_opt(ws: Map<Seq<char>, EntrySpec>, pre: Seq<ActionSpec>, a: Option<ActionSpec>)
    ensures
        apply_steps(ws, pre + opt_seq(a)) == match a {
            Some(x) => apply_step(apply_steps(ws, pre), x),
            None => apply_steps(ws, pre),
        },
{
    lemma_apply_steps_concat(ws, pre, opt_seq(a));
    match a {
        Some(x) => {
            let w = apply_steps(ws, pre);
            assert(opt_seq(a).drop_last() =~= Seq::<ActionSpec>::empty());
            assert(opt_seq(a).last() == x);
            assert(apply_steps(w, Seq::<ActionSpec>::empty()) == w);
            assert(apply_steps(w, opt_seq(a)) == apply_step(apply_steps(w, opt_seq(a).drop_last()), opt_seq(a).last()));
        },
        None => {
            assert(pre + opt_seq(a) =~= pre);
        },
    }
}

proof fn lemma_target_phase(old: Seq<EntrySpec>, new: Seq<EntrySpec>, j: int)
    requires
        unique_names(old),
        unique_names(new),
        0 <= j <= new.len(),
    ensures
        forall|x: Seq<char>| #[trigger] apply_steps(listing(old), target_steps(old, new, j)).contains_key(x)
            <==> (listing(old).contains_key(x) || named_below(new, x, j)),
        forall|i: int| 0 <= i < j ==> #[trigger] apply_steps(listing(old), target_steps(old, new, j))[new[i].name] == new[i],
        forall|x: Seq<char>| listing(old).contains_key(x) && !named_below(new, x, j)
            ==> #[trigger] apply_steps(listing(old), target_steps(old, new, j))[x] == listing(old)[x],
    decreases j,
{
    lemma_listing(old);
    let lo = listing(old);
    if j > 0 {
        let p = j - 1;
        lemma_target_phase(old, new, p);
        let ws = apply_steps(lo, target_steps(old, new, p));
        let e = new[p];
        lemma_apply_opt(lo, target_steps(old, new, p), action_for(old, new, p));
        assert(!named_below(new, e.name, p));
        let next = apply_steps(lo, target_steps(old, new, j));
        lemma_last_named(old, e.name, old.len() as int);
        assert(next == ws.insert(e.name, e)) by {
            match old_for(old, e.name) {
                Some(k) => {
                    let o = old[k];
                    if o.hash == e.hash && o.mode == e.mode {
                        assert(o == e);
                        assert(named_below(old, e.name, old.len() as int));
                        assert(ws[e.name] == lo[e.name]);
                        assert(lo[old[k].name] == old[k]);
                        assert(ws.insert(e.name, e) =~= ws);
                    } else if o.mode == EntryMode::Directory && e.mode == EntryMode::Directory {
                    } else {
                        assert(ws.remove(o.name).insert(e.name, e) =~= ws.insert(e.name, e));
                    }
                },
                None => {},
            }
        }
        assert forall|x: Seq<char>| #[trigger] next.contains_key(x) <==> (lo.contains_key(x) || named_below(new, x, j)) by {
            if named_below(new, x, j) && !named_below(new, x, p) {
                let i = choose|i: int| 0 <= i < j && #[trigger] new[i].name == x;
                assert(i == p);
            }
            if named_below(new, x, p) {
                let i = choose|i: int| 0 <= i < p && #[trigger] new[i].name == x;
                assert(named_below(new, x, j));
            }
        }
        assert forall|i: int| 0 <= i < j implies #[trigger] next[new[i].name] == new[i] by {
            if i < p {
                assert(new[i].name != e.name);
            }
        }
        assert forall|x: Seq<char>| lo.contains_key(x) && !named_below(new, x, j) implies #[trigger] next[x] == lo[x] by {
            assert(x != e.name);
            if named_below(new, x, p) {
                let i = choose|i: int| 0 <= i < p && #[trigger] new[i].name == x;
                assert(named_below(new, x, j));
            }
        }
    }
}

proof fn lemma_removal_phase(old: Seq<EntrySpec>, new: Seq<EntrySpec>, t: Map<Seq<char>, EntrySpec>, k: int)
    requires
        unique_names(old),
        0 <= k <= old.len(),
    ensures
        forall|x: Seq<char>| #[trigger] apply_steps(t, removal_steps(old, new, k)).contains_key(x)
            <==> (t.contains_key(x) && !(named_below(old, x, k) && !named_below(new, x, new.len() as int))),
        forall|x: Seq<char>| #[trigger] apply_steps(t, removal_steps(old, new, k)).contains_key(x)
            ==> apply_steps(t, removal_steps(old, new, k))[x] == t[x],
    decreases k,
{
    if k > 0 {
        let p = k - 1;
        let n = new.len() as int;
        lemma_removal_phase(old, new, t, p);
        let ws = apply_steps(t, removal_steps(old, new, p));
        lemma_apply_opt(t, removal_steps(old, new, p), removal_for(old, new, p));
        let o = old[p];
        lemma_last_named(old, o.name, old.len() as int);
        let next = apply_steps(t, removal_steps(old, new, k));
        if !named_below(new, o.name, n) {
            assert(old_for(old, o.name) == Some(p));
            assert(next == ws.remove(o.name));
        } else {
            assert(next == ws);
        }
        assert forall|x: Seq<char>| #[trigger] next.contains_key(x)
            <==> (t.contains_key(x) && !(named_below(old, x, k) && !named_below(new, x, n))) by {
            if named_below(old, x, k) && !named_below(old, x, p) {
                let i = choose|i: int| 0 <= i < k && #[trigger] old[i].name == x;
                assert(i == p);
            }
            if named_below(old, x, p) {
                let i = choose|i: int| 0 <= i < p && #[trigger] old[i].name == x;
                assert(named_below(old, x, k));
            }
        }
    }
}

/// Reconciling a level: when neither side repeats a name, applying the
/// planned steps to the old listing gives exactly the target listing.
pub proof fn lemma_diff_plan_reaches_target(old: Seq<EntrySpec>, new: Seq<EntrySpec>)
    requires
        unique_names(old),
        unique_names(new),
    ensures
        apply_steps(listing(old), diff_plan(old, new)) == listing(new),
{
    lemma_listing(old);
    lemma_listing(new);
    let lo = listing(old);
    let ln = listing(new);
    let n = new.len() as int;
    let m = old.len() as int;
    lemma_target_phase(old, new, n);
    let t = apply_steps(lo, target_steps(old, new, n));
    lemma_removal_phase(old, new, t, m);
    let f = apply_steps(t, removal_steps(old, new, m));
    lemma_apply_steps_concat(lo, target_steps(old, new, n), removal_steps(old, new, m));
    assert forall|x: Seq<char>| #[trigger] f.contains_key(x) <==> ln.contains_key(x) by {
        if lo.contains_key(x) {
            assert(named_below(old, x, m));
        }
    }
    assert forall|x: Seq<char>| f.contains_key(x) implies #[trigger] f[x] == ln[x] by {
        let i = choose|i: int| 0 <= i < n && #[trigger] new[i].name == x;
    }
    assert(f =~= ln);
}

} // verus!
