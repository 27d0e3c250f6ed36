//! The directories that one decoding run has already created.
use vstd::prelude::*;
use crate::bytes::{eq_bytes, find_last, last_index, lemma_last_index, push_range};
use crate::path::{DOT, SLASH};

verus! {

/// The directory part of a `/`-separated path: all before its last slash,
/// empty where there is none.
pub open spec fn parent_of(p: Seq<u8>) -> Seq<u8> {
    let k = last_index(p, SLASH);
    if k < 0 {
        Seq::empty()
    } else {
        p.take(k)
    }
}

/// Exec form of `parent_of`.
pub fn parent_dir(path: &[u8]) -> (r: Vec<u8>)
    ensures
        r@ == parent_of(path@),
{
    proof {
        lemma_last_index(path@, SLASH);
        assert(path@.take(path@.len() as int) =~= path@);
    }
    let mut out: Vec<u8> = Vec::new();
    match find_last(path, path.len(), SLASH) {
        Some(k) => {
            push_range(&mut out, path, 0, k);
            assert(path@.subrange(0, k as int) =~= path@.take(k as int));
        },
        None => {},
    }
    out
}

/// A set of directories, each created once per run.
///
/// Held as a `Vec` of byte strings searched in order rather than a
/// `HashSet`: vstd specifies `HashSet` only for keys whose hashing it knows,
/// not for byte-string keys, and the sets of one run are small. Its view is
/// the set of the entries.
pub struct DirCache {
    created: Vec<Vec<u8>>,
}

impl View for DirCache {
    type V = Set<Seq<u8>>;

    closed spec fn view(&self) -> Set<Seq<u8>> {
        self.created@.map_values(|d: Vec<u8>| d@).to_set()
    }
}

impl DirCache {
    pub fn new() -> (r: DirCache)
        ensures
            r@ == Set::<Seq<u8>>::empty(),
    {
        let r = DirCache { created: Vec::new() };
        assert(r@ =~= Set::<Seq<u8>>::empty());
        r
    }

    /// Whether `dir` has to be created now: true the first time it is asked
    /// for, after which it counts as created.
    pub fn should_create(&mut self, dir: &[u8]) -> (r: bool)
        ensures
            r == !old(self)@.contains(dir@),
            final(self)@ == old(self)@.insert(dir@),
    {
        let ghost seen = self.created@.map_values(|d: Vec<u8>| d@);
        let mut i: usize = 0;
        while i < self.created.len()
            invariant
                i <= self.created@.len(),
                seen == self.created@.map_values(|d: Vec<u8>| d@),
                forall|k: int| 0 <= k < i ==> seen[k] != dir@,
            decreases self.created@.len() - i,
        {
            if eq_bytes(&self.created[i], dir) {
                assert(seen[i as int] == dir@);
                assert(self@.insert(dir@) =~= self@);
                return false;
            }
            i = i + 1;
        }
        assert(!seen.contains(dir@));
        let mut d: Vec<u8> = Vec::new();
        push_range(&mut d, dir, 0, dir.len());
        assert(dir@.subrange(0, dir@.len() as int) =~= dir@);
        self.created.push(d);
        assert(self.created@.map_values(|d: Vec<u8>| d@) =~= seen.push(dir@));
        assert(seen.push(dir@).to_set() =~= seen.to_set().insert(dir@)) by {
            seen.lemma_push_to_set_commute(dir@);
        }
        true
    }
}

/// A `..` component starts at `i`.
pub open spec fn dotdot_at(p: Seq<u8>, i: int) -> bool {
    &&& 0 <= i
    &&& i + 2 <= p.len()
    &&& p[i] == DOT
    &&& p[i + 1] == DOT
    &&& (i == 0 || p[i - 1] == SLASH)
    &&& (i + 2 == p.len() || p[i + 2] == SLASH)
}

/// A path that stays below the directory it is written into: not empty,
/// not absolute, and with no `..` component.
pub open spec fn safe_path(p: Seq<u8>) -> bool {
    p.len() > 0 && p[0] != SLASH && !exists|i: int| #[trigger] dotdot_at(p, i)
}

/// Whether a path read from a bundle may be written.
pub fn is_safe_path(path: &[u8]) -> (r: bool)
    ensures
        r == safe_path(path@),
{
    if path.len() == 0 || path[0] == SLASH {
        return false;
    }
    let mut i: usize = 0;
    while i < path.len()
        invariant
            i <= path@.len(),
            forall|k: int| 0 <= k < i ==> !#[trigger] dotdot_at(path@, k),
        decreases path@.len() - i,
    {
        if path.len() - i >= 2 && path[i] == DOT && path[i + 1] == DOT && (i == 0 || path[i - 1]
            == SLASH) && (path.len() - i == 2 || path[i + 2] == SLASH) {
            assert(dotdot_at(path@, i as int));
            return false;
        }
        i = i + 1;
    }
    assert forall|k: int| !#[trigger] dotdot_at(path@, k) by {
        if 0 <= k < path@.len() {
        }
    }
    true
}

} // verus!
