//! Detecting and cutting off cyclic or combinatorially explosive paths
//! during path-finding.
//!
//! Cycles in a stack graph can indicate mutually recursive imports or
//! recursion in what the graph models; complete cycle detection would be the
//! Halting Problem, so this module implements a heuristic: per endpoint
//! signature (a [`PathKey`]), only a bounded number of strictly shorter
//! similar paths may already have been admitted before further candidates
//! are pruned, and an exact duplicate is never admitted twice.

use vstd::prelude::*;

verus! {

/// The endpoint signature of a path or partial path: its start and end
/// nodes together with the heads of the stacks at each side (for complete
/// paths the start heads are absent).
#[derive(Clone, Copy, PartialEq, Eq, Debug)]
pub struct PathKey {
    pub start_node: usize,
    pub start_symbol_stack_head: Option<usize>,
    pub start_scope_stack_head: Option<usize>,
    pub end_node: usize,
    pub end_symbol_stack_head: Option<usize>,
    pub end_scope_stack_head: Option<usize>,
}

impl PathKey {
    /// Field-by-field equality of two keys.
    pub fn key_eq(&self, other: &PathKey) -> (r: bool)
        ensures
            r == (*self == *other),
    {
        self.start_node == other.start_node && self.start_symbol_stack_head
            == other.start_symbol_stack_head && self.start_scope_stack_head
            == other.start_scope_stack_head && self.end_node == other.end_node
            && self.end_symbol_stack_head == other.end_symbol_stack_head
            && self.end_scope_stack_head == other.end_scope_stack_head
    }
}

/// What the cycle detector needs of the paths it stores: a mathematical
/// view, an equality and a "strictly shorter" comparison that agree with
/// that view, and a way to copy a path into the detector's storage.
pub trait HasPathKey: Sized {
    /// The mathematical value of this path.
    type V;

    /// The view of this path; two paths with equal views are the same path.
    spec fn v(&self) -> Self::V;

    /// The "strictly shorter than" relation of this variant: fewer edges,
    /// and a symbol-stack size that is no greater.
    spec fn shorter_spec(&self, other: &Self) -> bool;

    /// Decides `shorter_spec`.
    fn is_shorter_than(&self, other: &Self) -> (r: bool)
        ensures
            r == self.shorter_spec(other),
    ;

    /// Decides equality of views.
    fn same_path(&self, other: &Self) -> (r: bool)
        ensures
            r == (self.v() == other.v()),
    ;

    /// An owned copy with the same view.
    fn duplicate(&self) -> (r: Self)
        ensures
            r.v() == self.v(),
    ;
}

/// The most paths strictly shorter than a candidate that may already have
/// been admitted under the candidate's key before the candidate is pruned.
pub const MAX_SIMILAR_PATH_COUNT: usize = 4;

/// Helps detect cycles in the path-finding algorithm: remembers, per path
/// key, every path admitted so far.
pub struct CycleDetector<P> {
    paths: Vec<(PathKey, Vec<P>)>,
}

/// The paths stored under `key`: the bucket of the first entry carrying
/// `key`, or empty when there is none.
pub open spec fn stored_in<P>(s: Seq<(PathKey, Vec<P>)>, key: PathKey) -> Seq<P>
    decreases s.len(),
{
    if s.len() == 0 {
        Seq::empty()
    } else if s[0].0 == key {
        s[0].1@
    } else {
        stored_in(s.drop_first(), key)
    }
}

/// How many of the paths in `s` are strictly shorter than `p`.
pub open spec fn count_shorter<P: HasPathKey>(s: Seq<P>, p: P) -> int
    decreases s.len(),
{
    if s.len() == 0 {
        0int
    } else {
        (if s[0].shorter_spec(&p) {
            1int
        } else {
            0int
        }) + count_shorter(s.drop_first(), p)
    }
}

/// Whether some path in `s` has the same view as `p`.
pub open spec fn has_same<P: HasPathKey>(s: Seq<P>, p: P) -> bool {
    exists|i: int| 0 <= i < s.len() && (#[trigger] s[i]).v() == p.v()
}

impl<P: HasPathKey> CycleDetector<P> {
    /// The paths admitted so far under `key`.
    pub closed spec fn stored(self, key: PathKey) -> Seq<P> {
        stored_in(self.paths@, key)
    }

    /// Creates a new, empty cycle detector.
    pub fn new() -> (r: CycleDetector<P>)
        ensures
            forall|key: PathKey| r.stored(key).len() == 0,
    {
        CycleDetector { paths: Vec::new() }
    }

    /// Determines whether the path-finding algorithm should process this
    /// path. Returns `false`, and leaves the detector unchanged, when the
    /// path is an exact duplicate of one admitted before under the same
    /// key, or when more than [`MAX_SIMILAR_PATH_COUNT`] strictly shorter
    /// paths were already admitted under its key; otherwise admits the path
    /// and returns `true`.
    #[verifier::loop_isolation(false)]
    pub fn should_process_path(&mut self, key: PathKey, path: &P) -> (r: bool)
        ensures
            r == (!has_same(old(self).stored(key), *path) && count_shorter(
                old(self).stored(key),
                *path,
            ) <= MAX_SIMILAR_PATH_COUNT),
            forall|k2: PathKey| k2 != key ==> final(self).stored(k2) == old(self).stored(k2),
            !r ==> final(self).stored(key) == old(self).stored(key),
            r ==> {
                &&& final(self).stored(key).len() == old(self).stored(key).len() + 1
                &&& final(self).stored(key) =~= old(self).stored(key).push(
                    final(self).stored(key).last(),
                )
                &&& final(self).stored(key).last().v() == path.v()
            },
    {
        let n = self.paths.len();
        let mut i: usize = 0;
        while i < n && !key_matches(&self.paths, i, &key)
            invariant
                *self == *old(self),
                n == self.paths@.len(),
                0 <= i <= n,
                forall|j: int| 0 <= j < i ==> (#[trigger] self.paths@[j]).0 != key,
            decreases n - i,
        {
            i = i + 1;
        }
        if i == n {
            // no bucket yet: nothing stored under this key
            proof {
                lemma_stored_absent(self.paths@, key);
            }
            let mut fresh: Vec<P> = Vec::new();
            fresh.push(path.duplicate());
            proof {
                lemma_stored_push_new(self.paths@, key, fresh);
            }
            self.paths.push((key, fresh));
            proof {
                assert(self.stored(key) =~= old(self).stored(key).push(
                    self.stored(key).last(),
                ));
            }
            return true;
        }
        let bucket = i;
        proof {
            lemma_stored_at(self.paths@, key, bucket as int);
        }
        let ghost prev = self.stored(key);
        let m = self.paths[bucket].1.len();
        let mut j: usize = 0;
        let mut shorter: usize = 0;
        while j < m
            invariant
                *self == *old(self),
                bucket < self.paths@.len(),
                self.paths@[bucket as int].0 == key,
                forall|jj: int| 0 <= jj < bucket ==> (#[trigger] self.paths@[jj]).0 != key,
                prev == self.stored(key),
                prev == self.paths@[bucket as int].1@,
                m == prev.len(),
                0 <= j <= m,
                shorter == count_shorter(prev.take(j as int), *path),
                shorter <= j,
                forall|jj: int| 0 <= jj < j ==> (#[trigger] prev[jj]).v() != path.v(),
            decreases m - j,
        {
            let entry = &self.paths[bucket].1[j];
            if entry.same_path(path) {
                proof {
                    assert(has_same(prev, *path));
                }
                return false;
            }
            if entry.is_shorter_than(path) {
                shorter = shorter + 1;
            }
            proof {
                assert(prev.take(j + 1).drop_last() =~= prev.take(j as int));
                lemma_count_shorter_take(prev, *path, j as int);
            }
            j = j + 1;
        }
        proof {
            assert(prev.take(m as int) =~= prev);
        }
        if shorter > MAX_SIMILAR_PATH_COUNT {
            return false;
        }
        proof {
            assert(!has_same(prev, *path));
        }
        let d = path.duplicate();
        let entry = &mut self.paths[bucket];
        entry.1.push(d);
        proof {
            assert(self.paths@ =~= old(self).paths@.update(
                bucket as int,
                (key, self.paths@[bucket as int].1),
            ));
            lemma_stored_update(
                old(self).paths@,
                key,
                bucket as int,
                self.paths@[bucket as int].1,
            );
            assert(self.stored(key) =~= old(self).stored(key).push(self.stored(key).last()));
        }
        true
    }
}

/// Whether entry `i` carries `key`.
fn key_matches<P>(list: &Vec<(PathKey, Vec<P>)>, i: usize, key: &PathKey) -> (r: bool)
    requires
        i < list@.len(),
    ensures
        r == (list@[i as int].0 == *key),
{
    list[i].0.key_eq(key)
}

/// Counting over a take of one more element adds the indicator of that
/// element.
proof fn lemma_count_shorter_take<P: HasPathKey>(s: Seq<P>, p: P, j: int)
    requires
        0 <= j < s.len(),
    ensures
        count_shorter(s.take(j + 1), p) == count_shorter(s.take(j), p) + if s[j].shorter_spec(&p) {
            1int
        } else {
            0int
        },
    decreases j,
{
    if j == 0 {
        assert(s.take(1).drop_first() =~= s.take(0));
        assert(count_shorter(s.take(0), p) == 0);
    } else {
        lemma_count_shorter_take(s.drop_first(), p, j - 1);
        assert(s.take(j + 1).drop_first() =~= s.drop_first().take(j));
        assert(s.take(j).drop_first() =~= s.drop_first().take(j - 1));
    }
}

/// With no entry carrying `key`, nothing is stored under it.
proof fn lemma_stored_absent<P>(s: Seq<(PathKey, Vec<P>)>, key: PathKey)
    requires
        forall|j: int| 0 <= j < s.len() ==> (#[trigger] s[j]).0 != key,
    ensures
        stored_in(s, key).len() == 0,
    decreases s.len(),
{
    if s.len() > 0 {
        lemma_stored_absent(s.drop_first(), key);
    }
}

/// Appending a fresh bucket for `key` stores its contents under `key` and
/// changes no other key.
proof fn lemma_stored_push_new<P>(s: Seq<(PathKey, Vec<P>)>, key: PathKey, b: Vec<P>)
    requires
        forall|j: int| 0 <= j < s.len() ==> (#[trigger] s[j]).0 != key,
    ensures
        stored_in(s.push((key, b)), key) == b@,
        forall|k2: PathKey|
            k2 != key ==> #[trigger] stored_in(s.push((key, b)), k2) == stored_in(s, k2),
    decreases s.len(),
{
    if s.len() == 0 {
        assert(s.push((key, b))[0] == (key, b));
        assert forall|k2: PathKey|
            k2 != key implies #[trigger] stored_in(s.push((key, b)), k2) == stored_in(s, k2) by {
            assert(s.push((key, b)).drop_first() =~= s);
        }
    } else {
        lemma_stored_push_new(s.drop_first(), key, b);
        assert(s.push((key, b)).drop_first() =~= s.drop_first().push((key, b)));
        assert(s.push((key, b))[0] == s[0]);
        assert forall|k2: PathKey|
            k2 != key implies #[trigger] stored_in(s.push((key, b)), k2) == stored_in(s, k2) by {
            assert(stored_in(s.push((key, b)).drop_first(), k2) == stored_in(
                s.drop_first(),
                k2,
            ));
        }
    }
}

/// The bucket of the first entry carrying `key` is what `stored_in` yields.
proof fn lemma_stored_at<P>(s: Seq<(PathKey, Vec<P>)>, key: PathKey, i: int)
    requires
        0 <= i < s.len(),
        s[i].0 == key,
        forall|j: int| 0 <= j < i ==> (#[trigger] s[j]).0 != key,
    ensures
        stored_in(s, key) == s[i].1@,
    decreases i,
{
    if i > 0 {
        lemma_stored_at(s.drop_first(), key, i - 1);
    }
}

/// Replacing the bucket of the first entry carrying `key` replaces what is
/// stored under `key` and changes no other key.
proof fn lemma_stored_update<P>(s: Seq<(PathKey, Vec<P>)>, key: PathKey, i: int, b: Vec<P>)
    requires
        0 <= i < s.len(),
        s[i].0 == key,
        forall|j: int| 0 <= j < i ==> (#[trigger] s[j]).0 != key,
    ensures
        stored_in(s.update(i, (key, b)), key) == b@,
        forall|k2: PathKey|
            k2 != key ==> stored_in(s.update(i, (key, b)), k2) == stored_in(s, k2),
    decreases i,
{
    if i == 0 {
        assert(s.update(0, (key, b))[0] == (key, b));
        assert forall|k2: PathKey|
            k2 != key implies stored_in(s.update(0, (key, b)), k2) == stored_in(s, k2) by {
            assert(s.update(0, (key, b)).drop_first() =~= s.drop_first());
        }
    } else {
        lemma_stored_update(s.drop_first(), key, i - 1, b);
        assert(s.update(i, (key, b)).drop_first() =~= s.drop_first().update(i - 1, (key, b)));
        assert(s.update(i, (key, b))[0] == s[0]);
        assert forall|k2: PathKey|
            k2 != key implies stored_in(s.update(i, (key, b)), k2) == stored_in(s, k2) by {
            assert(stored_in(s.drop_first().update(i - 1, (key, b)), k2) == stored_in(
                s.drop_first(),
                k2,
            ));
        }
    }
}


/// The admission bound of the heuristic: a candidate is admitted only when
/// it duplicates no stored path of its key and at most
/// [`MAX_SIMILAR_PATH_COUNT`] stored paths of its key are strictly shorter
/// than it; so at most `1 + MAX_SIMILAR_PATH_COUNT` distinct paths sharing
/// a key and strictly shorter than any later candidate are ever admitted
/// before that candidate is refused.
pub proof fn lemma_admission_bound<P: HasPathKey>(prev: Seq<P>, candidate: P, admitted: bool)
    requires
        admitted == (!has_same(prev, candidate) && count_shorter(prev, candidate)
            <= MAX_SIMILAR_PATH_COUNT),
    ensures
        admitted ==> !has_same(prev, candidate),
        admitted ==> count_shorter(prev, candidate) <= MAX_SIMILAR_PATH_COUNT,
        count_shorter(prev, candidate) > MAX_SIMILAR_PATH_COUNT ==> !admitted,
{
}

} // verus!
