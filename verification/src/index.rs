//! The duplicate index: size buckets, partial-digest groups, the full-digest
//! cache, and the registration exchange through which a driver feeds in the
//! digests the index asks for.

use vstd::prelude::*;

verus! {

// ------------------------------------------------------------------
// Trusted view of the outside multimap used for partial-digest groups
// ------------------------------------------------------------------

#[verifier::external_type_specification]
#[verifier::external_body]
#[verifier::reject_recursive_types(K)]
#[verifier::reject_recursive_types(V)]
#[verifier::reject_recursive_types(S)]
pub struct ExMultiMap<K, V, S>(multimap::MultiMap<K, V, S>);

/// What a partial-digest group holds: for each partial digest registered at
/// one file size, the paths registered under it, in registration order.
pub uninterp spec fn mm_groups(m: multimap::MultiMap<Vec<u8>, String>) -> Map<
    Seq<u8>,
    Seq<Seq<char>>,
>;

/// The empty group map.
pub open spec fn empty_groups() -> Map<Seq<u8>, Seq<Seq<char>>> {
    Map::empty()
}

/// Relies on multimap::MultiMap::new: creates an empty multimap.
#[verifier::external_body]
fn mm_new() -> (m: multimap::MultiMap<Vec<u8>, String>)
    ensures
        mm_groups(m) == empty_groups(),
{
    multimap::MultiMap::new()
}

/// Relies on multimap::MultiMap::insert: pushes `v` onto the vector stored at
/// key `k`, creating a one-element vector when the key is absent.
#[verifier::external_body]
fn mm_insert(m: &mut multimap::MultiMap<Vec<u8>, String>, k: Vec<u8>, v: String)
    ensures
        mm_groups(*final(m)) == (if mm_groups(*old(m)).dom().contains(k@) {
            mm_groups(*old(m)).insert(k@, mm_groups(*old(m))[k@].push(v@))
        } else {
            mm_groups(*old(m)).insert(k@, seq![v@])
        }),
{
    m.insert(k, v)
}

/// Relies on multimap::MultiMap::get_vec: returns the vector stored at key
/// `k`, or None when the key is absent.
#[verifier::external_body]
fn mm_get<'a>(m: &'a multimap::MultiMap<Vec<u8>, String>, k: &Vec<u8>) -> (r: Option<
    &'a Vec<String>,
>)
    ensures
        match r {
            Some(vs) => mm_groups(*m).dom().contains(k@) && vs.deep_view() == mm_groups(*m)[k@],
            None => !mm_groups(*m).dom().contains(k@),
        },
{
    m.get_vec(k)
}

// ------------------------------------------------------------------
// Size buckets
// ------------------------------------------------------------------

/// The registered state of one exact file size: either a single path whose
/// digests were never needed, or groups of paths keyed by partial digest.
pub enum Bucket {
    One(String),
    Multiple(multimap::MultiMap<Vec<u8>, String>),
}

/// Mathematical shape of a bucket.
pub enum BucketView {
    One(Seq<char>),
    Multiple(Map<Seq<u8>, Seq<Seq<char>>>),
}

impl View for Bucket {
    type V = BucketView;

    open spec fn view(&self) -> BucketView {
        match self {
            Bucket::One(p) => BucketView::One(p@),
            Bucket::Multiple(m) => BucketView::Multiple(mm_groups(*m)),
        }
    }
}

// ------------------------------------------------------------------
// Association lists seen as maps
// ------------------------------------------------------------------

/// No two entries share a key (keys compared by their views).
pub open spec fn keys_unique<K: View, V>(s: Seq<(K, V)>) -> bool {
    forall|i: int, j: int| 0 <= i < j < s.len() ==> s[i].0@ != s[j].0@
}

/// The map an association list stands for.
pub open spec fn assoc_map<K: View, V: View>(s: Seq<(K, V)>) -> Map<K::V, V::V>
    decreases s.len(),
{
    if s.len() == 0 {
        Map::empty()
    } else {
        assoc_map(s.drop_last()).insert(s.last().0@, s.last().1@)
    }
}

proof fn lemma_assoc_dom<K: View, V: View>(s: Seq<(K, V)>)
    ensures
        forall|k: K::V|
            assoc_map(s).dom().contains(k) <==> exists|i: int|
                0 <= i < s.len() && #[trigger] s[i].0@ == k,
    decreases s.len(),
{
    if s.len() > 0 {
        lemma_assoc_dom(s.drop_last());
        assert forall|k: K::V| assoc_map(s).dom().contains(k) implies exists|i: int|
            0 <= i < s.len() && #[trigger] s[i].0@ == k by {
            if k == s.last().0@ {
                assert(s[s.len() - 1].0@ == k);
            } else {
                assert(assoc_map(s.drop_last()).dom().contains(k));
                let i = choose|i: int|
                    0 <= i < s.drop_last().len() && #[trigger] s.drop_last()[i].0@ == k;
                assert(s.drop_last()[i] == s[i]);
                assert(s[i].0@ == k);
            }
        }
        assert forall|k: K::V|
            exists|i: int| 0 <= i < s.len() && #[trigger] s[i].0@ == k implies assoc_map(
            s,
        ).dom().contains(k) by {
            let i = choose|i: int| 0 <= i < s.len() && #[trigger] s[i].0@ == k;
            if i < s.len() - 1 {
                assert(s.drop_last()[i] == s[i]);
                assert(s.drop_last()[i].0@ == k);
                assert(assoc_map(s.drop_last()).dom().contains(k));
            } else {
                assert(k == s.last().0@);
            }
        }
    }
}

proof fn lemma_assoc_at<K: View, V: View>(s: Seq<(K, V)>, i: int)
    requires
        keys_unique(s),
        0 <= i < s.len(),
    ensures
        assoc_map(s).dom().contains(s[i].0@),
        assoc_map(s)[s[i].0@] == s[i].1@,
    decreases s.len(),
{
    if i == s.len() - 1 {
    } else {
        assert(keys_unique(s.drop_last()));
        lemma_assoc_at(s.drop_last(), i);
        assert(s[i].0@ != s.last().0@);
    }
}

proof fn lemma_assoc_push<K: View, V: View>(s: Seq<(K, V)>, k: K, v: V)
    ensures
        assoc_map(s.push((k, v))) == assoc_map(s).insert(k@, v@),
{
    assert(s.push((k, v)).drop_last() =~= s);
}

proof fn lemma_assoc_remove<K: View, V: View>(s: Seq<(K, V)>, i: int)
    requires
        keys_unique(s),
        0 <= i < s.len(),
    ensures
        keys_unique(s.remove(i)),
        assoc_map(s.remove(i)) == assoc_map(s).remove(s[i].0@),
    decreases s.len(),
{
    lemma_assoc_dom::<K, V>(s.drop_last());
    if i == s.len() - 1 {
        assert(s.remove(i) =~= s.drop_last());
        assert(!assoc_map(s.drop_last()).dom().contains(s.last().0@));
        assert(assoc_map(s.drop_last()).insert(s.last().0@, s.last().1@).remove(s.last().0@)
            =~= assoc_map(s.drop_last()));
    } else {
        assert(keys_unique(s.drop_last()));
        lemma_assoc_remove(s.drop_last(), i);
        assert(s.remove(i).drop_last() =~= s.drop_last().remove(i));
        assert(s.remove(i).last() == s.last());
        assert(s[i].0@ != s.last().0@);
        assert(assoc_map(s.drop_last()).remove(s[i].0@).insert(s.last().0@, s.last().1@)
            =~= assoc_map(s.drop_last()).insert(s.last().0@, s.last().1@).remove(s[i].0@));
    }
}

// ------------------------------------------------------------------
// Registration protocol
// ------------------------------------------------------------------

/// The result of registering one file.
#[derive(Debug, PartialEq)]
pub enum Outcome {
    /// The file's size is at or below the minimum and was not indexed.
    TooSmall,
    /// The file introduced content not seen before and is now registered.
    New,
    /// The file's content equals that of the named, earlier-registered path.
    Duplicate(String),
}

/// What the index asks of its driver next. Registration is a short exchange:
/// the index never touches the filesystem itself, so whenever a digest is
/// needed it names the path to hash and waits for the digest to be fed back.
pub enum Step {
    /// Registration finished with the given outcome.
    Done(Outcome),
    /// Feed the partial digests of `rep` (registered) and `fresh` (incoming).
    NeedPartials { rep: String, fresh: String },
    /// Feed the partial digest of the incoming path `fresh`.
    NeedPartial { fresh: String },
    /// Feed the full digest of `of`, a path not yet in the digest cache.
    NeedFull { of: String },
}

enum Pending {
    Idle,
    SinglePartials { size: u64, path: String, prev: String },
    SingleFullPrev { size: u64, path: String, prev: String, partial: Vec<u8> },
    SingleFullPath { size: u64, path: String, prev: String, partial: Vec<u8>, full_prev: Vec<u8> },
    GroupPartial { size: u64, path: String },
    GroupFullPath { size: u64, path: String, partial: Vec<u8>, cands: Vec<String> },
    GroupFullCand {
        size: u64,
        path: String,
        partial: Vec<u8>,
        cands: Vec<String>,
        at: usize,
        full_path: Vec<u8>,
    },
}

/// Mathematical shape of the registration in progress.
pub enum PendingView {
    Idle,
    SinglePartials { size: u64, path: Seq<char>, prev: Seq<char> },
    SingleFullPrev { size: u64, path: Seq<char>, prev: Seq<char>, partial: Seq<u8> },
    SingleFullPath {
        size: u64,
        path: Seq<char>,
        prev: Seq<char>,
        partial: Seq<u8>,
        full_prev: Seq<u8>,
    },
    GroupPartial { size: u64, path: Seq<char> },
    GroupFullPath { size: u64, path: Seq<char>, partial: Seq<u8>, cands: Seq<Seq<char>> },
    GroupFullCand {
        size: u64,
        path: Seq<char>,
        partial: Seq<u8>,
        cands: Seq<Seq<char>>,
        at: int,
        full_path: Seq<u8>,
    },
}

/// Which call the index expects next.
pub enum Expects {
    Idle,
    Partials,
    Partial,
    Full,
}

impl View for Pending {
    type V = PendingView;

    closed spec fn view(&self) -> PendingView {
        match self {
            Pending::Idle => PendingView::Idle,
            Pending::SinglePartials { size, path, prev } => (PendingView::SinglePartials {
                size: *size,
                path: path@,
                prev: prev@,
            }),
            Pending::SingleFullPrev { size, path, prev, partial } => (PendingView::SingleFullPrev {
                size: *size,
                path: path@,
                prev: prev@,
                partial: partial@,
            }),
            Pending::SingleFullPath { size, path, prev, partial, full_prev } => (
            PendingView::SingleFullPath {
                size: *size,
                path: path@,
                prev: prev@,
                partial: partial@,
                full_prev: full_prev@,
            }),
            Pending::GroupPartial { size, path } => (PendingView::GroupPartial {
                size: *size,
                path: path@,
            }),
            Pending::GroupFullPath { size, path, partial, cands } => (PendingView::GroupFullPath {
                size: *size,
                path: path@,
                partial: partial@,
                cands: cands.deep_view(),
            }),
            Pending::GroupFullCand { size, path, partial, cands, at, full_path } => (
            PendingView::GroupFullCand {
                size: *size,
                path: path@,
                partial: partial@,
                cands: cands.deep_view(),
                at: *at as int,
                full_path: full_path@,
            }),
        }
    }
}

/// The group map holding exactly the two seed paths of an upgraded bucket,
/// each under its own partial digest (one shared entry if the digests agree).
pub open spec fn two_group(
    pa: Seq<u8>,
    prev: Seq<char>,
    pb: Seq<u8>,
    path: Seq<char>,
) -> Map<Seq<u8>, Seq<Seq<char>>> {
    if pa == pb {
        empty_groups().insert(pa, seq![prev, path])
    } else {
        empty_groups().insert(pa, seq![prev]).insert(pb, seq![path])
    }
}

/// Walking the candidate paths that share the incoming file's partial digest,
/// from position `from`: the first candidate whose cached full digest equals
/// `fb` is the duplicate's representative; a candidate with no cached digest
/// suspends the walk until its digest is fed; with no match the walk ends.
pub enum ScanRes {
    Found(int),
    Ask(int),
    Exhausted,
}

pub open spec fn scan_spec(
    cands: Seq<Seq<char>>,
    from: int,
    cache: Map<Seq<char>, Seq<u8>>,
    fb: Seq<u8>,
) -> ScanRes
    decreases cands.len() - from,
{
    if from < 0 || from >= cands.len() {
        ScanRes::Exhausted
    } else if !cache.dom().contains(cands[from]) {
        ScanRes::Ask(from)
    } else if cache[cands[from]] == fb {
        ScanRes::Found(from)
    } else {
        scan_spec(cands, from + 1, cache, fb)
    }
}

/// The duplicate index: per-size buckets, the full-digest cache, and the
/// registration exchange in progress, if any.
pub struct Index {
    min_size: u64,
    buckets: Vec<(u64, Bucket)>,
    cache: Vec<(String, Vec<u8>)>,
    pending: Pending,
}

/// The empty bucket map.
pub open spec fn empty_buckets() -> Map<u64, BucketView> {
    Map::empty()
}

/// The empty digest cache.
pub open spec fn empty_cache() -> Map<Seq<char>, Seq<u8>> {
    Map::empty()
}

impl Index {
    /// Sizes at or below this are never indexed.
    pub closed spec fn spec_min_size(self) -> u64 {
        self.min_size
    }

    /// The size buckets: every size seen so far, above the minimum, with what
    /// is registered at that size.
    pub closed spec fn buckets_view(self) -> Map<u64, BucketView> {
        assoc_map(self.buckets@)
    }

    /// The full-digest cache: each path hashed in full so far, with its digest.
    pub closed spec fn cache_view(self) -> Map<Seq<char>, Seq<u8>> {
        assoc_map(self.cache@)
    }

    /// The registration exchange in progress.
    pub closed spec fn pending_view(self) -> PendingView {
        self.pending@
    }

    /// Which call is expected next.
    pub open spec fn expects(self) -> Expects {
        match self.pending_view() {
            PendingView::Idle => Expects::Idle,
            PendingView::SinglePartials { .. } => Expects::Partials,
            PendingView::GroupPartial { .. } => Expects::Partial,
            _ => Expects::Full,
        }
    }

    /// Well-formedness: association lists have unique keys, every bucket size
    /// is above the minimum, and the pending exchange agrees with the state.
    pub closed spec fn wf(self) -> bool {
        &&& keys_unique(self.buckets@)
        &&& keys_unique(self.cache@)
        &&& (forall|i: int|
            0 <= i < self.buckets@.len() ==> (#[trigger] self.buckets@[i].0) > self.min_size)
        &&& self.pending_wf()
    }

    pub closed spec fn pending_wf(self) -> bool {
        match self.pending_view() {
            PendingView::Idle => true,
            PendingView::SinglePartials { size, path, prev } => {
                &&& self.buckets_view().dom().contains(size)
                &&& self.buckets_view()[size] == BucketView::One(prev)
            },
            PendingView::SingleFullPrev { size, path, prev, partial } => {
                &&& self.buckets_view().dom().contains(size)
                &&& self.buckets_view()[size] == BucketView::One(prev)
                &&& !self.cache_view().dom().contains(prev)
            },
            PendingView::SingleFullPath { size, path, prev, partial, full_prev } => {
                &&& self.buckets_view().dom().contains(size)
                &&& self.buckets_view()[size] == BucketView::One(prev)
                &&& self.cache_view().dom().contains(prev)
                &&& self.cache_view()[prev] == full_prev
                &&& !self.cache_view().dom().contains(path)
            },
            PendingView::GroupPartial { size, path } => {
                &&& self.buckets_view().dom().contains(size)
                &&& self.buckets_view()[size] is Multiple
            },
            PendingView::GroupFullPath { size, path, partial, cands } => {
                &&& self.buckets_view().dom().contains(size)
                &&& (match self.buckets_view()[size] {
                    BucketView::Multiple(g) => g.dom().contains(partial) && g[partial] == cands,
                    BucketView::One(_) => false,
                })
                &&& !self.cache_view().dom().contains(path)
            },
            PendingView::GroupFullCand { size, path, partial, cands, at, full_path } => {
                &&& self.buckets_view().dom().contains(size)
                &&& (match self.buckets_view()[size] {
                    BucketView::Multiple(g) => g.dom().contains(partial) && g[partial] == cands,
                    BucketView::One(_) => false,
                })
                &&& 0 <= at < cands.len()
                &&& self.cache_view().dom().contains(path)
                &&& self.cache_view()[path] == full_path
                &&& !self.cache_view().dom().contains(cands[at])
                &&& (forall|j: int|
                    0 <= j < at ==> self.cache_view().dom().contains(#[trigger] cands[j])
                        && self.cache_view()[cands[j]] != full_path)
            },
        }
    }

    /// A fresh index; nothing registered, nothing cached, nothing pending.
    pub fn new(min_size: u64) -> (r: Index)
        ensures
            r.wf(),
            r.spec_min_size() == min_size,
            r.buckets_view() == empty_buckets(),
            r.cache_view() == empty_cache(),
            r.expects() == Expects::Idle,
    {
        let r = Index { min_size, buckets: Vec::new(), cache: Vec::new(), pending: Pending::Idle };
        proof {
            assert(r.buckets@.len() == 0);
            assert(r.cache@.len() == 0);
        }
        r
    }
}

// ------------------------------------------------------------------
// Small verified utilities
// ------------------------------------------------------------------

/// Byte-for-byte equality of two digests.
fn bytes_eq(a: &Vec<u8>, b: &Vec<u8>) -> (r: bool)
    ensures
        r == (a@ == b@),
{
    if a.len() != b.len() {
        return false;
    }
    let mut i: usize = 0;
    while i < a.len()
        invariant
            i <= a@.len(),
            a@.len() == b@.len(),
            forall|j: int| 0 <= j < i ==> a@[j] == b@[j],
        decreases a@.len() - i,
    {
        if a[i] != b[i] {
            return false;
        }
        i += 1;
    }
    proof {
        assert(a@ =~= b@);
    }
    true
}

/// A fresh copy of a digest.
fn bytes_copy(a: &Vec<u8>) -> (r: Vec<u8>)
    ensures
        r@ == a@,
{
    let mut r: Vec<u8> = Vec::new();
    let mut i: usize = 0;
    while i < a.len()
        invariant
            i <= a@.len(),
            r@ == a@.take(i as int),
        decreases a@.len() - i,
    {
        r.push(a[i]);
        i += 1;
        proof {
            assert(r@ =~= a@.take(i as int));
        }
    }
    proof {
        assert(r@ =~= a@);
    }
    r
}
// ------------------------------------------------------------------
// Private state helpers
// ------------------------------------------------------------------

impl Index {
    fn find_bucket(&self, size: u64) -> (r: Option<usize>)
        requires
            self.wf(),
        ensures
            match r {
                Some(i) => {
                    &&& i < self.buckets@.len()
                    &&& self.buckets@[i as int].0 == size
                    &&& self.buckets_view().dom().contains(size)
                    &&& self.buckets_view()[size] == self.buckets@[i as int].1@
                },
                None => !self.buckets_view().dom().contains(size),
            },
    {
        let mut i: usize = 0;
        while i < self.buckets.len()
            invariant
                self.wf(),
                i <= self.buckets@.len(),
                forall|j: int| 0 <= j < i ==> (#[trigger] self.buckets@[j].0) != size,
            decreases self.buckets@.len() - i,
        {
            if self.buckets[i].0 == size {
                proof {
                    lemma_assoc_at(self.buckets@, i as int);
                }
                return Some(i);
            }
            i += 1;
        }
        proof {
            lemma_assoc_dom(self.buckets@);
        }
        None
    }

    fn cache_find(&self, p: &String) -> (r: Option<usize>)
        requires
            self.wf(),
        ensures
            match r {
                Some(i) => {
                    &&& i < self.cache@.len()
                    &&& self.cache@[i as int].0@ == p@
                    &&& self.cache_view().dom().contains(p@)
                    &&& self.cache_view()[p@] == self.cache@[i as int].1@
                },
                None => !self.cache_view().dom().contains(p@),
            },
    {
        let mut i: usize = 0;
        while i < self.cache.len()
            invariant
                self.wf(),
                i <= self.cache@.len(),
                forall|j: int| 0 <= j < i ==> (#[trigger] self.cache@[j].0@) != p@,
            decreases self.cache@.len() - i,
        {
            if self.cache[i].0 == *p {
                proof {
                    lemma_assoc_at(self.cache@, i as int);
                }
                return Some(i);
            }
            i += 1;
        }
        proof {
            lemma_assoc_dom(self.cache@);
        }
        None
    }

    /// The cached full digest of `p`, if one is present.
    fn cache_get(&self, p: &String) -> (r: Option<Vec<u8>>)
        requires
            self.wf(),
        ensures
            match r {
                Some(d) => self.cache_view().dom().contains(p@) && d@ == self.cache_view()[p@],
                None => !self.cache_view().dom().contains(p@),
            },
    {
        match self.cache_find(p) {
            Some(i) => Some(bytes_copy(&self.cache[i].1)),
            None => None,
        }
    }

    fn cache_insert(&mut self, p: String, d: Vec<u8>)
        requires
            keys_unique(old(self).cache@),
            !old(self).cache_view().dom().contains(p@),
        ensures
            keys_unique(final(self).cache@),
            final(self).cache_view() == old(self).cache_view().insert(p@, d@),
            final(self).buckets == old(self).buckets,
            final(self).pending == old(self).pending,
            final(self).min_size == old(self).min_size,
    {
        proof {
            lemma_assoc_dom(self.cache@);
        }
        self.cache.push((p, d));
        proof {
            lemma_assoc_push(old(self).cache@, p, d);
        }
    }

    fn replace_bucket(&mut self, i: usize, b: Bucket)
        requires
            keys_unique(old(self).buckets@),
            i < old(self).buckets@.len(),
        ensures
            keys_unique(final(self).buckets@),
            final(self).buckets@ == old(self).buckets@.remove(i as int).push(
                ((old(self).buckets@[i as int].0, b)),
            ),
            final(self).buckets_view() == old(self).buckets_view().insert(
                old(self).buckets@[i as int].0,
                b@,
            ),
            final(self).cache == old(self).cache,
            final(self).pending == old(self).pending,
            final(self).min_size == old(self).min_size,
    {
        let ghost s0 = self.buckets@;
        let (sz, _prior) = self.buckets.remove(i);
        self.buckets.push((sz, b));
        proof {
            lemma_assoc_remove(s0, i as int);
            lemma_assoc_push(s0.remove(i as int), sz, b);
            lemma_assoc_dom(s0.remove(i as int));
            assert forall|j: int| 0 <= j < s0.remove(i as int).len() implies (
            #[trigger] s0.remove(i as int)[j].0@) != sz@ by {
                if j < i {
                    assert(s0.remove(i as int)[j] == s0[j]);
                } else {
                    assert(s0.remove(i as int)[j] == s0[j + 1]);
                }
            }
            assert(keys_unique(final(self).buckets@));
            assert(assoc_map(s0).remove(sz).insert(sz, b@) =~= assoc_map(s0).insert(sz, b@));
        }
    }
}

// ------------------------------------------------------------------
// Registration: opening step
// ------------------------------------------------------------------

impl Index {
    /// Starts registering one observed file. Sizes at or below the minimum
    /// are turned away unregistered. A size never seen before is registered
    /// at once, no digest computed. Otherwise the index asks for the digests
    /// it needs; feed them back as the returned step directs.
    pub fn register_begin(&mut self, path: String, size: u64) -> (r: Step)
        requires
            old(self).wf(),
            old(self).expects() == Expects::Idle,
        ensures
            final(self).wf(),
            final(self).spec_min_size() == old(self).spec_min_size(),
            final(self).cache_view() == old(self).cache_view(),
            size <= old(self).spec_min_size() ==> {
                &&& r == Step::Done(Outcome::TooSmall)
                &&& final(self).buckets_view() == old(self).buckets_view()
                &&& final(self).expects() == Expects::Idle
            },
            size > old(self).spec_min_size() && !old(self).buckets_view().dom().contains(size)
                ==> {
                &&& r == Step::Done(Outcome::New)
                &&& final(self).buckets_view() == old(self).buckets_view().insert(
                    size,
                    BucketView::One(path@),
                )
                &&& final(self).expects() == Expects::Idle
            },
            size > old(self).spec_min_size() && old(self).buckets_view().dom().contains(size)
                ==> {
                &&& final(self).buckets_view() == old(self).buckets_view()
                &&& match old(self).buckets_view()[size] {
                    BucketView::One(prev) => {
                        &&& (r matches Step::NeedPartials { rep, fresh } && rep@ == prev
                            && fresh@ == path@)
                        &&& final(self).pending_view() == (PendingView::SinglePartials {
                            size,
                            path: path@,
                            prev,
                        })
                    },
                    BucketView::Multiple(g) => {
                        &&& (r matches Step::NeedPartial { fresh } && fresh@ == path@)
                        &&& final(self).pending_view() == (PendingView::GroupPartial {
                            size,
                            path: path@,
                        })
                    },
                }
            },
    {
        if size <= self.min_size {
            return Step::Done(Outcome::TooSmall);
        }
        match self.find_bucket(size) {
            None => {
                proof {
                    lemma_assoc_dom(self.buckets@);
                }
                self.buckets.push((size, Bucket::One(path)));
                proof {
                    lemma_assoc_push(old(self).buckets@, size, Bucket::One(path));
                }
                Step::Done(Outcome::New)
            },
            Some(i) => {
                match &self.buckets[i].1 {
                    Bucket::One(prev) => {
                        let rep = prev.clone();
                        let fresh = path.clone();
                        self.pending = Pending::SinglePartials { size, path, prev: rep.clone() };
                        Step::NeedPartials { rep, fresh }
                    },
                    Bucket::Multiple(_) => {
                        let fresh = path.clone();
                        self.pending = Pending::GroupPartial { size, path };
                        Step::NeedPartial { fresh }
                    },
                }
            },
        }
    }
}

// ------------------------------------------------------------------
// Registration: feeding digests back
// ------------------------------------------------------------------

/// A fresh copy of a path list.
fn clone_paths(v: &Vec<String>) -> (r: Vec<String>)
    ensures
        r.deep_view() == v.deep_view(),
{
    let mut r: Vec<String> = Vec::new();
    let mut i: usize = 0;
    while i < v.len()
        invariant
            i <= v@.len(),
            r@.len() == i,
            forall|j: int| 0 <= j < i ==> (#[trigger] r@[j]@) == v@[j]@,
        decreases v@.len() - i,
    {
        r.push(v[i].clone());
        i += 1;
    }
    proof {
        assert forall|j: int| 0 <= j < r.deep_view().len() implies #[trigger] r.deep_view()[j]
            == v.deep_view()[j] by {
            assert(r.deep_view()[j] == r@[j]@);
            assert(v.deep_view()[j] == v@[j]@);
        }
        assert(r.deep_view() =~= v.deep_view());
    }
    r
}

impl Index {
    fn upgrade_single(&mut self, size: u64, prev: String, pa: Vec<u8>, path: String, pb: Vec<u8>)
        requires
            old(self).wf(),
            old(self).pending_view() == PendingView::Idle,
            old(self).buckets_view().dom().contains(size),
        ensures
            final(self).wf(),
            final(self).pending_view() == PendingView::Idle,
            final(self).spec_min_size() == old(self).spec_min_size(),
            final(self).cache_view() == old(self).cache_view(),
            final(self).buckets_view() == old(self).buckets_view().insert(
                size,
                BucketView::Multiple(two_group(pa@, prev@, pb@, path@)),
            ),
    {
        let i = match self.find_bucket(size) {
            Some(i) => i,
            None => {
                proof {
                    assert(false);
                }
                0
            },
        };
        let mut m = mm_new();
        mm_insert(&mut m, pa, prev);
        mm_insert(&mut m, pb, path);
        proof {
            if pa@ == pb@ {
                assert(seq![prev@].push(path@) =~= seq![prev@, path@]);
                assert(mm_groups(m) =~= two_group(pa@, prev@, pb@, path@));
            } else {
                assert(mm_groups(m) =~= two_group(pa@, prev@, pb@, path@));
            }
        }
        self.replace_bucket(i, Bucket::Multiple(m));
    }

    fn bucket_multiple_insert(&mut self, i: usize, k: Vec<u8>, v: String)
        requires
            old(self).wf(),
            old(self).pending_view() == PendingView::Idle,
            i < old(self).buckets@.len(),
            old(self).buckets@[i as int].1 is Multiple,
        ensures
            final(self).wf(),
            final(self).pending_view() == PendingView::Idle,
            final(self).spec_min_size() == old(self).spec_min_size(),
            final(self).cache_view() == old(self).cache_view(),
            final(self).buckets_view() == old(self).buckets_view().insert(
                old(self).buckets@[i as int].0,
                (match old(self).buckets@[i as int].1@ {
                    BucketView::Multiple(g) => BucketView::Multiple(
                        if g.dom().contains(k@) {
                            g.insert(k@, g[k@].push(v@))
                        } else {
                            g.insert(k@, seq![v@])
                        },
                    ),
                    BucketView::One(p) => BucketView::One(p),
                }),
            ),
    {
        let ghost s0 = self.buckets@;
        let (sz, b) = self.buckets.remove(i);
        match b {
            Bucket::Multiple(mut m) => {
                mm_insert(&mut m, k, v);
                self.buckets.push((sz, Bucket::Multiple(m)));
                proof {
                    lemma_assoc_remove(s0, i as int);
                    lemma_assoc_push(s0.remove(i as int), sz, Bucket::Multiple(m));
                    lemma_assoc_dom(s0.remove(i as int));
                    assert forall|j: int| 0 <= j < s0.remove(i as int).len() implies (
                    #[trigger] s0.remove(i as int)[j].0@) != sz@ by {
                        if j < i {
                            assert(s0.remove(i as int)[j] == s0[j]);
                        } else {
                            assert(s0.remove(i as int)[j] == s0[j + 1]);
                        }
                    }
                    assert(keys_unique(self.buckets@));
                    assert(assoc_map(s0).remove(sz).insert(sz, Bucket::Multiple(m)@) =~= assoc_map(
                        s0,
                    ).insert(sz, Bucket::Multiple(m)@));
                    lemma_assoc_at(s0, i as int);
                    assert forall|j: int|
                        0 <= j < self.buckets@.len() implies (#[trigger] self.buckets@[j].0)
                        > self.min_size by {
                        if j < s0.len() - 1 {
                            if j < i {
                                assert(self.buckets@[j] == s0[j]);
                            } else {
                                assert(self.buckets@[j] == s0[j + 1]);
                            }
                        } else {
                            assert(self.buckets@[j].0 == sz);
                        }
                    }
                }
            },
            Bucket::One(p) => {
                proof {
                    assert(false);
                }
                self.buckets.push((sz, Bucket::One(p)));
            },
        }
    }

    /// Continues registering `path` against the partial-digest group `cands`
    /// from position `from`, with `full_path` the cached full digest of `path`.
    fn scan_from(
        &mut self,
        size: u64,
        path: String,
        partial: Vec<u8>,
        cands: Vec<String>,
        from: usize,
        full_path: Vec<u8>,
    ) -> (r: Step)
        requires
            old(self).wf(),
            old(self).pending_view() == PendingView::Idle,
            old(self).buckets_view().dom().contains(size),
            (match old(self).buckets_view()[size] {
                BucketView::Multiple(g) => g.dom().contains(partial@) && g[partial@]
                    == cands.deep_view(),
                BucketView::One(_) => false,
            }),
            old(self).cache_view().dom().contains(path@),
            old(self).cache_view()[path@] == full_path@,
            from <= cands.deep_view().len(),
            forall|j: int|
                0 <= j < from ==> old(self).cache_view().dom().contains(
                    #[trigger] cands.deep_view()[j],
                ) && old(self).cache_view()[cands.deep_view()[j]] != full_path@,
        ensures
            final(self).wf(),
            final(self).spec_min_size() == old(self).spec_min_size(),
            final(self).cache_view() == old(self).cache_view(),
            match scan_spec(cands.deep_view(), from as int, old(self).cache_view(), full_path@) {
                ScanRes::Found(j) => {
                    &&& (r matches Step::Done(Outcome::Duplicate(dp)) && dp@ == cands.deep_view()[j])
                    &&& final(self).buckets_view() == old(self).buckets_view()
                    &&& final(self).pending_view() == PendingView::Idle
                },
                ScanRes::Ask(j) => {
                    &&& (r matches Step::NeedFull { of } && of@ == cands.deep_view()[j])
                    &&& final(self).buckets_view() == old(self).buckets_view()
                    &&& final(self).pending_view() == (PendingView::GroupFullCand {
                        size,
                        path: path@,
                        partial: partial@,
                        cands: cands.deep_view(),
                        at: j,
                        full_path: full_path@,
                    })
                },
                ScanRes::Exhausted => {
                    &&& r == Step::Done(Outcome::New)
                    &&& (match old(self).buckets_view()[size] {
                        BucketView::Multiple(g) => final(self).buckets_view() == old(
                            self,
                        ).buckets_view().insert(
                            size,
                            BucketView::Multiple(g.insert(partial@, g[partial@].push(path@))),
                        ),
                        BucketView::One(_) => false,
                    })
                    &&& final(self).pending_view() == PendingView::Idle
                },
            },
    {
        let ghost cs = cands.deep_view();
        let ghost fb = full_path@;
        let mut i: usize = from;
        while i < cands.len()
            invariant
                self == old(self),
                self.wf(),
                self.pending_view() == PendingView::Idle,
                cs == cands.deep_view(),
                fb == full_path@,
                cands@.len() == cs.len(),
                from <= i <= cs.len(),
                self.cache_view().dom().contains(path@),
                self.cache_view()[path@] == fb,
                self.buckets_view().dom().contains(size),
                (match self.buckets_view()[size] {
                    BucketView::Multiple(g) => g.dom().contains(partial@) && g[partial@] == cs,
                    BucketView::One(_) => false,
                }),
                scan_spec(cs, from as int, self.cache_view(), fb) == scan_spec(
                    cs,
                    i as int,
                    self.cache_view(),
                    fb,
                ),
                forall|j: int|
                    0 <= j < i ==> self.cache_view().dom().contains(#[trigger] cs[j])
                        && self.cache_view()[cs[j]] != fb,
            decreases cs.len() - i,
        {
            proof {
                assert(cands.deep_view()[i as int] == cands@[i as int]@);
            }
            match self.cache_find(&cands[i]) {
                None => {
                    let of = cands[i].clone();
                    self.pending = Pending::GroupFullCand {
                        size,
                        path,
                        partial,
                        cands,
                        at: i,
                        full_path,
                    };
                    proof {
                        assert(scan_spec(cs, i as int, self.cache_view(), fb) == ScanRes::Ask(
                            i as int,
                        ));
                    }
                    return Step::NeedFull { of };
                },
                Some(ci) => {
                    let hit = bytes_eq(&self.cache[ci].1, &full_path);
                    if hit {
                        proof {
                            assert(scan_spec(cs, i as int, self.cache_view(), fb)
                                == ScanRes::Found(i as int));
                        }
                        return Step::Done(Outcome::Duplicate(cands[i].clone()));
                    }
                    i += 1;
                },
            }
        }
        proof {
            assert(scan_spec(cs, i as int, self.cache_view(), fb) == ScanRes::Exhausted);
        }
        let ib = match self.find_bucket(size) {
            Some(ib) => ib,
            None => {
                proof {
                    assert(false);
                }
                0
            },
        };
        proof {
            lemma_assoc_at(self.buckets@, ib as int);
        }
        self.bucket_multiple_insert(ib, partial, path);
        Step::Done(Outcome::New)
    }
}

impl Index {
    /// Feeds back the partial digests asked for by `NeedPartials`:
    /// `rep_digest` for the already-registered path, `new_digest` for the
    /// incoming one. Differing partial digests settle the registration at
    /// once — the two files differ, the bucket is upgraded to a group, and no
    /// full digest is ever computed for them here. Matching partial digests
    /// move on to the full-digest comparison, served from the cache when
    /// possible.
    pub fn feed_partials(&mut self, rep_digest: Vec<u8>, new_digest: Vec<u8>) -> (r: Step)
        requires
            old(self).wf(),
            old(self).expects() == Expects::Partials,
        ensures
            final(self).wf(),
            final(self).spec_min_size() == old(self).spec_min_size(),
            final(self).cache_view() == old(self).cache_view(),
            match old(self).pending_view() {
                PendingView::SinglePartials { size, path, prev } => {
                    &&& (rep_digest@ != new_digest@ ==> {
                        &&& r == Step::Done(Outcome::New)
                        &&& final(self).buckets_view() == old(self).buckets_view().insert(
                            size,
                            BucketView::Multiple(two_group(rep_digest@, prev, new_digest@, path)),
                        )
                        &&& final(self).pending_view() == PendingView::Idle
                    })
                    &&& (rep_digest@ == new_digest@ && !old(self).cache_view().dom().contains(prev)
                        ==> {
                        &&& (r matches Step::NeedFull { of } && of@ == prev)
                        &&& final(self).buckets_view() == old(self).buckets_view()
                        &&& final(self).pending_view() == (PendingView::SingleFullPrev {
                            size,
                            path,
                            prev,
                            partial: rep_digest@,
                        })
                    })
                    &&& (rep_digest@ == new_digest@ && old(self).cache_view().dom().contains(prev)
                        && !old(self).cache_view().dom().contains(path) ==> {
                        &&& (r matches Step::NeedFull { of } && of@ == path)
                        &&& final(self).buckets_view() == old(self).buckets_view()
                        &&& final(self).pending_view() == (PendingView::SingleFullPath {
                            size,
                            path,
                            prev,
                            partial: rep_digest@,
                            full_prev: old(self).cache_view()[prev],
                        })
                    })
                    &&& (rep_digest@ == new_digest@ && old(self).cache_view().dom().contains(prev)
                        && old(self).cache_view().dom().contains(path) ==> {
                        &&& final(self).pending_view() == PendingView::Idle
                        &&& (old(self).cache_view()[prev] == old(self).cache_view()[path] ==> {
                            &&& (r matches Step::Done(Outcome::Duplicate(dp)) && dp@ == prev)
                            &&& final(self).buckets_view() == old(self).buckets_view()
                        })
                        &&& (old(self).cache_view()[prev] != old(self).cache_view()[path] ==> {
                            &&& r == Step::Done(Outcome::New)
                            &&& final(self).buckets_view() == old(self).buckets_view().insert(
                                size,
                                BucketView::Multiple(
                                    two_group(rep_digest@, prev, new_digest@, path),
                                ),
                            )
                        })
                    })
                },
                _ => false,
            },
    {
        let mut pend = Pending::Idle;
        core::mem::swap(&mut pend, &mut self.pending);
        match pend {
            Pending::SinglePartials { size, path, prev } => {
                let same = bytes_eq(&rep_digest, &new_digest);
                if !same {
                    self.upgrade_single(size, prev, rep_digest, path, new_digest);
                    Step::Done(Outcome::New)
                } else {
                    match self.cache_get(&prev) {
                        None => {
                            let of = prev.clone();
                            self.pending = Pending::SingleFullPrev {
                                size,
                                path,
                                prev,
                                partial: rep_digest,
                            };
                            Step::NeedFull { of }
                        },
                        Some(fp) => {
                            match self.cache_get(&path) {
                                None => {
                                    let of = path.clone();
                                    self.pending = Pending::SingleFullPath {
                                        size,
                                        path,
                                        prev,
                                        partial: rep_digest,
                                        full_prev: fp,
                                    };
                                    Step::NeedFull { of }
                                },
                                Some(fq) => {
                                    if bytes_eq(&fp, &fq) {
                                        Step::Done(Outcome::Duplicate(prev))
                                    } else {
                                        self.upgrade_single(
                                            size,
                                            prev,
                                            rep_digest,
                                            path,
                                            new_digest,
                                        );
                                        Step::Done(Outcome::New)
                                    }
                                },
                            }
                        },
                    }
                }
            },
            _ => {
                proof {
                    assert(false);
                }
                Step::Done(Outcome::New)
            },
        }
    }

    /// Feeds back the partial digest asked for by `NeedPartial`. When no
    /// registered path at this size shares it, the file is new content and is
    /// registered under it, no full digest computed. Otherwise the paths
    /// already registered under this partial digest are compared with the
    /// incoming file by full digest, in registration order.
    pub fn feed_partial(&mut self, digest: Vec<u8>) -> (r: Step)
        requires
            old(self).wf(),
            old(self).expects() == Expects::Partial,
        ensures
            final(self).wf(),
            final(self).spec_min_size() == old(self).spec_min_size(),
            final(self).cache_view() == old(self).cache_view(),
            match old(self).pending_view() {
                PendingView::GroupPartial { size, path } => match old(self).buckets_view()[size] {
                    BucketView::Multiple(g) => {
                        &&& (!g.dom().contains(digest@) ==> {
                            &&& r == Step::Done(Outcome::New)
                            &&& final(self).buckets_view() == old(self).buckets_view().insert(
                                size,
                                BucketView::Multiple(g.insert(digest@, seq![path])),
                            )
                            &&& final(self).pending_view() == PendingView::Idle
                        })
                        &&& (g.dom().contains(digest@) && !old(self).cache_view().dom().contains(
                            path,
                        ) ==> {
                            &&& (r matches Step::NeedFull { of } && of@ == path)
                            &&& final(self).buckets_view() == old(self).buckets_view()
                            &&& final(self).pending_view() == (PendingView::GroupFullPath {
                                size,
                                path,
                                partial: digest@,
                                cands: g[digest@],
                            })
                        })
                        &&& (g.dom().contains(digest@) && old(self).cache_view().dom().contains(
                            path,
                        ) ==> {
                            &&& match scan_spec(
                                g[digest@],
                                0,
                                old(self).cache_view(),
                                old(self).cache_view()[path],
                            ) {
                                ScanRes::Found(j) => {
                                    &&& (r matches Step::Done(Outcome::Duplicate(dp)) && dp@
                                        == g[digest@][j])
                                    &&& final(self).buckets_view() == old(self).buckets_view()
                                    &&& final(self).pending_view() == PendingView::Idle
                                },
                                ScanRes::Ask(j) => {
                                    &&& (r matches Step::NeedFull { of } && of@ == g[digest@][j])
                                    &&& final(self).buckets_view() == old(self).buckets_view()
                                    &&& final(self).pending_view() == (PendingView::GroupFullCand {
                                        size,
                                        path,
                                        partial: digest@,
                                        cands: g[digest@],
                                        at: j,
                                        full_path: old(self).cache_view()[path],
                                    })
                                },
                                ScanRes::Exhausted => {
                                    &&& r == Step::Done(Outcome::New)
                                    &&& final(self).buckets_view() == old(
                                        self,
                                    ).buckets_view().insert(
                                        size,
                                        BucketView::Multiple(
                                            g.insert(digest@, g[digest@].push(path)),
                                        ),
                                    )
                                    &&& final(self).pending_view() == PendingView::Idle
                                },
                            }
                        })
                    },
                    BucketView::One(_) => false,
                },
                _ => false,
            },
    {
        let mut pend = Pending::Idle;
        core::mem::swap(&mut pend, &mut self.pending);
        match pend {
            Pending::GroupPartial { size, path } => {
                let i = match self.find_bucket(size) {
                    Some(i) => i,
                    None => {
                        proof {
                            assert(false);
                        }
                        0
                    },
                };
                let found: Option<Vec<String>> = match &self.buckets[i].1 {
                    Bucket::Multiple(m) => match mm_get(m, &digest) {
                        Some(vs) => Some(clone_paths(vs)),
                        None => None,
                    },
                    Bucket::One(_) => {
                        proof {
                            assert(false);
                        }
                        None
                    },
                };
                match found {
                    None => {
                        self.bucket_multiple_insert(i, digest, path);
                        Step::Done(Outcome::New)
                    },
                    Some(cands) => {
                        match self.cache_get(&path) {
                            None => {
                                let of = path.clone();
                                self.pending = Pending::GroupFullPath {
                                    size,
                                    path,
                                    partial: digest,
                                    cands,
                                };
                                Step::NeedFull { of }
                            },
                            Some(fb) => self.scan_from(size, path, digest, cands, 0, fb),
                        }
                    },
                }
            },
            _ => {
                proof {
                    assert(false);
                }
                Step::Done(Outcome::New)
            },
        }
    }

    /// Feeds back the full digest asked for by `NeedFull`. The digest is
    /// recorded in the cache — the asked-for path was not cached, and no
    /// cached digest is ever recomputed or changed — and the comparison
    /// continues where it left off.
    pub fn feed_full(&mut self, d: Vec<u8>) -> (r: Step)
        requires
            old(self).wf(),
            old(self).expects() == Expects::Full,
        ensures
            final(self).wf(),
            final(self).spec_min_size() == old(self).spec_min_size(),
            match old(self).pending_view() {
                PendingView::SingleFullPrev { size, path, prev, partial } => {
                    &&& !old(self).cache_view().dom().contains(prev)
                    &&& final(self).cache_view() == old(self).cache_view().insert(prev, d@)
                    &&& (old(self).cache_view().insert(prev, d@).dom().contains(path) ==> {
                        &&& (old(self).cache_view().insert(prev, d@)[path] == d@ ==> {
                            &&& (r matches Step::Done(Outcome::Duplicate(dp)) && dp@ == prev)
                            &&& final(self).buckets_view() == old(self).buckets_view()
                            &&& final(self).pending_view() == PendingView::Idle
                        })
                        &&& (old(self).cache_view().insert(prev, d@)[path] != d@ ==> {
                            &&& r == Step::Done(Outcome::New)
                            &&& final(self).buckets_view() == old(self).buckets_view().insert(
                                size,
                                BucketView::Multiple(two_group(partial, prev, partial, path)),
                            )
                            &&& final(self).pending_view() == PendingView::Idle
                        })
                    })
                    &&& (!old(self).cache_view().insert(prev, d@).dom().contains(path) ==> {
                        &&& (r matches Step::NeedFull { of } && of@ == path)
                        &&& final(self).buckets_view() == old(self).buckets_view()
                        &&& final(self).pending_view() == (PendingView::SingleFullPath {
                            size,
                            path,
                            prev,
                            partial,
                            full_prev: d@,
                        })
                    })
                },
                PendingView::SingleFullPath { size, path, prev, partial, full_prev } => {
                    &&& !old(self).cache_view().dom().contains(path)
                    &&& final(self).cache_view() == old(self).cache_view().insert(path, d@)
                    &&& (full_prev == d@ ==> {
                        &&& (r matches Step::Done(Outcome::Duplicate(dp)) && dp@ == prev)
                        &&& final(self).buckets_view() == old(self).buckets_view()
                        &&& final(self).pending_view() == PendingView::Idle
                    })
                    &&& (full_prev != d@ ==> {
                        &&& r == Step::Done(Outcome::New)
                        &&& final(self).buckets_view() == old(self).buckets_view().insert(
                            size,
                            BucketView::Multiple(two_group(partial, prev, partial, path)),
                        )
                        &&& final(self).pending_view() == PendingView::Idle
                    })
                },
                PendingView::GroupFullPath { size, path, partial, cands } => {
                    &&& !old(self).cache_view().dom().contains(path)
                    &&& final(self).cache_view() == old(self).cache_view().insert(path, d@)
                    &&& match scan_spec(cands, 0, old(self).cache_view().insert(path, d@), d@) {
                        ScanRes::Found(j) => {
                            &&& (r matches Step::Done(Outcome::Duplicate(dp)) && dp@ == cands[j])
                            &&& final(self).buckets_view() == old(self).buckets_view()
                            &&& final(self).pending_view() == PendingView::Idle
                        },
                        ScanRes::Ask(j) => {
                            &&& (r matches Step::NeedFull { of } && of@ == cands[j])
                            &&& final(self).buckets_view() == old(self).buckets_view()
                            &&& final(self).pending_view() == (PendingView::GroupFullCand {
                                size,
                                path,
                                partial,
                                cands,
                                at: j,
                                full_path: d@,
                            })
                        },
                        ScanRes::Exhausted => {
                            &&& r == Step::Done(Outcome::New)
                            &&& (match old(self).buckets_view()[size] {
                                BucketView::Multiple(g) => final(self).buckets_view() == old(
                                    self,
                                ).buckets_view().insert(
                                    size,
                                    BucketView::Multiple(g.insert(partial, g[partial].push(path))),
                                ),
                                BucketView::One(_) => false,
                            })
                            &&& final(self).pending_view() == PendingView::Idle
                        },
                    }
                },
                PendingView::GroupFullCand { size, path, partial, cands, at, full_path } => {
                    &&& !old(self).cache_view().dom().contains(cands[at])
                    &&& final(self).cache_view() == old(self).cache_view().insert(cands[at], d@)
                    &&& (d@ == full_path ==> {
                        &&& (r matches Step::Done(Outcome::Duplicate(dp)) && dp@ == cands[at])
                        &&& final(self).buckets_view() == old(self).buckets_view()
                        &&& final(self).pending_view() == PendingView::Idle
                    })
                    &&& (d@ != full_path ==> match scan_spec(
                        cands,
                        at + 1,
                        old(self).cache_view().insert(cands[at], d@),
                        full_path,
                    ) {
                        ScanRes::Found(j) => {
                            &&& (r matches Step::Done(Outcome::Duplicate(dp)) && dp@ == cands[j])
                            &&& final(self).buckets_view() == old(self).buckets_view()
                            &&& final(self).pending_view() == PendingView::Idle
                        },
                        ScanRes::Ask(j) => {
                            &&& (r matches Step::NeedFull { of } && of@ == cands[j])
                            &&& final(self).buckets_view() == old(self).buckets_view()
                            &&& final(self).pending_view() == (PendingView::GroupFullCand {
                                size,
                                path,
                                partial,
                                cands,
                                at: j,
                                full_path,
                            })
                        },
                        ScanRes::Exhausted => {
                            &&& r == Step::Done(Outcome::New)
                            &&& (match old(self).buckets_view()[size] {
                                BucketView::Multiple(g) => final(self).buckets_view() == old(
                                    self,
                                ).buckets_view().insert(
                                    size,
                                    BucketView::Multiple(g.insert(partial, g[partial].push(path))),
                                ),
                                BucketView::One(_) => false,
                            })
                            &&& final(self).pending_view() == PendingView::Idle
                        },
                    })
                },
                _ => false,
            },
    {
        let mut pend = Pending::Idle;
        core::mem::swap(&mut pend, &mut self.pending);
        match pend {
            Pending::SingleFullPrev { size, path, prev, partial } => {
                self.cache_insert(prev.clone(), bytes_copy(&d));
                match self.cache_get(&path) {
                    Some(fq) => {
                        if bytes_eq(&d, &fq) {
                            Step::Done(Outcome::Duplicate(prev))
                        } else {
                            let pb = bytes_copy(&partial);
                            self.upgrade_single(size, prev, partial, path, pb);
                            Step::Done(Outcome::New)
                        }
                    },
                    None => {
                        let of = path.clone();
                        self.pending = Pending::SingleFullPath {
                            size,
                            path,
                            prev,
                            partial,
                            full_prev: d,
                        };
                        Step::NeedFull { of }
                    },
                }
            },
            Pending::SingleFullPath { size, path, prev, partial, full_prev } => {
                self.cache_insert(path.clone(), bytes_copy(&d));
                if bytes_eq(&full_prev, &d) {
                    Step::Done(Outcome::Duplicate(prev))
                } else {
                    let pb = bytes_copy(&partial);
                    self.upgrade_single(size, prev, partial, path, pb);
                    Step::Done(Outcome::New)
                }
            },
            Pending::GroupFullPath { size, path, partial, cands } => {
                self.cache_insert(path.clone(), bytes_copy(&d));
                self.scan_from(size, path, partial, cands, 0, d)
            },
            Pending::GroupFullCand { size, path, partial, cands, at, full_path } => {
                self.cache_insert(cands[at].clone(), bytes_copy(&d));
                let cl = cands.len();
                proof {
                    assert((at as int) < cands.deep_view().len());
                    assert(cands.deep_view().len() == cands@.len());
                    assert(at < cl);
                }
                if bytes_eq(&d, &full_path) {
                    Step::Done(Outcome::Duplicate(cands[at].clone()))
                } else {
                    let next = at + 1;
                    self.scan_from(size, path, partial, cands, next, full_path)
                }
            },
            _ => {
                proof {
                    assert(false);
                }
                Step::Done(Outcome::New)
            },
        }
    }
}

impl Index {
    /// Law: a size at or below the minimum never appears in the index, so
    /// files at such sizes are never registered nor compared against.
    pub proof fn lemma_threshold_exclusion(self)
        requires
            self.wf(),
        ensures
            forall|s: u64|
                self.buckets_view().dom().contains(s) ==> s > self.spec_min_size(),
    {
        lemma_assoc_dom(self.buckets@);
        assert forall|s: u64| self.buckets_view().dom().contains(s) implies s
            > self.spec_min_size() by {
            let i = choose|i: int| 0 <= i < self.buckets@.len() && #[trigger] self.buckets@[i].0@
                == s;
            assert(self.buckets@[i].0 > self.min_size);
        }
    }
}

/// Law: what a candidate walk reports. A found representative is the first
/// candidate, in registration order, whose cached full digest equals the
/// incoming file's; every candidate passed over was compared through the
/// cache and differed; a suspension names the first candidate whose full
/// digest is not cached yet; exhaustion means every candidate differed.
pub proof fn lemma_scan_finds_first(
    cands: Seq<Seq<char>>,
    from: int,
    cache: Map<Seq<char>, Seq<u8>>,
    fb: Seq<u8>,
)
    requires
        0 <= from <= cands.len(),
    ensures
        match scan_spec(cands, from, cache, fb) {
            ScanRes::Found(j) => {
                &&& from <= j < cands.len()
                &&& cache.dom().contains(cands[j])
                &&& cache[cands[j]] == fb
                &&& forall|m: int|
                    from <= m < j ==> cache.dom().contains(#[trigger] cands[m])
                        && cache[cands[m]] != fb
            },
            ScanRes::Ask(j) => {
                &&& from <= j < cands.len()
                &&& !cache.dom().contains(cands[j])
                &&& forall|m: int|
                    from <= m < j ==> cache.dom().contains(#[trigger] cands[m])
                        && cache[cands[m]] != fb
            },
            ScanRes::Exhausted => forall|m: int|
                from <= m < cands.len() ==> cache.dom().contains(#[trigger] cands[m])
                    && cache[cands[m]] != fb,
        },
    decreases cands.len() - from,
{
    if from < cands.len() {
        if cache.dom().contains(cands[from]) && cache[cands[from]] != fb {
            lemma_scan_finds_first(cands, from + 1, cache, fb);
        }
    }
}

} // verus!
