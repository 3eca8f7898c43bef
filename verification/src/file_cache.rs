//! The file cache: an unbalanced binary search tree keyed by the hash of a
//! file name, stored in an arena of at most `max_nodes` nodes. Node `0` is the
//! root; every node is attached as a child of an earlier one.
use vstd::prelude::*;
use crate::cache_log::{law_decode_after_encode, log_bytes};
use crate::config::Settings;
use crate::hash::{get_hash, str_hash};
use crate::numbers::{parse_unsigned, parse_usize};

verus! {

/// One cached file: the hash of its name, its children in the arena, its
/// contents, and when they were loaded (nanoseconds on a monotonic clock).
pub struct CacheNode {
    pub hash: u64,
    pub left: Option<usize>,
    pub right: Option<usize>,
    pub data: String,
    pub load_time: u128,
}

/// The answer of a cache lookup.
pub enum CacheLookup {
    /// Cached and fresh: the contents.
    Hit(String),
    /// Cached, but older than the reload period: the file must be read again.
    Stale,
    /// Not cached.
    Miss,
}

/// The first step of fetching a file.
pub enum Fetch {
    /// The cached, fresh contents.
    Answer(String),
    /// The file is cached but stale: read it and `refresh` the cache.
    Reload,
    /// The file is not cached: read it and load it with `load_file_to_cache`.
    Load,
}

/// The cache. `bounds[i]` is the open interval of hashes that may lie in the
/// subtree of node `i`.
pub struct FileCache {
    nodes: Vec<CacheNode>,
    max_nodes: usize,
    bounds: Ghost<Seq<(int, int)>>,
}

/// The time that passed from `then` to `now` (zero if the clock went back).
pub open spec fn elapsed(now: u128, then: u128) -> int {
    if now >= then {
        now - then
    } else {
        0
    }
}

/// A cached entry loaded at `load_time` is fresh at `now` when there is no
/// reload period or less than the period has passed.
pub open spec fn is_fresh(load_time: u128, now: u128, reload_period: Option<u128>) -> bool {
    match reload_period {
        None => true,
        Some(p) => elapsed(now, load_time) < p,
    }
}

/// What a lookup of `hash` answers in a cache whose contents are `m`.
pub enum LookupOutcome {
    Hit(Seq<char>),
    Stale,
    Miss,
}

/// The lookup of `hash` at time `now` in a cache with contents `m`.
pub open spec fn lookup_outcome(
    m: Map<u64, (Seq<char>, u128)>,
    hash: u64,
    now: u128,
    reload_period: Option<u128>,
) -> LookupOutcome {
    if !m.contains_key(hash) {
        LookupOutcome::Miss
    } else if is_fresh(m[hash].1, now, reload_period) {
        LookupOutcome::Hit(m[hash].0)
    } else {
        LookupOutcome::Stale
    }
}

/// No hash occurs twice among the nodes `es`.
pub open spec fn distinct_hashes(es: Seq<(u64, u128)>) -> bool {
    forall|i: int, j: int| 0 <= i < es.len() && 0 <= j < es.len() && i != j ==> es[i].0 != es[j].0
}

/// The contents of a cache to which the files of `es`, with the contents
/// `ds`, were added in order.
pub open spec fn entries_map(es: Seq<(u64, u128)>, ds: Seq<Seq<char>>) -> Map<u64, (Seq<char>, u128)>
    decreases es.len(),
{
    if es.len() == 0 || ds.len() == 0 {
        Map::empty()
    } else {
        entries_map(es.drop_last(), ds.drop_last()).insert(es.last().0, (ds.last(), es.last().1))
    }
}

/// A handle that reads back the published records of a cache `c` (the node
/// list `decoded`, read from `bytes`) and the contents of its nodes rebuilds
/// exactly the contents of `c`.
pub proof fn law_published_tree_restores(c: &FileCache, bytes: Seq<u8>, decoded: Seq<(u64, u128)>)
    requires
        c.wf(),
        bytes == log_bytes(c.entry_seq()),
        decoded.len() == c.node_count(),
        log_bytes(decoded) == bytes.take((24 * decoded.len()) as int),
    ensures
        decoded == c.entry_seq(),
        distinct_hashes(decoded),
        decoded.len() <= c.capacity(),
        entries_map(decoded, c.data_seq()) == c.view(),
{
    c.law_entries_restore();
    law_decode_after_encode(c.entry_seq(), bytes, decoded);
}

/// Two handles share one cache: a handle (`second`) whose tree holds the
/// records that another handle (`first`) published, read back from `bytes`,
/// and the contents of the same node segments holds the same cached files,
/// with the same links, and every lookup, at any time and with any reload
/// period, gives both handles the same answer. A tree built by `rebuild`
/// from those records and contents is such a `second`.
pub proof fn law_handles_share(first: &FileCache, second: &FileCache, bytes: Seq<u8>)
    requires
        first.wf(),
        second.wf(),
        bytes == log_bytes(first.entry_seq()),
        second.node_count() == first.node_count(),
        log_bytes(second.entry_seq()) == bytes.take((24 * second.node_count()) as int),
        second.data_seq() == first.data_seq(),
    ensures
        second.entry_seq() == first.entry_seq(),
        second.view() == first.view(),
        forall|i: int, s: bool| 0 <= i < first.node_count() ==> #[trigger] second.child(i, s) == first.child(i, s),
        forall|hash: u64, now: u128, period: Option<u128>|
            #[trigger] lookup_outcome(second.view(), hash, now, period) == lookup_outcome(
                first.view(),
                hash,
                now,
                period,
            ),
{
    assert(second.entry_seq().len() == second.node_count());
    law_published_tree_restores(first, bytes, second.entry_seq());
    second.law_entries_restore();
    assert forall|j: int| 0 <= j < first.node_count() implies #[trigger] first.hash_at(j) == second.hash_at(j) by {
        assert(first.entry_seq()[j] == second.entry_seq()[j]);
    }
    law_same_hashes_same_links(first, second);
}

/// Node `i` has the same interval and the same children in two caches
/// whose nodes hold the same hashes in the same order.
proof fn lemma_links_agree(a: &FileCache, b: &FileCache, i: int)
    requires
        a.wf(),
        b.wf(),
        a.node_count() == b.node_count(),
        forall|j: int| 0 <= j < a.node_count() ==> #[trigger] a.hash_at(j) == b.hash_at(j),
        0 <= i < a.node_count(),
    ensures
        a.bounds@[i] == b.bounds@[i],
        a.child(i, false) == b.child(i, false),
        a.child(i, true) == b.child(i, true),
    decreases i,
{
    assert forall|j: int| 0 <= j < a.node_count() implies #[trigger] a.key(j) == b.key(j) by {
        assert(a.hash_at(j) == b.hash_at(j));
    }
    if i > 0 {
        assert(a.has_parent(i));
        let (p, s) = choose|p: int, s: bool| a.valid_index(p) && #[trigger] a.child(p, s) == Some(i as usize);
        assert(p < i);
        lemma_links_agree(a, b, p);
        assert(b.child(p, s) == Some(i as usize));
        assert(a.bounds@[p] == b.bounds@[p]);
        assert(a.key(p) == b.key(p));
        assert(a.slot_lo(p, s) == b.slot_lo(p, s) && a.slot_hi(p, s) == b.slot_hi(p, s));
        assert(a.lo(i) == b.lo(i) && a.hi(i) == b.hi(i));
    } else {
        assert(a.lo(0) == b.lo(0) && a.hi(0) == b.hi(0));
    }
    assert(a.key(i) == b.key(i));
    lemma_slot_agrees(a, b, i, false);
    lemma_slot_agrees(a, b, i, true);
}

/// With equal hashes and equal intervals at node `i`, slot `(i, s)` holds
/// the same child in both caches.
proof fn lemma_slot_agrees(a: &FileCache, b: &FileCache, i: int, s: bool)
    requires
        a.wf(),
        b.wf(),
        a.node_count() == b.node_count(),
        forall|j: int| 0 <= j < a.node_count() ==> #[trigger] a.key(j) == b.key(j),
        0 <= i < a.node_count(),
        a.bounds@[i] == b.bounds@[i],
    ensures
        a.child(i, s) == b.child(i, s),
{
    a.lemma_child_first_in_slot(i, s);
    b.lemma_child_first_in_slot(i, s);
    assert(a.slot_lo(i, s) == b.slot_lo(i, s) && a.slot_hi(i, s) == b.slot_hi(i, s));
    if a.child(i, s) is Some {
        let c = a.child(i, s)->0 as int;
        assert(b.key(c) == a.key(c));
        assert(b.child(i, s) is Some);
        let d = b.child(i, s)->0 as int;
        assert(a.key(d) == b.key(d));
        assert(c <= d && d <= c);
    } else if b.child(i, s) is Some {
        let d = b.child(i, s)->0 as int;
        assert(a.key(d) == b.key(d));
    }
}

/// The links of a cache follow from the hashes of its nodes and their
/// order: two caches whose nodes hold the same hashes in the same order have
/// the same child links (so a tree rebuilt from published records has the
/// publisher's links, and the same teardown order).
pub proof fn law_same_hashes_same_links(a: &FileCache, b: &FileCache)
    requires
        a.wf(),
        b.wf(),
        a.node_count() == b.node_count(),
        forall|j: int| 0 <= j < a.node_count() ==> #[trigger] a.hash_at(j) == b.hash_at(j),
    ensures
        forall|i: int, s: bool| 0 <= i < a.node_count() ==> #[trigger] a.child(i, s) == b.child(i, s),
{
    assert forall|i: int, s: bool| 0 <= i < a.node_count() implies #[trigger] a.child(i, s) == b.child(i, s) by {
        lemma_links_agree(a, b, i);
    }
}

/// With distinct hashes, the contents of a replayed cache hold each file of
/// `es` with its own contents and load time, and nothing else.
proof fn lemma_entries_map(es: Seq<(u64, u128)>, ds: Seq<Seq<char>>)
    requires
        es.len() == ds.len(),
        distinct_hashes(es),
    ensures
        forall|h: u64| #[trigger] entries_map(es, ds).contains_key(h) <==> exists|j: int| 0 <= j < es.len() && #[trigger] es[j].0 == h,
        forall|j: int| 0 <= j < es.len() ==> entries_map(es, ds).contains_key(#[trigger] es[j].0) && entries_map(es, ds)[es[j].0] == (ds[j], es[j].1),
    decreases es.len(),
{
    if es.len() > 0 {
        let e2 = es.drop_last();
        let d2 = ds.drop_last();
        let n = es.len() - 1;
        assert forall|a: int, b: int| 0 <= a < e2.len() && 0 <= b < e2.len() && a != b implies e2[a].0 != e2[b].0 by {
            assert(es[a] == e2[a] && es[b] == e2[b]);
        }
        lemma_entries_map(e2, d2);
        let m = entries_map(es, ds);
        assert(m == entries_map(e2, d2).insert(es[n].0, (ds[n], es[n].1)));
        assert forall|h: u64| #[trigger] m.contains_key(h) <==> exists|j: int| 0 <= j < es.len() && #[trigger] es[j].0 == h by {
            if m.contains_key(h) && h != es[n].0 {
                let j = choose|j: int| 0 <= j < e2.len() && #[trigger] e2[j].0 == h;
                assert(es[j] == e2[j]);
            }
            if exists|j: int| 0 <= j < es.len() && #[trigger] es[j].0 == h {
                let j = choose|j: int| 0 <= j < es.len() && #[trigger] es[j].0 == h;
                if j < n {
                    assert(es[j] == e2[j]);
                }
            }
        }
        assert forall|j: int| 0 <= j < es.len() implies m.contains_key(#[trigger] es[j].0) && m[es[j].0] == (ds[j], es[j].1) by {
            if j < n {
                assert(es[j] == e2[j] && ds[j] == d2[j]);
                assert(es[j].0 != es[n].0);
            }
        }
    }
}

impl CacheLookup {
    /// The outcome this answer stands for.
    pub open spec fn outcome(&self) -> LookupOutcome {
        match self {
            CacheLookup::Hit(d) => LookupOutcome::Hit(d@),
            CacheLookup::Stale => LookupOutcome::Stale,
            CacheLookup::Miss => LookupOutcome::Miss,
        }
    }
}

impl FileCache {
    spec fn key(&self, i: int) -> int {
        self.nodes@[i].hash as int
    }

    spec fn lo(&self, i: int) -> int {
        self.bounds@[i].0
    }

    spec fn hi(&self, i: int) -> int {
        self.bounds@[i].1
    }

    /// The left (`right == false`) or right child of node `i`.
    pub closed spec fn child(&self, i: int, right: bool) -> Option<usize> {
        if right {
            self.nodes@[i].right
        } else {
            self.nodes@[i].left
        }
    }

    /// Lower end of the interval of the left (`right == false`) or right slot of node `i`.
    spec fn slot_lo(&self, i: int, right: bool) -> int {
        if right {
            self.key(i)
        } else {
            self.lo(i)
        }
    }

    /// Upper end of the interval of a slot of node `i`.
    spec fn slot_hi(&self, i: int, right: bool) -> int {
        if right {
            self.hi(i)
        } else {
            self.key(i)
        }
    }

    spec fn valid_index(&self, i: int) -> bool {
        0 <= i < self.nodes@.len()
    }

    /// Number of cached files.
    pub closed spec fn node_count(&self) -> nat {
        self.nodes@.len()
    }

    /// The capacity the cache was made with.
    pub closed spec fn capacity(&self) -> nat {
        self.max_nodes as nat
    }

    /// The search-tree invariant.
    pub closed spec fn wf(&self) -> bool {
        &&& self.nodes@.len() <= self.max_nodes
        &&& self.bounds@.len() == self.nodes@.len()
        &&& forall|i: int|
            #![trigger self.bounds@[i]]
            self.valid_index(i) ==> -1 <= self.lo(i) < self.key(i) < self.hi(i) <= 0x1_0000_0000_0000_0000
        &&& self.nodes@.len() > 0 ==> self.lo(0) == -1 && self.hi(0) == 0x1_0000_0000_0000_0000
        &&& forall|i: int, right: bool|
            #![trigger self.child(i, right)]
            self.valid_index(i) && self.child(i, right) is Some ==> {
                let c = self.child(i, right)->0 as int;
                &&& i < c < self.nodes@.len()
                &&& self.lo(c) == self.slot_lo(i, right)
                &&& self.hi(c) == self.slot_hi(i, right)
            }
        &&& forall|i: int, right: bool, k: int|
            #![trigger self.child(i, right), self.key(k)]
            self.valid_index(i) && self.valid_index(k) && self.child(i, right) is None
                ==> !(self.slot_lo(i, right) < self.key(k) < self.slot_hi(i, right))
        &&& forall|i: int, j: int|
            #![trigger self.key(i), self.key(j)]
            self.valid_index(i) && self.valid_index(j) && i != j ==> self.key(i) != self.key(j)
        &&& forall|i: int, s: bool, j: int, t: bool|
            #![trigger self.child(i, s), self.child(j, t)]
            self.valid_index(i) && self.valid_index(j) && (i != j || s != t)
                && self.child(i, s) is None && self.child(j, t) is None
                ==> self.slot_hi(i, s) <= self.slot_lo(j, t) + 1 || self.slot_hi(j, t) <= self.slot_lo(i, s) + 1
        &&& forall|i: int, s: bool, j: int, t: bool|
            #![trigger self.child(i, s), self.child(j, t)]
            self.valid_index(i) && self.valid_index(j) && self.child(i, s) is Some
                && self.child(i, s) == self.child(j, t) ==> i == j && s == t
        &&& forall|c: int|
            #![trigger self.has_parent(c)]
            0 < c < self.nodes@.len() ==> self.has_parent(c)
        &&& forall|c: int, j: int|
            #![trigger self.lo(c), self.key(j)]
            self.valid_index(c) && 0 <= j < c ==> !(self.lo(c) < self.key(j) < self.hi(c))
    }

    spec fn has_parent(&self, c: int) -> bool {
        exists|i: int, s: bool| self.valid_index(i) && #[trigger] self.child(i, s) == Some(c as usize)
    }

    spec fn index_of(&self, h: u64) -> int {
        choose|i: int| self.valid_index(i) && self.nodes@[i].hash == h
    }

    /// The cached files: hash of the name to (contents, load time).
    pub closed spec fn view(&self) -> Map<u64, (Seq<char>, u128)> {
        Map::new(
            |h: u64| exists|i: int| self.valid_index(i) && self.nodes@[i].hash == h,
            |h: u64| {
                let i = self.index_of(h);
                (self.nodes@[i].data@, self.nodes@[i].load_time)
            },
        )
    }

    proof fn lemma_view_at(&self, i: int)
        requires
            self.wf(),
            self.valid_index(i),
        ensures
            self.view().contains_key(self.nodes@[i].hash),
            self.view()[self.nodes@[i].hash] == (self.nodes@[i].data@, self.nodes@[i].load_time),
    {
        let h = self.nodes@[i].hash;
        assert(self.valid_index(i) && self.nodes@[i].hash == h);
        let j = self.index_of(h);
        assert(self.key(i) == self.key(j));
    }

    /// An empty cache for at most `max_nodes` files.
    pub fn new(max_nodes: usize) -> (r: FileCache)
        ensures
            r.wf(),
            r.view() == Map::<u64, (Seq<char>, u128)>::empty(),
            r.capacity() == max_nodes,
            r.node_count() == 0,
    {
        let r = FileCache { nodes: Vec::new(), max_nodes, bounds: Ghost(Seq::empty()) };
        assert(r.view() =~= Map::<u64, (Seq<char>, u128)>::empty());
        r
    }

    /// An empty cache sized by the `nodes_count` setting, and the ids of the
    /// shared segments named by the `file_cache_name`,
    /// `file_cache_node_count_name` and `file_cache_counter_name` settings
    /// (each the hash of the name). All four settings must be present and
    /// `nodes_count` must be a `usize`.
    pub fn from_settings(settings: &Settings) -> (r: (FileCache, CacheSegments))
        requires
            settings.settings.wf(),
            settings.settings.view().contains_key(nodes_count_key()),
            parse_unsigned(settings.settings.view()[nodes_count_key()], usize::MAX as nat) is Some,
            settings.settings.view().contains_key(file_cache_name_key()),
            settings.settings.view().contains_key(node_count_name_key()),
            settings.settings.view().contains_key(counter_name_key()),
        ensures
            r.0.wf(),
            r.0.view() == Map::<u64, (Seq<char>, u128)>::empty(),
            r.0.node_count() == 0,
            parse_unsigned(settings.settings.view()[nodes_count_key()], usize::MAX as nat) == Some(
                r.0.capacity(),
            ),
            r.1.tree == str_hash(settings.settings.view()[file_cache_name_key()]),
            r.1.node_count == str_hash(settings.settings.view()[node_count_name_key()]),
            r.1.counter == str_hash(settings.settings.view()[counter_name_key()]),
    {
        let key = "nodes_count";
        let tree_key = "file_cache_name";
        let count_key = "file_cache_node_count_name";
        let counter_key = "file_cache_counter_name";
        proof {
            reveal_strlit("nodes_count");
            reveal_strlit("file_cache_name");
            reveal_strlit("file_cache_node_count_name");
            reveal_strlit("file_cache_counter_name");
        }
        assert(key@ =~= nodes_count_key());
        assert(tree_key@ =~= file_cache_name_key());
        assert(count_key@ =~= node_count_name_key());
        assert(counter_key@ =~= counter_name_key());
        let nodes_count = settings.get(key);
        let max_nodes = match parse_usize(nodes_count.as_str()) {
            Some(n) => n,
            None => 0,
        };
        let segments = CacheSegments {
            tree: get_hash(settings.get(tree_key).as_str()),
            node_count: get_hash(settings.get(count_key).as_str()),
            counter: get_hash(settings.get(counter_key).as_str()),
        };
        (FileCache::new(max_nodes), segments)
    }

    /// The capacity the cache was made with.
    pub fn max_nodes(&self) -> (r: usize)
        ensures
            r == self.capacity(),
    {
        self.max_nodes
    }

    /// Number of cached files.
    pub fn len(&self) -> (r: usize)
        ensures
            r == self.node_count(),
    {
        self.nodes.len()
    }

    /// Whether no further file can be added.
    pub fn is_full(&self) -> (r: bool)
        ensures
            r == (self.node_count() >= self.capacity()),
    {
        self.nodes.len() >= self.max_nodes
    }

    /// Where the search for `h` that starts at node `cur` ends: it goes to the
    /// left child when `h` is smaller than the node's hash and to the right
    /// child when it is larger, until it meets `h` or an empty child slot; the
    /// result is that node and the side of the empty slot.
    pub open spec fn search_end(&self, h: u64, cur: int) -> (int, bool)
        decreases self.node_count() - cur,
    {
        if cur < 0 || cur >= self.node_count() || self.hash_at(cur) == h {
            (cur, false)
        } else {
            let right = h > self.hash_at(cur);
            match self.child(cur, right) {
                Some(c) => if cur < c && c < self.node_count() {
                    self.search_end(h, c as int)
                } else {
                    (cur, right)
                },
                None => (cur, right),
            }
        }
    }

    /// Search from the root for `hash`: the node that holds it, or else the
    /// empty slot `(node, right)` whose interval contains it.
    fn search(&self, hash: u64) -> (r: (usize, bool, bool))
        requires
            self.wf(),
            self.nodes@.len() > 0,
        ensures
            self.valid_index(r.0 as int),
            r.2 ==> self.nodes@[r.0 as int].hash == hash,
            !r.2 ==> {
                &&& self.child(r.0 as int, r.1) is None
                &&& self.slot_lo(r.0 as int, r.1) < hash < self.slot_hi(r.0 as int, r.1)
                &&& forall|k: int| self.valid_index(k) ==> self.nodes@[k].hash != hash
                &&& (r.0 as int, r.1) == self.search_end(hash, 0)
            },
    {
        let mut cur: usize = 0;
        loop
            invariant
                self.wf(),
                self.valid_index(cur as int),
                self.lo(cur as int) < hash < self.hi(cur as int),
                self.search_end(hash, cur as int) == self.search_end(hash, 0),
            decreases self.nodes@.len() - cur,
        {
            let node = &self.nodes[cur];
            if node.hash == hash {
                return (cur, false, true);
            }
            let right = hash > node.hash;
            let next = if right {
                node.right
            } else {
                node.left
            };
            assert(next == self.child(cur as int, right));
            match next {
                Some(c) => {
                    cur = c;
                },
                None => {
                    assert forall|k: int| self.valid_index(k) implies self.nodes@[k].hash != hash by {
                        assert(self.key(k) == self.nodes@[k].hash);
                        assert(!(self.slot_lo(cur as int, right) < self.key(k) < self.slot_hi(
                            cur as int,
                            right,
                        )));
                    }
                    return (cur, right, false);
                },
            }
        }
    }

    /// The index of the node that holds `hash`, if any.
    fn find(&self, hash: u64) -> (r: Option<usize>)
        requires
            self.wf(),
        ensures
            match r {
                Some(i) => self.valid_index(i as int) && self.nodes@[i as int].hash == hash,
                None => !self.view().contains_key(hash),
            },
    {
        if self.nodes.len() == 0 {
            return None;
        }
        let (i, _right, found) = self.search(hash);
        if found {
            Some(i)
        } else {
            None
        }
    }

    /// The hash of the file held by node `i`.
    pub closed spec fn hash_at(&self, i: int) -> u64 {
        self.nodes@[i].hash
    }

    /// The hash and the load time of each node, in node order.
    pub closed spec fn entry_seq(&self) -> Seq<(u64, u128)> {
        Seq::new(self.nodes@.len(), |i: int| (self.nodes@[i].hash, self.nodes@[i].load_time))
    }

    /// The contents of each node, in node order.
    pub closed spec fn data_seq(&self) -> Seq<Seq<char>> {
        Seq::new(self.nodes@.len(), |i: int| self.nodes@[i].data@)
    }

    /// The hash and the load time of each node, in node order: the form in
    /// which the tree is shared with the other handles.
    pub fn entries(&self) -> (r: Vec<(u64, u128)>)
        ensures
            r@ == self.entry_seq(),
    {
        let mut r: Vec<(u64, u128)> = Vec::new();
        let mut i: usize = 0;
        while i < self.nodes.len()
            invariant
                i <= self.nodes@.len(),
                r@ == self.entry_seq().take(i as int),
            decreases self.nodes@.len() - i,
        {
            r.push((self.nodes[i].hash, self.nodes[i].load_time));
            assert(r@ =~= self.entry_seq().take(i + 1));
            i += 1;
        }
        assert(r@ =~= self.entry_seq());
        r
    }

    /// The cache that results from adding, in order, the files with the
    /// hashes and load times of `entries` and the contents `data`: `None`
    /// when the lists differ in length, hold more than `max_nodes` files or
    /// name a hash twice.
    pub fn rebuild(max_nodes: usize, entries: &Vec<(u64, u128)>, data: &Vec<String>) -> (r: Option<FileCache>)
        ensures
            r is Some <==> (entries.len() <= max_nodes && data.len() == entries.len() && distinct_hashes(entries@)),
            r matches Some(c) ==> {
                &&& c.wf()
                &&& c.capacity() == max_nodes
                &&& c.entry_seq() == entries@
                &&& c.data_seq() == data@.map_values(|d: String| d@)
                &&& c.view() == entries_map(entries@, data@.map_values(|d: String| d@))
            },
    {
        let ghost ds = data@.map_values(|d: String| d@);
        if entries.len() > max_nodes || data.len() != entries.len() {
            return None;
        }
        let mut c = FileCache::new(max_nodes);
        let mut i: usize = 0;
        while i < entries.len()
            invariant
                i <= entries.len(),
                entries.len() <= max_nodes,
                data.len() == entries.len(),
                ds == data@.map_values(|d: String| d@),
                c.wf(),
                c.capacity() == max_nodes,
                c.node_count() == i,
                c.entry_seq() == entries@.take(i as int),
                c.data_seq() == ds.take(i as int),
                c.view() == entries_map(entries@.take(i as int), ds.take(i as int)),
                distinct_hashes(entries@.take(i as int)),
            decreases entries.len() - i,
        {
            let (h, t) = entries[i];
            match c.node_index(h) {
                Some(k) => {
                    proof {
                        assert(c.entry_seq()[k as int].0 == c.hash_at(k as int));
                        assert(entries@[k as int].0 == entries@[i as int].0);
                    }
                    return None;
                },
                None => {},
            }
            proof {
                assert forall|j: int| 0 <= j < i implies #[trigger] entries@[j].0 != h by {
                    assert(c.entry_seq()[j] == entries@[j]);
                    if entries@[j].0 == h {
                        assert(c.valid_index(j) && c.nodes@[j].hash == h);
                    }
                }
            }
            let d = data[i].clone();
            let ghost pre = c;
            c.insert(h, d, t);
            proof {
                let e1 = entries@.take(i + 1);
                let d1 = ds.take(i + 1);
                assert(e1.drop_last() =~= entries@.take(i as int));
                assert(d1.drop_last() =~= ds.take(i as int));
                assert(e1.last() == (h, t));
                assert(d1.last() == data@[i as int]@);
                assert(c.entry_seq() =~= e1);
                assert(c.data_seq() =~= d1);
                assert(distinct_hashes(e1)) by {
                    assert forall|a: int, b: int| 0 <= a < e1.len() && 0 <= b < e1.len() && a != b implies e1[a].0 != e1[b].0 by {
                        if a < i && b < i {
                            assert(entries@.take(i as int)[a] == e1[a]);
                            assert(entries@.take(i as int)[b] == e1[b]);
                        }
                    }
                }
            }
            i += 1;
        }
        proof {
            assert(entries@.take(entries.len() as int) =~= entries@);
            assert(ds.take(entries.len() as int) =~= ds);
        }
        Some(c)
    }

    /// The node that holds `hash`, if any. Nodes are numbered in the order
    /// their files were added.
    pub fn node_index(&self, hash: u64) -> (r: Option<usize>)
        requires
            self.wf(),
        ensures
            match r {
                Some(i) => i < self.node_count() && self.hash_at(i as int) == hash,
                None => !self.view().contains_key(hash),
            },
    {
        self.find(hash)
    }

    /// Looks `hash` up at time `now`: the contents if cached and fresh,
    /// `Stale` if cached for at least `reload_period`, `Miss` if not cached.
    pub fn lookup(&self, hash: u64, now: u128, reload_period: Option<u128>) -> (r: CacheLookup)
        requires
            self.wf(),
        ensures
            r.outcome() == lookup_outcome(self.view(), hash, now, reload_period),
    {
        match self.find(hash) {
            None => CacheLookup::Miss,
            Some(i) => {
                proof {
                    self.lemma_view_at(i as int);
                }
                let node = &self.nodes[i];
                let fresh = match reload_period {
                    None => true,
                    Some(p) => {
                        let passed = if now >= node.load_time {
                            now - node.load_time
                        } else {
                            0
                        };
                        passed < p
                    },
                };
                if fresh {
                    CacheLookup::Hit(node.data.clone())
                } else {
                    CacheLookup::Stale
                }
            },
        }
    }

    /// The cached contents for `hash`, whatever their age.
    pub fn get(&self, hash: u64) -> (r: Option<String>)
        requires
            self.wf(),
        ensures
            match r {
                Some(d) => self.view().contains_key(hash) && d@ == self.view()[hash].0,
                None => !self.view().contains_key(hash),
            },
    {
        match self.lookup(hash, 0, None) {
            CacheLookup::Hit(d) => Some(d),
            _ => None,
        }
    }

    /// Adds the contents `data` of the file whose name hashes to `hash`,
    /// loaded at `now`, as a new last node. The cache must have room and must
    /// not hold `hash`. The new node becomes the root of an empty cache;
    /// otherwise it fills the empty child slot where the search for `hash`
    /// ends, and no other link changes.
    pub fn insert(&mut self, hash: u64, data: String, now: u128)
        requires
            old(self).wf(),
            old(self).node_count() < old(self).capacity(),
            !old(self).view().contains_key(hash),
        ensures
            final(self).wf(),
            final(self).capacity() == old(self).capacity(),
            final(self).view() == old(self).view().insert(hash, (data@, now)),
            final(self).node_count() == old(self).node_count() + 1,
            final(self).hash_at(old(self).node_count() as int) == hash,
            forall|i: int| 0 <= i < old(self).node_count() ==> #[trigger] final(self).hash_at(i) == old(self).hash_at(i),
            final(self).entry_seq() == old(self).entry_seq().push((hash, now)),
            final(self).data_seq() == old(self).data_seq().push(data@),
            final(self).child(old(self).node_count() as int, false) is None,
            final(self).child(old(self).node_count() as int, true) is None,
            old(self).node_count() > 0 ==> ({
                let (p, side) = old(self).search_end(hash, 0);
                &&& 0 <= p < old(self).node_count()
                &&& old(self).child(p, side) is None
                &&& final(self).child(p, side) == Some(old(self).node_count() as usize)
                &&& forall|j: int, t: bool|
                    0 <= j < old(self).node_count() && (j != p || t != side) ==> #[trigger] final(self).child(j, t)
                        == old(self).child(j, t)
            }),
    {
        let n = self.nodes.len();
        let ghost d = data@;
        if n == 0 {
            self.nodes.push(CacheNode { hash, left: None, right: None, data, load_time: now });
            proof {
                self.bounds@ = seq![(-1int, 0x1_0000_0000_0000_0000int)];
                assert(self.bounds@[0] == (-1int, 0x1_0000_0000_0000_0000int));
                assert(self.wf());
                self.lemma_view_at(0);
                assert(self.view() =~= old(self).view().insert(hash, (d, now)));
                assert(self.entry_seq() =~= old(self).entry_seq().push((hash, now)));
                assert(self.data_seq() =~= old(self).data_seq().push(d));
            }
            return;
        }
        let (i, right, found) = self.search(hash);
        if found {
            proof {
                self.lemma_view_at(i as int);
            }
            assert(false);
            return;
        }
        assert forall|k: int| 0 <= k < n implies #[trigger] old(self).nodes@[k].hash != hash by {
            assert(self.valid_index(k));
            assert(self.nodes@[k] == old(self).nodes@[k]);
        }
        let ghost new_lo = self.slot_lo(i as int, right);
        let ghost new_hi = self.slot_hi(i as int, right);
        self.nodes.push(CacheNode { hash, left: None, right: None, data, load_time: now });
        if right {
            self.nodes[i].right = Some(n);
        } else {
            self.nodes[i].left = Some(n);
        }
        proof {
            self.bounds@ = self.bounds@.push((new_lo, new_hi));
            let pre = old(self);
            assert forall|j: int| 0 <= j < n implies #[trigger] self.nodes@[j].hash == pre.nodes@[j].hash
                && self.nodes@[j].data == pre.nodes@[j].data
                && self.nodes@[j].load_time == pre.nodes@[j].load_time
                && self.bounds@[j] == pre.bounds@[j] by {}
            assert(self.bounds@[n as int] == (new_lo, new_hi));
            assert forall|j: int, s: bool|
                #![trigger self.child(j, s)]
                0 <= j < n && (j != i || s != right) implies self.child(j, s) == pre.child(j, s) by {}
            assert(self.child(i as int, right) == Some(n));
            assert(self.child(n as int, false) is None);
            assert(self.child(n as int, true) is None);
            assert forall|k: int| self.valid_index(k) && k != n implies #[trigger] self.key(k) != hash by {
                assert(pre.nodes@[k].hash != hash);
            }
            self.lemma_insert_wf(pre, i as int, right, n as int);
            self.lemma_view_at(n as int);
            assert forall|h: u64| #[trigger] self.view().contains_key(h) == pre.view().insert(hash, (d, now)).contains_key(h) by {
                if h != hash {
                    if pre.view().contains_key(h) {
                        let j = choose|j: int| pre.valid_index(j) && pre.nodes@[j].hash == h;
                        self.lemma_view_at(j);
                    }
                    if self.view().contains_key(h) {
                        let j = choose|j: int| self.valid_index(j) && self.nodes@[j].hash == h;
                        pre.lemma_view_at(j);
                    }
                }
            }
            assert forall|h: u64| #[trigger] self.view().contains_key(h) && h != hash
                implies self.view()[h] == pre.view()[h] by {
                let j = choose|j: int| self.valid_index(j) && self.nodes@[j].hash == h;
                self.lemma_view_at(j);
                pre.lemma_view_at(j);
            }
            assert(self.view() =~= pre.view().insert(hash, (d, now)));
            assert(self.entry_seq() =~= pre.entry_seq().push((hash, now)));
            assert(self.data_seq() =~= pre.data_seq().push(d));
        }
    }

    proof fn lemma_insert_wf(&self, pre: &FileCache, i: int, right: bool, n: int)
        requires
            pre.wf(),
            n == pre.nodes@.len(),
            n < pre.max_nodes,
            self.max_nodes == pre.max_nodes,
            self.nodes@.len() == n + 1,
            self.bounds@.len() == n + 1,
            0 <= i < n,
            pre.child(i, right) is None,
            pre.slot_lo(i, right) < self.nodes@[n].hash < pre.slot_hi(i, right),
            self.bounds@[n] == (pre.slot_lo(i, right), pre.slot_hi(i, right)),
            forall|j: int| 0 <= j < n ==> #[trigger] self.nodes@[j].hash == pre.nodes@[j].hash
                && self.bounds@[j] == pre.bounds@[j],
            forall|j: int, s: bool|
                #![trigger self.child(j, s)]
                0 <= j < n && (j != i || s != right) ==> self.child(j, s) == pre.child(j, s),
            self.child(i, right) == Some(n as usize),
            self.child(n, false) is None,
            self.child(n, true) is None,
            forall|k: int| 0 <= k < n ==> #[trigger] pre.key(k) != self.nodes@[n].hash,
        ensures
            self.wf(),
    {
        assert forall|a: int, s: bool, b: int, t: bool|
            #![trigger self.child(a, s), self.child(b, t)]
            self.valid_index(a) && self.valid_index(b) && self.child(a, s) is Some && self.child(a, s)
                == self.child(b, t) implies a == b && s == t by {
            if a == n {
            } else if b == n {
            } else if a == i && s == right {
                if b != i || t != right {
                    assert(pre.child(b, t) == self.child(b, t));
                }
            } else if b == i && t == right {
                assert(pre.child(a, s) == self.child(a, s));
            } else {
                assert(pre.child(a, s) == self.child(a, s));
                assert(pre.child(b, t) == self.child(b, t));
            }
        }
        assert forall|c: int| 0 < c < self.nodes@.len() implies #[trigger] self.has_parent(c) by {
            if c == n {
                assert(self.child(i, right) == Some(c as usize));
            } else {
                assert(pre.has_parent(c));
                let (a, s) = choose|a: int, s: bool| pre.valid_index(a) && #[trigger] pre.child(a, s)
                    == Some(c as usize);
                if a == i && s == right {
                } else {
                    assert(self.child(a, s) == pre.child(a, s));
                }
            }
        }
        let h = self.nodes@[n].hash as int;
        assert forall|j: int| 0 <= j < n implies #[trigger] self.key(j) == pre.key(j) && self.lo(j) == pre.lo(j)
            && self.hi(j) == pre.hi(j) by {
            assert(self.nodes@[j].hash == pre.nodes@[j].hash);
        }
        assert forall|j: int, s: bool| 0 <= j < n implies #[trigger] self.slot_lo(j, s) == pre.slot_lo(j, s)
            && self.slot_hi(j, s) == pre.slot_hi(j, s) by {
            assert(self.key(j) == pre.key(j));
        }
        assert forall|j: int|
            #![trigger self.bounds@[j]]
            self.valid_index(j) implies -1 <= self.lo(j) < self.key(j) < self.hi(j) <= 0x1_0000_0000_0000_0000 by {
            if j < n {
                assert(pre.bounds@[j] == pre.bounds@[j]);
                assert(self.key(j) == pre.key(j));
            } else {
                assert(pre.bounds@[i] == pre.bounds@[i]);
            }
        }
        assert(self.key(0) == pre.key(0));
        assert forall|j: int, s: bool|
            #![trigger self.child(j, s)]
            self.valid_index(j) && self.child(j, s) is Some implies {
                let c = self.child(j, s)->0 as int;
                &&& j < c < self.nodes@.len()
                &&& self.lo(c) == self.slot_lo(j, s)
                &&& self.hi(c) == self.slot_hi(j, s)
            } by {
            if j < n {
                if j != i || s != right {
                    assert(pre.child(j, s) == self.child(j, s));
                    let c = self.child(j, s)->0 as int;
                    assert(self.key(c) == pre.key(c));
                    assert(self.slot_lo(j, s) == pre.slot_lo(j, s));
                }
            }
        }
        assert forall|j: int, s: bool, k: int|
            #![trigger self.child(j, s), self.key(k)]
            self.valid_index(j) && self.valid_index(k) && self.child(j, s) is None
                implies !(self.slot_lo(j, s) < self.key(k) < self.slot_hi(j, s)) by {
            if j < n {
                assert(pre.child(j, s) is None);
                assert(self.slot_lo(j, s) == pre.slot_lo(j, s));
                if k < n {
                    assert(self.key(k) == pre.key(k));
                    assert(!(pre.slot_lo(j, s) < pre.key(k) < pre.slot_hi(j, s)));
                } else {
                    // the new hash lies in the filled slot, which is disjoint from this one
                    assert(pre.child(i, right) is None);
                    assert(pre.slot_hi(j, s) <= pre.slot_lo(i, right) + 1 || pre.slot_hi(i, right)
                        <= pre.slot_lo(j, s) + 1);
                }
            } else {
                // a slot of the new node lies inside the filled slot, which held no key
                if k < n {
                    assert(self.key(k) == pre.key(k));
                    assert(!(pre.slot_lo(i, right) < pre.key(k) < pre.slot_hi(i, right)));
                }
            }
        }
        assert forall|a: int, b: int|
            #![trigger self.key(a), self.key(b)]
            self.valid_index(a) && self.valid_index(b) && a != b implies self.key(a) != self.key(b) by {
            if a < n && b < n {
                assert(pre.key(a) != pre.key(b));
            } else if a < n {
                assert(pre.key(a) != h);
            } else {
                assert(pre.key(b) != h);
            }
        }
        assert forall|a: int, s: bool, b: int, t: bool|
            #![trigger self.child(a, s), self.child(b, t)]
            self.valid_index(a) && self.valid_index(b) && (a != b || s != t) && self.child(a, s) is None
                && self.child(b, t) is None implies self.slot_hi(a, s) <= self.slot_lo(b, t) + 1
                || self.slot_hi(b, t) <= self.slot_lo(a, s) + 1 by {
            if a < n && b < n {
                assert(pre.child(a, s) is None && pre.child(b, t) is None);
            } else if a < n {
                assert(pre.child(a, s) is None);
                assert(pre.child(i, right) is None);
                assert(a != i || s != right);
                assert(pre.slot_hi(a, s) <= pre.slot_lo(i, right) + 1 || pre.slot_hi(i, right)
                    <= pre.slot_lo(a, s) + 1);
            } else if b < n {
                assert(pre.child(b, t) is None);
                assert(pre.child(i, right) is None);
                assert(b != i || t != right);
                assert(pre.slot_hi(b, t) <= pre.slot_lo(i, right) + 1 || pre.slot_hi(i, right)
                    <= pre.slot_lo(b, t) + 1);
            }
        }
    }

    /// Replaces the contents cached for `hash` with `data`, reloaded at `now`.
    /// Returns whether `hash` was cached; the cache is unchanged otherwise.
    pub fn refresh(&mut self, hash: u64, data: String, now: u128) -> (r: bool)
        requires
            old(self).wf(),
        ensures
            final(self).wf(),
            final(self).capacity() == old(self).capacity(),
            final(self).node_count() == old(self).node_count(),
            r == old(self).view().contains_key(hash),
            r ==> final(self).view() == old(self).view().insert(hash, (data@, now)),
            !r ==> final(self).view() == old(self).view(),
            forall|i: int| 0 <= i < old(self).node_count() ==> #[trigger] final(self).hash_at(i) == old(self).hash_at(i),
            forall|i: int, s: bool|
                0 <= i < old(self).node_count() ==> #[trigger] final(self).child(i, s) == old(self).child(i, s),
            final(self).entry_seq().len() == old(self).entry_seq().len(),
            final(self).data_seq().len() == old(self).data_seq().len(),
            forall|i: int|
                0 <= i < old(self).node_count() ==> #[trigger] final(self).entry_seq()[i] == (if old(self).hash_at(i)
                    == hash {
                    (hash, now)
                } else {
                    old(self).entry_seq()[i]
                }),
            forall|i: int|
                0 <= i < old(self).node_count() ==> #[trigger] final(self).data_seq()[i] == (if old(self).hash_at(i)
                    == hash {
                    data@
                } else {
                    old(self).data_seq()[i]
                }),
    {
        match self.find(hash) {
            None => {
                assert forall|j: int| 0 <= j < self.nodes@.len() implies self.nodes@[j].hash != hash by {
                    if self.nodes@[j].hash == hash {
                        assert(self.valid_index(j) && self.nodes@[j].hash == hash);
                    }
                }
                false
            },
            Some(i) => {
                let ghost d = data@;
                self.nodes[i].data = data;
                self.nodes[i].load_time = now;
                proof {
                    let pre = old(self);
                    assert forall|j: int| 0 <= j < self.nodes@.len() implies #[trigger] self.nodes@[j].hash
                        == pre.nodes@[j].hash && self.nodes@[j].left == pre.nodes@[j].left
                        && self.nodes@[j].right == pre.nodes@[j].right by {}
                    assert forall|j: int| #![trigger self.key(j)] 0 <= j < self.nodes@.len() implies self.key(j) == pre.key(j) by {}
                    assert forall|j: int, s: bool| #![trigger self.child(j, s)] 0 <= j < self.nodes@.len() implies self.child(j, s) == pre.child(j, s) by {}
                    assert forall|j: int| #![trigger self.bounds@[j]] 0 <= j < self.nodes@.len() implies self.bounds@[j] == pre.bounds@[j] by {}
                    assert forall|c: int| 0 < c < self.nodes@.len() implies #[trigger] self.has_parent(c) by {
                        assert(pre.has_parent(c));
                        let (a, s) = choose|a: int, s: bool| pre.valid_index(a) && #[trigger] pre.child(a, s)
                            == Some(c as usize);
                        assert(self.child(a, s) == pre.child(a, s));
                    }
                    assert(self.wf());
                    pre.lemma_view_at(i as int);
                    self.lemma_view_at(i as int);
                    assert forall|h: u64| #[trigger] self.view().contains_key(h) == pre.view().contains_key(h) by {
                        if pre.view().contains_key(h) {
                            let j = choose|j: int| pre.valid_index(j) && pre.nodes@[j].hash == h;
                            self.lemma_view_at(j);
                        }
                        if self.view().contains_key(h) {
                            let j = choose|j: int| self.valid_index(j) && self.nodes@[j].hash == h;
                            pre.lemma_view_at(j);
                        }
                    }
                    assert forall|h: u64| #[trigger] self.view().contains_key(h) && h != hash
                        implies self.view()[h] == pre.view()[h] by {
                        let j = choose|j: int| self.valid_index(j) && self.nodes@[j].hash == h;
                        self.lemma_view_at(j);
                        pre.lemma_view_at(j);
                        assert(j != i);
                    }
                    assert(self.view() =~= pre.view().insert(hash, (d, now)));
                    assert forall|j: int| 0 <= j < pre.node_count() && pre.hash_at(j) == hash implies j == i by {
                        if j != i {
                            assert(pre.key(j) != pre.key(i as int));
                        }
                    }
                    assert forall|j: int| 0 <= j < pre.node_count() implies #[trigger] self.entry_seq()[j] == (if pre.hash_at(j) == hash {
                        (hash, now)
                    } else {
                        pre.entry_seq()[j]
                    }) && self.data_seq()[j] == (if pre.hash_at(j) == hash {
                        d
                    } else {
                        pre.data_seq()[j]
                    }) by {
                        if j != i {
                            assert(self.nodes@[j] == pre.nodes@[j]);
                        }
                    }
                }
                true
            },
        }
    }

    /// The first step of fetching a file: its contents if they are cached
    /// and fresh; `Reload` if they are cached but older than
    /// `reload_period`; `Load` if the file is not cached.
    pub fn begin_fetch(&self, hash: u64, now: u128, reload_period: Option<u128>) -> (r: Fetch)
        requires
            self.wf(),
        ensures
            match r {
                Fetch::Answer(d) => lookup_outcome(self.view(), hash, now, reload_period) == LookupOutcome::Hit(d@),
                Fetch::Reload => lookup_outcome(self.view(), hash, now, reload_period) == LookupOutcome::Stale,
                Fetch::Load => lookup_outcome(self.view(), hash, now, reload_period) == LookupOutcome::Miss,
            },
    {
        match self.lookup(hash, now, reload_period) {
            CacheLookup::Hit(d) => Fetch::Answer(d),
            CacheLookup::Stale => Fetch::Reload,
            CacheLookup::Miss => Fetch::Load,
        }
    }

    /// Loading a file into the cache once it was opened and read at `now`
    /// (`contents` is `None` when it could not be opened): the contents are
    /// added and answered; an unreadable file leaves the cache unchanged and
    /// is answered with `None`. The cache must have room, and a file that
    /// was read must not be cached yet.
    pub fn load_file_to_cache(&mut self, hash: u64, contents: Option<String>, now: u128) -> (r: Option<String>)
        requires
            old(self).wf(),
            old(self).node_count() < old(self).capacity(),
            contents is Some ==> !old(self).view().contains_key(hash),
        ensures
            final(self).wf(),
            final(self).capacity() == old(self).capacity(),
            r == contents,
            forall|i: int| 0 <= i < old(self).node_count() ==> #[trigger] final(self).hash_at(i) == old(self).hash_at(i),
            match contents {
                Some(c) => {
                    &&& final(self).view() == old(self).view().insert(hash, (c@, now))
                    &&& final(self).node_count() == old(self).node_count() + 1
                    &&& final(self).hash_at(old(self).node_count() as int) == hash
                    &&& final(self).child(old(self).node_count() as int, false) is None
                    &&& final(self).child(old(self).node_count() as int, true) is None
                    &&& old(self).node_count() > 0 ==> ({
                        let (p, side) = old(self).search_end(hash, 0);
                        &&& 0 <= p < old(self).node_count()
                        &&& old(self).child(p, side) is None
                        &&& final(self).child(p, side) == Some(old(self).node_count() as usize)
                        &&& forall|j: int, t: bool|
                            0 <= j < old(self).node_count() && (j != p || t != side) ==> #[trigger] final(self).child(j, t)
                                == old(self).child(j, t)
                    })
                },
                None => {
                    &&& final(self).view() == old(self).view()
                    &&& final(self).node_count() == old(self).node_count()
                    &&& forall|i: int, s: bool|
                        0 <= i < old(self).node_count() ==> #[trigger] final(self).child(i, s) == old(self).child(i, s)
                },
            },
    {
        match contents {
            Some(c) => {
                let answer = c.clone();
                self.insert(hash, c, now);
                Some(answer)
            },
            None => None,
        }
    }

    /// The child in slot `(i, s)` is the earliest node whose hash lies in the
    /// slot's interval; the slot is empty when no hash lies there.
    proof fn lemma_child_first_in_slot(&self, i: int, s: bool)
        requires
            self.wf(),
            self.valid_index(i),
        ensures
            self.child(i, s) is None ==> forall|j: int|
                self.valid_index(j) ==> !(self.slot_lo(i, s) < #[trigger] self.key(j) < self.slot_hi(i, s)),
            self.child(i, s) is Some ==> {
                let c = self.child(i, s)->0 as int;
                &&& self.valid_index(c)
                &&& self.slot_lo(i, s) < self.key(c) < self.slot_hi(i, s)
                &&& forall|j: int|
                    self.valid_index(j) && self.slot_lo(i, s) < #[trigger] self.key(j) < self.slot_hi(i, s) ==> c <= j
            },
    {
        if self.child(i, s) is Some {
            let c = self.child(i, s)->0 as int;
            assert(self.bounds@[c] == self.bounds@[c]);
            assert forall|j: int|
                self.valid_index(j) && self.slot_lo(i, s) < #[trigger] self.key(j) < self.slot_hi(i, s) implies c <= j by {
                if j < c {
                    assert(!(self.lo(c) < self.key(j) < self.hi(c)));
                }
            }
        }
    }

    /// Replaying the nodes of a cache, in order and with their contents,
    /// gives back its contents: what one handle publishes of its tree,
    /// another rebuilds exactly (`rebuild` accepts it and returns a cache
    /// with the same contents).
    pub proof fn law_entries_restore(&self)
        requires
            self.wf(),
        ensures
            distinct_hashes(self.entry_seq()),
            self.entry_seq().len() <= self.capacity(),
            self.data_seq().len() == self.entry_seq().len(),
            entries_map(self.entry_seq(), self.data_seq()) == self.view(),
    {
        let es = self.entry_seq();
        let ds = self.data_seq();
        assert forall|i: int, j: int| 0 <= i < es.len() && 0 <= j < es.len() && i != j implies es[i].0 != es[j].0 by {
            assert(self.key(i) != self.key(j));
        }
        lemma_entries_map(es, ds);
        let m = entries_map(es, ds);
        assert forall|h: u64| #[trigger] m.contains_key(h) <==> self.view().contains_key(h) by {
            if m.contains_key(h) {
                let j = choose|j: int| 0 <= j < es.len() && #[trigger] es[j].0 == h;
                assert(self.valid_index(j) && self.nodes@[j].hash == h);
            }
            if self.view().contains_key(h) {
                let j = choose|j: int| self.valid_index(j) && self.nodes@[j].hash == h;
                assert(es[j].0 == h);
            }
        }
        assert forall|h: u64| #[trigger] m.contains_key(h) implies m[h] == self.view()[h] by {
            let j = choose|j: int| 0 <= j < es.len() && #[trigger] es[j].0 == h;
            self.lemma_view_at(j);
        }
        assert(m =~= self.view());
    }

    /// The number of cached files never exceeds the capacity.
    pub proof fn law_within_capacity(&self)
        requires
            self.wf(),
        ensures
            self.node_count() <= self.capacity(),
    {
    }

    /// The number of nodes is the number of distinct cached files.
    pub proof fn law_count_is_size(&self)
        requires
            self.wf(),
        ensures
            self.view().dom().finite(),
            self.view().len() == self.node_count(),
    {
        let n = self.nodes@.len() as int;
        let range = vstd::set_lib::set_int_range(0, n);
        let f = |i: int| self.nodes@[i].hash;
        vstd::set_lib::lemma_int_range(0, n);
        assert(vstd::relations::injective_on(f, range)) by {
            assert forall|a: int, b: int| range.contains(a) && range.contains(b) && #[trigger] f(a) == #[trigger] f(b)
                implies a == b by {
                if a != b {
                    assert(self.key(a) != self.key(b));
                }
            }
        }
        assert(range.map(f) =~= self.view().dom()) by {
            assert forall|h: u64| #[trigger] range.map(f).contains(h) <==> self.view().dom().contains(h) by {
                if self.view().dom().contains(h) {
                    let i = choose|i: int| self.valid_index(i) && self.nodes@[i].hash == h;
                    assert(range.contains(i) && f(i) == h);
                }
                if range.map(f).contains(h) {
                    let i = choose|i: int| range.contains(i) && f(i) == h;
                    assert(self.valid_index(i) && self.nodes@[i].hash == h);
                }
            }
        }
        vstd::set_lib::lemma_map_size(range, range.map(f), f);
    }

    /// The children of node `i` that exist, left before right.
    pub open spec fn children_of(&self, i: int) -> Seq<usize> {
        let l = match self.child(i, false) {
            Some(c) => seq![c],
            None => Seq::<usize>::empty(),
        };
        let r = match self.child(i, true) {
            Some(c) => seq![c],
            None => Seq::<usize>::empty(),
        };
        l + r
    }

    /// Breadth-first expansion: starting from the list `order` of which the
    /// first `head` nodes are expanded, expand up to `steps` more nodes, each
    /// appending its children to the list.
    pub open spec fn expand(&self, order: Seq<usize>, head: int, steps: nat) -> Seq<usize>
        decreases steps,
    {
        if steps == 0 || head < 0 || head >= order.len() {
            order
        } else {
            self.expand(order + self.children_of(order[head] as int), head + 1, (steps - 1) as nat)
        }
    }

    /// The indices of all nodes in breadth-first order from the root, the
    /// order in which the cache releases them when it is torn down: each node
    /// exactly once, the root first, every node after its parent.
    pub fn release_order(&self) -> (r: Vec<usize>)
        requires
            self.wf(),
        ensures
            r@.no_duplicates(),
            r@.len() == self.node_count(),
            forall|x: usize| (x as int) < self.node_count() ==> #[trigger] r@.contains(x),
            self.node_count() > 0 ==> r@[0] == 0,
            forall|p: int, q: int, s: bool|
                0 <= p < r@.len() && 0 <= q < r@.len() && #[trigger] self.child(r@[p] as int, s) == Some(
                    #[trigger] r@[q],
                ) ==> p < q,
            self.node_count() > 0 ==> r@ == self.expand(seq![0usize], 0, self.node_count()),
    {
        let mut order: Vec<usize> = Vec::new();
        if self.nodes.len() == 0 {
            return order;
        }
        order.push(0);
        let ghost mut pp: Seq<int> = seq![0int];
        let ghost mut ps: Seq<bool> = seq![false];
        let mut head: usize = 0;
        while head < order.len()
            invariant
                self.wf(),
                self.nodes@.len() > 0,
                head <= order@.len() <= self.nodes@.len(),
                order@.len() > 0,
                order@[0] == 0,
                pp.len() == order@.len(),
                ps.len() == order@.len(),
                order@.no_duplicates(),
                forall|q: int| 0 <= q < order@.len() ==> #[trigger] order@[q] < self.nodes@.len(),
                forall|q: int|
                    #![trigger pp[q]]
                    0 < q < order@.len() ==> 0 <= pp[q] < head && 0 <= pp[q] < q && self.child(
                        order@[pp[q]] as int,
                        ps[q],
                    ) == Some(order@[q]),
                forall|p: int, s: bool|
                    #![trigger self.child(order@[p] as int, s)]
                    0 <= p < head && self.child(order@[p] as int, s) is Some ==> order@.contains(
                        self.child(order@[p] as int, s)->0,
                    ),
                self.expand(order@, head as int, (self.nodes@.len() - head) as nat) == self.expand(
                    seq![0usize],
                    0,
                    self.nodes@.len() as nat,
                ),
            decreases self.nodes@.len() - head,
        {
            let x = order[head];
            let ghost before = order@;
            let left = self.nodes[x].left;
            let right = self.nodes[x].right;
            assert(left == self.child(x as int, false));
            assert(right == self.child(x as int, true));
            proof {
                self.lemma_child_not_listed(order@, pp, ps, head as int, false);
                self.lemma_child_not_listed(order@, pp, ps, head as int, true);
            }
            if let Some(l) = left {
                order.push(l);
                proof {
                    pp = pp.push(head as int);
                    ps = ps.push(false);
                    assert(order@ == before.push(l));
                    lemma_distinct_bounded(order@, self.nodes@.len());
                }
            }
            let ghost mid = order@;
            if let Some(r) = right {
                if let Some(l) = left {
                    assert(l != r);
                }
                assert(!mid.contains(r));
                order.push(r);
                proof {
                    pp = pp.push(head as int);
                    ps = ps.push(true);
                    assert(order@ == mid.push(r));
                    lemma_distinct_bounded(order@, self.nodes@.len());
                }
            }
            proof {
                assert(order@ =~= before + self.children_of(x as int));
                assert(head < self.nodes@.len());
                assert(self.expand(before, head as int, (self.nodes@.len() - head) as nat) == self.expand(
                    before + self.children_of(before[head as int] as int),
                    head + 1,
                    (self.nodes@.len() - head - 1) as nat,
                ));
                assert forall|p: int, s: bool|
                    #![trigger self.child(order@[p] as int, s)]
                    0 <= p < head + 1 && self.child(order@[p] as int, s) is Some implies order@.contains(
                        self.child(order@[p] as int, s)->0,
                    ) by {
                    if p < head {
                        let c = self.child(before[p] as int, s)->0;
                        let w = choose|w: int| 0 <= w < before.len() && before[w] == c;
                        assert(order@[w] == c);
                    } else if s {
                        assert(order@[order@.len() - 1] == right->0);
                    } else {
                        assert(order@[mid.len() - 1] == left->0);
                    }
                }
            }
            head += 1;
        }
        proof {
            assert forall|x: usize| (x as int) < self.nodes@.len() implies #[trigger] order@.contains(x) by {
                self.lemma_all_listed(order@, head as int, x as int);
            }
            lemma_distinct_bounded(order@, self.nodes@.len());
            lemma_cover_bounded(order@, self.nodes@.len());
            self.lemma_parents_listed_first(order@, pp, ps);
            assert(self.expand(order@, head as int, (self.nodes@.len() - head) as nat) == order@);
        }
        order
    }

    proof fn lemma_parents_listed_first(&self, order: Seq<usize>, pp: Seq<int>, ps: Seq<bool>)
        requires
            self.wf(),
            order.no_duplicates(),
            order.len() > 0,
            order[0] == 0,
            forall|q: int| 0 <= q < order.len() ==> #[trigger] order[q] < self.nodes@.len(),
            pp.len() == order.len(),
            ps.len() == order.len(),
            forall|q: int|
                #![trigger pp[q]]
                0 < q < order.len() ==> 0 <= pp[q] < q && self.child(order[pp[q]] as int, ps[q]) == Some(
                    order[q],
                ),
        ensures
            forall|p: int, q: int, s: bool|
                0 <= p < order.len() && 0 <= q < order.len() && #[trigger] self.child(order[p] as int, s)
                    == Some(#[trigger] order[q]) ==> p < q,
    {
        assert forall|p: int, q: int, s: bool|
            0 <= p < order.len() && 0 <= q < order.len() && #[trigger] self.child(order[p] as int, s)
                == Some(#[trigger] order[q]) implies p < q by {
            assert(self.valid_index(order[p] as int));
            if q == 0 {
            } else {
                let a = pp[q];
                assert(self.child(order[a] as int, ps[q]) == Some(order[q]));
                assert(self.valid_index(order[a] as int));
                assert(order[a] == order[p]);
            }
        }
    }

    /// A child of the node being expanded is not yet listed.
    proof fn lemma_child_not_listed(&self, order: Seq<usize>, pp: Seq<int>, ps: Seq<bool>, head: int, side: bool)
        requires
            self.wf(),
            0 <= head < order.len(),
            order[0] == 0,
            pp.len() == order.len(),
            ps.len() == order.len(),
            order.no_duplicates(),
            forall|q: int| 0 <= q < order.len() ==> #[trigger] order[q] < self.nodes@.len(),
            forall|q: int|
                #![trigger pp[q]]
                0 < q < order.len() ==> 0 <= pp[q] < head && pp[q] < q && self.child(
                    order[pp[q]] as int,
                    ps[q],
                ) == Some(order[q]),
        ensures
            self.child(order[head] as int, side) is Some ==> !order.contains(self.child(order[head] as int, side)->0),
    {
        let x = order[head] as int;
        if self.child(x, side) is Some {
            let c = self.child(x, side)->0;
            if order.contains(c) {
                let q = choose|q: int| 0 <= q < order.len() && order[q] == c;
                assert(self.child(x, side) is Some);
                if q == 0 {
                    assert(x < c);
                } else {
                    let p = pp[q];
                    assert(self.child(order[p] as int, ps[q]) == Some(c));
                    assert(order[p] as int == x);
                    assert(p != head);
                }
            }
        }
    }

    /// Every node is listed once every listed node has been expanded.
    proof fn lemma_all_listed(&self, order: Seq<usize>, head: int, i: int)
        requires
            self.wf(),
            head == order.len(),
            order.len() > 0,
            order[0] == 0,
            0 <= i < self.nodes@.len(),
            forall|p: int, s: bool|
                #![trigger self.child(order[p] as int, s)]
                0 <= p < head && self.child(order[p] as int, s) is Some ==> order.contains(
                    self.child(order[p] as int, s)->0,
                ),
        ensures
            order.contains(i as usize),
        decreases i,
    {
        if i == 0 {
            assert(order[0] == 0);
        } else {
            assert(self.has_parent(i));
            let (a, s) = choose|a: int, s: bool| self.valid_index(a) && #[trigger] self.child(a, s) == Some(i as usize);
            assert(a < i);
            self.lemma_all_listed(order, head, a);
            let p = choose|p: int| 0 <= p < order.len() && order[p] == a as usize;
            assert(self.child(order[p] as int, s) is Some);
        }
    }
}

/// The setting that sizes the cache: `"nodes_count"`.
pub open spec fn nodes_count_key() -> Seq<char> {
    seq!['n', 'o', 'd', 'e', 's', '_', 'c', 'o', 'u', 'n', 't']
}

/// The setting that names the tree segment: `"file_cache_name"`.
pub open spec fn file_cache_name_key() -> Seq<char> {
    seq!['f', 'i', 'l', 'e', '_', 'c', 'a', 'c', 'h', 'e', '_', 'n', 'a', 'm', 'e']
}

/// The setting that names the node count segment: `"file_cache_node_count_name"`.
pub open spec fn node_count_name_key() -> Seq<char> {
    seq![
        'f', 'i', 'l', 'e', '_', 'c', 'a', 'c', 'h', 'e', '_', 'n', 'o', 'd', 'e', '_', 'c', 'o', 'u', 'n', 't', '_',
        'n', 'a', 'm', 'e',
    ]
}

/// The setting that names the handle counter segment: `"file_cache_counter_name"`.
pub open spec fn counter_name_key() -> Seq<char> {
    seq![
        'f', 'i', 'l', 'e', '_', 'c', 'a', 'c', 'h', 'e', '_', 'c', 'o', 'u', 'n', 't', 'e', 'r', '_', 'n', 'a', 'm',
        'e',
    ]
}

/// Ids of the shared segments of a cache: the tree, the node count, and the
/// count of open handles.
pub struct CacheSegments {
    pub tree: u64,
    pub node_count: u64,
    pub counter: u64,
}

/// Opening a handle on the shared cache: the handle that finds the count at
/// zero initialises the shared mutex; the count goes up by one.
pub fn open_handle(count: i32) -> (r: (bool, i32))
    requires
        count < i32::MAX,
    ensures
        r == (count == 0, (count + 1) as i32),
{
    (count == 0, count + 1)
}

/// Closing a handle: the count goes down by one; the handle that brings it
/// to zero while files are cached releases all their segments.
pub fn close_handle(count: i32, node_count: i32) -> (r: (bool, i32))
    requires
        count > i32::MIN,
    ensures
        r == (count - 1 == 0 && node_count > 0, (count - 1) as i32),
{
    let after = count - 1;
    (after == 0 && node_count > 0, after)
}

/// Opening and then closing a handle leaves the count as it was.
pub proof fn law_open_close_restores(count: i32, node_count: i32)
    requires
        i32::MIN < count < i32::MAX,
    ensures
        ({
            let opened = (count + 1) as i32;
            (opened - 1) as i32 == count
        }),
{
}

/// A file just added or reloaded is found with the new contents while it is fresh.
pub proof fn law_lookup_after_store(
    m: Map<u64, (Seq<char>, u128)>,
    hash: u64,
    data: Seq<char>,
    load_time: u128,
    now: u128,
    reload_period: Option<u128>,
)
    requires
        is_fresh(load_time, now, reload_period),
    ensures
        lookup_outcome(m.insert(hash, (data, load_time)), hash, now, reload_period) == LookupOutcome::Hit(data),
{
}

/// Adding or reloading one file does not change what any other file's lookup answers.
pub proof fn law_store_keeps_others(
    m: Map<u64, (Seq<char>, u128)>,
    hash: u64,
    data: Seq<char>,
    load_time: u128,
    other: u64,
    now: u128,
    reload_period: Option<u128>,
)
    requires
        other != hash,
    ensures
        lookup_outcome(m.insert(hash, (data, load_time)), other, now, reload_period) == lookup_outcome(
            m,
            other,
            now,
            reload_period,
        ),
{
}

/// Without a reload period a cached file is always answered from the cache;
/// with a period of zero it is always read again.
pub proof fn law_reload_period_bounds(m: Map<u64, (Seq<char>, u128)>, hash: u64, now: u128)
    requires
        m.contains_key(hash),
    ensures
        lookup_outcome(m, hash, now, None) == LookupOutcome::Hit(m[hash].0),
        lookup_outcome(m, hash, now, Some(0)) == LookupOutcome::Stale,
{
}

/// A cached file is answered from the cache exactly while less time than the
/// reload period has passed since it was loaded, and is read again
/// (`Stale`) once the period has passed, whatever the period; if the clock
/// went back, no time has passed. A file that is not cached is a `Miss`.
pub proof fn law_reload_after_period(m: Map<u64, (Seq<char>, u128)>, hash: u64, now: u128, period: u128)
    ensures
        !m.contains_key(hash) ==> lookup_outcome(m, hash, now, Some(period)) == LookupOutcome::Miss,
        m.contains_key(hash) && now >= m[hash].1 && now - m[hash].1 >= period ==> lookup_outcome(
            m,
            hash,
            now,
            Some(period),
        ) == LookupOutcome::Stale,
        m.contains_key(hash) && now >= m[hash].1 && now - m[hash].1 < period ==> lookup_outcome(
            m,
            hash,
            now,
            Some(period),
        ) == LookupOutcome::Hit(m[hash].0),
        m.contains_key(hash) && now < m[hash].1 ==> lookup_outcome(m, hash, now, Some(period)) == (if period
            == 0 {
            LookupOutcome::Stale
        } else {
            LookupOutcome::Hit(m[hash].0)
        }),
{
}

/// A sequence of distinct indices below `n` has at most `n` elements.
proof fn lemma_distinct_bounded(s: Seq<usize>, n: nat)
    requires
        s.no_duplicates(),
        forall|q: int| 0 <= q < s.len() ==> #[trigger] s[q] < n,
    ensures
        s.len() <= n,
{
    let t = s.to_set();
    let f = |x: usize| x as int;
    s.unique_seq_to_set();
    vstd::seq_lib::seq_to_set_is_finite(s);
    assert(vstd::relations::injective_on(f, t));
    vstd::set_lib::lemma_map_size(t, t.map(f), f);
    assert forall|v: int| #[trigger] t.map(f).contains(v) implies vstd::set_lib::set_int_range(0, n as int).contains(v) by {
        let x = choose|x: usize| t.contains(x) && f(x) == v;
        let q = choose|q: int| 0 <= q < s.len() && s[q] == x;
    }
    vstd::set_lib::lemma_int_range(0, n as int);
    vstd::set_lib::lemma_len_subset(t.map(f), vstd::set_lib::set_int_range(0, n as int));
}

/// A sequence of at most `n` distinct indices that lists every index below
/// `n` has exactly `n` elements.
proof fn lemma_cover_bounded(s: Seq<usize>, n: nat)
    requires
        n <= usize::MAX,
        s.no_duplicates(),
        s.len() <= n,
        forall|x: usize| (x as int) < n ==> #[trigger] s.contains(x),
        forall|q: int| 0 <= q < s.len() ==> #[trigger] s[q] < n,
    ensures
        s.len() == n,
{
    let all = Seq::new(n, |i: int| i as usize);
    assert(all.no_duplicates());
    assert forall|q: int| 0 <= q < all.len() implies #[trigger] s.contains(all[q]) by {
        assert(s.contains(q as usize));
    }
    s.unique_seq_to_set();
    all.unique_seq_to_set();
    assert(all.to_set().subset_of(s.to_set()));
    vstd::set_lib::lemma_len_subset(all.to_set(), s.to_set());
}

} // verus!
