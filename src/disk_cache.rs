use vstd::multiset::Multiset;
use vstd::prelude::*;
use vstd::string::{StrSliceExecFns, StringExecFns};

use crate::memory_cache::{
    Entry, LruCache, all_entries, evicted, has_key, inserted, key_index, keys_distinct,
    lemma_distinct_remove, lemma_evicted_suffix, lemma_insert_replaces, lemma_inserted_all,
    lemma_promoted_all, lemma_total_push, lemma_without_all, promoted, total, without_key,
};
use crate::meter::FileSize;

verus! {

/// Declares `std::io::Error`, carried by [`Error::Io`].
#[verifier::external_type_specification]
#[verifier::external_body]
pub struct ExIoError(std::io::Error);

/// Errors of the disk cache.
#[derive(Debug)]
pub enum Error {
    /// The file was too large to fit in the cache.
    FileTooLarge,
    /// The file was not in the cache.
    FileNotInCache,
    /// A filesystem call failed.
    Io(std::io::Error),
}

impl From<std::io::Error> for Error {
    fn from(e: std::io::Error) -> (r: Error) {
        Error::Io(e)
    }
}

impl vstd::std_specs::convert::FromSpecImpl<std::io::Error> for Error {
    open spec fn obeys_from_spec() -> bool {
        true
    }

    open spec fn from_spec(e: std::io::Error) -> Error {
        Error::Io(e)
    }
}

/// A regular file found under the cache's root when it is opened.
#[derive(Debug, PartialEq, Eq)]
pub struct FoundFile {
    /// Its path relative to the root.
    pub rel_path: String,
    /// Its length in bytes.
    pub size: u64,
    /// Its modification time, in nanoseconds since the Unix epoch.
    pub mtime: u128,
}

/// A file that the cache no longer holds and that must be unlinked.
#[derive(Debug, PartialEq, Eq)]
pub enum Removal {
    /// A file found when opening that is larger than the whole capacity; failing to unlink it
    /// is not fatal.
    Oversize(String),
    /// A file evicted to make room; failing to unlink it means the directory was tampered with.
    Evicted(String),
}

/// The position at which a file with modification time `m` goes into `s`: after every file
/// that is not newer, so that files with equal times keep their order.
pub open spec fn insert_pos(s: Seq<FoundFile>, m: u128) -> int
    decreases s.len(),
{
    if s.len() == 0 {
        0
    } else if s[0].mtime > m {
        0
    } else {
        1 + insert_pos(s.drop_first(), m)
    }
}

/// Inserts each file of `rest`, in turn, into `acc` at its `insert_pos`.
pub open spec fn sort_into(acc: Seq<FoundFile>, rest: Seq<FoundFile>) -> Seq<FoundFile>
    decreases rest.len(),
{
    if rest.len() == 0 {
        acc
    } else {
        sort_into(acc.insert(insert_pos(acc, rest[0].mtime), rest[0]), rest.drop_first())
    }
}

/// `files` in ascending order of modification time, a stable insertion sort.
pub open spec fn by_mtime(files: Seq<FoundFile>) -> Seq<FoundFile> {
    sort_into(Seq::empty(), files)
}

/// The entries left after evicting the least recent ones while their total length and `size`
/// together exceed `cap`.
pub open spec fn room_for(s: Seq<Entry<String, u64>>, size: u64, cap: u64) -> Seq<Entry<String, u64>>
    decreases s.len(),
{
    if s.len() == 0 || total(s) + size <= cap {
        s
    } else {
        room_for(s.drop_first(), size, cap)
    }
}

/// The entries that stay when a file of `size` bytes is recorded under `key`: the old entry of
/// `key` is dropped first, its file being overwritten, then room is made among the rest.
pub open spec fn kept(s: Seq<Entry<String, u64>>, key: String, size: u64, cap: u64) -> Seq<
    Entry<String, u64>,
> {
    room_for(without_key(s, key@), size, cap)
}

/// The keys whose files must be unlinked when a file of `size` bytes is recorded under `key`:
/// the least recent entries evicted to make room, oldest first, and under a capacity of zero
/// the new file itself, which the cache cannot hold.
pub open spec fn evicted_keys(s: Seq<Entry<String, u64>>, key: String, size: u64, cap: u64) -> Seq<
    String,
> {
    let w = without_key(s, key@);
    Seq::new((w.len() - kept(s, key, size, cap).len()) as nat, |i: int| w[i].key) + if cap == 0 {
        seq![key]
    } else {
        Seq::empty()
    }
}

/// The entries after recording a file of `size` bytes under `key`, once room was made.
pub open spec fn added(s: Seq<Entry<String, u64>>, key: String, size: u64, cap: u64) -> Seq<
    Entry<String, u64>,
> {
    inserted(kept(s, key, size, cap), Entry { key, value: size, weight: size as usize }, cap as nat)
}

/// Replays `files`, in order, into the entries `s`: a file larger than `cap` is dropped, any
/// other is added. Returns the entries and the files to unlink, in order.
pub open spec fn replay(s: Seq<Entry<String, u64>>, files: Seq<FoundFile>, cap: u64) -> (Seq<
    Entry<String, u64>,
>, Seq<Removal>)
    decreases files.len(),
{
    if files.len() == 0 {
        (s, Seq::empty())
    } else {
        let f = files[0];
        if f.size > cap {
            let r = replay(s, files.drop_first(), cap);
            (r.0, seq![Removal::Oversize(f.rel_path)] + r.1)
        } else {
            let r = replay(added(s, f.rel_path, f.size, cap), files.drop_first(), cap);
            (r.0, evicted_keys(s, f.rel_path, f.size, cap).map_values(|k: String| Removal::Evicted(k)) + r.1)
        }
    }
}

/// The absolute path of `key` under `root`.
pub open spec fn abs_path(root: Seq<char>, key: Seq<char>) -> Seq<char> {
    if root.len() > 0 && root.last() == '/' {
        root + key
    } else {
        root + seq!['/'] + key
    }
}

/// Every entry weighs its value, the length of its file, taken as a `usize`.
pub open spec fn weighs_size(s: Seq<Entry<String, u64>>) -> bool {
    all_entries(s, |e: Entry<String, u64>| e.weight == e.value as usize)
}

/// Sorts `files` by ascending modification time, oldest first; files with equal times keep
/// their order.
pub fn sort_by_mtime(files: Vec<FoundFile>) -> (r: Vec<FoundFile>)
    ensures
        r@ == by_mtime(files@),
        mtime_sorted(r@),
        r@.to_multiset() == files@.to_multiset(),
{
    proof {
        lemma_by_mtime_sorts(files@);
    }
    let mut rest = files;
    let mut out: Vec<FoundFile> = Vec::new();
    while rest.len() > 0
        invariant
            sort_into(out@, rest@) == by_mtime(files@),
        decreases rest@.len(),
    {
        let ghost before = rest@;
        let f = rest.remove(0);
        let mut j: usize = 0;
        assert(out@.skip(0) =~= out@);
        while j < out.len() && out[j].mtime <= f.mtime
            invariant
                j <= out@.len(),
                insert_pos(out@, f.mtime) == j + insert_pos(out@.skip(j as int), f.mtime),
            decreases out@.len() - j,
        {
            assert(out@.skip(j as int).drop_first() =~= out@.skip(j + 1));
            j = j + 1;
        }
        proof {
            if j < out@.len() {
                assert(out@.skip(j as int)[0] == out@[j as int]);
            } else {
                assert(out@.skip(j as int).len() == 0);
            }
            assert(before.drop_first() =~= rest@);
        }
        out.insert(j, f);
    }
    out
}

/// The bookkeeping of an LRU cache of files under one root directory.
///
/// It records, for each cached file, its path relative to the root and its length, and decides
/// which files to evict; reading and writing the files is left to its caller, who is told which
/// paths to touch and which to unlink.
pub struct LruDiskCache {
    lru: LruCache<String, u64, FileSize>,
    root: String,
}

impl View for LruDiskCache {
    type V = Seq<Entry<String, u64>>;

    closed spec fn view(&self) -> Seq<Entry<String, u64>> {
        self.lru@
    }
}

impl LruDiskCache {
    /// The root directory.
    pub closed spec fn root_spec(&self) -> Seq<char> {
        self.root@
    }

    /// The bound on the total length of the files.
    pub closed spec fn capacity_spec(&self) -> u64 {
        self.lru.capacity_spec()
    }

    /// The index is well formed and every entry weighs its file's length.
    pub closed spec fn wf(&self) -> bool {
        &&& self.lru.wf()
        &&& weighs_size(self.lru@)
    }

    /// Every cached key is unique and recorded with its file's length as its weight, and the
    /// lengths add up to no more than the capacity.
    pub proof fn lemma_index_consistent(&self)
        requires
            self.wf(),
        ensures
            keys_distinct(self@),
            weighs_size(self@),
            total(self@) <= self.capacity_spec(),
    {
        self.lru.lemma_within_capacity();
    }

    /// Opens a cache over `root` holding at most `capacity` bytes, from the files `found` under
    /// it. The files are replayed oldest first; those larger than the capacity, and those
    /// evicted during the replay, are returned to be unlinked.
    pub fn new(root: String, capacity: u64, found: Vec<FoundFile>) -> (r: (LruDiskCache, Vec<Removal>))
        ensures
            r.0.wf(),
            r.0.root_spec() == root@,
            r.0.capacity_spec() == capacity,
            r.0@ == replay(Seq::empty(), by_mtime(found@), capacity).0,
            r.1@ == replay(Seq::empty(), by_mtime(found@), capacity).1,
    {
        let ghost root_view = root@;
        let mut cache = LruDiskCache { lru: LruCache::with_meter(capacity, FileSize), root };
        let ghost sorted = by_mtime(found@);
        let mut rest = sort_by_mtime(found);
        let mut removals: Vec<Removal> = Vec::new();
        assert(cache@ =~= Seq::<Entry<String, u64>>::empty());
        assert(removals@ + replay(cache@, rest@, capacity).1 =~= replay(cache@, rest@, capacity).1);
        while rest.len() > 0
            invariant
                cache.wf(),
                cache.capacity_spec() == capacity,
                cache.root_spec() == root_view,
                replay(cache@, rest@, capacity).0 == replay(Seq::empty(), sorted, capacity).0,
                removals@ + replay(cache@, rest@, capacity).1 == replay(
                    Seq::empty(),
                    sorted,
                    capacity,
                ).1,
            decreases rest@.len(),
        {
            let ghost before = rest@;
            let ghost entries = cache@;
            let ghost done = removals@;
            let f = rest.remove(0);
            assert(before.drop_first() =~= rest@);
            if !cache.can_store(f.size) {
                removals.push(Removal::Oversize(f.rel_path));
                assert(removals@ + replay(cache@, rest@, capacity).1 =~= done + (seq![
                    Removal::Oversize(before[0].rel_path),
                ] + replay(cache@, rest@, capacity).1));
            } else {
                let size = f.size;
                let ghost name = f.rel_path;
                match cache.add_file(f.rel_path, size) {
                    Ok(gone) => {
                        push_evicted(&mut removals, gone);
                        assert(removals@ + replay(cache@, rest@, capacity).1 =~= done + (
                        evicted_keys(entries, name, size, capacity).map_values(
                            |k: String| Removal::Evicted(k),
                        ) + replay(cache@, rest@, capacity).1));
                    },
                    Err(_) => {},
                }
            }
        }
        assert(rest@ =~= Seq::<FoundFile>::empty());
        assert(removals@ =~= removals@ + Seq::<Removal>::empty());
        (cache, removals)
    }

    /// The total length of the cached files.
    pub fn size(&self) -> (r: u64)
        requires
            self.wf(),
        ensures
            r == total(self@),
    {
        self.lru.size()
    }

    /// The number of cached files.
    pub fn len(&self) -> (r: usize)
        ensures
            r == self@.len(),
    {
        self.lru.len()
    }

    /// Whether no file is cached.
    pub fn is_empty(&self) -> (r: bool)
        ensures
            r == (self@.len() == 0),
    {
        self.lru.len() == 0
    }

    /// The bound on the total length of the files.
    pub fn capacity(&self) -> (r: u64)
        ensures
            r == self.capacity_spec(),
    {
        self.lru.capacity()
    }

    /// The root directory.
    pub fn path(&self) -> (r: &str)
        ensures
            r@ == self.root_spec(),
    {
        self.root.as_str()
    }

    /// The path at which the file of `key` is stored.
    pub fn rel_to_abs_path(&self, key: &str) -> (r: String)
        ensures
            r@ == abs_path(self.root_spec(), key@),
    {
        let mut p = self.root.clone();
        let root = self.root.as_str();
        let n = root.unicode_len();
        if n == 0 || root.get_char(n - 1) != '/' {
            proof {
                reveal_strlit("/");
            }
            p.append("/");
        }
        p.append(key);
        p
    }

    /// Whether a file of `size` bytes can be stored at all.
    pub fn can_store(&self, size: u64) -> (r: bool)
        ensures
            r == (size <= self.capacity_spec()),
    {
        size <= self.lru.capacity()
    }

    /// Whether a file is cached under `key`; its recency is left as it is.
    pub fn contains_key(&self, key: &str) -> (r: bool)
        requires
            self.wf(),
        ensures
            r == has_key(self@, key@),
    {
        let k = String::from_str(key);
        self.lru.contains_key(&k)
    }

    /// Checks a file about to be written under `key`: when its size is known and larger than the
    /// capacity it is refused, else the path to write it to is returned.
    pub fn prepare_insert(&self, key: &str, size: Option<u64>) -> (r: Result<String, Error>)
        ensures
            r is Err <==> (size is Some && size->0 > self.capacity_spec()),
            r is Err ==> r->Err_0 is FileTooLarge,
            r is Ok ==> r->Ok_0@ == abs_path(self.root_spec(), key@),
    {
        match size {
            Some(n) => {
                if !self.can_store(n) {
                    return Err(Error::FileTooLarge);
                }
            },
            None => {},
        }
        Ok(self.rel_to_abs_path(key))
    }

    /// Records a file of `size` bytes, already written under `key`, as the most recent entry.
    /// An older entry of `key` is dropped first, its file being the one just overwritten; then
    /// least recent entries are evicted while the total length and `size` together exceed the
    /// capacity. Returns the keys whose files must be unlinked, oldest first: under a capacity of
    /// zero that is the new file itself, otherwise never `key`. A file larger than the capacity is
    /// refused and nothing changes.
    pub fn add_file(&mut self, key: String, size: u64) -> (r: Result<Vec<String>, Error>)
        requires
            old(self).wf(),
        ensures
            final(self).wf(),
            final(self).root_spec() == old(self).root_spec(),
            final(self).capacity_spec() == old(self).capacity_spec(),
            size > old(self).capacity_spec() ==> r is Err && r->Err_0 is FileTooLarge
                && final(self)@ == old(self)@,
            size <= old(self).capacity_spec() ==> r is Ok && r->Ok_0@ == evicted_keys(
                old(self)@,
                key,
                size,
                old(self).capacity_spec(),
            ) && final(self)@ == added(old(self)@, key, size, old(self).capacity_spec()),
            r is Ok && old(self).capacity_spec() > 0 ==> forall|j: int|
                0 <= j < r->Ok_0@.len() ==> #[trigger] r->Ok_0@[j]@ != key@,
    {
        if !self.can_store(size) {
            return Err(Error::FileTooLarge);
        }
        let ghost s0 = self.lru@;
        let ghost cap = self.lru.capacity_spec();
        proof {
            self.lru.lemma_within_capacity();
            lemma_without_all(s0, key@, |e: Entry<String, u64>| e.weight == e.value as usize);
            if has_key(s0, key@) {
                lemma_distinct_remove(s0, key_index(s0, key@));
            }
        }
        self.lru.remove(&key);
        let ghost w = self.lru@;
        assert(!has_key(w, key@));
        let mut gone: Vec<String> = Vec::new();
        assert(w.skip(0) =~= w);
        while self.lru.size() as u128 + size as u128 > self.lru.capacity() as u128
            invariant
                self.wf(),
                self.lru.capacity_spec() == cap,
                self.root_spec() == old(self).root_spec(),
                size <= cap,
                gone@.len() <= w.len(),
                self.lru@ == w.skip(gone@.len() as int),
                forall|i: int| 0 <= i < gone@.len() ==> gone@[i] == w[i].key,
                room_for(self.lru@, size, cap) == room_for(w, size, cap),
            decreases self.lru@.len(),
        {
            let ghost cur = self.lru@;
            proof {
                if cur.len() == 0 {
                    assert(total(cur) == 0);
                }
                assert(cur.drop_first() =~= w.skip(gone@.len() as int + 1));
                assert(cur[0] == w[gone@.len() as int]);
            }
            let popped = self.lru.remove_lru();
            proof {
                assert(cur.drop_first() =~= cur.skip(1));
                assert(all_entries(cur.skip(1), |e: Entry<String, u64>| e.weight == e.value as usize)) by {
                    assert forall|i: int| 0 <= i < cur.skip(1).len() implies #[trigger] cur.skip(1)[i].weight == cur.skip(1)[i].value as usize by {
                        assert(cur.skip(1)[i] == cur[i + 1]);
                        assert((|e: Entry<String, u64>| e.weight == e.value as usize)(cur[i + 1]));
                    }
                }
            }
            match popped {
                Some(kv) => {
                    gone.push(kv.0);
                },
                None => {},
            }
        }
        proof {
            let cur = self.lru@;
            assert(room_for(cur, size, cap) == cur);
            assert(cur == kept(s0, key, size, cap));
            lemma_inserted_all(
                cur,
                Entry { key, value: size, weight: size as usize },
                cap as nat,
                |e: Entry<String, u64>| e.weight == e.value as usize,
            );
            assert forall|j: int| 0 <= j < gone@.len() implies #[trigger] gone@[j]@ != key@ by {
                assert(gone@[j] == w[j].key);
            }
        }
        if self.lru.capacity() == 0 {
            let name = key.clone();
            self.lru.insert(key, size);
            gone.push(name);
            assert(gone@ =~= evicted_keys(s0, key, size, cap));
        } else {
            self.lru.insert(key, size);
            assert(gone@ =~= evicted_keys(s0, key, size, cap));
        }
        Ok(gone)
    }

    /// Promotes the file of `key` to most recent and returns its path, for its times to be
    /// refreshed and for it to be opened.
    pub fn get(&mut self, key: &str) -> (r: Result<String, Error>)
        requires
            old(self).wf(),
        ensures
            final(self).wf(),
            final(self).root_spec() == old(self).root_spec(),
            final(self).capacity_spec() == old(self).capacity_spec(),
            final(self)@ == promoted(old(self)@, key@),
            r is Ok <==> has_key(old(self)@, key@),
            r is Ok ==> r->Ok_0@ == abs_path(old(self).root_spec(), key@),
            r is Err ==> r->Err_0 is FileNotInCache,
    {
        let k = String::from_str(key);
        proof {
            lemma_promoted_all(self.lru@, k@, |e: Entry<String, u64>| e.weight == e.value as usize);
        }
        let hit = self.lru.get(&k).is_some();
        if hit {
            Ok(self.rel_to_abs_path(key))
        } else {
            Err(Error::FileNotInCache)
        }
    }

    /// Drops the entry of `key` and returns the path of its file, to be unlinked; nothing when
    /// `key` is not cached.
    pub fn remove(&mut self, key: &str) -> (r: Option<String>)
        requires
            old(self).wf(),
        ensures
            final(self).wf(),
            final(self).root_spec() == old(self).root_spec(),
            final(self).capacity_spec() == old(self).capacity_spec(),
            final(self)@ == without_key(old(self)@, key@),
            r is Some <==> has_key(old(self)@, key@),
            r is Some ==> r->Some_0@ == abs_path(old(self).root_spec(), key@),
    {
        let k = String::from_str(key);
        proof {
            lemma_without_all(self.lru@, k@, |e: Entry<String, u64>| e.weight == e.value as usize);
        }
        match self.lru.remove(&k) {
            Some(_) => Some(self.rel_to_abs_path(key)),
            None => None,
        }
    }
}

/// Appends a `Removal::Evicted` for each of `keys`, in order.
fn push_evicted(removals: &mut Vec<Removal>, keys: Vec<String>)
    ensures
        final(removals)@ == old(removals)@ + keys@.map_values(|k: String| Removal::Evicted(k)),
{
    let mut rest = keys;
    let ghost start = old(removals)@;
    while rest.len() > 0
        invariant
            removals@ + rest@.map_values(|k: String| Removal::Evicted(k)) == start + keys@.map_values(
                |k: String| Removal::Evicted(k),
            ),
        decreases rest@.len(),
    {
        let ghost before = rest@;
        let k = rest.remove(0);
        assert(before.map_values(|k: String| Removal::Evicted(k)) =~= seq![Removal::Evicted(k)]
            + rest@.map_values(|k: String| Removal::Evicted(k)));
        let ghost prev = removals@;
        removals.push(Removal::Evicted(k));
        assert(removals@ + rest@.map_values(|k: String| Removal::Evicted(k)) =~= prev
            + before.map_values(|k: String| Removal::Evicted(k)));
    }
    assert(removals@ + rest@.map_values(|k: String| Removal::Evicted(k)) =~= removals@);
}

proof fn lemma_insert_pos_end(s: Seq<FoundFile>, m: u128)
    requires
        forall|j: int| 0 <= j < s.len() ==> #[trigger] s[j].mtime <= m,
    ensures
        insert_pos(s, m) == s.len(),
    decreases s.len(),
{
    if s.len() > 0 {
        assert forall|j: int| 0 <= j < s.drop_first().len() implies #[trigger] s.drop_first()[j].mtime
            <= m by {
            assert(s.drop_first()[j] == s[j + 1]);
        }
        lemma_insert_pos_end(s.drop_first(), m);
    }
}

proof fn lemma_sort_ordered(f: Seq<FoundFile>, i: int)
    requires
        0 <= i <= f.len(),
        forall|a: int, b: int| 0 <= a <= b < f.len() ==> f[a].mtime <= f[b].mtime,
    ensures
        sort_into(f.take(i), f.skip(i)) == f,
    decreases f.len() - i,
{
    if i == f.len() {
        assert(f.take(i) =~= f);
        assert(f.skip(i).len() == 0);
    } else {
        assert forall|j: int| 0 <= j < f.take(i).len() implies #[trigger] f.take(i)[j].mtime
            <= f[i].mtime by {
            assert(f.take(i)[j] == f[j]);
        }
        lemma_insert_pos_end(f.take(i), f[i].mtime);
        assert(f.skip(i)[0] == f[i]);
        assert(f.take(i).insert(i, f[i]) =~= f.take(i + 1));
        assert(f.skip(i).drop_first() =~= f.skip(i + 1));
        lemma_sort_ordered(f, i + 1);
    }
}

proof fn lemma_total_take_le<K, V>(s: Seq<Entry<K, V>>, i: int)
    requires
        0 <= i <= s.len(),
    ensures
        total(s.take(i)) <= total(s),
    decreases s.len() - i,
{
    if i == s.len() {
        assert(s.take(i) =~= s);
    } else {
        lemma_total_take_le(s, i + 1);
        assert(s.take(i + 1) =~= s.take(i).push(s[i]));
        lemma_total_push(s.take(i), s[i]);
    }
}

proof fn lemma_replay_prefix(s: Seq<Entry<String, u64>>, f: Seq<FoundFile>, cap: u64, i: int)
    requires
        keys_distinct(s),
        weighs_size(s),
        total(s) <= cap,
        cap == 0 ==> s.len() == 0,
        forall|j: int| 0 <= j < s.len() ==> #[trigger] s[j].value <= usize::MAX,
        f.len() == s.len(),
        forall|j: int| 0 <= j < f.len() ==> #[trigger] f[j].rel_path == s[j].key && f[j].size == s[j].value,
        0 <= i <= s.len(),
    ensures
        replay(s.take(i), f.skip(i), cap) == (s, Seq::<Removal>::empty()),
    decreases s.len() - i,
{
    if i == s.len() {
        assert(s.take(i) =~= s);
        assert(f.skip(i).len() == 0);
    } else {
        let p = s.take(i);
        let e = s[i];
        assert(f.skip(i)[0] == f[i]);
        assert(f.skip(i).drop_first() =~= f.skip(i + 1));
        assert((|e: Entry<String, u64>| e.weight == e.value as usize)(s[i]));
        assert(e.weight == e.value);
        lemma_total_take_le(s, i + 1);
        assert(s.take(i + 1) =~= p.push(e));
        lemma_total_push(p, e);
        assert(e.value <= cap);
        assert(room_for(p, e.value, cap) == p);
        assert(!has_key(p, e.key@)) by {
            if has_key(p, e.key@) {
                let a = choose|a: int| 0 <= a < p.len() && p[a].key@ == e.key@;
                assert(p[a] == s[a]);
            }
        }
        assert(without_key(p, e.key@) == p);
        assert(kept(p, e.key, e.value, cap) == p);
        assert(evicted_keys(p, e.key, e.value, cap) =~= Seq::<String>::empty());
        assert(Entry { key: e.key, value: e.value, weight: e.value as usize } == e);
        assert(evicted(p.push(e), cap as nat) == p.push(e));
        assert(added(p, f[i].rel_path, f[i].size, cap) == s.take(i + 1));
        assert(evicted_keys(p, e.key, e.value, cap).map_values(|k: String| Removal::Evicted(k))
            =~= Seq::<Removal>::empty());
        lemma_replay_prefix(s, f, cap, i + 1);
        assert(Seq::<Removal>::empty() + Seq::<Removal>::empty() =~= Seq::<Removal>::empty());
    }
}

/// Reopening a cache over the files it holds gives it back: when the files of a cache are
/// found in an order of modification times that agrees with their recency, replaying them into a
/// cache of the same capacity yields the same keys and lengths in the same order, and unlinks
/// nothing.
pub proof fn lemma_reopen(c: &LruDiskCache, files: Seq<FoundFile>)
    requires
        c.wf(),
        files.len() == c@.len(),
        forall|j: int|
            0 <= j < files.len() ==> #[trigger] files[j].rel_path == c@[j].key && files[j].size
                == c@[j].value,
        forall|a: int, b: int| 0 <= a <= b < files.len() ==> files[a].mtime <= files[b].mtime,
        forall|j: int| 0 <= j < c@.len() ==> #[trigger] c@[j].value <= usize::MAX,
    ensures
        replay(Seq::empty(), by_mtime(files), c.capacity_spec()) == (c@, Seq::<Removal>::empty()),
{
    c.lru.lemma_within_capacity();
    assert(files.take(0) =~= Seq::<FoundFile>::empty());
    assert(files.skip(0) =~= files);
    lemma_sort_ordered(files, 0);
    assert(c@.take(0) =~= Seq::<Entry<String, u64>>::empty());
    lemma_replay_prefix(c@, files, c.capacity_spec(), 0);
}

/// The files of `s` are in ascending order of modification time.
pub open spec fn mtime_sorted(s: Seq<FoundFile>) -> bool {
    forall|a: int, b: int| 0 <= a <= b < s.len() ==> s[a].mtime <= s[b].mtime
}

proof fn lemma_insert_pos_bounds(s: Seq<FoundFile>, m: u128)
    ensures
        0 <= insert_pos(s, m) <= s.len(),
        forall|j: int| 0 <= j < insert_pos(s, m) ==> #[trigger] s[j].mtime <= m,
        insert_pos(s, m) < s.len() ==> s[insert_pos(s, m)].mtime > m,
    decreases s.len(),
{
    if s.len() > 0 && s[0].mtime <= m {
        lemma_insert_pos_bounds(s.drop_first(), m);
        assert forall|j: int| 0 <= j < insert_pos(s, m) implies #[trigger] s[j].mtime <= m by {
            if j > 0 {
                assert(s[j] == s.drop_first()[j - 1]);
            }
        }
        if insert_pos(s, m) < s.len() {
            assert(s[insert_pos(s, m)] == s.drop_first()[insert_pos(s.drop_first(), m)]);
        }
    }
}

proof fn lemma_sort_into(acc: Seq<FoundFile>, rest: Seq<FoundFile>)
    requires
        mtime_sorted(acc),
    ensures
        mtime_sorted(sort_into(acc, rest)),
        sort_into(acc, rest).to_multiset() == acc.to_multiset().add(rest.to_multiset()),
    decreases rest.len(),
{
    broadcast use vstd::seq_lib::group_to_multiset_ensures;

    if rest.len() == 0 {
        assert(rest.to_multiset() =~= Multiset::empty());
        assert(acc.to_multiset().add(rest.to_multiset()) =~= acc.to_multiset());
    } else {
        let x = rest[0];
        let p = insert_pos(acc, x.mtime);
        let acc2 = acc.insert(p, x);
        lemma_insert_pos_bounds(acc, x.mtime);
        assert forall|a: int, b: int| 0 <= a <= b < acc2.len() implies acc2[a].mtime
            <= acc2[b].mtime by {
            if a < p && b < p {
                assert(acc2[a] == acc[a] && acc2[b] == acc[b]);
            } else if a < p && b == p {
                assert(acc2[a] == acc[a]);
            } else if a < p {
                assert(acc2[a] == acc[a] && acc2[b] == acc[b - 1]);
            } else if a == p && b > p {
                assert(acc2[b] == acc[b - 1]);
            } else if a > p {
                assert(acc2[a] == acc[a - 1] && acc2[b] == acc[b - 1]);
            }
        }
        assert(acc2.remove(p) =~= acc);
        assert(acc2[p] == x);
        assert(acc2.to_multiset() =~= acc.to_multiset().insert(x));
        assert(rest.drop_first() =~= rest.remove(0));
        assert(rest.to_multiset() =~= rest.drop_first().to_multiset().insert(x));
        lemma_sort_into(acc2, rest.drop_first());
        assert(acc2.to_multiset().add(rest.drop_first().to_multiset()) =~= acc.to_multiset().add(
            rest.to_multiset(),
        ));
    }
}

/// Ordering by modification time sorts: the result is in ascending order of modification time
/// and holds the same files, each as many times.
pub proof fn lemma_by_mtime_sorts(files: Seq<FoundFile>)
    ensures
        mtime_sorted(by_mtime(files)),
        by_mtime(files).to_multiset() == files.to_multiset(),
{
    broadcast use vstd::seq_lib::group_to_multiset_ensures;

    lemma_sort_into(Seq::empty(), files);
    assert(Seq::<FoundFile>::empty().to_multiset() =~= Multiset::empty());
    assert(Multiset::<FoundFile>::empty().add(files.to_multiset()) =~= files.to_multiset());
}

proof fn lemma_sorted_unique(a: Seq<FoundFile>, b: Seq<FoundFile>)
    requires
        mtime_sorted(a),
        forall|i: int, j: int| 0 <= i < j < b.len() ==> b[i].mtime < b[j].mtime,
        a.to_multiset() == b.to_multiset(),
    ensures
        a == b,
    decreases a.len(),
{
    broadcast use vstd::seq_lib::group_to_multiset_ensures;

    a.to_multiset_ensures();
    b.to_multiset_ensures();
    assert(a.len() == b.len());
    if a.len() == 0 {
        assert(a =~= b);
    } else {
        assert(a.contains(a[0]));
        assert(b.to_multiset().count(a[0]) > 0);
        let k = choose|k: int| 0 <= k < b.len() && b[k] == a[0];
        assert(b.contains(b[0]));
        assert(a.to_multiset().count(b[0]) > 0);
        let j = choose|j: int| 0 <= j < a.len() && a[j] == b[0];
        assert(a[0].mtime <= a[j].mtime);
        if k > 0 {
            assert(b[0].mtime < b[k].mtime);
        }
        assert(a[0] == b[0]);
        assert(a.drop_first() =~= a.remove(0));
        assert(b.drop_first() =~= b.remove(0));
        assert forall|x: int, y: int| 0 <= x <= y < a.drop_first().len() implies a.drop_first()[x].mtime
            <= a.drop_first()[y].mtime by {
            assert(a.drop_first()[x] == a[x + 1] && a.drop_first()[y] == a[y + 1]);
        }
        assert forall|x: int, y: int| 0 <= x < y < b.drop_first().len() implies b.drop_first()[x].mtime
            < b.drop_first()[y].mtime by {
            assert(b.drop_first()[x] == b[x + 1] && b.drop_first()[y] == b[y + 1]);
        }
        lemma_sorted_unique(a.drop_first(), b.drop_first());
        assert forall|i: int| 0 <= i < a.len() implies a[i] == b[i] by {
            if i > 0 {
                assert(a[i] == a.drop_first()[i - 1] && b[i] == b.drop_first()[i - 1]);
            }
        }
        assert(a =~= b);
    }
}

/// Reopening a cache gives it back whatever order the directory walk finds its files in: when
/// each file of the cache has its own modification time, later for more recently used files,
/// replaying the files found (the same files, in any order) into a cache of the same capacity
/// yields the same keys and lengths in order of recency, and unlinks nothing.
pub proof fn lemma_reopen_any_order(c: &LruDiskCache, recency: Seq<FoundFile>, files: Seq<FoundFile>)
    requires
        c.wf(),
        recency.len() == c@.len(),
        forall|j: int|
            0 <= j < recency.len() ==> #[trigger] recency[j].rel_path == c@[j].key
                && recency[j].size == c@[j].value,
        forall|a: int, b: int| 0 <= a < b < recency.len() ==> recency[a].mtime < recency[b].mtime,
        files.to_multiset() == recency.to_multiset(),
        forall|j: int| 0 <= j < c@.len() ==> #[trigger] c@[j].value <= usize::MAX,
    ensures
        replay(Seq::empty(), by_mtime(files), c.capacity_spec()) == (c@, Seq::<Removal>::empty()),
{
    lemma_by_mtime_sorts(files);
    lemma_sorted_unique(by_mtime(files), recency);
    lemma_reopen(c, recency);
    lemma_sort_ordered(recency, 0);
    assert(recency.take(0) =~= Seq::<FoundFile>::empty());
    assert(recency.skip(0) =~= recency);
}

/// The path that a removal names.
pub open spec fn removal_path(r: Removal) -> Seq<char> {
    match r {
        Removal::Oversize(p) => p@,
        Removal::Evicted(p) => p@,
    }
}

/// The key `k` is either cached in `entries` or named by one of `removals`.
pub open spec fn accounted(entries: Seq<Entry<String, u64>>, removals: Seq<Removal>, k: Seq<char>) -> bool {
    has_key(entries, k) || exists|j: int| 0 <= j < removals.len() && removal_path(removals[j]) == k
}

proof fn lemma_room_for_suffix(s: Seq<Entry<String, u64>>, size: u64, cap: u64) -> (n: int)
    requires
        size <= cap,
    ensures
        0 <= n <= s.len(),
        room_for(s, size, cap) == s.skip(n),
        total(room_for(s, size, cap)) + size <= cap,
    decreases s.len(),
{
    if s.len() == 0 || total(s) + size <= cap {
        assert(s.skip(0) =~= s);
        0
    } else {
        let m = lemma_room_for_suffix(s.drop_first(), size, cap);
        assert(s.drop_first().skip(m) =~= s.skip(m + 1));
        m + 1
    }
}

/// Recording a file keeps keys unique and loses track of no file. The entries that stay are
/// the most recent ones other than `key`. Under a capacity that is not zero, the new entry goes
/// on top of them, and the total length becomes theirs plus `size`, within the capacity.
pub proof fn lemma_added_accounts(s: Seq<Entry<String, u64>>, key: String, size: u64, cap: u64)
    requires
        keys_distinct(s),
        cap == 0 ==> s.len() == 0,
        size <= cap,
        size <= usize::MAX,
    ensures
        keys_distinct(added(s, key, size, cap)),
        cap == 0 ==> added(s, key, size, cap).len() == 0,
        without_key(s, key@).skip(without_key(s, key@).len() - kept(s, key, size, cap).len())
            == kept(s, key, size, cap),
        cap > 0 ==> added(s, key, size, cap) == kept(s, key, size, cap).push(
            Entry { key, value: size, weight: size as usize },
        ),
        cap > 0 ==> total(added(s, key, size, cap)) == total(kept(s, key, size, cap)) + size,
        total(added(s, key, size, cap)) <= cap,
        forall|k: Seq<char>|
            (has_key(s, k) || k == key@) ==> #[trigger] has_key(added(s, key, size, cap), k) || exists|j: int|
                0 <= j < evicted_keys(s, key, size, cap).len() && evicted_keys(s, key, size, cap)[j]@
                    == k,
{
    let w = without_key(s, key@);
    if has_key(s, key@) {
        lemma_distinct_remove(s, key_index(s, key@));
    }
    assert(!has_key(w, key@));
    let n = lemma_room_for_suffix(w, size, cap);
    let kp = kept(s, key, size, cap);
    let e = Entry { key, value: size, weight: size as usize };
    let ek = evicted_keys(s, key, size, cap);
    let a = added(s, key, size, cap);
    assert(kp == w.skip(n));
    assert(!has_key(kp, key@)) by {
        if has_key(kp, key@) {
            let x = choose|x: int| 0 <= x < kp.len() && kp[x].key@ == key@;
            assert(kp[x] == w[x + n]);
        }
    }
    assert(without_key(kp, key@) == kp);
    lemma_total_push(kp, e);
    if cap > 0 {
        assert(evicted(kp.push(e), cap as nat) == kp.push(e));
    } else {
        lemma_evicted_suffix(kp.push(e), 0);
        assert(total(a) == 0);
    }
    assert(keys_distinct(kp)) by {
        assert forall|x: int, y: int| 0 <= x < kp.len() && 0 <= y < kp.len() && x != y implies kp[x].key@
            != kp[y].key@ by {
            assert(kp[x] == w[x + n] && kp[y] == w[y + n]);
        }
    }
    lemma_insert_replaces(kp, e, cap as nat);
    assert forall|k: Seq<char>| (has_key(s, k) || k == key@) implies #[trigger] has_key(a, k) || exists|j: int|
        0 <= j < ek.len() && ek[j]@ == k by {
        if k == key@ {
            if cap == 0 {
                assert(ek[ek.len() - 1] == key);
            }
        } else {
            assert(has_key(w, k));
            let x = choose|x: int| 0 <= x < w.len() && w[x].key@ == k;
            if x < n {
                assert(ek[x] == w[x].key);
            } else {
                assert(kp[x - n] == w[x]);
                assert(a[x - n] == kp[x - n]);
            }
        }
    }
}

/// Opening a cache loses track of no file: every file found under the root, and every entry
/// already recorded, is afterwards either cached or listed to be unlinked.
pub proof fn lemma_replay_accounts(s: Seq<Entry<String, u64>>, files: Seq<FoundFile>, cap: u64)
    requires
        keys_distinct(s),
        cap == 0 ==> s.len() == 0,
        forall|i: int| 0 <= i < files.len() ==> #[trigger] files[i].size <= usize::MAX,
    ensures
        forall|k: Seq<char>|
            (has_key(s, k) || exists|i: int| 0 <= i < files.len() && files[i].rel_path@ == k)
                ==> #[trigger] accounted(replay(s, files, cap).0, replay(s, files, cap).1, k),
    decreases files.len(),
{
    if files.len() > 0 {
        let f = files[0];
        let rest = files.drop_first();
        assert forall|i: int| 0 <= i < rest.len() implies #[trigger] rest[i].size <= usize::MAX by {
            assert(rest[i] == files[i + 1]);
        }
        let r = replay(s, files, cap);
        if f.size > cap {
            lemma_replay_accounts(s, rest, cap);
            let q = replay(s, rest, cap);
            let head = seq![Removal::Oversize(f.rel_path)];
            assert(r.1 == head + q.1);
            assert forall|k: Seq<char>|
                (has_key(s, k) || exists|i: int| 0 <= i < files.len() && files[i].rel_path@ == k)
                    implies #[trigger] accounted(r.0, r.1, k) by {
                if k == f.rel_path@ {
                    assert(removal_path(r.1[0]) == k);
                } else {
                    if !has_key(s, k) {
                        let i = choose|i: int| 0 <= i < files.len() && files[i].rel_path@ == k;
                        assert(rest[i - 1] == files[i]);
                    }
                    assert(accounted(q.0, q.1, k));
                    if !has_key(q.0, k) {
                        let j = choose|j: int| 0 <= j < q.1.len() && removal_path(q.1[j]) == k;
                        assert(r.1[j + 1] == q.1[j]);
                    }
                }
            }
        } else {
            let s2 = added(s, f.rel_path, f.size, cap);
            let ek = evicted_keys(s, f.rel_path, f.size, cap);
            let em = ek.map_values(|k: String| Removal::Evicted(k));
            lemma_added_accounts(s, f.rel_path, f.size, cap);
            lemma_replay_accounts(s2, rest, cap);
            let q = replay(s2, rest, cap);
            assert(r.1 == em + q.1);
            assert forall|k: Seq<char>|
                (has_key(s, k) || exists|i: int| 0 <= i < files.len() && files[i].rel_path@ == k)
                    implies #[trigger] accounted(r.0, r.1, k) by {
                let in_rest = exists|i: int| 0 <= i < rest.len() && rest[i].rel_path@ == k;
                if has_key(s2, k) || in_rest {
                    assert(accounted(q.0, q.1, k));
                    if !has_key(q.0, k) {
                        let j = choose|j: int| 0 <= j < q.1.len() && removal_path(q.1[j]) == k;
                        assert(r.1[em.len() + j] == q.1[j]);
                    }
                } else {
                    if !has_key(s, k) {
                        let i = choose|i: int| 0 <= i < files.len() && files[i].rel_path@ == k;
                        if i > 0 {
                            assert(rest[i - 1] == files[i]);
                        }
                    }
                    let j = choose|j: int| 0 <= j < ek.len() && ek[j]@ == k;
                    assert(r.1[j] == em[j]);
                    assert(removal_path(r.1[j]) == k);
                }
            }
        }
    }
}

/// Opening a cache over the files `found` (as `LruDiskCache::new` does) leaves every one of
/// them either cached or listed to be unlinked, whatever order they were found in.
pub proof fn lemma_open_accounts(found: Seq<FoundFile>, cap: u64)
    requires
        forall|i: int| 0 <= i < found.len() ==> #[trigger] found[i].size <= usize::MAX,
    ensures
        forall|i: int|
            0 <= i < found.len() ==> #[trigger] accounted(
                replay(Seq::empty(), by_mtime(found), cap).0,
                replay(Seq::empty(), by_mtime(found), cap).1,
                found[i].rel_path@,
            ),
{
    broadcast use vstd::seq_lib::group_to_multiset_ensures;

    let sorted = by_mtime(found);
    lemma_by_mtime_sorts(found);
    assert forall|i: int| 0 <= i < sorted.len() implies #[trigger] sorted[i].size <= usize::MAX by {
        assert(sorted.contains(sorted[i]));
        assert(found.to_multiset().count(sorted[i]) > 0);
    }
    lemma_replay_accounts(Seq::empty(), sorted, cap);
    assert forall|i: int| 0 <= i < found.len() implies #[trigger] accounted(
        replay(Seq::empty(), sorted, cap).0,
        replay(Seq::empty(), sorted, cap).1,
        found[i].rel_path@,
    ) by {
        assert(found.contains(found[i]));
        assert(sorted.to_multiset().count(found[i]) > 0);
        assert(sorted.contains(found[i]));
        let j = choose|j: int| 0 <= j < sorted.len() && sorted[j] == found[i];
        assert(sorted[j].rel_path@ == found[i].rel_path@);
    }
}

} // verus!
