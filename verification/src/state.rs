//! Application state that outlives one screen: the running analysis, the
//! library of discovered dumps, symbol settings and the pair of dumps chosen
//! for comparison.

use crate::path::{
    lemma_lex_asymmetric, lemma_lex_irreflexive, lemma_lex_total, lemma_lex_transitive, lex_lt,
    lex_lt_exec, key_eq_exec, path_eq, path_key, path_key_exec,
};
use crate::report::{DumpReport, SymbolConfig};
use crate::scanner::FileEntry;
use crate::text::{
    chars_of, lemma_split_on_nonempty, push_chars, push_str, split_chars, split_on, starts_with,
    string_from, string_of, trim, trim_chars, views,
};
use vstd::multiset::Multiset;
use vstd::prelude::*;

verus! {

broadcast use vstd::string::group_string_axioms;

/// The outcome of one background analysis.
pub type AnalysisResult = Result<DumpReport, String>;

#[verifier::external_type_specification]
#[verifier::external_body]
#[verifier::reject_recursive_types(T)]
pub struct ExReceiver<T>(std::sync::mpsc::Receiver<T>);

/// `Receiver::try_recv`, keeping a delivered value and dropping the reason
/// when none is waiting. Nothing is promised of the outcome, which depends
/// on the sending thread.
#[verifier::external_body]
fn try_receive<T>(receiver: &std::sync::mpsc::Receiver<T>) -> Option<T> {
    receiver.try_recv().ok()
}

/// Owns the lifecycle of one background analysis. Keeping the channel and its
/// subject together prevents stale paths and receivers from drifting apart.
pub struct AnalysisJob {
    pub path: String,
    receiver: std::sync::mpsc::Receiver<AnalysisResult>,
}

impl AnalysisJob {
    /// The dump being analysed.
    pub closed spec fn subject(&self) -> Seq<char> {
        self.path@
    }

    /// A job for `path` that receives its outcome from `receiver`.
    pub fn new(path: String, receiver: std::sync::mpsc::Receiver<AnalysisResult>) -> (job: Self)
        ensures
            job.subject() == path@,
    {
        AnalysisJob { path, receiver }
    }

    /// The analysis outcome, once the worker has delivered it.
    pub fn poll(&self) -> Option<AnalysisResult> {
        try_receive(&self.receiver)
    }
}

// ---------------------------------------------------------------------------
// Library of discovered dumps
// ---------------------------------------------------------------------------

pub struct LibraryState {
    pub files: Vec<FileEntry>,
    pub scan_location: Option<String>,
    pub scanned_directories: usize,
}

impl Default for LibraryState {
    fn default() -> (s: Self)
        ensures
            s.files@.len() == 0,
            s.scan_location is None,
            s.scanned_directories == 0,
    {
        LibraryState { files: Vec::new(), scan_location: None, scanned_directories: 0 }
    }
}

pub open spec fn entry_key(e: FileEntry) -> Seq<u64> {
    path_key(e.path@)
}

/// Paths never increase along `s`.
pub open spec fn sorted_descending(s: Seq<FileEntry>) -> bool {
    forall|i: int, j: int| 0 <= i < j < s.len() ==> !lex_lt(entry_key(s[i]), entry_key(s[j]))
}

/// Whether an entry's path has the key `key`.
pub open spec fn has_path_key(key: Seq<u64>) -> spec_fn(FileEntry) -> bool {
    |e: FileEntry| entry_key(e) == key
}

/// The entries of `s` whose path has the key `key`, in their order in `s`.
pub open spec fn with_key(s: Seq<FileEntry>, key: Seq<u64>) -> Seq<FileEntry> {
    s.filter(has_path_key(key))
}

/// Paths strictly increase along `s`.
pub open spec fn strictly_ascending(s: Seq<FileEntry>) -> bool {
    forall|i: int, j: int| 0 <= i < j < s.len() ==> lex_lt(entry_key(s[i]), entry_key(s[j]))
}

/// Index of the first entry of `s` whose path has the key `key`.
pub open spec fn first_with_key(s: Seq<FileEntry>, key: Seq<u64>) -> Option<int>
    decreases s.len(),
{
    if s.len() == 0 {
        None
    } else {
        match first_with_key(s.drop_last(), key) {
            Some(k) => Some(k),
            None => if entry_key(s.last()) == key {
                Some(s.len() - 1)
            } else {
                None
            },
        }
    }
}

/// Some entry of `r` has a path with the key `key`.
pub open spec fn has_key(r: Seq<FileEntry>, key: Seq<u64>) -> bool {
    exists|i: int| 0 <= i < r.len() && entry_key(#[trigger] r[i]) == key
}

/// `r` holds, for each distinct path of `input`, the first entry of `input`
/// with that path, and nothing else.
pub open spec fn first_of_each_path(r: Seq<FileEntry>, input: Seq<FileEntry>) -> bool {
    &&& forall|i: int|
        0 <= i < r.len() ==> (first_with_key(input, entry_key(#[trigger] r[i])) matches Some(k)
            && input[k] == r[i])
    &&& forall|k: int| 0 <= k < input.len() ==> has_key(r, entry_key(#[trigger] input[k]))
}

proof fn lemma_first_with_key_push(s: Seq<FileEntry>, e: FileEntry, key: Seq<u64>)
    ensures
        first_with_key(s.push(e), key) == (match first_with_key(s, key) {
            Some(k) => Some(k),
            None => if entry_key(e) == key {
                Some(s.len() as int)
            } else {
                None
            },
        }),
{
    assert(s.push(e).drop_last() =~= s);
}

proof fn lemma_first_with_key_bounds(s: Seq<FileEntry>, key: Seq<u64>)
    ensures
        first_with_key(s, key) matches Some(k) ==> 0 <= k < s.len() && entry_key(s[k]) == key,
        first_with_key(s, key) is None ==> forall|t: int| 0 <= t < s.len() ==> entry_key(#[trigger] s[t]) != key,
    decreases s.len(),
{
    if s.len() > 0 {
        lemma_first_with_key_bounds(s.drop_last(), key);
        assert forall|t: int| 0 <= t < s.len() - 1 implies s.drop_last()[t] == s[t] by {}
    }
}

fn key_list(files: &Vec<FileEntry>) -> (keys: Vec<Vec<u64>>)
    ensures
        keys@.len() == files@.len(),
        forall|i: int| 0 <= i < keys@.len() ==> (#[trigger] keys@[i])@ == entry_key(files@[i]),
{
    let n = files.len();
    let mut keys: Vec<Vec<u64>> = Vec::new();
    let mut i: usize = 0;
    while i < n
        invariant
            n == files@.len(),
            i <= n,
            keys@.len() == i,
            forall|k: int| 0 <= k < i ==> (#[trigger] keys@[k])@ == entry_key(files@[k]),
        decreases n - i,
    {
        keys.push(path_key_exec(files[i].path.as_str()));
        i = i + 1;
    }
    keys
}

impl LibraryState {
    /// Shows `files`, ordered by path from last to first; entries with the
    /// same path keep their order.
    pub fn replace(&mut self, files: Vec<FileEntry>)
        ensures
            sorted_descending(final(self).files@),
            final(self).files@.to_multiset() == files@.to_multiset(),
            forall|k: Seq<u64>| #[trigger] with_key(final(self).files@, k) == with_key(files@, k),
            final(self).scan_location == old(self).scan_location,
            final(self).scanned_directories == old(self).scanned_directories,
    {
        broadcast use vstd::seq_lib::group_to_multiset_ensures;

        let input_keys = key_list(&files);
        let n = files.len();
        let mut sorted: Vec<FileEntry> = Vec::new();
        let mut keys: Vec<Vec<u64>> = Vec::new();
        let mut input = files;
        let ghost all = input@;
        // Move entries out of `input` from the back, so the stable order is
        // obtained by inserting each before the first entry with the same or
        // a greater path... see `insert_descending`.
        let mut taken: Vec<FileEntry> = Vec::new();
        let mut i: usize = 0;
        while i < n
            invariant
                n == all.len(),
                i <= n,
                input_keys@.len() == n,
                forall|k: int| 0 <= k < n ==> (#[trigger] input_keys@[k])@ == entry_key(all[k]),
                keys@.len() == sorted@.len(),
                forall|k: int| 0 <= k < keys@.len() ==> (#[trigger] keys@[k])@ == entry_key(sorted@[k]),
                sorted_descending(sorted@),
                sorted@.to_multiset() == all.take(i as int).to_multiset(),
                forall|k: Seq<u64>| #[trigger] with_key(sorted@, k) == with_key(all.take(i as int), k),
                input@ == all,
            decreases n - i,
        {
            let entry = clone_entry(&input[i]);
            assert(entry == all[i as int]);
            let key = clone_key(&input_keys[i]);
            let ghost before = sorted@;
            insert_descending(&mut sorted, &mut keys, entry, key);
            proof {
                assert(all.take(i + 1) =~= all.take(i as int).push(all[i as int]));
                vstd::seq_lib::to_multiset_build(all.take(i as int), all[i as int]);
                assert forall|k: Seq<u64>| #[trigger] with_key(sorted@, k) == with_key(
                    all.take(i + 1),
                    k,
                ) by {
                    all.take(i as int).lemma_filter_push(entry, has_path_key(k));
                }
            }
            i = i + 1;
        }
        assert(all.take(n as int) =~= all);
        self.files = sorted;
    }

    /// Starts a new scan of `root`.
    pub fn begin_scan(&mut self, root: &str)
        ensures
            final(self).files@.len() == 0,
            final(self).scan_location matches Some(p) && p@ == root@,
            final(self).scanned_directories == 0,
    {
        self.files.clear();
        self.scan_location = Some(string_from(root));
        self.scanned_directories = 0;
    }

    /// Adds a batch of discovered files.
    pub fn found_batch(&mut self, files: Vec<FileEntry>)
        ensures
            final(self).files@ == old(self).files@ + files@,
            final(self).scan_location == old(self).scan_location,
            final(self).scanned_directories == old(self).scanned_directories,
    {
        let mut files = files;
        self.files.append(&mut files);
    }

    /// Records scan progress.
    pub fn progress(&mut self, path: String, directories: usize)
        ensures
            final(self).files == old(self).files,
            final(self).scan_location == Some(path),
            final(self).scanned_directories == directories,
    {
        self.scan_location = Some(path);
        self.scanned_directories = directories;
    }

    /// Orders the discovered files by path and keeps one entry per path (the
    /// first one found).
    pub fn finish_scan(&mut self)
        ensures
            strictly_ascending(final(self).files@),
            first_of_each_path(final(self).files@, old(self).files@),
            strictly_ascending(old(self).files@) ==> final(self).files@ == old(self).files@,
            final(self).scan_location is None,
            final(self).scanned_directories == old(self).scanned_directories,
    {
        let all_keys = key_list(&self.files);
        let ghost all = self.files@;
        let n = self.files.len();
        let mut result: Vec<FileEntry> = Vec::new();
        let mut keys: Vec<Vec<u64>> = Vec::new();
        let mut i: usize = 0;
        while i < n
            invariant
                n == all.len(),
                self.files@ == all,
                i <= n,
                all_keys@.len() == n,
                forall|k: int| 0 <= k < n ==> (#[trigger] all_keys@[k])@ == entry_key(all[k]),
                keys@.len() == result@.len(),
                forall|k: int| 0 <= k < keys@.len() ==> (#[trigger] keys@[k])@ == entry_key(result@[k]),
                strictly_ascending(result@),
                first_of_each_path(result@, all.take(i as int)),
            decreases n - i,
        {
            let entry = clone_entry(&self.files[i]);
            let key = clone_key(&all_keys[i]);
            insert_unique_ascending(&mut result, &mut keys, entry, key, Ghost(all), i);
            i = i + 1;
        }
        assert(all.take(n as int) =~= all);
        proof {
            if strictly_ascending(all) {
                lemma_finish_keeps_ordered(all, result@);
            }
        }
        self.files = result;
        self.scan_location = None;
    }
}

/// Two lists in strictly ascending path order that hold the same entries are
/// the same list.
proof fn lemma_ascending_same_entries(a: Seq<FileEntry>, b: Seq<FileEntry>)
    requires
        strictly_ascending(a),
        strictly_ascending(b),
        forall|i: int| 0 <= i < a.len() ==> b.contains(#[trigger] a[i]),
        forall|k: int| 0 <= k < b.len() ==> a.contains(#[trigger] b[k]),
    ensures
        a == b,
    decreases a.len(),
{
    if a.len() == 0 {
        if b.len() > 0 {
            assert(a.contains(b[0]));
        }
        assert(a =~= b);
    } else {
        if b.len() == 0 {
            assert(b.contains(a[0]));
        }
        let x = a.last();
        let y = b.last();
        assert(b.contains(a[a.len() - 1]));
        let k = choose|k: int| 0 <= k < b.len() && b[k] == x;
        assert(a.contains(b[b.len() - 1]));
        let j = choose|j: int| 0 <= j < a.len() && a[j] == y;
        if k < b.len() - 1 {
            assert(lex_lt(entry_key(b[k]), entry_key(b[b.len() - 1])));
            if j < a.len() - 1 {
                assert(lex_lt(entry_key(a[j]), entry_key(a[a.len() - 1])));
                lemma_lex_asymmetric(entry_key(x), entry_key(y));
            } else {
                lemma_lex_irreflexive(entry_key(x));
            }
        }
        assert(x == y);
        let a2 = a.drop_last();
        let b2 = b.drop_last();
        assert forall|i: int| 0 <= i < a2.len() implies b2.contains(#[trigger] a2[i]) by {
            assert(b.contains(a[i]));
            let m = choose|m: int| 0 <= m < b.len() && b[m] == a[i];
            if m == b.len() - 1 {
                assert(lex_lt(entry_key(a[i]), entry_key(a[a.len() - 1])));
                lemma_lex_irreflexive(entry_key(x));
            }
            assert(b2[m] == a2[i]);
        }
        assert forall|m: int| 0 <= m < b2.len() implies a2.contains(#[trigger] b2[m]) by {
            assert(a.contains(b[m]));
            let i = choose|i: int| 0 <= i < a.len() && a[i] == b[m];
            if i == a.len() - 1 {
                assert(lex_lt(entry_key(b[m]), entry_key(b[b.len() - 1])));
                lemma_lex_irreflexive(entry_key(y));
            }
            assert(a2[i] == b2[m]);
        }
        lemma_ascending_same_entries(a2, b2);
        assert(a =~= a2.push(x));
        assert(b =~= b2.push(y));
    }
}

/// Keeping the first entry of each path of a list that is already in strictly
/// ascending path order gives that list back.
proof fn lemma_finish_keeps_ordered(before: Seq<FileEntry>, after: Seq<FileEntry>)
    requires
        strictly_ascending(before),
        strictly_ascending(after),
        first_of_each_path(after, before),
    ensures
        after == before,
{
    assert forall|i: int| 0 <= i < after.len() implies before.contains(#[trigger] after[i]) by {
        let key = entry_key(after[i]);
        lemma_first_with_key_bounds(before, key);
        let k = first_with_key(before, key)->0;
        assert(before[k] == after[i]);
    }
    assert forall|k: int| 0 <= k < before.len() implies after.contains(#[trigger] before[k]) by {
        let key = entry_key(before[k]);
        assert(has_key(after, key));
        let i = choose|i: int| 0 <= i < after.len() && entry_key(#[trigger] after[i]) == key;
        lemma_first_with_key_bounds(before, key);
        let k2 = first_with_key(before, key)->0;
        assert(before[k2] == after[i]);
        if k2 != k {
            if k2 < k {
                assert(lex_lt(entry_key(before[k2]), entry_key(before[k])));
            } else {
                assert(lex_lt(entry_key(before[k]), entry_key(before[k2])));
            }
            lemma_lex_irreflexive(key);
        }
    }
    lemma_ascending_same_entries(after, before);
}

/// Finishing a scan twice gives the first finish's list again: once the
/// discovered dumps are ordered by path, one entry per path, a second finish
/// leaves them as they are.
pub proof fn lemma_finish_scan_settles(found: Seq<FileEntry>, once: Seq<FileEntry>, twice: Seq<FileEntry>)
    requires
        strictly_ascending(once),
        first_of_each_path(once, found),
        strictly_ascending(twice),
        first_of_each_path(twice, once),
    ensures
        twice == once,
{
    lemma_finish_keeps_ordered(once, twice);
}

fn clone_entry(e: &FileEntry) -> (r: FileEntry)
    ensures
        r == *e,
{
    FileEntry { path: e.path.clone(), size: e.size }
}

fn clone_key(k: &Vec<u64>) -> (r: Vec<u64>)
    ensures
        r@ == k@,
{
    let n = k.len();
    let mut r: Vec<u64> = Vec::new();
    let mut i: usize = 0;
    while i < n
        invariant
            n == k@.len(),
            i <= n,
            r@ == k@.take(i as int),
        decreases n - i,
    {
        r.push(k[i]);
        i = i + 1;
        assert(r@ =~= k@.take(i as int));
    }
    assert(k@.take(n as int) =~= k@);
    r
}

/// Inserts `entry` after every entry whose path is not smaller, keeping the
/// list ordered from the greatest path to the smallest.
fn insert_descending(
    sorted: &mut Vec<FileEntry>,
    keys: &mut Vec<Vec<u64>>,
    entry: FileEntry,
    key: Vec<u64>,
)
    requires
        key@ == entry_key(entry),
        old(keys)@.len() == old(sorted)@.len(),
        forall|k: int| 0 <= k < old(keys)@.len() ==> (#[trigger] old(keys)@[k])@ == entry_key(old(sorted)@[k]),
        sorted_descending(old(sorted)@),
    ensures
        final(keys)@.len() == final(sorted)@.len(),
        forall|k: int| 0 <= k < final(keys)@.len() ==> (#[trigger] final(keys)@[k])@ == entry_key(final(sorted)@[k]),
        sorted_descending(final(sorted)@),
        final(sorted)@.to_multiset() == old(sorted)@.to_multiset().insert(entry),
        forall|k: Seq<u64>|
            #[trigger] with_key(final(sorted)@, k) == if k == key@ {
                with_key(old(sorted)@, k).push(entry)
            } else {
                with_key(old(sorted)@, k)
            },
{
    broadcast use vstd::seq_lib::group_to_multiset_ensures;

    let n = sorted.len();
    let mut p: usize = 0;
    while p < n && !lex_lt_exec(&keys[p], &key)
        invariant
            n == sorted@.len(),
            n == keys@.len(),
            p <= n,
            forall|k: int| 0 <= k < keys@.len() ==> (#[trigger] keys@[k])@ == entry_key(sorted@[k]),
            forall|k: int| 0 <= k < p ==> !lex_lt(entry_key(#[trigger] sorted@[k]), key@),
        decreases n - p,
    {
        p = p + 1;
    }
    let ghost before = sorted@;
    sorted.insert(p, entry);
    keys.insert(p, key);
    proof {
        let after = sorted@;
        assert forall|i: int, j: int| 0 <= i < j < after.len() implies !lex_lt(
            entry_key(after[i]),
            entry_key(after[j]),
        ) by {
            if i < p && j == p {
            } else if i == p && j > p {
                // before[p] < key and before[j - 1] <= before[p]
                let bj = entry_key(before[j - 1]);
                let bp = entry_key(before[p as int]);
                assert(lex_lt(bp, key@));
                if j - 1 > p {
                    assert(!lex_lt(bp, bj));
                    lemma_lex_total(bj, bp);
                    if lex_lt(bj, bp) {
                        lemma_lex_transitive(bj, bp, key@);
                    }
                }
                lemma_lex_asymmetric(bj, key@);
            } else if i < p && j > p {
                assert(after[i] == before[i]);
                assert(after[j] == before[j - 1]);
            } else if i > p {
                assert(after[i] == before[i - 1]);
                assert(after[j] == before[j - 1]);
            } else {
                assert(after[i] == before[i]);
                assert(after[j] == before[j]);
            }
        }
        assert(after.remove(p as int) =~= before);
        assert(after.to_multiset().remove(entry) == before.to_multiset());
        assert(after.to_multiset().count(entry) > 0) by {
            assert(after.contains(entry)) by {
                assert(after[p as int] == entry);
            }
        }
        assert(after.to_multiset() =~= before.to_multiset().insert(entry));
        assert forall|k: int| 0 <= k < keys@.len() implies (#[trigger] keys@[k])@ == entry_key(
            sorted@[k],
        ) by {
            if k < p {
            } else if k > p {
                assert(keys@[k] == old(keys)@[k - 1]);
            }
        }
        lemma_smaller_after(before, p as int, key@);
        let head = before.take(p as int);
        let tail = before.skip(p as int);
        assert(after =~= head + seq![entry] + tail);
        assert(before =~= head + tail);
        assert forall|k: Seq<u64>| #[trigger] with_key(after, k) == if k == key@ {
            with_key(before, k).push(entry)
        } else {
            with_key(before, k)
        } by {
            let pred = has_path_key(k);
            Seq::filter_distributes_over_add(head + seq![entry], tail, pred);
            Seq::filter_distributes_over_add(head, seq![entry], pred);
            Seq::filter_distributes_over_add(head, tail, pred);
            assert(seq![entry] =~= Seq::<FileEntry>::empty().push(entry));
            Seq::<FileEntry>::empty().lemma_filter_push(entry, pred);
            reveal(Seq::filter);
            assert(Seq::<FileEntry>::empty().filter(pred) =~= Seq::<FileEntry>::empty());
            if k == key@ {
                assert forall|t: int| 0 <= t < tail.len() implies !pred(#[trigger] tail[t]) by {
                    assert(tail[t] == before[p + t]);
                    lemma_lex_irreflexive(key@);
                }
                tail.lemma_all_neg_filter_empty(pred);
                assert(tail.filter(pred) =~= Seq::<FileEntry>::empty());
                assert(with_key(after, k) =~= with_key(before, k).push(entry));
            } else {
                assert(with_key(after, k) =~= with_key(before, k));
            }
        }
    }
}

/// In a list ordered from the greatest path down, every entry from the first
/// one smaller than `key` onwards is smaller than `key`.
proof fn lemma_smaller_after(before: Seq<FileEntry>, p: int, key: Seq<u64>)
    requires
        sorted_descending(before),
        0 <= p <= before.len(),
        p < before.len() ==> lex_lt(entry_key(before[p]), key),
    ensures
        forall|j: int| p <= j < before.len() ==> lex_lt(entry_key(#[trigger] before[j]), key),
{
    assert forall|j: int| p <= j < before.len() implies lex_lt(entry_key(#[trigger] before[j]), key) by {
        if j > p {
            let bj = entry_key(before[j]);
            let bp = entry_key(before[p]);
            lemma_lex_total(bj, bp);
            if bj != bp {
                lemma_lex_transitive(bj, bp, key);
            }
        }
    }
}

proof fn lemma_insert_present(before: Seq<FileEntry>, prefix: Seq<FileEntry>, entry: FileEntry, p: int)
    requires
        0 <= p < before.len(),
        entry_key(before[p]) == entry_key(entry),
        first_of_each_path(before, prefix),
    ensures
        first_of_each_path(before, prefix.push(entry)),
{
    let next = prefix.push(entry);
    assert forall|r: int| 0 <= r < before.len() implies (first_with_key(next, entry_key(#[trigger] before[r])) matches Some(k)
        && next[k] == before[r]) by {
        lemma_first_with_key_push(prefix, entry, entry_key(before[r]));
        lemma_first_with_key_bounds(prefix, entry_key(before[r]));
    }
    assert forall|k: int| 0 <= k < next.len() implies has_key(before, entry_key(#[trigger] next[k])) by {
        if k < prefix.len() {
            assert(next[k] == prefix[k]);
        } else {
            assert(entry_key(before[p]) == entry_key(next[k]));
        }
    }
}

proof fn lemma_insert_new_sorted(before: Seq<FileEntry>, entry: FileEntry, p: int)
    requires
        0 <= p <= before.len(),
        strictly_ascending(before),
        forall|k: int| 0 <= k < p ==> lex_lt(entry_key(#[trigger] before[k]), entry_key(entry)),
        p < before.len() ==> lex_lt(entry_key(entry), entry_key(before[p])),
    ensures
        strictly_ascending(before.insert(p, entry)),
        forall|j: int| p <= j < before.len() ==> lex_lt(entry_key(entry), entry_key(#[trigger] before[j])),
{
    let key = entry_key(entry);
    let after = before.insert(p, entry);
    assert forall|j: int| p <= j < before.len() implies lex_lt(key, entry_key(#[trigger] before[j])) by {
        if j > p {
            lemma_lex_transitive(key, entry_key(before[p]), entry_key(before[j]));
        }
    }
    assert forall|a: int, b: int| 0 <= a < b < after.len() implies lex_lt(
        entry_key(after[a]),
        entry_key(after[b]),
    ) by {
        if a < p && b == p {
        } else if a == p && b > p {
            assert(after[b] == before[b - 1]);
        } else if a < p && b > p {
            assert(after[a] == before[a]);
            assert(after[b] == before[b - 1]);
        } else if a > p {
            assert(after[a] == before[a - 1]);
            assert(after[b] == before[b - 1]);
        } else {
            assert(after[a] == before[a]);
            assert(after[b] == before[b]);
        }
    }
}

proof fn lemma_insert_new_first(before: Seq<FileEntry>, prefix: Seq<FileEntry>, entry: FileEntry, p: int)
    requires
        0 <= p <= before.len(),
        first_of_each_path(before, prefix),
        forall|k: int| 0 <= k < p ==> lex_lt(entry_key(#[trigger] before[k]), entry_key(entry)),
        forall|j: int| p <= j < before.len() ==> lex_lt(entry_key(entry), entry_key(#[trigger] before[j])),
    ensures
        first_of_each_path(before.insert(p, entry), prefix.push(entry)),
{
    let key = entry_key(entry);
    let after = before.insert(p, entry);
    let next = prefix.push(entry);
    lemma_lex_irreflexive(key);
    // The new path occurs nowhere in the prefix.
    assert(first_with_key(prefix, key) is None) by {
        lemma_first_with_key_bounds(prefix, key);
        if first_with_key(prefix, key) is Some {
            let k = first_with_key(prefix, key)->0;
            assert(has_key(before, entry_key(prefix[k])));
            let r = choose|r: int| 0 <= r < before.len() && entry_key(#[trigger] before[r]) == entry_key(prefix[k]);
            if r < p {
                assert(lex_lt(entry_key(before[r]), key));
            } else {
                assert(lex_lt(key, entry_key(before[r])));
            }
        }
    }
    assert forall|r: int| 0 <= r < after.len() implies (first_with_key(next, entry_key(#[trigger] after[r])) matches Some(k)
        && next[k] == after[r]) by {
        lemma_first_with_key_push(prefix, entry, entry_key(after[r]));
        if r != p {
            let br = if r < p {
                r
            } else {
                r - 1
            };
            assert(after[r] == before[br]);
            lemma_first_with_key_bounds(prefix, entry_key(before[br]));
        }
    }
    assert forall|k: int| 0 <= k < next.len() implies has_key(after, entry_key(#[trigger] next[k])) by {
        if k < prefix.len() {
            assert(next[k] == prefix[k]);
            assert(has_key(before, entry_key(prefix[k])));
            let r = choose|r: int| 0 <= r < before.len() && entry_key(#[trigger] before[r]) == entry_key(prefix[k]);
            if r < p {
                assert(after[r] == before[r]);
            } else {
                assert(after[r + 1] == before[r]);
            }
        } else {
            assert(after[p] == entry);
        }
    }
}

/// Inserts `entry` into a strictly increasing list unless its path is already
/// present.
fn insert_unique_ascending(
    result: &mut Vec<FileEntry>,
    keys: &mut Vec<Vec<u64>>,
    entry: FileEntry,
    key: Vec<u64>,
    Ghost(all): Ghost<Seq<FileEntry>>,
    i: usize,
)
    requires
        i < all.len(),
        entry == all[i as int],
        key@ == entry_key(entry),
        old(keys)@.len() == old(result)@.len(),
        forall|k: int| 0 <= k < old(keys)@.len() ==> (#[trigger] old(keys)@[k])@ == entry_key(old(result)@[k]),
        strictly_ascending(old(result)@),
        first_of_each_path(old(result)@, all.take(i as int)),
    ensures
        final(keys)@.len() == final(result)@.len(),
        forall|k: int| 0 <= k < final(keys)@.len() ==> (#[trigger] final(keys)@[k])@ == entry_key(final(result)@[k]),
        strictly_ascending(final(result)@),
        first_of_each_path(final(result)@, all.take(i + 1)),
{
    let n = result.len();
    let mut p: usize = 0;
    while p < n && lex_lt_exec(&keys[p], &key)
        invariant
            n == result@.len(),
            n == keys@.len(),
            p <= n,
            forall|k: int| 0 <= k < keys@.len() ==> (#[trigger] keys@[k])@ == entry_key(result@[k]),
            forall|k: int| 0 <= k < p ==> lex_lt(entry_key(#[trigger] result@[k]), key@),
        decreases n - p,
    {
        p = p + 1;
    }
    let ghost before = result@;
    let ghost prefix = all.take(i as int);
    assert(all.take(i + 1) =~= prefix.push(entry));
    if p < n && key_eq_exec(&keys[p], &key) {
        // The path is already present: keep the earlier entry.
        proof {
            lemma_insert_present(before, prefix, entry, p as int);
        }
        return;
    }
    proof {
        if p < n {
            lemma_lex_total(key@, entry_key(before[p as int]));
        }
        lemma_insert_new_sorted(before, entry, p as int);
        lemma_insert_new_first(before, prefix, entry, p as int);
    }
    result.insert(p, entry);
    keys.insert(p, key);
    proof {
        assert forall|k: int| 0 <= k < keys@.len() implies (#[trigger] keys@[k])@ == entry_key(
            result@[k],
        ) by {
            if k < p {
            } else if k > p {
                assert(keys@[k] == old(keys)@[k - 1]);
            }
        }
    }
}

// ---------------------------------------------------------------------------
// Paths and symbol settings
// ---------------------------------------------------------------------------

pub open spec fn opt_view(o: Option<&str>) -> Option<Seq<char>> {
    match o {
        Some(s) => Some(s@),
        None => None,
    }
}

/// `PathBuf::join` for slash-separated paths: an absolute `rest` replaces
/// `base`; otherwise a separator is added when `base` is non-empty and does
/// not already end in one.
pub open spec fn join_path(base: Seq<char>, rest: Seq<char>) -> Seq<char> {
    if rest.len() > 0 && rest[0] == '/' {
        rest
    } else if base.len() > 0 && base.last() != '/' {
        base + seq!['/'] + rest
    } else {
        base + rest
    }
}

/// `~` is the home directory (empty when unknown); `~/rest` is `rest` inside
/// the home directory when it is known; anything else is unchanged.
pub open spec fn expanded(value: Seq<char>, home: Option<Seq<char>>) -> Seq<char> {
    if value == seq!['~'] {
        match home {
            Some(h) => h,
            None => Seq::empty(),
        }
    } else if starts_with(value, seq!['~', '/']) && home is Some {
        join_path(home->0, value.skip(2))
    } else {
        value
    }
}

/// `base` joined with `rest`.
pub fn join(base: &str, rest: &str) -> (r: String)
    ensures
        r@ == join_path(base@, rest@),
{
    let b = chars_of(base);
    let rc = chars_of(rest);
    if rc.len() > 0 && rc[0] == '/' {
        return string_of(&rc);
    }
    let mut out = string_of(&b);
    if b.len() > 0 && b[b.len() - 1] != '/' {
        crate::text::push_char(&mut out, '/');
    }
    push_chars(&mut out, &rc);
    assert(out@ =~= join_path(base@, rest@));
    out
}

/// Expands a leading `~` to the home directory.
pub fn expand_home(value: &str, home: Option<&str>) -> (r: String)
    ensures
        r@ == expanded(value@, opt_view(home)),
{
    let v = chars_of(value);
    if v.len() == 1 && v[0] == '~' {
        assert(value@ =~= seq!['~']);
        return match home {
            Some(h) => string_from(h),
            None => String::new(),
        };
    }
    assert(value@ != seq!['~']) by {
        if v@.len() == 1 {
            assert(v@[0] != '~');
        }
    }
    let prefixed = v.len() >= 2 && v[0] == '~' && v[1] == '/';
    assert(prefixed == starts_with(value@, seq!['~', '/'])) by {
        if v@.len() >= 2 {
            if prefixed {
                assert(value@.take(2) =~= seq!['~', '/']);
            } else {
                assert(value@.take(2)[0] != '~' || value@.take(2)[1] != '/');
            }
        }
    }
    if prefixed {
        if let Some(h) = home {
            let mut rest: Vec<char> = Vec::new();
            let n = v.len();
            let mut i: usize = 2;
            while i < n
                invariant
                    n == v@.len(),
                    2 <= i <= n,
                    rest@ == v@.subrange(2, i as int),
                decreases n - i,
            {
                rest.push(v[i]);
                i = i + 1;
                assert(rest@ =~= v@.subrange(2, i as int));
            }
            assert(rest@ =~= value@.skip(2));
            let rest_string = string_of(&rest);
            return join(h, rest_string.as_str());
        }
    }
    string_from(value)
}

/// The trimmed, non-empty lines among `parts`.
pub open spec fn nonempty_trimmed(parts: Seq<Seq<char>>) -> Seq<Seq<char>>
    decreases parts.len(),
{
    if parts.len() == 0 {
        Seq::empty()
    } else {
        nonempty_trimmed(parts.drop_last()) + (if trim(parts.last()).len() > 0 {
            seq![trim(parts.last())]
        } else {
            Seq::empty()
        })
    }
}

/// The lines of `s`, trimmed, without the empty ones.
pub open spec fn nonempty_lines_of(s: Seq<char>) -> Seq<Seq<char>> {
    nonempty_trimmed(split_on(s, '\n'))
}

/// The lines of `value`, trimmed, without the empty ones.
pub fn nonempty_lines(value: &str) -> (lines: Vec<String>)
    ensures
        views(lines@) == nonempty_lines_of(value@),
{
    let v = chars_of(value);
    let parts = split_chars(&v, '\n');
    let n = parts.len();
    let mut lines: Vec<String> = Vec::new();
    let mut i: usize = 0;
    while i < n
        invariant
            n == parts@.len(),
            n == split_on(value@, '\n').len(),
            forall|k: int| 0 <= k < n ==> (#[trigger] parts@[k])@ == split_on(value@, '\n')[k],
            i <= n,
            views(lines@) == nonempty_trimmed(split_on(value@, '\n').take(i as int)),
        decreases n - i,
    {
        let t = trim_chars(&parts[i]);
        let ghost before = views(lines@);
        if t.len() > 0 {
            lines.push(string_of(&t));
        }
        i = i + 1;
        proof {
            let all = split_on(value@, '\n');
            assert(all.take(i as int).drop_last() =~= all.take(i - 1));
            assert(all.take(i as int).last() == parts@[i - 1]@);
            assert(views(lines@) =~= nonempty_trimmed(all.take(i as int)));
        }
    }
    assert(split_on(value@, '\n').take(n as int) =~= split_on(value@, '\n'));
    lines
}

#[derive(Default)]
pub struct SymbolSettings {
    pub local_paths: String,
    pub server_urls: String,
    pub source_root_from: String,
    pub source_root_to: String,
}

impl SymbolSettings {
    /// The symbol configuration described by the settings: one local path or
    /// server per non-empty line (trimmed, local paths with `~` expanded), and
    /// a cache under the home directory, or under `temp_dir` when the home
    /// directory is unknown.
    pub fn config(&self, home: Option<&str>, temp_dir: &str) -> (c: SymbolConfig)
        ensures
            views(c.local_paths@) == nonempty_lines_of(self.local_paths@).map_values(
                |p: Seq<char>| expanded(p, opt_view(home)),
            ),
            views(c.server_urls@) == nonempty_lines_of(self.server_urls@),
            c.cache_dir@ == join_path(
                match home {
                    Some(h) => h@,
                    None => temp_dir@,
                },
                "Library/Caches/CrashLens/symbols"@,
            ),
    {
        let lines = nonempty_lines(self.local_paths.as_str());
        let n = lines.len();
        let mut local_paths: Vec<String> = Vec::new();
        let mut i: usize = 0;
        while i < n
            invariant
                n == lines@.len(),
                i <= n,
                views(lines@) == nonempty_lines_of(self.local_paths@),
                views(local_paths@) == views(lines@).take(i as int).map_values(
                    |p: Seq<char>| expanded(p, opt_view(home)),
                ),
            decreases n - i,
        {
            let ghost before = views(local_paths@);
            let expanded_path = expand_home(lines[i].as_str(), home);
            assert(views(lines@)[i as int] == lines@[i as int]@);
            local_paths.push(expanded_path);
            assert(views(local_paths@) =~= before.push(expanded_path@));
            i = i + 1;
            assert(views(local_paths@) =~= views(lines@).take(i as int).map_values(
                |p: Seq<char>| expanded(p, opt_view(home)),
            ));
        }
        assert(views(lines@).take(n as int) =~= views(lines@));
        let cache_root = match home {
            Some(h) => h,
            None => temp_dir,
        };
        SymbolConfig {
            local_paths,
            server_urls: nonempty_lines(self.server_urls.as_str()),
            cache_dir: join(cache_root, "Library/Caches/CrashLens/symbols"),
        }
    }
}

// ---------------------------------------------------------------------------
// Comparison selection
// ---------------------------------------------------------------------------

/// `s` without the paths equal to `p`.
pub open spec fn without_path(s: Seq<Seq<char>>, p: Seq<char>) -> Seq<Seq<char>>
    decreases s.len(),
{
    if s.len() == 0 {
        Seq::empty()
    } else {
        without_path(s.drop_last(), p) + (if path_eq(s.last(), p) {
            Seq::empty()
        } else {
            seq![s.last()]
        })
    }
}

/// At most two paths, no two of them the same.
pub open spec fn valid_selection(s: Seq<Seq<char>>) -> bool {
    s.len() <= 2 && forall|i: int, j: int| 0 <= i < j < s.len() ==> !path_eq(s[i], s[j])
}

pub open spec fn selection_after(s: Seq<Seq<char>>, p: Seq<char>, selected: bool) -> Seq<
    Seq<char>,
> {
    if selected {
        if s.len() < 2 && !(exists|i: int| 0 <= i < s.len() && path_eq(#[trigger] s[i], p)) {
            s.push(p)
        } else {
            s
        }
    } else {
        without_path(s, p)
    }
}

proof fn lemma_without_path_subseq(s: Seq<Seq<char>>, p: Seq<char>)
    ensures
        without_path(s, p).len() <= s.len(),
        forall|i: int|
            0 <= i < without_path(s, p).len() ==> exists|k: int|
                0 <= k < s.len() && s[k] == #[trigger] without_path(s, p)[i],
        valid_selection(s) ==> valid_selection(without_path(s, p)),
    decreases s.len(),
{
    if s.len() > 0 {
        lemma_without_path_subseq(s.drop_last(), p);
        let w = without_path(s.drop_last(), p);
        let r = without_path(s, p);
        assert forall|i: int| 0 <= i < r.len() implies exists|k: int|
            0 <= k < s.len() && s[k] == #[trigger] r[i] by {
            if i < w.len() {
                let k = choose|k: int| 0 <= k < s.drop_last().len() && s.drop_last()[k] == #[trigger] w[i];
                assert(s[k] == r[i]);
            } else {
                assert(s[s.len() - 1] == r[i]);
            }
        }
        if valid_selection(s) {
            assert(valid_selection(s.drop_last())) by {
                assert forall|i: int, j: int| 0 <= i < j < s.drop_last().len() implies !path_eq(
                    s.drop_last()[i],
                    s.drop_last()[j],
                ) by {
                    assert(s.drop_last()[i] == s[i]);
                    assert(s.drop_last()[j] == s[j]);
                }
            }
            if !path_eq(s.last(), p) {
                assert forall|i: int, j: int| 0 <= i < j < r.len() implies !path_eq(r[i], r[j]) by {
                    if j == r.len() - 1 {
                        let k = choose|k: int| 0 <= k < s.drop_last().len() && s.drop_last()[k] == #[trigger] w[i];
                        assert(r[i] == s[k]);
                        assert(r[j] == s[s.len() - 1]);
                    } else {
                        assert(r[i] == w[i]);
                        assert(r[j] == w[j]);
                    }
                }
            }
        }
    }
}

/// Adds `path` to, or removes it from, the pair of dumps selected for
/// comparison. A path is added only when fewer than two are selected and it
/// is not already selected; removing drops every entry equal to it.
pub fn set_comparison_selected(selection: &mut Vec<String>, path: &str, selected: bool)
    ensures
        views(final(selection)@) == selection_after(views(old(selection)@), path@, selected),
        valid_selection(views(old(selection)@)) ==> valid_selection(views(final(selection)@)),
{
    let key = path_key_exec(path);
    let n = selection.len();
    let ghost old_view = views(selection@);
    if selected {
        if n >= 2 {
            return;
        }
        let mut i: usize = 0;
        while i < n
            invariant
                n == selection@.len(),
                i <= n,
                views(selection@) == old_view,
                views(old(selection)@) == old_view,
                selected,
                n < 2,
                key@ == path_key(path@),
                forall|k: int| 0 <= k < i ==> !path_eq(#[trigger] old_view[k], path@),
            decreases n - i,
        {
            let k = path_key_exec(selection[i].as_str());
            assert(old_view[i as int] == selection@[i as int]@);
            if key_eq_exec(&k, &key) {
                assert(path_eq(old_view[i as int], path@));
                assert(views(old(selection)@) == old_view);
                return;
            }
            i = i + 1;
        }
        selection.push(string_from(path));
        proof {
            assert(views(selection@) =~= old_view.push(path@));
            if valid_selection(old_view) {
                let s = views(selection@);
                assert forall|a: int, b: int| 0 <= a < b < s.len() implies !path_eq(s[a], s[b]) by {
                    if b == s.len() - 1 {
                        assert(!path_eq(old_view[a], path@));
                    } else {
                        assert(s[a] == old_view[a]);
                        assert(s[b] == old_view[b]);
                    }
                }
            }
        }
    } else {
        let mut kept: Vec<String> = Vec::new();
        let mut i: usize = 0;
        while i < n
            invariant
                n == selection@.len(),
                i <= n,
                views(selection@) == old_view,
                key@ == path_key(path@),
                views(kept@) == without_path(old_view.take(i as int), path@),
            decreases n - i,
        {
            let k = path_key_exec(selection[i].as_str());
            assert(old_view[i as int] == selection@[i as int]@);
            let ghost before = views(kept@);
            if !key_eq_exec(&k, &key) {
                kept.push(selection[i].clone());
            }
            i = i + 1;
            proof {
                assert(old_view.take(i as int).drop_last() =~= old_view.take(i - 1));
                assert(views(kept@) =~= without_path(old_view.take(i as int), path@));
            }
        }
        assert(old_view.take(n as int) =~= old_view);
        *selection = kept;
        proof {
            lemma_without_path_subseq(old_view, path@);
        }
    }
}

/// Takes the selected pair, in selection order, leaving the selection empty;
/// nothing is taken unless exactly two dumps are selected.
pub fn take_comparison_pair(selection: &mut Vec<String>) -> (pair: Option<(String, String)>)
    ensures
        old(selection)@.len() != 2 ==> pair is None && final(selection)@ == old(selection)@,
        old(selection)@.len() == 2 ==> (pair matches Some((first, second)) && first == old(
            selection,
        )@[0] && second == old(selection)@[1]) && final(selection)@.len() == 0,
{
    if selection.len() != 2 {
        return None;
    }
    let second = selection.pop().unwrap();
    let first = selection.pop().unwrap();
    Some((first, second))
}

} // verus!
