//! A cache of the output from 'jj show'.
//!
//! It is optimized for continous editing, which means that the automatic
//! rebase that happens when a change is modified will also empty cache
//! values. It does allow divergent changes, where several visible commits
//! share the same change id.
//!
//! The design prevents a single huge commit from eating memory if an
//! ancestor causes it to be rebased without modification lots of times.

use crate::large_string::LargeString;
use crate::revision::{ChangeId, DiffFormat, DiffFormatView, Head, HeadView};
use vstd::hash_map::StringHashMap;
use vstd::prelude::*;
use vstd::std_specs::cmp::PartialEqSpecImpl;

verus! {

/// The mathematical value of a [`CommitShowKey`].
pub struct CommitShowKeyView {
    pub id: HeadView,
    pub format: DiffFormatView,
    pub width: usize,
}

impl CommitShowKeyView {
    /// The change id of the shown revision.
    pub open spec fn change_id(self) -> Seq<char> {
        self.id.change_id
    }

    /// The same key with another head.
    pub open spec fn with_head(self, id: HeadView) -> CommitShowKeyView {
        CommitShowKeyView { id, format: self.format, width: self.width }
    }

    /// The same key marked dirty: its width set to 1.
    pub open spec fn dirty(self) -> CommitShowKeyView {
        CommitShowKeyView { id: self.id, format: self.format, width: 1 }
    }
}

/// 'jj show' output depends on all these values
#[derive(Debug, Hash)]
pub struct CommitShowKey {
    /// Commit id of shown change
    id: Head,
    /// Formatting used to render change
    format: DiffFormat,
    /// Render width.
    /// Set to 0 for all except format=DiffTool.
    /// For DiffTool it is set to the inner with of the details panel,
    /// which is given to the tool via the COLUMNS environment variable.
    width: usize,
}

impl View for CommitShowKey {
    type V = CommitShowKeyView;

    closed spec fn view(&self) -> CommitShowKeyView {
        CommitShowKeyView { id: self.id@, format: self.format@, width: self.width }
    }
}

impl CommitShowKey {
    /// Create a new key. If DiffFormat is not DiffTool, then width
    /// will be set to zero.
    pub fn new(id: Head, format: DiffFormat, width: usize) -> (r: Self)
        ensures
            r@ == (CommitShowKeyView {
                id: id@,
                format: format@,
                width: if format@ is DiffTool {
                    width
                } else {
                    0
                },
            }),
    {
        // Keep with only for the DiffTool format
        let width = if format.is_diff_tool() {
            width
        } else {
            0
        };
        CommitShowKey { id, format, width }
    }
}

impl Clone for CommitShowKey {
    fn clone(&self) -> (r: Self)
        ensures
            r@ == self@,
    {
        CommitShowKey { id: self.id.clone(), format: self.format.clone(), width: self.width }
    }
}

impl PartialEq for CommitShowKey {
    fn eq(&self, other: &Self) -> (r: bool) {
        self.id == other.id && self.format == other.format && self.width == other.width
    }
}

impl PartialEqSpecImpl for CommitShowKey {
    open spec fn obeys_eq_spec() -> bool {
        true
    }

    open spec fn eq_spec(&self, other: &CommitShowKey) -> bool {
        self@ == other@
    }
}

impl Eq for CommitShowKey {}

/// The mathematical value of a [`CommitShowValue`]: the key it answers and
/// the shown document.
pub struct CommitShowValueView {
    pub key: CommitShowKeyView,
    pub output: Seq<char>,
}

/// The output from 'jj show' in a form that is fast to render a subset of
/// A structure that allows fast rendering of document with millions of lines
#[derive(Debug)]
pub struct CommitShowValue {
    key: CommitShowKey,
    jj_output: LargeString,
}

impl View for CommitShowValue {
    type V = CommitShowValueView;

    closed spec fn view(&self) -> CommitShowValueView {
        CommitShowValueView { key: self.key@, output: self.jj_output@ }
    }
}

impl CommitShowValue {
    /// Index value, and store both key and value
    pub fn new(key: CommitShowKey, value: String) -> (r: Self)
        ensures
            r@ == (CommitShowValueView { key: key@, output: value@ }),
    {
        CommitShowValue { key, jj_output: LargeString::new(value) }
    }

    /// The indexed output of 'jj show'.
    pub fn value(&self) -> (r: &LargeString)
        ensures
            r@ == self@.output,
    {
        &self.jj_output
    }
}

/// The mathematical value of a [`CommitShowCache`].
pub struct CommitShowCacheView {
    /// The active keys: those declared by the last `set_active`, for all
    /// heads of the visible changes, and those stored since.
    pub active: Set<CommitShowKeyView>,
    /// For a change with a cached key that is not active: one such key,
    /// which stands in for the change until a key of it is stored.
    pub old: Map<Seq<char>, CommitShowKeyView>,
    /// The cached output of 'jj show' for each key.
    pub documents: Map<CommitShowKeyView, Seq<char>>,
}

impl CommitShowCacheView {
    /// `self` is the cache after the keys of `heads`, made from `key`, are
    /// declared active in `before`: every cached key that is not active
    /// then stands in for its change, one key per change.
    pub open spec fn is_set_active_of(
        self,
        before: CommitShowCacheView,
        heads: Seq<HeadView>,
        key: CommitShowKeyView,
    ) -> bool {
        &&& self.active == Set::new(
            |k: CommitShowKeyView|
                exists|i: int| 0 <= i < heads.len() && k == key.with_head(#[trigger] heads[i]),
        )
        &&& self.documents == before.documents
        &&& forall|c: Seq<char>| #[trigger]
            self.old.contains_key(c) <==> exists|k: CommitShowKeyView| #[trigger]
                self.documents.contains_key(k) && !self.active.contains(k) && k.change_id() == c
        &&& forall|c: Seq<char>| #[trigger]
            self.old.contains_key(c) ==> {
                &&& self.old[c].change_id() == c
                &&& self.documents.contains_key(self.old[c])
                &&& !self.active.contains(self.old[c])
            }
    }

    /// The cache after all active keys are marked dirty: each document of an
    /// active key moves to its dirty key, the old key of its change is
    /// dropped with its document, and no key stays active.
    pub open spec fn after_mark_dirty(self) -> CommitShowCacheView {
        let changes = dirty_changes(self.documents, self.active);
        CommitShowCacheView {
            active: Set::empty(),
            old: self.old.remove_keys(changes),
            documents: marked_dirty(
                self.documents.remove_keys(stale_keys(self.old, changes)),
                self.active,
            ),
        }
    }

    /// What holds of every cache: each old key is a cached, inactive key of
    /// its change, and no two active keys show the same head in the same
    /// format.
    pub open spec fn well_formed(self) -> bool {
        &&& one_per_head(self.active)
        &&& forall|c: Seq<char>| #[trigger]
            self.old.contains_key(c) ==> {
                &&& self.old[c].change_id() == c
                &&& self.documents.contains_key(self.old[c])
                &&& !self.active.contains(self.old[c])
            }
    }

    /// The cached key that answers a request for `key`: the key itself when
    /// it is cached, else the old key that stands in for its change.
    pub open spec fn answer(self, key: CommitShowKeyView) -> Option<CommitShowKeyView> {
        if self.documents.contains_key(key) {
            Some(key)
        } else if self.old.contains_key(key.change_id()) {
            Some(self.old[key.change_id()])
        } else {
            None
        }
    }

    /// The cache after `value` is stored as the output for its key, with the
    /// active keys unchanged: the old key of the same change, if there is
    /// one, is dropped with its output.
    pub open spec fn after_store(self, value: CommitShowValueView) -> CommitShowCacheView {
        let c = value.key.change_id();
        CommitShowCacheView {
            active: self.active,
            old: self.old.remove(c),
            documents: if self.old.contains_key(c) {
                self.documents.remove(self.old[c]).insert(value.key, value.output)
            } else {
                self.documents.insert(value.key, value.output)
            },
        }
    }

    /// The cache after `value` is stored as the active output for its key:
    /// it is stored as by `after_store`, and its key becomes active.
    pub open spec fn after_insert(self, value: CommitShowValueView) -> CommitShowCacheView {
        CommitShowCacheView {
            active: activated(self.active, value.key),
            ..self.after_store(value)
        }
    }
}

/// True when a key of `keys` with a cached document becomes `x` once it is
/// marked dirty.
pub open spec fn has_dirty_source(
    docs: Map<CommitShowKeyView, Seq<char>>,
    keys: Set<CommitShowKeyView>,
    x: CommitShowKeyView,
) -> bool {
    exists|k: CommitShowKeyView| keys.contains(k) && docs.contains_key(k) && #[trigger] k.dirty() == x
}

/// The key of `keys` with a cached document that becomes `x` once it is
/// marked dirty.
pub open spec fn dirty_source(
    docs: Map<CommitShowKeyView, Seq<char>>,
    keys: Set<CommitShowKeyView>,
    x: CommitShowKeyView,
) -> CommitShowKeyView {
    choose|k: CommitShowKeyView| keys.contains(k) && docs.contains_key(k) && #[trigger] k.dirty() == x
}

/// The documents after each key of `keys` that has a cached document is
/// marked dirty: its document moves to the key with width 1.
pub open spec fn marked_dirty(
    docs: Map<CommitShowKeyView, Seq<char>>,
    keys: Set<CommitShowKeyView>,
) -> Map<CommitShowKeyView, Seq<char>> {
    Map::new(
        |x: CommitShowKeyView|
            (docs.contains_key(x) && !keys.contains(x)) || has_dirty_source(docs, keys, x),
        |x: CommitShowKeyView|
            if has_dirty_source(docs, keys, x) {
                docs[dirty_source(docs, keys, x)]
            } else {
                docs[x]
            },
    )
}

/// The changes of the keys of `keys` that have a cached document.
pub open spec fn dirty_changes(
    docs: Map<CommitShowKeyView, Seq<char>>,
    keys: Set<CommitShowKeyView>,
) -> Set<Seq<char>> {
    Set::new(
        |c: Seq<char>|
            exists|k: CommitShowKeyView| #[trigger]
                keys.contains(k) && docs.contains_key(k) && k.change_id() == c,
    )
}

/// The old keys that stand in for the changes of `changes`.
pub open spec fn stale_keys(
    old: Map<Seq<char>, CommitShowKeyView>,
    changes: Set<Seq<char>>,
) -> Set<CommitShowKeyView> {
    Set::new(
        |x: CommitShowKeyView|
            exists|c: Seq<char>| #[trigger] changes.contains(c) && old.contains_key(c) && old[c] == x,
    )
}

/// Dropping a document that no key of `keys` moves to commutes with
/// marking `keys` dirty.
proof fn lemma_marked_dirty_without(
    docs: Map<CommitShowKeyView, Seq<char>>,
    all: Set<CommitShowKeyView>,
    keys: Set<CommitShowKeyView>,
    x: CommitShowKeyView,
)
    requires
        one_per_head(all),
        keys.subset_of(all),
        !keys.contains(x),
        !has_dirty_source(docs, keys, x),
    ensures
        marked_dirty(docs.remove(x), keys) == marked_dirty(docs, keys).remove(x),
{
    let a = marked_dirty(docs.remove(x), keys);
    let b = marked_dirty(docs, keys).remove(x);
    assert forall|p: CommitShowKeyView, q: CommitShowKeyView|
        #![trigger p.dirty(), q.dirty()]
        keys.contains(p) && keys.contains(q) && p.dirty() == q.dirty() implies p == q by {
        assert(all.contains(p) && all.contains(q));
    }
    assert forall|y: CommitShowKeyView| #[trigger] a.contains_key(y) == b.contains_key(y) by {
        if has_dirty_source(docs.remove(x), keys, y) {
            let k = dirty_source(docs.remove(x), keys, y);
            assert(keys.contains(k) && docs.contains_key(k) && k.dirty() == y);
        }
        if has_dirty_source(docs, keys, y) && y != x {
            let k = dirty_source(docs, keys, y);
            assert(k != x);
            assert(keys.contains(k) && docs.remove(x).contains_key(k) && k.dirty() == y);
        }
    }
    assert forall|y: CommitShowKeyView| #[trigger] a.contains_key(y) implies a[y] == b[y] by {
        if has_dirty_source(docs.remove(x), keys, y) {
            let k = dirty_source(docs.remove(x), keys, y);
            assert(keys.contains(k) && docs.contains_key(k) && k.dirty() == y);
            assert(has_dirty_source(docs, keys, y));
            let k2 = dirty_source(docs, keys, y);
            assert(k2 == k);
        } else {
            if has_dirty_source(docs, keys, y) {
                let k2 = dirty_source(docs, keys, y);
                assert(k2 != x);
                assert(keys.contains(k2) && docs.remove(x).contains_key(k2) && k2.dirty() == y);
            }
        }
    }
    assert(a =~= b);
}

/// True when `a` and `b` show the same head in the same format; they
/// differ at most in their width.
pub open spec fn same_head_format(a: CommitShowKeyView, b: CommitShowKeyView) -> bool {
    a.id == b.id && a.format == b.format
}

/// No two keys of `keys` show the same head in the same format.
pub open spec fn one_per_head(keys: Set<CommitShowKeyView>) -> bool {
    forall|a: CommitShowKeyView, b: CommitShowKeyView|
        #[trigger] keys.contains(a) && #[trigger] keys.contains(b) && same_head_format(a, b)
            ==> a == b
}

/// The keys of `active` once `key` is made active: it replaces the key of
/// the same head and format, if another width of it was active.
pub open spec fn activated(
    active: Set<CommitShowKeyView>,
    key: CommitShowKeyView,
) -> Set<CommitShowKeyView> {
    Set::new(|a: CommitShowKeyView| active.contains(a) && !same_head_format(a, key)).insert(key)
}

/// Marking one more key dirty moves its document, if it has one, and keeps
/// every other document where it is.
proof fn lemma_marked_dirty_step(
    docs: Map<CommitShowKeyView, Seq<char>>,
    all: Set<CommitShowKeyView>,
    done: Set<CommitShowKeyView>,
    k: CommitShowKeyView,
)
    requires
        one_per_head(all),
        done.subset_of(all),
        all.contains(k),
        !done.contains(k),
    ensures
        marked_dirty(docs, done).contains_key(k) == docs.contains_key(k),
        docs.contains_key(k) ==> marked_dirty(docs, done)[k] == docs[k],
        marked_dirty(docs, done.insert(k)) == if docs.contains_key(k) {
            marked_dirty(docs, done).remove(k).insert(k.dirty(), docs[k])
        } else {
            marked_dirty(docs, done)
        },
{
    let d = marked_dirty(docs, done);
    let after = done.insert(k);
    let m = marked_dirty(docs, after);
    // Two keys of `all` that agree once marked dirty are the same key, and a
    // key of `all` that is a dirty key is its own dirty key.
    assert forall|a: CommitShowKeyView, b: CommitShowKeyView|
        #![trigger a.dirty(), b.dirty()]
        all.contains(a) && all.contains(b) && a.dirty() == b.dirty() implies a == b by {
        assert(all.contains(a) && all.contains(b));
    }
    assert forall|a: CommitShowKeyView, b: CommitShowKeyView|
        all.contains(a) && #[trigger] all.contains(b) && #[trigger] a.dirty() == b implies a == b by {
        assert(all.contains(a) && all.contains(b));
    }
    if has_dirty_source(docs, done, k) {
        let p = dirty_source(docs, done, k);
        assert(all.contains(p));
        assert(p == k);
    }
    let expected = if docs.contains_key(k) {
        d.remove(k).insert(k.dirty(), docs[k])
    } else {
        d
    };
    assert forall|x: CommitShowKeyView| #[trigger] m.contains_key(x) == expected.contains_key(x) by {
        if has_dirty_source(docs, after, x) {
            let q = dirty_source(docs, after, x);
            if q != k {
                assert(has_dirty_source(docs, done, x));
            }
        }
        if has_dirty_source(docs, done, x) {
            let q = dirty_source(docs, done, x);
            assert(after.contains(q));
            assert(has_dirty_source(docs, after, x));
            assert(x != k);
        }
        if docs.contains_key(k) && x == k.dirty() {
            assert(after.contains(k));
            assert(has_dirty_source(docs, after, x));
        }
    }
    assert forall|x: CommitShowKeyView| #[trigger] m.contains_key(x) implies m[x] == expected[x] by {
        if has_dirty_source(docs, after, x) {
            let q = dirty_source(docs, after, x);
            if q == k {
                assert(x == k.dirty());
            } else {
                assert(has_dirty_source(docs, done, x));
                let p = dirty_source(docs, done, x);
                assert(p == q);
                if docs.contains_key(k) {
                    assert(x != k.dirty());
                }
                assert(x != k);
            }
        } else {
            if has_dirty_source(docs, done, x) {
                let p = dirty_source(docs, done, x);
                assert(after.contains(p));
                assert(false);
            }
            if docs.contains_key(k) {
                assert(x != k.dirty());
            }
        }
    }
    assert(m =~= expected);
}

/// The cached documents held by a sequence of values, by key.
pub open spec fn documents_of(docs: Seq<CommitShowValue>) -> Map<CommitShowKeyView, Seq<char>> {
    Map::new(
        |k: CommitShowKeyView| exists|i: int| 0 <= i < docs.len() && (#[trigger] docs[i])@.key == k,
        |k: CommitShowKeyView|
            docs[choose|i: int| 0 <= i < docs.len() && (#[trigger] docs[i])@.key == k]@.output,
    )
}

/// No two values of `docs` share a key.
pub open spec fn distinct_documents(docs: Seq<CommitShowValue>) -> bool {
    forall|i: int, j: int|
        0 <= i < docs.len() && 0 <= j < docs.len() && i != j ==> (#[trigger] docs[i])@.key != (
        #[trigger] docs[j])@.key
}

/// The set of the keys in `keys`.
pub open spec fn key_set(keys: Seq<CommitShowKey>) -> Set<CommitShowKeyView> {
    Set::new(|k: CommitShowKeyView| exists|i: int| 0 <= i < keys.len() && (#[trigger] keys[i])@ == k)
}

/// No key occurs twice in `keys`.
pub open spec fn distinct_keys(keys: Seq<CommitShowKey>) -> bool {
    forall|i: int, j: int|
        0 <= i < keys.len() && 0 <= j < keys.len() && i != j ==> (#[trigger] keys[i])@ != (
        #[trigger] keys[j])@
}

proof fn lemma_documents_at(docs: Seq<CommitShowValue>, i: int)
    requires
        distinct_documents(docs),
        0 <= i < docs.len(),
    ensures
        documents_of(docs).contains_key(docs[i]@.key),
        documents_of(docs)[docs[i]@.key] == docs[i]@.output,
{
    let k = docs[i]@.key;
    assert(docs[i]@.key == k);
    let j = choose|j: int| 0 <= j < docs.len() && (#[trigger] docs[j])@.key == k;
    assert(j == i);
}

proof fn lemma_documents_push(docs: Seq<CommitShowValue>, v: CommitShowValue)
    requires
        distinct_documents(docs),
        !documents_of(docs).contains_key(v@.key),
    ensures
        distinct_documents(docs.push(v)),
        documents_of(docs.push(v)) == documents_of(docs).insert(v@.key, v@.output),
{
    let d = docs.push(v);
    assert forall|i: int| 0 <= i < docs.len() implies (#[trigger] docs[i])@.key != v@.key by {
        if docs[i]@.key == v@.key {
            assert(documents_of(docs).contains_key(v@.key));
        }
    }
    assert(distinct_documents(d)) by {
        assert forall|i: int, j: int|
            0 <= i < d.len() && 0 <= j < d.len() && i != j implies (#[trigger] d[i])@.key != (
            #[trigger] d[j])@.key by {
            if i < docs.len() && j < docs.len() {
                assert(d[i] == docs[i] && d[j] == docs[j]);
            } else if i < docs.len() {
                assert(d[i] == docs[i]);
            } else {
                assert(d[j] == docs[j]);
            }
        }
    }
    assert forall|k: CommitShowKeyView| #[trigger]
        documents_of(d).contains_key(k) == documents_of(docs).insert(
            v@.key,
            v@.output,
        ).contains_key(k) by {
        if documents_of(docs).contains_key(k) {
            let i = choose|i: int| 0 <= i < docs.len() && (#[trigger] docs[i])@.key == k;
            assert(d[i] == docs[i]);
        }
        if k == v@.key {
            assert(d[docs.len() as int] == v);
        }
    }
    assert forall|k: CommitShowKeyView| #[trigger] documents_of(d).contains_key(k) implies documents_of(
        d,
    )[k] == documents_of(docs).insert(v@.key, v@.output)[k] by {
        if k == v@.key {
            lemma_documents_at(d, docs.len() as int);
        } else {
            let i = choose|i: int| 0 <= i < d.len() && (#[trigger] d[i])@.key == k;
            assert(i < docs.len());
            assert(d[i] == docs[i]);
            lemma_documents_at(d, i);
            lemma_documents_at(docs, i);
        }
    }
    assert(documents_of(d) =~= documents_of(docs).insert(v@.key, v@.output));
}

proof fn lemma_documents_set(docs: Seq<CommitShowValue>, i: int, v: CommitShowValue)
    requires
        distinct_documents(docs),
        0 <= i < docs.len(),
        docs[i]@.key == v@.key,
    ensures
        distinct_documents(docs.update(i, v)),
        documents_of(docs.update(i, v)) == documents_of(docs).insert(v@.key, v@.output),
{
    let d = docs.update(i, v);
    assert(distinct_documents(d)) by {
        assert forall|a: int, b: int|
            0 <= a < d.len() && 0 <= b < d.len() && a != b implies (#[trigger] d[a])@.key != (
            #[trigger] d[b])@.key by {
            assert(docs[a]@.key != docs[b]@.key);
        }
    }
    assert forall|k: CommitShowKeyView| #[trigger]
        documents_of(d).contains_key(k) == documents_of(docs).insert(
            v@.key,
            v@.output,
        ).contains_key(k) by {
        if documents_of(docs).contains_key(k) {
            let j = choose|j: int| 0 <= j < docs.len() && (#[trigger] docs[j])@.key == k;
            assert(d[j]@.key == k);
        }
        if documents_of(d).contains_key(k) {
            let j = choose|j: int| 0 <= j < d.len() && (#[trigger] d[j])@.key == k;
            assert(docs[j]@.key == k);
        }
        if k == v@.key {
            assert(d[i] == v);
        }
    }
    assert forall|k: CommitShowKeyView| #[trigger] documents_of(d).contains_key(k) implies documents_of(
        d,
    )[k] == documents_of(docs).insert(v@.key, v@.output)[k] by {
        let j = choose|j: int| 0 <= j < d.len() && (#[trigger] d[j])@.key == k;
        lemma_documents_at(d, j);
        if j != i {
            lemma_documents_at(docs, j);
        }
    }
    assert(documents_of(d) =~= documents_of(docs).insert(v@.key, v@.output));
}

proof fn lemma_documents_remove(docs: Seq<CommitShowValue>, i: int)
    requires
        distinct_documents(docs),
        0 <= i < docs.len(),
    ensures
        distinct_documents(docs.remove(i)),
        documents_of(docs.remove(i)) == documents_of(docs).remove(docs[i]@.key),
{
    let d = docs.remove(i);
    let gone = docs[i]@.key;
    assert forall|a: int| 0 <= a < d.len() implies #[trigger] d[a] == docs[if a < i {
        a
    } else {
        a + 1
    }] by {}
    assert(distinct_documents(d)) by {
        assert forall|a: int, b: int|
            0 <= a < d.len() && 0 <= b < d.len() && a != b implies (#[trigger] d[a])@.key != (
            #[trigger] d[b])@.key by {
            let a1 = if a < i {
                a
            } else {
                a + 1
            };
            let b1 = if b < i {
                b
            } else {
                b + 1
            };
            assert(d[a] == docs[a1] && d[b] == docs[b1]);
        }
    }
    assert forall|k: CommitShowKeyView| #[trigger]
        documents_of(d).contains_key(k) == documents_of(docs).remove(gone).contains_key(k) by {
        if documents_of(d).contains_key(k) {
            let a = choose|a: int| 0 <= a < d.len() && (#[trigger] d[a])@.key == k;
            let a1 = if a < i {
                a
            } else {
                a + 1
            };
            assert(d[a] == docs[a1]);
            assert(docs[a1]@.key == k);
        }
        if documents_of(docs).contains_key(k) && k != gone {
            let j = choose|j: int| 0 <= j < docs.len() && (#[trigger] docs[j])@.key == k;
            if j < i {
                assert(d[j] == docs[j]);
            } else {
                assert(d[j - 1] == docs[j]);
            }
        }
    }
    assert forall|k: CommitShowKeyView| #[trigger] documents_of(d).contains_key(k) implies documents_of(
        d,
    )[k] == documents_of(docs).remove(gone)[k] by {
        let a = choose|a: int| 0 <= a < d.len() && (#[trigger] d[a])@.key == k;
        let a1 = if a < i {
            a
        } else {
            a + 1
        };
        assert(d[a] == docs[a1]);
        lemma_documents_at(d, a);
        lemma_documents_at(docs, a1);
    }
    assert(documents_of(d) =~= documents_of(docs).remove(gone));
}

/// A Cache dedicated to the output of jj show for all entries in jj log.
/// Entries use the commit id as key. You specify which are currently
/// active, any commit not active will either be used as default for a
/// request where the change id match, or discarded if a true value exists.
pub struct CommitShowCache {
    /// These commits will be kept: the keys declared by `set_active` and
    /// those stored since. A key occurs once, as in a set; several keys
    /// share a change id when the change is divergent, but no two share a
    /// head and format.
    active_commits: Vec<CommitShowKey>,
    /// These commits will be discarded, once an active commit
    /// with same change id is in the cache. The output is not a set
    /// for simplicity. We don't care about old divergent changes and
    /// pick one of them.
    old_commits: StringHashMap<CommitShowKey>,
    /// The cache of jj show output; no key occurs twice.
    commit_document: Vec<CommitShowValue>,
}

/// The cache held by its three parts.
pub open spec fn view_of_parts(
    active: Seq<CommitShowKey>,
    old: Map<Seq<char>, CommitShowKey>,
    docs: Seq<CommitShowValue>,
) -> CommitShowCacheView {
    CommitShowCacheView {
        active: key_set(active),
        old: old.map_values(|k: CommitShowKey| k@),
        documents: documents_of(docs),
    }
}

/// The stored keys are distinct, no two active keys show the same head in
/// the same format, and each old key is a cached, inactive key of its
/// change.
pub open spec fn consistent_parts(
    active: Seq<CommitShowKey>,
    old: Map<Seq<char>, CommitShowKey>,
    docs: Seq<CommitShowValue>,
) -> bool {
    &&& distinct_documents(docs)
    &&& distinct_keys(active)
    &&& one_per_head(key_set(active))
    &&& forall|c: Seq<char>| #[trigger]
        old.contains_key(c) ==> {
            &&& old[c]@.change_id() == c
            &&& documents_of(docs).contains_key(old[c]@)
            &&& !key_set(active).contains(old[c]@)
        }
}

impl View for CommitShowCache {
    type V = CommitShowCacheView;

    closed spec fn view(&self) -> CommitShowCacheView {
        view_of_parts(self.active_commits@, self.old_commits@, self.commit_document@)
    }
}

/// The position of the cached document for `key` in `docs`.
fn find_document(docs: &Vec<CommitShowValue>, key: &CommitShowKey) -> (r: Option<usize>)
    ensures
        match r {
            Some(i) => i < docs@.len() && docs@[i as int]@.key == key@,
            None => !documents_of(docs@).contains_key(key@),
        },
{
    let n = docs.len();
    let mut i: usize = 0;
    while i < n
        invariant
            n == docs@.len(),
            i <= n,
            forall|j: int| 0 <= j < i ==> (#[trigger] docs@[j])@.key != key@,
        decreases n - i,
    {
        if docs[i].key == *key {
            return Some(i);
        }
        i += 1;
    }
    proof {
        if documents_of(docs@).contains_key(key@) {
            let j = choose|j: int| 0 <= j < docs@.len() && (#[trigger] docs@[j])@.key == key@;
            assert(docs@[j]@.key != key@);
        }
    }
    None
}

/// Stores `value` as the output for its key, dropping the old key of its
/// change with its output.
fn insert_into_parts(
    active: &Vec<CommitShowKey>,
    olds: &mut StringHashMap<CommitShowKey>,
    docs: &mut Vec<CommitShowValue>,
    value: CommitShowValue,
)
    requires
        consistent_parts(active@, old(olds)@, old(docs)@),
    ensures
        consistent_parts(active@, final(olds)@, final(docs)@),
        final(olds)@ == old(olds)@.remove(value@.key.change_id()),
        view_of_parts(active@, final(olds)@, final(docs)@) == view_of_parts(
            active@,
            old(olds)@,
            old(docs)@,
        ).after_store(value@),
{
    let ghost c = value@.key.change_id();
    let ghost before = view_of_parts(active@, olds@, docs@);
    let old_key = match olds.get(value.key.id.change_id.as_str()) {
        Some(k) => Some(k.clone()),
        None => None,
    };
    if let Some(old_key) = old_key {
        olds.remove(value.key.id.change_id.as_str());
        if let Some(i) = find_document(docs, &old_key) {
            proof {
                lemma_documents_remove(docs@, i as int);
            }
            docs.remove(i);
        }
    }
    let ghost mid = view_of_parts(active@, olds@, docs@);
    proof {
        assert(mid.old =~= before.old.remove(c));
        if before.old.contains_key(c) {
            assert(mid.documents == before.documents.remove(before.old[c]));
        } else {
            assert(mid.documents == before.documents);
        }
        assert(mid.active == before.active);
        assert(consistent_parts(active@, olds@, docs@)) by {
            assert forall|c2: Seq<char>| #[trigger] olds@.contains_key(c2) implies {
                &&& olds@[c2]@.change_id() == c2
                &&& documents_of(docs@).contains_key(olds@[c2]@)
                &&& !key_set(active@).contains(olds@[c2]@)
            } by {
                assert(c2 != c);
                assert(before.old.contains_key(c2));
                if before.old.contains_key(c) {
                    assert(before.old[c] != before.old[c2]);
                }
            }
        }
    }
    match find_document(docs, &value.key) {
        Some(i) => {
            proof {
                lemma_documents_set(docs@, i as int, value);
            }
            docs.set(i, value);
        },
        None => {
            proof {
                lemma_documents_push(docs@, value);
            }
            docs.push(value);
        },
    }
    proof {
        let after = view_of_parts(active@, olds@, docs@);
        assert(after.old == mid.old);
        assert(consistent_parts(active@, olds@, docs@)) by {
            assert forall|c2: Seq<char>| #[trigger] olds@.contains_key(c2) implies {
                &&& documents_of(docs@).contains_key(olds@[c2]@)
                &&& !key_set(active@).contains(olds@[c2]@)
            } by {
                assert(mid.documents.contains_key(olds@[c2]@));
            }
        }
    }
}

proof fn lemma_key_set_take(keys: Seq<CommitShowKey>, j: int)
    requires
        0 <= j < keys.len(),
        distinct_keys(keys),
    ensures
        key_set(keys.take(j + 1)) == key_set(keys.take(j)).insert(keys[j]@),
        !key_set(keys.take(j)).contains(keys[j]@),
        key_set(keys.take(j)).subset_of(key_set(keys)),
        key_set(keys).contains(keys[j]@),
{
    let a = keys.take(j);
    let b = keys.take(j + 1);
    assert forall|k: CommitShowKeyView| #[trigger]
        key_set(b).contains(k) == key_set(a).insert(keys[j]@).contains(k) by {
        if key_set(b).contains(k) {
            let i = choose|i: int| 0 <= i < b.len() && (#[trigger] b[i])@ == k;
            if i < j {
                assert(a[i] == b[i]);
            }
        }
        if key_set(a).contains(k) {
            let i = choose|i: int| 0 <= i < a.len() && (#[trigger] a[i])@ == k;
            assert(b[i] == a[i]);
        }
        if k == keys[j]@ {
            assert(b[j] == keys[j]);
        }
    }
    assert(key_set(b) =~= key_set(a).insert(keys[j]@));
    if key_set(a).contains(keys[j]@) {
        let i = choose|i: int| 0 <= i < a.len() && (#[trigger] a[i])@ == keys[j]@;
        assert(keys[i] == a[i]);
    }
    assert forall|k: CommitShowKeyView| #[trigger]
        key_set(a).contains(k) implies key_set(keys).contains(k) by {
        let i = choose|i: int| 0 <= i < a.len() && (#[trigger] a[i])@ == k;
        assert(keys[i] == a[i]);
    }
    assert(keys[j]@ == keys[j]@);
}

/// True when `keys` holds a key equal to `key`.
fn holds_key(keys: &Vec<CommitShowKey>, key: &CommitShowKey) -> (r: bool)
    ensures
        r == key_set(keys@).contains(key@),
{
    let n = keys.len();
    let mut i: usize = 0;
    while i < n
        invariant
            n == keys@.len(),
            i <= n,
            forall|j: int| 0 <= j < i ==> (#[trigger] keys@[j])@ != key@,
        decreases n - i,
    {
        if keys[i] == *key {
            assert(keys@[i as int]@ == key@);
            return true;
        }
        i += 1;
    }
    false
}

/// Makes `key` active: it is added, and an active key of the same head and
/// format with another width is dropped.
fn activate(active: &mut Vec<CommitShowKey>, key: CommitShowKey)
    requires
        distinct_keys(old(active)@),
        one_per_head(key_set(old(active)@)),
    ensures
        distinct_keys(final(active)@),
        one_per_head(key_set(final(active)@)),
        key_set(final(active)@) == activated(key_set(old(active)@), key@),
{
    let ghost before = active@;
    let ghost kept_set = Set::new(
        |a: CommitShowKeyView| key_set(before).contains(a) && !same_head_format(a, key@),
    );
    let mut kept: Vec<CommitShowKey> = Vec::new();
    let n = active.len();
    let mut i: usize = 0;
    while i < n
        invariant
            n == before.len(),
            active@ == before,
            i <= n,
            distinct_keys(before),
            distinct_keys(kept@),
            forall|j: int| 0 <= j < kept@.len() ==> !same_head_format(#[trigger] kept@[j]@, key@),
            forall|a: CommitShowKeyView| #[trigger]
                key_set(kept@).contains(a) <==> exists|j: int|
                    0 <= j < i && (#[trigger] before[j])@ == a && !same_head_format(a, key@),
        decreases n - i,
    {
        let a = &active[i];
        let same = a.id == key.id && a.format == key.format;
        let ghost prev = kept@;
        let ghost ai = before[i as int]@;
        if !same {
            kept.push(a.clone());
            proof {
                assert(!key_set(prev).contains(ai)) by {
                    if key_set(prev).contains(ai) {
                        let j = choose|j: int|
                            0 <= j < i && (#[trigger] before[j])@ == ai && !same_head_format(ai, key@);
                        assert(before[j]@ == before[i as int]@);
                    }
                }
                assert forall|x: int, y: int|
                    0 <= x < kept@.len() && 0 <= y < kept@.len() && x != y implies (
                    #[trigger] kept@[x])@ != (#[trigger] kept@[y])@ by {
                    if x < prev.len() && y < prev.len() {
                        assert(prev[x] == kept@[x] && prev[y] == kept@[y]);
                    } else if x < prev.len() {
                        assert(prev[x] == kept@[x]);
                        assert(key_set(prev).contains(prev[x]@));
                    } else {
                        assert(prev[y] == kept@[y]);
                        assert(key_set(prev).contains(prev[y]@));
                    }
                }
            }
        }
        proof {
            assert forall|b: CommitShowKeyView| #[trigger]
                key_set(kept@).contains(b) <==> exists|j: int|
                    0 <= j < i + 1 && (#[trigger] before[j])@ == b && !same_head_format(b, key@) by {
                if key_set(kept@).contains(b) {
                    let j = choose|j: int| 0 <= j < kept@.len() && (#[trigger] kept@[j])@ == b;
                    if j < prev.len() {
                        assert(prev[j] == kept@[j]);
                        assert(key_set(prev).contains(b));
                        let j2 = choose|j2: int|
                            0 <= j2 < i && (#[trigger] before[j2])@ == b && !same_head_format(b, key@);
                        assert(0 <= j2 < i + 1 && before[j2]@ == b);
                    } else {
                        assert(before[i as int]@ == b);
                        assert(!same_head_format(b, key@));
                    }
                }
                if exists|j: int|
                    0 <= j < i + 1 && (#[trigger] before[j])@ == b && !same_head_format(b, key@) {
                    let j = choose|j: int|
                        0 <= j < i + 1 && (#[trigger] before[j])@ == b && !same_head_format(b, key@);
                    if j == i {
                        assert(kept@[kept@.len() - 1]@ == b);
                    } else {
                        assert(key_set(prev).contains(b));
                        let j2 = choose|j2: int| 0 <= j2 < prev.len() && (#[trigger] prev[j2])@ == b;
                        assert(kept@[j2] == prev[j2]);
                    }
                }
            }
        }
        i += 1;
    }
    let ghost kept_keys = kept@;
    assert(key_set(kept_keys) =~= kept_set) by {
        assert forall|a: CommitShowKeyView| #[trigger] key_set(kept_keys).contains(a) == kept_set.contains(a) by {
            if kept_set.contains(a) {
                let j = choose|j: int| 0 <= j < before.len() && (#[trigger] before[j])@ == a;
            }
        }
    }
    let ghost k = key@;
    kept.push(key);
    *active = kept;
    proof {
        assert(key_set(active@) =~= kept_set.insert(k)) by {
            assert forall|a: CommitShowKeyView| #[trigger] key_set(active@).contains(a) == kept_set.insert(k).contains(a) by {
                if key_set(active@).contains(a) {
                    let j = choose|j: int| 0 <= j < active@.len() && (#[trigger] active@[j])@ == a;
                    if j < kept_keys.len() {
                        assert(kept_keys[j] == active@[j]);
                        assert(key_set(kept_keys).contains(a));
                    }
                }
                if kept_set.contains(a) {
                    let j = choose|j: int| 0 <= j < kept_keys.len() && (#[trigger] kept_keys[j])@ == a;
                    assert(active@[j] == kept_keys[j]);
                }
                if a == k {
                    assert(active@[kept_keys.len() as int]@ == k);
                }
            }
        }
        assert forall|x: int, y: int|
            0 <= x < active@.len() && 0 <= y < active@.len() && x != y implies (
            #[trigger] active@[x])@ != (#[trigger] active@[y])@ by {
            if x < kept_keys.len() && y < kept_keys.len() {
                assert(kept_keys[x] == active@[x] && kept_keys[y] == active@[y]);
            } else if x < kept_keys.len() {
                assert(kept_keys[x] == active@[x]);
                assert(!same_head_format(kept_keys[x]@, k));
            } else {
                assert(kept_keys[y] == active@[y]);
                assert(!same_head_format(kept_keys[y]@, k));
            }
        }
        assert(activated(key_set(before), k) =~= kept_set.insert(k));
    }
}

impl CommitShowCache {
    #[verifier::type_invariant]
    closed spec fn consistent(&self) -> bool {
        consistent_parts(self.active_commits@, self.old_commits@, self.commit_document@)
    }

    /// Create an empty cache
    pub fn new() -> (r: Self)
        ensures
            r@ == (CommitShowCacheView {
                active: Set::empty(),
                old: Map::empty(),
                documents: Map::empty(),
            }),
            r@.well_formed(),
    {
        let r = CommitShowCache {
            active_commits: Vec::new(),
            old_commits: StringHashMap::new(),
            commit_document: Vec::new(),
        };
        assert(r@.active =~= Set::empty());
        assert(r@.old =~= Map::empty());
        assert(r@.documents =~= Map::empty());
        r
    }

    /// Declare which commits should be kept. Any commit outside this set
    /// that shares change id with this set will be kept until the correct
    /// commit is available.
    ///   The Head of the key is replaced with each head
    /// from active_heads before inserting in active commits.
    pub fn set_active(&mut self, active_heads: Vec<Head>, key: &CommitShowKey)
        ensures
            final(self)@.is_set_active_of(
                old(self)@,
                active_heads@.map_values(|h: Head| h@),
                key@,
            ),
            // All cached values are either an active or an old commit.
            forall|k: CommitShowKeyView| #[trigger]
                final(self)@.documents.contains_key(k) ==> final(self)@.active.contains(k)
                    || final(self)@.old.contains_key(k.change_id()),
            final(self)@.well_formed(),
    {
        let mut taken = CommitShowCache::new();
        std::mem::swap(self, &mut taken);
        proof {
            use_type_invariant(&taken);
        }
        let CommitShowCache { active_commits: _, old_commits: _, commit_document } = taken;
        let ghost docs = documents_of(commit_document@);
        let ghost heads = active_heads@.map_values(|h: Head| h@);
        // Construct the set of active keys from all visible heads
        let ghost wanted = Set::new(
            |k: CommitShowKeyView|
                exists|i: int| 0 <= i < heads.len() && k == key@.with_head(#[trigger] heads[i]),
        );
        let mut active_commits: Vec<CommitShowKey> = Vec::new();
        let n = active_heads.len();
        let mut i: usize = 0;
        while i < n
            invariant
                n == active_heads@.len(),
                heads == active_heads@.map_values(|h: Head| h@),
                i <= n,
                distinct_keys(active_commits@),
                forall|j: int|
                    0 <= j < active_commits@.len() ==> (#[trigger] active_commits@[j])@.format
                        == key@.format && active_commits@[j]@.width == key@.width,
                forall|k: CommitShowKeyView|
                    #[trigger] key_set(active_commits@).contains(k) <==> exists|j: int|
                        0 <= j < i && k == key@.with_head(#[trigger] heads[j]),
            decreases n - i,
        {
            let mut head_key = key.clone();
            head_key.id = active_heads[i].clone();
            let ghost hk = head_key@;
            assert(hk == key@.with_head(heads[i as int]));
            if !holds_key(&active_commits, &head_key) {
                let ghost before = active_commits@;
                active_commits.push(head_key);
                proof {
                    assert forall|a: int, b: int|
                        0 <= a < active_commits@.len() && 0 <= b < active_commits@.len() && a
                            != b implies (#[trigger] active_commits@[a])@ != (
                        #[trigger] active_commits@[b])@ by {
                        if a < before.len() && b < before.len() {
                            assert(before[a] == active_commits@[a]);
                            assert(before[b] == active_commits@[b]);
                        } else if a < before.len() {
                            assert(before[a] == active_commits@[a]);
                            assert(key_set(before).contains(before[a]@));
                        } else {
                            assert(before[b] == active_commits@[b]);
                            assert(key_set(before).contains(before[b]@));
                        }
                    }
                    assert forall|k: CommitShowKeyView| #[trigger]
                        key_set(active_commits@).contains(k) == key_set(before).insert(
                            hk,
                        ).contains(k) by {
                        if key_set(active_commits@).contains(k) {
                            let j = choose|j: int|
                                0 <= j < active_commits@.len() && (#[trigger] active_commits@[j])@
                                    == k;
                            if j < before.len() {
                                assert(before[j] == active_commits@[j]);
                            }
                        }
                        if key_set(before).contains(k) {
                            let j = choose|j: int| 0 <= j < before.len() && (#[trigger] before[j])@ == k;
                            assert(before[j] == active_commits@[j]);
                        }
                        if k == hk {
                            assert(active_commits@[before.len() as int]@ == hk);
                        }
                    }
                }
            }
            proof {
                assert forall|k: CommitShowKeyView|
                    #[trigger] key_set(active_commits@).contains(k) <==> exists|j: int|
                        0 <= j < i + 1 && k == key@.with_head(#[trigger] heads[j]) by {
                    if k == hk {
                        assert(key_set(active_commits@).contains(k));
                    }
                }
            }
            i += 1;
        }
        let ghost active = key_set(active_commits@);
        assert(active =~= wanted);
        // Construct map of old_commits from ChangeId to CommitShowKey
        // with all heads in the cache, that is not marked as an active commit
        let mut old_commits: StringHashMap<CommitShowKey> = StringHashMap::new();
        let m = commit_document.len();
        let mut d: usize = 0;
        while d < m
            invariant
                m == commit_document@.len(),
                d <= m,
                active == key_set(active_commits@),
                docs == documents_of(commit_document@),
                distinct_documents(commit_document@),
                forall|c: Seq<char>| #[trigger]
                    old_commits@.contains_key(c) <==> exists|j: int|
                        0 <= j < d && !active.contains((#[trigger] commit_document@[j])@.key)
                            && commit_document@[j]@.key.change_id() == c,
                forall|c: Seq<char>| #[trigger]
                    old_commits@.contains_key(c) ==> old_commits@[c]@.change_id() == c
                        && docs.contains_key(old_commits@[c]@) && !active.contains(
                        old_commits@[c]@,
                    ),
            decreases m - d,
        {
            let doc_key = &commit_document[d].key;
            proof {
                lemma_documents_at(commit_document@, d as int);
            }
            // All cached values should either be an active or old commit.
            if !holds_key(&active_commits, doc_key) {
                old_commits.insert(doc_key.id.change_id.0.clone(), doc_key.clone());
            }
            proof {
                let k0 = commit_document@[d as int]@.key;
                assert forall|c: Seq<char>| #[trigger]
                    old_commits@.contains_key(c) <==> exists|j: int|
                        0 <= j < d + 1 && !active.contains((#[trigger] commit_document@[j])@.key)
                            && commit_document@[j]@.key.change_id() == c by {
                    if c == k0.change_id() && !active.contains(k0) {
                        assert(commit_document@[d as int]@.key == k0);
                    }
                }
            }
            d += 1;
        }
        *self = CommitShowCache { active_commits, old_commits, commit_document };
        proof {
            assert(self@.active == wanted);
            assert(self@.documents == docs);
            assert forall|c: Seq<char>| #[trigger] self@.old.contains_key(c) <==> exists|
                k: CommitShowKeyView,
            | #[trigger] self@.documents.contains_key(k) && !self@.active.contains(k)
                && k.change_id() == c by {
                assert(self@.old.contains_key(c) == old_commits@.contains_key(c));
                if exists|k: CommitShowKeyView| #[trigger]
                    docs.contains_key(k) && !active.contains(k) && k.change_id() == c {
                    let k = choose|k: CommitShowKeyView| #[trigger]
                        docs.contains_key(k) && !active.contains(k) && k.change_id() == c;
                    let j = choose|j: int|
                        0 <= j < commit_document@.len() && (#[trigger] commit_document@[j])@.key
                            == k;
                    assert(commit_document@[j]@.key.change_id() == c);
                }
                if old_commits@.contains_key(c) {
                    let j = choose|j: int|
                        0 <= j < m && !active.contains((#[trigger] commit_document@[j])@.key)
                            && commit_document@[j]@.key.change_id() == c;
                    lemma_documents_at(commit_document@, j);
                }
            }
            assert forall|k: CommitShowKeyView| #[trigger]
                self@.documents.contains_key(k) implies self@.active.contains(k)
                || self@.old.contains_key(k.change_id()) by {
                if !self@.active.contains(k) {
                    assert(self@.documents.contains_key(k) && !self@.active.contains(k));
                }
            }
        }
    }

    /// Mark all active heads as dirty by changing their width to 1.
    /// This way they will all be seen as old next time [set_active] is called.
    pub fn mark_dirty(&mut self)
        ensures
            final(self)@ == old(self)@.after_mark_dirty(),
            final(self)@.well_formed(),
    {
        let mut taken = CommitShowCache::new();
        std::mem::swap(self, &mut taken);
        proof {
            use_type_invariant(&taken);
        }
        let ghost before = taken@;
        // Collect all keys for active commits, leaving none active
        let CommitShowCache { active_commits, mut old_commits, mut commit_document } = taken;
        let no_active: Vec<CommitShowKey> = Vec::new();
        let ghost all = key_set(active_commits@);
        let ghost docs0 = documents_of(commit_document@);
        let ghost olds0 = old_commits@;
        let ghost oldv = before.old;
        proof {
            assert(key_set(active_commits@.take(0)) =~= Set::empty());
            assert(dirty_changes(docs0, Set::empty()) =~= Set::empty());
            assert(stale_keys(oldv, Set::empty()) =~= Set::empty());
            assert(docs0.remove_keys(Set::empty()) =~= docs0);
            assert(marked_dirty(docs0, Set::empty()) =~= docs0);
            assert(olds0.remove_keys(Set::empty()) =~= olds0);
            assert(key_set(no_active@) =~= Set::empty());
        }
        let n = active_commits.len();
        let mut j: usize = 0;
        while j < n
            invariant
                n == active_commits@.len(),
                j <= n,
                distinct_keys(active_commits@),
                one_per_head(all),
                all == key_set(active_commits@),
                no_active@.len() == 0,
                oldv == olds0.map_values(|k: CommitShowKey| k@),
                forall|c: Seq<char>| #[trigger]
                    oldv.contains_key(c) ==> oldv[c].change_id() == c && !all.contains(oldv[c]),
                consistent_parts(no_active@, old_commits@, commit_document@),
                old_commits@ == olds0.remove_keys(
                    dirty_changes(docs0, key_set(active_commits@.take(j as int))),
                ),
                documents_of(commit_document@) == marked_dirty(
                    docs0.remove_keys(
                        stale_keys(
                            oldv,
                            dirty_changes(docs0, key_set(active_commits@.take(j as int))),
                        ),
                    ),
                    key_set(active_commits@.take(j as int)),
                ),
            decreases n - j,
        {
            let ac_key = &active_commits[j];
            let ghost k = ac_key@;
            let ghost c = k.change_id();
            let ghost done = key_set(active_commits@.take(j as int));
            let ghost next = key_set(active_commits@.take(j + 1));
            let ghost changes = dirty_changes(docs0, done);
            let ghost stale = stale_keys(oldv, changes);
            let ghost kept = docs0.remove_keys(stale);
            proof {
                lemma_key_set_take(active_commits@, j as int);
                // The stale keys are never active.
                assert(!stale.contains(k)) by {
                    if stale.contains(k) {
                        let c1 = choose|c1: Seq<char>| #[trigger]
                            changes.contains(c1) && oldv.contains_key(c1) && oldv[c1] == k;
                        assert(all.contains(k));
                    }
                }
                lemma_marked_dirty_step(kept, all, done, k);
            }
            if let Some(i) = find_document(&commit_document, ac_key) {
                proof {
                    lemma_documents_at(commit_document@, i as int);
                    lemma_documents_remove(commit_document@, i as int);
                    assert(docs0.contains_key(k));
                }
                let ghost docs_before = documents_of(commit_document@);
                let mut value = commit_document.remove(i);
                // Mark document as dirty
                value.key.width = 1;
                let ghost x = oldv[c];
                let ghost fresh = !changes.contains(c) && oldv.contains_key(c);
                proof {
                    assert(value@.key == k.dirty());
                    assert(value@.output == docs0[k]);
                    assert(consistent_parts(no_active@, old_commits@, commit_document@)) by {
                        assert forall|c2: Seq<char>| #[trigger] old_commits@.contains_key(c2) implies documents_of(
                            commit_document@,
                        ).contains_key(old_commits@[c2]@) by {
                            assert(docs_before.contains_key(old_commits@[c2]@));
                            assert(olds0.contains_key(c2));
                            assert(oldv[c2] == old_commits@[c2]@);
                            assert(old_commits@[c2]@ != k);
                        }
                    }
                    // The change of `k` joins the dirty changes.
                    assert(dirty_changes(docs0, next) =~= changes.insert(c)) by {
                        assert(next.contains(k) && docs0.contains_key(k) && k.change_id() == c);
                        assert forall|c1: Seq<char>| #[trigger]
                            dirty_changes(docs0, next).contains(c1) == changes.insert(c).contains(c1) by {
                            if dirty_changes(docs0, next).contains(c1) && c1 != c {
                                let k1 = choose|k1: CommitShowKeyView| #[trigger]
                                    next.contains(k1) && docs0.contains_key(k1) && k1.change_id() == c1;
                                assert(done.contains(k1));
                            }
                            if changes.contains(c1) {
                                let k1 = choose|k1: CommitShowKeyView| #[trigger]
                                    done.contains(k1) && docs0.contains_key(k1) && k1.change_id() == c1;
                                assert(next.contains(k1));
                            }
                        }
                    }
                    assert(old_commits@.contains_key(c) == fresh);
                    if fresh {
                        assert(old_commits@[c]@ == x);
                        assert(stale_keys(oldv, changes.insert(c)) =~= stale.insert(x)) by {
                            assert forall|y: CommitShowKeyView| #[trigger]
                                stale_keys(oldv, changes.insert(c)).contains(y) == stale.insert(x).contains(y) by {
                                if stale_keys(oldv, changes.insert(c)).contains(y) && y != x {
                                    let c1 = choose|c1: Seq<char>| #[trigger]
                                        changes.insert(c).contains(c1) && oldv.contains_key(c1) && oldv[c1] == y;
                                    assert(changes.contains(c1));
                                }
                                if stale.contains(y) {
                                    let c1 = choose|c1: Seq<char>| #[trigger]
                                        changes.contains(c1) && oldv.contains_key(c1) && oldv[c1] == y;
                                    assert(changes.insert(c).contains(c1));
                                }
                                if y == x {
                                    assert(changes.insert(c).contains(c));
                                }
                            }
                        }
                        assert(!has_dirty_source(kept, done, x)) by {
                            if has_dirty_source(kept, done, x) {
                                let p = dirty_source(kept, done, x);
                                assert(done.contains(p) && docs0.contains_key(p));
                                assert(changes.contains(p.change_id()));
                            }
                        }
                        assert(!done.contains(x));
                        assert(kept.remove(x) =~= docs0.remove_keys(stale.insert(x)));
                        lemma_marked_dirty_without(kept, all, done, x);
                        lemma_marked_dirty_step(kept.remove(x), all, done, k);
                    } else {
                        assert(stale_keys(oldv, changes.insert(c)) =~= stale) by {
                            assert forall|y: CommitShowKeyView| #[trigger]
                                stale_keys(oldv, changes.insert(c)).contains(y) == stale.contains(y) by {
                                if stale_keys(oldv, changes.insert(c)).contains(y) {
                                    let c1 = choose|c1: Seq<char>| #[trigger]
                                        changes.insert(c).contains(c1) && oldv.contains_key(c1) && oldv[c1] == y;
                                    assert(changes.contains(c1));
                                }
                                if stale.contains(y) {
                                    let c1 = choose|c1: Seq<char>| #[trigger]
                                        changes.contains(c1) && oldv.contains_key(c1) && oldv[c1] == y;
                                    assert(changes.insert(c).contains(c1));
                                }
                            }
                        }
                    }
                }
                insert_into_parts(&no_active, &mut old_commits, &mut commit_document, value);
                proof {
                    assert(old_commits@ =~= olds0.remove_keys(dirty_changes(docs0, next)));
                    if fresh {
                        assert(documents_of(commit_document@) =~= marked_dirty(
                            kept.remove(x),
                            next,
                        ));
                    } else {
                        assert(documents_of(commit_document@) =~= marked_dirty(kept, next));
                    }
                }
            } else {
                proof {
                    assert(!docs0.contains_key(k));
                    assert(dirty_changes(docs0, next) =~= changes) by {
                        assert forall|c1: Seq<char>| #[trigger]
                            dirty_changes(docs0, next).contains(c1) == changes.contains(c1) by {
                            if dirty_changes(docs0, next).contains(c1) {
                                let k1 = choose|k1: CommitShowKeyView| #[trigger]
                                    next.contains(k1) && docs0.contains_key(k1) && k1.change_id() == c1;
                                assert(k1 != k);
                                assert(done.contains(k1));
                            }
                            if changes.contains(c1) {
                                let k1 = choose|k1: CommitShowKeyView| #[trigger]
                                    done.contains(k1) && docs0.contains_key(k1) && k1.change_id() == c1;
                                assert(next.contains(k1));
                            }
                        }
                    }
                }
            }
            j += 1;
        }
        proof {
            assert(active_commits@.take(n as int) =~= active_commits@);
        }
        *self = CommitShowCache { active_commits: no_active, old_commits, commit_document };
        proof {
            assert(self@.active =~= Set::empty());
            assert(self@.old =~= oldv.remove_keys(dirty_changes(docs0, all)));
        }
    }

    /// Return true if the key is present as active
    pub fn has_exact_match(&self, key: &CommitShowKey) -> (r: bool)
        ensures
            r == (self@.documents.contains_key(key@) && self@.active.contains(key@)),
            self@.well_formed(),
    {
        proof {
            use_type_invariant(self);
        }
        if !holds_key(&self.active_commits, key) {
            return false;
        }
        self.is_cached(key)
    }

    /// True when a document is stored under exactly `key`.
    fn is_cached(&self, key: &CommitShowKey) -> (r: bool)
        ensures
            r == self@.documents.contains_key(key@),
            self@.well_formed(),
    {
        proof {
            use_type_invariant(self);
        }
        match find_document(&self.commit_document, key) {
            Some(i) => {
                proof {
                    lemma_documents_at(self.commit_document@, i as int);
                }
                true
            },
            None => false,
        }
    }

    /// Search for best match of the provided key.
    pub fn get(&self, key: &CommitShowKey) -> (r: Option<&CommitShowValue>)
        ensures
            match r {
                Some(v) => self@.answer(key@) == Some(v@.key) && self@.documents.contains_key(v@.key)
                    && v@.output == self@.documents[v@.key],
                None => self@.answer(key@) is None,
            },
            self@.documents.contains_key(key@) ==> (r matches Some(v) && v@ == (
            CommitShowValueView { key: key@, output: self@.documents[key@] })),
    {
        proof {
            use_type_invariant(self);
            lemma_stored_key_answers_itself(self@, key@);
        }
        // Look for direct hit via CommitId
        if let Some(i) = find_document(&self.commit_document, key) {
            proof {
                lemma_documents_at(self.commit_document@, i as int);
            }
            return Some(&self.commit_document[i]);
        }
        // Look for indirect hit via ChangeId
        if let Some(old_key) = self.old_commits.get(key.id.change_id.as_str()) {
            proof {
                assert(self@.old.contains_key(key@.change_id()));
            }
            if let Some(i) = find_document(&self.commit_document, old_key) {
                proof {
                    lemma_documents_at(self.commit_document@, i as int);
                }
                return Some(&self.commit_document[i]);
            }
        }
        // Give up
        None
    }

    /// Move the specified value into the cache as the active value
    /// of the key. Will remove any old values with the same change id.
    pub fn insert_document(&mut self, value: CommitShowValue)
        ensures
            final(self)@ == old(self)@.after_insert(value@),
            final(self)@.well_formed(),
    {
        let mut taken = CommitShowCache::new();
        std::mem::swap(self, &mut taken);
        proof {
            use_type_invariant(&taken);
        }
        let CommitShowCache { mut active_commits, mut old_commits, mut commit_document } = taken;
        let key = value.key.clone();
        let ghost k = key@;
        let ghost stored = view_of_parts(active_commits@, old_commits@, commit_document@).after_store(value@);
        insert_into_parts(&active_commits, &mut old_commits, &mut commit_document, value);
        // The stored key becomes the active one of its head and format.
        activate(&mut active_commits, key);
        proof {
            assert forall|c: Seq<char>| #[trigger] old_commits@.contains_key(c) implies
                !key_set(active_commits@).contains(old_commits@[c]@) by {
                assert(stored.old.contains_key(c));
                assert(c != k.change_id());
            }
        }
        *self = CommitShowCache { active_commits, old_commits, commit_document };
    }

    /// If key is cached, return a reference to that value,
    /// otherwise generate the value,
    /// insert it, and return a reference to the new inserted value.
    /// NOTE: fn_value must return a CommitShowValue that has the same key
    /// as the one provided.
    pub fn get_or_insert<T>(&mut self, key: &CommitShowKey, fn_value: T) -> (r: &CommitShowValue) where
        T: FnOnce() -> CommitShowValue,

        requires
            !old(self)@.documents.contains_key(key@) ==> call_requires(fn_value, ()),
            forall|v: CommitShowValue| #[trigger] call_ensures(fn_value, (), v) ==> v@.key == key@,
        ensures
            old(self)@.documents.contains_key(key@) ==> {
                &&& final(self)@ == old(self)@
                &&& r@ == (CommitShowValueView {
                    key: key@,
                    output: old(self)@.documents[key@],
                })
            },
            !old(self)@.documents.contains_key(key@) ==> exists|v: CommitShowValue|
                {
                    &&& #[trigger] call_ensures(fn_value, (), v)
                    &&& final(self)@ == old(self)@.after_insert(v@)
                    &&& r@ == v@
                },
            final(self)@.well_formed(),
    {
        if !self.is_cached(key) {
            let value = fn_value();
            let ghost v = value;
            self.insert_document(value);
            proof {
                assert(self@.documents.contains_key(key@));
                assert(self@.documents[key@] == v@.output);
            }
        }
        // The value now has the exact key, so the lookup succeeds.
        let found = self.get(key);
        found.unwrap()
    }
}

/// A request for a key with a cached document is answered by that key's own
/// document, whatever old key its change has; the old key of the change
/// answers only a request whose own key has no document, and a request
/// with neither gets no answer.
pub proof fn lemma_stored_key_answers_itself(cache: CommitShowCacheView, key: CommitShowKeyView)
    ensures
        cache.documents.contains_key(key) ==> cache.answer(key) == Some(key),
        !cache.documents.contains_key(key) && cache.old.contains_key(key.change_id())
            ==> cache.answer(key) == Some(cache.old[key.change_id()]),
        !cache.documents.contains_key(key) && !cache.old.contains_key(key.change_id())
            ==> cache.answer(key) is None,
{
}

/// A document stored with `insert_document` is what a request for its key
/// gets back, as an exact match: its key is stored and active.
pub proof fn lemma_insert_then_get(cache: CommitShowCacheView, value: CommitShowValueView)
    ensures
        cache.after_insert(value).answer(value.key) == Some(value.key),
        cache.after_insert(value).active.contains(value.key),
        cache.after_insert(value).documents.contains_key(value.key),
        cache.after_insert(value).documents[value.key] == value.output,
{
}

/// Storing a document discards the old document that stood in for its
/// change, and the change no longer has an old key.
pub proof fn lemma_insert_discards_old(cache: CommitShowCacheView, value: CommitShowValueView)
    ensures
        !cache.after_insert(value).old.contains_key(value.key.change_id()),
        cache.old.contains_key(value.key.change_id()) && cache.old[value.key.change_id()]
            != value.key ==> !cache.after_insert(value).documents.contains_key(
            cache.old[value.key.change_id()],
        ),
{
}

/// Once marked dirty, a formerly active key of width other than 1 is no
/// longer an exact match.
pub proof fn lemma_dirty_keys_do_not_match(cache: CommitShowCacheView, key: CommitShowKeyView)
    requires
        cache.well_formed(),
        cache.active.contains(key),
        key.width != 1,
    ensures
        !cache.after_mark_dirty().documents.contains_key(key),
{
    let changes = dirty_changes(cache.documents, cache.active);
    let kept = cache.documents.remove_keys(stale_keys(cache.old, changes));
    if has_dirty_source(kept, cache.active, key) {
        let p = dirty_source(kept, cache.active, key);
        assert(p.dirty().width == 1);
    }
}

/// `mark_dirty` leaves every change without an active key as it was: a key
/// of such a change is stored after the call exactly when it was before,
/// with the same document, and a request for it gets the same answer.
pub proof fn lemma_mark_dirty_keeps_other_changes(
    cache: CommitShowCacheView,
    q: CommitShowKeyView,
)
    requires
        cache.well_formed(),
        forall|k: CommitShowKeyView| #[trigger]
            cache.active.contains(k) ==> k.change_id() != q.change_id(),
    ensures
        cache.after_mark_dirty().documents.contains_key(q) == cache.documents.contains_key(q),
        cache.documents.contains_key(q) ==> cache.after_mark_dirty().documents[q]
            == cache.documents[q],
        cache.after_mark_dirty().answer(q) == cache.answer(q),
        cache.answer(q) matches Some(k) ==> cache.after_mark_dirty().documents[k]
            == cache.documents[k],
{
    let docs = cache.documents;
    let changes = dirty_changes(docs, cache.active);
    let stale = stale_keys(cache.old, changes);
    let kept = docs.remove_keys(stale);
    let after = cache.after_mark_dirty();
    let c = q.change_id();
    assert(!changes.contains(c)) by {
        if changes.contains(c) {
            let k = choose|k: CommitShowKeyView| #[trigger]
                cache.active.contains(k) && docs.contains_key(k) && k.change_id() == c;
            assert(cache.active.contains(k));
        }
    }
    // A key of change `c` is neither stale nor active, and no dirty key of an
    // active key lands on it.
    assert forall|x: CommitShowKeyView| x.change_id() == c implies {
        &&& !stale.contains(x)
        &&& !cache.active.contains(x)
        &&& !has_dirty_source(kept, cache.active, x)
        &&& (after.documents.contains_key(x) <==> docs.contains_key(x))
        &&& (docs.contains_key(x) ==> after.documents[x] == docs[x])
    } by {
        if stale.contains(x) {
            let d = choose|d: Seq<char>| #[trigger]
                changes.contains(d) && cache.old.contains_key(d) && cache.old[d] == x;
            assert(cache.old[d].change_id() == d);
        }
        if has_dirty_source(kept, cache.active, x) {
            let k = choose|k: CommitShowKeyView|
                cache.active.contains(k) && kept.contains_key(k) && #[trigger] k.dirty() == x;
            assert(k.dirty().change_id() == k.change_id());
        }
    }
    assert(after.old.contains_key(c) == cache.old.contains_key(c));
    if cache.old.contains_key(c) {
        assert(after.old[c] == cache.old[c]);
        assert(cache.old[c].change_id() == c);
    }
}

/// After `mark_dirty`, the next `set_active` leaves an old document for the
/// change of each formerly active key that had one (that key's own, or
/// another cached document of the same change), so a request for that
/// change is still answered while its new output is not cached.
pub proof fn lemma_dirty_documents_become_old(
    cache: CommitShowCacheView,
    after: CommitShowCacheView,
    heads: Seq<HeadView>,
    template: CommitShowKeyView,
    key: CommitShowKeyView,
    request: CommitShowKeyView,
)
    requires
        cache.well_formed(),
        after.is_set_active_of(cache.after_mark_dirty(), heads, template),
        template.width != 1,
        cache.active.contains(key),
        cache.documents.contains_key(key),
        request.change_id() == key.change_id(),
    ensures
        after.old.contains_key(key.change_id()),
        after.answer(request) is Some,
{
    let changes = dirty_changes(cache.documents, cache.active);
    let stale = stale_keys(cache.old, changes);
    let kept = cache.documents.remove_keys(stale);
    if stale.contains(key) {
        let c = choose|c: Seq<char>| #[trigger]
            changes.contains(c) && cache.old.contains_key(c) && cache.old[c] == key;
        assert(false);
    }
    assert(kept.contains_key(key));
    assert(has_dirty_source(kept, cache.active, key.dirty())) by {
        assert(cache.active.contains(key) && kept.contains_key(key) && key.dirty() == key.dirty());
    }
    let moved = key.dirty();
    assert(after.documents.contains_key(moved));
    if after.active.contains(moved) {
        let i = choose|i: int| 0 <= i < heads.len() && moved == template.with_head(#[trigger] heads[i]);
        assert(moved.width == template.width);
    }
    assert(after.documents.contains_key(moved) && !after.active.contains(moved)
        && moved.change_id() == key.change_id());
}

} // verus!
