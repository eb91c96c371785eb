//! Which search folder a path belongs to.

use crate::places;
use crate::text;
use crate::types;
use crate::types::IndexRoot;
use crate::winpath;
use vstd::prelude::*;
use vstd::utf8::*;

verus! {

// ---------------------------------------------------------------------------
// Keys
// ---------------------------------------------------------------------------

/// With every slash turned into a backslash.
pub open spec fn backslashed(s: Seq<char>) -> Seq<char> {
    Seq::new(
        s.len(),
        |i: int|
            if s[i] == '/' {
                '\\'
            } else {
                s[i]
            },
    )
}

/// Without the mark of a verbatim path.
pub open spec fn unmarked(s: Seq<char>) -> Seq<char> {
    if text::has_prefix(s, "\\\\?\\UNC\\"@) {
        "\\\\"@ + s.skip("\\\\?\\UNC\\"@.len() as int)
    } else if text::has_prefix(s, "\\\\?\\"@) {
        s.skip("\\\\?\\"@.len() as int)
    } else {
        s
    }
}

/// Without backslashes at the end, as long as more than three bytes are left.
pub open spec fn without_tail(s: Seq<char>) -> Seq<char>
    decreases s.len(),
{
    if encode_utf8(s).len() > 3 && s.len() > 0 && s.last() == '\\' {
        without_tail(s.drop_last())
    } else {
        s
    }
}

/// The form in which paths are compared.
pub open spec fn path_key(path: Seq<char>, working_directory: Seq<char>) -> Seq<char> {
    text::fold(
        without_tail(unmarked(backslashed(winpath::lexical_absolute(path, working_directory)))),
    )
}

pub(crate) fn backslash(s: &[char]) -> (r: Vec<char>)
    ensures
        r@ == backslashed(s@),
{
    let mut out: Vec<char> = Vec::new();
    let mut i: usize = 0;
    while i < s.len()
        invariant
            i <= s.len(),
            out@ == backslashed(s@).take(i as int),
        decreases s.len() - i,
    {
        let c = s[i];
        out.push(
            if c == '/' {
                '\\'
            } else {
                c
            },
        );
        i += 1;
        proof {
            assert(out@ =~= backslashed(s@).take(i as int));
        }
    }
    proof {
        assert(out@ =~= backslashed(s@));
    }
    out
}

/// The form in which a path is compared: absolute, without dots, with backslashes,
/// without the mark of a verbatim path or a separator at the end, and folded.
pub fn normalized_root_path_key(path: &str, working_directory: &str) -> (r: String)
    ensures
        r@ == path_key(path@, working_directory@),
{
    let absolute = winpath::lexical_absolute_path(path, working_directory);
    let chars = text::chars_of(absolute.as_str());
    let plain = backslash(chars.as_slice());
    let share = text::chars_of("\\\\?\\UNC\\");
    let mark = text::chars_of("\\\\?\\");
    let rest: String = if text::begins_with(plain.as_slice(), share.as_slice()) {
        proof {
            assert(plain@.subrange(share@.len() as int, plain@.len() as int) =~= plain@.skip(
                share@.len() as int,
            ));
        }
        text::cat2(
            "\\\\",
            text::string_of(
                vstd::slice::slice_subrange(plain.as_slice(), share.len(), plain.len()),
            ).as_str(),
        )
    } else if text::begins_with(plain.as_slice(), mark.as_slice()) {
        proof {
            assert(plain@.subrange(mark@.len() as int, plain@.len() as int) =~= plain@.skip(
                mark@.len() as int,
            ));
        }
        text::string_of(vstd::slice::slice_subrange(plain.as_slice(), mark.len(), plain.len()))
    } else {
        text::string_of(plain.as_slice())
    };
    let mut left = text::chars_of(rest.as_str());
    let bytes = rest.as_str().as_bytes();
    let mut size: usize = bytes.len();
    while size > 3 && left.len() > 0 && left[left.len() - 1] == '\\'
        invariant
            size == encode_utf8(left@).len(),
            without_tail(rest@) == without_tail(left@),
        decreases left@.len(),
    {
        proof {
            text::lemma_encode_push_ascii(left@.drop_last(), '\\');
            assert(left@.drop_last().push('\\') =~= left@);
        }
        let _ = left.pop();
        size -= 1;
    }
    text::fold_text(text::string_of(left.as_slice()).as_str())
}

/// A key lies within another: it is the same, or it goes on behind a separator.
pub open spec fn within(path_key: Seq<char>, root_key: Seq<char>) -> bool {
    ||| path_key == root_key
    ||| if root_key.len() > 0 && root_key.last() == '\\' {
        text::has_prefix(path_key, root_key)
    } else {
        text::has_prefix(path_key, root_key.push('\\'))
    }
}

/// Whether a key lies within another.
pub fn path_key_is_within(path_key: &str, root_key: &str) -> (r: bool)
    ensures
        r == within(path_key@, root_key@),
{
    let path = text::chars_of(path_key);
    let root = text::chars_of(root_key);
    if text::same_chars(path.as_slice(), root.as_slice()) {
        return true;
    }
    let ends = root.len() > 0 && root[root.len() - 1] == '\\';
    let begins = text::begins_with(path.as_slice(), root.as_slice());
    if ends {
        begins
    } else {
        proof {
            let longer = root@.push('\\');
            if text::has_prefix(path@, longer) {
                assert(path@.subrange(0, longer.len() as int)[root@.len() as int] == '\\');
                assert(path@.subrange(0, root@.len() as int) =~= path@.subrange(
                    0,
                    longer.len() as int,
                ).take(root@.len() as int));
                assert(longer.take(root@.len() as int) =~= root@);
            }
            if text::has_prefix(path@, root@) && path@.len() > root@.len() && path@[root@.len() as int]
                == '\\' {
                assert(path@.subrange(0, longer.len() as int) =~= path@.subrange(
                    0,
                    root@.len() as int,
                ).push('\\'));
            }
        }
        begins && path.len() > root.len() && path[root.len()] == '\\'
    }
}

/// Of two keys that hold a third, the longer one lies within the shorter one.
pub proof fn lemma_within_nests(path: Seq<char>, a: Seq<char>, b: Seq<char>)
    requires
        within(path, a),
        within(path, b),
        a.len() <= b.len(),
    ensures
        within(b, a),
{
    assert(path.subrange(0, path.len() as int) =~= path);
    lemma_within_begins(path, a);
    lemma_within_begins(path, b);
    if a.len() == b.len() {
        assert(a =~= b);
    } else {
        if a.len() > 0 && a.last() == '\\' {
            assert(b.subrange(0, a.len() as int) =~= a);
        } else {
            let longer = a.push('\\');
            assert(path != a);
            assert(b.subrange(0, longer.len() as int) =~= longer) by {
                assert forall|i: int| 0 <= i < longer.len() implies b[i] == longer[i] by {
                    assert(path[i] == path.subrange(0, longer.len() as int)[i]);
                    assert(path[i] == path.take(b.len() as int)[i]);
                }
            }
        }
    }
}

/// A key begins with every key that it lies within.
pub proof fn lemma_within_begins(path: Seq<char>, a: Seq<char>)
    requires
        within(path, a),
    ensures
        a.len() <= path.len(),
        path.take(a.len() as int) == a,
{
    if path == a {
        assert(path.take(a.len() as int) =~= a);
    } else if a.len() > 0 && a.last() == '\\' {
        assert(path.subrange(0, a.len() as int) =~= path.take(a.len() as int));
    } else {
        let longer = a.push('\\');
        assert(path.take(a.len() as int) =~= path.subrange(0, longer.len() as int).take(
            a.len() as int,
        ));
        assert(longer.take(a.len() as int) =~= a);
    }
}

/// The number of pieces by which a key goes on behind another that it lies within.
pub open spec fn relative_depth(path_key: Seq<char>, root_key: Seq<char>) -> Option<nat> {
    if !within(path_key, root_key) {
        None
    } else if path_key == root_key {
        Some(0)
    } else {
        Some(
            text::runs(
                path_key.skip(root_key.len() as int),
                |c: char| c != '\\',
            ).len(),
        )
    }
}

/// How many pieces deeper than another key a key lies.
pub fn path_key_relative_depth(path_key: &str, root_key: &str) -> (r: Option<usize>)
    ensures
        match relative_depth(path_key@, root_key@) {
            None => r is None,
            Some(n) => r matches Some(found) && found == n,
        },
{
    if !path_key_is_within(path_key, root_key) {
        return None;
    }
    if text::same_text(path_key, root_key) {
        return Some(0);
    }
    let path = text::chars_of(path_key);
    let root = text::chars_of(root_key);
    proof {
        lemma_within_begins(path@, root@);
        assert(path@.subrange(root@.len() as int, path@.len() as int) =~= path@.skip(
            root@.len() as int,
        ));
    }
    let rest = vstd::slice::slice_subrange(path.as_slice(), root.len(), path.len());
    let keep = |c: char| -> (b: bool)
        ensures
            b == (c != '\\'),
        {
            c != '\\'
        };
    let found = text::split_runs(rest, keep, Ghost(|c: char| c != '\\'));
    proof {
        assert(text::texts(found@).len() == found@.len());
    }
    Some(found.len())
}

/// Whether a path lies within a folder.
pub fn path_is_within_root(path: &str, root: &str, working_directory: &str) -> (r: bool)
    ensures
        r == within(
            path_key(path@, working_directory@),
            path_key(root@, working_directory@),
        ),
{
    let path_key = normalized_root_path_key(path, working_directory);
    let root_key = normalized_root_path_key(root, working_directory);
    path_key_is_within(path_key.as_str(), root_key.as_str())
}

/// A key lies within one of several.
pub open spec fn within_any(path_key: Seq<char>, roots: Seq<Seq<char>>) -> bool {
    exists|i: int| 0 <= i < roots.len() && within(path_key, #[trigger] roots[i])
}

/// Whether a key lies within one of several.
pub fn key_is_within_any(path_key: &str, roots: &[String]) -> (r: bool)
    ensures
        r == within_any(path_key@, text::texts(roots@)),
{
    let mut i: usize = 0;
    while i < roots.len()
        invariant
            i <= roots.len(),
            forall|k: int| 0 <= k < i ==> !within(path_key@, #[trigger] text::texts(roots@)[k]),
        decreases roots.len() - i,
    {
        if path_key_is_within(path_key, roots[i].as_str()) {
            proof {
                assert(text::texts(roots@)[i as int] == roots@[i as int]@);
            }
            return true;
        }
        i += 1;
    }
    proof {
        assert(text::texts(roots@).len() == roots@.len());
    }
    false
}

/// Whether a path lies within one of the folders that are left out.
pub fn path_is_in_excluded_subtree(path: &str, exclusions: &[String], working_directory: &str) -> (r:
    bool)
    ensures
        r == within_any(path_key(path@, working_directory@), text::texts(exclusions@)),
{
    let path_key = normalized_root_path_key(path, working_directory);
    key_is_within_any(path_key.as_str(), exclusions)
}

// ---------------------------------------------------------------------------
// The plan
// ---------------------------------------------------------------------------

/// A search folder with its place and the folders inside it that others own.
#[derive(Debug, PartialEq, Eq)]
pub struct RootOwnershipEntry {
    pub root: IndexRoot,
    pub path: String,
    pub key: String,
    pub exclusions: Vec<String>,
}

/// The search folders in use.
#[derive(Debug, PartialEq, Eq)]
pub struct RootOwnershipPlan {
    pub entries: Vec<RootOwnershipEntry>,
}

/// The keys of entries.
pub open spec fn keys_of(entries: Seq<RootOwnershipEntry>) -> Seq<Seq<char>> {
    Seq::new(entries.len(), |i: int| entries[i].key@)
}

/// The first `n` keys that are not the given one but lie within it.
pub open spec fn keys_inside(keys: Seq<Seq<char>>, key: Seq<char>, n: int) -> Seq<Seq<char>>
    decreases n,
{
    if n <= 0 {
        Seq::empty()
    } else {
        let before = keys_inside(keys, key, n - 1);
        if keys[n - 1] != key && within(keys[n - 1], key) {
            before.push(keys[n - 1])
        } else {
            before
        }
    }
}

/// The first `n` folders that are used: enabled, with a path that is a directory,
/// and with a key that none before it has.
pub open spec fn used(
    roots: Seq<IndexRoot>,
    directories: Seq<bool>,
    working_directory: Seq<char>,
    n: int,
) -> Seq<int>
    decreases n,
{
    if n <= 0 {
        Seq::empty()
    } else {
        let before = used(roots, directories, working_directory, n - 1);
        let root = roots[n - 1];
        if root.enabled && root.path is Some && directories[n - 1] && !used_keys(
            roots,
            before,
            working_directory,
        ).contains(root_key(root, working_directory)) {
            before.push(n - 1)
        } else {
            before
        }
    }
}

/// The key of a folder.
pub open spec fn root_key(root: IndexRoot, working_directory: Seq<char>) -> Seq<char> {
    path_key(winpath::lexical_absolute(root.path->0@, working_directory), working_directory)
}

/// The keys of folders.
pub open spec fn used_keys(
    roots: Seq<IndexRoot>,
    used: Seq<int>,
    working_directory: Seq<char>,
) -> Seq<Seq<char>> {
    Seq::new(used.len(), |i: int| root_key(roots[used[i]], working_directory))
}

/// An entry for a folder.
pub open spec fn enters(
    entry: RootOwnershipEntry,
    root: IndexRoot,
    working_directory: Seq<char>,
) -> bool {
    let path = winpath::lexical_absolute(root.path->0@, working_directory);
    &&& entry.path@ == path
    &&& entry.key@ == path_key(path, working_directory)
    &&& entry.root.raw@ == root.raw@
    &&& entry.root.path matches Some(p) && p@ == path
    &&& entry.root.enabled == root.enabled
    &&& entry.root.score == root.score
    &&& entry.root.max_depth == root.max_depth
    &&& entry.root.label@ == root.label@
    &&& types::same_strings(entry.root.keywords@, root.keywords@)
}

/// The entry holds a key.
pub open spec fn holds(entries: Seq<RootOwnershipEntry>, key: Seq<char>, i: int) -> bool {
    0 <= i < entries.len() && within(key, entries[i].key@)
}

/// The entry is the innermost one that holds a key: every other one that does has
/// a shorter key.
pub open spec fn owns(entries: Seq<RootOwnershipEntry>, key: Seq<char>, i: int) -> bool {
    &&& holds(entries, key, i)
    &&& forall|j: int|
        j != i && #[trigger] holds(entries, key, j) ==> entries[j].key@.len()
            < entries[i].key@.len()
}

proof fn lemma_keys_inside(keys: Seq<Seq<char>>, key: Seq<char>, n: int, k: int)
    requires
        0 <= k < n <= keys.len(),
        keys[k] != key,
        within(keys[k], key),
    ensures
        exists|m: int| 0 <= m < keys_inside(keys, key, n).len() && keys_inside(keys, key, n)[m]
            == keys[k],
    decreases n,
{
    if k < n - 1 {
        lemma_keys_inside(keys, key, n - 1, k);
        let before = keys_inside(keys, key, n - 1);
        let m = choose|m: int| 0 <= m < before.len() && before[m] == keys[k];
        assert(keys_inside(keys, key, n)[m] == keys[k]);
    } else {
        let all = keys_inside(keys, key, n);
        assert(all[all.len() - 1] == keys[k]);
    }
}

proof fn lemma_keys_inside_only(keys: Seq<Seq<char>>, key: Seq<char>, n: int)
    requires
        0 <= n <= keys.len(),
    ensures
        forall|m: int|
            #![trigger keys_inside(keys, key, n)[m]]
            0 <= m < keys_inside(keys, key, n).len() ==> within(keys_inside(keys, key, n)[m], key)
                && keys_inside(keys, key, n)[m] != key && keys.contains(
                keys_inside(keys, key, n)[m],
            ),
    decreases n,
{
    if n > 0 {
        lemma_keys_inside_only(keys, key, n - 1);
        let before = keys_inside(keys, key, n - 1);
        let all = keys_inside(keys, key, n);
        assert forall|m: int| 0 <= m < all.len() implies within(#[trigger] all[m], key) && all[m]
            != key && keys.contains(all[m]) by {
            if m < before.len() {
                assert(all[m] == before[m]);
            } else {
                assert(all[m] == keys[n - 1]);
            }
        }
    }
}

impl RootOwnershipPlan {
    /// No two entries have the same key, and each leaves out exactly the others
    /// that lie within it.
    pub open spec fn well_formed(&self) -> bool {
        &&& keys_of(self.entries@).no_duplicates()
        &&& forall|i: int|
            0 <= i < self.entries@.len() ==> text::texts((#[trigger] self.entries@[i]).exclusions@)
                == keys_inside(
                keys_of(self.entries@),
                self.entries@[i].key@,
                self.entries@.len() as int,
            )
    }

    /// The entries.
    pub fn entries(&self) -> (r: &[RootOwnershipEntry])
        ensures
            r@ == self.entries@,
    {
        self.entries.as_slice()
    }

    /// The entry that a key belongs to: the innermost one that holds it.
    pub fn owner_by_key(&self, path_key: &str) -> (r: Option<&RootOwnershipEntry>)
        requires
            self.well_formed(),
        ensures
            match r {
                None => forall|i: int| !holds(self.entries@, path_key@, i),
                Some(entry) => exists|i: int|
                    owns(self.entries@, path_key@, i) && *entry == self.entries@[i],
            },
    {
        let mut i: usize = 0;
        while i < self.entries.len()
            invariant
                i <= self.entries.len(),
                self.well_formed(),
                forall|k: int|
                    0 <= k < i && #[trigger] holds(self.entries@, path_key@, k) ==> within_any(
                        path_key@,
                        text::texts(self.entries@[k].exclusions@),
                    ),
            decreases self.entries.len() - i,
        {
            let entry = &self.entries[i];
            if path_key_is_within(path_key, entry.key.as_str()) && !key_is_within_any(
                path_key,
                entry.exclusions.as_slice(),
            ) {
                proof {
                    lemma_innermost(self.entries@, path_key@, i as int);
                }
                return Some(entry);
            }
            i += 1;
        }
        proof {
            if exists|k: int| holds(self.entries@, path_key@, k) {
                let k = choose|k: int| holds(self.entries@, path_key@, k);
                lemma_some_owner(self.entries@, path_key@, k);
            }
        }
        None
    }

    /// The entry that a path belongs to.
    pub fn owner(&self, path: &str, working_directory: &str) -> (r: Option<&RootOwnershipEntry>)
        requires
            self.well_formed(),
        ensures
            match r {
                None => forall|i: int|
                    !holds(self.entries@, path_key(path@, working_directory@), i),
                Some(entry) => exists|i: int|
                    owns(self.entries@, path_key(path@, working_directory@), i) && *entry
                        == self.entries@[i],
            },
    {
        let key = normalized_root_path_key(path, working_directory);
        self.owner_by_key(key.as_str())
    }
}

spec fn plan_of(entries: Seq<RootOwnershipEntry>) -> bool {
    &&& keys_of(entries).no_duplicates()
    &&& forall|i: int|
        0 <= i < entries.len() ==> text::texts((#[trigger] entries[i]).exclusions@) == keys_inside(
            keys_of(entries),
            entries[i].key@,
            entries.len() as int,
        )
}

/// An entry that holds a key and leaves it to no other is its owner.
proof fn lemma_innermost(entries: Seq<RootOwnershipEntry>, key: Seq<char>, i: int)
    requires
        plan_of(entries),
        holds(entries, key, i),
        !within_any(key, text::texts(entries[i].exclusions@)),
    ensures
        owns(entries, key, i),
{
    let keys = keys_of(entries);
    assert forall|j: int| j != i && #[trigger] holds(entries, key, j) implies entries[j].key@.len()
        < entries[i].key@.len() by {
        assert(keys[i] == entries[i].key@);
        assert(keys[j] == entries[j].key@);
        assert(keys[j] != keys[i]);
        if entries[j].key@.len() >= entries[i].key@.len() {
            lemma_within_nests(key, keys[i], keys[j]);
            lemma_keys_inside(keys, keys[i], entries.len() as int, j);
            let inside = keys_inside(keys, keys[i], entries.len() as int);
            let m = choose|m: int| 0 <= m < inside.len() && inside[m] == keys[j];
            assert(within(key, text::texts(entries[i].exclusions@)[m]));
        }
    }
}

/// Where some entry holds a key, one of them leaves it to no other.
proof fn lemma_some_owner(entries: Seq<RootOwnershipEntry>, key: Seq<char>, k: int)
    requires
        plan_of(entries),
        holds(entries, key, k),
    ensures
        exists|i: int| #[trigger]
            holds(entries, key, i) && !within_any(key, text::texts(entries[i].exclusions@)),
    decreases key.len() - entries[k].key@.len(),
{
    let keys = keys_of(entries);
    let n = entries.len() as int;
    assert(keys[k] == entries[k].key@);
    lemma_within_begins(key, entries[k].key@);
    let out = text::texts(entries[k].exclusions@);
    if within_any(key, out) {
        let m = choose|m: int| 0 <= m < out.len() && within(key, #[trigger] out[m]);
        lemma_keys_inside_only(keys, keys[k], n);
        assert(keys_inside(keys, keys[k], n)[m] == out[m]);
        assert(keys.contains(out[m]));
        let j = choose|j: int| 0 <= j < keys.len() && keys[j] == out[m];
        assert(holds(entries, key, j));
        lemma_within_begins(out[m], keys[k]);
        lemma_within_begins(key, out[m]);
        if out[m].len() == keys[k].len() {
            assert(out[m].take(keys[k].len() as int) =~= out[m]);
        }
        lemma_some_owner(entries, key, j);
    }
}

/// A key has at most one owner.
pub proof fn lemma_one_owner(entries: Seq<RootOwnershipEntry>, key: Seq<char>, i: int, j: int)
    requires
        owns(entries, key, i),
        owns(entries, key, j),
    ensures
        i == j,
{
    assert(holds(entries, key, i));
    assert(holds(entries, key, j));
}

/// The rows of a plan, with nothing left out yet.
pub open spec fn rows_of(
    found: Seq<RootOwnershipEntry>,
    keys: Seq<Seq<char>>,
    roots: Seq<IndexRoot>,
    rows: Seq<int>,
    working_directory: Seq<char>,
) -> bool {
    &&& found.len() == rows.len()
    &&& forall|k: int|
        0 <= k < rows.len() ==> enters(#[trigger] found[k], roots[rows[k]], working_directory)
    &&& keys == used_keys(roots, rows, working_directory)
    &&& keys_of(found) == keys
    &&& keys.no_duplicates()
}

proof fn lemma_row_push(
    found: Seq<RootOwnershipEntry>,
    keys: Seq<Seq<char>>,
    roots: Seq<IndexRoot>,
    rows: Seq<int>,
    working_directory: Seq<char>,
    entry: RootOwnershipEntry,
    row: int,
)
    requires
        rows_of(found, keys, roots, rows, working_directory),
        enters(entry, roots[row], working_directory),
        !keys.contains(entry.key@),
    ensures
        rows_of(
            found.push(entry),
            keys.push(entry.key@),
            roots,
            rows.push(row),
            working_directory,
        ),
{
    let found2 = found.push(entry);
    let keys2 = keys.push(entry.key@);
    let rows2 = rows.push(row);
    assert(keys2 =~= used_keys(roots, rows2, working_directory));
    assert(keys_of(found2) =~= keys2);
    assert forall|k: int| 0 <= k < rows2.len() implies enters(
        #[trigger] found2[k],
        roots[rows2[k]],
        working_directory,
    ) by {
        if k < rows.len() {
            assert(found2[k] == found[k]);
        }
    }
    assert forall|a: int, b: int|
        0 <= a < keys2.len() && 0 <= b < keys2.len() && a != b implies keys2[a] != keys2[b] by {
        if a < keys.len() && b < keys.len() {
            assert(keys[a] != keys[b]);
        } else if a < keys.len() {
            assert(keys.contains(keys[a]));
        } else if b < keys.len() {
            assert(keys.contains(keys[b]));
        }
    }
}

fn entry_of(root: &IndexRoot, path: String, key: String) -> (r: RootOwnershipEntry)
    ensures
        r.path@ == path@,
        r.key@ == key@,
        r.root.raw@ == root.raw@,
        r.root.path matches Some(p) && p@ == path@,
        r.root.enabled == root.enabled,
        r.root.score == root.score,
        r.root.max_depth == root.max_depth,
        r.root.label@ == root.label@,
        types::same_strings(r.root.keywords@, root.keywords@),
{
    let mut owned = root.copy();
    owned.path = Some(path.clone());
    RootOwnershipEntry { root: owned, path, key, exclusions: Vec::new() }
}

fn plan_rows(roots: &[IndexRoot], directories: &[bool], working_directory: &str) -> (r: (
    Vec<RootOwnershipEntry>,
    Vec<String>,
))
    requires
        directories@.len() == roots@.len(),
    ensures
        rows_of(
            r.0@,
            text::texts(r.1@),
            roots@,
            used(roots@, directories@, working_directory@, roots@.len() as int),
            working_directory@,
        ),
{
    let mut found: Vec<RootOwnershipEntry> = Vec::new();
    let mut keys: Vec<String> = Vec::new();
    let mut i: usize = 0;
    proof {
        assert(text::texts(keys@) =~= used_keys(
            roots@,
            used(roots@, directories@, working_directory@, 0),
            working_directory@,
        ));
        assert(keys_of(found@) =~= text::texts(keys@));
    }
    while i < roots.len()
        invariant
            i <= roots.len(),
            directories@.len() == roots@.len(),
            rows_of(
                found@,
                text::texts(keys@),
                roots@,
                used(roots@, directories@, working_directory@, i as int),
                working_directory@,
            ),
        decreases roots.len() - i,
    {
        let root = &roots[i];
        if root.enabled && directories[i] {
            if let Some(configured) = &root.path {
                let path = winpath::lexical_absolute_path(configured.as_str(), working_directory);
                let key = normalized_root_path_key(path.as_str(), working_directory);
                if !text::contains_text(keys.as_slice(), key.as_str()) {
                    let ghost old_keys = keys@;
                    let entry = entry_of(root, path, key.clone());
                    proof {
                        lemma_row_push(
                            found@,
                            text::texts(keys@),
                            roots@,
                            used(roots@, directories@, working_directory@, i as int),
                            working_directory@,
                            entry,
                            i as int,
                        );
                    }
                    found.push(entry);
                    keys.push(key);
                    proof {
                        assert(text::texts(keys@) =~= text::texts(old_keys).push(key@));
                    }
                }
            }
        }
        i += 1;
    }
    (found, keys)
}

fn select_inside(keys: &[String], own: &str) -> (r: Vec<String>)
    ensures
        text::texts(r@) == keys_inside(text::texts(keys@), own@, keys@.len() as int),
{
    let ghost all = text::texts(keys@);
    let mut out: Vec<String> = Vec::new();
    let mut m: usize = 0;
    proof {
        assert(text::texts(out@) =~= Seq::<Seq<char>>::empty());
    }
    while m < keys.len()
        invariant
            m <= keys.len(),
            all == text::texts(keys@),
            text::texts(out@) == keys_inside(all, own@, m as int),
        decreases keys.len() - m,
    {
        let ghost before = out@;
        proof {
            assert(all[m as int] == keys@[m as int]@);
        }
        if !text::same_text(keys[m].as_str(), own) && path_key_is_within(keys[m].as_str(), own) {
            out.push(keys[m].clone());
            proof {
                assert(text::texts(out@) =~= text::texts(before).push(all[m as int]));
            }
        }
        m += 1;
    }
    out
}

/// The plan for search folders, of which it is known which are directories.
pub fn build_plan(roots: &[IndexRoot], directories: &[bool], working_directory: &str) -> (r:
    RootOwnershipPlan)
    requires
        directories@.len() == roots@.len(),
    ensures
        r.well_formed(),
        ({
            let rows = used(roots@, directories@, working_directory@, roots@.len() as int);
            &&& r.entries@.len() == rows.len()
            &&& forall|k: int|
                0 <= k < rows.len() ==> enters(
                    #[trigger] r.entries@[k],
                    roots@[rows[k]],
                    working_directory@,
                )
        }),
{
    let (mut found, keys): (Vec<RootOwnershipEntry>, Vec<String>) = plan_rows(
        roots,
        directories,
        working_directory,
    );
    let ghost rows = used(roots@, directories@, working_directory@, roots@.len() as int);
    let ghost all_keys = text::texts(keys@);
    let mut k: usize = 0;
    proof {
        assert(all_keys.len() == found@.len()) by {
            assert(keys_of(found@).len() == found@.len());
        }
    }
    while k < found.len()
        invariant
            k <= found.len(),
            all_keys == text::texts(keys@),
            all_keys.len() == keys@.len(),
            rows_of(found@, all_keys, roots@, rows, working_directory@),
            forall|m: int|
                0 <= m < k ==> text::texts((#[trigger] found@[m]).exclusions@) == keys_inside(
                    all_keys,
                    found@[m].key@,
                    all_keys.len() as int,
                ),
        decreases found.len() - k,
    {
        let ghost before = found@;
        let exclusions = select_inside(keys.as_slice(), found[k].key.as_str());
        let slot = &mut found[k];
        slot.exclusions = exclusions;
        proof {
            assert(keys_of(found@) =~= keys_of(before));
            assert forall|x: int| 0 <= x < rows.len() implies enters(
                #[trigger] found@[x],
                roots@[rows[x]],
                working_directory@,
            ) by {
                assert(enters(before[x], roots@[rows[x]], working_directory@));
            }
        }
        k += 1;
    }
    RootOwnershipPlan { entries: found }
}

/// A search through a folder reaches a key: the folder holds it, and leaves it to no other.
pub open spec fn reaches(entries: Seq<RootOwnershipEntry>, key: Seq<char>, i: int) -> bool {
    holds(entries, key, i) && !within_any(key, text::texts(entries[i].exclusions@))
}

/// What any folder holds, exactly one folder reaches: nothing is looked at twice, and
/// nothing is left out.
pub proof fn lemma_reached_once(plan: RootOwnershipPlan, key: Seq<char>)
    requires
        plan.well_formed(),
    ensures
        (exists|k: int| holds(plan.entries@, key, k)) ==> exists|i: int|
            reaches(plan.entries@, key, i),
        forall|i: int, j: int|
            #![trigger reaches(plan.entries@, key, i), reaches(plan.entries@, key, j)]
            reaches(plan.entries@, key, i) && reaches(plan.entries@, key, j) ==> i == j,
        forall|i: int| #[trigger] reaches(plan.entries@, key, i) ==> owns(plan.entries@, key, i),
{
    let entries = plan.entries@;
    assert(plan_of(entries));
    if exists|k: int| holds(entries, key, k) {
        let k = choose|k: int| holds(entries, key, k);
        lemma_some_owner(entries, key, k);
        let i = choose|i: int| #[trigger]
            holds(entries, key, i) && !within_any(key, text::texts(entries[i].exclusions@));
        assert(reaches(entries, key, i));
    }
    assert forall|i: int| #[trigger] reaches(entries, key, i) implies owns(entries, key, i) by {
        lemma_innermost(entries, key, i);
    }
    assert forall|i: int, j: int|
        #![trigger reaches(entries, key, i), reaches(entries, key, j)]
        reaches(entries, key, i) && reaches(entries, key, j) implies i == j by {
        lemma_one_owner(entries, key, i, j);
    }
}

// ---------------------------------------------------------------------------
// Places of paths
// ---------------------------------------------------------------------------

/// A key lies within another where it is the same, or begins with it and goes on at a
/// separator, and only there.
pub proof fn lemma_within_goes_by_pieces(path_key: Seq<char>, root_key: Seq<char>)
    ensures
        within(path_key, root_key) <==> path_key == root_key || (root_key.len() <= path_key.len()
            && path_key.take(root_key.len() as int) == root_key && ((root_key.len() > 0
            && root_key.last() == '\\') || (path_key.len() > root_key.len()
            && path_key[root_key.len() as int] == '\\'))),
{
    let n = root_key.len() as int;
    let longer = root_key.push('\\');
    if n <= path_key.len() {
        assert(path_key.take(n) =~= path_key.subrange(0, n));
    }
    if text::has_prefix(path_key, longer) {
        assert(path_key.subrange(0, n + 1)[n] == '\\');
        assert(path_key.take(n) =~= longer.take(n));
        assert(longer.take(n) =~= root_key);
    }
    if n < path_key.len() && path_key.take(n) == root_key && path_key[n] == '\\' {
        assert(path_key.subrange(0, n + 1) =~= longer);
    }
}

/// A path is at no depth below itself, and every piece that is put behind it lies one step
/// deeper.
pub proof fn lemma_one_step_deeper(key: Seq<char>, root_key: Seq<char>, piece: Seq<char>)
    requires
        piece.len() > 0,
        !piece.contains('\\'),
    ensures
        relative_depth(root_key, root_key) == Some(0nat),
        within(key, root_key) && key.len() > 0 && key.last() != '\\' ==> relative_depth(
            key + seq!['\\'] + piece,
            root_key,
        ) == Some((relative_depth(key, root_key)->0 + 1) as nat),
        root_key.len() > 0 && root_key.last() == '\\' ==> relative_depth(root_key + piece, root_key)
            == Some(1nat),
        !within(key, root_key) ==> relative_depth(key, root_key) is None,
{
    let keep = |c: char| c != '\\';
    assert forall|i: int| 0 <= i < piece.len() implies keep(#[trigger] piece[i]) by {
        if piece[i] == '\\' {
            assert(piece.contains(piece[i]));
        }
    }
    let n = root_key.len() as int;
    if within(key, root_key) && key.len() > 0 && key.last() != '\\' {
        lemma_within_goes_by_pieces(key, root_key);
        let next = key + seq!['\\'] + piece;
        lemma_within_goes_by_pieces(next, root_key);
        if key == root_key {
            assert(next.take(n) =~= root_key);
            assert(next[n] == '\\');
        } else {
            assert(next.take(n) =~= key.take(n));
            assert(root_key.last() == '\\' && n > 0 || next[n] == key[n]);
        }
        assert(within(next, root_key));
        let rest = key.skip(n);
        let front = rest + seq!['\\'];
        assert(next.skip(n) =~= front + piece);
        assert(front.drop_last() =~= rest);
        assert(front.last() == '\\');
        text::lemma_runs_add(front, piece, keep);
        assert(text::runs(front, keep) == text::runs(rest, keep));
        assert(text::runs(next.skip(n), keep).len() == text::runs(rest, keep).len() + 1);
        if key == root_key {
            assert(rest =~= Seq::<char>::empty());
        }
    }
    if n > 0 && root_key.last() == '\\' {
        let next = root_key + piece;
        lemma_within_goes_by_pieces(next, root_key);
        assert(next.take(n) =~= root_key);
        let none = Seq::<char>::empty();
        assert(next.skip(n) =~= none + piece);
        text::lemma_runs_add(none, piece, keep);
        assert(text::runs(none, keep) =~= Seq::<Seq<char>>::empty());
    }
}

/// Slashes become backslashes, and nothing else changes.
pub proof fn lemma_backslashed(s: Seq<char>)
    ensures
        backslashed(s).len() == s.len(),
        !backslashed(s).contains('/'),
        forall|i: int|
            0 <= i < s.len() ==> #[trigger] backslashed(s)[i] == s[i] || (s[i] == '/' && backslashed(
                s,
            )[i] == '\\'),
{
}

/// The mark of a verbatim path does not count: a share is known by its name, and anything
/// else by what follows the mark.
pub proof fn lemma_marks_do_not_count(rest: Seq<char>)
    ensures
        unmarked("\\\\?\\UNC\\"@ + rest) == "\\\\"@ + rest,
        !text::has_prefix("\\\\?\\"@ + rest, "\\\\?\\UNC\\"@) ==> unmarked("\\\\?\\"@ + rest)
            == rest,
        !text::has_prefix(rest, "\\\\?\\"@) && !text::has_prefix(rest, "\\\\?\\UNC\\"@) ==> unmarked(
            rest,
        ) == rest,
{
    let share = "\\\\?\\UNC\\"@;
    let mark = "\\\\?\\"@;
    assert((share + rest).subrange(0, share.len() as int) =~= share);
    assert((share + rest).skip(share.len() as int) =~= rest);
    assert((mark + rest).subrange(0, mark.len() as int) =~= mark);
    assert((mark + rest).skip(mark.len() as int) =~= rest);
}

/// Separators at the end do not count: what is cut is backslashes, and of a text that is not
/// short all of them.
pub proof fn lemma_tails_do_not_count(s: Seq<char>)
    ensures
        without_tail(s).len() <= s.len(),
        s.take(without_tail(s).len() as int) == without_tail(s),
        forall|i: int| without_tail(s).len() <= i < s.len() ==> #[trigger] s[i] == '\\',
        encode_utf8(without_tail(s)).len() > 3 && without_tail(s).len() > 0 ==> without_tail(
            s,
        ).last() != '\\',
    decreases s.len(),
{
    if encode_utf8(s).len() > 3 && s.len() > 0 && s.last() == '\\' {
        let front = s.drop_last();
        lemma_tails_do_not_count(front);
        let n = without_tail(s).len() as int;
        assert(front.take(n) =~= s.take(n));
        assert forall|i: int| n <= i < s.len() implies #[trigger] s[i] == '\\' by {
            if i < s.len() - 1 {
                assert(front[i] == s[i]);
            }
        }
    } else {
        assert(s.take(s.len() as int) =~= s);
    }
}

/// A path is compared by its absolute form, with one kind of separator and without case and
/// accents: paths with one absolute form are one, wherever they are seen from.
pub proof fn lemma_one_place_one_key(
    a: Seq<char>,
    b: Seq<char>,
    from_a: Seq<char>,
    from_b: Seq<char>,
)
    requires
        backslashed(winpath::lexical_absolute(a, from_a)) == backslashed(
            winpath::lexical_absolute(b, from_b),
        ),
    ensures
        path_key(a, from_a) == path_key(b, from_b),
{
}

proof fn lemma_used(
    roots: Seq<IndexRoot>,
    directories: Seq<bool>,
    working_directory: Seq<char>,
    n: int,
)
    requires
        0 <= n <= roots.len(),
        directories.len() == roots.len(),
    ensures
        places::rising(used(roots, directories, working_directory, n), n),
        forall|k: int|
            0 <= k < used(roots, directories, working_directory, n).len() ==> {
                let p = #[trigger] used(roots, directories, working_directory, n)[k];
                roots[p].enabled && roots[p].path is Some && directories[p]
            },
        used_keys(
            roots,
            used(roots, directories, working_directory, n),
            working_directory,
        ).no_duplicates(),
        forall|p: int|
            0 <= p < n && (#[trigger] roots[p]).enabled && roots[p].path is Some && directories[p]
                ==> used_keys(
                roots,
                used(roots, directories, working_directory, n),
                working_directory,
            ).contains(root_key(roots[p], working_directory)),
        forall|k: int, p: int|
            #![trigger used(roots, directories, working_directory, n)[k], roots[p]]
            0 <= k < used(roots, directories, working_directory, n).len() && 0 <= p < used(
                roots,
                directories,
                working_directory,
                n,
            )[k] && roots[p].enabled && roots[p].path is Some && directories[p] ==> root_key(
                roots[p],
                working_directory,
            ) != root_key(
                roots[used(roots, directories, working_directory, n)[k]],
                working_directory,
            ),
    decreases n,
{
    let now = used(roots, directories, working_directory, n);
    if n > 0 {
        lemma_used(roots, directories, working_directory, n - 1);
        let before = used(roots, directories, working_directory, n - 1);
        let old_keys = used_keys(roots, before, working_directory);
        let keys = used_keys(roots, now, working_directory);
        if now != before {
            assert(now == before.push(n - 1));
            assert forall|k: int| 0 <= k < before.len() implies #[trigger] now[k] == before[k] by {}
            assert(places::rising(now, n)) by {
                assert forall|i: int| 0 <= i < now.len() implies 0 <= #[trigger] now[i] < n by {
                    if i < before.len() {
                        assert(now[i] == before[i]);
                    }
                }
                assert forall|i: int, j: int|
                    #![trigger now[i], now[j]]
                    0 <= i < j < now.len() implies now[i] < now[j] by {
                    assert(now[i] == before[i]);
                    if j < before.len() {
                        assert(now[j] == before[j]);
                    }
                }
            }
            assert(keys =~= old_keys.push(root_key(roots[n - 1], working_directory)));
            assert(keys.last() == root_key(roots[n - 1], working_directory));
            assert forall|k: int| 0 <= k < now.len() implies ({
                let p = #[trigger] now[k];
                roots[p].enabled && roots[p].path is Some && directories[p]
            }) by {
                if k < before.len() {
                    assert(now[k] == before[k]);
                }
            }
            assert forall|k: int, p: int|
                #![trigger now[k], roots[p]]
                0 <= k < now.len() && 0 <= p < now[k] && roots[p].enabled && roots[p].path is Some
                    && directories[p] implies root_key(roots[p], working_directory) != root_key(
                roots[now[k]],
                working_directory,
            ) by {
                if k < before.len() {
                    assert(now[k] == before[k]);
                } else {
                    assert(old_keys.contains(root_key(roots[p], working_directory)));
                }
            }
        } else {
            assert(places::rising(now, n)) by {
                assert forall|i: int| 0 <= i < now.len() implies 0 <= #[trigger] now[i] < n by {}
            }
        }
        assert forall|p: int|
            0 <= p < n && (#[trigger] roots[p]).enabled && roots[p].path is Some
                && directories[p] implies keys.contains(root_key(roots[p], working_directory)) by {
            if p < n - 1 {
                let k = old_keys.index_of(root_key(roots[p], working_directory));
                assert(keys[k] == old_keys[k]);
            } else if now != before {
                assert(keys[keys.len() - 1] == root_key(roots[p], working_directory));
            }
        }
    }
}

/// The folders that are searched are the ones that are switched on, have a path and are
/// directories, in their order; of those for one place the first counts, and none is missing.
pub proof fn lemma_which_folders_count(
    roots: Seq<IndexRoot>,
    directories: Seq<bool>,
    working_directory: Seq<char>,
)
    requires
        directories.len() == roots.len(),
    ensures
        ({
            let rows = used(roots, directories, working_directory, roots.len() as int);
            let keys = used_keys(roots, rows, working_directory);
            &&& places::rising(rows, roots.len() as int)
            &&& keys.no_duplicates()
            &&& forall|k: int|
                0 <= k < rows.len() ==> {
                    let p = #[trigger] rows[k];
                    roots[p].enabled && roots[p].path is Some && directories[p]
                }
            &&& forall|p: int|
                0 <= p < roots.len() && (#[trigger] roots[p]).enabled && roots[p].path is Some
                    && directories[p] ==> keys.contains(root_key(roots[p], working_directory))
            &&& forall|k: int, p: int|
                #![trigger rows[k], roots[p]]
                0 <= k < rows.len() && 0 <= p < rows[k] && roots[p].enabled && roots[p].path is Some
                    && directories[p] ==> root_key(roots[p], working_directory) != root_key(
                    roots[rows[k]],
                    working_directory,
                )
        }),
{
    lemma_used(roots, directories, working_directory, roots.len() as int);
}

/// What a folder leaves to others is the keys that lie within its own, but for its own.
pub proof fn lemma_left_to_others(keys: Seq<Seq<char>>, key: Seq<char>, n: int)
    requires
        0 <= n <= keys.len(),
    ensures
        keys_inside(keys, key, n) == keys.take(n).filter(
            |k: Seq<char>| k != key && within(k, key),
        ),
    decreases n,
{
    reveal(Seq::filter);
    if n > 0 {
        lemma_left_to_others(keys, key, n - 1);
        assert(keys.take(n).drop_last() =~= keys.take(n - 1));
        assert(keys.take(n).last() == keys[n - 1]);
    }
}

} // verus!
