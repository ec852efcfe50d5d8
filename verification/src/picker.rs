//! Decisions of the picker's background handlers: what to preview, and when to run the
//! debounced highlighting and dynamic queries.
use vstd::prelude::*;
use vstd::string::StringExecFns;

verus! {

/// Files larger than this many bytes are not previewed.
pub const MAX_FILE_SIZE_FOR_PREVIEW: u64 = 10485760;

/// The number of bytes read to tell a binary file from a text file.
pub const BINARY_PROBE_BYTES: u64 = 1024;

/// The default debounce of dynamic queries, in milliseconds.
pub const DEFAULT_QUERY_DEBOUNCE_MS: u64 = 100;

/// The debounce of preview highlighting, in milliseconds.
pub const HIGHLIGHT_DEBOUNCE_MS: u64 = 150;

/// What to do next to preview a path.
#[derive(Debug, Clone, Copy, PartialEq, Eq, Structural)]
pub enum PreviewPlan {
    /// List the directory's entries.
    ListDirectory,
    /// Nothing can be shown.
    NotFound,
    /// The file is too large to show.
    LargeFile,
    /// Read the first bytes of the file to tell whether it is binary.
    ProbeContent,
    /// The file is binary and is not shown.
    Binary,
    /// Read the whole file as a document.
    ReadDocument,
}

/// The plan for a path from its metadata: directories are listed, anything that is neither
/// a directory nor a file is not found, files above the size limit are too large, and other
/// files are probed.
pub fn preview_plan(is_dir: bool, is_file: bool, len: u64) -> (r: PreviewPlan)
    ensures
        r == (if is_dir {
            PreviewPlan::ListDirectory
        } else if !is_file {
            PreviewPlan::NotFound
        } else if len > MAX_FILE_SIZE_FOR_PREVIEW {
            PreviewPlan::LargeFile
        } else {
            PreviewPlan::ProbeContent
        }),
{
    if is_dir {
        PreviewPlan::ListDirectory
    } else if !is_file {
        PreviewPlan::NotFound
    } else if len > MAX_FILE_SIZE_FOR_PREVIEW {
        PreviewPlan::LargeFile
    } else {
        PreviewPlan::ProbeContent
    }
}

/// The plan after probing a file's first bytes.
pub fn preview_after_probe(is_binary: bool) -> (r: PreviewPlan)
    ensures
        r == (if is_binary {
            PreviewPlan::Binary
        } else {
            PreviewPlan::ReadDocument
        }),
{
    if is_binary {
        PreviewPlan::Binary
    } else {
        PreviewPlan::ReadDocument
    }
}

/// The label of a directory entry: its name, with a trailing `/` for a directory.
pub open spec fn entry_label(name: Seq<char>, is_dir: bool) -> Seq<char> {
    if is_dir {
        name + "/"@
    } else {
        name
    }
}

/// The labelled entries of a directory listing, skipping entries without a name.
pub open spec fn labelled_entries(entries: Seq<(Option<Seq<char>>, bool)>) -> Seq<(Seq<char>, bool)>
    decreases entries.len(),
{
    if entries.len() == 0 {
        Seq::empty()
    } else {
        let rest = labelled_entries(entries.drop_last());
        match entries.last().0 {
            Some(name) => rest.push((entry_label(name, entries.last().1), entries.last().1)),
            None => rest,
        }
    }
}

/// The view of a listing entry.
pub open spec fn entry_view(e: (Option<String>, bool)) -> (Option<Seq<char>>, bool) {
    (
        match e.0 {
            Some(s) => Some(s@),
            None => None,
        },
        e.1,
    )
}

/// A preview kept by the picker for a path; `D` stands for a loaded document.
#[derive(Debug, Clone, PartialEq, Eq)]
pub enum CachedPreview<D> {
    /// A document to show.
    Document(D),
    /// The labelled entries of a directory.
    Directory(Vec<(String, bool)>),
    /// A binary file, not shown.
    Binary,
    /// A file too large to show.
    LargeFile,
    /// Nothing could be loaded.
    NotFound,
    /// The preview is being loaded.
    Loading,
}

/// What loading a preview produced; `D` stands for a loaded document.
#[derive(Debug, Clone, PartialEq, Eq)]
pub enum LoadedPreview<D> {
    /// A document.
    Document(D),
    /// The labelled entries of a directory.
    Directory(Vec<(String, bool)>),
    /// A binary file.
    Binary,
    /// A file too large to show.
    LargeFile,
    /// Nothing could be loaded.
    NotFound,
}

/// The cached form of a loaded preview, and whether to request its highlighting: only a
/// document whose language was detected is highlighted.
pub open spec fn cached_from_loaded<D>(loaded: LoadedPreview<D>, language_detected: bool) -> (
    CachedPreview<D>,
    bool,
) {
    match loaded {
        LoadedPreview::Document(d) => (CachedPreview::Document(d), language_detected),
        LoadedPreview::Directory(e) => (CachedPreview::Directory(e), false),
        LoadedPreview::Binary => (CachedPreview::Binary, false),
        LoadedPreview::LargeFile => (CachedPreview::LargeFile, false),
        LoadedPreview::NotFound => (CachedPreview::NotFound, false),
    }
}

impl<D> LoadedPreview<D> {
    /// Turns a loaded preview into the cached one; `language_detected` tells whether a
    /// language was found for the loaded document, which is then to be highlighted.
    pub fn into_cached_preview(self, language_detected: bool) -> (r: (CachedPreview<D>, bool))
        ensures
            r == cached_from_loaded(self, language_detected),
    {
        match self {
            LoadedPreview::Document(d) => (CachedPreview::Document(d), language_detected),
            LoadedPreview::Directory(e) => (CachedPreview::Directory(e), false),
            LoadedPreview::Binary => (CachedPreview::Binary, false),
            LoadedPreview::LargeFile => (CachedPreview::LargeFile, false),
            LoadedPreview::NotFound => (CachedPreview::NotFound, false),
        }
    }
}

/// Stores a finished load in the cache entry of its path. Only an entry that is still
/// loading takes it; any other entry stays as it is. Returns whether to request the
/// highlighting of the stored preview.
pub fn store_loaded_preview<D>(
    entry: &mut CachedPreview<D>,
    loaded: LoadedPreview<D>,
    language_detected: bool,
) -> (r: bool)
    ensures
        *old(entry) is Loading ==> (*final(entry), r) == cached_from_loaded(
            loaded,
            language_detected,
        ),
        !(*old(entry) is Loading) ==> *final(entry) == *old(entry) && !r,
{
    let loading = matches!(entry, CachedPreview::Loading);
    if loading {
        let (preview, highlight) = loaded.into_cached_preview(language_detected);
        *entry = preview;
        highlight
    } else {
        false
    }
}

/// Whether the preview of a path is to be highlighted once the wait is over: it must still
/// be a cached document, without syntax yet and with a known language.
pub fn needs_highlight<D>(entry: Option<&CachedPreview<D>>, has_syntax: bool, has_language: bool) -> (r:
    bool)
    ensures
        r == (entry matches Some(CachedPreview::Document(_)) && !has_syntax && has_language),
{
    match entry {
        Some(CachedPreview::Document(_)) => !has_syntax && has_language,
        _ => false,
    }
}

/// Labels the entries of a directory listing for the preview: each entry is named relative
/// to the listed directory (or by its file name), directories get a trailing `/`, and
/// entries without a name are skipped.
pub fn directory_preview_content(entries: Vec<(Option<String>, bool)>) -> (r: Vec<(String, bool)>)
    ensures
        r@.map_values(|e: (String, bool)| (e.0@, e.1)) == labelled_entries(
            entries@.map_values(|e: (Option<String>, bool)| entry_view(e)),
        ),
{
    let ghost ev = entries@.map_values(|e: (Option<String>, bool)| entry_view(e));
    let mut out: Vec<(String, bool)> = Vec::new();
    let mut i: usize = 0;
    let n = entries.len();
    proof {
        assert(ev.subrange(0, 0) =~= Seq::<(Option<Seq<char>>, bool)>::empty());
        assert(out@.map_values(|e: (String, bool)| (e.0@, e.1)) =~= Seq::<(Seq<char>, bool)>::empty());
    }
    while i < n
        invariant
            n == entries@.len(),
            ev == entries@.map_values(|e: (Option<String>, bool)| entry_view(e)),
            i <= n,
            out@.map_values(|e: (String, bool)| (e.0@, e.1)) == labelled_entries(
                ev.subrange(0, i as int),
            ),
        decreases n - i,
    {
        let is_dir = entries[i].1;
        let ghost before = out@;
        match &entries[i].0 {
            Some(name) => {
                let mut label = name.clone();
                if is_dir {
                    label.append("/");
                }
                out.push((label, is_dir));
            },
            None => {},
        }
        proof {
            assert(ev.subrange(0, i + 1).drop_last() =~= ev.subrange(0, i as int));
            assert(ev[i as int] == entry_view(entries@[i as int]));
            assert(out@.map_values(|e: (String, bool)| (e.0@, e.1)) =~= labelled_entries(
                ev.subrange(0, i + 1),
            ));
        }
        i = i + 1;
    }
    proof {
        assert(ev.subrange(0, n as int) =~= ev);
    }
    out
}


/// Byte strings in lexicographic order: `a` comes strictly before `b`.
pub open spec fn bytes_lt(a: Seq<u8>, b: Seq<u8>) -> bool
    decreases a.len(),
{
    if a.len() == 0 {
        b.len() > 0
    } else if b.len() == 0 {
        false
    } else if a[0] != b[0] {
        a[0] < b[0]
    } else {
        bytes_lt(a.drop_first(), b.drop_first())
    }
}

/// Paths, as sequences of components, in lexicographic order of their components.
pub open spec fn path_lt(a: Seq<Seq<u8>>, b: Seq<Seq<u8>>) -> bool
    decreases a.len(),
{
    if a.len() == 0 {
        b.len() > 0
    } else if b.len() == 0 {
        false
    } else if a[0] != b[0] {
        bytes_lt(a[0], b[0])
    } else {
        path_lt(a.drop_first(), b.drop_first())
    }
}

/// `a` comes before `b` in lexicographic order: at the first place where they differ, the
/// element of `a` is smaller (`lt`), or `a` is a proper prefix of `b`.
pub open spec fn lexicographically_before<T>(a: Seq<T>, b: Seq<T>, lt: spec_fn(T, T) -> bool) -> bool {
    exists|i: int|
        0 <= i <= a.len() && i <= b.len() && #[trigger] a.take(i) == b.take(i) && (if i
            == a.len() {
            i < b.len()
        } else {
            i < b.len() && lt(a[i], b[i])
        })
}

/// Byte order of single bytes.
pub open spec fn byte_lt(x: u8, y: u8) -> bool {
    x < y
}

/// Byte strings are ordered lexicographically: `a` comes before `b` exactly when, at the
/// first byte where they differ, `a`'s byte is smaller, or `a` is a proper prefix of `b`;
/// their lengths alone decide nothing.
pub proof fn lemma_bytes_order_is_lexicographic(a: Seq<u8>, b: Seq<u8>)
    ensures
        bytes_lt(a, b) == lexicographically_before(a, b, |x: u8, y: u8| byte_lt(x, y)),
    decreases a.len(),
{
    let lt = |x: u8, y: u8| byte_lt(x, y);
    if a.len() == 0 {
        if b.len() > 0 {
            assert(a.take(0) =~= b.take(0));
        }
    } else if b.len() == 0 {
    } else if a[0] != b[0] {
        if a[0] < b[0] {
            assert(a.take(0) =~= b.take(0));
        }
        assert forall|i: int|
            0 <= i <= a.len() && i <= b.len() && #[trigger] a.take(i) == b.take(i) implies i == 0 by {
            if i > 0 {
                assert(a.take(i)[0] == b.take(i)[0]);
            }
        }
    } else {
        lemma_bytes_order_is_lexicographic(a.drop_first(), b.drop_first());
        let (a1, b1) = (a.drop_first(), b.drop_first());
        if bytes_lt(a1, b1) {
            let i = choose|i: int|
                0 <= i <= a1.len() && i <= b1.len() && #[trigger] a1.take(i) == b1.take(i) && (if i
                    == a1.len() {
                    i < b1.len()
                } else {
                    i < b1.len() && lt(a1[i], b1[i])
                });
            assert(a.take(i + 1) =~= seq![a[0]] + a1.take(i));
            assert(b.take(i + 1) =~= seq![b[0]] + b1.take(i));
        }
        if lexicographically_before(a, b, lt) {
            let i = choose|i: int|
                0 <= i <= a.len() && i <= b.len() && #[trigger] a.take(i) == b.take(i) && (if i
                    == a.len() {
                    i < b.len()
                } else {
                    i < b.len() && lt(a[i], b[i])
                });
            if i == 0 {
                assert(!lt(a[0], b[0]));
            } else {
                assert(a1.take(i - 1) =~= a.take(i).drop_first());
                assert(b1.take(i - 1) =~= b.take(i).drop_first());
            }
        }
    }
}

/// Paths are ordered component by component: `a` comes before `b` exactly when, at the
/// first component where they differ, `a`'s component comes first in byte order, or `a`'s
/// components are a proper prefix of `b`'s.
pub proof fn lemma_path_order_is_lexicographic(a: Seq<Seq<u8>>, b: Seq<Seq<u8>>)
    ensures
        path_lt(a, b) == lexicographically_before(a, b, |x: Seq<u8>, y: Seq<u8>| bytes_lt(x, y)),
    decreases a.len(),
{
    let lt = |x: Seq<u8>, y: Seq<u8>| bytes_lt(x, y);
    if a.len() == 0 {
        if b.len() > 0 {
            assert(a.take(0) =~= b.take(0));
        }
    } else if b.len() == 0 {
    } else if a[0] != b[0] {
        if bytes_lt(a[0], b[0]) {
            assert(a.take(0) =~= b.take(0));
        }
        assert forall|i: int|
            0 <= i <= a.len() && i <= b.len() && #[trigger] a.take(i) == b.take(i) implies i == 0 by {
            if i > 0 {
                assert(a.take(i)[0] == b.take(i)[0]);
            }
        }
    } else {
        lemma_path_order_is_lexicographic(a.drop_first(), b.drop_first());
        let (a1, b1) = (a.drop_first(), b.drop_first());
        lemma_bytes_lt_irreflexive(a[0]);
        if path_lt(a1, b1) {
            let i = choose|i: int|
                0 <= i <= a1.len() && i <= b1.len() && #[trigger] a1.take(i) == b1.take(i) && (if i
                    == a1.len() {
                    i < b1.len()
                } else {
                    i < b1.len() && lt(a1[i], b1[i])
                });
            assert(a.take(i + 1) =~= seq![a[0]] + a1.take(i));
            assert(b.take(i + 1) =~= seq![b[0]] + b1.take(i));
        }
        if lexicographically_before(a, b, lt) {
            let i = choose|i: int|
                0 <= i <= a.len() && i <= b.len() && #[trigger] a.take(i) == b.take(i) && (if i
                    == a.len() {
                    i < b.len()
                } else {
                    i < b.len() && lt(a[i], b[i])
                });
            if i == 0 {
                assert(!lt(a[0], b[0]));
            } else {
                assert(a1.take(i - 1) =~= a.take(i).drop_first());
                assert(b1.take(i - 1) =~= b.take(i).drop_first());
            }
        }
    }
}

/// The listing order: directories before files, then by path.
pub open spec fn entry_lt(a: (Seq<Seq<u8>>, bool), b: (Seq<Seq<u8>>, bool)) -> bool {
    if a.1 != b.1 {
        a.1
    } else {
        path_lt(a.0, b.0)
    }
}

proof fn lemma_bytes_lt_transitive(a: Seq<u8>, b: Seq<u8>, c: Seq<u8>)
    requires
        bytes_lt(a, b),
        bytes_lt(b, c),
    ensures
        bytes_lt(a, c),
    decreases a.len(),
{
    if a.len() > 0 && b.len() > 0 && c.len() > 0 && a[0] == b[0] && b[0] == c[0] {
        lemma_bytes_lt_transitive(a.drop_first(), b.drop_first(), c.drop_first());
    }
}

proof fn lemma_bytes_lt_irreflexive(a: Seq<u8>)
    ensures
        !bytes_lt(a, a),
    decreases a.len(),
{
    if a.len() > 0 {
        lemma_bytes_lt_irreflexive(a.drop_first());
    }
}

proof fn lemma_path_lt_transitive(a: Seq<Seq<u8>>, b: Seq<Seq<u8>>, c: Seq<Seq<u8>>)
    requires
        path_lt(a, b),
        path_lt(b, c),
    ensures
        path_lt(a, c),
    decreases a.len(),
{
    if a.len() > 0 && b.len() > 0 && c.len() > 0 {
        if a[0] == b[0] && b[0] == c[0] {
            lemma_path_lt_transitive(a.drop_first(), b.drop_first(), c.drop_first());
        } else if a[0] != b[0] && b[0] != c[0] {
            lemma_bytes_lt_transitive(a[0], b[0], c[0]);
            if a[0] == c[0] {
                lemma_bytes_lt_irreflexive(a[0]);
            }
        }
    }
}

proof fn lemma_entry_lt_transitive(
    a: (Seq<Seq<u8>>, bool),
    b: (Seq<Seq<u8>>, bool),
    c: (Seq<Seq<u8>>, bool),
)
    requires
        entry_lt(a, b),
        entry_lt(b, c),
    ensures
        entry_lt(a, c),
{
    if a.1 == b.1 && b.1 == c.1 {
        lemma_path_lt_transitive(a.0, b.0, c.0);
    }
}

/// Whether `a` comes before `b` in byte order.
fn bytes_less(a: &Vec<u8>, b: &Vec<u8>) -> (r: bool)
    ensures
        r == bytes_lt(a@, b@),
{
    let mut i: usize = 0;
    proof {
        assert(a@.skip(0) =~= a@);
        assert(b@.skip(0) =~= b@);
    }
    while i < a.len() && i < b.len()
        invariant
            i <= a@.len() && i <= b@.len(),
            bytes_lt(a@, b@) == bytes_lt(a@.skip(i as int), b@.skip(i as int)),
        decreases a@.len() - i,
    {
        proof {
            assert(a@.skip(i as int).drop_first() =~= a@.skip(i + 1));
            assert(b@.skip(i as int).drop_first() =~= b@.skip(i + 1));
        }
        if a[i] != b[i] {
            return a[i] < b[i];
        }
        i = i + 1;
    }
    i < b.len()
}

/// Whether path `a` comes before path `b`, comparing components in order.
fn path_less(a: &Vec<Vec<u8>>, b: &Vec<Vec<u8>>) -> (r: bool)
    ensures
        r == path_lt(a@.map_values(|c: Vec<u8>| c@), b@.map_values(|c: Vec<u8>| c@)),
{
    let ghost av = a@.map_values(|c: Vec<u8>| c@);
    let ghost bv = b@.map_values(|c: Vec<u8>| c@);
    let mut i: usize = 0;
    proof {
        assert(av.skip(0) =~= av);
        assert(bv.skip(0) =~= bv);
    }
    while i < a.len() && i < b.len()
        invariant
            av == a@.map_values(|c: Vec<u8>| c@),
            bv == b@.map_values(|c: Vec<u8>| c@),
            i <= a@.len() && i <= b@.len(),
            path_lt(av, bv) == path_lt(av.skip(i as int), bv.skip(i as int)),
        decreases a@.len() - i,
    {
        proof {
            assert(av.skip(i as int).drop_first() =~= av.skip(i + 1));
            assert(bv.skip(i as int).drop_first() =~= bv.skip(i + 1));
            assert(av.skip(i as int)[0] == a@[i as int]@);
            assert(bv.skip(i as int)[0] == b@[i as int]@);
        }
        let lt = bytes_less(&a[i], &b[i]);
        let gt = bytes_less(&b[i], &a[i]);
        if lt || gt {
            proof {
                if a@[i as int]@ == b@[i as int]@ {
                    lemma_bytes_lt_irreflexive(a@[i as int]@);
                }
            }
            return lt;
        }
        proof {
            if a@[i as int]@ != b@[i as int]@ {
                lemma_bytes_lt_total(a@[i as int]@, b@[i as int]@);
            }
        }
        i = i + 1;
    }
    proof {
        assert(av.skip(i as int).len() == av.len() - i);
    }
    i < b.len()
}

proof fn lemma_bytes_lt_total(a: Seq<u8>, b: Seq<u8>)
    requires
        a != b,
    ensures
        bytes_lt(a, b) || bytes_lt(b, a),
    decreases a.len(),
{
    if a.len() > 0 && b.len() > 0 && a[0] == b[0] {
        if a.drop_first() == b.drop_first() {
            assert(a =~= seq![a[0]] + a.drop_first());
            assert(b =~= seq![b[0]] + b.drop_first());
        }
        lemma_bytes_lt_total(a.drop_first(), b.drop_first());
    } else if a.len() == 0 && b.len() == 0 {
        assert(a =~= b);
    }
}

/// The view of a listing entry with its path's components.
pub open spec fn keyed_view<P>(e: (P, Vec<Vec<u8>>, bool)) -> (Seq<Seq<u8>>, bool) {
    (e.1@.map_values(|c: Vec<u8>| c@), e.2)
}

/// `r`, from index `off` on, lists the path and kind of each entry of `sorted`, in order.
pub open spec fn listing_matches<P>(
    r: Seq<(P, bool)>,
    off: int,
    sorted: Seq<(P, Vec<Vec<u8>>, bool)>,
) -> bool {
    forall|i: int| 0 <= i < sorted.len() ==> #[trigger] r[i + off] == (sorted[i].0, sorted[i].2)
}

/// Entries in listing order: no entry comes strictly before an earlier one.
pub open spec fn listing_sorted<P>(s: Seq<(P, Vec<Vec<u8>>, bool)>) -> bool {
    forall|i: int, j: int| 0 <= i < j < s.len() ==> !entry_lt(keyed_view(s[j]), keyed_view(s[i]))
}

/// The entries of a listing other than those whose path is `root`, in order.
pub open spec fn without_root<P>(entries: Seq<(P, Vec<Vec<u8>>, bool)>, root: Seq<Seq<u8>>) -> Seq<
    (P, Vec<Vec<u8>>, bool),
>
    decreases entries.len(),
{
    if entries.len() == 0 {
        Seq::empty()
    } else {
        let rest = without_root(entries.drop_last(), root);
        if keyed_view(entries.last()).0 == root {
            rest
        } else {
            rest.push(entries.last())
        }
    }
}

/// The view of a path's components.
pub open spec fn components_view(path: Vec<Vec<u8>>) -> Seq<Seq<u8>> {
    path@.map_values(|c: Vec<u8>| c@)
}

/// Whether two byte strings are equal.
fn bytes_equal(a: &Vec<u8>, b: &Vec<u8>) -> (r: bool)
    ensures
        r == (a@ == b@),
{
    if a.len() != b.len() {
        return false;
    }
    let mut i: usize = 0;
    while i < a.len()
        invariant
            a@.len() == b@.len(),
            i <= a@.len(),
            forall|j: int| 0 <= j < i ==> a@[j] == b@[j],
        decreases a@.len() - i,
    {
        if a[i] != b[i] {
            return false;
        }
        i = i + 1;
    }
    assert(a@ =~= b@);
    true
}

/// Whether two paths have the same components.
fn path_equal(a: &Vec<Vec<u8>>, b: &Vec<Vec<u8>>) -> (r: bool)
    ensures
        r == (components_view(*a) == components_view(*b)),
{
    if a.len() != b.len() {
        proof {
            assert(components_view(*a).len() != components_view(*b).len());
        }
        return false;
    }
    let mut i: usize = 0;
    while i < a.len()
        invariant
            a@.len() == b@.len(),
            i <= a@.len(),
            forall|j: int| 0 <= j < i ==> a@[j]@ == b@[j]@,
        decreases a@.len() - i,
    {
        if !bytes_equal(&a[i], &b[i]) {
            proof {
                assert(components_view(*a)[i as int] != components_view(*b)[i as int]);
            }
            return false;
        }
        i = i + 1;
    }
    assert(components_view(*a) =~= components_view(*b));
    true
}

/// Orders directory entries for the preview, leaving out the listed directory itself (the
/// entries whose path is `root`): directories first, then by path, compared
/// component by component; when the listed directory has a parent, an entry for it comes
/// first.
pub fn order_directory_entries<P>(
    entries: Vec<(P, Vec<Vec<u8>>, bool)>,
    root: &Vec<Vec<u8>>,
    parent: Option<P>,
) -> (r: Vec<(P, bool)>)
    ensures
        ({
            let kept = without_root(entries@, components_view(*root));
            let n = kept.len();
            let off = if parent is Some { 1int } else { 0int };
            &&& r@.len() == n + off
            &&& parent matches Some(p) ==> r@[0] == (p, true)
            &&& exists|sorted: Seq<(P, Vec<Vec<u8>>, bool)>|
                #![trigger sorted.to_multiset()]
                {
                    &&& sorted.to_multiset() == kept.to_multiset()
                    &&& listing_sorted(sorted)
                    &&& listing_matches(r@, off, sorted)
                }
        }),
{
    let ghost rv = components_view(*root);
    let ghost all = entries@;
    let ghost target = without_root(all, rv);
    let mut kept: Vec<(P, Vec<Vec<u8>>, bool)> = Vec::new();
    let mut rest = entries;
    proof {
        kept@.to_multiset_ensures();
        assert(kept@.to_multiset().add(without_root(rest@, rv).to_multiset()) =~= target.to_multiset());
    }
    while rest.len() > 0
        invariant
            rv == components_view(*root),
            all == entries@,
            target == without_root(all, rv),
            kept@.to_multiset().add(without_root(rest@, rv).to_multiset()) == target.to_multiset(),
        decreases rest@.len(),
    {
        let ghost before = rest@;
        let e = rest.pop().unwrap();
        proof {
            assert(before.drop_last() =~= rest@);
            assert(keyed_view(e).0 == components_view(e.1));
            kept@.to_multiset_ensures();
            without_root(rest@, rv).to_multiset_ensures();
        }
        if !path_equal(&e.1, root) {
            kept.push(e);
            proof {
                kept@.to_multiset_ensures();
                assert(kept@.to_multiset().add(without_root(rest@, rv).to_multiset()) =~= target.to_multiset());
            }
        }
    }
    proof {
        assert(without_root(rest@, rv) =~= Seq::<(P, Vec<Vec<u8>>, bool)>::empty());
        assert(kept@.to_multiset() =~= target.to_multiset());
    }
    sort_listing(kept, parent, Ghost(target))
}

fn sort_listing<P>(
    entries: Vec<(P, Vec<Vec<u8>>, bool)>,
    parent: Option<P>,
    Ghost(target): Ghost<Seq<(P, Vec<Vec<u8>>, bool)>>,
) -> (r: Vec<(P, bool)>)
    requires
        entries@.to_multiset() == target.to_multiset(),
    ensures
        ({
            let n = target.len();
            let off = if parent is Some { 1int } else { 0int };
            &&& r@.len() == n + off
            &&& parent matches Some(p) ==> r@[0] == (p, true)
            &&& exists|sorted: Seq<(P, Vec<Vec<u8>>, bool)>|
                #![trigger sorted.to_multiset()]
                {
                    &&& sorted.to_multiset() == target.to_multiset()
                    &&& listing_sorted(sorted)
                    &&& listing_matches(r@, off, sorted)
                }
        }),
{
    let ghost original = entries@;
    let mut sorted: Vec<(P, Vec<Vec<u8>>, bool)> = Vec::new();
    let mut rest = entries;
    proof {
        original.to_multiset_ensures();
        sorted@.to_multiset_ensures();
        assert(sorted@.to_multiset().add(rest@.to_multiset()) =~= original.to_multiset());
    }
    while rest.len() > 0
        invariant
            listing_sorted(sorted@),
            sorted@.to_multiset().add(rest@.to_multiset()) == original.to_multiset(),
        decreases rest@.len(),
    {
        let ghost before_rest = rest@;
        let ghost s0 = sorted@;
        let x = rest.pop().unwrap();
        let ghost kx = keyed_view(x);
        proof {
            assert(before_rest =~= rest@.push(x));
            rest@.to_multiset_ensures();
        }
        let mut p: usize = 0;
        while p < sorted.len()
            invariant
                sorted@ == s0,
                kx == keyed_view(x),
                p <= s0.len(),
                forall|i: int| 0 <= i < p ==> !entry_lt(kx, keyed_view(#[trigger] s0[i])),
            ensures
                p <= s0.len(),
                forall|i: int| 0 <= i < p ==> !entry_lt(kx, keyed_view(#[trigger] s0[i])),
                p < s0.len() ==> entry_lt(kx, keyed_view(s0[p as int])),
            decreases s0.len() - p,
        {
            let less = path_less(&x.1, &sorted[p].1);
            let before = (x.2 && !sorted[p].2) || (x.2 == sorted[p].2 && less);
            proof {
                assert(keyed_view(sorted@[p as int]).0 == sorted@[p as int].1@.map_values(
                    |c: Vec<u8>| c@,
                ));
            }
            if before {
                break;
            }
            p = p + 1;
        }
        sorted.insert(p, x);
        proof {
            assert(sorted@ == s0.insert(p as int, x));
            vstd::seq_lib::to_multiset_insert(s0, p as int, x);
            assert(sorted@.to_multiset().add(rest@.to_multiset()) =~= original.to_multiset());
            assert forall|i: int, j: int|
                0 <= i < j < sorted@.len() implies !entry_lt(
                keyed_view(sorted@[j]),
                keyed_view(sorted@[i]),
            ) by {
                if j < p {
                    assert(sorted@[i] == s0[i] && sorted@[j] == s0[j]);
                } else if j == p {
                    assert(sorted@[i] == s0[i]);
                } else if i > p {
                    assert(sorted@[i] == s0[i - 1] && sorted@[j] == s0[j - 1]);
                } else if i < p {
                    assert(sorted@[i] == s0[i] && sorted@[j] == s0[j - 1]);
                } else {
                    assert(sorted@[j] == s0[j - 1]);
                    if entry_lt(keyed_view(s0[j - 1]), kx) {
                        lemma_entry_lt_transitive(keyed_view(s0[j - 1]), kx, keyed_view(s0[p as int]));
                        if j - 1 == p {
                            lemma_entry_lt_irreflexive(keyed_view(s0[p as int]));
                        }
                    }
                }
            }
        }
    }
    proof {
        rest@.to_multiset_ensures();
        assert(sorted@.to_multiset().add(rest@.to_multiset()) =~= sorted@.to_multiset());
    }
    let ghost final_sorted = sorted@;
    let ghost off = if parent is Some { 1int } else { 0int };
    let ghost gp = parent;
    let mut out: Vec<(P, bool)> = Vec::new();
    match parent {
        Some(par) => out.push((par, true)),
        None => {},
    }
    let n = sorted.len();
    let mut k: usize = 0;
    while k < n
        invariant
            n == final_sorted.len(),
            k <= n,
            sorted@ == final_sorted.skip(k as int),
            off == (if gp is Some { 1int } else { 0int }),
            out@.len() == k + off,
            gp matches Some(p) ==> out@[0] == (p, true),
            forall|i: int|
                0 <= i < k ==> #[trigger] out@[i + off] == (final_sorted[i].0, final_sorted[i].2),
        decreases n - k,
    {
        let e = sorted.remove(0);
        proof {
            assert(e == final_sorted[k as int]);
            assert(sorted@ =~= final_sorted.skip(k + 1));
        }
        out.push((e.0, e.2));
        k = k + 1;
    }
    proof {
        assert(final_sorted.to_multiset() == original.to_multiset());
        assert(original.to_multiset() == target.to_multiset());
        final_sorted.to_multiset_ensures();
        original.to_multiset_ensures();
        target.to_multiset_ensures();
        assert(final_sorted.len() == original.len());
        assert(n == target.len());
        assert(listing_sorted(final_sorted));
        assert(forall|i: int|
            0 <= i < n ==> #[trigger] out@[i + off] == (final_sorted[i].0, final_sorted[i].2));
    }
    out
}

proof fn lemma_path_lt_irreflexive(a: Seq<Seq<u8>>)
    ensures
        !path_lt(a, a),
    decreases a.len(),
{
    if a.len() > 0 {
        lemma_path_lt_irreflexive(a.drop_first());
    }
}

proof fn lemma_entry_lt_irreflexive(a: (Seq<Seq<u8>>, bool))
    ensures
        !entry_lt(a, a),
{
    lemma_path_lt_irreflexive(a.0);
}

/// Debounces the syntax highlighting of previews: a new path restarts the wait, the same
/// path keeps the running one.
pub struct HighlightDebounce {
    trigger: Option<String>,
}

impl HighlightDebounce {
    /// The path waiting to be highlighted, if any.
    pub closed spec fn trigger_view(&self) -> Option<Seq<char>> {
        match self.trigger {
            Some(p) => Some(p@),
            None => None,
        }
    }

    /// Nothing waits.
    pub fn new() -> (r: HighlightDebounce)
        ensures
            r.trigger_view() is None,
    {
        HighlightDebounce { trigger: None }
    }

    /// Handles a request to highlight `path`. Returns the deadline to wait for: the running
    /// one when `path` is the one already waiting, else `restart_at`, with `path` now waiting.
    pub fn handle_event<T>(&mut self, path: String, timeout: Option<T>, restart_at: T) -> (r:
        Option<T>)
        ensures
            old(self).trigger_view() == Some(path@) ==> r == timeout && final(self).trigger_view()
                == old(self).trigger_view(),
            old(self).trigger_view() != Some(path@) ==> r == Some(restart_at)
                && final(self).trigger_view() == Some(path@),
    {
        let same = match &self.trigger {
            Some(t) => crate::text::str_eq(t.as_str(), path.as_str()),
            None => false,
        };
        if same {
            timeout
        } else {
            self.trigger = Some(path);
            Some(restart_at)
        }
    }

    /// Takes the path to highlight once the wait is over.
    pub fn finish_debounce(&mut self) -> (r: Option<String>)
        ensures
            match r {
                Some(p) => old(self).trigger_view() == Some(p@),
                None => old(self).trigger_view() is None,
            },
            final(self).trigger_view() is None,
    {
        let mut t = None;
        std::mem::swap(&mut t, &mut self.trigger);
        t
    }
}

/// What to do after the query of a dynamic picker changed.
#[derive(Debug, Clone, PartialEq, Eq)]
pub enum QueryAction {
    /// Nothing to request: the query is back to the one last requested.
    Idle,
    /// Request this query now; it is now the last requested one.
    Run(String),
    /// Request the query after waiting this many milliseconds.
    WaitMillis(u64),
}

/// Debounces the requests of a dynamic picker.
pub struct DynamicQueryHandler {
    debounce_ms: u64,
    last_query: String,
    query: Option<String>,
}

impl DynamicQueryHandler {
    /// The debounce, in milliseconds.
    pub closed spec fn debounce_view(&self) -> u64 {
        self.debounce_ms
    }

    /// The query that was last requested.
    pub closed spec fn last_query_view(&self) -> Seq<char> {
        self.last_query@
    }

    /// The query waiting to be requested, if any.
    pub closed spec fn pending_view(&self) -> Option<Seq<char>> {
        match self.query {
            Some(q) => Some(q@),
            None => None,
        }
    }

    /// A handler with the given debounce, 100 milliseconds when none is given; the last
    /// requested query is the empty one.
    pub fn new(duration_ms: Option<u64>) -> (r: DynamicQueryHandler)
        ensures
            r.debounce_view() == (match duration_ms {
                Some(d) => d,
                None => DEFAULT_QUERY_DEBOUNCE_MS,
            }),
            r.last_query_view() == Seq::<char>::empty(),
            r.pending_view() is None,
    {
        let debounce_ms = match duration_ms {
            Some(d) => d,
            None => DEFAULT_QUERY_DEBOUNCE_MS,
        };
        DynamicQueryHandler { debounce_ms, last_query: String::new(), query: None }
    }

    /// Handles a change of the query: going back to the last requested query cancels the
    /// pending one; a pasted query is requested at once and becomes the last requested one; a
    /// typed one waits the debounce.
    pub fn handle_event(&mut self, query: String, is_paste: bool) -> (r: QueryAction)
        ensures
            final(self).debounce_view() == old(self).debounce_view(),
            query@ == old(self).last_query_view() ==> r is Idle
                && final(self).pending_view() is None
                && final(self).last_query_view() == old(self).last_query_view(),
            query@ != old(self).last_query_view() && is_paste ==> (r matches QueryAction::Run(q)
                && q@ == query@) && final(self).pending_view() is None
                && final(self).last_query_view() == query@,
            query@ != old(self).last_query_view() && !is_paste ==> r == QueryAction::WaitMillis(
                old(self).debounce_view(),
            ) && final(self).pending_view() == Some(query@)
                && final(self).last_query_view() == old(self).last_query_view(),
    {
        if query == self.last_query {
            self.query = None;
            QueryAction::Idle
        } else {
            self.query = Some(query);
            if is_paste {
                match self.finish_debounce() {
                    Some(q) => QueryAction::Run(q),
                    None => QueryAction::Idle,
                }
            } else {
                QueryAction::WaitMillis(self.debounce_ms)
            }
        }
    }

    /// Takes the pending query to request, which becomes the last requested one.
    pub fn finish_debounce(&mut self) -> (r: Option<String>)
        ensures
            final(self).debounce_view() == old(self).debounce_view(),
            final(self).pending_view() is None,
            match r {
                Some(q) => old(self).pending_view() == Some(q@) && final(self).last_query_view()
                    == q@,
                None => old(self).pending_view() is None && final(self).last_query_view() == old(self).last_query_view(),
            },
    {
        let mut q = None;
        std::mem::swap(&mut q, &mut self.query);
        match q {
            Some(query) => {
                self.last_query = query.clone();
                Some(query)
            },
            None => None,
        }
    }
}

} // verus!
