use vstd::prelude::*;

use crate::logic::LogicError;
use crate::pathmap::{str_eq, PathMap};
use crate::render::DiffRenderFragment;
use sha2::Digest;

verus! {

#[derive(Clone, Debug)]
pub struct ModifiedExtension {
    pub id: String,
    pub repository: String,
    pub old_commit: Option<String>,
    pub new_commit: String,
}

#[derive(Clone, Debug)]
pub struct PullRequestUpdate {
    pub extensions: Vec<ModifiedExtension>,
    pub artifact_url: String,
}

#[derive(Clone, Debug)]
pub struct DiffedExtension {
    pub id: String,
    pub source_diff: FolderDiff,
    pub asar_diff: FolderDiff,
}

/// How a file differs between the old and the new snapshot of a directory.
#[derive(Clone, Copy, Debug, PartialEq, Eq, Structural)]
pub enum FileState {
    Modified,
    Added,
    Removed,
}

pub type Directory = Vec<FilesystemItem>;

/// One entry of the nested presentation tree.
#[derive(Debug)]
pub enum FilesystemItem {
    File { name: String, state: FileState },
    /// `name` is `None` only for a synthetic root.
    Directory { name: Option<String>, children: Directory },
}

impl Clone for FilesystemItem {
    /// A copy of the whole subtree.
    fn clone(&self) -> (r: Self)
        decreases self,
    {
        match self {
            FilesystemItem::File { name, state } => FilesystemItem::File {
                name: name.clone(),
                state: *state,
            },
            FilesystemItem::Directory { name, children } => {
                let mut copy: Vec<FilesystemItem> = Vec::new();
                let mut i: usize = 0;
                while i < children.len()
                    invariant
                        i <= children@.len(),
                        *self == (FilesystemItem::Directory { name: *name, children: *children }),
                    decreases children@.len() - i,
                {
                    proof {
                        assert(decreases_to!(*children => children[i as int]));
                        assert((*self)->Directory_children == *children);
                        assert(decreases_to!(*self => (*self)->Directory_children));
                        assert(decreases_to!(*self => children[i as int]));
                    }
                    copy.push(children[i].clone());
                    i = i + 1;
                }
                FilesystemItem::Directory { name: name.clone(), children: copy }
            },
        }
    }
}

/// The classified change-set between two directory roots.
#[derive(Clone, Debug)]
pub struct FolderDiff {
    pub old: String,
    pub new: String,
    pub dir: Directory,
}

/// The render instructions for both sides of one changed file.
#[derive(Clone, Debug)]
pub struct FileDiff {
    pub old: Vec<DiffRenderFragment>,
    pub new: Vec<DiffRenderFragment>,
}

// ----- paths -----
/// `i` is the position of the first `/` in `s`.
pub open spec fn is_first_slash(s: Seq<char>, i: int) -> bool {
    &&& 0 <= i < s.len()
    &&& s[i] == '/'
    &&& forall|j: int| 0 <= j < i ==> s[j] != '/'
}

pub open spec fn has_slash(s: Seq<char>) -> bool {
    exists|i: int| is_first_slash(s, i)
}

pub open spec fn first_slash(s: Seq<char>) -> int {
    choose|i: int| is_first_slash(s, i)
}

/// The part of `s` before its first `/`.
pub open spec fn head_segment(s: Seq<char>) -> Seq<char> {
    s.subrange(0, first_slash(s))
}

/// The part of `s` after its first `/`.
pub open spec fn tail_segment(s: Seq<char>) -> Seq<char> {
    s.subrange(first_slash(s) + 1, s.len() as int)
}

/// `a/b`.
pub open spec fn join(a: Seq<char>, b: Seq<char>) -> Seq<char> {
    a + seq!['/'] + b
}

/// The full path of `rel` below an optional prefix directory.
pub open spec fn full_path(prefix: Option<Seq<char>>, rel: Seq<char>) -> Seq<char> {
    match prefix {
        Some(p) => join(p, rel),
        None => rel,
    }
}

pub open spec fn opt_view(o: Option<String>) -> Option<Seq<char>> {
    match o {
        Some(s) => Some(s@),
        None => None,
    }
}

pub proof fn lemma_first_slash(s: Seq<char>, i: int)
    requires
        is_first_slash(s, i),
    ensures
        has_slash(s),
        first_slash(s) == i,
        s == join(head_segment(s), tail_segment(s)),
        tail_segment(s).len() < s.len(),
{
    let j = first_slash(s);
    assert(is_first_slash(s, j));
    if j < i {
        assert(s[j] != '/');
    }
    if i < j {
        assert(s[i] != '/');
    }
    assert(s =~= join(head_segment(s), tail_segment(s)));
}

proof fn lemma_full_nested(prefix: Option<Seq<char>>, seg: Seq<char>, r: Seq<char>)
    ensures
        full_path(Some(full_path(prefix, seg)), r) == full_path(prefix, join(seg, r)),
{
    match prefix {
        Some(p) => {
            assert(join(join(p, seg), r) =~= join(p, join(seg, r)));
        },
        None => {},
    }
}

// ----- the presentation tree -----
/// Some item of `items` holds a file at relative path `path` (relative to the level that
/// `items` lists) with state `st`.
pub open spec fn dir_holds(items: Seq<FilesystemItem>, path: Seq<char>, st: FileState) -> bool
    decreases path.len(), items.len(),
{
    if items.len() == 0 {
        false
    } else {
        let here = match items.last() {
            FilesystemItem::File { name, state } => !has_slash(path) && name@ == path && state
                == st,
            FilesystemItem::Directory { name, children } => {
                &&& has_slash(path)
                &&& name matches Some(n)
                &&& n@ == head_segment(path)
                &&& tail_segment(path).len() < path.len()
                &&& dir_holds(children@, tail_segment(path), st)
            },
        };
        here || dir_holds(items.drop_last(), path, st)
    }
}

/// `item` holds a file at relative path `path` with state `st`.
pub open spec fn item_holds(item: FilesystemItem, path: Seq<char>, st: FileState) -> bool {
    dir_holds(seq![item], path, st)
}

pub proof fn lemma_dir_holds_exists(items: Seq<FilesystemItem>, path: Seq<char>, st: FileState)
    ensures
        dir_holds(items, path, st) <==> exists|i: int|
            0 <= i < items.len() && #[trigger] item_holds(items[i], path, st),
    decreases items.len(),
{
    if items.len() > 0 {
        let x = items.last();
        let rest = items.drop_last();
        lemma_dir_holds_exists(rest, path, st);
        assert(seq![x].last() == x);
        assert(seq![x].drop_last() =~= Seq::<FilesystemItem>::empty());
        assert(!dir_holds(Seq::<FilesystemItem>::empty(), path, st));
        if dir_holds(rest, path, st) {
            let i = choose|i: int| 0 <= i < rest.len() && #[trigger] item_holds(rest[i], path, st);
            assert(items[i] == rest[i]);
        }
        if item_holds(x, path, st) {
            assert(items[items.len() - 1] == x);
        }
        if exists|i: int| 0 <= i < items.len() && #[trigger] item_holds(items[i], path, st) {
            let i = choose|i: int| 0 <= i < items.len() && #[trigger] item_holds(items[i], path, st);
            if i < items.len() - 1 {
                assert(items[i] == rest[i]);
            }
        }
    }
}

/// `items` shows exactly the entries of `m` that lie below `prefix`, each at its path
/// relative to `prefix`.
pub open spec fn shows_exactly(
    items: Seq<FilesystemItem>,
    m: Map<Seq<char>, FileState>,
    prefix: Option<Seq<char>>,
) -> bool {
    forall|rel: Seq<char>, st: FileState|
        #[trigger] dir_holds(items, rel, st) <==> (m.contains_key(full_path(prefix, rel)) && m[full_path(
            prefix,
            rel,
        )] == st)
}

/// Two siblings that may not stand in one directory level together: two files of one
/// name, or two directories of one name.
pub open spec fn name_clash(a: FilesystemItem, b: FilesystemItem) -> bool {
    match (a, b) {
        (FilesystemItem::File { name: x, .. }, FilesystemItem::File { name: y, .. }) => x@ == y@,
        (
            FilesystemItem::Directory { name: x, .. },
            FilesystemItem::Directory { name: y, .. },
        ) => opt_view(x) == opt_view(y),
        _ => false,
    }
}

/// One directory level is well formed: its directories come before its files, and no two
/// of its items clash by name.
pub open spec fn level_ok(items: Seq<FilesystemItem>) -> bool {
    &&& forall|i: int, j: int|
        0 <= i < j < items.len() && (#[trigger] items[j]) is Directory ==> (#[trigger] items[i]) is Directory
    &&& forall|i: int, j: int|
        0 <= i < j < items.len() ==> !name_clash(#[trigger] items[i], #[trigger] items[j])
}

proof fn lemma_full_path_injective(prefix: Option<Seq<char>>, a: Seq<char>, b: Seq<char>)
    requires
        full_path(prefix, a) == full_path(prefix, b),
    ensures
        a == b,
{
    match prefix {
        Some(p) => {
            let n = p.len() as int + 1;
            assert(a =~= join(p, a).subrange(n, join(p, a).len() as int));
            assert(b =~= join(p, b).subrange(n, join(p, b).len() as int));
        },
        None => {},
    }
}

/// `m` holds no path below `prefix`.
pub open spec fn nothing_below(m: Map<Seq<char>, FileState>, prefix: Option<Seq<char>>) -> bool {
    forall|rel: Seq<char>| !#[trigger] m.contains_key(full_path(prefix, rel))
}

proof fn lemma_dir_holds_push(s: Seq<FilesystemItem>, x: FilesystemItem)
    ensures
        forall|rel: Seq<char>, st: FileState|
            #[trigger] dir_holds(s.push(x), rel, st) <==> dir_holds(s, rel, st) || item_holds(
                x,
                rel,
                st,
            ),
{
    assert forall|rel: Seq<char>, st: FileState|
        #[trigger] dir_holds(s.push(x), rel, st) <==> dir_holds(s, rel, st) || item_holds(
            x,
            rel,
            st,
        ) by {
        assert(s.push(x).drop_last() =~= s);
        assert(seq![x].drop_last() =~= Seq::<FilesystemItem>::empty());
        assert(!dir_holds(Seq::<FilesystemItem>::empty(), rel, st));
    }
}

/// Length of the longest key.
pub open spec fn max_key_len(keys: Seq<Seq<char>>) -> nat
    decreases keys.len(),
{
    if keys.len() == 0 {
        0
    } else {
        let m = max_key_len(keys.drop_last());
        if keys.last().len() > m {
            keys.last().len()
        } else {
            m
        }
    }
}

proof fn lemma_max_key_len(keys: Seq<Seq<char>>, i: int)
    requires
        0 <= i < keys.len(),
    ensures
        keys[i].len() <= max_key_len(keys),
    decreases keys.len(),
{
    if i < keys.len() - 1 {
        lemma_max_key_len(keys.drop_last(), i);
    }
}

pub open spec fn prefix_measure(prefix: Option<Seq<char>>) -> nat {
    match prefix {
        Some(p) => p.len() + 1,
        None => 0,
    }
}

// ----- exec path helpers -----
/// Position of the first `/` in `s`, if any.
pub fn find_slash(s: &str) -> (r: Option<usize>)
    ensures
        r matches Some(i) ==> is_first_slash(s@, i as int),
        r is None ==> !has_slash(s@),
{
    let n = s.unicode_len();
    let mut i: usize = 0;
    while i < n
        invariant
            n == s@.len(),
            i <= n,
            forall|j: int| 0 <= j < i ==> s@[j] != '/',
        decreases n - i,
    {
        if s.get_char(i) == '/' {
            return Some(i);
        }
        i = i + 1;
    }
    proof {
        if has_slash(s@) {
            let j = choose|j: int| is_first_slash(s@, j);
            assert(s@[j] == '/');
        }
    }
    None
}

/// `a/b`.
pub fn join_path(a: &str, b: &str) -> (r: String)
    ensures
        r@ == join(a@, b@),
{
    let slash = "/";
    proof {
        reveal_strlit("/");
    }
    let r = a.to_owned().concat(slash).concat(b);
    assert(r@ =~= join(a@, b@));
    r
}

/// The rest of `path` after `prefix/`, if `path` starts with `prefix/`.
pub fn strip_dir_prefix(path: &str, prefix: &str) -> (r: Option<String>)
    ensures
        r matches Some(rest) ==> path@ == join(prefix@, rest@),
        r is None ==> forall|rest: Seq<char>| path@ != #[trigger] join(prefix@, rest),
{
    let n = path.unicode_len();
    let p = prefix.unicode_len();
    if n <= p {
        proof {
            assert forall|rest: Seq<char>| path@ != #[trigger] join(prefix@, rest) by {
                assert(join(prefix@, rest).len() > prefix@.len());
            }
        }
        return None;
    }
    let mut i: usize = 0;
    while i < p
        invariant
            n == path@.len(),
            p == prefix@.len(),
            p < n,
            i <= p,
            forall|j: int| 0 <= j < i ==> path@[j] == prefix@[j],
        decreases p - i,
    {
        if path.get_char(i) != prefix.get_char(i) {
            proof {
                assert forall|rest: Seq<char>| path@ != #[trigger] join(prefix@, rest) by {
                    if path@ == join(prefix@, rest) {
                        assert(join(prefix@, rest)[i as int] == prefix@[i as int]);
                    }
                }
            }
            return None;
        }
        i = i + 1;
    }
    if path.get_char(p) != '/' {
        proof {
            assert forall|rest: Seq<char>| path@ != #[trigger] join(prefix@, rest) by {
                if path@ == join(prefix@, rest) {
                    assert(join(prefix@, rest)[p as int] == '/');
                }
            }
        }
        return None;
    }
    let rest = path.substring_char(p + 1, n).to_owned();
    assert(path@ =~= join(prefix@, rest@));
    Some(rest)
}

/// Whether `children` holds a directory named `seg`.
fn has_dir_named(children: &Vec<FilesystemItem>, seg: &str) -> (b: bool)
    ensures
        b == exists|i: int|
            0 <= i < children@.len() && #[trigger] dir_name_is(children@[i], seg@),
{
    let mut i: usize = 0;
    while i < children.len()
        invariant
            i <= children@.len(),
            forall|j: int| 0 <= j < i ==> !#[trigger] dir_name_is(children@[j], seg@),
        decreases children@.len() - i,
    {
        match &children[i] {
            FilesystemItem::Directory { name: Some(n), .. } => {
                if str_eq(n.as_str(), seg) {
                    assert(dir_name_is(children@[i as int], seg@));
                    return true;
                }
            },
            _ => {},
        }
        i = i + 1;
    }
    false
}

pub open spec fn file_name_is(item: FilesystemItem, name: Seq<char>) -> bool {
    item matches FilesystemItem::File { name: n, .. } && n@ == name
}

pub open spec fn dir_name_is(item: FilesystemItem, seg: Seq<char>) -> bool {
    item matches FilesystemItem::Directory { name: Some(n), .. } && n@ == seg
}

/// A directory child that shows exactly the entries below `prefix/seg`.
spec fn dir_child_ok(
    item: FilesystemItem,
    m: Map<Seq<char>, FileState>,
    prefix: Option<Seq<char>>,
) -> bool {
    item matches FilesystemItem::Directory { name: Some(n), children } && shows_exactly(
        children@,
        m,
        Some(full_path(prefix, n@)),
    )
}

proof fn lemma_dir_child(
    item: FilesystemItem,
    m: Map<Seq<char>, FileState>,
    pv: Option<Seq<char>>,
    rel: Seq<char>,
    st: FileState,
)
    requires
        dir_child_ok(item, m, pv),
    ensures
        item_holds(item, rel, st) <==> (has_slash(rel) && dir_name_is(item, head_segment(rel))
            && m.contains_key(full_path(pv, rel)) && m[full_path(pv, rel)] == st),
{
    assert(seq![item].drop_last() =~= Seq::<FilesystemItem>::empty());
    assert(!dir_holds(Seq::<FilesystemItem>::empty(), rel, st));
    match item {
        FilesystemItem::Directory { name: Some(n), children } => {
            if has_slash(rel) {
                let i0 = choose|i0: int| is_first_slash(rel, i0);
                lemma_first_slash(rel, i0);
                let head = head_segment(rel);
                let tail = tail_segment(rel);
                lemma_full_nested(pv, head, tail);
                if n@ == head {
                    assert(full_path(Some(full_path(pv, n@)), tail) == full_path(pv, rel));
                    assert(dir_holds(children@, tail, st) == (m.contains_key(full_path(pv, rel))
                        && m[full_path(pv, rel)] == st));
                }
            }
        },
        _ => {},
    }
}

/// Every level of the tree is well formed: file names hold no `/`; every directory is
/// named, its name holds no `/`, and it holds at least one item, on a well-formed level.
pub open spec fn tree_ok(items: Seq<FilesystemItem>) -> bool
    decreases items,
{
    if items.len() == 0 {
        true
    } else {
        let here = match items[items.len() - 1] {
            FilesystemItem::File { name, .. } => !has_slash(name@),
            FilesystemItem::Directory { name, children } => {
                &&& name matches Some(n)
                &&& !has_slash(n@)
                &&& children@.len() > 0
                &&& level_ok(children@)
                &&& tree_ok(children@)
            },
        };
        here && tree_ok(items.subrange(0, items.len() - 1))
    }
}

proof fn lemma_tree_ok_push(s: Seq<FilesystemItem>, x: FilesystemItem)
    ensures
        tree_ok(s.push(x)) == (tree_ok(s) && tree_ok(seq![x])),
{
    assert(s.push(x).subrange(0, s.len() as int) =~= s);
    assert(s.push(x)[s.len() as int] == x);
    assert(seq![x].subrange(0, 0) =~= Seq::<FilesystemItem>::empty());
    assert(seq![x][0] == x);
    assert(tree_ok(Seq::<FilesystemItem>::empty()));
}

/// Builds the nested presentation tree of the entries of `tree` below `prefix`
/// (all entries when `prefix` is `None`): directories first, each once, then files.
pub fn unflatten_tree(tree: &PathMap<FileState>, prefix: Option<String>) -> (r: Result<
    Directory,
    LogicError,
>)
    requires
        tree.wf(),
    ensures
        r is Ok,
        r matches Ok(items) ==> shows_exactly(items@, tree@, opt_view(prefix)),
        r matches Ok(items) ==> (items@.len() == 0 <==> nothing_below(tree@, opt_view(prefix))),
        r matches Ok(items) ==> level_ok(items@) && tree_ok(items@),
    decreases max_key_len(tree.key_seq()) + 1 - prefix_measure(opt_view(prefix)),
{
    let ghost m = tree@;
    let ghost pv = opt_view(prefix);
    let ghost keys = tree.key_seq();
    proof {
        tree.lemma_keys();
    }
    // The paths below the prefix, relative to it, in key order.
    let mut items: Vec<String> = Vec::new();
    let ghost mut src_idx: Seq<int> = Seq::empty();
    let mut i: usize = 0;
    let n = tree.len();
    while i < n
        invariant
            tree.wf(),
            m == tree@,
            keys == tree.key_seq(),
            keys.no_duplicates(),
            n == keys.len(),
            i <= n,
            pv == opt_view(prefix),
            src_idx.len() == items@.len(),
            forall|j: int|
                0 <= j < items@.len() ==> 0 <= #[trigger] src_idx[j] < i && keys[src_idx[j]]
                    == full_path(pv, items@[j]@),
            forall|a: int, b: int|
                0 <= a < b < items@.len() ==> #[trigger] items@[a]@ != #[trigger] items@[b]@,
            forall|k: Seq<char>| #[trigger] m.contains_key(k) <==> keys.contains(k),
            forall|j: int|
                0 <= j < items@.len() ==> #[trigger] m.contains_key(full_path(pv, items@[j]@)),
            forall|rel: Seq<char>|
                (exists|j: int| 0 <= j < i && keys[j] == #[trigger] full_path(pv, rel)) ==> (exists|
                    j: int,
                |
                    0 <= j < items@.len() && #[trigger] items@[j]@ == rel),
        decreases n - i,
    {
        let key = tree.key_at(i);
        let rel = match &prefix {
            Some(p) => strip_dir_prefix(key.as_str(), p.as_str()),
            None => Some(key.clone()),
        };
        let ghost old_items = items@;
        match rel {
            Some(rel) => {
                proof {
                    assert(keys.contains(keys[i as int]));
                    assert(full_path(pv, rel@) == keys[i as int]);
                    assert forall|j: int| 0 <= j < old_items.len() implies old_items[j]@ != rel@ by {
                        if old_items[j]@ == rel@ {
                            assert(keys[src_idx[j]] == keys[i as int]);
                        }
                    }
                }
                let ghost rel_view = rel@;
                items.push(rel);
                proof {
                    src_idx = src_idx.push(i as int);
                    assert forall|a: int, b: int|
                        0 <= a < b < items@.len() implies #[trigger] items@[a]@ != #[trigger] items@[b]@ by {
                        if b == old_items.len() {
                            assert(items@[a] == old_items[a]);
                        } else {
                            assert(items@[a] == old_items[a]);
                            assert(items@[b] == old_items[b]);
                        }
                    }
                    assert forall|j: int|
                        0 <= j < items@.len() implies 0 <= #[trigger] src_idx[j] < i + 1 && keys[src_idx[j]]
                            == full_path(pv, items@[j]@) by {
                        if j < old_items.len() {
                            assert(items@[j] == old_items[j]);
                        }
                    }
                    assert forall|rel2: Seq<char>|
                        (exists|j: int| 0 <= j < i + 1 && keys[j] == #[trigger] full_path(pv, rel2))
                            implies (exists|j: int|
                        0 <= j < items@.len() && #[trigger] items@[j]@ == rel2) by {
                        let j = choose|j: int| 0 <= j < i + 1 && keys[j] == #[trigger] full_path(pv, rel2);
                        if j < i {
                            let j2 = choose|j2: int| 0 <= j2 < old_items.len() && #[trigger] old_items[j2]@ == rel2;
                            assert(items@[j2] == old_items[j2]);
                        } else {
                            lemma_full_path_injective(pv, rel2, rel_view);
                            assert(items@[old_items.len() as int]@ == rel2);
                        }
                    }
                    assert forall|j: int|
                        0 <= j < items@.len() implies #[trigger] m.contains_key(full_path(pv, items@[j]@)) by {
                        if j < old_items.len() {
                            assert(items@[j] == old_items[j]);
                        }
                    }
                }
            },
            None => {
                proof {
                    assert forall|rel2: Seq<char>|
                        (exists|j: int| 0 <= j < i + 1 && keys[j] == #[trigger] full_path(pv, rel2))
                            implies (exists|j: int|
                        0 <= j < items@.len() && #[trigger] items@[j]@ == rel2) by {
                        let j = choose|j: int| 0 <= j < i + 1 && keys[j] == #[trigger] full_path(pv, rel2);
                        if j == i {
                            assert(pv is Some);
                            assert(key@ == join(pv->0, rel2));
                        }
                    }
                }
            },
        }
        i = i + 1;
    }
    proof {
        assert forall|rel: Seq<char>| #[trigger] m.contains_key(full_path(pv, rel)) implies (exists|
            j: int,
        | 0 <= j < items@.len() && #[trigger] items@[j]@ == rel) by {
            assert(keys.contains(full_path(pv, rel)));
            let j = choose|j: int| 0 <= j < keys.len() && keys[j] == full_path(pv, rel);
            assert(keys[j] == full_path(pv, rel));
        }
    }

    // Directories, each once, in the order of their first path.
    let mut children: Vec<FilesystemItem> = Vec::new();
    let mut j: usize = 0;
    while j < items.len()
        invariant
            tree.wf(),
            m == tree@,
            keys == tree.key_seq(),
            pv == opt_view(prefix),
            j <= items@.len(),
            children@.len() <= j,
            forall|k: Seq<char>| #[trigger] m.contains_key(k) <==> keys.contains(k),
            forall|q: int| 0 <= q < items@.len() ==> #[trigger] m.contains_key(full_path(pv, items@[q]@)),
            forall|c: int| 0 <= c < children@.len() ==> #[trigger] dir_child_ok(children@[c], m, pv),
            tree_ok(children@),
            forall|a: int, b: int|
                0 <= a < b < children@.len() ==> !name_clash(#[trigger] children@[a], #[trigger] children@[b]),
            forall|a: int, b: int|
                0 <= a < b < items@.len() ==> #[trigger] items@[a]@ != #[trigger] items@[b]@,
            forall|q: int|
                0 <= q < j && has_slash(#[trigger] items@[q]@) ==> exists|c: int|
                    0 <= c < children@.len() && #[trigger] dir_name_is(
                        children@[c],
                        head_segment(items@[q]@),
                    ),
        decreases items@.len() - j,
    {
        let item = &items[j];
        match find_slash(item.as_str()) {
            Some(si) => {
                proof {
                    lemma_first_slash(item@, si as int);
                }
                let seg = item.as_str().substring_char(0, si);
                if !has_dir_named(&children, seg) {
                    let sub_prefix = match &prefix {
                        Some(p) => {
                            let r = join_path(p.as_str(), seg);
                            assert(pv == Some(p@));
                            r
                        },
                        None => {
                            assert(pv == None::<Seq<char>>);
                            seg.to_owned()
                        },
                    };
                    proof {
                        assert(sub_prefix@ == full_path(pv, seg@));
                        let k = full_path(pv, item@);
                        assert(m.contains_key(full_path(pv, items@[j as int]@)));
                        assert(keys.contains(k));
                        let kj = choose|kj: int| 0 <= kj < keys.len() && keys[kj] == k;
                        lemma_max_key_len(keys, kj);
                        lemma_full_nested(pv, seg@, tail_segment(item@));
                        assert(k == full_path(Some(sub_prefix@), tail_segment(item@)));
                        assert(m.contains_key(full_path(Some(sub_prefix@), tail_segment(item@))));
                    }
                    let ghost sp = Some(sub_prefix@);
                    let ghost below = tail_segment(item@);
                    let sub = unflatten_tree(tree, Some(sub_prefix));
                    let sub = match sub {
                        Ok(s) => s,
                        Err(e) => return Err(e),
                    };
                    let ghost old_children = children@;
                    proof {
                        assert(m.contains_key(full_path(sp, below)));
                        assert(sub@.len() > 0);
                    }
                    let d = FilesystemItem::Directory { name: Some(seg.to_owned()), children: sub };
                    proof {
                        assert(!has_slash(seg@)) by {
                            if has_slash(seg@) {
                                let q = choose|q: int| is_first_slash(seg@, q);
                                assert(item@[q] == '/');
                            }
                        }
                        assert(seq![d].subrange(0, 0) =~= Seq::<FilesystemItem>::empty());
                        assert(tree_ok(Seq::<FilesystemItem>::empty()));
                        assert(seq![d][0] == d);
                        assert(tree_ok(seq![d]));
                        lemma_tree_ok_push(children@, d);
                        assert(dir_child_ok(d, m, pv));
                        assert(dir_name_is(d, head_segment(item@)));
                    }
                    proof {
                        assert forall|c: int| 0 <= c < old_children.len() implies !name_clash(
                            old_children[c],
                            d,
                        ) by {
                            assert(dir_child_ok(old_children[c], m, pv));
                            assert(!dir_name_is(old_children[c], seg@));
                        }
                    }
                    children.push(d);
                    proof {
                        assert(children@[old_children.len() as int] == d);
                        assert forall|a: int, b: int|
                            0 <= a < b < children@.len() implies !name_clash(#[trigger] children@[a], #[trigger] children@[b]) by {
                            assert(children@[a] == old_children[a]);
                            if b < old_children.len() {
                                assert(children@[b] == old_children[b]);
                            }
                        }
                        assert forall|c: int| 0 <= c < children@.len() implies #[trigger] dir_child_ok(
                            children@[c],
                            m,
                            pv,
                        ) by {
                            if c < old_children.len() {
                                assert(children@[c] == old_children[c]);
                            }
                        }
                        assert forall|q: int|
                            0 <= q < j + 1 && has_slash(#[trigger] items@[q]@) implies exists|c: int|
                                0 <= c < children@.len() && #[trigger] dir_name_is(
                                    children@[c],
                                    head_segment(items@[q]@),
                                ) by {
                            if q < j {
                                let c = choose|c: int|
                                    0 <= c < old_children.len() && #[trigger] dir_name_is(
                                        old_children[c],
                                        head_segment(items@[q]@),
                                    );
                                assert(children@[c] == old_children[c]);
                            } else {
                                assert(dir_name_is(
                                    children@[old_children.len() as int],
                                    head_segment(items@[q]@),
                                ));
                            }
                        }
                    }
                } else {
                    proof {
                        assert(seg@ == head_segment(item@));
                    }
                }
            },
            None => {},
        }
        j = j + 1;
    }
    let ghost dirs = children@;
    proof {
        assert forall|rel: Seq<char>, st: FileState| #[trigger] dir_holds(dirs, rel, st) <==> (
        has_slash(rel) && (exists|c: int|
            0 <= c < dirs.len() && #[trigger] dir_name_is(dirs[c], head_segment(rel)))
            && m.contains_key(full_path(pv, rel)) && m[full_path(pv, rel)] == st) by {
            lemma_dir_holds_exists(dirs, rel, st);
            if dir_holds(dirs, rel, st) {
                let c = choose|c: int| 0 <= c < dirs.len() && #[trigger] item_holds(dirs[c], rel, st);
                lemma_dir_child(dirs[c], m, pv, rel, st);
            }
            if has_slash(rel) && (exists|c: int|
                0 <= c < dirs.len() && #[trigger] dir_name_is(dirs[c], head_segment(rel)))
                && m.contains_key(full_path(pv, rel)) && m[full_path(pv, rel)] == st {
                let c = choose|c: int|
                    0 <= c < dirs.len() && #[trigger] dir_name_is(dirs[c], head_segment(rel));
                lemma_dir_child(dirs[c], m, pv, rel, st);
                assert(item_holds(dirs[c], rel, st));
            }
        }
    }

    // Then the files of this level.
    let ghost mut file_src: Seq<int> = Seq::empty();
    let mut f: usize = 0;
    while f < items.len()
        invariant
            tree.wf(),
            m == tree@,
            pv == opt_view(prefix),
            f <= items@.len(),
            children@.len() <= dirs.len() + f,
            dirs.len() <= items@.len(),
            forall|q: int| 0 <= q < items@.len() ==> #[trigger] m.contains_key(full_path(pv, items@[q]@)),
            forall|rel: Seq<char>, st: FileState| #[trigger] dir_holds(children@, rel, st) <==> (
            dir_holds(dirs, rel, st) || (!has_slash(rel) && (exists|q: int|
                0 <= q < f && #[trigger] items@[q]@ == rel) && m.contains_key(full_path(pv, rel))
                && m[full_path(pv, rel)] == st)),
            items@.len() == 0 ==> children@.len() == 0,
            tree_ok(children@),
            dirs.len() <= children@.len(),
            forall|c: int| 0 <= c < dirs.len() ==> #[trigger] children@[c] == dirs[c],
            forall|c: int| 0 <= c < dirs.len() ==> #[trigger] dir_child_ok(dirs[c], m, pv),
            forall|a: int, b: int|
                0 <= a < b < dirs.len() ==> !name_clash(#[trigger] dirs[a], #[trigger] dirs[b]),
            forall|a: int, b: int|
                0 <= a < b < items@.len() ==> #[trigger] items@[a]@ != #[trigger] items@[b]@,
            file_src.len() + dirs.len() == children@.len(),
            forall|c: int|
                0 <= c < file_src.len() ==> 0 <= #[trigger] file_src[c] < f && file_name_is(
                    children@[dirs.len() + c],
                    items@[file_src[c]]@,
                ),
            forall|a: int, b: int|
                dirs.len() <= a < b < children@.len() ==> !name_clash(
                    #[trigger] children@[a],
                    #[trigger] children@[b],
                ),
        decreases items@.len() - f,
    {
        let item = &items[f];
        let ghost old_children = children@;
        match find_slash(item.as_str()) {
            Some(_) => {
                proof {
                    assert forall|rel: Seq<char>, st: FileState| #[trigger] dir_holds(children@, rel, st) <==> (
                    dir_holds(dirs, rel, st) || (!has_slash(rel) && (exists|q: int|
                        0 <= q < f + 1 && #[trigger] items@[q]@ == rel) && m.contains_key(full_path(pv, rel))
                        && m[full_path(pv, rel)] == st)) by {
                        if !has_slash(rel) && (exists|q: int| 0 <= q < f + 1 && #[trigger] items@[q]@ == rel) {
                            let q = choose|q: int| 0 <= q < f + 1 && #[trigger] items@[q]@ == rel;
                            if q == f {
                                assert(has_slash(items@[f as int]@));
                            }
                        }
                    }
                }
            },
            None => {
                let full = match &prefix {
                    Some(p) => join_path(p.as_str(), item.as_str()),
                    None => item.clone(),
                };
                proof {
                    assert(full@ == full_path(pv, item@));
                    assert(m.contains_key(full_path(pv, items@[f as int]@)));
                }
                let state = match tree.get(full.as_str()) {
                    Some(s) => *s,
                    None => FileState::Added,
                };
                let x = FilesystemItem::File { name: item.clone(), state };
                proof {
                    assert(seq![x].subrange(0, 0) =~= Seq::<FilesystemItem>::empty());
                    assert(tree_ok(Seq::<FilesystemItem>::empty()));
                    assert(seq![x][0] == x);
                    assert(tree_ok(seq![x]));
                    lemma_tree_ok_push(children@, x);
                    assert forall|c: int| dirs.len() <= c < old_children.len() implies !name_clash(
                        old_children[c],
                        x,
                    ) by {
                        let q = file_src[c - dirs.len()];
                        assert(file_name_is(old_children[c], items@[q]@));
                        assert(items@[q]@ != items@[f as int]@);
                    }
                }
                children.push(x);
                proof {
                    let ghost prev_src = file_src;
                    file_src = file_src.push(f as int);
                    assert(file_name_is(children@[old_children.len() as int], items@[f as int]@));
                    assert forall|c: int| 0 <= c < dirs.len() implies #[trigger] children@[c] == dirs[c] by {
                        assert(children@[c] == old_children[c]);
                    }
                    assert forall|c: int|
                        0 <= c < file_src.len() implies 0 <= #[trigger] file_src[c] < f + 1 && file_name_is(
                            children@[dirs.len() + c],
                            items@[file_src[c]]@,
                        ) by {
                        if c < prev_src.len() {
                            assert(children@[dirs.len() + c] == old_children[dirs.len() + c]);
                        }
                    }
                    assert forall|a: int, b: int|
                        dirs.len() <= a < b < children@.len() implies !name_clash(
                            #[trigger] children@[a],
                            #[trigger] children@[b],
                        ) by {
                        assert(children@[a] == old_children[a]);
                        if b < old_children.len() {
                            assert(children@[b] == old_children[b]);
                        }
                    }
                    lemma_dir_holds_push(old_children, x);
                    assert forall|rel: Seq<char>, st: FileState| #[trigger] dir_holds(children@, rel, st) <==> (
                    dir_holds(dirs, rel, st) || (!has_slash(rel) && (exists|q: int|
                        0 <= q < f + 1 && #[trigger] items@[q]@ == rel) && m.contains_key(full_path(pv, rel))
                        && m[full_path(pv, rel)] == st)) by {
                        assert(dir_holds(old_children.push(x), rel, st) == dir_holds(children@, rel, st));
                        assert(seq![x].last() == x);
                        assert(seq![x].drop_last() =~= Seq::<FilesystemItem>::empty());
                        assert(!dir_holds(Seq::<FilesystemItem>::empty(), rel, st));
                        if item_holds(x, rel, st) {
                            assert(items@[f as int]@ == rel);
                        }
                        if !has_slash(rel) && (exists|q: int| 0 <= q < f + 1 && #[trigger] items@[q]@ == rel)
                            && m.contains_key(full_path(pv, rel)) && m[full_path(pv, rel)] == st {
                            let q = choose|q: int| 0 <= q < f + 1 && #[trigger] items@[q]@ == rel;
                            if q == f {
                                assert(item_holds(x, rel, st));
                            }
                        }
                    }
                }
            },
        }
        f = f + 1;
    }
    proof {
        assert forall|rel: Seq<char>, st: FileState| #[trigger] dir_holds(children@, rel, st) <==> (
        m.contains_key(full_path(pv, rel)) && m[full_path(pv, rel)] == st) by {
            if m.contains_key(full_path(pv, rel)) && m[full_path(pv, rel)] == st {
                let q = choose|q: int| 0 <= q < items@.len() && #[trigger] items@[q]@ == rel;
                if has_slash(rel) {
                    assert(has_slash(items@[q]@));
                    let c = choose|c: int|
                        0 <= c < dirs.len() && #[trigger] dir_name_is(
                            dirs[c],
                            head_segment(items@[q]@),
                        );
                }
            }
        }
        assert forall|a: int, b: int|
            0 <= a < b < children@.len() && (#[trigger] children@[b]) is Directory implies (
            #[trigger] children@[a]) is Directory by {
            if b >= dirs.len() {
                assert(file_name_is(children@[dirs.len() + (b - dirs.len())], items@[file_src[b - dirs.len()]]@));
            }
            if a < dirs.len() {
                assert(dir_child_ok(dirs[a], m, pv));
            } else {
                assert(file_name_is(children@[dirs.len() + (a - dirs.len())], items@[file_src[a - dirs.len()]]@));
            }
        }
        assert forall|a: int, b: int|
            0 <= a < b < children@.len() implies !name_clash(#[trigger] children@[a], #[trigger] children@[b]) by {
            if b < dirs.len() {
                assert(children@[a] == dirs[a]);
                assert(children@[b] == dirs[b]);
            } else if a < dirs.len() {
                assert(dir_child_ok(dirs[a], m, pv));
                assert(file_name_is(children@[dirs.len() + (b - dirs.len())], items@[file_src[b - dirs.len()]]@));
            }
        }
        if children@.len() == 0 {
            assert forall|rel: Seq<char>| !#[trigger] m.contains_key(full_path(pv, rel)) by {
                if m.contains_key(full_path(pv, rel)) {
                    assert(dir_holds(children@, rel, m[full_path(pv, rel)]));
                }
            }
        } else {
            assert(m.contains_key(full_path(pv, items@[0]@)));
        }
    }
    Ok(children)
}

} // verus!

verus! {

// ----- classification -----
/// The change-set between an old and a new snapshot (path to content digest): a path
/// only in `old` is removed, a path only in `new` is added, a path in both whose
/// digests differ is modified; unchanged paths are absent.
pub open spec fn change_of(old: Map<Seq<char>, String>, new: Map<Seq<char>, String>) -> Map<
    Seq<char>,
    FileState,
> {
    Map::new(
        |k: Seq<char>|
            (old.contains_key(k) && !(new.contains_key(k) && new[k]@ == old[k]@)) || (
            new.contains_key(k) && !old.contains_key(k)),
        |k: Seq<char>|
            if !old.contains_key(k) {
                FileState::Added
            } else if !new.contains_key(k) {
                FileState::Removed
            } else {
                FileState::Modified
            },
    )
}

/// Names the content digest that SHA-256 gives for `data`, as lowercase hexadecimal.
pub uninterp spec fn sha256_hex(data: Seq<u8>) -> Seq<char>;

/// Relies on sha2's `Sha256` (`update`, then `finalize`) and the `LowerHex` formatting of
/// its output: the digest of the bytes, in lowercase hexadecimal.
#[verifier::external_body]
fn sha256_hex_of(data: &[u8]) -> (r: String)
    ensures
        r@ == sha256_hex(data@),
{
    let mut hash = sha2::Sha256::new();
    hash.update(data);
    format!("{:x}", hash.finalize())
}

/// The content digest of a file's bytes, used to decide whether a file changed.
pub fn file_digest(data: &[u8]) -> (r: String)
    ensures
        r@ == sha256_hex(data@),
{
    sha256_hex_of(data)
}

proof fn lemma_take_push_contains(s: Seq<Seq<char>>, i: int, q: Seq<char>)
    requires
        0 <= i < s.len(),
    ensures
        s.take(i + 1).contains(q) <==> (s.take(i).contains(q) || s[i] == q),
{
    if s.take(i).contains(q) {
        let t = s.take(i);
        let j = choose|j: int| 0 <= j < t.len() && t[j] == q;
        assert(s.take(i + 1)[j] == q);
    }
    if s[i] == q {
        assert(s.take(i + 1)[i] == q);
    }
    if s.take(i + 1).contains(q) && s[i] != q {
        let t = s.take(i + 1);
        let j = choose|j: int| 0 <= j < t.len() && t[j] == q;
        assert(s.take(i)[j] == q);
    }
}

/// Classifies every path of two snapshots (path to content digest).
pub fn classify_changes(old: &PathMap<String>, new: &PathMap<String>) -> (r: PathMap<FileState>)
    requires
        old.wf(),
        new.wf(),
    ensures
        r.wf(),
        r@ == change_of(old@, new@),
{
    let ghost target = change_of(old@, new@);
    let mut r: PathMap<FileState> = PathMap::new();
    proof {
        old.lemma_keys();
        new.lemma_keys();
    }
    let n = old.len();
    let mut i: usize = 0;
    while i < n
        invariant
            old.wf(),
            new.wf(),
            r.wf(),
            n == old.key_seq().len(),
            i <= n,
            target == change_of(old@, new@),
            forall|k: Seq<char>| #[trigger] old@.contains_key(k) <==> old.key_seq().contains(k),
            forall|k: Seq<char>| #[trigger]
                r@.contains_key(k) <==> (target.contains_key(k) && old.key_seq().take(
                    i as int,
                ).contains(k)),
            forall|k: Seq<char>| #[trigger] r@.contains_key(k) ==> r@[k] == target[k],
        decreases n - i,
    {
        let key = old.key_at(i);
        let old_hash = old.value_at(i);
        let ghost k = key@;
        let ghost prev = r@;
        proof {
            assert(old.key_seq().take(i + 1) =~= old.key_seq().take(i as int).push(k));
            if old.key_seq().take(i as int).contains(k) {
                let j = choose|j: int| 0 <= j < i && old.key_seq().take(i as int)[j] == k;
                assert(old.key_seq()[j] == old.key_seq()[i as int]);
            }
        }
        let state = match new.get(key.as_str()) {
            Some(new_hash) => {
                if str_eq(old_hash.as_str(), new_hash.as_str()) {
                    None
                } else {
                    Some(FileState::Modified)
                }
            },
            None => Some(FileState::Removed),
        };
        proof {
            assert(old@.contains_key(k));
            assert(state is Some <==> target.contains_key(k));
            assert(state matches Some(st) ==> st == target[k]);
        }
        if let Some(st) = state {
            r.insert(key.clone(), st);
        }
        proof {
            assert(state is None ==> !prev.contains_key(k));
            assert forall|q: Seq<char>| #[trigger]
                r@.contains_key(q) <==> (target.contains_key(q) && old.key_seq().take(
                    i + 1,
                ).contains(q)) by {
                lemma_take_push_contains(old.key_seq(), i as int, q);
            }
        }
        i = i + 1;
    }
    proof {
        assert(old.key_seq().take(n as int) =~= old.key_seq());
    }
    let m = new.len();
    let mut j: usize = 0;
    while j < m
        invariant
            old.wf(),
            new.wf(),
            r.wf(),
            m == new.key_seq().len(),
            j <= m,
            target == change_of(old@, new@),
            forall|k: Seq<char>| #[trigger] old@.contains_key(k) <==> old.key_seq().contains(k),
            forall|k: Seq<char>| #[trigger] new@.contains_key(k) <==> new.key_seq().contains(k),
            forall|k: Seq<char>| #[trigger]
                r@.contains_key(k) <==> (target.contains_key(k) && (old@.contains_key(k)
                    || new.key_seq().take(j as int).contains(k))),
            forall|k: Seq<char>| #[trigger] r@.contains_key(k) ==> r@[k] == target[k],
        decreases m - j,
    {
        let key = new.key_at(j);
        let ghost k = key@;
        proof {
            assert(new.key_seq().take(j + 1) =~= new.key_seq().take(j as int).push(k));
            assert(new.key_seq().contains(k));
        }
        let ghost prev = r@;
        let is_old = old.contains_key(key.as_str());
        proof {
            assert(new@.contains_key(k));
            assert(!is_old ==> target.contains_key(k) && target[k] == FileState::Added);
        }
        if !is_old {
            r.insert(key.clone(), FileState::Added);
        }
        proof {
            assert forall|q: Seq<char>| #[trigger]
                r@.contains_key(q) <==> (target.contains_key(q) && (old@.contains_key(q)
                    || new.key_seq().take(j + 1).contains(q))) by {
                lemma_take_push_contains(new.key_seq(), j as int, q);
            }
        }
        j = j + 1;
    }
    proof {
        assert(new.key_seq().take(m as int) =~= new.key_seq());
        assert(r@ =~= target);
    }
    r
}

/// Compares two snapshots of directory trees (path to content digest) taken under the
/// roots `old_dir` and `new_dir`.
pub fn calculate_folder_diff(
    old_dir: String,
    old_tree: &PathMap<String>,
    new_dir: String,
    new_tree: &PathMap<String>,
) -> (r: FolderDiff)
    requires
        old_tree.wf(),
        new_tree.wf(),
    ensures
        r.old@ == old_dir@,
        r.new@ == new_dir@,
        shows_exactly(r.dir@, change_of(old_tree@, new_tree@), None),
        r.dir@.len() == 0 <==> nothing_below(change_of(old_tree@, new_tree@), None),
        level_ok(r.dir@),
        tree_ok(r.dir@),
{
    let changes = classify_changes(old_tree, new_tree);
    let dir = match unflatten_tree(&changes, None) {
        Ok(d) => d,
        Err(_) => Vec::new(),
    };
    FolderDiff { old: old_dir, new: new_dir, dir }
}

/// A snapshot compared with itself has no changes, so its folder diff lists nothing.
pub proof fn lemma_self_diff_is_empty(s: Map<Seq<char>, String>)
    ensures
        change_of(s, s) == Map::<Seq<char>, FileState>::empty(),
        nothing_below(change_of(s, s), None),
{
    assert(change_of(s, s) =~= Map::<Seq<char>, FileState>::empty());
}

} // verus!

verus! {

proof fn lemma_slash_has_first(s: Seq<char>, j: int)
    requires
        0 <= j < s.len(),
        s[j] == '/',
    ensures
        has_slash(s),
    decreases j,
{
    if forall|k: int| 0 <= k < j ==> s[k] != '/' {
        assert(is_first_slash(s, j));
    } else {
        let k = choose|k: int| 0 <= k < j && s[k] == '/';
        lemma_slash_has_first(s, k);
    }
}

proof fn lemma_tree_ok_item(items: Seq<FilesystemItem>, i: int)
    requires
        tree_ok(items),
        0 <= i < items.len(),
    ensures
        match items[i] {
            FilesystemItem::File { name, .. } => !has_slash(name@),
            FilesystemItem::Directory { name, children } => {
                &&& name matches Some(n)
                &&& !has_slash(n@)
                &&& children@.len() > 0
                &&& tree_ok(children@)
            },
        },
    decreases items.len(),
{
    if i < items.len() - 1 {
        let init = items.subrange(0, items.len() - 1);
        assert(init[i] == items[i]);
        lemma_tree_ok_item(init, i);
    }
}

/// Every item of a well-formed tree is reached by some path, so the files that the paths
/// reach are all the files the tree holds: flattening it gives back exactly what it shows.
pub proof fn lemma_items_reachable(items: Seq<FilesystemItem>, i: int)
    requires
        tree_ok(items),
        0 <= i < items.len(),
    ensures
        exists|p: Seq<char>, st: FileState| item_holds(items[i], p, st),
    decreases items,
{
    lemma_tree_ok_item(items, i);
    let x = items[i];
    assert(seq![x].drop_last() =~= Seq::<FilesystemItem>::empty());
    assert(seq![x][0] == x);
    assert(!dir_holds(Seq::<FilesystemItem>::empty(), Seq::<char>::empty(), FileState::Added));
    match x {
        FilesystemItem::File { name, state } => {
            assert(item_holds(x, name@, state));
        },
        FilesystemItem::Directory { name, children } => {
            let n = name->Some_0;
            assert(decreases_to!(items => items[i]));
            assert(decreases_to!(items[i] => (items[i])->Directory_children));
            assert(decreases_to!((items[i])->Directory_children => children@));
            lemma_items_reachable(children@, 0);
            let (p, st) = choose|p: Seq<char>, st: FileState| item_holds(children@[0], p, st);
            let path = join(n@, p);
            assert forall|j: int| 0 <= j < n@.len() implies path[j] != '/' by {
                assert(path[j] == n@[j]);
                if n@[j] == '/' {
                    lemma_slash_has_first(n@, j);
                }
            }
            assert(is_first_slash(path, n@.len() as int));
            lemma_first_slash(path, n@.len() as int);
            assert(head_segment(path) =~= n@);
            assert(tail_segment(path) =~= p);
            lemma_dir_holds_exists(children@, p, st);
            assert(!dir_holds(Seq::<FilesystemItem>::empty(), path, st));
            assert(item_holds(x, path, st));
        },
    }
}

} // verus!
