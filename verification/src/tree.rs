//! The virtual tree that the search walks: built from candidate file paths
//! alone, without touching the file system.

use crate::paths::{
    normal_form, normalize, opt_chars, path_component_count, path_components, path_parent, spec_component_count, spec_components,
    spec_parent,
};
use crate::text::{chars_less, chars_lt, lemma_chars_lt_irreflexive, lemma_chars_lt_total, lemma_chars_lt_transitive, to_chars};
use vstd::hash_map::StringHashMap;
use vstd::prelude::*;

verus! {

/// The rank of a path component in `Path`'s order: the root, then `.`, then
/// `..`, then names.
pub open spec fn comp_rank(c: Seq<char>) -> int {
    if c == seq!['/'] {
        1
    } else if c == seq!['.'] {
        2
    } else if c == seq!['.', '.'] {
        3
    } else {
        4
    }
}

/// Component `a` comes before component `b`: by rank, and names by their characters.
pub open spec fn comp_lt(a: Seq<char>, b: Seq<char>) -> bool {
    comp_rank(a) < comp_rank(b) || (comp_rank(a) == 4 && comp_rank(b) == 4 && chars_lt(a, b))
}

/// Components `a` come before components `b` in lexicographic order: the
/// order of `Path`s, which compares their components.
pub open spec fn comps_lt(a: Seq<Seq<char>>, b: Seq<Seq<char>>) -> bool
    decreases a.len(),
{
    if b.len() == 0 {
        false
    } else if a.len() == 0 {
        true
    } else if a[0] != b[0] {
        comp_lt(a[0], b[0])
    } else {
        comps_lt(a.drop_first(), b.drop_first())
    }
}

proof fn lemma_comp_lt(a: Seq<char>, b: Seq<char>, c: Seq<char>)
    ensures
        !comp_lt(a, a),
        comp_lt(a, b) && comp_lt(b, c) ==> comp_lt(a, c),
{
    lemma_chars_lt_irreflexive(a);
    if comp_lt(a, b) && comp_lt(b, c) && comp_rank(a) == 4 && comp_rank(b) == 4 && comp_rank(c) == 4 {
        lemma_chars_lt_transitive(a, b, c);
    }
}

/// The order of components is transitive.
pub proof fn lemma_comps_lt_transitive(a: Seq<Seq<char>>, b: Seq<Seq<char>>, c: Seq<Seq<char>>)
    requires
        comps_lt(a, b),
        comps_lt(b, c),
    ensures
        comps_lt(a, c),
    decreases a.len(),
{
    if a.len() > 0 && b.len() > 0 && c.len() > 0 {
        lemma_comp_lt(a[0], b[0], c[0]);
        lemma_comp_lt(b[0], c[0], a[0]);
        lemma_comp_lt(c[0], a[0], b[0]);
        if a[0] == b[0] && b[0] == c[0] {
            lemma_comps_lt_transitive(a.drop_first(), b.drop_first(), c.drop_first());
        }
    }
}

/// No components come before themselves.
pub proof fn lemma_comps_lt_irreflexive(a: Seq<Seq<char>>)
    ensures
        !comps_lt(a, a),
    decreases a.len(),
{
    if a.len() > 0 {
        lemma_comps_lt_irreflexive(a.drop_first());
    }
}

fn chars_equal(a: &Vec<char>, b: &Vec<char>) -> (r: bool)
    ensures
        r == (a@ == b@),
{
    if a.len() != b.len() {
        return false;
    }
    let mut i: usize = 0;
    while i < a.len()
        invariant
            i <= a.len() == b.len(),
            forall|k: int| 0 <= k < i ==> a@[k] == b@[k],
        decreases a.len() - i,
    {
        if a[i] != b[i] {
            return false;
        }
        i = i + 1;
    }
    assert(a@ =~= b@);
    true
}

fn comp_rank_of(c: &Vec<char>) -> (r: u8)
    ensures
        r as int == comp_rank(c@),
{
    if c.len() == 1 && c[0] == '/' {
        assert(c@ =~= seq!['/']);
        1
    } else if c.len() == 1 && c[0] == '.' {
        assert(c@ =~= seq!['.']);
        2
    } else if c.len() == 2 && c[0] == '.' && c[1] == '.' {
        assert(c@ =~= seq!['.', '.']);
        3
    } else {
        proof {
            if c@ == seq!['/'] || c@ == seq!['.'] {
                assert(c@.len() == 1);
            }
            if c@ == seq!['.', '.'] {
                assert(c@.len() == 2);
            }
        }
        4
    }
}

/// The characters of each component.
pub open spec fn comp_views(v: Seq<Vec<char>>) -> Seq<Seq<char>> {
    v.map_values(|c: Vec<char>| c@)
}

fn comps_less(a: &Vec<Vec<char>>, b: &Vec<Vec<char>>) -> (r: bool)
    ensures
        r == comps_lt(comp_views(a@), comp_views(b@)),
{
    let ghost av = comp_views(a@);
    let ghost bv = comp_views(b@);
    let mut i: usize = 0;
    assert(av.skip(0) =~= av);
    assert(bv.skip(0) =~= bv);
    while i < a.len() && i < b.len()
        invariant
            i <= a.len(),
            i <= b.len(),
            av == comp_views(a@),
            bv == comp_views(b@),
            comps_lt(av, bv) == comps_lt(av.skip(i as int), bv.skip(i as int)),
        decreases a.len() - i,
    {
        assert(av.skip(i as int)[0] == a[i as int]@);
        assert(bv.skip(i as int)[0] == b[i as int]@);
        if !chars_equal(&a[i], &b[i]) {
            let ra = comp_rank_of(&a[i]);
            let rb = comp_rank_of(&b[i]);
            return ra < rb || (ra == 4 && rb == 4 && chars_less(&a[i], &b[i]));
        }
        assert(av.skip(i as int).drop_first() =~= av.skip(i + 1));
        assert(bv.skip(i as int).drop_first() =~= bv.skip(i + 1));
        i = i + 1;
    }
    i < b.len()
}

/// The components of a path, each as characters.
fn components_of(path: &str) -> (r: Vec<Vec<char>>)
    ensures
        comp_views(r@) == spec_components(path@),
{
    let parts = path_components(path);
    let mut r: Vec<Vec<char>> = Vec::new();
    let mut k: usize = 0;
    while k < parts.len()
        invariant
            k <= parts.len(),
            comp_views(r@) == parts@.take(k as int).map_values(|s: String| s@),
        decreases parts.len() - k,
    {
        let ghost r0 = r@;
        let c = to_chars(parts[k].as_str());
        r.push(c);
        proof {
            assert(r@ == r0.push(c));
            assert(comp_views(r0).len() == r0.len());
            assert(r0.len() == k);
            assert(parts@.take(k + 1) =~= parts@.take(k as int).push(parts@[k as int]));
            let t1 = parts@.take(k + 1).map_values(|s: String| s@);
            assert forall|j: int| 0 <= j < r@.len() implies comp_views(r@)[j] == t1[j] by {
                if j < k {
                    assert(comp_views(r0)[j] == parts@.take(k as int).map_values(|s: String| s@)[j]);
                    assert(r@[j] == r0[j]);
                } else {
                    assert(r@[j] == c);
                    assert(c@ == parts@[k as int]@);
                }
            }
            assert(comp_views(r@) =~= t1);
        }
        k = k + 1;
    }
    assert(parts@.take(parts.len() as int) =~= parts@);
    r
}

/// The parent under which the tree builder files a path: the path's parent,
/// provided that it is not empty and has at least two components.
pub open spec fn tree_parent(p: Seq<char>) -> Option<Seq<char>> {
    match spec_parent(p) {
        Some(q) => if q.len() > 0 && spec_component_count(q) >= 2 {
            Some(q)
        } else {
            None
        },
        None => None,
    }
}

/// The tree ancestor `k` levels above `p` (`p` itself for `k == 0`).
pub open spec fn tree_ancestor(p: Seq<char>, k: nat) -> Option<Seq<char>>
    decreases k,
{
    if k == 0 {
        Some(p)
    } else {
        match tree_ancestor(p, (k - 1) as nat) {
            Some(q) => tree_parent(q),
            None => None,
        }
    }
}

/// The ancestor `k` levels above `p` by `Path::parent` (`p` itself for `k == 0`).
pub open spec fn path_ancestor(p: Seq<char>, k: nat) -> Option<Seq<char>>
    decreases k,
{
    if k == 0 {
        Some(p)
    } else {
        match path_ancestor(p, (k - 1) as nat) {
            Some(q) => spec_parent(q),
            None => None,
        }
    }
}

/// `p` is a node of the tree built from `inputs`: one of the inputs or one of
/// their tree ancestors.
pub open spec fn in_tree(inputs: Seq<Seq<char>>, p: Seq<char>) -> bool {
    exists|i: int, k: nat| 0 <= i < inputs.len() && #[trigger] tree_ancestor(inputs[i], k) == Some(p)
}

/// The extra folders filed under `parent`: those whose `Path::parent` is
/// `parent`, in their given order, when `parent` is not empty.
pub open spec fn extra_under(folders: Seq<Seq<char>>, parent: Seq<char>) -> Seq<Seq<char>> {
    folders.filter(|d: Seq<char>| parent.len() > 0 && spec_parent(d) == Some(parent))
}

/// A sequence with no element twice.
pub open spec fn no_dups<A>(s: Seq<A>) -> bool {
    forall|i: int, j: int| 0 <= i < j < s.len() ==> s[i] != s[j]
}

/// The normal form of each path.
pub open spec fn normal_forms(s: Seq<String>) -> Seq<Seq<char>> {
    s.map_values(|x: String| normal_form(x@))
}

/// The characters of each string.
pub open spec fn views(s: Seq<String>) -> Seq<Seq<char>> {
    s.map_values(|x: String| x@)
}

/// `acc` with `x` appended unless it holds `x` already.
pub open spec fn push_absent(acc: Seq<Seq<char>>, x: Seq<char>) -> Seq<Seq<char>> {
    if acc.contains(x) {
        acc
    } else {
        acc.push(x)
    }
}

/// `acc` with the siblings appended in order, each unless it is `path` or
/// is held already.
pub open spec fn add_siblings(acc: Seq<Seq<char>>, sibs: Seq<Seq<char>>, path: Seq<char>) -> Seq<Seq<char>>
    decreases sibs.len(),
{
    if sibs.len() == 0 {
        acc
    } else {
        let before = add_siblings(acc, sibs.drop_last(), path);
        if sibs.last() == path {
            before
        } else {
            push_absent(before, sibs.last())
        }
    }
}

/// The virtual tree of candidate paths.
///
/// Nodes are kept in an arena: every node has an index, a path, and the index
/// of its parent path. Besides the tree built from the candidate files, the
/// arena holds the extra folders and all ancestors of every node, so that an
/// expansion never leaves the arena.
pub struct PathArena {
    pub(crate) paths: Vec<String>,
    pub(crate) index: StringHashMap<usize>,
    pub(crate) parent_id: Vec<Option<usize>>,
    pub(crate) depth: Vec<usize>,
}

pub struct VirtualTree {
    pub(crate) arena: PathArena,
    pub(crate) tree_node: Vec<bool>,
    pub(crate) file: Vec<bool>,
    pub(crate) kids: Vec<Vec<usize>>,
    pub(crate) extra: Vec<Vec<usize>>,
    pub(crate) root_ids: Vec<usize>,
    pub(crate) n_files: usize,
    /// The roots of the tree, in lexicographic order.
    pub roots: Vec<String>,
    pub(crate) inputs: Ghost<Seq<Seq<char>>>,
    pub(crate) folders: Ghost<Seq<Seq<char>>>,
}

impl VirtualTree {
    /// Collects the roots: the tree nodes without a tree parent, in the
    /// order of their components.
    fn compute_roots(&mut self)
        requires
            old(self).core_ok(),
        ensures
            final(self).core_ok(),
            final(self).roots_ok(),
            final(self).arena == old(self).arena,
            final(self).tree_node == old(self).tree_node,
            final(self).file == old(self).file,
            final(self).kids == old(self).kids,
            final(self).extra == old(self).extra,
            final(self).n_files == old(self).n_files,
            final(self).inputs == old(self).inputs,
            final(self).folders == old(self).folders,
    {
        let n = self.arena.paths.len();
        let mut ids: Vec<usize> = Vec::new();
        let mut keys: Vec<Vec<Vec<char>>> = Vec::new();
        let mut names: Vec<String> = Vec::new();
        for j in 0..n
            invariant
                n == self.arena.paths.len(),
                self.core_ok(),
                ids.len() == keys.len(),
                names.len() == keys.len(),
                forall|a: int| 0 <= a < ids.len() ==> (#[trigger] ids[a] as int) < j,
                forall|a: int| 0 <= a < ids.len() ==> #[trigger] names[a]@ == self.arena.paths[ids[a] as int]@,
                forall|a: int| 0 <= a < ids.len() ==> #[trigger] comp_views(keys[a]@) == spec_components(names[a]@),
                forall|a: int, b: int| 0 <= a < b < keys.len() ==> !comps_lt(comp_views(#[trigger] keys[b]@), comp_views(#[trigger] keys[a]@)),
                no_dups(ids@),
                forall|x: int| 0 <= x < j ==> (#[trigger] ids@.contains(x as usize) <==> (self.tree_node[x]
                    && self.arena.tparent(x) is None)),
        {
            let tp = self.arena.tree_parent_of(j);
            if self.tree_node[j] && tp.is_none() {
                let key = components_of(self.arena.paths[j].as_str());
                let ghost kv = comp_views(key@);
                let mut pos: usize = 0;
                while pos < keys.len() && !comps_less(&key, &keys[pos])
                    invariant
                        pos <= keys.len(),
                        kv == comp_views(key@),
                        forall|a: int| 0 <= a < pos ==> !comps_lt(kv, comp_views(#[trigger] keys[a]@)),
                    decreases keys.len() - pos,
                {
                    pos = pos + 1;
                }
                let ghost old_ids = ids@;
                let ghost old_keys = keys@;
                let ghost old_names = names@;
                ids.insert(pos, j);
                keys.insert(pos, key);
                names.insert(pos, self.arena.paths[j].clone());
                proof {
                    assert(keys@ == old_keys.insert(pos as int, key));
                    assert forall|a: int, b: int| 0 <= a < b < keys.len() implies !comps_lt(comp_views(#[trigger] keys[b]@), comp_views(#[trigger] keys[a]@)) by {
                        if b < pos {
                            assert(keys[a] == old_keys[a] && keys[b] == old_keys[b]);
                        } else if b == pos {
                            assert(keys[a] == old_keys[a]);
                        } else if a < pos {
                            assert(keys[a] == old_keys[a] && keys[b] == old_keys[b - 1]);
                        } else if a == pos {
                            assert(keys[b] == old_keys[b - 1]);
                            let kb = comp_views(old_keys[b - 1]@);
                            let kp = comp_views(old_keys[pos as int]@);
                            if comps_lt(kb, kv) {
                                assert(comps_lt(kv, kp));
                                lemma_comps_lt_transitive(kb, kv, kp);
                                if b - 1 == pos {
                                    lemma_comps_lt_irreflexive(kp);
                                }
                            }
                        } else {
                            assert(keys[a] == old_keys[a - 1] && keys[b] == old_keys[b - 1]);
                        }
                    }
                    assert forall|a: int| 0 <= a < ids.len() implies #[trigger] names[a]@ == self.arena.paths[ids[a] as int]@ by {
                        if a < pos {
                            assert(names[a] == old_names[a] && ids[a] == old_ids[a]);
                        } else if a > pos {
                            assert(names[a] == old_names[a - 1] && ids[a] == old_ids[a - 1]);
                        }
                    }
                    assert forall|a: int| 0 <= a < ids.len() implies #[trigger] comp_views(keys[a]@) == spec_components(names[a]@) by {
                        if a < pos {
                            assert(names[a] == old_names[a] && keys[a] == old_keys[a]);
                        } else if a > pos {
                            assert(names[a] == old_names[a - 1] && keys[a] == old_keys[a - 1]);
                        }
                    }
                    assert forall|a: int| 0 <= a < ids.len() implies (#[trigger] ids[a] as int) < j + 1 by {
                        if a < pos {
                            assert(ids[a] == old_ids[a]);
                        } else if a > pos {
                            assert(ids[a] == old_ids[a - 1]);
                        }
                    }
                    assert forall|a: int, b: int| 0 <= a < b < ids@.len() implies ids@[a] != ids@[b] by {
                        let ia = if a < pos { old_ids[a] } else if a == pos { j } else { old_ids[a - 1] };
                        let ib = if b < pos { old_ids[b] } else if b == pos { j } else { old_ids[b - 1] };
                        assert(ids@[a] == ia && ids@[b] == ib);
                        if a != pos && b != pos {
                            let a0 = if a < pos { a } else { a - 1 };
                            let b0 = if b < pos { b } else { b - 1 };
                            assert(old_ids[a0] != old_ids[b0]);
                        } else if a == pos {
                            let b0 = if b < pos { b } else { b - 1 };
                            assert((old_ids[b0] as int) < j);
                        } else {
                            let a0 = if a < pos { a } else { a - 1 };
                            assert((old_ids[a0] as int) < j);
                        }
                    }
                    assert forall|x: int| 0 <= x < j + 1 implies (#[trigger] ids@.contains(x as usize) <==> (self.tree_node[x]
                        && self.arena.tparent(x) is None)) by {
                        if x < j {
                            if ids@.contains(x as usize) {
                                let m = choose|m: int| 0 <= m < ids@.len() && ids@[m] == x as usize;
                                if m < pos {
                                    assert(old_ids[m] == x as usize);
                                } else {
                                    assert(m != pos);
                                    assert(old_ids[m - 1] == x as usize);
                                }
                            }
                            if old_ids.contains(x as usize) {
                                let m = choose|m: int| 0 <= m < old_ids.len() && old_ids[m] == x as usize;
                                if m < pos {
                                    assert(ids@[m] == x as usize);
                                } else {
                                    assert(ids@[m + 1] == x as usize);
                                }
                            }
                        } else {
                            assert(ids@[pos as int] == j);
                        }
                    }
                }
            }
        }
        proof {
            assert forall|a: int, b: int| 0 <= a < b < names.len() implies !comps_lt(spec_components(#[trigger] names[b]@), spec_components(#[trigger] names[a]@)) by {
                assert(comp_views(keys[a]@) == spec_components(names[a]@));
                assert(comp_views(keys[b]@) == spec_components(names[b]@));
            }
        }
        self.root_ids = ids;
        self.roots = names;
    }
}

impl VirtualTree {
    /// Builds the tree from candidate file paths, each taken in its normal
    /// form (so paths with the same components are one node).
    ///
    /// Every path is a file node; its ancestors, climbing by `Path::parent`
    /// while the parent is not empty and has at least two components, are
    /// directory nodes. The roots are the nodes without such a parent.
    pub fn from_paths(file_paths: &[String]) -> (t: Self)
        ensures
            t.wf(),
            t.inputs() == normal_forms(file_paths@),
            t.folders() == Seq::<Seq<char>>::empty(),
            t.roots_are_tree_roots(),
    {
        let mut t = Self::empty();
        for i in 0..file_paths.len()
            invariant
                t.core_ok(),
                t.inputs() == normal_forms(file_paths@.take(i as int)),
                t.folders() == Seq::<Seq<char>>::empty(),
                forall|a: int| 0 <= a < t.arena.paths.len() ==> #[trigger] t.extra[a]@.len() == 0,
        {
            let key = normalize(file_paths[i].as_str());
            let id = t.intern(key);
            t.mark_input(id);
            proof {
                assert(normal_forms(file_paths@.take(i + 1)) =~= normal_forms(file_paths@.take(i as int)).push(
                    normal_form(file_paths@[i as int]@),
                ));
            }
        }
        proof {
            assert(file_paths@.take(file_paths@.len() as int) =~= file_paths@);
        }
        t.compute_roots();
        proof {
            assert forall|i: int| 0 <= i < t.arena.paths.len() implies #[trigger] t.extra_paths(i)
                == extra_under(t.folders@, t.arena.paths[i]@) by {
                assert(t.extra[i]@.len() == 0);
                reveal(Seq::filter);
                assert(t.extra_paths(i) =~= Seq::<Seq<char>>::empty());
            }
            t.lemma_roots();
        }
        t
    }

    /// Registers the extra folders that the search may open outside the
    /// tree, each in its normal form, filing each under its `Path::parent`
    /// (unless that is empty). Folders registered before are dropped; the
    /// tree itself is kept.
    pub fn with_extra_folders(self, folder_paths: &[String]) -> (t: Self)
        requires
            self.wf(),
        ensures
            t.wf(),
            t.inputs() == self.inputs(),
            t.folders() == normal_forms(folder_paths@),
            t.root_paths() == self.root_paths(),
            forall|p: Seq<char>| #[trigger] t.tree_children(p) == self.tree_children(p),
    {
        let mut t = self;
        let ghost start = t;
        let mut fids: Vec<usize> = Vec::new();
        for i in 0..folder_paths.len()
            invariant
                t.core_ok(),
                t.roots_ok(),
                t.extends(&start),
                start.wf(),
                fids.len() == i,
                forall|a: int| 0 <= a < i ==> (#[trigger] fids[a] as int) < t.arena.paths.len()
                    && t.arena.paths[fids[a] as int]@ == normal_form(folder_paths@[a]@),
        {
            let ghost before = t;
            let key = normalize(folder_paths[i].as_str());
            let id = t.intern(key);
            fids.push(id);
            proof {
                assert forall|j: int| 0 <= j < t.arena.paths.len() implies (#[trigger] t.root_ids@.contains(j as usize) <==> (t.tree_node[j]
                    && t.arena.tparent(j) is None)) by {
                    if j < before.arena.paths.len() {
                        assert(before.arena.parent_ok(j));
                        assert(t.arena.tparent(j) == before.arena.tparent(j));
                        assert(before.roots_ok());
                        assert(before.root_ids@.contains(j as usize) <==> (before.tree_node[j] && before.arena.tparent(j) is None));
                    } else if t.root_ids@.contains(j as usize) {
                        let m = choose|m: int| 0 <= m < t.root_ids@.len() && t.root_ids@[m] == j as usize;
                        assert(before.root_ids[m] < before.arena.paths.len());
                    }
                }
                assert forall|a: int| 0 <= a < t.roots.len() implies #[trigger] t.roots[a]@ == t.arena.paths[t.root_ids[a] as int]@ by {
                    assert(before.roots[a]@ == before.arena.paths[before.root_ids[a] as int]@);
                }
            }
        }
        let ghost mid = t;
        proof {
            assert forall|p: Seq<char>| #[trigger] mid.tree_children(p) == start.tree_children(p) by {
                if start.arena.index@.contains_key(p) {
                    let i = start.arena.index@[p] as int;
                    assert(mid.arena.index@[p] == i);
                    assert(start.kids_ok());
                    assert(mid.kids[i] == start.kids[i]);
                    assert forall|a: int| 0 <= a < start.kids[i].len() implies mid.arena.paths[start.kids[i][a] as int]
                        == start.arena.paths[start.kids[i][a] as int] by {
                        assert((start.kids[i][a] as int) < start.arena.paths.len());
                    }
                    assert(mid.kid_paths(i) =~= start.kid_paths(i));
                } else if mid.arena.index@.contains_key(p) {
                    let i = mid.arena.index@[p] as int;
                    if i < start.arena.paths.len() {
                        assert(mid.arena.paths[i] == start.arena.paths[i]);
                        assert(start.arena.index@.contains_key(start.arena.paths[i]@));
                    }
                    assert(mid.kid_paths(i) =~= Seq::<Seq<char>>::empty());
                }
            }
        }
        let n = t.arena.paths.len();
        for i in 0..n
            invariant
                n == t.arena.paths.len(),
                t.arena == mid.arena,
                t.kids == mid.kids,
                t.core_ok(),
                t.roots_ok(),
                t.inputs == start.inputs,
                t.roots == start.roots,
                forall|a: int| 0 <= a < i ==> #[trigger] t.extra[a]@.len() == 0,
                fids.len() == folder_paths.len(),
                forall|a: int| 0 <= a < fids.len() ==> (#[trigger] fids[a] as int) < t.arena.paths.len()
                    && t.arena.paths[fids[a] as int]@ == normal_form(folder_paths@[a]@),
        {
            let ghost before = t;
            t.extra.set(i, Vec::new());
            proof {
                assert(t.kids_ok()) by {
                    assert forall|x: int| 0 <= x < t.arena.paths.len() implies #[trigger] t.kids[x] == before.kids[x] by {}
                }
            }
        }
        t.folders = Ghost(Seq::empty());
        let ghost fv = normal_forms(folder_paths@);
        proof {
            assert forall|i: int| 0 <= i < t.arena.paths.len() implies #[trigger] t.extra_paths(i)
                == extra_under(normal_forms(folder_paths@).take(0), t.arena.paths[i]@) by {
                reveal(Seq::filter);
                assert(normal_forms(folder_paths@).take(0) =~= Seq::<Seq<char>>::empty());
                assert(t.extra_paths(i) =~= Seq::<Seq<char>>::empty());
            }
        }
        let mut j: usize = 0;
        while j < folder_paths.len()
            invariant
                j <= folder_paths.len(),
                n == t.arena.paths.len(),
                fv == normal_forms(folder_paths@),
                t.arena == mid.arena,
                t.kids == mid.kids,
                t.inputs == start.inputs,
                t.roots == start.roots,
                t.core_ok(),
                t.roots_ok(),
                fids.len() == folder_paths.len(),
                forall|a: int| 0 <= a < fids.len() ==> (#[trigger] fids[a] as int) < t.arena.paths.len()
                    && t.arena.paths[fids[a] as int]@ == normal_form(folder_paths@[a]@),
                forall|i: int| 0 <= i < t.arena.paths.len() ==> forall|a: int| 0 <= a < #[trigger] t.extra[i].len()
                    ==> (t.extra[i][a] as int) < t.arena.paths.len(),
                forall|i: int| 0 <= i < t.arena.paths.len() ==> #[trigger] t.extra_paths(i)
                    == extra_under(fv.take(j as int), t.arena.paths[i]@),
            decreases folder_paths.len() - j,
        {
            let d = fids[j];
            proof {
                t.arena.lemma_tparent(d as int);
                assert(t.arena.parent_ok(d as int));
                assert(fv.take(j + 1) =~= fv.take(j as int).push(fv[j as int]));
                assert(fv[j as int] == t.arena.paths[d as int]@);
            }
            let ghost before = t;
            match t.arena.parent_id[d] {
                Some(p) => {
                    if !t.arena.paths[p].as_str().is_empty() {
                        t.extra[p].push(d);
                    }
                },
                None => {},
            }
            proof {
                assert forall|i: int| 0 <= i < t.arena.paths.len() implies forall|a: int| 0 <= a < #[trigger] t.extra[i].len()
                    ==> (t.extra[i][a] as int) < t.arena.paths.len() by {
                    assert forall|a: int| 0 <= a < t.extra[i].len() implies (t.extra[i][a] as int) < t.arena.paths.len() by {
                        if a < before.extra[i].len() {
                            assert(t.extra[i][a] == before.extra[i][a]);
                        }
                    }
                }
                assert forall|i: int| 0 <= i < t.arena.paths.len() implies #[trigger] t.extra_paths(i)
                    == extra_under(fv.take(j + 1), t.arena.paths[i]@) by {
                    let pi = t.arena.paths[i]@;
                    let pred = |x: Seq<char>| pi.len() > 0 && spec_parent(x) == Some(pi);
                    fv.take(j as int).lemma_filter_push(fv[j as int], pred);
                    assert(before.extra_paths(i) == extra_under(fv.take(j as int), pi));
                    if pred(fv[j as int]) {
                        assert(t.arena.index@[pi] == i);
                        assert(t.extra_paths(i) =~= before.extra_paths(i).push(t.arena.paths[d as int]@));
                    } else {
                        assert(t.extra_paths(i) =~= before.extra_paths(i));
                    }
                }
            }
            j = j + 1;
        }
        let ghost before_f = t;
        t.folders = Ghost(fv);
        proof {
            assert(fv.take(folder_paths@.len() as int) =~= fv);
            assert(t.core_ok());
            assert(t.roots_ok());
            assert forall|i: int| 0 <= i < t.arena.paths.len() implies #[trigger] t.extra_paths(i)
                == extra_under(t.folders@, t.arena.paths[i]@) by {
                assert(before_f.extra_paths(i) == extra_under(fv.take(folder_paths@.len() as int), before_f.arena.paths[i]@));
                assert(t.extra_paths(i) =~= before_f.extra_paths(i));
            }
            assert forall|a: int| 0 <= a < fv.len() implies #[trigger] t.arena.index@.contains_key(fv[a]) by {
                assert(fv[a] == t.arena.paths[fids[a] as int]@);
            }
            assert forall|p: Seq<char>| #[trigger] t.tree_children(p) == start.tree_children(p) by {
                assert(mid.tree_children(p) == start.tree_children(p));
            }
        }
        t
    }
}

impl PathArena {
    /// The node of `path`, if it has one.
    pub(crate) fn find(&self, path: &str) -> (r: Option<usize>)
        requires
            self.base_ok(),
        ensures
            match r {
                Some(i) => self.index@.contains_key(path@) && i == self.index@[path@] && (i as int) < self.paths.len()
                    && self.paths[i as int]@ == path@,
                None => !self.index@.contains_key(path@),
            },
    {
        match self.index.get(path) {
            Some(v) => Some(*v),
            None => None,
        }
    }
}

/// Whether `v` holds a string equal to `s`.
fn contains_string(v: &Vec<String>, s: &String) -> (r: bool)
    ensures
        r == views(v@).contains(s@),
{
    let mut i: usize = 0;
    while i < v.len()
        invariant
            i <= v.len(),
            forall|a: int| 0 <= a < i ==> v@[a]@ != s@,
        decreases v.len() - i,
    {
        if v[i] == *s {
            assert(views(v@)[i as int] == s@);
            return true;
        }
        i = i + 1;
    }
    proof {
        if views(v@).contains(s@) {
            let a = choose|a: int| 0 <= a < views(v@).len() && views(v@)[a] == s@;
            assert(v@[a]@ == s@);
        }
    }
    false
}

impl VirtualTree {
    /// The direct children of `path` in the tree, compared by components
    /// (none for a path outside it).
    pub fn children_of(&self, path: &str) -> (r: Vec<String>)
        requires
            self.wf(),
        ensures
            views(r@) == self.tree_children(normal_form(path@)),
            no_dups(views(r@)),
            forall|c: Seq<char>| views(r@).contains(c) <==> (in_tree(self.inputs(), c) && tree_parent(c) == Some(normal_form(path@))),
    {
        let key = normalize(path);
        self.children_of_key(key.as_str())
    }

    /// The direct children of the node whose path is `path` exactly.
    fn children_of_key(&self, path: &str) -> (r: Vec<String>)
        requires
            self.wf(),
        ensures
            views(r@) == self.tree_children(path@),
            no_dups(views(r@)),
            forall|c: Seq<char>| views(r@).contains(c) <==> (in_tree(self.inputs(), c) && tree_parent(c) == Some(path@)),
    {
        let mut r: Vec<String> = Vec::new();
        match self.arena.find(path) {
            Some(i) => {
                let ks = &self.kids[i];
                let mut a: usize = 0;
                while a < ks.len()
                    invariant
                        self.wf(),
                        (i as int) < self.arena.paths.len(),
                        ks == &self.kids[i as int],
                        a <= ks.len(),
                        views(r@) == self.kid_paths(i as int).take(a as int),
                    decreases ks.len() - a,
                {
                    assert(self.kids_ok());
                    let d = ks[a];
                    let ghost r0 = r@;
                    let c = self.arena.paths[d].clone();
                    r.push(c);
                    proof {
                        assert(c@ == self.kid_paths(i as int)[a as int]);
                        assert(views(r@) =~= views(r0).push(c@));
                        assert(self.kid_paths(i as int).take(a + 1) =~= self.kid_paths(i as int).take(a as int).push(self.kid_paths(i as int)[a as int]));
                    }
                    a = a + 1;
                }
                proof {
                    assert(self.kid_paths(i as int).take(ks.len() as int) =~= self.kid_paths(i as int));
                    self.lemma_kid_paths(i as int);
                }
            },
            None => {
                proof {
                    assert(views(r@) =~= Seq::<Seq<char>>::empty());
                    assert forall|c: Seq<char>| !(in_tree(self.inputs(), c) && tree_parent(c) == Some(path@)) by {
                        if in_tree(self.inputs(), c) && tree_parent(c) == Some(path@) {
                            lemma_in_tree_parent(self.inputs(), c);
                            assert(self.arena.index@.contains_key(path@));
                        }
                    }
                }
            },
        }
        r
    }

    /// The children of a node, as paths: distinct, and exactly the tree nodes
    /// whose tree parent it is.
    proof fn lemma_kid_paths(&self, i: int)
        requires
            self.wf(),
            0 <= i < self.arena.paths.len(),
        ensures
            no_dups(self.kid_paths(i)),
            forall|c: Seq<char>| self.kid_paths(i).contains(c) <==> (in_tree(self.inputs(), c) && tree_parent(c) == Some(self.arena.paths[i]@)),
    {
        let kp = self.kid_paths(i);
        let ks = self.kids[i]@;
        assert(no_dups(ks));
        assert forall|a: int, b: int| 0 <= a < b < kp.len() implies kp[a] != kp[b] by {
            assert(self.arena.index@[self.arena.paths[ks[a] as int]@] == ks[a]);
            assert(self.arena.index@[self.arena.paths[ks[b] as int]@] == ks[b]);
        }
        assert forall|c: Seq<char>| kp.contains(c) <==> (in_tree(self.inputs(), c) && tree_parent(c) == Some(self.arena.paths[i]@)) by {
            if kp.contains(c) {
                let a = choose|a: int| 0 <= a < kp.len() && kp[a] == c;
                let j = ks[a] as int;
                assert(ks.contains(j as usize));
                self.arena.lemma_tparent(j);
            }
            if in_tree(self.inputs(), c) && tree_parent(c) == Some(self.arena.paths[i]@) {
                assert(self.arena.index@.contains_key(c));
                let j = self.arena.index@[c] as int;
                self.arena.lemma_tparent(j);
                assert(self.arena.index@[self.arena.paths[i]@] == i);
                assert(ks.contains(j as usize));
                let a = choose|a: int| 0 <= a < ks.len() && ks[a] == j as usize;
                assert(kp[a] == c);
            }
        }
    }

    /// Whether `path` is one of the candidate files, compared by components.
    pub fn is_file(&self, path: &str) -> (r: bool)
        requires
            self.wf(),
        ensures
            r == self.inputs().contains(normal_form(path@)),
    {
        let key = normalize(path);
        let path = key.as_str();
        match self.arena.find(path) {
            Some(i) => self.file[i],
            None => {
                proof {
                    if self.inputs().contains(path@) {
                        let k = choose|k: int| 0 <= k < self.inputs().len() && self.inputs()[k] == path@;
                        assert(tree_ancestor(self.inputs()[k], 0) == Some(path@));
                    }
                }
                false
            },
        }
    }

    /// Whether `path` is a node of the tree built from the candidates,
    /// compared by components.
    pub fn in_phase1(&self, path: &str) -> (r: bool)
        requires
            self.wf(),
        ensures
            r == in_tree(self.inputs(), normal_form(path@)),
    {
        let key = normalize(path);
        self.in_phase1_key(key.as_str())
    }

    /// Whether the node whose path is `path` exactly is a tree node.
    fn in_phase1_key(&self, path: &str) -> (r: bool)
        requires
            self.wf(),
        ensures
            r == in_tree(self.inputs(), path@),
    {
        match self.arena.find(path) {
            Some(i) => self.tree_node[i],
            None => false,
        }
    }

    /// The number of distinct candidate files.
    pub fn phase1_file_count(&self) -> (r: usize)
        requires
            self.wf(),
        ensures
            r == self.inputs().to_set().len(),
    {
        self.n_files
    }
}

impl VirtualTree {
    /// Where the search may go from `path`, taken in its normal form: its
    /// tree children; the extra folders filed under its parent (other than
    /// itself); and its parent, if that is not a tree node.
    pub fn expand(&self, path: &str) -> (r: Vec<String>)
        requires
            self.wf(),
        ensures
            views(r@) == self.spec_expand(normal_form(path@)),
    {
        let key = normalize(path);
        self.expand_key(key.as_str())
    }

    /// Where the search may go from the node whose path is `path` exactly.
    fn expand_key(&self, path: &str) -> (r: Vec<String>)
        requires
            self.wf(),
        ensures
            views(r@) == self.spec_expand(path@),
    {
        let mut result = self.children_of_key(path);
        let ghost base = views(result@);
        let par = path_parent(path);
        match par {
            None => result,
            Some(pp) => {
                let path_s = path.to_owned();
                match self.arena.find(pp.as_str()) {
                    Some(pi) => {
                        let sibs = &self.extra[pi];
                        let mut a: usize = 0;
                        while a < sibs.len()
                            invariant
                                self.wf(),
                                (pi as int) < self.arena.paths.len(),
                                self.arena.paths[pi as int]@ == pp@,
                                sibs == &self.extra[pi as int],
                                path_s@ == path@,
                                a <= sibs.len(),
                                views(result@) == add_siblings(base, self.extra_paths(pi as int).take(a as int), path@),
                            decreases sibs.len() - a,
                        {
                            let d = sibs[a];
                            let ghost prev = self.extra_paths(pi as int).take(a as int);
                            proof {
                                assert(self.extra_paths(pi as int).take(a + 1).drop_last() =~= prev);
                                assert(self.extra_paths(pi as int).take(a + 1).last() == self.arena.paths[d as int]@);
                            }
                            let s = &self.arena.paths[d];
                            if *s != path_s && !contains_string(&result, s) {
                                let ghost r0 = result@;
                                result.push(s.clone());
                                proof {
                                    assert(views(result@) =~= views(r0).push(s@));
                                }
                            }
                            a = a + 1;
                        }
                        proof {
                            assert(self.extra_paths(pi as int).take(sibs.len() as int) =~= self.extra_paths(pi as int));
                        }
                    },
                    None => {
                        proof {
                            broadcast use vstd::seq_lib::group_filter_ensures;

                            let ex = extra_under(self.folders(), pp@);
                            if ex.len() > 0 {
                                let x = ex[0];
                                assert(ex.contains(x));
                                self.folders().lemma_filter_contains_rev(|d: Seq<char>| pp@.len() > 0 && spec_parent(d) == Some(pp@), x);
                                let k = choose|k: int| 0 <= k < self.folders().len() && self.folders()[k] == x;
                                assert(self.arena.index@.contains_key(x));
                                assert(self.arena.parent_ok(self.arena.index@[x] as int));
                            }
                            assert(ex =~= Seq::<Seq<char>>::empty());
                            assert(add_siblings(base, Seq::<Seq<char>>::empty(), path@) == base);
                        }
                    },
                }
                if !self.in_phase1_key(pp.as_str()) && !contains_string(&result, &pp) {
                    let ghost r0 = result@;
                    result.push(pp);
                    proof {
                        assert(views(result@) =~= views(r0).push(pp@));
                    }
                }
                result
            },
        }
    }
}

/// Adding siblings keeps what was there and adds only siblings.
proof fn lemma_add_siblings(acc: Seq<Seq<char>>, sibs: Seq<Seq<char>>, path: Seq<char>, x: Seq<char>)
    ensures
        acc.contains(x) ==> add_siblings(acc, sibs, path).contains(x),
        add_siblings(acc, sibs, path).contains(x) ==> acc.contains(x) || sibs.contains(x),
    decreases sibs.len(),
{
    if sibs.len() > 0 {
        lemma_add_siblings(acc, sibs.drop_last(), path, x);
        let before = add_siblings(acc, sibs.drop_last(), path);
        if before.contains(x) {
            let k = choose|k: int| 0 <= k < before.len() && before[k] == x;
            assert(before.push(sibs.last())[k] == x);
        }
        if push_absent(before, sibs.last()).contains(x) && !before.contains(x) {
            let k = choose|k: int| 0 <= k < push_absent(before, sibs.last()).len() && push_absent(before, sibs.last())[k] == x;
            assert(x == sibs.last());
            assert(sibs[sibs.len() - 1] == x);
        }
        if sibs.drop_last().contains(x) {
            let k = choose|k: int| 0 <= k < sibs.drop_last().len() && sibs.drop_last()[k] == x;
            assert(sibs[k] == x);
        }
    }
}

impl VirtualTree {
    /// Where the search may go from node `u`, as node indices: every path that
    /// `expand` gives for it, which includes all its tree children.
    pub(crate) fn expand_ids(&self, u: usize) -> (r: Vec<usize>)
        requires
            self.wf(),
            (u as int) < self.arena.paths.len(),
        ensures
            forall|a: int| 0 <= a < r.len() ==> (#[trigger] r[a] as int) < self.arena.paths.len(),
            forall|x: int| 0 <= x < self.arena.paths.len() && self.tree_node[x] && self.arena.tparent(x) == Some(u)
                ==> #[trigger] r@.contains(x as usize),
            self.id_paths(r@) == self.spec_expand(self.arena.paths[u as int]@),
    {
        let paths = self.expand_key(self.arena.paths[u].as_str());
        let ghost pu = self.arena.paths[u as int]@;
        let ghost ex = self.spec_expand(pu);
        proof {
            assert(self.arena.index@[pu] == u);
            // every tree child of u is in the expansion
            assert forall|x: int| 0 <= x < self.arena.paths.len() && self.tree_node[x] && self.arena.tparent(x) == Some(u)
                implies ex.contains(self.arena.paths[x]@) by {
                self.arena.lemma_tparent(x);
                self.lemma_kid_paths(u as int);
                assert(self.tree_children(pu).contains(self.arena.paths[x]@));
                match spec_parent(pu) {
                    None => {},
                    Some(pp) => {
                        lemma_add_siblings(self.tree_children(pu), extra_under(self.folders(), pp), pu, self.arena.paths[x]@);
                        let ws = add_siblings(self.tree_children(pu), extra_under(self.folders(), pp), pu);
                        if !in_tree(self.inputs(), pp) && !ws.contains(pp) {
                            let k = choose|k: int| 0 <= k < ws.len() && ws[k] == self.arena.paths[x]@;
                            assert(ws.push(pp)[k] == self.arena.paths[x]@);
                        }
                    },
                }
            }
            // every path of the expansion is in the arena
            assert forall|b: int| 0 <= b < ex.len() implies self.arena.index@.contains_key(#[trigger] ex[b]) by {
                let c = ex[b];
                assert(ex.contains(c));
                let base = self.tree_children(pu);
                self.lemma_kid_paths(u as int);
                assert(self.arena.parent_ok(u as int));
                match spec_parent(pu) {
                    None => {
                        assert(base.contains(c));
                        lemma_in_tree_parent(self.inputs(), c);
                    },
                    Some(pp) => {
                        let sibs = extra_under(self.folders(), pp);
                        let ws = add_siblings(base, sibs, pu);
                        lemma_add_siblings(base, sibs, pu, c);
                        if ws.contains(c) {
                            if base.contains(c) {
                                lemma_in_tree_parent(self.inputs(), c);
                            } else {
                                assert(sibs.contains(c));
                                broadcast use vstd::seq_lib::group_filter_ensures;
                                self.folders().lemma_filter_contains_rev(|d: Seq<char>| pp.len() > 0 && spec_parent(d) == Some(pp), c);
                                let k = choose|k: int| 0 <= k < self.folders().len() && self.folders()[k] == c;
                                assert(self.folders@[k] == c);
                            }
                        } else {
                            assert(c == pp);
                        }
                    },
                }
            }
        }
        let mut r: Vec<usize> = Vec::new();
        let mut a: usize = 0;
        while a < paths.len()
            invariant
                self.wf(),
                views(paths@) == ex,
                a <= paths.len(),
                forall|b: int| 0 <= b < r.len() ==> (#[trigger] r[b] as int) < self.arena.paths.len(),
                forall|b: int| 0 <= b < a && self.arena.index@.contains_key(#[trigger] paths@[b]@)
                    ==> r@.contains(self.arena.index@[paths@[b]@]),
                forall|b: int| 0 <= b < ex.len() ==> self.arena.index@.contains_key(#[trigger] ex[b]),
                self.id_paths(r@) == ex.take(a as int),
            decreases paths.len() - a,
        {
            let ghost r0 = r@;
            proof {
                assert(ex[a as int] == paths@[a as int]@);
            }
            match self.arena.find(paths[a].as_str()) {
                Some(id) => {
                    r.push(id);
                    proof {
                        assert(r@[r0.len() as int] == id);
                        assert(r@ == r0.push(id));
                        let m0 = self.id_paths(r0);
                        assert(m0 == ex.take(a as int));
                        assert(m0.len() == a);
                        assert forall|j: int| 0 <= j < a + 1 implies #[trigger] self.id_paths(r@)[j] == ex.take(a + 1)[j] by {
                            if j < a {
                                assert(r@[j] == r0[j]);
                                assert(m0[j] == ex.take(a as int)[j]);
                            }
                        }
                        assert(self.id_paths(r@) =~= ex.take(a + 1));
                    }
                },
                None => {},
            }
            proof {
                assert forall|b: int| 0 <= b < a + 1 && self.arena.index@.contains_key(#[trigger] paths@[b]@)
                    implies r@.contains(self.arena.index@[paths@[b]@]) by {
                    if b < a {
                        let k = choose|k: int| 0 <= k < r0.len() && r0[k] == self.arena.index@[paths@[b]@];
                        assert(r@[k] == r0[k]);
                    }
                }
            }
            a = a + 1;
        }
        proof {
            assert forall|x: int| 0 <= x < self.arena.paths.len() && self.tree_node[x] && self.arena.tparent(x) == Some(u)
                implies #[trigger] r@.contains(x as usize) by {
                let c = self.arena.paths[x]@;
                assert(ex.contains(c));
                let b = choose|b: int| 0 <= b < ex.len() && ex[b] == c;
                assert(views(paths@)[b] == paths@[b]@);
                assert(self.arena.index@.contains_key(paths@[b]@));
                assert(self.arena.index@[c] == x);
            }
            assert(ex.take(paths.len() as int) =~= ex);
        }
        r
    }
}

impl PathArena {
    pub(crate) open spec fn parent_ok(&self, i: int) -> bool {
        match spec_parent(self.paths[i]@) {
            None => self.parent_id[i] is None,
            Some(q) => self.parent_id[i] matches Some(j) && (j as int) < self.paths.len() && self.paths[j as int]@ == q
                && q.len() < self.paths[i]@.len(),
        }
    }

    /// The tree parent of node `i`, as an index.
    pub(crate) open spec fn tparent(&self, i: int) -> Option<usize> {
        match self.parent_id[i] {
            Some(j) => if self.paths[j as int]@.len() > 0 && self.depth[j as int] >= 2 {
                Some(j)
            } else {
                None
            },
            None => None,
        }
    }

    /// The tree parent of a node, by index, is the node of its tree parent path.
    proof fn lemma_tparent(&self, i: int)
        requires
            self.nodes_ok(),
            0 <= i < self.paths.len(),
        ensures
            match self.tparent(i) {
                Some(j) => (j as int) < self.paths.len() && tree_parent(self.paths[i]@) == Some(self.paths[j as int]@)
                    && self.paths[j as int]@.len() < self.paths[i]@.len(),
                None => tree_parent(self.paths[i]@) is None,
            },
            self.parent_id[i] matches Some(j) ==> (j as int) < self.paths.len(),
    {
        assert(self.parent_ok(i));
        if let Some(j) = self.parent_id[i] {
            assert(self.depth[j as int] == spec_component_count(self.paths[j as int]@));
        }
    }

    /// The tree ancestors of a node are nodes.
    proof fn lemma_ancestor_indexed(&self, p: Seq<char>, j: nat)
        requires
            self.nodes_ok(),
            self.index@.contains_key(p),
        ensures
            tree_ancestor(p, j) matches Some(q) ==> self.index@.contains_key(q),
        decreases j,
    {
        if j > 0 {
            self.lemma_ancestor_indexed(p, (j - 1) as nat);
            if let Some(q) = tree_ancestor(p, (j - 1) as nat) {
                let i = self.index@[q] as int;
                self.lemma_tparent(i);
            }
        }
    }

    /// Along the tree ancestors of a node, paths get shorter.
    proof fn lemma_chain_len(&self, p: Seq<char>, m: nat, d: nat)
        requires
            self.nodes_ok(),
            self.index@.contains_key(p),
            d > 0,
            tree_ancestor(p, m + d) is Some,
        ensures
            tree_ancestor(p, m) is Some,
            tree_ancestor(p, m + d)->0.len() < tree_ancestor(p, m)->0.len(),
        decreases d,
    {
        let q = tree_ancestor(p, (m + d - 1) as nat);
        lemma_ancestor_some_below(p, (m + d - 1) as nat, m + d);
        self.lemma_ancestor_indexed(p, (m + d - 1) as nat);
        let i = self.index@[q->0] as int;
        self.lemma_tparent(i);
        if d > 1 {
            self.lemma_chain_len(p, m, (d - 1) as nat);
            assert((m + (d - 1)) as nat == (m + d - 1) as nat);
        }
    }

    /// A chain of distinct tree ancestors never meets itself.
    proof fn lemma_chain_shrinks(&self, p: Seq<char>, m: nat, k: nat)
        requires
            self.nodes_ok(),
            self.index@.contains_key(p),
            m < k,
            tree_ancestor(p, k) is Some,
        ensures
            tree_ancestor(p, m) != tree_ancestor(p, k),
    {
        self.lemma_chain_len(p, m, (k - m) as nat);
        assert(m + (k - m) as nat == k);
    }

    /// The tree parent of node `i`, by index.
    pub(crate) fn tree_parent_of(&self, i: usize) -> (r: Option<usize>)
        requires
            self.nodes_ok(),
            (i as int) < self.paths.len(),
        ensures
            r == self.tparent(i as int),
            r matches Some(j) ==> (j as int) < self.paths.len(),
    {
        proof {
            self.lemma_tparent(i as int);
        }
        match self.parent_id[i] {
            Some(j) => {
                if !self.paths[j].as_str().is_empty() && self.depth[j] >= 2 {
                    Some(j)
                } else {
                    None
                }
            },
            None => None,
        }
    }

    pub(crate) open spec fn base_ok(&self) -> bool {
        &&& self.parent_id.len() == self.paths.len()
        &&& self.depth.len() == self.paths.len()
        &&& forall|i: int| 0 <= i < self.paths.len() ==> self.index@.contains_key(#[trigger] self.paths[i]@)
            && self.index@[self.paths[i]@] == i
        &&& forall|k: Seq<char>| #[trigger] self.index@.contains_key(k) ==> (self.index@[k] as int) < self.paths.len()
            && self.paths[self.index@[k] as int]@ == k
        &&& forall|i: int| 0 <= i < self.paths.len() ==> #[trigger] self.depth[i] == spec_component_count(self.paths[i]@)
    }

    pub(crate) open spec fn nodes_ok(&self) -> bool {
        &&& self.base_ok()
        &&& forall|i: int| 0 <= i < self.paths.len() ==> #[trigger] self.parent_ok(i)
    }
}

impl VirtualTree {
    /// The candidate file paths that the tree was built from.
    pub closed spec fn inputs(&self) -> Seq<Seq<char>> {
        self.inputs@
    }

    /// The extra folders registered with `with_extra_folders`.
    pub closed spec fn folders(&self) -> Seq<Seq<char>> {
        self.folders@
    }

    pub(crate) open spec fn path_of(&self, i: int) -> Seq<char> {
        self.arena.paths[i]@
    }

    pub(crate) open spec fn lengths_ok(&self) -> bool {
        &&& self.tree_node.len() == self.arena.paths.len()
        &&& self.file.len() == self.arena.paths.len()
        &&& self.kids.len() == self.arena.paths.len()
        &&& self.extra.len() == self.arena.paths.len()
    }

    pub(crate) open spec fn nodes_ok(&self) -> bool {
        &&& self.arena.nodes_ok()
        &&& self.lengths_ok()
    }

    pub(crate) open spec fn nodes_base_ok(&self) -> bool {
        &&& self.arena.base_ok()
        &&& self.lengths_ok()
    }

    pub(crate) open spec fn flags_ok(&self) -> bool {
        &&& forall|i: int| 0 <= i < self.arena.paths.len() ==> (#[trigger] self.tree_node[i] <==> in_tree(self.inputs@, self.arena.paths[i]@))
        &&& forall|i: int| 0 <= i < self.arena.paths.len() ==> (#[trigger] self.file[i] <==> self.inputs@.contains(self.arena.paths[i]@))
        &&& forall|p: Seq<char>| in_tree(self.inputs@, p) ==> #[trigger] self.arena.index@.contains_key(p)
        &&& self.n_files == self.inputs@.to_set().len()
    }

    pub(crate) open spec fn kids_ok(&self) -> bool {
        forall|i: int| 0 <= i < self.arena.paths.len() ==> {
            &&& no_dups(#[trigger] self.kids[i]@)
            &&& forall|j: int| 0 <= j < self.kids[i].len() ==> (self.kids[i][j] as int) < self.arena.paths.len()
            &&& forall|j: int| 0 <= j < self.arena.paths.len() ==> (self.kids[i]@.contains(j as usize) <==> (self.tree_node[j]
                && self.arena.tparent(j) == Some(i as usize)))
        }
    }

    /// `self` has the nodes of `old` unchanged, and possibly more nodes that
    /// belong to no tree and hold no children.
    pub(crate) open spec fn extends(&self, old: &Self) -> bool {
        &&& old.arena.paths.len() <= self.arena.paths.len()
        &&& forall|i: int| 0 <= i < old.arena.paths.len() ==> #[trigger] self.arena.paths[i] == old.arena.paths[i]
        &&& forall|i: int| 0 <= i < old.arena.paths.len() ==> #[trigger] self.arena.parent_id[i] == old.arena.parent_id[i]
        &&& forall|i: int| 0 <= i < old.arena.paths.len() ==> #[trigger] self.arena.depth[i] == old.arena.depth[i]
        &&& forall|i: int| 0 <= i < old.arena.paths.len() ==> #[trigger] self.tree_node[i] == old.tree_node[i]
        &&& forall|i: int| 0 <= i < old.arena.paths.len() ==> #[trigger] self.file[i] == old.file[i]
        &&& forall|i: int| 0 <= i < old.arena.paths.len() ==> #[trigger] self.kids[i] == old.kids[i]
        &&& forall|i: int| 0 <= i < old.arena.paths.len() ==> #[trigger] self.extra[i] == old.extra[i]
        &&& forall|i: int| old.arena.paths.len() <= i < self.arena.paths.len() ==> !#[trigger] self.tree_node[i]
        &&& forall|i: int| old.arena.paths.len() <= i < self.arena.paths.len() ==> !#[trigger] self.file[i]
        &&& forall|i: int| old.arena.paths.len() <= i < self.arena.paths.len() ==> #[trigger] self.kids[i]@.len() == 0
        &&& forall|i: int| old.arena.paths.len() <= i < self.arena.paths.len() ==> #[trigger] self.extra[i]@.len() == 0
        &&& forall|k: Seq<char>| #[trigger] old.arena.index@.contains_key(k) ==> self.arena.index@.contains_key(k)
            && self.arena.index@[k] == old.arena.index@[k]
        &&& self.inputs == old.inputs
        &&& self.folders == old.folders
        &&& self.n_files == old.n_files
        &&& self.root_ids == old.root_ids
        &&& self.roots == old.roots
    }

    pub(crate) open spec fn roots_ok(&self) -> bool {
        &&& self.roots.len() == self.root_ids.len()
        &&& forall|a: int| 0 <= a < self.root_ids.len() ==> (#[trigger] self.root_ids[a] as int) < self.arena.paths.len()
        &&& forall|a: int| 0 <= a < self.root_ids.len() ==> #[trigger] self.roots[a]@ == self.arena.paths[self.root_ids[a] as int]@
        &&& forall|a: int, b: int| 0 <= a < b < self.roots.len() ==> !comps_lt(spec_components(#[trigger] self.roots[b]@), spec_components(#[trigger] self.roots[a]@))
        &&& no_dups(self.root_ids@)
        &&& forall|j: int| 0 <= j < self.arena.paths.len() ==> (#[trigger] self.root_ids@.contains(j as usize) <==> (self.tree_node[j]
            && self.arena.tparent(j) is None))
    }

    /// The paths of nodes given by their indices.
    pub(crate) open spec fn id_paths(&self, ids: Seq<usize>) -> Seq<Seq<char>> {
        ids.map_values(|i: usize| self.arena.paths[i as int]@)
    }

    /// The paths of the children of node `i`, in arena order.
    pub(crate) open spec fn kid_paths(&self, i: int) -> Seq<Seq<char>> {
        self.kids[i]@.map_values(|d: usize| self.arena.paths[d as int]@)
    }

    /// The children of `p` in the tree, in the order in which the builder met them.
    pub closed spec fn tree_children(&self, p: Seq<char>) -> Seq<Seq<char>> {
        if self.arena.index@.contains_key(p) {
            self.kid_paths(self.arena.index@[p] as int)
        } else {
            Seq::empty()
        }
    }

    /// What `expand` gives for `path`: the tree children of `path`; then the
    /// extra folders filed under its parent, other than `path` and not given
    /// already; then the parent itself, if it is not a tree node and not given
    /// already.
    pub open spec fn spec_expand(&self, path: Seq<char>) -> Seq<Seq<char>> {
        let base = self.tree_children(path);
        match spec_parent(path) {
            None => base,
            Some(pp) => {
                let with_sibs = add_siblings(base, extra_under(self.folders(), pp), path);
                if !in_tree(self.inputs(), pp) && !with_sibs.contains(pp) {
                    with_sibs.push(pp)
                } else {
                    with_sibs
                }
            },
        }
    }

    /// The paths of the extra folders filed under node `i`.
    pub(crate) open spec fn extra_paths(&self, i: int) -> Seq<Seq<char>> {
        self.extra[i]@.map_values(|d: usize| self.arena.paths[d as int]@)
    }

    pub(crate) open spec fn extra_ok(&self) -> bool {
        &&& forall|i: int| 0 <= i < self.arena.paths.len() ==> forall|a: int| 0 <= a < #[trigger] self.extra[i].len()
            ==> (self.extra[i][a] as int) < self.arena.paths.len()
        &&& forall|i: int| 0 <= i < self.arena.paths.len() ==> #[trigger] self.extra_paths(i)
            == extra_under(self.folders@, self.arena.paths[i]@)
        &&& forall|a: int| 0 <= a < self.folders@.len() ==> #[trigger] self.arena.index@.contains_key(self.folders@[a])
    }

    /// The tree is well formed: its arena agrees with its inputs and folders.
    pub closed spec fn wf(&self) -> bool {
        &&& self.core_ok()
        &&& self.roots_ok()
        &&& self.extra_ok()
    }

    /// What well-formedness consists of.
    pub(crate) proof fn lemma_wf(&self)
        ensures
            self.wf() <==> (self.core_ok() && self.roots_ok() && self.extra_ok()),
            self.inputs() == self.inputs@,
            self.folders() == self.folders@,
    {
    }

    pub(crate) open spec fn core_ok(&self) -> bool {
        &&& self.nodes_ok()
        &&& self.flags_ok()
        &&& self.kids_ok()
    }
}

impl VirtualTree {
    /// A tree with no nodes.
    fn empty() -> (t: Self)
        ensures
            t.core_ok(),
            t.arena.paths.len() == 0,
            t.inputs() == Seq::<Seq<char>>::empty(),
            t.folders() == Seq::<Seq<char>>::empty(),
            t.root_ids.len() == 0,
            t.roots.len() == 0,
    {
        let t = VirtualTree {
            arena: PathArena {
                paths: Vec::new(),
                index: StringHashMap::new(),
                parent_id: Vec::new(),
                depth: Vec::new(),
            },
            tree_node: Vec::new(),
            file: Vec::new(),
            kids: Vec::new(),
            extra: Vec::new(),
            root_ids: Vec::new(),
            n_files: 0,
            roots: Vec::new(),
            inputs: Ghost(Seq::empty()),
            folders: Ghost(Seq::empty()),
        };
        assert(Seq::<Seq<char>>::empty().to_set() =~= Set::empty());
        t
    }

    /// Appends a node for a path that has none yet; its parent is not linked.
    fn push_node(&mut self, p: String) -> (id: usize)
        requires
            old(self).arena.parent_id.len() == old(self).arena.paths.len(),
            old(self).arena.depth.len() == old(self).arena.paths.len(),
            old(self).tree_node.len() == old(self).arena.paths.len(),
            old(self).file.len() == old(self).arena.paths.len(),
            old(self).kids.len() == old(self).arena.paths.len(),
            old(self).extra.len() == old(self).arena.paths.len(),
            !old(self).arena.index@.contains_key(p@),
        ensures
            id == old(self).arena.paths.len(),
            final(self).arena.paths@ == old(self).arena.paths@.push(p),
            final(self).arena.parent_id@ == old(self).arena.parent_id@.push(None),
            final(self).arena.depth.len() == old(self).arena.depth.len() + 1,
            forall|i: int| 0 <= i < old(self).arena.depth.len() ==> final(self).arena.depth[i] == old(self).arena.depth[i],
            final(self).arena.depth[id as int] == spec_component_count(p@),
            final(self).tree_node@ == old(self).tree_node@.push(false),
            final(self).file@ == old(self).file@.push(false),
            final(self).kids.len() == old(self).kids.len() + 1,
            forall|i: int| 0 <= i < old(self).kids.len() ==> final(self).kids[i] == old(self).kids[i],
            final(self).kids[id as int]@.len() == 0,
            final(self).extra.len() == old(self).extra.len() + 1,
            forall|i: int| 0 <= i < old(self).extra.len() ==> final(self).extra[i] == old(self).extra[i],
            final(self).extra[id as int]@.len() == 0,
            final(self).arena.index@ == old(self).arena.index@.insert(p@, id),
            final(self).root_ids == old(self).root_ids,
            final(self).roots == old(self).roots,
            final(self).n_files == old(self).n_files,
            final(self).inputs == old(self).inputs,
            final(self).folders == old(self).folders,
    {
        let id = self.arena.paths.len();
        let d = path_component_count(p.as_str());
        self.arena.index.insert(p.clone(), id);
        self.arena.paths.push(p);
        self.arena.parent_id.push(None);
        self.arena.depth.push(d);
        self.tree_node.push(false);
        self.file.push(false);
        self.kids.push(Vec::new());
        self.extra.push(Vec::new());
        id
    }
}

impl VirtualTree {
    /// The index of the node for `p`, adding nodes for `p` and its missing
    /// ancestors.
    fn intern(&mut self, p: String) -> (id: usize)
        requires
            old(self).core_ok(),
        ensures
            final(self).core_ok(),
            final(self).extends(old(self)),
            (id as int) < final(self).arena.paths.len(),
            final(self).arena.paths[id as int]@ == p@,
    {
        match self.arena.index.get(p.as_str()) {
            Some(v) => {
                return *v;
            },
            None => {},
        }
        let ghost start = *self;
        proof {
            // a path that has no node is no tree node and no input
            if in_tree(self.inputs@, p@) {
                assert(self.arena.index@.contains_key(p@));
            }
            if self.inputs@.contains(p@) {
                let i = choose|i: int| 0 <= i < self.inputs@.len() && self.inputs@[i] == p@;
                assert(tree_ancestor(self.inputs@[i], 0) == Some(p@));
            }
        }
        let first = self.push_node(p);
        let mut pending = first;
        proof {
            assert forall|i: int| 0 <= i < self.arena.paths.len() && i != pending implies #[trigger] self.arena.parent_ok(i) by {
                assert(start.arena.parent_ok(i));
            }
            assert forall|i: int| 0 <= i < self.arena.paths.len() implies #[trigger] self.arena.index@.contains_key(self.arena.paths[i]@)
                && self.arena.index@[self.arena.paths[i]@] == i by {
                if i < start.arena.paths.len() {
                    assert(start.arena.index@.contains_key(start.arena.paths[i]@));
                }
            }
            assert forall|i: int| 0 <= i < self.arena.paths.len() implies #[trigger] self.arena.depth[i] == spec_component_count(self.arena.paths[i]@) by {
                if i < start.arena.paths.len() {
                    assert(start.arena.depth[i] == spec_component_count(start.arena.paths[i]@));
                }
            }
            assert forall|k: Seq<char>| #[trigger] self.arena.index@.contains_key(k) implies (self.arena.index@[k] as int) < self.arena.paths.len()
                && self.arena.paths[self.arena.index@[k] as int]@ == k by {
                if k != self.arena.paths[first as int]@ {
                    assert(start.arena.index@.contains_key(k));
                }
            }
        }
        loop
            invariant_except_break
                self.arena.parent_id[pending as int] is None,
                forall|i: int| 0 <= i < self.arena.paths.len() && i != pending ==> #[trigger] self.arena.parent_ok(i),
            invariant
                self.nodes_base_ok(),
                self.extends(&start),
                start.core_ok(),
                start.arena.paths.len() <= pending < self.arena.paths.len(),
                first == start.arena.paths.len(),
                self.arena.paths[first as int]@ == p@,
            ensures
                self.nodes_ok(),
                self.extends(&start),
                start.core_ok(),
                first == start.arena.paths.len(),
                self.arena.paths[first as int]@ == p@,
            decreases self.arena.paths[pending as int]@.len(),
        {
            let par = path_parent(self.arena.paths[pending].as_str());
            match par {
                None => {
                    assert(self.arena.parent_ok(pending as int));
                    assert(self.nodes_ok());
                    break ;
                },
                Some(q) => {
                    match self.arena.index.get(q.as_str()) {
                        Some(v) => {
                            let v = *v;
                            let ghost before = *self;
                            self.arena.parent_id.set(pending, Some(v));
                            assert(self.arena.parent_ok(pending as int));
                            assert forall|i: int| 0 <= i < self.arena.paths.len() implies #[trigger] self.arena.parent_ok(i) by {
                                if i != pending {
                                    assert(before.arena.parent_ok(i));
                                }
                            }
                            assert(self.nodes_ok());
                            break ;
                        },
                        None => {
                            let ghost before = *self;
                            proof {
                                if in_tree(self.inputs@, q@) {
                                    assert(start.arena.index@.contains_key(q@));
                                }
                                if self.inputs@.contains(q@) {
                                    let i = choose|i: int| 0 <= i < self.inputs@.len() && self.inputs@[i] == q@;
                                    assert(tree_ancestor(self.inputs@[i], 0) == Some(q@));
                                    assert(start.arena.index@.contains_key(q@));
                                }
                            }
                            let nid = self.push_node(q);
                            self.arena.parent_id.set(pending, Some(nid));
                            assert forall|k: Seq<char>| #[trigger] self.arena.index@.contains_key(k) implies (self.arena.index@[k] as int) < self.arena.paths.len()
                                && self.arena.paths[self.arena.index@[k] as int]@ == k by {
                                if k != self.arena.paths[nid as int]@ {
                                    assert(before.arena.index@.contains_key(k));
                                }
                            }
                            assert forall|i: int| 0 <= i < self.arena.paths.len() implies #[trigger] self.arena.index@.contains_key(self.arena.paths[i]@)
                                && self.arena.index@[self.arena.paths[i]@] == i by {
                                if i < before.arena.paths.len() {
                                    assert(before.arena.index@.contains_key(before.arena.paths[i]@));
                                }
                            }
                            assert forall|i: int| 0 <= i < self.arena.paths.len() implies #[trigger] self.arena.depth[i] == spec_component_count(self.arena.paths[i]@) by {
                                if i < before.arena.paths.len() {
                                    assert(before.arena.depth[i] == spec_component_count(before.arena.paths[i]@));
                                }
                            }
                            assert(self.arena.parent_ok(pending as int));
                            assert forall|i: int| 0 <= i < self.arena.paths.len() && i != nid implies #[trigger] self.arena.parent_ok(i) by {
                                if i < before.arena.paths.len() && i != pending {
                                    assert(before.arena.parent_ok(i));
                                }
                            }
                            pending = nid;
                        },
                    }
                },
            }
        }
        proof {
            assert forall|i: int| 0 <= i < self.arena.paths.len() implies (#[trigger] self.tree_node[i] <==> in_tree(self.inputs@, self.arena.paths[i]@)) by {
                if i >= start.arena.paths.len() && in_tree(self.inputs@, self.arena.paths[i]@) {
                    assert(start.arena.index@.contains_key(self.arena.paths[i]@));
                    assert(self.arena.index@[self.arena.paths[i]@] == start.arena.index@[self.arena.paths[i]@]);
                }
            }
            assert forall|i: int| 0 <= i < self.arena.paths.len() implies (#[trigger] self.file[i] <==> self.inputs@.contains(self.arena.paths[i]@)) by {
                if i >= start.arena.paths.len() && self.inputs@.contains(self.arena.paths[i]@) {
                    let j = choose|j: int| 0 <= j < self.inputs@.len() && self.inputs@[j] == self.arena.paths[i]@;
                    assert(tree_ancestor(self.inputs@[j], 0) == Some(self.arena.paths[i]@));
                    assert(start.arena.index@.contains_key(self.arena.paths[i]@));
                    assert(self.arena.index@[self.arena.paths[i]@] == start.arena.index@[self.arena.paths[i]@]);
                }
            }
            assert forall|i: int| 0 <= i < self.arena.paths.len() implies {
                &&& no_dups(#[trigger] self.kids[i]@)
                &&& forall|j: int| 0 <= j < self.kids[i].len() ==> (self.kids[i][j] as int) < self.arena.paths.len()
                &&& forall|j: int| 0 <= j < self.arena.paths.len() ==> (self.kids[i]@.contains(j as usize) <==> (self.tree_node[j]
                    && self.arena.tparent(j) == Some(i as usize)))
            } by {
                if i < start.arena.paths.len() {
                    assert(self.kids[i] == start.kids[i]);
                    assert forall|j: int| 0 <= j < self.arena.paths.len() implies (self.kids[i]@.contains(j as usize) <==> (self.tree_node[j]
                        && self.arena.tparent(j) == Some(i as usize))) by {
                        if j < start.arena.paths.len() {
                            assert(start.arena.parent_ok(j));
                            assert(start.kids[i]@.contains(j as usize) <==> (start.tree_node[j] && start.arena.tparent(j) == Some(i as usize)));
                        } else {
                            if self.kids[i]@.contains(j as usize) {
                                let m = choose|m: int| 0 <= m < self.kids[i]@.len() && self.kids[i]@[m] == j as usize;
                                assert(start.kids[i][m] < start.arena.paths.len());
                            }
                        }
                    }
                } else {
                    assert forall|j: int| 0 <= j < self.arena.paths.len() implies !(self.tree_node[j] && self.arena.tparent(j) == Some(i as usize)) by {
                        if j < start.arena.paths.len() && self.tree_node[j] {
                            assert(start.arena.parent_ok(j));
                        }
                    }
                }
            }
            assert forall|q: Seq<char>| in_tree(self.inputs@, q) implies #[trigger] self.arena.index@.contains_key(q) by {
                assert(start.arena.index@.contains_key(q));
            }
            assert(self.nodes_ok());
            assert(self.flags_ok());
            assert(self.kids_ok());
        }
        first
    }
}

impl VirtualTree {
    /// The files are as many as the distinct inputs, and no more than the nodes
    /// that are files.
    proof fn lemma_file_count(&self, x: int)
        requires
            self.nodes_ok(),
            self.flags_ok(),
            0 <= x < self.arena.paths.len(),
            !self.file[x],
        ensures
            self.n_files < self.arena.paths.len(),
    {
        let n = self.arena.paths.len() as int;
        let fs = Set::new(|i: int| 0 <= i < n && i != x && self.file[i]);
        let f = |i: int| self.arena.paths[i]@;
        vstd::set_lib::lemma_int_range(0, n);
        assert(fs.subset_of(vstd::set_lib::set_int_range(0, n).remove(x)));
        vstd::set_lib::lemma_len_subset(fs, vstd::set_lib::set_int_range(0, n).remove(x));
        assert(fs.map(f) =~= self.inputs@.to_set()) by {
            assert forall|q: Seq<char>| #[trigger] self.inputs@.to_set().contains(q) implies fs.map(f).contains(q) by {
                let k = choose|k: int| 0 <= k < self.inputs@.len() && self.inputs@[k] == q;
                assert(tree_ancestor(self.inputs@[k], 0) == Some(q));
                assert(self.arena.index@.contains_key(q));
                let i = self.arena.index@[q] as int;
                assert(self.file[i]);
                assert(fs.contains(i));
            }
        }
        vstd::set_lib::lemma_map_size_bound(fs, self.inputs@.to_set(), f);
    }

    /// Adds the node `x` as one more input: marks it a file and marks it and its
    /// tree ancestors as tree nodes, filing each newly marked node under its
    /// tree parent.
    fn mark_input(&mut self, x: usize)
        requires
            old(self).core_ok(),
            (x as int) < old(self).arena.paths.len(),
        ensures
            final(self).core_ok(),
            final(self).inputs() == old(self).inputs().push(old(self).arena.paths[x as int]@),
            final(self).arena.paths == old(self).arena.paths,
            final(self).arena.index == old(self).arena.index,
            final(self).arena.parent_id == old(self).arena.parent_id,
            final(self).arena.depth == old(self).arena.depth,
            final(self).extra == old(self).extra,
            final(self).folders == old(self).folders,
            final(self).root_ids == old(self).root_ids,
            final(self).roots == old(self).roots,
    {
        let ghost start = *self;
        let ghost old_inputs = self.inputs@;
        let ghost xp = self.arena.paths[x as int]@;
        let ghost new_inputs = old_inputs.push(xp);
        if !self.file[x] {
            proof {
                self.lemma_file_count(x as int);
            }
            self.n_files = self.n_files + 1;
        }
        self.file.set(x, true);
        self.inputs = Ghost(new_inputs);
        proof {
            vstd::seq_lib::seq_to_set_is_finite(old_inputs);
            old_inputs.lemma_push_to_set_commute(xp);
            if start.file[x as int] {
                assert(old_inputs.to_set().insert(xp) =~= old_inputs.to_set());
            }
            assert(self.n_files == new_inputs.to_set().len());
            assert forall|i: int| 0 <= i < self.arena.paths.len() implies (#[trigger] self.file[i] <==> new_inputs.contains(self.arena.paths[i]@)) by {
                let pi = self.arena.paths[i]@;
                assert(start.file[i] <==> old_inputs.contains(pi));
                assert(self.arena.index@[pi] == i);
                assert(self.arena.index@[self.arena.paths[x as int]@] == x);
                if pi == xp {
                    assert(i == x);
                    assert(new_inputs[old_inputs.len() as int] == xp);
                } else {
                    assert(i != x);
                    if new_inputs.contains(pi) {
                        let k = choose|k: int| 0 <= k < new_inputs.len() && new_inputs[k] == pi;
                        assert(k < old_inputs.len());
                        assert(old_inputs[k] == pi);
                    }
                    if old_inputs.contains(pi) {
                        let k = choose|k: int| 0 <= k < old_inputs.len() && old_inputs[k] == pi;
                        assert(new_inputs[k] == pi);
                    }
                }
            }
        }
        let mut cur = x;
        let ghost mut k: nat = 0;
        loop
            invariant_except_break
                (cur as int) < self.arena.paths.len(),
                tree_ancestor(xp, k) == Some(self.arena.paths[cur as int]@),
                forall|z: int| 0 <= z < self.arena.paths.len() ==> (#[trigger] self.tree_node[z] <==> (in_tree(old_inputs, self.arena.paths[z]@)
                    || exists|m: nat| m < k && #[trigger] tree_ancestor(xp, m) == Some(self.arena.paths[z]@))),
            invariant
                self.nodes_ok(),
                start.core_ok(),
                self.arena.index@.contains_key(xp),
                self.inputs@ == new_inputs,
                new_inputs == old_inputs.push(xp),
                old_inputs == start.inputs@,
                self.arena.paths == start.arena.paths,
                self.arena.index == start.arena.index,
                self.arena.parent_id == start.arena.parent_id,
                self.arena.depth == start.arena.depth,
                self.extra == start.extra,
                self.folders == start.folders,
                self.root_ids == start.root_ids,
                self.roots == start.roots,
                self.tree_node.len() == self.arena.paths.len(),
                self.kids.len() == self.arena.paths.len(),
                self.file.len() == self.arena.paths.len(),
                self.n_files == new_inputs.to_set().len(),
                forall|i: int| 0 <= i < self.arena.paths.len() ==> (#[trigger] self.file[i] <==> new_inputs.contains(self.arena.paths[i]@)),
                self.kids_ok(),
            ensures
                forall|z: int| 0 <= z < self.arena.paths.len() ==> (#[trigger] self.tree_node[z] <==> in_tree(new_inputs, self.arena.paths[z]@)),
                forall|p: Seq<char>| in_tree(new_inputs, p) ==> #[trigger] self.arena.index@.contains_key(p),
            decreases self.arena.paths[cur as int]@.len(),
        {
            if self.tree_node[cur] {
                proof {
                    // cur was already a tree node, and so are all its tree ancestors
                    assert(in_tree(old_inputs, self.arena.paths[cur as int]@)) by {
                        if !in_tree(old_inputs, self.arena.paths[cur as int]@) {
                            let m = choose|m: nat| m < k && #[trigger] tree_ancestor(xp, m) == Some(self.arena.paths[cur as int]@);
                            self.arena.lemma_chain_shrinks(xp, m, k);
                        }
                    }
                    self.lemma_mark_done_in_tree(old_inputs, xp, k, cur as int);
                }
                break ;
            }
            let ghost before = *self;
            self.tree_node.set(cur, true);
            proof {
                self.arena.lemma_tparent(cur as int);
            }
            let par = self.arena.parent_id[cur];
            let mut next: Option<usize> = None;
            match par {
                Some(j) => {
                    if !self.arena.paths[j].as_str().is_empty() && self.arena.depth[j] >= 2 {
                        next = Some(j);
                    }
                },
                None => {},
            }
            match next {
                Some(y) => {
                    proof {
                        assert(before.kids_ok());
                        assert(!before.kids[y as int]@.contains(cur));
                    }
                    self.kids[y].push(cur);
                    proof {
                        self.lemma_mark_step_kids(&before, cur as int, y as int);
                        self.lemma_mark_step_flags(&before, old_inputs, xp, k, cur as int);
                        assert(tree_ancestor(xp, k + 1) == Some(self.arena.paths[y as int]@));
                    }
                    cur = y;
                    proof {
                        k = k + 1;
                    }
                },
                None => {
                    proof {
                        self.lemma_mark_step_kids_root(&before, cur as int);
                        self.lemma_mark_step_flags(&before, old_inputs, xp, k, cur as int);
                        assert(tree_ancestor(xp, k + 1) is None);
                        self.lemma_mark_done_at_root(old_inputs, xp, k + 1);
                    }
                    break ;
                },
            }
        }
        proof {
            assert(self.flags_ok());
        }
    }
}

impl VirtualTree {
    /// When the climb stops at a node that was already in the tree, the tree
    /// grown by the new input has the nodes marked so far.
    proof fn lemma_mark_done_in_tree(&self, old_inputs: Seq<Seq<char>>, xp: Seq<char>, k: nat, cur: int)
        requires
            self.nodes_ok(),
            self.arena.index@.contains_key(xp),
            0 <= cur < self.arena.paths.len(),
            tree_ancestor(xp, k) == Some(self.arena.paths[cur]@),
            in_tree(old_inputs, self.arena.paths[cur]@),
            forall|p: Seq<char>| in_tree(old_inputs, p) ==> #[trigger] self.arena.index@.contains_key(p),
            forall|z: int| 0 <= z < self.arena.paths.len() ==> (#[trigger] self.tree_node[z] <==> (in_tree(old_inputs, self.arena.paths[z]@)
                || exists|m: nat| m < k && #[trigger] tree_ancestor(xp, m) == Some(self.arena.paths[z]@))),
        ensures
            forall|z: int| 0 <= z < self.arena.paths.len() ==> (#[trigger] self.tree_node[z] <==> in_tree(old_inputs.push(xp), self.arena.paths[z]@)),
            forall|p: Seq<char>| in_tree(old_inputs.push(xp), p) ==> #[trigger] self.arena.index@.contains_key(p),
    {
        let c = self.arena.paths[cur]@;
        assert forall|m: nat| #[trigger] tree_ancestor(xp, m) is Some && m >= k implies in_tree(old_inputs, tree_ancestor(xp, m)->0) by {
            lemma_tree_ancestor_compose(xp, k, c, (m - k) as nat);
            assert(k + (m - k) as nat == m);
            lemma_in_tree_ancestor(old_inputs, c, (m - k) as nat);
        }
        assert forall|z: int| 0 <= z < self.arena.paths.len() implies (#[trigger] self.tree_node[z] <==> in_tree(old_inputs.push(xp), self.arena.paths[z]@)) by {
            lemma_in_tree_push(old_inputs, xp, self.arena.paths[z]@);
            if exists|m: nat| #[trigger] tree_ancestor(xp, m) == Some(self.arena.paths[z]@) {
                let m = choose|m: nat| #[trigger] tree_ancestor(xp, m) == Some(self.arena.paths[z]@);
                if m >= k {
                    assert(in_tree(old_inputs, self.arena.paths[z]@));
                }
            }
        }
        assert forall|p: Seq<char>| in_tree(old_inputs.push(xp), p) implies #[trigger] self.arena.index@.contains_key(p) by {
            lemma_in_tree_push(old_inputs, xp, p);
            if !in_tree(old_inputs, p) {
                let m = choose|m: nat| #[trigger] tree_ancestor(xp, m) == Some(p);
                self.arena.lemma_ancestor_indexed(xp, m);
            }
        }
    }

    /// When the climb stops at a node with no tree parent, the tree grown by
    /// the new input has the nodes marked so far.
    proof fn lemma_mark_done_at_root(&self, old_inputs: Seq<Seq<char>>, xp: Seq<char>, k: nat)
        requires
            self.nodes_ok(),
            self.arena.index@.contains_key(xp),
            tree_ancestor(xp, k) is None,
            forall|p: Seq<char>| in_tree(old_inputs, p) ==> #[trigger] self.arena.index@.contains_key(p),
            forall|z: int| 0 <= z < self.arena.paths.len() ==> (#[trigger] self.tree_node[z] <==> (in_tree(old_inputs, self.arena.paths[z]@)
                || exists|m: nat| m < k && #[trigger] tree_ancestor(xp, m) == Some(self.arena.paths[z]@))),
        ensures
            forall|z: int| 0 <= z < self.arena.paths.len() ==> (#[trigger] self.tree_node[z] <==> in_tree(old_inputs.push(xp), self.arena.paths[z]@)),
            forall|p: Seq<char>| in_tree(old_inputs.push(xp), p) ==> #[trigger] self.arena.index@.contains_key(p),
    {
        assert forall|z: int| 0 <= z < self.arena.paths.len() implies (#[trigger] self.tree_node[z] <==> in_tree(old_inputs.push(xp), self.arena.paths[z]@)) by {
            lemma_in_tree_push(old_inputs, xp, self.arena.paths[z]@);
            if exists|m: nat| #[trigger] tree_ancestor(xp, m) == Some(self.arena.paths[z]@) {
                let m = choose|m: nat| #[trigger] tree_ancestor(xp, m) == Some(self.arena.paths[z]@);
                if m >= k {
                    lemma_ancestor_none_above(xp, k, m);
                }
            }
        }
        assert forall|p: Seq<char>| in_tree(old_inputs.push(xp), p) implies #[trigger] self.arena.index@.contains_key(p) by {
            lemma_in_tree_push(old_inputs, xp, p);
            if !in_tree(old_inputs, p) {
                let m = choose|m: nat| #[trigger] tree_ancestor(xp, m) == Some(p);
                self.arena.lemma_ancestor_indexed(xp, m);
            }
        }
    }

    /// Marking node `cur` and filing it under its tree parent `y` keeps the
    /// children lists right.
    proof fn lemma_mark_step_kids(&self, before: &Self, cur: int, y: int)
        requires
            before.nodes_ok(),
            before.kids_ok(),
            0 <= cur < before.arena.paths.len(),
            0 <= y < before.arena.paths.len(),
            !before.tree_node[cur],
            before.arena.tparent(cur) == Some(y as usize),
            self.arena.paths == before.arena.paths,
            self.arena.parent_id == before.arena.parent_id,
            self.arena.depth == before.arena.depth,
            self.tree_node@ == before.tree_node@.update(cur, true),
            self.kids.len() == before.kids.len(),
            forall|i: int| 0 <= i < self.kids.len() && i != y ==> #[trigger] self.kids[i] == before.kids[i],
            self.kids[y]@ == before.kids[y]@.push(cur as usize),
        ensures
            self.kids_ok(),
    {
        before.arena.lemma_tparent(cur);
        assert forall|i: int| 0 <= i < self.arena.paths.len() implies {
            &&& no_dups(#[trigger] self.kids[i]@)
            &&& forall|j: int| 0 <= j < self.kids[i].len() ==> (self.kids[i][j] as int) < self.arena.paths.len()
            &&& forall|j: int| 0 <= j < self.arena.paths.len() ==> (self.kids[i]@.contains(j as usize) <==> (self.tree_node[j]
                && self.arena.tparent(j) == Some(i as usize)))
        } by {
            assert(forall|j: int| 0 <= j < self.arena.paths.len() ==> self.arena.tparent(j) == before.arena.tparent(j));
            if i == y {
                let old_k = before.kids[y]@;
                let new_k = self.kids[y]@;
                assert(!old_k.contains(cur as usize));
                assert forall|a: int, b: int| 0 <= a < b < new_k.len() implies new_k[a] != new_k[b] by {
                    if b == old_k.len() {
                        assert(old_k[a] == new_k[a]);
                    } else {
                        assert(old_k[a] != old_k[b]);
                    }
                }
                assert forall|j: int| 0 <= j < self.kids[i].len() implies (self.kids[i][j] as int) < self.arena.paths.len() by {
                    if j < old_k.len() {
                        assert(new_k[j] == old_k[j]);
                    }
                }
                assert forall|j: int| 0 <= j < self.arena.paths.len() implies (self.kids[i]@.contains(j as usize) <==> (self.tree_node[j]
                    && self.arena.tparent(j) == Some(i as usize))) by {
                    assert(self.arena.tparent(j) == before.arena.tparent(j));
                    if j != cur {
                        assert(self.tree_node[j] == before.tree_node[j]);
                        if new_k.contains(j as usize) {
                            let m = choose|m: int| 0 <= m < new_k.len() && new_k[m] == j as usize;
                            assert(old_k[m] == j as usize);
                        }
                        if old_k.contains(j as usize) {
                            let m = choose|m: int| 0 <= m < old_k.len() && old_k[m] == j as usize;
                            assert(new_k[m] == j as usize);
                        }
                    } else {
                        assert(new_k[old_k.len() as int] == cur as usize);
                    }
                }
            } else {
                assert(self.kids[i] == before.kids[i]);
                assert(no_dups(before.kids[i]@));
                assert forall|j: int| 0 <= j < self.arena.paths.len() implies (self.kids[i]@.contains(j as usize) <==> (self.tree_node[j]
                    && self.arena.tparent(j) == Some(i as usize))) by {
                    assert(self.arena.tparent(j) == before.arena.tparent(j));
                    assert(before.kids[i]@.contains(j as usize) <==> (before.tree_node[j]
                        && before.arena.tparent(j) == Some(i as usize)));
                    if j != cur {
                        assert(self.tree_node[j] == before.tree_node[j]);
                    }
                }
            }
        }
    }

    /// Marking node `cur`, which has no tree parent, keeps the children lists right.
    proof fn lemma_mark_step_kids_root(&self, before: &Self, cur: int)
        requires
            before.nodes_ok(),
            before.kids_ok(),
            0 <= cur < before.arena.paths.len(),
            !before.tree_node[cur],
            before.arena.tparent(cur) is None,
            self.arena.paths == before.arena.paths,
            self.arena.parent_id == before.arena.parent_id,
            self.arena.depth == before.arena.depth,
            self.tree_node@ == before.tree_node@.update(cur, true),
            self.kids == before.kids,
        ensures
            self.kids_ok(),
    {
        assert forall|i: int| 0 <= i < self.arena.paths.len() implies {
            &&& no_dups(#[trigger] self.kids[i]@)
            &&& forall|j: int| 0 <= j < self.kids[i].len() ==> (self.kids[i][j] as int) < self.arena.paths.len()
            &&& forall|j: int| 0 <= j < self.arena.paths.len() ==> (self.kids[i]@.contains(j as usize) <==> (self.tree_node[j]
                && self.arena.tparent(j) == Some(i as usize)))
        } by {
            assert(self.kids[i] == before.kids[i]);
            assert forall|j: int| 0 <= j < self.arena.paths.len() implies (self.kids[i]@.contains(j as usize) <==> (self.tree_node[j]
                && self.arena.tparent(j) == Some(i as usize))) by {
                assert(self.arena.tparent(j) == before.arena.tparent(j));
                if j != cur {
                    assert(self.tree_node[j] == before.tree_node[j]);
                }
            }
        }
    }

    /// Marking the chain node `cur` extends the marked set by the chain step `k`.
    proof fn lemma_mark_step_flags(&self, before: &Self, old_inputs: Seq<Seq<char>>, xp: Seq<char>, k: nat, cur: int)
        requires
            before.nodes_ok(),
            0 <= cur < before.arena.paths.len(),
            tree_ancestor(xp, k) == Some(before.arena.paths[cur]@),
            self.arena.paths == before.arena.paths,
            self.tree_node@ == before.tree_node@.update(cur, true),
            forall|z: int| 0 <= z < before.arena.paths.len() ==> (#[trigger] before.tree_node[z] <==> (in_tree(old_inputs, before.arena.paths[z]@)
                || exists|m: nat| m < k && #[trigger] tree_ancestor(xp, m) == Some(before.arena.paths[z]@))),
        ensures
            forall|z: int| 0 <= z < self.arena.paths.len() ==> (#[trigger] self.tree_node[z] <==> (in_tree(old_inputs, self.arena.paths[z]@)
                || exists|m: nat| m < k + 1 && #[trigger] tree_ancestor(xp, m) == Some(self.arena.paths[z]@))),
    {
        assert forall|z: int| 0 <= z < self.arena.paths.len() implies (#[trigger] self.tree_node[z] <==> (in_tree(old_inputs, self.arena.paths[z]@)
            || exists|m: nat| m < k + 1 && #[trigger] tree_ancestor(xp, m) == Some(self.arena.paths[z]@))) by {
            if z == cur {
                assert(tree_ancestor(xp, k) == Some(self.arena.paths[z]@));
            } else {
                if exists|m: nat| m < k + 1 && #[trigger] tree_ancestor(xp, m) == Some(self.arena.paths[z]@) {
                    let m = choose|m: nat| m < k + 1 && #[trigger] tree_ancestor(xp, m) == Some(self.arena.paths[z]@);
                    if m == k {
                        assert(before.arena.index@[before.arena.paths[z]@] == z);
                        assert(before.arena.index@[before.arena.paths[cur]@] == cur);
                    }
                }
            }
        }
    }
}

/// Below a present tree ancestor, all are present.
proof fn lemma_ancestor_some_below(p: Seq<char>, a: nat, b: nat)
    requires
        a <= b,
        tree_ancestor(p, b) is Some,
    ensures
        tree_ancestor(p, a) is Some,
    decreases b - a,
{
    if a < b {
        lemma_ancestor_some_below(p, (a + 1) as nat, b);
    }
}

/// Above a missing tree ancestor, all are missing.
proof fn lemma_ancestor_none_above(p: Seq<char>, a: nat, b: nat)
    requires
        a <= b,
        tree_ancestor(p, a) is None,
    ensures
        tree_ancestor(p, b) is None,
    decreases b - a,
{
    if a < b {
        lemma_ancestor_none_above(p, a, (b - 1) as nat);
    }
}

/// The tree ancestors of a path, composed.
proof fn lemma_tree_ancestor_compose(p: Seq<char>, a: nat, c: Seq<char>, m: nat)
    requires
        tree_ancestor(p, a) == Some(c),
    ensures
        tree_ancestor(c, m) == tree_ancestor(p, a + m),
    decreases m,
{
    if m > 0 {
        lemma_tree_ancestor_compose(p, a, c, (m - 1) as nat);
        assert(tree_ancestor(p, a + m) == match tree_ancestor(p, (a + m - 1) as nat) {
            Some(q) => tree_parent(q),
            None => None,
        });
        assert((a + m - 1) as nat == a + (m - 1) as nat);
    }
}

/// A tree ancestor is an ancestor by `Path::parent`.
proof fn lemma_tree_ancestor_is_path_ancestor(p: Seq<char>, k: nat)
    ensures
        tree_ancestor(p, k) matches Some(q) ==> path_ancestor(p, k) == Some(q),
    decreases k,
{
    if k > 0 {
        lemma_tree_ancestor_is_path_ancestor(p, (k - 1) as nat);
    }
}

/// The tree parent of a tree node is a tree node.
proof fn lemma_in_tree_parent(inputs: Seq<Seq<char>>, c: Seq<char>)
    requires
        in_tree(inputs, c),
        tree_parent(c) is Some,
    ensures
        in_tree(inputs, tree_parent(c)->0),
{
    let (i, k) = choose|i: int, k: nat| 0 <= i < inputs.len() && #[trigger] tree_ancestor(inputs[i], k) == Some(c);
    assert(tree_ancestor(inputs[i], k + 1) == tree_parent(c));
}

/// Every tree ancestor of a tree node is a tree node.
proof fn lemma_in_tree_ancestor(inputs: Seq<Seq<char>>, c: Seq<char>, m: nat)
    requires
        in_tree(inputs, c),
        tree_ancestor(c, m) is Some,
    ensures
        in_tree(inputs, tree_ancestor(c, m)->0),
{
    let (i, k) = choose|i: int, k: nat| 0 <= i < inputs.len() && #[trigger] tree_ancestor(inputs[i], k) == Some(c);
    lemma_tree_ancestor_compose(inputs[i], k, c, m);
    assert(tree_ancestor(inputs[i], k + m) == tree_ancestor(c, m));
}

/// The nodes of the tree built from one more input.
proof fn lemma_in_tree_push(inputs: Seq<Seq<char>>, x: Seq<char>, z: Seq<char>)
    ensures
        in_tree(inputs.push(x), z) <==> (in_tree(inputs, z) || exists|k: nat| #[trigger] tree_ancestor(x, k) == Some(z)),
{
    let ni = inputs.push(x);
    if in_tree(ni, z) {
        let (i, k) = choose|i: int, k: nat| 0 <= i < ni.len() && #[trigger] tree_ancestor(ni[i], k) == Some(z);
        if i < inputs.len() {
            assert(tree_ancestor(inputs[i], k) == Some(z));
        } else {
            assert(tree_ancestor(x, k) == Some(z));
        }
    }
    if in_tree(inputs, z) {
        let (i, k) = choose|i: int, k: nat| 0 <= i < inputs.len() && #[trigger] tree_ancestor(inputs[i], k) == Some(z);
        assert(tree_ancestor(ni[i], k) == Some(z));
    }
    if exists|k: nat| #[trigger] tree_ancestor(x, k) == Some(z) {
        let k = choose|k: nat| #[trigger] tree_ancestor(x, k) == Some(z);
        assert(tree_ancestor(ni[inputs.len() as int], k) == Some(z));
    }
}


/// No candidate is a proper tree ancestor of another candidate.
pub open spec fn no_nested_inputs(inputs: Seq<Seq<char>>) -> bool {
    forall|i: int, j: int, k: nat| 0 <= i < inputs.len() && 0 <= j < inputs.len() && k > 0
        ==> #[trigger] tree_ancestor(inputs[j], k) != Some(#[trigger] inputs[i])
}

impl VirtualTree {
    /// A candidate file is a tree node.
    pub(crate) proof fn lemma_file_is_tree_node(&self, i: int)
        requires
            self.core_ok(),
            0 <= i < self.arena.paths.len(),
            self.file[i],
        ensures
            self.tree_node[i],
    {
        let p = self.arena.paths[i]@;
        assert(self.inputs@.contains(p));
        let k = choose|k: int| 0 <= k < self.inputs@.len() && self.inputs@[k] == p;
        assert(tree_ancestor(self.inputs@[k], 0) == Some(p));
    }

    /// The tree parent of a tree node is a tree node with a shorter path, and,
    /// when no candidate lies below another, it is not a candidate file.
    pub(crate) proof fn lemma_tree_parent_node(&self, x: int)
        requires
            self.core_ok(),
            0 <= x < self.arena.paths.len(),
            self.tree_node[x],
            self.arena.tparent(x) is Some,
        ensures
            (self.arena.tparent(x)->0 as int) < self.arena.paths.len(),
            self.tree_node[self.arena.tparent(x)->0 as int],
            self.arena.paths[self.arena.tparent(x)->0 as int]@.len() < self.arena.paths[x]@.len(),
            no_nested_inputs(self.inputs()) ==> !self.file[self.arena.tparent(x)->0 as int],
    {
        let p = self.arena.tparent(x)->0 as int;
        self.arena.lemma_tparent(x);
        let px = self.arena.paths[x]@;
        let pp = self.arena.paths[p]@;
        let inputs = self.inputs@;
        assert(in_tree(inputs, px));
        let (i, k) = choose|i: int, k: nat| 0 <= i < inputs.len() && #[trigger] tree_ancestor(inputs[i], k) == Some(px);
        assert(tree_ancestor(inputs[i], k + 1) == Some(pp));
        assert(in_tree(inputs, pp));
        if no_nested_inputs(inputs) && self.file[p] {
            assert(inputs.contains(pp));
            let j = choose|j: int| 0 <= j < inputs.len() && inputs[j] == pp;
            assert(tree_ancestor(inputs[i], k + 1) != Some(inputs[j]));
        }
    }
}

/// Adding siblings never adds the path itself.
proof fn lemma_add_siblings_skips(acc: Seq<Seq<char>>, sibs: Seq<Seq<char>>, path: Seq<char>)
    ensures
        add_siblings(acc, sibs, path).contains(path) ==> acc.contains(path),
    decreases sibs.len(),
{
    if sibs.len() > 0 {
        lemma_add_siblings_skips(acc, sibs.drop_last(), path);
        let before = add_siblings(acc, sibs.drop_last(), path);
        if sibs.last() != path && !before.contains(sibs.last()) {
            if before.push(sibs.last()).contains(path) {
                let k = choose|k: int| 0 <= k < before.push(sibs.last()).len() && before.push(sibs.last())[k] == path;
                assert(k < before.len());
                assert(before[k] == path);
            }
        }
    }
}

impl VirtualTree {
    /// Expanding a tree node gives all of its tree children, and never the
    /// node itself.
    pub proof fn lemma_expand_children(&self, p: Seq<char>)
        requires
            self.wf(),
            in_tree(self.inputs(), p),
        ensures
            forall|c: Seq<char>| #[trigger] self.tree_children(p).contains(c) ==> self.spec_expand(p).contains(c),
            !self.spec_expand(p).contains(p),
    {
        assert(self.arena.index@.contains_key(p));
        let i = self.arena.index@[p] as int;
        assert(self.arena.parent_ok(i));
        self.lemma_kid_paths(i);
        let base = self.tree_children(p);
        assert(base == self.kid_paths(i));
        assert(!base.contains(p)) by {
            if base.contains(p) {
                assert(in_tree(self.inputs(), p) && tree_parent(p) == Some(p));
                assert(self.arena.parent_ok(i));
            }
        }
        match spec_parent(p) {
            None => {},
            Some(pp) => {
                let ws = add_siblings(base, extra_under(self.folders(), pp), p);
                assert forall|c: Seq<char>| #[trigger] base.contains(c) implies ws.contains(c) by {
                    lemma_add_siblings(base, extra_under(self.folders(), pp), p, c);
                }
                lemma_add_siblings_skips(base, extra_under(self.folders(), pp), p);
                assert(pp.len() < p.len());
                if !in_tree(self.inputs(), pp) && !ws.contains(pp) {
                    assert forall|c: Seq<char>| #[trigger] base.contains(c) implies ws.push(pp).contains(c) by {
                        let k = choose|k: int| 0 <= k < ws.len() && ws[k] == c;
                        assert(ws.push(pp)[k] == c);
                    }
                    if ws.push(pp).contains(p) {
                        let k = choose|k: int| 0 <= k < ws.push(pp).len() && ws.push(pp)[k] == p;
                        if k < ws.len() {
                            assert(ws[k] == p);
                        }
                    }
                }
            },
        }
    }
}

proof fn lemma_add_siblings_shape(acc: Seq<Seq<char>>, sibs: Seq<Seq<char>>, path: Seq<char>)
    requires
        no_dups(acc),
    ensures
        add_siblings(acc, sibs, path).len() >= acc.len(),
        add_siblings(acc, sibs, path).take(acc.len() as int) == acc,
        no_dups(add_siblings(acc, sibs, path)),
        forall|x: Seq<char>| #[trigger] add_siblings(acc, sibs, path).contains(x) <==> (acc.contains(x) || (sibs.contains(x)
            && x != path)),
    decreases sibs.len(),
{
    if sibs.len() == 0 {
        assert(acc.take(acc.len() as int) =~= acc);
    } else {
        let d = sibs.drop_last();
        lemma_add_siblings_shape(acc, d, path);
        let before = add_siblings(acc, d, path);
        let x0 = sibs.last();
        assert(sibs == d.push(x0));
        assert forall|x: Seq<char>| sibs.contains(x) <==> (d.contains(x) || x == x0) by {
            if sibs.contains(x) {
                let k = choose|k: int| 0 <= k < sibs.len() && sibs[k] == x;
                if k < d.len() {
                    assert(d[k] == x);
                }
            }
            if d.contains(x) {
                let k = choose|k: int| 0 <= k < d.len() && d[k] == x;
                assert(sibs[k] == x);
            }
            if x == x0 {
                assert(sibs[sibs.len() - 1] == x);
            }
        }
        if x0 != path && !before.contains(x0) {
            let after = before.push(x0);
            assert(after.take(acc.len() as int) =~= before.take(acc.len() as int));
            assert forall|a: int, b: int| 0 <= a < b < after.len() implies after[a] != after[b] by {
                if b == before.len() {
                    assert(before.contains(before[a]));
                }
            }
            assert forall|x: Seq<char>| #[trigger] after.contains(x) <==> (before.contains(x) || x == x0) by {
                if after.contains(x) {
                    let k = choose|k: int| 0 <= k < after.len() && after[k] == x;
                    if k < before.len() {
                        assert(before[k] == x);
                    }
                }
                if before.contains(x) {
                    let k = choose|k: int| 0 <= k < before.len() && before[k] == x;
                    assert(after[k] == x);
                }
                if x == x0 {
                    assert(after[before.len() as int] == x);
                }
            }
        }
    }
}

impl VirtualTree {
    /// The shape of an expansion: the tree children of the path first, in
    /// order; then the extra folders filed under its parent, other than the
    /// path, and its parent when that is not a tree node; each path once.
    /// It holds the path itself only when that is its own parent.
    pub proof fn lemma_expand_shape(&self, p: Seq<char>)
        requires
            self.wf(),
        ensures
            self.spec_expand(p).take(self.tree_children(p).len() as int) == self.tree_children(p),
            no_dups(self.spec_expand(p)),
            forall|x: Seq<char>| #[trigger] self.spec_expand(p).contains(x) <==> (self.tree_children(p).contains(x) || match spec_parent(p) {
                None => false,
                Some(pp) => (extra_under(self.folders(), pp).contains(x) && x != p) || (x == pp && !in_tree(self.inputs(), pp)),
            }),
            spec_parent(p) != Some(p) ==> !self.spec_expand(p).contains(p),
    {
        let base = self.tree_children(p);
        if self.arena.index@.contains_key(p) {
            let i = self.arena.index@[p] as int;
            self.lemma_kid_paths(i);
            assert(!base.contains(p)) by {
                if base.contains(p) {
                    assert(self.arena.paths[i]@ == p);
                    assert(tree_parent(p) == Some(p));
                    assert(self.arena.parent_ok(i));
                }
            }
        } else {
            assert(base =~= Seq::<Seq<char>>::empty());
        }
        assert(no_dups(base));
        match spec_parent(p) {
            None => {
                assert(base.take(base.len() as int) =~= base);
            },
            Some(pp) => {
                let sibs = extra_under(self.folders(), pp);
                let ws = add_siblings(base, sibs, p);
                lemma_add_siblings_shape(base, sibs, p);
                if !in_tree(self.inputs(), pp) && !ws.contains(pp) {
                    let e = ws.push(pp);
                    assert(e.take(base.len() as int) =~= ws.take(base.len() as int));
                    assert forall|a: int, b: int| 0 <= a < b < e.len() implies e[a] != e[b] by {
                        if b == ws.len() {
                            assert(ws.contains(ws[a]));
                        }
                    }
                    assert forall|x: Seq<char>| #[trigger] e.contains(x) <==> (ws.contains(x) || x == pp) by {
                        if e.contains(x) {
                            let k = choose|k: int| 0 <= k < e.len() && e[k] == x;
                            if k < ws.len() {
                                assert(ws[k] == x);
                            }
                        }
                        if ws.contains(x) {
                            let k = choose|k: int| 0 <= k < ws.len() && ws[k] == x;
                            assert(e[k] == x);
                        }
                        if x == pp {
                            assert(e[ws.len() as int] == x);
                        }
                    }
                }
            },
        }
    }
}

impl VirtualTree {
    /// The roots are the tree nodes without a tree parent, each once, in the
    /// order of `Path`s: by their components.
    pub open spec fn roots_are_tree_roots(&self) -> bool {
        &&& forall|a: int, b: int| 0 <= a < b < self.root_paths().len() ==> !comps_lt(spec_components(#[trigger] self.root_paths()[b]), spec_components(#[trigger] self.root_paths()[a]))
        &&& no_dups(self.root_paths())
        &&& forall|x: Seq<char>| #[trigger] self.root_paths().contains(x) <==> (in_tree(self.inputs(), x)
            && tree_parent(x) is None)
    }

    /// The paths of the roots, in order (the field `roots`).
    pub closed spec fn root_paths(&self) -> Seq<Seq<char>> {
        views(self.roots@)
    }

    pub(crate) proof fn lemma_root_paths(&self)
        ensures
            self.root_paths() == views(self.roots@),
    {
    }

    /// The roots, in order: the field `roots`.
    pub fn roots(&self) -> (r: &Vec<String>)
        ensures
            views(r@) == self.root_paths(),
    {
        &self.roots
    }

    /// A well-formed tree's roots are its tree nodes without a tree parent.
    pub proof fn lemma_roots(&self)
        requires
            self.wf(),
        ensures
            self.roots_are_tree_roots(),
    {
        assert forall|a: int, b: int| 0 <= a < b < self.root_paths().len() implies !comps_lt(spec_components(#[trigger] self.root_paths()[b]), spec_components(#[trigger] self.root_paths()[a])) by {
            assert(self.root_paths()[a] == self.roots[a]@);
            assert(self.root_paths()[b] == self.roots[b]@);
        }
        assert forall|a: int, b: int| 0 <= a < b < self.root_paths().len() implies self.root_paths()[a] != self.root_paths()[b] by {
            assert(self.root_paths()[a] == self.arena.paths[self.root_ids[a] as int]@);
            assert(self.root_paths()[b] == self.arena.paths[self.root_ids[b] as int]@);
            assert(self.root_ids@[a] != self.root_ids@[b]);
            assert(self.arena.index@[self.arena.paths[self.root_ids[a] as int]@] == self.root_ids[a]);
            assert(self.arena.index@[self.arena.paths[self.root_ids[b] as int]@] == self.root_ids[b]);
        }
        assert forall|x: Seq<char>| #[trigger] views(self.roots@).contains(x) implies (in_tree(self.inputs(), x)
            && tree_parent(x) is None) by {
            let a = choose|a: int| 0 <= a < views(self.roots@).len() && views(self.roots@)[a] == x;
            let j = self.root_ids[a] as int;
            assert(j < self.arena.paths.len());
            assert(self.root_ids@[a] == j as usize);
            assert(self.root_ids@.contains(j as usize));
            assert(self.tree_node[j] && self.arena.tparent(j) is None);
            self.arena.lemma_tparent(j);
        }
        assert forall|x: Seq<char>| in_tree(self.inputs(), x) && tree_parent(x) is None implies #[trigger] views(
            self.roots@,
        ).contains(x) by {
            assert(self.arena.index@.contains_key(x));
            let j = self.arena.index@[x] as int;
            self.arena.lemma_tparent(j);
            assert(self.tree_node[j]);
            assert(self.root_ids@.contains(j as usize));
            let a = choose|a: int| 0 <= a < self.root_ids.len() && self.root_ids[a] == j as usize;
            assert(views(self.roots@)[a] == x);
        }
    }
}

} // verus!
