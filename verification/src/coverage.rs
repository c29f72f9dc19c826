//! The coverage view: which tracked source files have constraints bound to
//! them, drawn as a directory tree with proportional bars, and the totals.

use crate::model::texts;
use crate::render::{bar, bar_text, branch, column};
use crate::text::{decimal, pad_right, push_decimal, push_padded, split_char, split_on, lemma_split_nonempty, line_items, strip_cr_exec, str_eq};
use vstd::utf8::encode_utf8;
use crate::order::{lemma_text_lt_total, lemma_text_lt_transitive, text_less, text_lt};
use vstd::prelude::*;

verus! {

/// A file of the tree and the number of constraints bound to it.
pub struct FileEntry {
    pub name: String,
    pub count: usize,
}

/// A directory of the tree: its files in the order they were added, and its
/// subdirectories ordered by name.
pub struct DirNode {
    pub name: String,
    pub files: Vec<FileEntry>,
    pub subdirs: Vec<DirNode>,
}

/// The names and counts of a list of files.
pub open spec fn file_views(files: Seq<FileEntry>) -> Seq<(Seq<char>, usize)> {
    files.map_values(|f: FileEntry| (f.name@, f.count))
}

/// Subdirectories strictly ascending by name, so no name occurs twice.
pub open spec fn names_sorted(dirs: Seq<DirNode>) -> bool {
    forall|i: int, j: int| 0 <= i < j < dirs.len() ==> text_lt(#[trigger] dirs[i].name@, #[trigger] dirs[j].name@)
}

/// A node built by `DirNode::new` and then given the path `rest` (below a
/// directory called `name`) with `count`: one new directory per component
/// but the last, which names the file.
pub open spec fn fresh_chain(node: DirNode, name: Seq<char>, rest: Seq<Seq<char>>, count: usize) -> bool
    decreases rest.len(),
{
    &&& node.name@ == name
    &&& if rest.len() <= 1 {
        &&& rest.len() == 1
        &&& file_views(node.files@) == seq![(rest[0], count)]
        &&& node.subdirs@.len() == 0
    } else {
        &&& node.files@.len() == 0
        &&& node.subdirs@.len() == 1
        &&& fresh_chain(node.subdirs@[0], rest[0], rest.drop_first(), count)
    }
}

/// `new` is `old` with the file at path `parts` (relative to `old`) added
/// with `count`: a one-part path adds a file here; otherwise the path goes
/// on in the subdirectory named by its first part, which is made when it is
/// missing. Nothing else changes.
pub open spec fn inserted(old: DirNode, parts: Seq<Seq<char>>, count: usize, new: DirNode) -> bool
    decreases parts.len(),
{
    &&& new.name@ == old.name@
    &&& parts.len() >= 1
    &&& if parts.len() == 1 {
        &&& new.subdirs@ == old.subdirs@
        &&& file_views(new.files@) == file_views(old.files@).push((parts[0], count))
    } else {
        &&& file_views(new.files@) == file_views(old.files@)
        &&& new.subdirs@.len() >= old.subdirs@.len()
        &&& {
            ||| exists|i: int|
                0 <= i < old.subdirs@.len() && #[trigger] old.subdirs@[i].name@ == parts[0]
                    && new.subdirs@ == old.subdirs@.update(i, new.subdirs@[i])
                    && inserted(old.subdirs@[i], parts.drop_first(), count, new.subdirs@[i])
            ||| (forall|i: int| 0 <= i < old.subdirs@.len() ==> #[trigger] old.subdirs@[i].name@ != parts[0])
                && exists|p: int|
                0 <= p <= old.subdirs@.len() && new.subdirs@ == old.subdirs@.insert(p, #[trigger] new.subdirs@[p])
                    && fresh_chain(new.subdirs@[p], parts[0], parts.drop_first(), count)
        }
    }
}

/// Adding a path to an empty directory makes a fresh chain.
pub proof fn lemma_fresh_chain_of_new(old: DirNode, new: DirNode, rest: Seq<Seq<char>>, count: usize)
    requires
        old.files@.len() == 0,
        old.subdirs@.len() == 0,
        inserted(old, rest, count, new),
    ensures
        fresh_chain(new, old.name@, rest, count),
{
    if rest.len() == 1 {
        assert(file_views(old.files@) == Seq::<(Seq<char>, usize)>::empty());
    } else {
        let p = choose|p: int|
            0 <= p <= old.subdirs@.len() && new.subdirs@ == old.subdirs@.insert(p, #[trigger] new.subdirs@[p])
                && fresh_chain(new.subdirs@[p], rest[0], rest.drop_first(), count);
        assert(file_views(new.files@).len() == 0);
    }
}

impl DirNode {
    /// Subdirectories sorted by name at every level.
    pub open spec fn wf(self) -> bool
        decreases self,
    {
        &&& names_sorted(self.subdirs@)
        &&& forall|i: int| 0 <= i < self.subdirs@.len() ==> (#[trigger] self.subdirs@[i]).wf()
    }

    /// An empty directory called `name`.
    pub fn new(name: &str) -> (res: DirNode)
        ensures
            res.name@ == name@,
            res.files@.len() == 0,
            res.subdirs@.len() == 0,
            res.wf(),
    {
        DirNode { name: String::from_str(name), files: Vec::new(), subdirs: Vec::new() }
    }

    /// Adds the file at path `parts` (relative to this directory) with `count`
    /// constraints, making the missing directories along the way.
    pub fn insert(&mut self, parts: &[String], count: usize)
        requires
            old(self).wf(),
            parts@.len() >= 1,
        ensures
            final(self).wf(),
            inserted(*old(self), texts(parts@), count, *final(self)),
        decreases parts@.len(),
    {
        let ghost old_self = *self;
        if parts.len() == 1 {
            let ghost before = file_views(self.files@);
            self.files.push(FileEntry { name: parts[0].clone(), count });
            assert(file_views(self.files@) == before.push((texts(parts@)[0], count)));
            return;
        }
        let (_, rest) = parts.split_at(1);
        assert(texts(rest@) == texts(parts@).drop_first());
        let dir_name = &parts[0];
        let n = self.subdirs.len();
        let mut i: usize = 0;
        while i < n && text_less(self.subdirs[i].name.as_str(), dir_name.as_str())
            invariant
                n == self.subdirs@.len(),
                i <= n,
                *self == old_self,
                forall|k: int| 0 <= k < i ==> text_lt(#[trigger] self.subdirs@[k].name@, dir_name@),
            decreases n - i,
        {
            i = i + 1;
        }
        proof {
            // Every name before `i` is less than `dir_name`; every name from `i`
            // on is not, and only the one at `i` can be equal.
            assert forall|k: int| 0 <= k < i implies #[trigger] old_self.subdirs@[k].name@ != dir_name@ by {
                lemma_text_lt_total(dir_name@, dir_name@);
            }
            assert forall|k: int| 0 <= k < i implies text_lt(#[trigger] old_self.subdirs@[k].name@, dir_name@) by {
            }
            assert forall|k: int| i < k < n implies text_lt(dir_name@, #[trigger] old_self.subdirs@[k].name@) by {
                let a = old_self.subdirs@[i as int].name@;
                lemma_text_lt_total(a, dir_name@);
                if a == dir_name@ {
                } else {
                    lemma_text_lt_transitive(dir_name@, a, old_self.subdirs@[k].name@);
                }
            }
        }
        if i < n && self.subdirs[i].name == *dir_name {
            let mut child = self.subdirs.remove(i);
            child.insert(rest, count);
            self.subdirs.insert(i, child);
            proof {
                assert(self.subdirs@ == old_self.subdirs@.update(i as int, self.subdirs@[i as int]));
                assert forall|a: int, b: int| 0 <= a < b < self.subdirs@.len() implies text_lt(
                    #[trigger] self.subdirs@[a].name@,
                    #[trigger] self.subdirs@[b].name@,
                ) by {
                    assert(old_self.subdirs@[a].name@ == self.subdirs@[a].name@);
                    assert(old_self.subdirs@[b].name@ == self.subdirs@[b].name@);
                }
                assert forall|k: int| 0 <= k < self.subdirs@.len() implies (#[trigger] self.subdirs@[k]).wf() by {
                    if k != i {
                        assert(self.subdirs@[k] == old_self.subdirs@[k]);
                    }
                }
                assert(old_self.subdirs@[i as int].name@ == texts(parts@)[0]);
            }
        } else {
            proof {
                if i < n {
                    lemma_text_lt_total(dir_name@, old_self.subdirs@[i as int].name@);
                }
                assert forall|k: int| i <= k < n implies text_lt(dir_name@, #[trigger] old_self.subdirs@[k].name@) by {
                }
                assert forall|k: int| 0 <= k < n implies #[trigger] old_self.subdirs@[k].name@ != dir_name@ by {
                    if k >= i {
                        lemma_text_lt_total(dir_name@, old_self.subdirs@[k].name@);
                    }
                }
            }
            let mut child = DirNode::new(dir_name.as_str());
            let ghost child_before = child;
            child.insert(rest, count);
            self.subdirs.insert(i, child);
            proof {
                assert(self.subdirs@ == old_self.subdirs@.insert(i as int, self.subdirs@[i as int]));
                assert forall|a: int, b: int| 0 <= a < b < self.subdirs@.len() implies text_lt(
                    #[trigger] self.subdirs@[a].name@,
                    #[trigger] self.subdirs@[b].name@,
                ) by {
                    if b < i {
                        assert(old_self.subdirs@[a] == self.subdirs@[a]);
                        assert(old_self.subdirs@[b] == self.subdirs@[b]);
                    } else if b == i {
                        assert(old_self.subdirs@[a] == self.subdirs@[a]);
                    } else if a == i {
                        assert(old_self.subdirs@[b - 1] == self.subdirs@[b]);
                    } else if a < i {
                        assert(old_self.subdirs@[a] == self.subdirs@[a]);
                        assert(old_self.subdirs@[b - 1] == self.subdirs@[b]);
                    } else {
                        assert(old_self.subdirs@[a - 1] == self.subdirs@[a]);
                        assert(old_self.subdirs@[b - 1] == self.subdirs@[b]);
                    }
                }
                assert forall|k: int| 0 <= k < self.subdirs@.len() implies (#[trigger] self.subdirs@[k]).wf() by {
                    if k < i {
                        assert(self.subdirs@[k] == old_self.subdirs@[k]);
                    } else if k > i {
                        assert(self.subdirs@[k] == old_self.subdirs@[k - 1]);
                    }
                }
                lemma_fresh_chain_of_new(child_before, self.subdirs@[i as int], texts(rest@), count);
            }
        }
    }
}

/// Every file count in the tree is at most `m`.
pub open spec fn counts_at_most(node: DirNode, m: nat) -> bool
    decreases node,
{
    &&& forall|i: int| 0 <= i < node.files@.len() ==> (#[trigger] node.files@[i]).count <= m
    &&& forall|i: int| 0 <= i < node.subdirs@.len() ==> counts_at_most(#[trigger] node.subdirs@[i], m)
}

proof fn lemma_fresh_chain_counts(node: DirNode, name: Seq<char>, rest: Seq<Seq<char>>, count: usize, m: nat)
    requires
        fresh_chain(node, name, rest, count),
        count <= m,
    ensures
        counts_at_most(node, m),
    decreases rest.len(),
{
    if rest.len() <= 1 {
        let fv = file_views(node.files@);
        assert(fv.len() == node.files@.len());
        assert(fv.len() == 1);
        assert(fv[0] == (rest[0], count));
        assert forall|i: int| 0 <= i < node.files@.len() implies (#[trigger] node.files@[i]).count <= m by {
            assert(fv[i].1 == node.files@[i].count);
        }
    } else {
        lemma_fresh_chain_counts(node.subdirs@[0], rest[0], rest.drop_first(), count, m);
    }
}

/// Adding a file whose count is at most `m` keeps every count at most `m`.
pub proof fn lemma_inserted_counts(old: DirNode, parts: Seq<Seq<char>>, count: usize, new: DirNode, m: nat)
    requires
        inserted(old, parts, count, new),
        counts_at_most(old, m),
        count <= m,
    ensures
        counts_at_most(new, m),
    decreases parts.len(),
{
    let fn_ = file_views(new.files@);
    let fo = file_views(old.files@);
    assert(fn_.len() == new.files@.len());
    assert(fo.len() == old.files@.len());
    assert forall|i: int| 0 <= i < new.files@.len() implies (#[trigger] new.files@[i]).count <= m by {
        assert(fn_[i].1 == new.files@[i].count);
        if i < old.files@.len() {
            assert(fo[i].1 == old.files@[i].count);
            assert(fn_[i] == fo[i]);
        }
    }
    if parts.len() > 1 {
        if exists|i: int|
            0 <= i < old.subdirs@.len() && #[trigger] old.subdirs@[i].name@ == parts[0]
                && new.subdirs@ == old.subdirs@.update(i, new.subdirs@[i])
                && inserted(old.subdirs@[i], parts.drop_first(), count, new.subdirs@[i]) {
            let i = choose|i: int|
                0 <= i < old.subdirs@.len() && #[trigger] old.subdirs@[i].name@ == parts[0]
                    && new.subdirs@ == old.subdirs@.update(i, new.subdirs@[i])
                    && inserted(old.subdirs@[i], parts.drop_first(), count, new.subdirs@[i]);
            lemma_inserted_counts(old.subdirs@[i], parts.drop_first(), count, new.subdirs@[i], m);
            assert forall|k: int| 0 <= k < new.subdirs@.len() implies counts_at_most(#[trigger] new.subdirs@[k], m) by {
                if k != i {
                    assert(new.subdirs@[k] == old.subdirs@[k]);
                }
            }
        } else {
            let p = choose|p: int|
                0 <= p <= old.subdirs@.len() && new.subdirs@ == old.subdirs@.insert(p, #[trigger] new.subdirs@[p])
                    && fresh_chain(new.subdirs@[p], parts[0], parts.drop_first(), count);
            lemma_fresh_chain_counts(new.subdirs@[p], parts[0], parts.drop_first(), count, m);
            assert forall|k: int| 0 <= k < new.subdirs@.len() implies counts_at_most(#[trigger] new.subdirs@[k], m) by {
                if k < p {
                    assert(new.subdirs@[k] == old.subdirs@[k]);
                } else if k > p {
                    assert(new.subdirs@[k] == old.subdirs@[k - 1]);
                }
            }
        }
    }
}

impl Clone for FileEntry {
    fn clone(&self) -> (res: Self)
        ensures
            res == *self,
    {
        FileEntry { name: self.name.clone(), count: self.count }
    }
}

/// Places `x` after the leading entries whose count is at least its own.
pub open spec fn insert_by_count(s: Seq<(Seq<char>, usize)>, x: (Seq<char>, usize)) -> Seq<(Seq<char>, usize)>
    decreases s.len(),
{
    if s.len() == 0 {
        seq![x]
    } else if s[0].1 >= x.1 {
        seq![s[0]] + insert_by_count(s.drop_first(), x)
    } else {
        seq![x] + s
    }
}

/// Entries by count, largest first; entries with equal counts keep their
/// order (a stable sort).
pub open spec fn sort_by_count_desc(s: Seq<(Seq<char>, usize)>) -> Seq<(Seq<char>, usize)>
    decreases s.len(),
{
    if s.len() == 0 {
        s
    } else {
        insert_by_count(sort_by_count_desc(s.drop_last()), s.last())
    }
}

proof fn lemma_insert_by_count_at(s: Seq<(Seq<char>, usize)>, x: (Seq<char>, usize), k: int)
    requires
        0 <= k <= s.len(),
        forall|i: int| 0 <= i < k ==> (#[trigger] s[i]).1 >= x.1,
        k < s.len() ==> s[k].1 < x.1,
    ensures
        insert_by_count(s, x) == s.insert(k, x),
    decreases s.len(),
{
    if s.len() > 0 {
        if k > 0 {
            assert forall|i: int| 0 <= i < k - 1 implies (#[trigger] s.drop_first()[i]).1 >= x.1 by {
                assert(s.drop_first()[i] == s[i + 1]);
            }
            lemma_insert_by_count_at(s.drop_first(), x, k - 1);
            assert(seq![s[0]] + s.drop_first().insert(k - 1, x) == s.insert(k, x));
        } else {
            assert(seq![x] + s == s.insert(0, x));
        }
    }
}

/// The files stably sorted by count, largest first.
pub fn sorted_by_count(files: &Vec<FileEntry>) -> (res: Vec<FileEntry>)
    ensures
        file_views(res@) == sort_by_count_desc(file_views(files@)),
{
    let mut res: Vec<FileEntry> = Vec::new();
    let mut i: usize = 0;
    while i < files.len()
        invariant
            i <= files.len(),
            file_views(res@) == sort_by_count_desc(file_views(files@.take(i as int))),
        decreases files.len() - i,
    {
        let x = files[i].clone();
        let mut k: usize = 0;
        while k < res.len() && res[k].count >= x.count
            invariant
                k <= res.len(),
                forall|j: int| 0 <= j < k ==> (#[trigger] res@[j]).count >= x.count,
            decreases res.len() - k,
        {
            k = k + 1;
        }
        proof {
            let fv = file_views(res@);
            assert forall|j: int| 0 <= j < k implies (#[trigger] fv[j]).1 >= x.count by {
                assert(fv[j].1 == res@[j].count);
            }
            if k < res.len() {
                assert(fv[k as int].1 == res@[k as int].count);
            }
            lemma_insert_by_count_at(fv, (x.name@, x.count), k as int);
            assert(file_views(files@.take(i + 1)).drop_last() == file_views(files@.take(i as int)));
            assert(file_views(files@.take(i + 1)).last() == (x.name@, x.count));
        }
        let ghost before = res@;
        res.insert(k, x);
        assert(file_views(res@) == file_views(before).insert(k as int, (x.name@, x.count)));
        i = i + 1;
    }
    assert(files@.take(files.len() as int) == files@);
    res
}

/// Inserting adds exactly the inserted entry.
pub proof fn lemma_insert_by_count_multiset(s: Seq<(Seq<char>, usize)>, x: (Seq<char>, usize))
    ensures
        insert_by_count(s, x).to_multiset() =~= s.to_multiset().insert(x),
    decreases s.len(),
{
    broadcast use vstd::seq_lib::group_to_multiset_ensures, vstd::seq_lib::lemma_multiset_commutative, vstd::multiset::group_multiset_axioms;

    if s.len() == 0 {
        assert(seq![x] == Seq::<(Seq<char>, usize)>::empty().push(x));
    } else {
        assert(seq![s[0]] == Seq::<(Seq<char>, usize)>::empty().push(s[0]));
        assert(seq![x] == Seq::<(Seq<char>, usize)>::empty().push(x));
        assert(s == seq![s[0]] + s.drop_first());
        if s[0].1 >= x.1 {
            lemma_insert_by_count_multiset(s.drop_first(), x);
        }
    }
}

/// Sorting by count keeps every entry, each as often as it occurs.
pub proof fn lemma_sort_by_count_permutes(s: Seq<(Seq<char>, usize)>)
    ensures
        sort_by_count_desc(s).to_multiset() =~= s.to_multiset(),
    decreases s.len(),
{
    broadcast use vstd::seq_lib::group_to_multiset_ensures;

    if s.len() > 0 {
        lemma_sort_by_count_permutes(s.drop_last());
        lemma_insert_by_count_multiset(sort_by_count_desc(s.drop_last()), s.last());
        assert(s == s.drop_last().push(s.last()));
    }
}

/// Counts never increase along a stably sorted list.
pub open spec fn nonincreasing(s: Seq<(Seq<char>, usize)>) -> bool {
    forall|i: int, j: int| 0 <= i < j < s.len() ==> (#[trigger] s[i]).1 >= (#[trigger] s[j]).1
}

proof fn lemma_insert_by_count_sorted(s: Seq<(Seq<char>, usize)>, x: (Seq<char>, usize))
    requires
        nonincreasing(s),
    ensures
        nonincreasing(insert_by_count(s, x)),
        insert_by_count(s, x).len() == s.len() + 1,
        forall|i: int| 0 <= i < insert_by_count(s, x).len() ==>
            (#[trigger] insert_by_count(s, x)[i] == x || s.contains(insert_by_count(s, x)[i])),
    decreases s.len(),
{
    if s.len() > 0 {
        let r = insert_by_count(s, x);
        if s[0].1 >= x.1 {
            let t = s.drop_first();
            lemma_insert_by_count_sorted(t, x);
            let rt = insert_by_count(t, x);
            assert forall|i: int| 0 <= i < r.len() implies (#[trigger] r[i] == x || s.contains(r[i])) by {
                if i == 0 {
                    assert(r[0] == s[0]);
                } else {
                    assert(r[i] == rt[i - 1]);
                    if rt[i - 1] != x {
                        let k = choose|k: int| 0 <= k < t.len() && t[k] == rt[i - 1];
                        assert(s[k + 1] == t[k]);
                    }
                }
            }
            assert forall|i: int, j: int| 0 <= i < j < r.len() implies (#[trigger] r[i]).1 >= (#[trigger] r[j]).1 by {
                assert(r[j] == rt[j - 1]);
                if i == 0 {
                    if rt[j - 1] == x {
                    } else {
                        let k = choose|k: int| 0 <= k < t.len() && t[k] == rt[j - 1];
                        assert(s[k + 1] == t[k]);
                    }
                } else {
                    assert(r[i] == rt[i - 1]);
                }
            }
        } else {
            assert forall|i: int| 0 <= i < r.len() implies (#[trigger] r[i] == x || s.contains(r[i])) by {
                if i > 0 {
                    assert(r[i] == s[i - 1]);
                }
            }
            assert forall|i: int, j: int| 0 <= i < j < r.len() implies (#[trigger] r[i]).1 >= (#[trigger] r[j]).1 by {
                assert(r[j] == s[j - 1]);
                if i > 0 {
                    assert(r[i] == s[i - 1]);
                } else {
                    assert(s[0].1 >= s[j - 1].1);
                }
            }
        }
    }
}

/// The files of a directory are listed with counts never increasing.
pub proof fn lemma_sort_by_count_sorted(s: Seq<(Seq<char>, usize)>)
    ensures
        nonincreasing(sort_by_count_desc(s)),
    decreases s.len(),
{
    if s.len() > 0 {
        lemma_sort_by_count_sorted(s.drop_last());
        lemma_insert_by_count_sorted(sort_by_count_desc(s.drop_last()), s.last());
    }
}

proof fn lemma_sorted_counts_bounded(node: DirNode, max: nat, m: int)
    requires
        counts_at_most(node, max),
        0 <= m < sort_by_count_desc(file_views(node.files@)).len(),
    ensures
        sort_by_count_desc(file_views(node.files@))[m].1 <= max,
{
    broadcast use vstd::seq_lib::group_to_multiset_ensures;

    let s = file_views(node.files@);
    let r = sort_by_count_desc(s);
    lemma_sort_by_count_permutes(s);
    assert(r.to_multiset().contains(r[m]));
    assert(s.contains(r[m]));
    let i = choose|i: int| 0 <= i < s.len() && s[i] == r[m];
    assert(s[i].1 == node.files@[i].count);
}

/// "s" unless the count is one.
pub open spec fn plural(count: nat) -> Seq<char> {
    if count == 1 { Seq::empty() } else { "s"@ }
}

/// The count column: `-` for none, else `N constraint(s)`.
pub open spec fn count_label(count: nat) -> Seq<char> {
    if count == 0 {
        "-"@
    } else {
        decimal(count) + " constraint"@ + plural(count)
    }
}

fn push_plural(out: &mut String, count: u64)
    ensures
        final(out)@ == old(out)@ + plural(count as nat),
{
    if count != 1 {
        out.append("s");
    } else {
        assert(old(out)@ + Seq::<char>::empty() == old(out)@);
    }
}

/// The count column of a file: `-` when nothing is bound to it.
pub fn format_count(count: usize) -> (res: String)
    ensures
        res@ == count_label(count as nat),
{
    if count == 0 {
        String::from_str("-")
    } else {
        let mut res = String::new();
        push_decimal(&mut res, count as u64);
        res.append(" constraint");
        push_plural(&mut res, count as u64);
        res
    }
}

/// A file's entry: its name padded to the name column, its bar (eight
/// cells, relative to `max`), and its count.
pub open spec fn entry_text(name: Seq<char>, count: nat, width: nat, max: nat) -> Seq<char> {
    pad_right(name, width) + " "@ + bar_text(count, max, 8) + " "@ + count_label(count)
}

fn push_entry(out: &mut String, name: &str, count: usize, width: usize, max: usize)
    requires
        count <= max,
        max <= usize::MAX / 16,
    ensures
        final(out)@ == old(out)@ + entry_text(name@, count as nat, width as nat, max as nat),
{
    push_padded(out, name, width);
    out.append(" ");
    let b = bar(count, max, 8);
    out.append(b.as_str());
    out.append(" ");
    let c = format_count(count);
    out.append(c.as_str());
}

/// The lines of a directory's contents, each after `prefix`: its
/// subdirectories by name, each followed by its own contents one level
/// deeper, then its files by count, largest first.
pub open spec fn subtree_lines(node: DirNode, prefix: Seq<char>, width: nat, max: nat) -> Seq<Seq<char>>
    decreases node, node.subdirs@.len() + 1,
{
    subdir_lines(node, prefix, width, max, node.subdirs@.len() as nat) + sorted_file_lines(
        sort_by_count_desc(file_views(node.files@)),
        prefix,
        width,
        max,
    )
}

/// The lines of the first `k` subdirectories of `node` and their contents.
/// A subdirectory's branch is a corner when it is the last child of all.
pub open spec fn subdir_lines(node: DirNode, prefix: Seq<char>, width: nat, max: nat, k: nat) -> Seq<Seq<char>>
    decreases node, k,
{
    if k == 0 || k > node.subdirs@.len() {
        Seq::empty()
    } else {
        let d = node.subdirs@[k - 1];
        let is_last = k == node.subdirs@.len() + node.files@.len();
        subdir_lines(node, prefix, width, max, (k - 1) as nat) + seq![
            prefix + branch(is_last) + d.name@ + "/"@,
        ] + subtree_lines(d, prefix + column(is_last), width, max)
    }
}

/// The lines of files that come after the subdirectories; the last one gets
/// the corner.
pub open spec fn sorted_file_lines(files: Seq<(Seq<char>, usize)>, prefix: Seq<char>, width: nat, max: nat) -> Seq<Seq<char>> {
    Seq::new(
        files.len(),
        |m: int| prefix + branch(m + 1 == files.len()) + entry_text(files[m].0, files[m].1 as nat, width, max),
    )
}

fn push_line(out: &mut Vec<String>, line: String)
    ensures
        texts(final(out)@) == texts(old(out)@).push(line@),
{
    out.push(line);
    assert(texts(out@) == texts(old(out)@).push(line@));
}

proof fn lemma_subdir_lines_unfold(node: DirNode, prefix: Seq<char>, width: nat, max: nat, k: nat)
    requires
        k < node.subdirs@.len(),
    ensures
        subdir_lines(node, prefix, width, max, k + 1) == subdir_lines(node, prefix, width, max, k) + seq![
            prefix + branch(k + 1 == node.subdirs@.len() + node.files@.len()) + node.subdirs@[k as int].name@
                + "/"@,
        ] + subtree_lines(
            node.subdirs@[k as int],
            prefix + column(k + 1 == node.subdirs@.len() + node.files@.len()),
            width,
            max,
        ),
{
}

fn render_subtree(node: &DirNode, prefix: &str, width: usize, max: usize, out: &mut Vec<String>)
    requires
        counts_at_most(*node, max as nat),
        max <= usize::MAX / 16,
    ensures
        texts(final(out)@) == texts(old(out)@) + subtree_lines(*node, prefix@, width as nat, max as nat),
    decreases node,
{
    let ghost start = texts(out@);
    let nd = node.subdirs.len();
    let nf = node.files.len();
    let mut k: usize = 0;
    while k < nd
        invariant
            nd == node.subdirs@.len(),
            nf == node.files@.len(),
            k <= nd,
            counts_at_most(*node, max as nat),
            max <= usize::MAX / 16,
            texts(out@) == start + subdir_lines(*node, prefix@, width as nat, max as nat, k as nat),
        decreases nd - k,
    {
        let d = &node.subdirs[k];
        let is_last = k + 1 == nd && nf == 0;
        let mut line = String::from_str(prefix);
        if is_last {
            line.append("└─ ");
        } else {
            line.append("├─ ");
        }
        line.append(d.name.as_str());
        line.append("/");
        let mut child_prefix = String::from_str(prefix);
        if is_last {
            child_prefix.append("   ");
        } else {
            child_prefix.append("│  ");
        }
        proof {
            lemma_subdir_lines_unfold(*node, prefix@, width as nat, max as nat, k as nat);
        }
        push_line(out, line);
        render_subtree(d, child_prefix.as_str(), width, max, out);
        k = k + 1;
    }
    let sorted = sorted_by_count(&node.files);
    let ghost sv = file_views(sorted@);
    let ghost mid = texts(out@);
    let mut m: usize = 0;
    while m < sorted.len()
        invariant
            m <= sorted@.len(),
            sv == file_views(sorted@),
            sv.len() == sorted@.len(),
            counts_at_most(*node, max as nat),
            max <= usize::MAX / 16,
            sv == sort_by_count_desc(file_views(node.files@)),
            texts(out@) == mid + sorted_file_lines(sv, prefix@, width as nat, max as nat).take(m as int),
        decreases sorted@.len() - m,
    {
        let f = &sorted[m];
        let is_last = m + 1 == sorted.len();
        let mut line = String::from_str(prefix);
        if is_last {
            line.append("└─ ");
        } else {
            line.append("├─ ");
        }
        proof {
            assert(sv[m as int] == (f.name@, f.count));
            lemma_sorted_counts_bounded(*node, max as nat, m as int);
        }
        push_entry(&mut line, f.name.as_str(), f.count, width, max);
        push_line(out, line);
        proof {
            let all = sorted_file_lines(sv, prefix@, width as nat, max as nat);
            assert(all.take(m + 1) == all.take(m as int).push(all[m as int]));
        }
        m = m + 1;
    }
    proof {
        let all = sorted_file_lines(sv, prefix@, width as nat, max as nat);
        assert(all.take(sv.len() as int) == all);
    }
}

/// The lines of the whole tree: each top-level directory as `name/` with
/// its contents below it, then the files at the top level in the order they
/// were added. A top-level directory is the last one when it ends the list
/// and no files follow it.
pub open spec fn tree_lines(root: DirNode, width: nat, max: nat) -> Seq<Seq<char>> {
    top_dir_lines(root, width, max, root.subdirs@.len() as nat) + Seq::new(
        root.files@.len(),
        |m: int| entry_text(root.files@[m].name@, root.files@[m].count as nat, width, max),
    )
}

/// The lines of the first `k` top-level directories.
pub open spec fn top_dir_lines(root: DirNode, width: nat, max: nat, k: nat) -> Seq<Seq<char>>
    decreases k,
{
    if k == 0 || k > root.subdirs@.len() {
        Seq::empty()
    } else {
        let d = root.subdirs@[k - 1];
        let is_last = k == root.subdirs@.len() && root.files@.len() == 0;
        top_dir_lines(root, width, max, (k - 1) as nat) + seq![d.name@ + "/"@] + subtree_lines(
            d,
            column(is_last),
            width,
            max,
        )
    }
}

/// Renders the tree under `root`: names padded to `width`, bars relative
/// to `max`.
pub fn render_tree(root: &DirNode, width: usize, max: usize) -> (res: Vec<String>)
    requires
        counts_at_most(*root, max as nat),
        max <= usize::MAX / 16,
    ensures
        texts(res@) == tree_lines(*root, width as nat, max as nat),
{
    let mut out: Vec<String> = Vec::new();
    let nd = root.subdirs.len();
    let nf = root.files.len();
    let mut k: usize = 0;
    assert(texts(out@) == Seq::<Seq<char>>::empty());
    while k < nd
        invariant
            nd == root.subdirs@.len(),
            nf == root.files@.len(),
            k <= nd,
            counts_at_most(*root, max as nat),
            max <= usize::MAX / 16,
            texts(out@) == top_dir_lines(*root, width as nat, max as nat, k as nat),
        decreases nd - k,
    {
        let d = &root.subdirs[k];
        let is_last = k + 1 == nd && nf == 0;
        let prefix = if is_last { "   " } else { "│  " };
        let mut line = String::from_str(d.name.as_str());
        line.append("/");
        push_line(&mut out, line);
        render_subtree(d, prefix, width, max, &mut out);
        k = k + 1;
    }
    let ghost mid = texts(out@);
    let ghost files_part = Seq::new(
        root.files@.len(),
        |m: int| entry_text(root.files@[m].name@, root.files@[m].count as nat, width as nat, max as nat),
    );
    let mut m: usize = 0;
    while m < nf
        invariant
            nf == root.files@.len(),
            m <= nf,
            counts_at_most(*root, max as nat),
            max <= usize::MAX / 16,
            files_part.len() == nf,
            files_part == Seq::new(
                root.files@.len(),
                |m: int| entry_text(root.files@[m].name@, root.files@[m].count as nat, width as nat, max as nat),
            ),
            texts(out@) == mid + files_part.take(m as int),
        decreases nf - m,
    {
        let f = &root.files[m];
        let mut line = String::new();
        push_entry(&mut line, f.name.as_str(), f.count, width, max);
        push_line(&mut out, line);
        assert(files_part.take(m + 1) == files_part.take(m as int).push(files_part[m as int]));
        m = m + 1;
    }
    assert(files_part.take(nf as int) == files_part);
    out
}

/// The paths and counts given to the view.
pub open spec fn entry_views(entries: Seq<(String, usize)>) -> Seq<(Seq<char>, usize)> {
    entries.map_values(|e: (String, usize)| (e.0@, e.1))
}

/// `trees[0]` is `DirNode::new("")` and each next tree is the one before
/// with the next entry inserted, its path split at `/`.
pub open spec fn build_steps(entries: Seq<(Seq<char>, usize)>, trees: Seq<DirNode>) -> bool {
    &&& trees.len() == entries.len() + 1
    &&& trees[0].name@ == Seq::<char>::empty()
    &&& trees[0].files@.len() == 0
    &&& trees[0].subdirs@.len() == 0
    &&& forall|i: int|
        0 <= i < entries.len() ==> inserted(
            #[trigger] trees[i],
            split_char(entries[i].0, '/'),
            entries[i].1,
            trees[i + 1],
        )
}

/// `node` is the tree that `DirNode::new("")` becomes when every entry is
/// inserted in turn, its path split at `/`.
pub open spec fn built(entries: Seq<(Seq<char>, usize)>, node: DirNode) -> bool {
    exists|trees: Seq<DirNode>| #[trigger] build_steps(entries, trees) && trees.last() == node
}

/// Every count is at most `m`.
pub open spec fn all_counts_at_most(entries: Seq<(Seq<char>, usize)>, m: nat) -> bool {
    forall|i: int| 0 <= i < entries.len() ==> (#[trigger] entries[i]).1 <= m
}

/// Builds the directory tree of the given paths.
pub fn build_tree(entries: &Vec<(String, usize)>, max: usize) -> (res: DirNode)
    requires
        all_counts_at_most(entry_views(entries@), max as nat),
    ensures
        res.wf(),
        built(entry_views(entries@), res),
        counts_at_most(res, max as nat),
{
    let mut root = DirNode::new("");
    let ghost ev = entry_views(entries@);
    let ghost mut trees: Seq<DirNode> = seq![root];
    let mut i: usize = 0;
    proof {
        reveal_strlit("");
        assert(ev.take(0).len() == 0);
        assert(trees[0] == root);
        assert(root.name@ == Seq::<char>::empty());
    }
    while i < entries.len()
        invariant
            i <= entries.len(),
            ev == entry_views(entries@),
            root.wf(),
            build_steps(ev.take(i as int), trees),
            trees.last() == root,
            counts_at_most(root, max as nat),
            all_counts_at_most(ev, max as nat),
        decreases entries.len() - i,
    {
        let parts = split_on(entries[i].0.as_str(), '/');
        proof {
            lemma_split_nonempty(entries@[i as int].0@, '/');
            assert(ev[i as int] == (entries@[i as int].0@, entries@[i as int].1));
        }
        let ghost prev = root;
        root.insert(parts.as_slice(), entries[i].1);
        proof {
            assert(texts(parts@) == parts@.map_values(|p: String| p@));
            lemma_inserted_counts(prev, texts(parts@), entries@[i as int].1, root, max as nat);
            let old_trees = trees;
            trees = trees.push(root);
            assert forall|k: int| 0 <= k < ev.take(i + 1).len() implies inserted(
                #[trigger] trees[k],
                split_char(ev.take(i + 1)[k].0, '/'),
                ev.take(i + 1)[k].1,
                trees[k + 1],
            ) by {
                if k < i {
                    assert(ev.take(i + 1)[k] == ev.take(i as int)[k]);
                    assert(trees[k] == old_trees[k]);
                    assert(trees[k + 1] == old_trees[k + 1]);
                } else {
                    assert(trees[k] == prev);
                }
            }
        }
        i = i + 1;
    }
    assert(ev.take(entries.len() as int) == ev);
    root
}

/// The sum of the counts.
pub open spec fn count_sum(entries: Seq<(Seq<char>, usize)>) -> nat
    decreases entries.len(),
{
    if entries.len() == 0 {
        0
    } else {
        count_sum(entries.drop_last()) + entries.last().1 as nat
    }
}

/// How many entries have a positive count.
pub open spec fn covered_count(entries: Seq<(Seq<char>, usize)>) -> nat
    decreases entries.len(),
{
    if entries.len() == 0 {
        0
    } else {
        covered_count(entries.drop_last()) + (if entries.last().1 > 0 { 1nat } else { 0nat })
    }
}

/// The largest count, 0 when there are none.
pub open spec fn largest_count(entries: Seq<(Seq<char>, usize)>) -> nat
    decreases entries.len(),
{
    if entries.len() == 0 {
        0
    } else {
        let m = largest_count(entries.drop_last());
        if entries.last().1 > m { entries.last().1 as nat } else { m }
    }
}

/// The share of covered files in whole percent, rounded down; 0 for no files.
pub open spec fn percent(covered: nat, total: nat) -> nat {
    if total > 0 { covered * 100 / total } else { 0 }
}

/// The totals of a coverage view.
pub struct CoverageSummary {
    pub total_files: usize,
    pub covered_files: usize,
    pub total_constraints: usize,
    pub max_count: usize,
}

impl CoverageSummary {
    /// Files with no constraint bound to them.
    pub fn uncovered_files(&self) -> (res: usize)
        requires
            self.covered_files <= self.total_files,
        ensures
            res == self.total_files - self.covered_files,
    {
        self.total_files - self.covered_files
    }

    /// Covered files in whole percent of all files.
    pub fn coverage_percent(&self) -> (res: usize)
        requires
            self.covered_files <= self.total_files,
            self.total_files <= usize::MAX / 100,
        ensures
            res == percent(self.covered_files as nat, self.total_files as nat),
    {
        if self.total_files > 0 {
            self.covered_files * 100 / self.total_files
        } else {
            0
        }
    }
}

proof fn lemma_counts_bounds(entries: Seq<(Seq<char>, usize)>)
    ensures
        covered_count(entries) <= entries.len(),
        all_counts_at_most(entries, largest_count(entries)),
    decreases entries.len(),
{
    if entries.len() > 0 {
        lemma_counts_bounds(entries.drop_last());
        assert forall|i: int| 0 <= i < entries.len() implies (#[trigger] entries[i]).1 <= largest_count(entries) by {
            if i < entries.len() - 1 {
                assert(entries[i] == entries.drop_last()[i]);
            }
        }
    }
}

/// The totals: files, files with a constraint, constraints, largest count.
pub fn coverage_summary(entries: &Vec<(String, usize)>) -> (res: CoverageSummary)
    requires
        count_sum(entry_views(entries@)) <= usize::MAX,
    ensures
        res.total_files == entries@.len(),
        res.covered_files == covered_count(entry_views(entries@)),
        res.total_constraints == count_sum(entry_views(entries@)),
        res.max_count == largest_count(entry_views(entries@)),
        res.covered_files <= res.total_files,
        all_counts_at_most(entry_views(entries@), res.max_count as nat),
{
    let ghost ev = entry_views(entries@);
    let mut covered: usize = 0;
    let mut total: usize = 0;
    let mut max: usize = 0;
    let mut i: usize = 0;
    while i < entries.len()
        invariant
            i <= entries.len(),
            ev == entry_views(entries@),
            count_sum(ev) <= usize::MAX,
            covered == covered_count(ev.take(i as int)),
            total == count_sum(ev.take(i as int)),
            max == largest_count(ev.take(i as int)),
            covered <= i,
        decreases entries.len() - i,
    {
        proof {
            assert(ev.take(i + 1).drop_last() == ev.take(i as int));
            assert(ev.take(i + 1).last() == ev[i as int]);
            assert(ev[i as int] == (entries@[i as int].0@, entries@[i as int].1));
            lemma_count_sum_prefix(ev, i + 1);
        }
        let c = entries[i].1;
        if c > 0 {
            covered = covered + 1;
        }
        total = total + c;
        if c > max {
            max = c;
        }
        i = i + 1;
    }
    proof {
        assert(ev.take(entries.len() as int) == ev);
        lemma_counts_bounds(ev);
    }
    CoverageSummary { total_files: entries.len(), covered_files: covered, total_constraints: total, max_count: max }
}

proof fn lemma_count_sum_prefix(entries: Seq<(Seq<char>, usize)>, k: int)
    requires
        0 <= k <= entries.len(),
    ensures
        count_sum(entries.take(k)) <= count_sum(entries),
    decreases entries.len() - k,
{
    if k < entries.len() {
        lemma_count_sum_prefix(entries, k + 1);
        assert(entries.take(k + 1).drop_last() == entries.take(k));
    } else {
        assert(entries.take(k) == entries);
    }
}

/// The byte length of a path's last component (its file name).
pub open spec fn file_name_width(path: Seq<char>) -> nat {
    encode_utf8(split_char(path, '/').last()).len()
}

/// The widest file name, in bytes.
pub open spec fn widest_name(entries: Seq<(Seq<char>, usize)>) -> nat
    decreases entries.len(),
{
    if entries.len() == 0 {
        0
    } else {
        let w = widest_name(entries.drop_last());
        let x = file_name_width(entries.last().0);
        if x > w { x } else { w }
    }
}

/// The width of the name column: the widest file name, or 12 when there is
/// no file.
pub open spec fn name_column(entries: Seq<(Seq<char>, usize)>) -> nat {
    if entries.len() == 0 { 12 } else { widest_name(entries) }
}

/// The width of the name column of the given paths.
pub fn name_column_width(entries: &Vec<(String, usize)>) -> (res: usize)
    ensures
        res == name_column(entry_views(entries@)),
{
    if entries.len() == 0 {
        return 12;
    }
    let ghost ev = entry_views(entries@);
    let mut w: usize = 0;
    let mut i: usize = 0;
    while i < entries.len()
        invariant
            i <= entries.len(),
            ev == entry_views(entries@),
            w == widest_name(ev.take(i as int)),
        decreases entries.len() - i,
    {
        let parts = split_on(entries[i].0.as_str(), '/');
        proof {
            lemma_split_nonempty(entries@[i as int].0@, '/');
            assert(ev.take(i + 1).drop_last() == ev.take(i as int));
            assert(ev.take(i + 1).last() == ev[i as int]);
            assert(ev[i as int] == (entries@[i as int].0@, entries@[i as int].1));
            assert(parts@.map_values(|p: String| p@).last() == parts@[parts@.len() - 1]@);
        }
        let last = &parts[parts.len() - 1];
        let x = last.as_str().as_bytes().len();
        if x > w {
            w = x;
        }
        i = i + 1;
    }
    assert(ev.take(entries.len() as int) == ev);
    w
}

/// The summary line under the tree.
pub open spec fn summary_line(constraints: nat, covered: nat, files: nat) -> Seq<char> {
    "Summary: "@ + decimal(constraints) + " constraint"@ + plural(constraints) + " across "@ + decimal(covered)
        + "/"@ + decimal(files) + " files ("@ + decimal(percent(covered, files)) + "%)"@
}

/// The line that counts uncovered files.
pub open spec fn uncovered_line(uncovered: nat) -> Seq<char> {
    "         "@ + decimal(uncovered) + " file"@ + plural(uncovered) + " uncovered"@
}

/// The text of the coverage view for the given files and their counts, with
/// `root` the tree of their paths.
pub open spec fn coverage_report_lines(entries: Seq<(Seq<char>, usize)>, root: DirNode) -> Seq<Seq<char>> {
    if entries.len() == 0 {
        seq!["No source files found."@]
    } else {
        let files = entries.len();
        let covered = covered_count(entries);
        seq!["Constraint Coverage"@, "───────────────────"@, Seq::empty()] + tree_lines(
            root,
            name_column(entries),
            largest_count(entries),
        ) + seq![Seq::empty(), summary_line(count_sum(entries), covered, files)] + (if files > covered {
            seq![uncovered_line((files - covered) as nat)]
        } else {
            Seq::empty()
        })
    }
}

/// The coverage view as lines of text: the tree of the given files with a
/// bar and a count for each, then the summary.
pub fn coverage_report(entries: &Vec<(String, usize)>) -> (res: Vec<String>)
    requires
        count_sum(entry_views(entries@)) <= usize::MAX,
        entries@.len() <= usize::MAX / 100,
        all_counts_at_most(entry_views(entries@), (usize::MAX / 16) as nat),
    ensures
        exists|root: DirNode|
            #[trigger] built(entry_views(entries@), root) && root.wf() && texts(res@) == coverage_report_lines(
                entry_views(entries@),
                root,
            ),
{
    let ghost ev = entry_views(entries@);
    let mut out: Vec<String> = Vec::new();
    if entries.len() == 0 {
        push_line(&mut out, String::from_str("No source files found."));
        let empty_root = DirNode::new("");
        proof {
            let trees = seq![empty_root];
            reveal_strlit("");
            assert(ev.len() == 0);
            assert(trees[0] == empty_root);
            assert(empty_root.name@ == Seq::<char>::empty());
            assert(build_steps(ev, trees));
            assert(trees.last() == empty_root);
            assert(built(ev, empty_root));
            assert(empty_root.wf());
            assert(texts(out@) == coverage_report_lines(ev, empty_root));
        }
        return out;
    }
    let summary = coverage_summary(entries);
    let max = summary.max_count;
    proof {
        assert(max <= usize::MAX / 16) by {
            if max > 0 {
                lemma_largest_is_a_count(ev);
            }
        }
    }
    let root = build_tree(entries, max);
    let width = name_column_width(entries);
    push_line(&mut out, String::from_str("Constraint Coverage"));
    push_line(&mut out, String::from_str("───────────────────"));
    push_line(&mut out, String::new());
    let tree = render_tree(&root, width, max);
    let ghost before = texts(out@);
    out.append(&mut tree.clone());
    proof {
        assert(texts(out@) == before + texts(tree@));
    }
    push_line(&mut out, String::new());
    let tc = summary.total_constraints;
    let cov = summary.covered_files;
    let tf = summary.total_files;
    let mut line = String::from_str("Summary: ");
    push_decimal(&mut line, tc as u64);
    line.append(" constraint");
    push_plural(&mut line, tc as u64);
    line.append(" across ");
    push_decimal(&mut line, cov as u64);
    line.append("/");
    push_decimal(&mut line, tf as u64);
    line.append(" files (");
    push_decimal(&mut line, summary.coverage_percent() as u64);
    line.append("%)");
    push_line(&mut out, line);
    if tf > cov {
        let n = summary.uncovered_files();
        let mut line = String::from_str("         ");
        push_decimal(&mut line, n as u64);
        line.append(" file");
        push_plural(&mut line, n as u64);
        line.append(" uncovered");
        push_line(&mut out, line);
    }
    proof {
        reveal_strlit("");
    }
    out
}

proof fn lemma_largest_is_a_count(entries: Seq<(Seq<char>, usize)>)
    requires
        largest_count(entries) > 0,
    ensures
        exists|i: int| 0 <= i < entries.len() && (#[trigger] entries[i]).1 == largest_count(entries),
    decreases entries.len(),
{
    if entries.len() > 0 {
        if entries.last().1 > largest_count(entries.drop_last()) {
            assert(entries[entries.len() - 1] == entries.last());
        } else {
            lemma_largest_is_a_count(entries.drop_last());
            let i = choose|i: int| 0 <= i < entries.drop_last().len() && (#[trigger] entries.drop_last()[i]).1 == largest_count(entries.drop_last());
            assert(entries[i] == entries.drop_last()[i]);
        }
    }
}

/// Source file extensions to include in coverage analysis.
pub open spec fn is_source_extension(e: Seq<char>) -> bool {
    e == "rs"@
        || e == "ts"@
        || e == "tsx"@
        || e == "js"@
        || e == "jsx"@
        || e == "py"@
        || e == "go"@
        || e == "java"@
        || e == "rb"@
        || e == "c"@
        || e == "cpp"@
        || e == "h"@
        || e == "hpp"@
        || e == "cs"@
        || e == "swift"@
        || e == "kt"@
        || e == "scala"@
        || e == "vue"@
        || e == "svelte"@
        || e == "ex"@
        || e == "exs"@
}

/// The source extensions are exactly rs, ts, tsx, js, jsx, py, go, java,
/// rb, c, cpp, h, hpp, cs, swift, kt, scala, vue, svelte, ex and exs.
pub proof fn lemma_source_extensions(e: Seq<char>)
    ensures
        is_source_extension(e) <==> seq![
            "rs"@, "ts"@, "tsx"@, "js"@, "jsx"@, "py"@, "go"@, "java"@, "rb"@, "c"@, "cpp"@,
            "h"@, "hpp"@, "cs"@, "swift"@, "kt"@, "scala"@, "vue"@, "svelte"@, "ex"@, "exs"@,
        ].contains(e),
{
    let list = seq![
        "rs"@, "ts"@, "tsx"@, "js"@, "jsx"@, "py"@, "go"@, "java"@, "rb"@, "c"@, "cpp"@,
        "h"@, "hpp"@, "cs"@, "swift"@, "kt"@, "scala"@, "vue"@, "svelte"@, "ex"@, "exs"@,
    ];
    if is_source_extension(e) {
        assert(list[0] == "rs"@ && list[1] == "ts"@ && list[2] == "tsx"@ && list[3] == "js"@ && list[4] == "jsx"@);
        assert(list[5] == "py"@ && list[6] == "go"@ && list[7] == "java"@ && list[8] == "rb"@ && list[9] == "c"@);
        assert(list[10] == "cpp"@ && list[11] == "h"@ && list[12] == "hpp"@ && list[13] == "cs"@ && list[14] == "swift"@);
        assert(list[15] == "kt"@ && list[16] == "scala"@ && list[17] == "vue"@ && list[18] == "svelte"@);
        assert(list[19] == "ex"@ && list[20] == "exs"@);
    }
    if list.contains(e) {
        let i = choose|i: int| 0 <= i < list.len() && list[i] == e;
        assert(0 <= i < 21);
    }
}

/// A path `stem.ext`, whose extension has no dot, is a source path exactly
/// when its extension is one of the source extensions.
pub proof fn lemma_source_path_extension(stem: Seq<char>, ext: Seq<char>)
    requires
        forall|k: int| 0 <= k < ext.len() ==> ext[k] != '.',
    ensures
        is_source_path(stem + "."@ + ext) <==> is_source_extension(ext),
{
    reveal_strlit(".");
    let line = stem + "."@ + ext;
    let start: int = stem.len() as int + 1;
    assert(line[start - 1] == '.');
    assert forall|k: int| start <= k < line.len() implies line[k] != '.' by {
        assert(line[k] == ext[k - start]);
    }
    crate::text::lemma_split_last_piece(line, '.', start);
    assert(line.subrange(start, line.len() as int) == ext);
}

/// Whether `e` is one of the source file extensions.
pub fn source_extension(e: &str) -> (res: bool)
    ensures
        res == is_source_extension(e@),
{
    str_eq(e, "rs")
        || str_eq(e, "ts")
        || str_eq(e, "tsx")
        || str_eq(e, "js")
        || str_eq(e, "jsx")
        || str_eq(e, "py")
        || str_eq(e, "go")
        || str_eq(e, "java")
        || str_eq(e, "rb")
        || str_eq(e, "c")
        || str_eq(e, "cpp")
        || str_eq(e, "h")
        || str_eq(e, "hpp")
        || str_eq(e, "cs")
        || str_eq(e, "swift")
        || str_eq(e, "kt")
        || str_eq(e, "scala")
        || str_eq(e, "vue")
        || str_eq(e, "svelte")
        || str_eq(e, "ex")
        || str_eq(e, "exs")
}

/// A non-empty line whose text after its last `.` (all of it when it has no
/// `.`) is a source extension.
pub open spec fn is_source_path(line: Seq<char>) -> bool {
    line.len() > 0 && is_source_extension(split_char(line, '.').last())
}

/// The source paths among the lines, in order.
pub open spec fn source_paths(lines: Seq<Seq<char>>) -> Seq<Seq<char>>
    decreases lines.len(),
{
    if lines.len() == 0 {
        Seq::empty()
    } else {
        source_paths(lines.drop_last()) + (if is_source_path(lines.last()) {
            seq![lines.last()]
        } else {
            Seq::empty()
        })
    }
}

/// Whether a listed path is a source file.
pub fn is_source_file(line: &str) -> (res: bool)
    ensures
        res == is_source_path(line@),
{
    if line.unicode_len() == 0 {
        return false;
    }
    let parts = split_on(line, '.');
    proof {
        lemma_split_nonempty(line@, '.');
        assert(parts@.map_values(|p: String| p@).last() == parts@[parts@.len() - 1]@);
    }
    source_extension(parts[parts.len() - 1].as_str())
}

/// The tracked source files in a `git ls-files` listing: its non-empty
/// lines whose extension is a source extension, in order.
pub fn source_files(listing: &str) -> (res: Vec<String>)
    ensures
        texts(res@) == source_paths(line_items(listing@)),
{
    let pieces = split_on(listing, '\n');
    let ghost items = line_items(listing@);
    let mut res: Vec<String> = Vec::new();
    let mut i: usize = 0;
    proof {
        lemma_split_nonempty(listing@, '\n');
        assert(items.take(0) == Seq::<Seq<char>>::empty());
        assert(texts(res@) == Seq::<Seq<char>>::empty());
    }
    while i < pieces.len()
        invariant
            i <= pieces@.len(),
            pieces@.map_values(|p: String| p@) == crate::text::split_char(listing@, '\n'),
            items == line_items(listing@),
            items.len() == pieces@.len(),
            texts(res@) == source_paths(items.take(i as int)),
        decreases pieces@.len() - i,
    {
        let piece = pieces[i].clone();
        let line = if i + 1 < pieces.len() {
            strip_cr_exec(piece)
        } else {
            piece
        };
        proof {
            assert(pieces@.map_values(|p: String| p@)[i as int] == pieces@[i as int]@);
            assert(line@ == items[i as int]);
            assert(items.take(i + 1).drop_last() == items.take(i as int));
            assert(items.take(i + 1).last() == items[i as int]);
        }
        if is_source_file(line.as_str()) {
            push_line(&mut res, line);
        } else {
            assert(texts(res@) + Seq::<Seq<char>>::empty() == texts(res@));
        }
        i = i + 1;
    }
    assert(items.take(pieces@.len() as int) == items);
    res
}

/// How many files the tree holds, at every level.
pub open spec fn file_total(node: DirNode) -> nat
    decreases node,
{
    node.files@.len() + dirs_total(node.subdirs@)
}

/// How many files the directories hold.
pub open spec fn dirs_total(dirs: Seq<DirNode>) -> nat
    decreases dirs,
{
    if dirs.len() == 0 {
        0
    } else {
        dirs_total(dirs.drop_last()) + file_total(dirs.last())
    }
}

proof fn lemma_dirs_total_update(dirs: Seq<DirNode>, i: int, d: DirNode)
    requires
        0 <= i < dirs.len(),
    ensures
        dirs_total(dirs.update(i, d)) + file_total(dirs[i]) == dirs_total(dirs) + file_total(d),
    decreases dirs.len(),
{
    let u = dirs.update(i, d);
    if i == dirs.len() - 1 {
        assert(u.drop_last() == dirs.drop_last());
    } else {
        lemma_dirs_total_update(dirs.drop_last(), i, d);
        assert(u.drop_last() == dirs.drop_last().update(i, d));
    }
}

proof fn lemma_dirs_total_insert(dirs: Seq<DirNode>, p: int, d: DirNode)
    requires
        0 <= p <= dirs.len(),
    ensures
        dirs_total(dirs.insert(p, d)) == dirs_total(dirs) + file_total(d),
    decreases dirs.len(),
{
    let u = dirs.insert(p, d);
    if p == dirs.len() {
        assert(u.drop_last() == dirs);
    } else {
        lemma_dirs_total_insert(dirs.drop_last(), p, d);
        assert(u.drop_last() == dirs.drop_last().insert(p, d));
    }
}

proof fn lemma_fresh_chain_total(node: DirNode, name: Seq<char>, rest: Seq<Seq<char>>, count: usize)
    requires
        fresh_chain(node, name, rest, count),
    ensures
        file_total(node) == 1,
    decreases rest.len(),
{
    if rest.len() <= 1 {
        assert(file_views(node.files@).len() == node.files@.len());
        assert(node.subdirs@ == Seq::<DirNode>::empty());
        assert(dirs_total(node.subdirs@) == 0);
        assert(file_total(node) == node.files@.len() + dirs_total(node.subdirs@));
    } else {
        lemma_fresh_chain_total(node.subdirs@[0], rest[0], rest.drop_first(), count);
        assert(node.subdirs@.drop_last() == Seq::<DirNode>::empty());
        assert(node.subdirs@.last() == node.subdirs@[0]);
        assert(dirs_total(node.subdirs@.drop_last()) == 0);
        assert(dirs_total(node.subdirs@) == dirs_total(node.subdirs@.drop_last()) + file_total(node.subdirs@.last()));
        assert(file_total(node) == node.files@.len() + dirs_total(node.subdirs@));
    }
}

/// Adding a file adds exactly one file to the tree.
pub proof fn lemma_inserted_adds_one_file(old: DirNode, parts: Seq<Seq<char>>, count: usize, new: DirNode)
    requires
        inserted(old, parts, count, new),
    ensures
        file_total(new) == file_total(old) + 1,
    decreases parts.len(),
{
    assert(file_views(new.files@).len() == new.files@.len());
    assert(file_views(old.files@).len() == old.files@.len());
    if parts.len() > 1 {
        if exists|i: int|
            0 <= i < old.subdirs@.len() && #[trigger] old.subdirs@[i].name@ == parts[0]
                && new.subdirs@ == old.subdirs@.update(i, new.subdirs@[i])
                && inserted(old.subdirs@[i], parts.drop_first(), count, new.subdirs@[i]) {
            let i = choose|i: int|
                0 <= i < old.subdirs@.len() && #[trigger] old.subdirs@[i].name@ == parts[0]
                    && new.subdirs@ == old.subdirs@.update(i, new.subdirs@[i])
                    && inserted(old.subdirs@[i], parts.drop_first(), count, new.subdirs@[i]);
            lemma_inserted_adds_one_file(old.subdirs@[i], parts.drop_first(), count, new.subdirs@[i]);
            lemma_dirs_total_update(old.subdirs@, i, new.subdirs@[i]);
        } else {
            let p = choose|p: int|
                0 <= p <= old.subdirs@.len() && new.subdirs@ == old.subdirs@.insert(p, #[trigger] new.subdirs@[p])
                    && fresh_chain(new.subdirs@[p], parts[0], parts.drop_first(), count);
            lemma_fresh_chain_total(new.subdirs@[p], parts[0], parts.drop_first(), count);
            lemma_dirs_total_insert(old.subdirs@, p, new.subdirs@[p]);
        }
    }
}

/// The coverage tree holds exactly one file per listed path.
pub proof fn lemma_built_tree_holds_every_file(entries: Seq<(Seq<char>, usize)>, root: DirNode)
    requires
        built(entries, root),
    ensures
        file_total(root) == entries.len(),
{
    let trees = choose|trees: Seq<DirNode>| #[trigger] build_steps(entries, trees) && trees.last() == root;
    lemma_steps_total(entries, trees, entries.len() as int);
}

proof fn lemma_steps_total(entries: Seq<(Seq<char>, usize)>, trees: Seq<DirNode>, k: int)
    requires
        build_steps(entries, trees),
        0 <= k <= entries.len(),
    ensures
        file_total(trees[k]) == k,
    decreases k,
{
    if k == 0 {
        assert(trees[0].subdirs@ == Seq::<DirNode>::empty());
    } else {
        lemma_steps_total(entries, trees, k - 1);
        lemma_inserted_adds_one_file(trees[k - 1], split_char(entries[k - 1].0, '/'), entries[k - 1].1, trees[k]);
    }
}

/// The share of covered files is at most a hundred percent.
pub proof fn lemma_percent_at_most_hundred(covered: nat, total: nat)
    requires
        covered <= total,
    ensures
        percent(covered, total) <= 100,
{
    if total > 0 {
        assert(covered * 100 <= total * 100) by (nonlinear_arith)
            requires covered <= total;
        assert(covered * 100 / total <= 100) by (nonlinear_arith)
            requires covered * 100 <= total * 100, total > 0;
    }
}

/// In a directory's listing, files with constraints come before files
/// without any.
pub proof fn lemma_covered_files_first(s: Seq<(Seq<char>, usize)>, i: int, j: int)
    requires
        0 <= i < sort_by_count_desc(s).len(),
        0 <= j < sort_by_count_desc(s).len(),
        sort_by_count_desc(s)[i].1 > 0,
        sort_by_count_desc(s)[j].1 == 0,
    ensures
        i < j,
{
    lemma_sort_by_count_sorted(s);
    let r = sort_by_count_desc(s);
    if j < i {
        assert(r[j].1 >= r[i].1);
    }
}

/// The coverage percent is the share of covered files rounded down: a
/// hundred times the covered files lies between `percent` and `percent + 1`
/// times the total (and it is zero when there are no files).
pub proof fn lemma_percent_rounds_down(covered: nat, total: nat)
    ensures
        total == 0 ==> percent(covered, total) == 0,
        total > 0 ==> percent(covered, total) * total <= covered * 100 < (percent(covered, total) + 1) * total,
{
    if total > 0 {
        let p = percent(covered, total);
        assert(p * total <= covered * 100 < (p + 1) * total) by (nonlinear_arith)
            requires p == covered * 100 / total, total > 0;
    }
}

} // verus!
