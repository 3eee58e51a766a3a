//! A snapshot of a directory tree, and its two walks: the first gathers the
//! ignore rules of every directory, the second lists the files to aggregate,
//! skipping each directory that a rule matches together with all beneath it.
use vstd::prelude::*;
use crate::ignore::{excluded_by, ignore_rules, IgnoreIndex};

verus! {

/// One entry of a directory, in the order in which the directory listed it.
pub enum Entry {
    /// A file, by its path.
    File(String),
    /// A subdirectory, by its position in the tree's list of directories.
    Subdir(usize),
}

/// A directory: its path, the text of its ignore file if it has one, and its
/// entries.
pub struct Dir {
    pub path: String,
    pub ignore_text: Option<String>,
    pub entries: Vec<Entry>,
}

/// A directory tree, its root first. A subdirectory always stands after the
/// directory that lists it.
pub struct Tree {
    pub dirs: Vec<Dir>,
}

/// A file that the aggregation reads: the directory it lies in, and its path.
pub struct FileRef {
    pub dir: String,
    pub path: String,
}

pub enum EntryView {
    File(Seq<char>),
    Subdir(int),
}

pub struct DirView {
    pub path: Seq<char>,
    pub ignore_text: Option<Seq<char>>,
    pub entries: Seq<EntryView>,
}

impl View for Entry {
    type V = EntryView;

    open spec fn view(&self) -> EntryView {
        match self {
            Entry::File(p) => EntryView::File(p@),
            Entry::Subdir(c) => EntryView::Subdir(*c as int),
        }
    }
}

impl View for Dir {
    type V = DirView;

    open spec fn view(&self) -> DirView {
        DirView {
            path: self.path@,
            ignore_text: match self.ignore_text {
                Some(t) => Some(t@),
                None => None,
            },
            entries: self.entries@.map_values(|e: Entry| e@),
        }
    }
}

impl View for Tree {
    type V = Seq<DirView>;

    open spec fn view(&self) -> Seq<DirView> {
        self.dirs@.map_values(|d: Dir| d@)
    }
}

impl View for FileRef {
    type V = (Seq<char>, Seq<char>);

    open spec fn view(&self) -> (Seq<char>, Seq<char>) {
        (self.dir@, self.path@)
    }
}

/// The view of each file of a sequence.
pub open spec fn file_views(v: Seq<FileRef>) -> Seq<(Seq<char>, Seq<char>)> {
    v.map_values(|f: FileRef| f@)
}

/// The subdirectory that entry `k` of directory `i` names, if it names one.
pub open spec fn child_of(dirs: Seq<DirView>, i: int, k: int) -> Option<int> {
    match dirs[i].entries[k] {
        EntryView::Subdir(c) => Some(c),
        EntryView::File(_) => None,
    }
}

/// A tree has a root, and every subdirectory stands after its parent.
pub open spec fn well_formed(dirs: Seq<DirView>) -> bool {
    &&& dirs.len() > 0
    &&& forall|i: int, k: int|
        0 <= i < dirs.len() && 0 <= k < dirs[i].entries.len() && #[trigger] child_of(dirs, i, k)
            is Some ==> i < child_of(dirs, i, k)->0 < dirs.len()
}

/// The rules that a directory's own ignore file declares.
pub open spec fn own_rules(d: DirView) -> Seq<Seq<char>> {
    match d.ignore_text {
        Some(t) => ignore_rules(t),
        None => Seq::empty(),
    }
}

/// The rules of the first walk from directory `i`: its own, then those of each
/// subdirectory in listing order, every directory visited.
pub open spec fn rules_of(dirs: Seq<DirView>, i: int) -> Seq<Seq<char>>
    decreases dirs.len() - i, dirs[i].entries.len() + 1,
{
    if 0 <= i < dirs.len() {
        own_rules(dirs[i]) + rules_upto(dirs, i, dirs[i].entries.len() as int)
    } else {
        Seq::empty()
    }
}

/// The rules found beneath the first `k` entries of directory `i`.
pub open spec fn rules_upto(dirs: Seq<DirView>, i: int, k: int) -> Seq<Seq<char>>
    decreases dirs.len() - i, k,
{
    if 0 <= i < dirs.len() && 0 < k <= dirs[i].entries.len() {
        rules_upto(dirs, i, k - 1) + match dirs[i].entries[k - 1] {
            EntryView::Subdir(c) => if i < c < dirs.len() {
                rules_of(dirs, c)
            } else {
                Seq::empty()
            },
            EntryView::File(_) => Seq::empty(),
        }
    } else {
        Seq::empty()
    }
}

/// The files of the second walk from directory `i`, each with the directory it
/// lies in: nothing where a rule matches the directory, else its entries in
/// listing order, a subdirectory by its own walk.
pub open spec fn plan(dirs: Seq<DirView>, rules: Seq<Seq<char>>, i: int) -> Seq<(Seq<char>, Seq<char>)>
    decreases dirs.len() - i, dirs[i].entries.len() + 1,
{
    if 0 <= i < dirs.len() {
        if excluded_by(dirs[i].path, rules) {
            Seq::empty()
        } else {
            plan_upto(dirs, rules, i, dirs[i].entries.len() as int)
        }
    } else {
        Seq::empty()
    }
}

/// The files of the second walk through the first `k` entries of directory `i`.
pub open spec fn plan_upto(dirs: Seq<DirView>, rules: Seq<Seq<char>>, i: int, k: int) -> Seq<(Seq<char>, Seq<char>)>
    decreases dirs.len() - i, k,
{
    if 0 <= i < dirs.len() && 0 < k <= dirs[i].entries.len() {
        plan_upto(dirs, rules, i, k - 1) + match dirs[i].entries[k - 1] {
            EntryView::Subdir(c) => if i < c < dirs.len() {
                plan(dirs, rules, c)
            } else {
                Seq::empty()
            },
            EntryView::File(p) => seq![(dirs[i].path, p)],
        }
    } else {
        Seq::empty()
    }
}

impl Tree {
    /// Whether the tree is well formed.
    pub fn is_well_formed(&self) -> (r: bool)
        ensures
            r == well_formed(self@),
    {
        if self.dirs.len() == 0 {
            return false;
        }
        let n = self.dirs.len();
        let mut i: usize = 0;
        while i < n
            invariant
                n == self.dirs@.len(),
                n > 0,
                i <= n,
                forall|a: int, k: int|
                    0 <= a < i && 0 <= k < self@[a].entries.len() && #[trigger] child_of(self@, a, k)
                        is Some ==> a < child_of(self@, a, k)->0 < n,
            decreases n - i,
        {
            let m = self.dirs[i].entries.len();
            let mut k: usize = 0;
            while k < m
                invariant
                    n == self.dirs@.len(),
                    i < n,
                    m == self@[i as int].entries.len(),
                    k <= m,
                    forall|a: int, b: int|
                        0 <= a < i && 0 <= b < self@[a].entries.len() && #[trigger] child_of(self@, a, b)
                            is Some ==> a < child_of(self@, a, b)->0 < n,
                    forall|b: int|
                        0 <= b < k && #[trigger] child_of(self@, i as int, b) is Some ==> i < child_of(
                            self@,
                            i as int,
                            b,
                        )->0 < n,
                decreases m - k,
            {
                match &self.dirs[i].entries[k] {
                    Entry::Subdir(c) => {
                        assert(child_of(self@, i as int, k as int) == Some(*c as int));
                        if !(i < *c && *c < n) {
                            return false;
                        }
                    },
                    Entry::File(_) => {
                        assert(child_of(self@, i as int, k as int) is None);
                    },
                }
                k = k + 1;
            }
            i = i + 1;
        }
        true
    }

    /// The ignore rules of every directory of the tree, in the order of a walk
    /// from the root that visits each directory before its subdirectories.
    pub fn collect_ignore_index(&self) -> (r: IgnoreIndex)
        requires
            well_formed(self@),
        ensures
            r@ == rules_of(self@, 0),
    {
        let mut index = IgnoreIndex::new();
        self.collect_from(0, &mut index);
        assert(index@ =~= rules_of(self@, 0));
        index
    }

    fn collect_from(&self, i: usize, index: &mut IgnoreIndex)
        requires
            well_formed(self@),
            i < self@.len(),
        ensures
            final(index)@ == old(index)@ + rules_of(self@, i as int),
        decreases self@.len() - i,
    {
        let ghost start = index@;
        let dir = &self.dirs[i];
        match &dir.ignore_text {
            Some(t) => index.add_ignore_text(t.as_str()),
            None => {},
        }
        let ghost own = index@;
        assert(own =~= start + own_rules(self@[i as int]));
        let m = dir.entries.len();
        let mut k: usize = 0;
        assert(own =~= own + rules_upto(self@, i as int, 0));
        while k < m
            invariant
                well_formed(self@),
                i < self@.len(),
                dir == self.dirs@[i as int],
                m == self@[i as int].entries.len(),
                k <= m,
                index@ == own + rules_upto(self@, i as int, k as int),
            decreases m - k,
        {
            match &dir.entries[k] {
                Entry::Subdir(c) => {
                    assert(child_of(self@, i as int, k as int) == Some(*c as int));
                    self.collect_from(*c, index);
                },
                Entry::File(_) => {
                    assert(child_of(self@, i as int, k as int) is None);
                },
            }
            k = k + 1;
            assert(index@ =~= own + rules_upto(self@, i as int, k as int));
        }
        assert(index@ =~= start + rules_of(self@, i as int));
    }

    /// The files to aggregate, in walk order: a directory that a rule of the
    /// index matches is skipped with all beneath it.
    pub fn files_to_read(&self, index: &IgnoreIndex) -> (r: Vec<FileRef>)
        requires
            well_formed(self@),
        ensures
            file_views(r@) == plan(self@, index@, 0),
    {
        let mut out: Vec<FileRef> = Vec::new();
        self.plan_from(index, 0, &mut out);
        assert(file_views(out@) =~= plan(self@, index@, 0));
        out
    }

    fn plan_from(&self, index: &IgnoreIndex, i: usize, out: &mut Vec<FileRef>)
        requires
            well_formed(self@),
            i < self@.len(),
        ensures
            file_views(final(out)@) == file_views(old(out)@) + plan(self@, index@, i as int),
        decreases self@.len() - i,
    {
        let ghost start = file_views(out@);
        let dir = &self.dirs[i];
        if index.excludes(dir.path.as_str()) {
            assert(file_views(out@) =~= start + plan(self@, index@, i as int));
            return;
        }
        let m = dir.entries.len();
        let mut k: usize = 0;
        assert(file_views(out@) =~= start + plan_upto(self@, index@, i as int, 0));
        while k < m
            invariant
                well_formed(self@),
                i < self@.len(),
                dir == self.dirs@[i as int],
                !excluded_by(self@[i as int].path, index@),
                m == self@[i as int].entries.len(),
                k <= m,
                file_views(out@) == start + plan_upto(self@, index@, i as int, k as int),
            decreases m - k,
        {
            let ghost before = file_views(out@);
            match &dir.entries[k] {
                Entry::Subdir(c) => {
                    assert(child_of(self@, i as int, k as int) == Some(*c as int));
                    self.plan_from(index, *c, out);
                },
                Entry::File(p) => {
                    let f = FileRef { dir: dir.path.clone(), path: p.clone() };
                    out.push(f);
                    assert(file_views(out@) =~= before.push(f@));
                },
            }
            k = k + 1;
            assert(file_views(out@) =~= start + plan_upto(self@, index@, i as int, k as int));
        }
        assert(file_views(out@) =~= start + plan(self@, index@, i as int));
    }
}

} // verus!
