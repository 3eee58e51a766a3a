//! What holds of the two walks and of the aggregation as a whole.
use vstd::prelude::*;
use crate::aggregate::{records_text, FileText};
use crate::ignore::{excluded_by, matches_rule};
use crate::text::{is_prefix_of, path_components};
use crate::tree::{
    own_rules, plan, plan_upto, rules_of, rules_upto, well_formed, DirView, EntryView,
};

verus! {

/// Every file beneath directory `i`, each with the directory it lies in, in the
/// order of a walk that leaves nothing out.
pub open spec fn files_under(dirs: Seq<DirView>, i: int) -> Seq<(Seq<char>, Seq<char>)>
    decreases dirs.len() - i, dirs[i].entries.len() + 1,
{
    if 0 <= i < dirs.len() {
        files_upto(dirs, i, dirs[i].entries.len() as int)
    } else {
        Seq::empty()
    }
}

/// Every file beneath the first `k` entries of directory `i`.
pub open spec fn files_upto(dirs: Seq<DirView>, i: int, k: int) -> Seq<(Seq<char>, Seq<char>)>
    decreases dirs.len() - i, k,
{
    if 0 <= i < dirs.len() && 0 < k <= dirs[i].entries.len() {
        files_upto(dirs, i, k - 1) + match dirs[i].entries[k - 1] {
            EntryView::Subdir(c) => if i < c < dirs.len() {
                files_under(dirs, c)
            } else {
                Seq::empty()
            },
            EntryView::File(p) => seq![(dirs[i].path, p)],
        }
    } else {
        Seq::empty()
    }
}

/// The directories that a walk from directory `i` visits, each before those
/// beneath it.
pub open spec fn visited(dirs: Seq<DirView>, i: int) -> Seq<int>
    decreases dirs.len() - i, dirs[i].entries.len() + 1,
{
    if 0 <= i < dirs.len() {
        seq![i] + visited_upto(dirs, i, dirs[i].entries.len() as int)
    } else {
        Seq::empty()
    }
}

/// The directories visited beneath the first `k` entries of directory `i`.
pub open spec fn visited_upto(dirs: Seq<DirView>, i: int, k: int) -> Seq<int>
    decreases dirs.len() - i, k,
{
    if 0 <= i < dirs.len() && 0 < k <= dirs[i].entries.len() {
        visited_upto(dirs, i, k - 1) + match dirs[i].entries[k - 1] {
            EntryView::Subdir(c) => if i < c < dirs.len() {
                visited(dirs, c)
            } else {
                Seq::empty()
            },
            EntryView::File(_) => Seq::empty(),
        }
    } else {
        Seq::empty()
    }
}

proof fn lemma_no_rules_upto(dirs: Seq<DirView>, i: int, k: int)
    requires
        forall|d: int| 0 <= d < dirs.len() ==> (#[trigger] dirs[d]).ignore_text is None,
    ensures
        rules_upto(dirs, i, k) == Seq::<Seq<char>>::empty(),
    decreases dirs.len() - i, k,
{
    if 0 <= i < dirs.len() && 0 < k <= dirs[i].entries.len() {
        lemma_no_rules_upto(dirs, i, k - 1);
        match dirs[i].entries[k - 1] {
            EntryView::Subdir(c) => if i < c < dirs.len() {
                lemma_no_rules_upto(dirs, c, dirs[c].entries.len() as int);
                assert(own_rules(dirs[c]) == Seq::<Seq<char>>::empty());
                assert(rules_of(dirs, c) =~= Seq::<Seq<char>>::empty());
            },
            EntryView::File(_) => {},
        }
        assert(rules_upto(dirs, i, k) =~= Seq::<Seq<char>>::empty());
    }
}

proof fn lemma_plan_without_rules(dirs: Seq<DirView>, i: int, k: int)
    ensures
        plan_upto(dirs, Seq::empty(), i, k) == files_upto(dirs, i, k),
    decreases dirs.len() - i, k,
{
    if 0 <= i < dirs.len() && 0 < k <= dirs[i].entries.len() {
        lemma_plan_without_rules(dirs, i, k - 1);
        match dirs[i].entries[k - 1] {
            EntryView::Subdir(c) => if i < c < dirs.len() {
                lemma_plan_without_rules(dirs, c, dirs[c].entries.len() as int);
                assert(!excluded_by(dirs[c].path, Seq::empty()));
                assert(plan(dirs, Seq::empty(), c) == files_under(dirs, c));
            },
            EntryView::File(_) => {},
        }
    }
}

/// Where no directory of the tree has an ignore file, the first walk gathers no
/// rule and the second lists every file of the tree, each once, in walk order.
pub proof fn lemma_no_ignore_files_keeps_every_file(dirs: Seq<DirView>)
    requires
        well_formed(dirs),
        forall|d: int| 0 <= d < dirs.len() ==> (#[trigger] dirs[d]).ignore_text is None,
    ensures
        rules_of(dirs, 0) == Seq::<Seq<char>>::empty(),
        plan(dirs, rules_of(dirs, 0), 0) == files_under(dirs, 0),
{
    lemma_no_rules_upto(dirs, 0, dirs[0].entries.len() as int);
    assert(own_rules(dirs[0]) == Seq::<Seq<char>>::empty());
    assert(rules_of(dirs, 0) =~= Seq::<Seq<char>>::empty());
    lemma_plan_without_rules(dirs, 0, dirs[0].entries.len() as int);
    assert(!excluded_by(dirs[0].path, Seq::empty()));
}

/// A rule that matches a directory matches every path beneath it.
pub proof fn lemma_rule_covers_subpaths(rule: Seq<char>, d: Seq<char>, e: Seq<char>)
    requires
        matches_rule(d, rule),
        is_prefix_of(path_components(d), path_components(e)),
    ensures
        matches_rule(e, rule),
{
    let r = path_components(rule);
    let pd = path_components(d);
    let pe = path_components(e);
    assert(pe.take(r.len() as int) =~= pd.take(r.len() as int));
}

proof fn lemma_plan_upto_not_excluded(dirs: Seq<DirView>, rules: Seq<Seq<char>>, i: int, k: int)
    requires
        0 <= i < dirs.len() ==> !excluded_by(dirs[i].path, rules),
    ensures
        forall|m: int|
            0 <= m < plan_upto(dirs, rules, i, k).len() ==> !excluded_by(
                (#[trigger] plan_upto(dirs, rules, i, k)[m]).0,
                rules,
            ),
    decreases dirs.len() - i, k,
{
    if 0 <= i < dirs.len() && 0 < k <= dirs[i].entries.len() {
        lemma_plan_upto_not_excluded(dirs, rules, i, k - 1);
        let front = plan_upto(dirs, rules, i, k - 1);
        match dirs[i].entries[k - 1] {
            EntryView::Subdir(c) => if i < c < dirs.len() {
                if !excluded_by(dirs[c].path, rules) {
                    lemma_plan_upto_not_excluded(dirs, rules, c, dirs[c].entries.len() as int);
                    assert(plan(dirs, rules, c) == plan_upto(dirs, rules, c, dirs[c].entries.len() as int));
                }
                let back = plan(dirs, rules, c);
                assert forall|m: int| 0 <= m < plan_upto(dirs, rules, i, k).len() implies !excluded_by(
                    (#[trigger] plan_upto(dirs, rules, i, k)[m]).0,
                    rules,
                ) by {
                    if m >= front.len() {
                        assert(plan_upto(dirs, rules, i, k)[m] == back[m - front.len()]);
                    }
                }
            } else {
                assert(plan_upto(dirs, rules, i, k) =~= front);
            },
            EntryView::File(p) => {
                assert forall|m: int| 0 <= m < plan_upto(dirs, rules, i, k).len() implies !excluded_by(
                    (#[trigger] plan_upto(dirs, rules, i, k)[m]).0,
                    rules,
                ) by {
                    if m >= front.len() {
                        assert(plan_upto(dirs, rules, i, k)[m] == (dirs[i].path, p));
                    }
                }
            },
        }
    }
}

/// A directory that a rule matches yields nothing and is not entered; and no
/// file of the second walk lies in, or beneath, a directory that a rule matches.
pub proof fn lemma_excluded_directories_yield_nothing(dirs: Seq<DirView>, rules: Seq<Seq<char>>, i: int)
    requires
        well_formed(dirs),
        0 <= i < dirs.len(),
    ensures
        excluded_by(dirs[i].path, rules) ==> plan(dirs, rules, i) == Seq::<(Seq<char>, Seq<char>)>::empty(),
        forall|m: int, d: Seq<char>|
            #![trigger plan(dirs, rules, i)[m], excluded_by(d, rules)]
            0 <= m < plan(dirs, rules, i).len() && excluded_by(d, rules) && is_prefix_of(
                path_components(d),
                path_components(plan(dirs, rules, i)[m].0),
            ) ==> false,
{
    if !excluded_by(dirs[i].path, rules) {
        lemma_plan_upto_not_excluded(dirs, rules, i, dirs[i].entries.len() as int);
    }
    assert forall|m: int, d: Seq<char>|
        #![trigger plan(dirs, rules, i)[m], excluded_by(d, rules)]
        0 <= m < plan(dirs, rules, i).len() && excluded_by(d, rules) && is_prefix_of(
            path_components(d),
            path_components(plan(dirs, rules, i)[m].0),
        ) implies false by {
        let e = plan(dirs, rules, i)[m].0;
        let j = choose|j: int| 0 <= j < rules.len() && matches_rule(d, #[trigger] rules[j]);
        lemma_rule_covers_subpaths(rules[j], d, e);
        assert(matches_rule(e, rules[j]));
        assert(excluded_by(e, rules));
        assert(!excluded_by(dirs[i].path, rules));
        assert(plan(dirs, rules, i) == plan_upto(dirs, rules, i, dirs[i].entries.len() as int));
    }
}

/// Every rule of the ignore file of every directory of `vis` is among `rules`.
pub open spec fn gathers(dirs: Seq<DirView>, vis: Seq<int>, rules: Seq<Seq<char>>) -> bool {
    forall|m: int, t: int|
        0 <= m < vis.len() && 0 <= t < own_rules(dirs[vis[m]]).len() ==> rules.contains(
            #[trigger] own_rules(dirs[vis[m]])[t],
        )
}

proof fn lemma_gathers_concat(
    dirs: Seq<DirView>,
    a: Seq<int>,
    ra: Seq<Seq<char>>,
    b: Seq<int>,
    rb: Seq<Seq<char>>,
)
    requires
        gathers(dirs, a, ra),
        gathers(dirs, b, rb),
    ensures
        gathers(dirs, a + b, ra + rb),
{
    let v = a + b;
    let r = ra + rb;
    assert forall|m: int, t: int|
        0 <= m < v.len() && 0 <= t < own_rules(dirs[v[m]]).len() implies r.contains(
        #[trigger] own_rules(dirs[v[m]])[t],
    ) by {
        let x = own_rules(dirs[v[m]])[t];
        if m < a.len() {
            assert(v[m] == a[m]);
            assert(ra.contains(own_rules(dirs[a[m]])[t]));
            let u = choose|u: int| 0 <= u < ra.len() && ra[u] == x;
            assert(r[u] == x);
        } else {
            assert(v[m] == b[m - a.len()]);
            assert(rb.contains(own_rules(dirs[b[m - a.len()]])[t]));
            let u = choose|u: int| 0 <= u < rb.len() && rb[u] == x;
            assert(r[ra.len() + u] == x);
        }
    }
}

proof fn lemma_gathers_upto(dirs: Seq<DirView>, i: int, k: int)
    ensures
        gathers(dirs, visited_upto(dirs, i, k), rules_upto(dirs, i, k)),
    decreases dirs.len() - i, k,
{
    if 0 <= i < dirs.len() && 0 < k <= dirs[i].entries.len() {
        lemma_gathers_upto(dirs, i, k - 1);
        match dirs[i].entries[k - 1] {
            EntryView::Subdir(c) => if i < c < dirs.len() {
                lemma_gathers_upto(dirs, c, dirs[c].entries.len() as int);
                lemma_gathers_own(dirs, c);
                lemma_gathers_concat(
                    dirs,
                    seq![c],
                    own_rules(dirs[c]),
                    visited_upto(dirs, c, dirs[c].entries.len() as int),
                    rules_upto(dirs, c, dirs[c].entries.len() as int),
                );
                lemma_gathers_concat(
                    dirs,
                    visited_upto(dirs, i, k - 1),
                    rules_upto(dirs, i, k - 1),
                    visited(dirs, c),
                    rules_of(dirs, c),
                );
            } else {
                assert(visited_upto(dirs, i, k) =~= visited_upto(dirs, i, k - 1));
                assert(rules_upto(dirs, i, k) =~= rules_upto(dirs, i, k - 1));
            },
            EntryView::File(_) => {
                assert(visited_upto(dirs, i, k) =~= visited_upto(dirs, i, k - 1));
                assert(rules_upto(dirs, i, k) =~= rules_upto(dirs, i, k - 1));
            },
        }
    }
}

proof fn lemma_gathers_own(dirs: Seq<DirView>, i: int)
    ensures
        gathers(dirs, seq![i], own_rules(dirs[i])),
{
    let own = own_rules(dirs[i]);
    assert forall|m: int, t: int|
        0 <= m < seq![i].len() && 0 <= t < own_rules(dirs[seq![i][m]]).len() implies own.contains(
        #[trigger] own_rules(dirs[seq![i][m]])[t],
    ) by {
        assert(own[t] == own_rules(dirs[seq![i][m]])[t]);
    }
}

/// The first walk gathers the rules of every directory it visits: a rule from
/// the ignore file of any directory of the tree applies to every directory,
/// also to those that the walk meets before the one that declares it, and such
/// a directory yields no file.
pub proof fn lemma_rules_apply_across_tree(dirs: Seq<DirView>, j: int, t: int, k: int)
    requires
        well_formed(dirs),
        visited(dirs, 0).contains(j),
        0 <= t < own_rules(dirs[j]).len(),
        0 <= k < dirs.len(),
        matches_rule(dirs[k].path, own_rules(dirs[j])[t]),
    ensures
        rules_of(dirs, 0).contains(own_rules(dirs[j])[t]),
        plan(dirs, rules_of(dirs, 0), k) == Seq::<(Seq<char>, Seq<char>)>::empty(),
{
    let n = dirs[0].entries.len() as int;
    lemma_gathers_own(dirs, 0);
    lemma_gathers_upto(dirs, 0, n);
    lemma_gathers_concat(dirs, seq![0], own_rules(dirs[0]), visited_upto(dirs, 0, n), rules_upto(dirs, 0, n));
    assert(visited(dirs, 0) == seq![0int] + visited_upto(dirs, 0, n));
    let m = choose|m: int| 0 <= m < visited(dirs, 0).len() && visited(dirs, 0)[m] == j;
    assert(rules_of(dirs, 0).contains(own_rules(dirs[visited(dirs, 0)[m]])[t]));
    let rules = rules_of(dirs, 0);
    let u = choose|u: int| 0 <= u < rules.len() && rules[u] == own_rules(dirs[j])[t];
    assert(matches_rule(dirs[k].path, rules[u]));
    assert(excluded_by(dirs[k].path, rules));
}

/// The walks and the aggregation depend on nothing but what they are given: the
/// same tree gives the same rules and the same files, and files that read the
/// same give the same text.
pub proof fn lemma_aggregation_repeats(
    dirs1: Seq<DirView>,
    dirs2: Seq<DirView>,
    files1: Seq<FileText>,
    files2: Seq<FileText>,
)
    requires
        dirs1 == dirs2,
        files1.len() == files2.len(),
        forall|j: int|
            0 <= j < files1.len() ==> (#[trigger] files1[j]).dir@ == files2[j].dir@
                && files1[j].content is Some && files2[j].content is Some
                && files1[j].content->0@ == files2[j].content->0@,
    ensures
        rules_of(dirs1, 0) == rules_of(dirs2, 0),
        plan(dirs1, rules_of(dirs1, 0), 0) == plan(dirs2, rules_of(dirs2, 0), 0),
        records_text(files1) == records_text(files2),
    decreases files1.len(),
{
    if files1.len() > 0 {
        lemma_aggregation_repeats(dirs1, dirs2, files1.drop_last(), files2.drop_last());
        assert(files1.last() == files1[files1.len() - 1]);
    }
}

} // verus!
