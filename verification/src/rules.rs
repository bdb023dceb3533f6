//! Language rules: markdown files grouped by namespace (a language, `common`,
//! or `root` for files at the top of the rules directory), and the text that
//! injects the rules relevant to a project into the system prompt.

use vstd::prelude::*;
use vstd::utf8::encode_utf8;
use std::path::PathBuf;
use crate::sorting::{
    SortKey, key_sorted, key_strictly_sorted, keys_distinct, lemma_map_same_elements,
    lemma_sort_by_key, lemma_sort_by_key_strict, sort_by_key, sort_by_key_spec,
};
use crate::files::{ListedFile, is_hidden, is_hidden_name, is_markdown_file_name, is_markdown_name};
use crate::text::{lemma_text_order, same_text, text_le, text_le_exec, text_lt};

verus! {

/// The most bytes of rule text injected into the system prompt.
pub const MAX_RULES_INJECTION_CHARS: usize = 8000;

/// The namespace of rules that apply to every project.
pub const COMMON_NAMESPACE: &'static str = "common";

/// The namespace of rule files that stand at the top of the rules directory.
pub const ROOT_NAMESPACE: &'static str = "root";

/// A rule file.
#[derive(Debug)]
pub struct Rule {
    pub namespace: String,
    pub filename: String,
    pub content: String,
    pub path: PathBuf,
}

impl Clone for Rule {
    fn clone(&self) -> (r: Self)
        ensures
            r == *self,
    {
        Rule {
            namespace: self.namespace.clone(),
            filename: self.filename.clone(),
            content: self.content.clone(),
            path: self.path.clone(),
        }
    }
}

impl SortKey for Rule {
    /// Rules are ordered by namespace, then by file name.
    open spec fn key_le(a: Self, b: Self) -> bool {
        text_lt(a.namespace@, b.namespace@) || (a.namespace@ == b.namespace@ && text_le(
            a.filename@,
            b.filename@,
        ))
    }

    proof fn lemma_key_le(a: Self, b: Self, c: Self) {
        lemma_text_order(a.namespace@, b.namespace@, c.namespace@);
        lemma_text_order(b.namespace@, c.namespace@, a.namespace@);
        lemma_text_order(c.namespace@, a.namespace@, b.namespace@);
        lemma_text_order(a.filename@, b.filename@, c.filename@);
    }

    fn key_le_exec(&self, other: &Self) -> (r: bool) {
        proof {
            lemma_text_order(self.namespace@, other.namespace@, self.namespace@);
        }
        let forward = text_le_exec(self.namespace.as_str(), other.namespace.as_str());
        let backward = text_le_exec(other.namespace.as_str(), self.namespace.as_str());
        if forward && backward {
            text_le_exec(self.filename.as_str(), other.filename.as_str())
        } else {
            forward
        }
    }
}

/// An entry at the top of a rules directory: a file, or a subdirectory
/// with its name and its files.
#[derive(Debug)]
pub enum RulesEntry {
    File(ListedFile),
    Dir(String, Vec<ListedFile>),
}

/// What a rule holds: namespace, file name, text and path.
pub open spec fn rule_view(r: Rule) -> (Seq<char>, Seq<char>, Seq<char>, PathBuf) {
    (r.namespace@, r.filename@, r.content@, r.path)
}

/// The rule that a listed file gives in `namespace`: one where it is a
/// markdown file whose text could be read, else none.
pub open spec fn file_rule(namespace: Seq<char>, f: ListedFile) -> Seq<
    (Seq<char>, Seq<char>, Seq<char>, PathBuf),
> {
    match f.content {
        Some(content) => if is_markdown_name(f.name@) {
            seq![(namespace, f.name@, content@, f.path)]
        } else {
            seq![]
        },
        None => seq![],
    }
}

/// The rules that the files of a subdirectory give, in listing order.
pub open spec fn dir_rules(namespace: Seq<char>, files: Seq<ListedFile>) -> Seq<
    (Seq<char>, Seq<char>, Seq<char>, PathBuf),
>
    decreases files.len(),
{
    if files.len() == 0 {
        seq![]
    } else {
        dir_rules(namespace, files.drop_last()) + file_rule(namespace, files.last())
    }
}

/// The rules that one top-level entry gives: none for a hidden entry; a
/// markdown file in the root namespace; the markdown files of a
/// subdirectory in the namespace named by the subdirectory.
pub open spec fn entry_rules(e: RulesEntry) -> Seq<(Seq<char>, Seq<char>, Seq<char>, PathBuf)> {
    match e {
        RulesEntry::File(f) => if is_hidden(f.name@) {
            seq![]
        } else {
            file_rule(ROOT_NAMESPACE@, f)
        },
        RulesEntry::Dir(name, files) => if is_hidden(name@) {
            seq![]
        } else {
            dir_rules(name@, files@)
        },
    }
}

/// The rules of a listing, in listing order.
pub open spec fn listing_rules(entries: Seq<RulesEntry>) -> Seq<
    (Seq<char>, Seq<char>, Seq<char>, PathBuf),
>
    decreases entries.len(),
{
    if entries.len() == 0 {
        seq![]
    } else {
        listing_rules(entries.drop_last()) + entry_rules(entries.last())
    }
}

/// What each rule of `s` holds, in order.
pub open spec fn rule_views(s: Seq<Rule>) -> Seq<(Seq<char>, Seq<char>, Seq<char>, PathBuf)> {
    s.map_values(|x: Rule| rule_view(x))
}

/// The rules `r` are those of the listing `entries`, stably sorted by
/// namespace and file name.
pub open spec fn listed_registry(r: Seq<Rule>, entries: Seq<RulesEntry>) -> bool {
    exists|found: Seq<Rule>|
        rule_views(found) == listing_rules(entries) && r
            == sort_by_key_spec(found)
}

/// The order of rules, on what they hold.
pub open spec fn view_key_le(
    v: (Seq<char>, Seq<char>, Seq<char>, PathBuf),
    w: (Seq<char>, Seq<char>, Seq<char>, PathBuf),
) -> bool {
    text_lt(v.0, w.0) || (v.0 == w.0 && text_le(v.1, w.1))
}

/// No two different rules of `vs` have the same namespace and file name.
pub open spec fn rule_keys_identify(vs: Seq<(Seq<char>, Seq<char>, Seq<char>, PathBuf)>) -> bool {
    forall|v: (Seq<char>, Seq<char>, Seq<char>, PathBuf), w: (Seq<char>, Seq<char>, Seq<char>, PathBuf)|
        #![trigger vs.contains(v), vs.contains(w)]
        vs.contains(v) && vs.contains(w) && v.0 == w.0 && v.1 == w.1 ==> v == w
}

/// `vs` is in the order of rules.
pub open spec fn views_sorted(vs: Seq<(Seq<char>, Seq<char>, Seq<char>, PathBuf)>) -> bool {
    forall|i: int, j: int| 0 <= i < j < vs.len() ==> view_key_le(#[trigger] vs[i], #[trigger] vs[j])
}

proof fn lemma_view_key_le(
    u: (Seq<char>, Seq<char>, Seq<char>, PathBuf),
    v: (Seq<char>, Seq<char>, Seq<char>, PathBuf),
    w: (Seq<char>, Seq<char>, Seq<char>, PathBuf),
)
    ensures
        view_key_le(u, u),
        view_key_le(u, v) && view_key_le(v, u) ==> u.0 == v.0 && u.1 == v.1,
        view_key_le(u, v) && view_key_le(v, w) ==> view_key_le(u, w),
{
    lemma_text_order(u.0, v.0, w.0);
    lemma_text_order(v.0, w.0, u.0);
    lemma_text_order(w.0, u.0, v.0);
    lemma_text_order(u.1, v.1, w.1);
    lemma_text_order(v.1, u.1, w.1);
}

/// Two sequences in the order of rules, holding the same rules, no two of
/// which share a namespace and file name, are equal.
proof fn lemma_views_sorted_unique(
    x: Seq<(Seq<char>, Seq<char>, Seq<char>, PathBuf)>,
    y: Seq<(Seq<char>, Seq<char>, Seq<char>, PathBuf)>,
)
    requires
        views_sorted(x),
        views_sorted(y),
        x.to_multiset() =~= y.to_multiset(),
        rule_keys_identify(x),
    ensures
        x == y,
    decreases x.len(),
{
    broadcast use vstd::seq_lib::group_to_multiset_ensures;

    assert(x.to_multiset().len() == y.to_multiset().len());
    if x.len() == 0 {
        assert(x =~= y);
    } else {
        assert(x.to_multiset().count(y[0]) > 0);
        assert(y.to_multiset().count(x[0]) > 0);
        assert(x.contains(y[0]) && y.contains(x[0]) && x.contains(x[0]));
        lemma_view_key_le(x[0], y[0], x[0]);
        let j = choose|j: int| 0 <= j < x.len() && x[j] == y[0];
        let k = choose|k: int| 0 <= k < y.len() && y[k] == x[0];
        if j > 0 {
            assert(view_key_le(x[0], x[j]));
        }
        if k > 0 {
            assert(view_key_le(y[0], y[k]));
        }
        assert(x[0] == y[0]);
        let xs = x.drop_first();
        let ys = y.drop_first();
        assert(xs =~= x.remove(0));
        assert(ys =~= y.remove(0));
        assert(xs.to_multiset() =~= ys.to_multiset());
        assert(views_sorted(xs)) by {
            assert forall|a: int, b: int| 0 <= a < b < xs.len() implies view_key_le(
                #[trigger] xs[a],
                #[trigger] xs[b],
            ) by {
                assert(view_key_le(x[a + 1], x[b + 1]));
            }
        }
        assert(views_sorted(ys)) by {
            assert forall|a: int, b: int| 0 <= a < b < ys.len() implies view_key_le(
                #[trigger] ys[a],
                #[trigger] ys[b],
            ) by {
                assert(view_key_le(y[a + 1], y[b + 1]));
            }
        }
        assert(rule_keys_identify(xs)) by {
            assert forall|v: (Seq<char>, Seq<char>, Seq<char>, PathBuf), w: (Seq<char>, Seq<char>, Seq<char>, PathBuf)|
                xs.contains(v) && xs.contains(w) && v.0 == w.0 && v.1 == w.1 implies v == w by {
                let a = choose|a: int| 0 <= a < xs.len() && xs[a] == v;
                let b = choose|b: int| 0 <= b < xs.len() && xs[b] == w;
                assert(x[a + 1] == v && x.contains(v));
                assert(x[b + 1] == w && x.contains(w));
            }
        }
        lemma_views_sorted_unique(xs, ys);
        assert(x =~= y) by {
            assert forall|i: int| 0 <= i < x.len() implies x[i] == y[i] by {
                if i > 0 {
                    assert(x[i] == xs[i - 1] && y[i] == ys[i - 1]);
                }
            }
        }
    }
}

/// The injection text depends only on what the rules hold.
proof fn lemma_injection_by_views(a: Seq<Rule>, b: Seq<Rule>, languages: Seq<Seq<char>>, used: int)
    requires
        rule_views(a) == rule_views(b),
    ensures
        injection(a, languages, used) == injection(b, languages, used),
    decreases a.len(),
{
    let va = rule_views(a);
    let vb = rule_views(b);
    assert(va.len() == vb.len());
    assert(va.len() == a.len() && vb.len() == b.len());
    if a.len() > 0 {
        assert(va[0] == rule_view(a[0]) && vb[0] == rule_view(b[0]));
        assert(a[0].namespace@ == b[0].namespace@ && a[0].filename@ == b[0].filename@
            && a[0].content@ == b[0].content@);
        assert(rule_entry(a[0]) == rule_entry(b[0]));
        assert(rule_views(a.drop_first()) =~= va.drop_first());
        assert(rule_views(b.drop_first()) =~= vb.drop_first());
        lemma_injection_by_views(
            a.drop_first(),
            b.drop_first(),
            languages,
            used + byte_len(rule_entry(a[0])),
        );
        lemma_injection_by_views(a.drop_first(), b.drop_first(), languages, used);
    }
}

/// A registry's rules in the order of rules, by what they hold.
proof fn lemma_sorted_views(s: Seq<Rule>)
    requires
        key_sorted(s),
    ensures
        views_sorted(rule_views(s)),
{
    let v = rule_views(s);
    assert forall|i: int, j: int| 0 <= i < j < v.len() implies view_key_le(
        #[trigger] v[i],
        #[trigger] v[j],
    ) by {
        assert(Rule::key_le(s[i], s[j]));
    }
}

/// Law: two listings of one directory, equal up to order, where no two
/// different rules share a namespace and file name, give registries that
/// hold the same rules in the same order, and so the same injection texts
/// and the same namespaces.
pub proof fn lemma_listing_order_independent(
    r1: Seq<Rule>,
    r2: Seq<Rule>,
    e1: Seq<RulesEntry>,
    e2: Seq<RulesEntry>,
)
    requires
        listed_registry(r1, e1),
        listed_registry(r2, e2),
        listing_rules(e1).to_multiset() =~= listing_rules(e2).to_multiset(),
        rule_keys_identify(listing_rules(e1)),
    ensures
        rule_views(r1) == rule_views(r2),
        forall|languages: Seq<Seq<char>>|
            #[trigger] injection(r1, languages, 0) == injection(r2, languages, 0),
        namespace_set(r1) == namespace_set(r2),
{
    broadcast use vstd::seq_lib::group_to_multiset_ensures;

    let f1 = choose|found: Seq<Rule>|
        rule_views(found) == listing_rules(e1) && r1
            == sort_by_key_spec(found);
    let f2 = choose|found: Seq<Rule>|
        rule_views(found) == listing_rules(e2) && r2
            == sort_by_key_spec(found);
    lemma_sort_by_key(f1);
    lemma_sort_by_key(f2);
    lemma_map_same_elements(r1, f1, |x: Rule| rule_view(x));
    lemma_map_same_elements(r2, f2, |x: Rule| rule_view(x));
    let v1 = rule_views(r1);
    let v2 = rule_views(r2);
    lemma_sorted_views(r1);
    lemma_sorted_views(r2);
    assert(rule_keys_identify(v1)) by {
        assert forall|v: (Seq<char>, Seq<char>, Seq<char>, PathBuf), w: (Seq<char>, Seq<char>, Seq<char>, PathBuf)|
            v1.contains(v) && v1.contains(w) && v.0 == w.0 && v.1 == w.1 implies v == w by {
            assert(v1.to_multiset().count(v) > 0);
            assert(v1.to_multiset().count(w) > 0);
            assert(listing_rules(e1).contains(v) && listing_rules(e1).contains(w));
        }
    }
    lemma_views_sorted_unique(v1, v2);
    assert forall|languages: Seq<Seq<char>>| #[trigger] injection(r1, languages, 0) == injection(
        r2,
        languages,
        0,
    ) by {
        lemma_injection_by_views(r1, r2, languages, 0);
    }
    assert(namespace_set(r1) =~= namespace_set(r2)) by {
        assert forall|n: Seq<char>| namespace_set(r1).contains(n) implies namespace_set(r2).contains(n) by {
            let k = choose|k: int| 0 <= k < r1.len() && r1[k].namespace@ == n;
            assert(v1[k] == v2[k]);
        }
        assert forall|n: Seq<char>| namespace_set(r2).contains(n) implies namespace_set(r1).contains(n) by {
            let k = choose|k: int| 0 <= k < r2.len() && r2[k].namespace@ == n;
            assert(v1[k] == v2[k]);
        }
    }
}

/// `v` holds, in namespace `namespace`, the name, the whole text and the
/// path of the listed file `f`.
pub open spec fn holds_file(
    v: (Seq<char>, Seq<char>, Seq<char>, PathBuf),
    namespace: Seq<char>,
    f: ListedFile,
) -> bool {
    &&& is_markdown_name(f.name@)
    &&& f.content matches Some(text)
    &&& v == (namespace, f.name@, text@, f.path)
}

/// `v` is a rule that the top-level entry `e` gives: a visible markdown file
/// in the root namespace, or a markdown file of a visible subdirectory in
/// the subdirectory's namespace.
pub open spec fn comes_from_entry(v: (Seq<char>, Seq<char>, Seq<char>, PathBuf), e: RulesEntry) -> bool {
    match e {
        RulesEntry::File(f) => !is_hidden(f.name@) && holds_file(v, ROOT_NAMESPACE@, f),
        RulesEntry::Dir(name, files) => !is_hidden(name@) && exists|j: int|
            0 <= j < files@.len() && #[trigger] holds_file(v, name@, files@[j]),
    }
}

/// `v` holds the whole text of one of `files`, in namespace `namespace`.
pub open spec fn from_one_of(
    v: (Seq<char>, Seq<char>, Seq<char>, PathBuf),
    namespace: Seq<char>,
    files: Seq<ListedFile>,
) -> bool {
    exists|j: int| 0 <= j < files.len() && #[trigger] holds_file(v, namespace, files[j])
}

/// `v` is a rule that one of `entries` gives.
pub open spec fn from_one_entry(v: (Seq<char>, Seq<char>, Seq<char>, PathBuf), entries: Seq<RulesEntry>) -> bool {
    exists|i: int| 0 <= i < entries.len() && #[trigger] comes_from_entry(v, entries[i])
}

proof fn lemma_dir_rules_from_files(namespace: Seq<char>, files: Seq<ListedFile>)
    ensures
        forall|k: int|
            0 <= k < dir_rules(namespace, files).len() ==> from_one_of(
                #[trigger] dir_rules(namespace, files)[k],
                namespace,
                files,
            ),
    decreases files.len(),
{
    if files.len() > 0 {
        let d = files.drop_last();
        lemma_dir_rules_from_files(namespace, d);
        let all = dir_rules(namespace, files);
        let prev = dir_rules(namespace, d);
        let f = files.last();
        let t = file_rule(namespace, f);
        assert(all =~= prev + t);
        assert forall|k: int| 0 <= k < all.len() implies from_one_of(#[trigger] all[k], namespace, files) by {
            if k < prev.len() {
                assert(all[k] == prev[k]);
                assert(from_one_of(prev[k], namespace, d));
                let j = choose|j: int| 0 <= j < d.len() && #[trigger] holds_file(prev[k], namespace, d[j]);
                assert(files[j] == d[j]);
                assert(holds_file(all[k], namespace, files[j]));
            } else {
                assert(all[k] == t[k - prev.len()]);
                match f.content {
                    Some(c) => {
                        assert(t[0] == (namespace, f.name@, c@, f.path));
                    },
                    None => {},
                }
                assert(files[files.len() - 1] == f);
                assert(holds_file(all[k], namespace, files[files.len() - 1]));
            }
        }
    }
}

proof fn lemma_listing_rules_from_entries(entries: Seq<RulesEntry>)
    ensures
        forall|k: int|
            0 <= k < listing_rules(entries).len() ==> from_one_entry(
                #[trigger] listing_rules(entries)[k],
                entries,
            ),
    decreases entries.len(),
{
    if entries.len() > 0 {
        let d = entries.drop_last();
        let e = entries.last();
        lemma_listing_rules_from_entries(d);
        let all = listing_rules(entries);
        let prev = listing_rules(d);
        let t = entry_rules(e);
        assert(all =~= prev + t);
        assert(entries[entries.len() - 1] == e);
        assert forall|k: int| 0 <= k < all.len() implies from_one_entry(#[trigger] all[k], entries) by {
            if k < prev.len() {
                assert(all[k] == prev[k]);
                assert(from_one_entry(prev[k], d));
                let i = choose|i: int| 0 <= i < d.len() && #[trigger] comes_from_entry(prev[k], d[i]);
                assert(entries[i] == d[i]);
                assert(comes_from_entry(all[k], entries[i]));
            } else {
                assert(all[k] == t[k - prev.len()]);
                match e {
                    RulesEntry::File(f) => {
                        match f.content {
                            Some(c) => {
                                assert(t[0] == (ROOT_NAMESPACE@, f.name@, c@, f.path));
                            },
                            None => {},
                        }
                    },
                    RulesEntry::Dir(name, files) => {
                        lemma_dir_rules_from_files(name@, files@);
                        assert(t == dir_rules(name@, files@));
                        assert(from_one_of(t[k - prev.len()], name@, files@));
                    },
                }
                assert(comes_from_entry(all[k], entries[entries.len() - 1]));
            }
        }
    }
}

proof fn lemma_dir_rules_has_files(namespace: Seq<char>, files: Seq<ListedFile>, j: int)
    requires
        0 <= j < files.len(),
        file_rule(namespace, files[j]).len() > 0,
    ensures
        dir_rules(namespace, files).contains(file_rule(namespace, files[j])[0]),
    decreases files.len(),
{
    let d = files.drop_last();
    let all = dir_rules(namespace, files);
    let prev = dir_rules(namespace, d);
    let t = file_rule(namespace, files.last());
    assert(all =~= prev + t);
    if j < files.len() - 1 {
        assert(files[j] == d[j]);
        lemma_dir_rules_has_files(namespace, d, j);
        let m = choose|m: int| 0 <= m < prev.len() && prev[m] == file_rule(namespace, d[j])[0];
        assert(all[m] == prev[m]);
    } else {
        assert(all[prev.len() as int] == t[0]);
    }
}

proof fn lemma_listing_rules_has_entries(entries: Seq<RulesEntry>, i: int, v: (Seq<char>, Seq<char>, Seq<char>, PathBuf))
    requires
        0 <= i < entries.len(),
        comes_from_entry(v, entries[i]),
    ensures
        listing_rules(entries).contains(v),
    decreases entries.len(),
{
    let d = entries.drop_last();
    let all = listing_rules(entries);
    let prev = listing_rules(d);
    let t = entry_rules(entries.last());
    assert(all =~= prev + t);
    if i < entries.len() - 1 {
        assert(entries[i] == d[i]);
        lemma_listing_rules_has_entries(d, i, v);
        let m = choose|m: int| 0 <= m < prev.len() && prev[m] == v;
        assert(all[m] == prev[m]);
    } else {
        match entries[i] {
            RulesEntry::File(f) => {
                match f.content {
                    Some(c) => {
                        assert(t[0] == v);
                    },
                    None => {},
                }
                assert(all[prev.len() as int] == v);
            },
            RulesEntry::Dir(name, files) => {
                let j = choose|j: int| 0 <= j < files@.len() && #[trigger] holds_file(v, name@, files@[j]);
                let fj = files@[j];
                match fj.content {
                    Some(c) => {
                        assert(file_rule(name@, fj)[0] == v);
                    },
                    None => {},
                }
                lemma_dir_rules_has_files(name@, files@, j);
                assert(t == dir_rules(name@, files@));
                let m = choose|m: int| 0 <= m < t.len() && t[m] == v;
                assert(all[prev.len() + m] == v);
            },
        }
    }
}

/// Law: every visible markdown file of a listing whose text could be read
/// gives a rule of the registry that holds its whole text, name and path:
/// in the root namespace for a file at the top, in the subdirectory's
/// namespace for a file of a visible subdirectory.
pub proof fn lemma_files_give_rules(
    r: Seq<Rule>,
    entries: Seq<RulesEntry>,
    i: int,
    v: (Seq<char>, Seq<char>, Seq<char>, PathBuf),
)
    requires
        listed_registry(r, entries),
        0 <= i < entries.len(),
        comes_from_entry(v, entries[i]),
    ensures
        rule_views(r).contains(v),
{
    broadcast use vstd::seq_lib::group_to_multiset_ensures;

    let found = choose|found: Seq<Rule>|
        rule_views(found) == listing_rules(entries) && r == sort_by_key_spec(found);
    lemma_sort_by_key(found);
    lemma_listing_rules_has_entries(entries, i, v);
    lemma_map_same_elements(r, found, |x: Rule| rule_view(x));
    assert(rule_views(found).to_multiset().count(v) > 0);
    assert(rule_views(r).to_multiset().count(v) > 0);
}

/// Law: every rule of a registry built from a listing holds the whole text
/// of the listed file it was read from, with its name and path: a visible
/// markdown file at the top in the root namespace, or a markdown file of a
/// visible subdirectory in the subdirectory's namespace.
pub proof fn lemma_rules_hold_file_text(r: Seq<Rule>, entries: Seq<RulesEntry>)
    requires
        listed_registry(r, entries),
    ensures
        forall|k: int| 0 <= k < r.len() ==> from_one_entry(rule_view(#[trigger] r[k]), entries),
{
    broadcast use vstd::seq_lib::group_to_multiset_ensures;

    let found = choose|found: Seq<Rule>|
        rule_views(found) == listing_rules(entries) && r == sort_by_key_spec(found);
    lemma_sort_by_key(found);
    lemma_listing_rules_from_entries(entries);
    assert forall|k: int| 0 <= k < r.len() implies from_one_entry(rule_view(#[trigger] r[k]), entries) by {
        assert(r.to_multiset().count(r[k]) > 0);
        assert(found.contains(r[k]));
        let m = choose|m: int| 0 <= m < found.len() && found[m] == r[k];
        assert(rule_views(found)[m] == rule_view(r[k]));
        assert(from_one_entry(listing_rules(entries)[m], entries));
    }
}

/// Appends the rule that `f` gives in `namespace`, if any.
fn push_file_rule(found: &mut Vec<Rule>, namespace: String, f: ListedFile)
    ensures
        rule_views(final(found)@) == rule_views(old(found)@) + file_rule(namespace@, f),
{
    let ghost before = found@;
    let ghost fv = f;
    let ListedFile { name, content, path } = f;
    if is_markdown_file_name(name.as_str()) {
        if let Some(content) = content {
            let rule = Rule { namespace, filename: name, content, path };
            found.push(rule);
            assert(rule_views(found@) =~= rule_views(before) + file_rule(namespace@, fv));
            return;
        }
    }
    assert(rule_views(before) + file_rule(namespace@, fv) =~= rule_views(before));
}

/// The rules of a directory, ordered by namespace and file name.
#[derive(Debug)]
pub struct RulesRegistry {
    rules: Vec<Rule>,
}

impl RulesRegistry {
    /// A registry keeps its rules in namespace and file-name order.
    #[verifier::type_invariant]
    spec fn sorted_by_key(self) -> bool {
        key_sorted(self.rules@)
    }
}

impl Clone for RulesRegistry {
    fn clone(&self) -> (r: Self)
        ensures
            r@ == self@,
    {
        proof {
            use_type_invariant(self);
        }
        let rules = self.rules.clone();
        assert(rules@ =~= self.rules@);
        RulesRegistry { rules }
    }
}

impl View for RulesRegistry {
    type V = Seq<Rule>;

    closed spec fn view(&self) -> Seq<Rule> {
        self.rules@
    }
}

/// The texts of the project's languages.
pub open spec fn language_names(languages: Seq<&str>) -> Seq<Seq<char>> {
    languages.map_values(|l: &str| l@)
}

/// A rule of namespace `namespace` applies to a project with the given
/// languages: the namespaces `common` and `root` always do, another where it
/// names one of the languages.
pub open spec fn is_relevant(namespace: Seq<char>, languages: Seq<Seq<char>>) -> bool {
    namespace == COMMON_NAMESPACE@ || namespace == ROOT_NAMESPACE@ || languages.contains(namespace)
}

/// Law: a rule applies exactly where its namespace is `common` or `root`
/// or equals one of the project's languages, at whatever position that
/// language stands in the list.
pub proof fn lemma_relevant_at_any_position(namespace: Seq<char>, languages: Seq<Seq<char>>)
    ensures
        is_relevant(namespace, languages) <==> (namespace == "common"@ || namespace == "root"@
            || exists|i: int| 0 <= i < languages.len() && #[trigger] languages[i] == namespace),
        forall|i: int|
            0 <= i < languages.len() && #[trigger] languages[i] == namespace ==> is_relevant(
                namespace,
                languages,
            ),
{
    assert(COMMON_NAMESPACE@ == "common"@ && ROOT_NAMESPACE@ == "root"@);
}

/// Law: the injection depends on the project's languages only as a set:
/// two language lists that name the same languages, in any order and with
/// any repetition, inject the same text.
pub proof fn lemma_injection_language_set(
    rules: Seq<Rule>,
    l1: Seq<Seq<char>>,
    l2: Seq<Seq<char>>,
    used: int,
)
    requires
        l1.to_set() == l2.to_set(),
    ensures
        injection(rules, l1, used) == injection(rules, l2, used),
    decreases rules.len(),
{
    if rules.len() > 0 {
        let n = rules[0].namespace@;
        lemma_relevant_at_any_position(n, l1);
        lemma_relevant_at_any_position(n, l2);
        assert(l1.contains(n) <==> l1.to_set().contains(n));
        assert(l2.contains(n) <==> l2.to_set().contains(n));
        assert(is_relevant(n, l1) == is_relevant(n, l2));
        lemma_injection_language_set(rules.drop_first(), l1, l2, used);
        lemma_injection_language_set(
            rules.drop_first(),
            l1,
            l2,
            used + byte_len(rule_entry(rules[0])),
        );
    }
}

/// The text that injects one rule.
pub open spec fn rule_entry(rule: Rule) -> Seq<char> {
    "\n## Rule: "@ + rule.namespace@ + "/"@ + rule.filename@ + "\n\n"@ + rule.content@ + "\n"@
}

/// The length of a text in bytes, as UTF-8.
pub open spec fn byte_len(s: Seq<char>) -> nat {
    encode_utf8(s).len()
}

/// The injection text for `rules`, after `used` bytes were already taken:
/// the entries of the relevant rules, in order, up to the first that would
/// take the total past [`MAX_RULES_INJECTION_CHARS`].
pub open spec fn injection(rules: Seq<Rule>, languages: Seq<Seq<char>>, used: int) -> Seq<char>
    decreases rules.len(),
{
    if rules.len() == 0 {
        seq![]
    } else if !is_relevant(rules[0].namespace@, languages) {
        injection(rules.drop_first(), languages, used)
    } else if used + byte_len(rule_entry(rules[0])) > MAX_RULES_INJECTION_CHARS {
        seq![]
    } else {
        rule_entry(rules[0]) + injection(
            rules.drop_first(),
            languages,
            used + byte_len(rule_entry(rules[0])),
        )
    }
}

/// The entries of all relevant rules, in order, with no limit.
pub open spec fn all_entries(rules: Seq<Rule>, languages: Seq<Seq<char>>) -> Seq<char>
    decreases rules.len(),
{
    if rules.len() == 0 {
        seq![]
    } else if !is_relevant(rules[0].namespace@, languages) {
        all_entries(rules.drop_first(), languages)
    } else {
        rule_entry(rules[0]) + all_entries(rules.drop_first(), languages)
    }
}

/// The UTF-8 length of a concatenation is the sum of the lengths.
pub proof fn lemma_byte_len_concat(a: Seq<char>, b: Seq<char>)
    ensures
        encode_utf8(a + b) == encode_utf8(a) + encode_utf8(b),
        byte_len(a + b) == byte_len(a) + byte_len(b),
    decreases a.len(),
{
    if a.len() == 0 {
        assert(a + b =~= b);
        assert(encode_utf8(a) + encode_utf8(b) =~= encode_utf8(b));
    } else {
        lemma_byte_len_concat(a.drop_first(), b);
        assert((a + b).drop_first() =~= a.drop_first() + b);
        assert((a + b)[0] == a[0]);
        assert(encode_utf8(a + b) =~= encode_utf8(a) + encode_utf8(b));
    }
}

/// A text has at least as many bytes as characters.
pub proof fn lemma_chars_within_bytes(s: Seq<char>)
    ensures
        s.len() <= byte_len(s),
    decreases s.len(),
{
    if s.len() > 0 {
        lemma_chars_within_bytes(s.drop_first());
    }
}

/// Law: the injected text never takes more than
/// [`MAX_RULES_INJECTION_CHARS`] bytes beyond what was already used.
pub proof fn lemma_injection_within_budget(rules: Seq<Rule>, languages: Seq<Seq<char>>, used: int)
    requires
        0 <= used <= MAX_RULES_INJECTION_CHARS,
    ensures
        used + byte_len(injection(rules, languages, used)) <= MAX_RULES_INJECTION_CHARS,
    decreases rules.len(),
{
    if rules.len() > 0 && is_relevant(rules[0].namespace@, languages) {
        let e = rule_entry(rules[0]);
        if used + byte_len(e) <= MAX_RULES_INJECTION_CHARS {
            lemma_injection_within_budget(rules.drop_first(), languages, used + byte_len(e));
            lemma_byte_len_concat(e, injection(rules.drop_first(), languages, used + byte_len(e)));
        }
    } else if rules.len() > 0 {
        lemma_injection_within_budget(rules.drop_first(), languages, used);
    }
}

/// Law: where the entries of all relevant rules fit in the budget, every
/// one of them is injected, in order.
pub proof fn lemma_injection_complete(rules: Seq<Rule>, languages: Seq<Seq<char>>, used: int)
    requires
        used + byte_len(all_entries(rules, languages)) <= MAX_RULES_INJECTION_CHARS,
    ensures
        injection(rules, languages, used) == all_entries(rules, languages),
    decreases rules.len(),
{
    if rules.len() > 0 {
        if is_relevant(rules[0].namespace@, languages) {
            let e = rule_entry(rules[0]);
            lemma_byte_len_concat(e, all_entries(rules.drop_first(), languages));
            lemma_injection_complete(rules.drop_first(), languages, used + byte_len(e));
        } else {
            lemma_injection_complete(rules.drop_first(), languages, used);
        }
    }
}

/// The texts of `s` are in strictly increasing order.
pub open spec fn strictly_sorted(s: Seq<String>) -> bool {
    forall|i: int, j: int| 0 <= i < j < s.len() ==> text_lt(#[trigger] s[i]@, #[trigger] s[j]@)
}

/// The texts held by `s`.
pub open spec fn text_set(s: Seq<String>) -> Set<Seq<char>> {
    Set::new(|x: Seq<char>| exists|i: int| 0 <= i < s.len() && s[i]@ == x)
}

/// The namespaces of `rules`.
pub open spec fn namespace_set(rules: Seq<Rule>) -> Set<Seq<char>> {
    Set::new(|x: Seq<char>| exists|k: int| 0 <= k < rules.len() && rules[k].namespace@ == x)
}

/// Inserts `text` into the strictly sorted `out` unless it holds it already.
fn insert_unique(out: &mut Vec<String>, text: &String)
    requires
        strictly_sorted(old(out)@),
    ensures
        strictly_sorted(final(out)@),
        text_set(final(out)@) == text_set(old(out)@).insert(text@),
{
    let ghost before = out@;
    let mut j: usize = 0;
    while j < out.len() && text_le_exec(out[j].as_str(), text.as_str()) && !same_text(
        out[j].as_str(),
        text.as_str(),
    )
        invariant
            j <= out@.len(),
            out@ == before,
            forall|a: int| 0 <= a < j ==> text_lt(#[trigger] out@[a]@, text@),
        decreases out@.len() - j,
    {
        j = j + 1;
    }
    if j < out.len() && same_text(out[j].as_str(), text.as_str()) {
        assert(text_set(out@) =~= text_set(before).insert(text@)) by {
            assert(out@[j as int]@ == text@);
        }
        return;
    }
    proof {
        if j < out@.len() {
            lemma_text_order(out@[j as int]@, text@, text@);
            assert forall|b: int| j <= b < out@.len() implies text_lt(text@, #[trigger] out@[b]@) by {
                if b > j {
                    assert(text_lt(out@[j as int]@, out@[b]@));
                    lemma_text_order(text@, out@[j as int]@, out@[b]@);
                    lemma_text_order(out@[b]@, text@, out@[j as int]@);
                }
            }
        }
    }
    out.insert(j, text.clone());
    assert(out@ == before.insert(j as int, *text));
    assert forall|a: int, b: int| 0 <= a < b < out@.len() implies text_lt(
        #[trigger] out@[a]@,
        #[trigger] out@[b]@,
    ) by {
        if b < j {
            assert(out@[a] == before[a] && out@[b] == before[b]);
        } else if b == j {
            assert(out@[a] == before[a]);
        } else if a < j {
            assert(out@[a] == before[a] && out@[b] == before[b - 1]);
            lemma_text_order(before[a]@, text@, before[b - 1]@);
            lemma_text_order(before[b - 1]@, before[a]@, text@);
        } else if a == j {
            assert(out@[b] == before[b - 1]);
        } else {
            assert(out@[a] == before[a - 1] && out@[b] == before[b - 1]);
        }
    }
    assert(text_set(out@) =~= text_set(before).insert(text@)) by {
        assert forall|x: Seq<char>| text_set(out@).contains(x) implies text_set(before).insert(
            text@,
        ).contains(x) by {
            let a = choose|a: int| 0 <= a < out@.len() && out@[a]@ == x;
            if a < j {
                assert(out@[a] == before[a]);
            } else if a > j {
                assert(out@[a] == before[a - 1]);
            }
        }
        assert forall|x: Seq<char>| text_set(before).insert(text@).contains(x) implies text_set(
            out@,
        ).contains(x) by {
            if x == text@ {
                assert(out@[j as int]@ == x);
            } else {
                let a = choose|a: int| 0 <= a < before.len() && before[a]@ == x;
                if a < j {
                    assert(out@[a] == before[a]);
                } else {
                    assert(out@[a + 1] == before[a]);
                }
            }
        }
    }
}

/// Whether a rule of namespace `namespace` applies to the given languages.
fn is_relevant_exec(namespace: &str, languages: &[&str]) -> (r: bool)
    ensures
        r == is_relevant(namespace@, language_names(languages@)),
        r == (namespace@ == "common"@ || namespace@ == "root"@ || exists|i: int|
            0 <= i < languages@.len() && #[trigger] languages@[i]@ == namespace@),
{
    proof {
        lemma_relevant_at_any_position(namespace@, language_names(languages@));
        assert(COMMON_NAMESPACE@ == "common"@ && ROOT_NAMESPACE@ == "root"@);
        let names = language_names(languages@);
        assert(forall|i: int| 0 <= i < languages@.len() ==> #[trigger] names[i] == languages@[i]@);
    }
    if same_text(namespace, COMMON_NAMESPACE) || same_text(namespace, ROOT_NAMESPACE) {
        return true;
    }
    let ghost names = language_names(languages@);
    let mut i: usize = 0;
    while i < languages.len()
        invariant
            i <= languages@.len(),
            names == language_names(languages@),
            namespace@ != COMMON_NAMESPACE@ && namespace@ != ROOT_NAMESPACE@,
            forall|k: int| 0 <= k < i ==> names[k] != namespace@,
        decreases languages@.len() - i,
    {
        if same_text(namespace, languages[i]) {
            assert(names[i as int] == namespace@);
            return true;
        }
        i = i + 1;
    }
    assert(!names.contains(namespace@));
    proof {
        lemma_relevant_at_any_position(namespace@, names);
        assert(COMMON_NAMESPACE@ == "common"@ && ROOT_NAMESPACE@ == "root"@);
        assert forall|j: int| 0 <= j < languages@.len() implies #[trigger] languages@[j]@
            != namespace@ by {
            assert(names[j] == languages@[j]@);
            assert(names[j] != namespace@);
        }
    }
    false
}

/// The text that injects `rule`.
fn rule_entry_exec(rule: &Rule) -> (r: String)
    ensures
        r@ == rule_entry(*rule),
{
    let mut entry = "\n## Rule: ".to_owned();
    entry.append(rule.namespace.as_str());
    entry.append("/");
    entry.append(rule.filename.as_str());
    entry.append("\n\n");
    entry.append(rule.content.as_str());
    entry.append("\n");
    entry
}

impl Default for RulesRegistry {
    fn default() -> (r: Self)
        ensures
            r@ == Seq::<Rule>::empty(),
    {
        RulesRegistry { rules: Vec::new() }
    }
}

impl RulesRegistry {
    /// The registry of the given rules, stably sorted by namespace and file name.
    pub fn from_rules(rules: Vec<Rule>) -> (r: Self)
        ensures
            r@ == sort_by_key_spec(rules@),
            key_sorted(r@),
            r@.to_multiset() =~= rules@.to_multiset(),
            keys_distinct(rules@) ==> key_strictly_sorted(r@),
    {
        proof {
            lemma_sort_by_key(rules@);
            if keys_distinct(rules@) {
                lemma_sort_by_key_strict(rules@);
            }
        }
        RulesRegistry { rules: sort_by_key(rules) }
    }

    /// The registry of a rules directory, from its listing: the markdown
    /// files at the top, in the root namespace, and those of each
    /// subdirectory, in the namespace named by it; entries whose names start
    /// with `.` are left out, and so are files whose text could not be read.
    pub fn from_listing(entries: Vec<RulesEntry>) -> (r: Self)
        ensures
            listed_registry(r@, entries@),
            key_sorted(r@),
    {
        let mut found: Vec<Rule> = Vec::new();
        for e in it: entries
            invariant
                rule_views(found@) == listing_rules(
                    it.seq().take(it.index() as int),
                ),
        {
            let ghost done = it.seq().take(it.index() as int);
            let ghost ev = e;
            let ghost base = rule_views(found@);
            match e {
                RulesEntry::File(f) => {
                    if !is_hidden_name(f.name.as_str()) {
                        push_file_rule(&mut found, ROOT_NAMESPACE.to_owned(), f);
                    } else {
                        assert(base + entry_rules(ev) =~= base);
                    }
                },
                RulesEntry::Dir(name, files) => {
                    if !is_hidden_name(name.as_str()) {
                        let ghost fs = files@;
                        for f in fit: files
                            invariant
                                fs == fit.seq(),
                                rule_views(found@) == base + dir_rules(
                                    name@,
                                    fit.seq().take(fit.index() as int),
                                ),
                        {
                            let ghost ft = fit.seq().take(fit.index() as int);
                            push_file_rule(&mut found, name.clone(), f);
                            proof {
                                let ft1 = fit.seq().take(fit.index() + 1);
                                assert(ft1.drop_last() =~= ft);
                                assert(ft1.last() == f);
                            }
                        }
                        assert(fs.take(fs.len() as int) =~= fs);
                    } else {
                        assert(base + entry_rules(ev) =~= base);
                    }
                },
            }
            proof {
                let d1 = it.seq().take(it.index() + 1);
                assert(d1.drop_last() =~= done);
                assert(d1.last() == ev);
            }
        }
        let ghost witness = found@;
        proof {
            assert(entries@.take(entries@.len() as int) =~= entries@);
        }
        let r = RulesRegistry::from_rules(found);
        assert(rule_views(witness) == listing_rules(entries@));
        r
    }

    /// The text that injects into the system prompt the rules relevant to a
    /// project written in `project_languages`.
    pub fn system_prompt_injection(&self, project_languages: &[&str]) -> (r: String)
        ensures
            r@ == injection(self@, language_names(project_languages@), 0),
            r@.len() <= byte_len(r@) <= MAX_RULES_INJECTION_CHARS,
    {
        let ghost langs = language_names(project_languages@);
        let mut output = String::new();
        let mut total_chars: usize = 0;
        let mut i: usize = 0;
        assert(self@.skip(0) =~= self@);
        while i < self.rules.len()
            invariant
                i <= self@.len(),
                self@ == self.rules@,
                langs == language_names(project_languages@),
                total_chars <= MAX_RULES_INJECTION_CHARS,
                injection(self@, langs, 0) == output@ + injection(
                    self@.skip(i as int),
                    langs,
                    total_chars as int,
                ),
            decreases self@.len() - i,
        {
            let rule = &self.rules[i];
            let ghost rest = self@.skip(i as int);
            assert(rest[0] == *rule);
            assert(rest.drop_first() =~= self@.skip(i + 1));
            if is_relevant_exec(rule.namespace.as_str(), project_languages) {
                let entry = rule_entry_exec(rule);
                let entry_len = entry.as_str().as_bytes().len();
                assert(entry_len == byte_len(rule_entry(rest[0])));
                if entry_len > MAX_RULES_INJECTION_CHARS - total_chars {
                    assert(output@ + Seq::<char>::empty() =~= output@);
                    proof {
                        lemma_injection_within_budget(self@, langs, 0);
                        lemma_chars_within_bytes(output@);
                    }
                    return output;
                }
                let ghost before = output@;
                output.append(entry.as_str());
                assert(before + (entry@ + injection(self@.skip(i + 1), langs, total_chars + entry_len))
                    =~= output@ + injection(self@.skip(i + 1), langs, total_chars + entry_len));
                assert(injection(rest, langs, total_chars as int) == entry@ + injection(
                    self@.skip(i + 1), langs, total_chars + entry_len));
                total_chars = total_chars + entry_len;
            } else {
                assert(injection(rest, langs, total_chars as int) == injection(
                    self@.skip(i + 1), langs, total_chars as int));
            }
            i = i + 1;
        }
        assert(self@.skip(i as int) =~= Seq::<Rule>::empty());
        assert(output@ + Seq::<char>::empty() =~= output@);
        proof {
            lemma_injection_within_budget(self@, langs, 0);
            lemma_chars_within_bytes(output@);
        }
        output
    }

    /// The namespaces of the rules, each once, in order.
    pub fn namespaces(&self) -> (r: Vec<String>)
        ensures
            strictly_sorted(r@),
            text_set(r@) == namespace_set(self@),
    {
        let mut out: Vec<String> = Vec::new();
        let mut i: usize = 0;
        assert(text_set(out@) =~= namespace_set(self@.take(0)));
        while i < self.rules.len()
            invariant
                i <= self@.len(),
                self@ == self.rules@,
                strictly_sorted(out@),
                text_set(out@) == namespace_set(self@.take(i as int)),
            decreases self@.len() - i,
        {
            let ns = &self.rules[i].namespace;
            insert_unique(&mut out, ns);
            proof {
                let t = self@.take(i + 1);
                assert(namespace_set(t) =~= namespace_set(self@.take(i as int)).insert(ns@)) by {
                    assert(t[i as int] == self@[i as int]);
                    assert forall|x: Seq<char>| namespace_set(t).contains(x) implies namespace_set(
                        self@.take(i as int),
                    ).insert(ns@).contains(x) by {
                        let k = choose|k: int| 0 <= k < t.len() && t[k].namespace@ == x;
                        if k < i {
                            assert(self@.take(i as int)[k] == t[k]);
                        }
                    }
                    assert forall|x: Seq<char>| namespace_set(self@.take(i as int)).insert(
                        ns@,
                    ).contains(x) implies namespace_set(t).contains(x) by {
                        if x != ns@ {
                            let k = choose|k: int|
                                0 <= k < i && self@.take(i as int)[k].namespace@ == x;
                            assert(t[k] == self@.take(i as int)[k]);
                        }
                    }
                }
            }
            i = i + 1;
        }
        assert(self@.take(i as int) =~= self@);
        out
    }

    /// The number of rules.
    pub fn len(&self) -> (r: usize)
        ensures
            r == self@.len(),
            key_sorted(self@),
    {
        proof {
            use_type_invariant(self);
        }
        self.rules.len()
    }

    /// Whether there are no rules.
    pub fn is_empty(&self) -> (r: bool)
        ensures
            r == (self@.len() == 0),
    {
        self.rules.is_empty()
    }
}

} // verus!
