//! Optional context files: markdown files whose text can be added to the
//! system prompt, each named by its file stem.

use vstd::prelude::*;
use std::path::PathBuf;
use crate::sorting::{
    SortKey, lemma_map_same_elements, keys_distinct, lemma_sort_by_key, lemma_sort_by_key_strict, sort_by_key,
    sort_by_key_spec,
};
use crate::files::{ListedFile, file_stem, is_markdown_name, lemma_markdown_stem_injective, markdown_stem};
use crate::text::{lemma_text_order, same_text, text_le, text_le_exec, text_lt};

verus! {

/// A context file.
#[derive(Debug)]
pub struct Context {
    pub name: String,
    pub content: String,
    pub path: PathBuf,
}

impl Clone for Context {
    fn clone(&self) -> (r: Self)
        ensures
            r == *self,
    {
        Context { name: self.name.clone(), content: self.content.clone(), path: self.path.clone() }
    }
}

impl SortKey for Context {
    open spec fn key_le(a: Self, b: Self) -> bool {
        text_le(a.name@, b.name@)
    }

    proof fn lemma_key_le(a: Self, b: Self, c: Self) {
        lemma_text_order(a.name@, b.name@, c.name@);
    }

    fn key_le_exec(&self, other: &Self) -> (r: bool) {
        text_le_exec(self.name.as_str(), other.name.as_str())
    }
}

/// What a context holds: name, text and path.
pub open spec fn context_view(c: Context) -> (Seq<char>, Seq<char>, PathBuf) {
    (c.name@, c.content@, c.path)
}

/// The contexts of a listing, in listing order: one for each markdown file
/// whose text could be read, named by the file's stem.
pub open spec fn listed_contexts(files: Seq<ListedFile>) -> Seq<(Seq<char>, Seq<char>, PathBuf)>
    decreases files.len(),
{
    if files.len() == 0 {
        seq![]
    } else {
        let f = files.last();
        listed_contexts(files.drop_last()) + match f.content {
            Some(content) => if is_markdown_name(f.name@) {
                seq![(file_stem(f.name@), content@, f.path)]
            } else {
                seq![]
            },
            None => seq![],
        }
    }
}

/// No two files of the listing have the same name, as in one directory.
pub open spec fn file_names_distinct(files: Seq<ListedFile>) -> bool {
    forall|i: int, j: int|
        0 <= i < j < files.len() ==> #[trigger] files[i].name@ != #[trigger] files[j].name@
}

/// The contexts `r` are those of the listing `files`, sorted by name.
pub open spec fn listed_registry(r: Seq<Context>, files: Seq<ListedFile>) -> bool {
    exists|found: Seq<Context>|
        found.map_values(|c: Context| context_view(c)) == listed_contexts(files) && r
            == sort_by_key_spec(found)
}

/// `v` holds the stem, the whole text and the path of the markdown file `f`.
pub open spec fn holds_file(v: (Seq<char>, Seq<char>, PathBuf), f: ListedFile) -> bool {
    &&& is_markdown_name(f.name@)
    &&& f.content matches Some(text)
    &&& v == (file_stem(f.name@), text@, f.path)
}

/// `v` holds one of `files`.
pub open spec fn from_one_of(v: (Seq<char>, Seq<char>, PathBuf), files: Seq<ListedFile>) -> bool {
    exists|j: int| 0 <= j < files.len() && #[trigger] holds_file(v, files[j])
}

proof fn lemma_listed_contexts_from_files(fs: Seq<ListedFile>)
    ensures
        forall|k: int|
            0 <= k < listed_contexts(fs).len() ==> from_one_of(#[trigger] listed_contexts(fs)[k], fs),
    decreases fs.len(),
{
    if fs.len() > 0 {
        let d = fs.drop_last();
        let f = fs.last();
        lemma_listed_contexts_from_files(d);
        let all = listed_contexts(fs);
        let prev = listed_contexts(d);
        assert(fs[fs.len() - 1] == f);
        assert forall|k: int| 0 <= k < all.len() implies from_one_of(#[trigger] all[k], fs) by {
            if k < prev.len() {
                assert(all[k] == prev[k]);
                assert(from_one_of(prev[k], d));
                let j = choose|j: int| 0 <= j < d.len() && #[trigger] holds_file(prev[k], d[j]);
                assert(fs[j] == d[j]);
                assert(holds_file(all[k], fs[j]));
            } else {
                match f.content {
                    Some(c) => {
                        assert(all[k] == (file_stem(f.name@), c@, f.path));
                    },
                    None => {},
                }
                assert(holds_file(all[k], fs[fs.len() - 1]));
            }
        }
    }
}

proof fn lemma_listed_contexts_has_file(fs: Seq<ListedFile>, j: int, v: (Seq<char>, Seq<char>, PathBuf))
    requires
        0 <= j < fs.len(),
        holds_file(v, fs[j]),
    ensures
        listed_contexts(fs).contains(v),
    decreases fs.len(),
{
    let d = fs.drop_last();
    let all = listed_contexts(fs);
    let prev = listed_contexts(d);
    if j < fs.len() - 1 {
        assert(fs[j] == d[j]);
        lemma_listed_contexts_has_file(d, j, v);
        let m = choose|m: int| 0 <= m < prev.len() && prev[m] == v;
        assert(all[m] == prev[m]);
    } else {
        let f = fs.last();
        match f.content {
            Some(c) => {
                assert(all[prev.len() as int] == v);
            },
            None => {},
        }
    }
}

/// Law: every markdown file of a listing whose text could be read gives a
/// context of the registry, named by the file's stem, holding its whole
/// text and its path.
pub proof fn lemma_files_give_contexts(
    r: Seq<Context>,
    files: Seq<ListedFile>,
    j: int,
    v: (Seq<char>, Seq<char>, PathBuf),
)
    requires
        listed_registry(r, files),
        0 <= j < files.len(),
        holds_file(v, files[j]),
    ensures
        r.map_values(|c: Context| context_view(c)).contains(v),
{
    broadcast use vstd::seq_lib::group_to_multiset_ensures;

    let found = choose|found: Seq<Context>|
        found.map_values(|c: Context| context_view(c)) == listed_contexts(files) && r
            == sort_by_key_spec(found);
    lemma_sort_by_key(found);
    lemma_listed_contexts_has_file(files, j, v);
    lemma_map_same_elements(r, found, |c: Context| context_view(c));
    assert(found.map_values(|c: Context| context_view(c)).to_multiset().count(v) > 0);
    assert(r.map_values(|c: Context| context_view(c)).to_multiset().count(v) > 0);
}

/// Law: every context of a registry built from a listing holds the whole
/// text and the path of the markdown file it was read from, and is named by
/// that file's stem.
pub proof fn lemma_contexts_hold_file_text(r: Seq<Context>, files: Seq<ListedFile>)
    requires
        listed_registry(r, files),
    ensures
        forall|k: int| 0 <= k < r.len() ==> from_one_of(context_view(#[trigger] r[k]), files),
{
    broadcast use vstd::seq_lib::group_to_multiset_ensures;

    let found = choose|found: Seq<Context>|
        found.map_values(|c: Context| context_view(c)) == listed_contexts(files) && r
            == sort_by_key_spec(found);
    lemma_sort_by_key(found);
    lemma_listed_contexts_from_files(files);
    assert forall|k: int| 0 <= k < r.len() implies from_one_of(context_view(#[trigger] r[k]), files) by {
        assert(r.to_multiset().count(r[k]) > 0);
        assert(found.contains(r[k]));
        let m = choose|m: int| 0 <= m < found.len() && found[m] == r[k];
        assert(found.map_values(|c: Context| context_view(c))[m] == context_view(r[k]));
        assert(from_one_of(listed_contexts(files)[m], files));
    }
}

/// The names of `s` are in strictly increasing order.
pub open spec fn names_ascending(s: Seq<Context>) -> bool {
    forall|i: int, j: int| 0 <= i < j < s.len() ==> text_lt(#[trigger] s[i].name@, #[trigger] s[j].name@)
}

/// No two contexts of `s` have the same name.
pub open spec fn names_distinct(s: Seq<Context>) -> bool {
    forall|i: int, j: int| 0 <= i < j < s.len() ==> #[trigger] s[i].name@ != #[trigger] s[j].name@
}

/// Every context of a listing is named by the stem of one of its markdown
/// files; where the files' names differ, so do the contexts' names.
pub proof fn lemma_listed_contexts(fs: Seq<ListedFile>)
    ensures
        forall|k: int|
            0 <= k < listed_contexts(fs).len() ==> exists|j: int|
                0 <= j < fs.len() && is_markdown_name(fs[j].name@) && #[trigger] listed_contexts(
                    fs,
                )[k].0 == file_stem(fs[j].name@),
        file_names_distinct(fs) ==> forall|a: int, b: int|
            0 <= a < b < listed_contexts(fs).len() ==> #[trigger] listed_contexts(fs)[a].0
                != #[trigger] listed_contexts(fs)[b].0,
    decreases fs.len(),
{
    if fs.len() > 0 {
        let d = fs.drop_last();
        let f = fs.last();
        lemma_listed_contexts(d);
        let l = listed_contexts(fs);
        let ld = listed_contexts(d);
        assert forall|k: int| 0 <= k < l.len() implies exists|j: int|
            0 <= j < fs.len() && is_markdown_name(fs[j].name@) && #[trigger] l[k].0 == file_stem(
                fs[j].name@,
            ) by {
            if k < ld.len() {
                assert(l[k] == ld[k]);
                let j = choose|j: int|
                    0 <= j < d.len() && is_markdown_name(d[j].name@) && #[trigger] ld[k].0
                        == file_stem(d[j].name@);
                assert(fs[j] == d[j]);
            } else {
                assert(fs[fs.len() - 1] == f);
            }
        }
        if file_names_distinct(fs) {
            assert(file_names_distinct(d)) by {
                assert forall|i: int, j: int| 0 <= i < j < d.len() implies #[trigger] d[i].name@
                    != #[trigger] d[j].name@ by {
                    assert(d[i] == fs[i] && d[j] == fs[j]);
                }
            }
            assert forall|a: int, b: int| 0 <= a < b < l.len() implies #[trigger] l[a].0
                != #[trigger] l[b].0 by {
                if b < ld.len() {
                    assert(l[a] == ld[a] && l[b] == ld[b]);
                } else {
                    assert(l[a] == ld[a]);
                    let j = choose|j: int|
                        0 <= j < d.len() && is_markdown_name(d[j].name@) && #[trigger] ld[a].0
                            == file_stem(d[j].name@);
                    if l[a].0 == l[b].0 {
                        lemma_markdown_stem_injective(d[j].name@, f.name@);
                        assert(fs[j] == d[j] && fs[fs.len() - 1] == f);
                    }
                }
            }
        }
    }
}

/// The context files of a directory, ordered by name.
#[derive(Debug)]
pub struct ContextRegistry {
    contexts: Vec<Context>,
}

impl ContextRegistry {
    /// A registry keeps its contexts in strictly increasing name order.
    #[verifier::type_invariant]
    spec fn sorted_by_name(self) -> bool {
        names_ascending(self.contexts@)
    }
}

impl Clone for ContextRegistry {
    fn clone(&self) -> (r: Self)
        ensures
            r@ == self@,
    {
        proof {
            use_type_invariant(self);
        }
        let contexts = self.contexts.clone();
        assert(contexts@ =~= self.contexts@);
        assert(names_ascending(contexts@));
        ContextRegistry { contexts }
    }
}

impl View for ContextRegistry {
    type V = Seq<Context>;

    closed spec fn view(&self) -> Seq<Context> {
        self.contexts@
    }
}

impl Default for ContextRegistry {
    fn default() -> (r: Self)
        ensures
            r@ == Seq::<Context>::empty(),
    {
        ContextRegistry { contexts: Vec::new() }
    }
}

impl ContextRegistry {
    /// The registry of the given contexts, which have distinct names,
    /// sorted by name.
    pub fn from_contexts(contexts: Vec<Context>) -> (r: Self)
        requires
            names_distinct(contexts@),
        ensures
            r@ == sort_by_key_spec(contexts@),
            r@.to_multiset() =~= contexts@.to_multiset(),
            names_ascending(r@),
    {
        proof {
            lemma_sort_by_key(contexts@);
            let s = contexts@;
            assert(keys_distinct(s)) by {
                assert forall|i: int, j: int| 0 <= i < j < s.len() implies !(Context::key_le(
                    #[trigger] s[i],
                    #[trigger] s[j],
                ) && Context::key_le(s[j], s[i])) by {
                    lemma_text_order(s[i].name@, s[j].name@, s[i].name@);
                }
            }
            lemma_sort_by_key_strict(s);
            let t = sort_by_key_spec(s);
            assert forall|i: int, j: int| 0 <= i < j < t.len() implies text_lt(
                #[trigger] t[i].name@,
                #[trigger] t[j].name@,
            ) by {
                lemma_text_order(t[i].name@, t[j].name@, t[i].name@);
            }
        }
        ContextRegistry { contexts: sort_by_key(contexts) }
    }

    /// The registry of a contexts directory, from its listing: a context for
    /// each markdown file whose text could be read, named by its stem. The
    /// names of a directory's files are distinct.
    pub fn from_listing(files: Vec<ListedFile>) -> (r: Self)
        requires
            file_names_distinct(files@),
        ensures
            listed_registry(r@, files@),
            names_ascending(r@),
    {
        let ghost fs = files@;
        let mut found: Vec<Context> = Vec::new();
        for f in it: files
            invariant
                fs == it.seq(),
                found@.map_values(|c: Context| context_view(c)) == listed_contexts(
                    fs.take(it.index() as int),
                ),
        {
            let ghost i = it.index();
            let ghost before = found@.map_values(|c: Context| context_view(c));
            let ghost fv = f;
            let ListedFile { name, content, path } = f;
            proof {
                let t1 = fs.take(i + 1);
                assert(t1.drop_last() =~= fs.take(i));
                assert(t1.last() == fv);
            }
            let mut added = false;
            if let Some(stem) = markdown_stem(name.as_str()) {
                if let Some(content) = content {
                    let ghost entry = (stem@, content@, fv.path);
                    found.push(Context { name: stem, content, path });
                    assert(found@.map_values(|c: Context| context_view(c)) =~= before + seq![entry]);
                    added = true;
                }
            }
            if !added {
                assert(before + Seq::empty() =~= before);
            }
        }
        proof {
            assert(fs.take(fs.len() as int) =~= fs);
            lemma_listed_contexts(fs);
            let views = found@.map_values(|c: Context| context_view(c));
            assert forall|i: int, j: int| 0 <= i < j < found@.len() implies #[trigger] found@[i].name@
                != #[trigger] found@[j].name@ by {
                assert(views[i].0 == found@[i].name@ && views[j].0 == found@[j].name@);
            }
        }
        let ghost witness = found@;
        let r = ContextRegistry::from_contexts(found);
        assert(witness.map_values(|c: Context| context_view(c)) == listed_contexts(files@));
        r
    }

    /// The first context named `name`.
    pub fn find_by_name(&self, name: &str) -> (r: Option<&Context>)
        ensures
            match r {
                Some(c) => exists|i: int|
                    0 <= i < self@.len() && self@[i] == *c && c.name@ == name@ && forall|j: int|
                        0 <= j < i ==> #[trigger] self@[j].name@ != name@,
                None => forall|i: int| 0 <= i < self@.len() ==> #[trigger] self@[i].name@ != name@,
            },
    {
        let mut i: usize = 0;
        while i < self.contexts.len()
            invariant
                i <= self@.len(),
                self@ == self.contexts@,
                forall|j: int| 0 <= j < i ==> #[trigger] self@[j].name@ != name@,
            decreases self@.len() - i,
        {
            if same_text(self.contexts[i].name.as_str(), name) {
                return Some(&self.contexts[i]);
            }
            i = i + 1;
        }
        None
    }

    /// The names of the contexts, in registry order.
    pub fn list_names(&self) -> (r: Vec<&str>)
        ensures
            r@.len() == self@.len(),
            forall|i: int| 0 <= i < r@.len() ==> r@[i]@ == #[trigger] self@[i].name@,
            forall|i: int, j: int|
                0 <= i < j < r@.len() ==> text_lt(#[trigger] r@[i]@, #[trigger] r@[j]@),
    {
        proof {
            use_type_invariant(self);
        }
        let mut r: Vec<&str> = Vec::new();
        let mut i: usize = 0;
        while i < self.contexts.len()
            invariant
                i <= self@.len(),
                self@ == self.contexts@,
                r@.len() == i,
                forall|k: int| 0 <= k < i ==> r@[k]@ == #[trigger] self@[k].name@,
            decreases self@.len() - i,
        {
            r.push(self.contexts[i].name.as_str());
            i = i + 1;
        }
        assert forall|a: int, b: int| 0 <= a < b < r@.len() implies text_lt(
            #[trigger] r@[a]@,
            #[trigger] r@[b]@,
        ) by {
            assert(text_lt(self@[a].name@, self@[b].name@));
        }
        r
    }

    /// The number of contexts.
    pub fn len(&self) -> (r: usize)
        ensures
            r == self@.len(),
            names_ascending(self@),
    {
        proof {
            use_type_invariant(self);
        }
        self.contexts.len()
    }

    /// Whether there are no contexts.
    pub fn is_empty(&self) -> (r: bool)
        ensures
            r == (self@.len() == 0),
    {
        self.contexts.is_empty()
    }
}

} // verus!
