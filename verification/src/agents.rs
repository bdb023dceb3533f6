//! Agent definitions: markdown files, each defining a role agent or, where
//! its name starts with `specialist-`, a specialist agent.

use vstd::prelude::*;
use std::path::PathBuf;
use crate::markdown::{
    extract_first_heading, first_heading, lemma_first_heading_first_line,
    lemma_first_heading_single_line, lemma_first_heading_skips_line, line_heading, single_line,
};
use crate::sorting::{
    SortKey, lemma_map_same_elements, key_sorted, keys_distinct, lemma_sort_by_key, lemma_sort_by_key_strict, sort_by_key,
    sort_by_key_spec,
};
use crate::files::{ListedFile, file_stem, is_markdown_name, markdown_stem};
use crate::text::{chars_of, lemma_text_order, same_text, text_le, text_le_exec, text_lt};

verus! {

/// Whether an agent fills a role or is a specialist.
#[derive(Debug, Clone, Copy, PartialEq, Eq, Structural)]
pub enum AgentKind {
    Role,
    Specialist,
}

/// An agent read from a markdown file.
#[derive(Debug)]
pub struct AgentDefinition {
    pub name: String,
    pub description: String,
    pub prompt: String,
    pub path: PathBuf,
    pub kind: AgentKind,
}

/// The prefix of the file stems of specialist agents.
pub open spec fn specialist_prefix() -> Seq<char> {
    "specialist-"@
}

/// A file stem names a specialist agent when it starts with `specialist-`.
pub open spec fn names_specialist(stem: Seq<char>) -> bool {
    stem.len() >= specialist_prefix().len() && stem.take(specialist_prefix().len() as int)
        == specialist_prefix()
}

/// The kind of agent that a file stem defines.
pub open spec fn kind_of_stem(stem: Seq<char>) -> AgentKind {
    if names_specialist(stem) {
        AgentKind::Specialist
    } else {
        AgentKind::Role
    }
}

/// The agent's name: the stem, without `specialist-` for a specialist.
pub open spec fn name_of_stem(stem: Seq<char>) -> Seq<char> {
    if names_specialist(stem) {
        stem.skip(specialist_prefix().len() as int)
    } else {
        stem
    }
}

/// An agent's description: the first heading of its file, else its name.
pub open spec fn description_of(content: Seq<char>, name: Seq<char>) -> Seq<char> {
    match first_heading(content) {
        Some(h) => h,
        None => name,
    }
}

/// Law: the description is looked for on every line: a first line without
/// a heading is passed over, and the description is that of the rest.
pub proof fn lemma_description_skips_line(line: Seq<char>, rest: Seq<char>, name: Seq<char>)
    requires
        single_line(line),
        line_heading(line) is None,
    ensures
        description_of(line + seq!['\n'] + rest, name) == description_of(rest, name),
{
    lemma_first_heading_skips_line(line, rest);
}

/// Law: where the first line holds a heading, that heading is the
/// description, whatever follows.
pub proof fn lemma_description_first_line(line: Seq<char>, rest: Seq<char>, name: Seq<char>)
    requires
        single_line(line),
        line_heading(line) is Some,
    ensures
        description_of(line + seq!['\n'] + rest, name) == line_heading(line)->0,
{
    lemma_first_heading_first_line(line, rest);
}

/// Law: a file of one line without a heading is described by the agent's
/// name.
pub proof fn lemma_description_without_heading(line: Seq<char>, name: Seq<char>)
    requires
        single_line(line),
        line_heading(line) is None,
    ensures
        description_of(line, name) == name,
{
    lemma_first_heading_single_line(line);
}

impl AgentDefinition {
    /// The agent defined by the markdown file with stem `stem` and text
    /// `content`, found at `path`.
    pub fn from_file(stem: String, content: String, path: PathBuf) -> (r: AgentDefinition)
        ensures
            r.kind == kind_of_stem(stem@),
            r.name@ == name_of_stem(stem@),
            r.description@ == description_of(content@, name_of_stem(stem@)),
            first_heading(content@) matches Some(h) ==> r.description@ == h,
            first_heading(content@) is None ==> r.description@ == r.name@,
            r.prompt@ == content@,
            r.path == path,
            (r.kind == AgentKind::Specialist) == (stem@.len() >= "specialist-"@.len()
                && stem@.take("specialist-"@.len() as int) == "specialist-"@),
            r.kind == AgentKind::Specialist ==> stem@ == "specialist-"@ + r.name@,
            r.kind == AgentKind::Role ==> r.name@ == stem@,
    {
        let s = chars_of(stem.as_str());
        let p = chars_of("specialist-");
        let mut specialist = s.len() >= p.len();
        let mut i: usize = 0;
        while specialist && i < p.len()
            invariant
                s@ == stem@,
                p@ == specialist_prefix(),
                i <= p@.len(),
                specialist ==> s@.len() >= p@.len(),
                specialist ==> forall|k: int| 0 <= k < i ==> s@[k] == p@[k],
                !specialist ==> !names_specialist(stem@),
            decreases p@.len() - i,
        {
            if s[i] != p[i] {
                assert(stem@.take(p@.len() as int)[i as int] == s@[i as int]);
                specialist = false;
            }
            i = i + 1;
        }
        if specialist {
            assert(stem@.take(p@.len() as int) =~= specialist_prefix());
        }
        let (kind, name) = if specialist {
            (AgentKind::Specialist, stem.as_str().substring_char(p.len(), s.len()).to_owned())
        } else {
            (AgentKind::Role, stem)
        };
        let description = match extract_first_heading(content.as_str()) {
            Some(h) => h,
            None => name.clone(),
        };
        proof {
            if names_specialist(stem@) {
                assert(stem@ =~= specialist_prefix() + stem@.skip(specialist_prefix().len() as int));
            }
        }
        AgentDefinition { name, description, prompt: content, path, kind }
    }
}

impl SortKey for AgentDefinition {
    open spec fn key_le(a: Self, b: Self) -> bool {
        text_le(a.name@, b.name@)
    }

    proof fn lemma_key_le(a: Self, b: Self, c: Self) {
        lemma_text_order(a.name@, b.name@, c.name@);
    }

    fn key_le_exec(&self, other: &Self) -> (r: bool) {
        text_le_exec(self.name.as_str(), other.name.as_str())
    }
}

impl Clone for AgentDefinition {
    fn clone(&self) -> (r: Self)
        ensures
            r == *self,
    {
        AgentDefinition {
            name: self.name.clone(),
            description: self.description.clone(),
            prompt: self.prompt.clone(),
            path: self.path.clone(),
            kind: self.kind,
        }
    }
}

/// What an agent definition holds: name, description, prompt, path and kind.
pub open spec fn agent_view(d: AgentDefinition) -> (
    Seq<char>,
    Seq<char>,
    Seq<char>,
    PathBuf,
    AgentKind,
) {
    (d.name@, d.description@, d.prompt@, d.path, d.kind)
}

/// The agent that a markdown file with stem `stem` and text `content`
/// found at `path` defines.
pub open spec fn agent_of_file(stem: Seq<char>, content: Seq<char>, path: PathBuf) -> (
    Seq<char>,
    Seq<char>,
    Seq<char>,
    PathBuf,
    AgentKind,
) {
    (
        name_of_stem(stem),
        description_of(content, name_of_stem(stem)),
        content,
        path,
        kind_of_stem(stem),
    )
}

/// The agents of a listing, in listing order: one for each markdown file
/// whose text could be read.
pub open spec fn listed_agents(files: Seq<ListedFile>) -> Seq<
    (Seq<char>, Seq<char>, Seq<char>, PathBuf, AgentKind),
>
    decreases files.len(),
{
    if files.len() == 0 {
        seq![]
    } else {
        let f = files.last();
        listed_agents(files.drop_last()) + match f.content {
            Some(content) => if is_markdown_name(f.name@) {
                seq![agent_of_file(file_stem(f.name@), content@, f.path)]
            } else {
                seq![]
            },
            None => seq![],
        }
    }
}

/// The agents `r` are those of the listing `files`, stably sorted by name.
pub open spec fn listed_registry(r: Seq<AgentDefinition>, files: Seq<ListedFile>) -> bool {
    exists|found: Seq<AgentDefinition>|
        found.map_values(|d: AgentDefinition| agent_view(d)) == listed_agents(files) && r
            == sort_by_key_spec(found)
}

/// `v` is the agent that the markdown file `f` defines: its prompt is the
/// file's whole text and its path the file's path; a specialist's file stem
/// is `specialist-` and its name, a role's stem is its name; its
/// description is the first heading of the text, else its name.
pub open spec fn describes_file(
    v: (Seq<char>, Seq<char>, Seq<char>, PathBuf, AgentKind),
    f: ListedFile,
) -> bool {
    &&& is_markdown_name(f.name@)
    &&& f.content matches Some(text)
    &&& v.2 == text@
    &&& v.3 == f.path
    &&& (v.4 == AgentKind::Specialist ==> file_stem(f.name@) == "specialist-"@ + v.0)
    &&& (v.4 == AgentKind::Role ==> file_stem(f.name@) == v.0)
    &&& (first_heading(text@) matches Some(h) ==> v.1 == h)
    &&& (first_heading(text@) is None ==> v.1 == v.0)
}

/// `v` is the agent that one of `files` defines.
pub open spec fn from_one_of(
    v: (Seq<char>, Seq<char>, Seq<char>, PathBuf, AgentKind),
    files: Seq<ListedFile>,
) -> bool {
    exists|j: int| 0 <= j < files.len() && #[trigger] describes_file(v, files[j])
}

proof fn lemma_agent_of_file(stem: Seq<char>, text: Seq<char>, path: PathBuf)
    ensures
        agent_of_file(stem, text, path).4 == AgentKind::Specialist ==> stem == "specialist-"@
            + agent_of_file(stem, text, path).0,
        agent_of_file(stem, text, path).4 == AgentKind::Role ==> stem == agent_of_file(
            stem,
            text,
            path,
        ).0,
{
    if names_specialist(stem) {
        assert(stem =~= specialist_prefix() + stem.skip(specialist_prefix().len() as int));
    }
}

proof fn lemma_listed_agents_from_files(fs: Seq<ListedFile>)
    ensures
        forall|k: int|
            0 <= k < listed_agents(fs).len() ==> from_one_of(#[trigger] listed_agents(fs)[k], fs),
    decreases fs.len(),
{
    if fs.len() > 0 {
        let d = fs.drop_last();
        let f = fs.last();
        lemma_listed_agents_from_files(d);
        let all = listed_agents(fs);
        let prev = listed_agents(d);
        assert(fs[fs.len() - 1] == f);
        assert forall|k: int| 0 <= k < all.len() implies from_one_of(#[trigger] all[k], fs) by {
            if k < prev.len() {
                assert(all[k] == prev[k]);
                assert(from_one_of(prev[k], d));
                let j = choose|j: int| 0 <= j < d.len() && #[trigger] describes_file(prev[k], d[j]);
                assert(fs[j] == d[j]);
                assert(describes_file(all[k], fs[j]));
            } else {
                match f.content {
                    Some(c) => {
                        assert(all[k] == agent_of_file(file_stem(f.name@), c@, f.path));
                        lemma_agent_of_file(file_stem(f.name@), c@, f.path);
                    },
                    None => {},
                }
                assert(describes_file(all[k], fs[fs.len() - 1]));
            }
        }
    }
}

proof fn lemma_listed_agents_has_file(fs: Seq<ListedFile>, j: int, text: String)
    requires
        0 <= j < fs.len(),
        is_markdown_name(fs[j].name@),
        fs[j].content == Some(text),
    ensures
        listed_agents(fs).contains(agent_of_file(file_stem(fs[j].name@), text@, fs[j].path)),
    decreases fs.len(),
{
    let d = fs.drop_last();
    let all = listed_agents(fs);
    let prev = listed_agents(d);
    let v = agent_of_file(file_stem(fs[j].name@), text@, fs[j].path);
    if j < fs.len() - 1 {
        assert(fs[j] == d[j]);
        lemma_listed_agents_has_file(d, j, text);
        let m = choose|m: int| 0 <= m < prev.len() && prev[m] == v;
        assert(all[m] == prev[m]);
    } else {
        assert(all[prev.len() as int] == v);
    }
}

/// Law: every markdown file of a listing whose text could be read defines
/// an agent of the registry, holding its whole text as prompt and its path.
pub proof fn lemma_files_give_agents(
    r: Seq<AgentDefinition>,
    files: Seq<ListedFile>,
    j: int,
    text: String,
)
    requires
        listed_registry(r, files),
        0 <= j < files.len(),
        is_markdown_name(files[j].name@),
        files[j].content == Some(text),
    ensures
        exists|k: int|
            0 <= k < r.len() && #[trigger] r[k].prompt@ == text@ && r[k].path == files[j].path
                && describes_file(agent_view(r[k]), files[j]),
{
    broadcast use vstd::seq_lib::group_to_multiset_ensures;

    let found = choose|found: Seq<AgentDefinition>|
        found.map_values(|d: AgentDefinition| agent_view(d)) == listed_agents(files) && r
            == sort_by_key_spec(found);
    lemma_sort_by_key(found);
    let v = agent_of_file(file_stem(files[j].name@), text@, files[j].path);
    lemma_listed_agents_has_file(files, j, text);
    lemma_agent_of_file(file_stem(files[j].name@), text@, files[j].path);
    lemma_map_same_elements(r, found, |d: AgentDefinition| agent_view(d));
    assert(found.map_values(|d: AgentDefinition| agent_view(d)).to_multiset().count(v) > 0);
    let views = r.map_values(|d: AgentDefinition| agent_view(d));
    assert(views.to_multiset().count(v) > 0);
    assert(views.contains(v));
    let k = choose|k: int| 0 <= k < views.len() && views[k] == v;
    assert(views[k] == agent_view(r[k]));
    assert(describes_file(v, files[j]));
}

/// Law: every agent of a registry built from a listing is the agent that
/// one of the listed markdown files defines: it holds that file's whole
/// text as its prompt and its path, is named by its stem, and is described
/// by the text's first heading, else by its name.
pub proof fn lemma_agents_from_files(r: Seq<AgentDefinition>, files: Seq<ListedFile>)
    requires
        listed_registry(r, files),
    ensures
        forall|k: int| 0 <= k < r.len() ==> from_one_of(agent_view(#[trigger] r[k]), files),
{
    broadcast use vstd::seq_lib::group_to_multiset_ensures;

    let found = choose|found: Seq<AgentDefinition>|
        found.map_values(|d: AgentDefinition| agent_view(d)) == listed_agents(files) && r
            == sort_by_key_spec(found);
    lemma_sort_by_key(found);
    lemma_listed_agents_from_files(files);
    assert forall|k: int| 0 <= k < r.len() implies from_one_of(agent_view(#[trigger] r[k]), files) by {
        assert(r.to_multiset().count(r[k]) > 0);
        assert(found.contains(r[k]));
        let m = choose|m: int| 0 <= m < found.len() && found[m] == r[k];
        assert(found.map_values(|d: AgentDefinition| agent_view(d))[m] == agent_view(r[k]));
        assert(from_one_of(listed_agents(files)[m], files));
    }
}

/// The agents of a directory, ordered by name.
#[derive(Debug)]
pub struct AgentRegistry {
    agents: Vec<AgentDefinition>,
}

impl AgentRegistry {
    /// A registry keeps its agents in name order.
    #[verifier::type_invariant]
    spec fn sorted_by_name(self) -> bool {
        key_sorted(self.agents@)
    }
}

impl Clone for AgentRegistry {
    fn clone(&self) -> (r: Self)
        ensures
            r@ == self@,
    {
        proof {
            use_type_invariant(self);
        }
        let agents = self.agents.clone();
        assert(agents@ =~= self.agents@);
        AgentRegistry { agents }
    }
}

impl View for AgentRegistry {
    type V = Seq<AgentDefinition>;

    closed spec fn view(&self) -> Seq<AgentDefinition> {
        self.agents@
    }
}

/// The agents of `s` of the given kind, in order.
pub open spec fn of_kind(s: Seq<AgentDefinition>, kind: AgentKind) -> Seq<AgentDefinition> {
    s.filter(has_kind(kind))
}

/// The test that an agent is of the given kind.
pub open spec fn has_kind(kind: AgentKind) -> spec_fn(AgentDefinition) -> bool {
    |d: AgentDefinition| d.kind == kind
}

/// Law: every agent is either a role agent or a specialist agent, so the
/// two kinds together count all agents.
pub proof fn lemma_kinds_partition(s: Seq<AgentDefinition>)
    ensures
        of_kind(s, AgentKind::Role).len() + of_kind(s, AgentKind::Specialist).len() == s.len(),
    decreases s.len(),
{
    reveal_with_fuel(Seq::filter, 1);
    if s.len() > 0 {
        lemma_kinds_partition(s.drop_last());
    }
}

impl Default for AgentRegistry {
    fn default() -> (r: Self)
        ensures
            r@ == Seq::<AgentDefinition>::empty(),
    {
        AgentRegistry { agents: Vec::new() }
    }
}

impl AgentRegistry {
    /// The registry of the given definitions, stably sorted by name.
    pub fn from_definitions(definitions: Vec<AgentDefinition>) -> (r: Self)
        ensures
            r@ == sort_by_key_spec(definitions@),
            key_sorted(r@),
            r@.to_multiset() =~= definitions@.to_multiset(),
            (forall|i: int, j: int|
                0 <= i < j < definitions@.len() ==> #[trigger] definitions@[i].name@ != #[trigger] definitions@[j].name@)
                ==> forall|i: int, j: int|
                0 <= i < j < r@.len() ==> text_lt(#[trigger] r@[i].name@, #[trigger] r@[j].name@),
    {
        proof {
            lemma_sort_by_key(definitions@);
            let s = definitions@;
            if forall|i: int, j: int| 0 <= i < j < s.len() ==> #[trigger] s[i].name@ != #[trigger] s[j].name@ {
                assert(keys_distinct(s)) by {
                    assert forall|i: int, j: int| 0 <= i < j < s.len() implies !(AgentDefinition::key_le(
                        #[trigger] s[i],
                        #[trigger] s[j],
                    ) && AgentDefinition::key_le(s[j], s[i])) by {
                        lemma_text_order(s[i].name@, s[j].name@, s[i].name@);
                    }
                }
                lemma_sort_by_key_strict(s);
                let t = sort_by_key_spec(s);
                assert forall|i: int, j: int| 0 <= i < j < t.len() implies text_lt(
                    #[trigger] t[i].name@,
                    #[trigger] t[j].name@,
                ) by {
                    lemma_text_order(t[i].name@, t[j].name@, t[i].name@);
                }
            }
        }
        AgentRegistry { agents: sort_by_key(definitions) }
    }

    /// The registry of an agents directory, from its listing: an agent for
    /// each markdown file whose text could be read.
    pub fn from_listing(files: Vec<ListedFile>) -> (r: Self)
        ensures
            listed_registry(r@, files@),
            key_sorted(r@),
    {
        let ghost fs = files@;
        let mut found: Vec<AgentDefinition> = Vec::new();
        for f in it: files
            invariant
                fs == it.seq(),
                found@.map_values(|d: AgentDefinition| agent_view(d)) == listed_agents(
                    fs.take(it.index() as int),
                ),
        {
            let ghost i = it.index();
            let ghost before = found@.map_values(|d: AgentDefinition| agent_view(d));
            let ghost fv = f;
            let ListedFile { name, content, path } = f;
            proof {
                let t1 = fs.take(i + 1);
                assert(t1.drop_last() =~= fs.take(i));
                assert(t1.last() == fv);
            }
            let mut added = false;
            if let Some(stem) = markdown_stem(name.as_str()) {
                if let Some(content) = content {
                    let ghost cv = content@;
                    let ghost sv = stem@;
                    let d = AgentDefinition::from_file(stem, content, path);
                    found.push(d);
                    assert(found@.map_values(|d: AgentDefinition| agent_view(d)) =~= before + seq![
                        agent_of_file(sv, cv, fv.path),
                    ]);
                    added = true;
                }
            }
            if !added {
                assert(before + Seq::empty() =~= before);
            }
        }
        let ghost witness = found@;
        proof {
            assert(fs.take(fs.len() as int) =~= fs);
        }
        let r = AgentRegistry::from_definitions(found);
        assert(witness.map_values(|d: AgentDefinition| agent_view(d)) == listed_agents(files@));
        r
    }

    /// The first agent named `name`.
    pub fn find_by_name(&self, name: &str) -> (r: Option<&AgentDefinition>)
        ensures
            match r {
                Some(d) => exists|i: int|
                    0 <= i < self@.len() && self@[i] == *d && d.name@ == name@ && forall|j: int|
                        0 <= j < i ==> #[trigger] self@[j].name@ != name@,
                None => forall|i: int| 0 <= i < self@.len() ==> #[trigger] self@[i].name@ != name@,
            },
    {
        let mut i: usize = 0;
        while i < self.agents.len()
            invariant
                i <= self@.len(),
                self@ == self.agents@,
                forall|j: int| 0 <= j < i ==> #[trigger] self@[j].name@ != name@,
            decreases self@.len() - i,
        {
            if same_text(self.agents[i].name.as_str(), name) {
                return Some(&self.agents[i]);
            }
            i = i + 1;
        }
        None
    }

    /// The agents of the given kind, in registry order.
    fn of_kind_exec(&self, kind: AgentKind) -> (r: Vec<&AgentDefinition>)
        ensures
            r@.len() == of_kind(self@, kind).len(),
            forall|i: int| 0 <= i < r@.len() ==> *r@[i] == of_kind(self@, kind)[i],
    {
        let ghost pred = has_kind(kind);
        let mut r: Vec<&AgentDefinition> = Vec::new();
        let mut i: usize = 0;
        while i < self.agents.len()
            invariant
                i <= self@.len(),
                self@ == self.agents@,
                pred == has_kind(kind),
                r@.len() == self@.take(i as int).filter(pred).len(),
                forall|k: int| 0 <= k < r@.len() ==> *r@[k] == self@.take(i as int).filter(pred)[k],
            decreases self@.len() - i,
        {
            let ghost t = self@.take(i + 1);
            assert(t.drop_last() =~= self@.take(i as int));
            assert(t.last() == self@[i as int]);
            assert(t.filter(pred) == if pred(t.last()) {
                t.drop_last().filter(pred).push(t.last())
            } else {
                t.drop_last().filter(pred)
            }) by {
                reveal_with_fuel(Seq::filter, 1);
            }
            if self.agents[i].kind == kind {
                r.push(&self.agents[i]);
            }
            i = i + 1;
        }
        assert(self@.take(i as int) =~= self@);
        r
    }

    /// The role agents, in registry order.
    pub fn roles(&self) -> (r: Vec<&AgentDefinition>)
        ensures
            r@.len() == of_kind(self@, AgentKind::Role).len(),
            forall|i: int| 0 <= i < r@.len() ==> *r@[i] == of_kind(self@, AgentKind::Role)[i],
    {
        self.of_kind_exec(AgentKind::Role)
    }

    /// The specialist agents, in registry order.
    pub fn specialists(&self) -> (r: Vec<&AgentDefinition>)
        ensures
            r@.len() == of_kind(self@, AgentKind::Specialist).len(),
            forall|i: int|
                0 <= i < r@.len() ==> *r@[i] == of_kind(self@, AgentKind::Specialist)[i],
    {
        self.of_kind_exec(AgentKind::Specialist)
    }

    /// The number of agents.
    pub fn len(&self) -> (r: usize)
        ensures
            r == self@.len(),
            key_sorted(self@),
    {
        proof {
            use_type_invariant(self);
        }
        self.agents.len()
    }

    /// Whether there are no agents.
    pub fn is_empty(&self) -> (r: bool)
        ensures
            r == (self@.len() == 0),
    {
        self.agents.is_empty()
    }

    /// The names of the agents, in registry order.
    pub fn list_names(&self) -> (r: Vec<&str>)
        ensures
            r@.len() == self@.len(),
            forall|i: int| 0 <= i < r@.len() ==> r@[i]@ == #[trigger] self@[i].name@,
            forall|i: int, j: int|
                0 <= i < j < r@.len() ==> text_le(#[trigger] r@[i]@, #[trigger] r@[j]@),
    {
        proof {
            use_type_invariant(self);
        }
        let mut r: Vec<&str> = Vec::new();
        let mut i: usize = 0;
        while i < self.agents.len()
            invariant
                i <= self@.len(),
                self@ == self.agents@,
                r@.len() == i,
                forall|k: int| 0 <= k < i ==> r@[k]@ == #[trigger] self@[k].name@,
            decreases self@.len() - i,
        {
            r.push(self.agents[i].name.as_str());
            i = i + 1;
        }
        assert forall|a: int, b: int| 0 <= a < b < r@.len() implies text_le(
            #[trigger] r@[a]@,
            #[trigger] r@[b]@,
        ) by {
            assert(AgentDefinition::key_le(self@[a], self@[b]));
        }
        r
    }
}

} // verus!
