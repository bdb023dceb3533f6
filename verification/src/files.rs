//! File names as the registries read them: the stem and extension of a
//! name, which entries are markdown files and which are hidden.

use vstd::prelude::*;
use crate::text::chars_of;

verus! {

/// Paths are carried through the library unchanged; nothing here looks inside them.
#[verifier::external_type_specification]
#[verifier::external_body]
pub struct ExPathBuf(std::path::PathBuf);

/// `PathBuf::clone`: believed to return the same path it was given.
pub assume_specification[ <std::path::PathBuf as Clone>::clone ](p: &std::path::PathBuf) -> (r: std::path::PathBuf)
    ensures
        r == *p,
;

/// A file of a directory listing: its name, its text where it could be
/// read, and its path.
#[derive(Debug)]
pub struct ListedFile {
    pub name: String,
    pub content: Option<String>,
    pub path: std::path::PathBuf,
}

/// Position of the last `.` in `s`, or -1 where there is none.
pub open spec fn last_dot(s: Seq<char>) -> int
    decreases s.len(),
{
    if s.len() == 0 {
        -1
    } else if s.last() == '.' {
        s.len() - 1
    } else {
        last_dot(s.drop_last())
    }
}

/// The extension of a file name, as `Path::extension` has it: what follows
/// the last `.`; none where there is no `.`, where the only `.` is the first
/// character, or for `..`.
pub open spec fn file_extension(name: Seq<char>) -> Option<Seq<char>> {
    let d = last_dot(name);
    if name == seq!['.', '.'] || d <= 0 {
        None
    } else {
        Some(name.skip(d + 1))
    }
}

/// The stem of a file name, as `Path::file_stem` has it: what precedes the
/// last `.` where there is an extension, else the whole name.
pub open spec fn file_stem(name: Seq<char>) -> Seq<char> {
    if file_extension(name) is Some {
        name.take(last_dot(name))
    } else {
        name
    }
}

/// The file name has the extension `md`.
pub open spec fn is_markdown_name(name: Seq<char>) -> bool {
    file_extension(name) == Some(seq!['m', 'd'])
}

/// A name that starts with `.`.
pub open spec fn is_hidden(name: Seq<char>) -> bool {
    name.len() > 0 && name[0] == '.'
}

proof fn lemma_last_dot(s: Seq<char>)
    ensures
        -1 <= last_dot(s) < s.len(),
        last_dot(s) >= 0 ==> s[last_dot(s)] == '.',
    decreases s.len(),
{
    if s.len() > 0 && s.last() != '.' {
        lemma_last_dot(s.drop_last());
    }
}

/// Position of the last `.` in `v`, as `last_dot`.
fn find_last_dot(v: &Vec<char>) -> (r: Option<usize>)
    ensures
        match r {
            Some(d) => last_dot(v@) == d,
            None => last_dot(v@) == -1,
        },
{
    let mut j = v.len();
    assert(v@.take(j as int) =~= v@);
    while j > 0 && v[j - 1] != '.'
        invariant
            j <= v@.len(),
            last_dot(v@) == last_dot(v@.take(j as int)),
        decreases j,
    {
        assert(v@.take(j as int).drop_last() =~= v@.take(j - 1));
        j = j - 1;
    }
    if j == 0 {
        None
    } else {
        assert(v@.take(j as int).last() == v@[j - 1]);
        Some(j - 1)
    }
}

/// The position of the last `.` of `v` where it starts an `md` extension.
fn markdown_dot(v: &Vec<char>) -> (r: Option<usize>)
    ensures
        match r {
            Some(d) => is_markdown_name(v@) && last_dot(v@) == d && d < v@.len(),
            None => !is_markdown_name(v@),
        },
{
    proof {
        lemma_last_dot(v@);
    }
    match find_last_dot(v) {
        None => None,
        Some(d) => {
            let n = v.len();
            let dots = n == 2 && v[0] == '.' && v[1] == '.';
            if dots {
                assert(v@ =~= seq!['.', '.']);
            } else {
                assert(v@ != seq!['.', '.']) by {
                    if v@ == seq!['.', '.'] {
                        assert(v@[0] == '.' && v@[1] == '.');
                    }
                }
            }
            if d == 0 || dots {
                None
            } else if n - d == 3 && v[d + 1] == 'm' && v[d + 2] == 'd' {
                assert(v@.skip(d + 1) =~= seq!['m', 'd']);
                Some(d)
            } else {
                assert(v@.skip(d + 1) != seq!['m', 'd']) by {
                    if v@.skip(d + 1) == seq!['m', 'd'] {
                        assert(v@.skip(d + 1).len() == 2);
                        assert(v@.skip(d + 1)[0] == v@[d + 1]);
                        assert(v@.skip(d + 1)[1] == v@[d + 2]);
                    }
                }
                None
            }
        },
    }
}

/// Whether a file name has the extension `md`.
pub fn is_markdown_file_name(name: &str) -> (r: bool)
    ensures
        r == is_markdown_name(name@),
{
    let v = chars_of(name);
    markdown_dot(&v).is_some()
}

/// Law: a non-empty stem followed by `.md` is a markdown file name, and its
/// stem is that stem.
pub proof fn lemma_markdown_name_of(stem: Seq<char>)
    requires
        stem.len() > 0,
    ensures
        is_markdown_name(stem + seq!['.', 'm', 'd']),
        file_stem(stem + seq!['.', 'm', 'd']) == stem,
{
    let n = stem + seq!['.', 'm', 'd'];
    let n1 = n.drop_last();
    let n2 = n1.drop_last();
    assert(n.last() == 'd');
    assert(n1.last() == 'm');
    assert(n2.last() == '.');
    assert(last_dot(n2) == stem.len());
    assert(last_dot(n1) == stem.len());
    assert(last_dot(n) == stem.len());
    assert(n != seq!['.', '.']) by {
        assert(n.len() != 2);
    }
    assert(n.skip(stem.len() + 1 as int) =~= seq!['m', 'd']);
    assert(n.take(stem.len() as int) =~= stem);
}

/// Law: a markdown file name ends in `.md`.
pub proof fn lemma_markdown_name_ends(name: Seq<char>)
    requires
        is_markdown_name(name),
    ensures
        name.len() >= 4,
        name.skip(name.len() - 3) == seq!['.', 'm', 'd'],
        name == file_stem(name) + seq!['.', 'm', 'd'],
{
    lemma_last_dot(name);
    let d = last_dot(name);
    assert(name.skip(d + 1).len() == 2);
    assert(name.skip(name.len() - 3) =~= seq!['.'] + name.skip(d + 1));
    assert(name =~= name.take(d) + seq!['.'] + name.skip(d + 1));
}

/// Law: exactly the names that start with `.` are hidden.
pub proof fn lemma_hidden_names(c: char, rest: Seq<char>)
    ensures
        is_hidden(seq!['.'] + rest),
        c != '.' ==> !is_hidden(seq![c] + rest),
        !is_hidden(Seq::<char>::empty()),
{
    assert((seq!['.'] + rest)[0] == '.');
    assert((seq![c] + rest)[0] == c);
}

/// Two markdown file names with the same stem are the same name.
pub proof fn lemma_markdown_stem_injective(a: Seq<char>, b: Seq<char>)
    requires
        is_markdown_name(a),
        is_markdown_name(b),
        file_stem(a) == file_stem(b),
    ensures
        a == b,
{
    lemma_last_dot(a);
    lemma_last_dot(b);
    let da = last_dot(a);
    let db = last_dot(b);
    assert(a =~= a.take(da) + seq!['.'] + a.skip(da + 1));
    assert(b =~= b.take(db) + seq!['.'] + b.skip(db + 1));
}

/// The stem of a markdown file name; `None` for a name whose extension is
/// not `md`.
pub fn markdown_stem(name: &str) -> (r: Option<String>)
    ensures
        match r {
            Some(stem) => is_markdown_name(name@) && stem@ == file_stem(name@),
            None => !is_markdown_name(name@),
        },
{
    let v = chars_of(name);
    match markdown_dot(&v) {
        Some(d) => Some(name.substring_char(0, d).to_owned()),
        None => None,
    }
}

/// Whether a file name starts with `.`.
pub fn is_hidden_name(name: &str) -> (r: bool)
    ensures
        r == is_hidden(name@),
{
    let v = chars_of(name);
    v.len() > 0 && v[0] == '.'
}

} // verus!
