use vstd::prelude::*;
use vstd::string::*;

verus! {

/// Index of the last occurrence of `c` in `s`, or -1 when `c` does not occur.
pub open spec fn last_index_of(s: Seq<char>, c: char) -> int
    decreases s.len(),
{
    if s.len() == 0 {
        -1
    } else if s.last() == c {
        s.len() - 1
    } else {
        last_index_of(s.drop_last(), c)
    }
}

/// `last_index_of` is -1 or a position of `c`, and no `c` follows it.
pub proof fn lemma_last_index_of(s: Seq<char>, c: char)
    ensures
        -1 <= last_index_of(s, c) < s.len(),
        last_index_of(s, c) >= 0 ==> s[last_index_of(s, c)] == c,
        forall|i: int| last_index_of(s, c) < i < s.len() ==> s[i] != c,
    decreases s.len(),
{
    if s.len() > 0 && s.last() != c {
        lemma_last_index_of(s.drop_last(), c);
        assert forall|i: int| last_index_of(s, c) < i < s.len() implies s[i] != c by {
            if i < s.len() - 1 {
                assert(s[i] == s.drop_last()[i]);
            }
        }
    }
}

/// The path one directory up: everything before the last `/`, or `/` itself
/// when there is no `/` or only a leading one.
pub open spec fn parent_path_of(path: Seq<char>) -> Seq<char> {
    let k = last_index_of(path, '/');
    if k <= 0 {
        seq!['/']
    } else {
        path.subrange(0, k)
    }
}

/// Going one directory up gives `/` or a strictly shorter prefix of the path.
pub proof fn lemma_parent_path_shape(path: Seq<char>)
    ensures
        parent_path_of(path) == seq!['/'] || (parent_path_of(path).len() < path.len()
            && parent_path_of(path) == path.subrange(0, parent_path_of(path).len() as int)),
{
    lemma_last_index_of(path, '/');
}

/// `/` is the only path that is its own parent.
pub proof fn lemma_parent_path_fixed_point(path: Seq<char>)
    ensures
        parent_path_of(path) == path <==> path == seq!['/'],
{
    lemma_last_index_of(path, '/');
    if path == seq!['/'] {
        assert(path[0] == '/');
        assert(last_index_of(path.drop_last(), '/') == -1);
    }
}

/// Splits `s` on the last occurrence of `delimiter` into the part before and
/// the part after it, or gives `None` when the delimiter does not occur.
fn rsplit_once_char<'a>(s: &'a str, delimiter: char) -> (res: Option<(&'a str, &'a str)>)
    ensures
        match res {
            None => last_index_of(s@, delimiter) < 0,
            Some(parts) => {
                &&& 0 <= last_index_of(s@, delimiter)
                &&& parts.0@ == s@.subrange(0, last_index_of(s@, delimiter))
                &&& parts.1@ == s@.subrange(last_index_of(s@, delimiter) + 1, s@.len() as int)
            },
        },
{
    proof {
        lemma_last_index_of(s@, delimiter);
    }
    let n = s.unicode_len();
    let mut i = n;
    while i > 0
        invariant
            i <= n,
            n == s@.len(),
            forall|j: int| i <= j < n ==> s@[j] != delimiter,
        decreases i,
    {
        if s.get_char(i - 1) == delimiter {
            proof {
                lemma_last_index_of(s@, delimiter);
            }
            assert(last_index_of(s@, delimiter) == i - 1);
            return Some((s.substring_char(0, i - 1), s.substring_char(i, n)));
        }
        i -= 1;
    }
    None
}

/// The parent directory of `path`, found by cutting at the last `/`.
/// A path without `/`, or whose only `/` leads it, has `/` as its parent.
pub fn get_parent_path(path: &str) -> (parent: String)
    ensures
        parent@ == parent_path_of(path@),
        (exists|i: int| 0 < i < path@.len() && path@[i] == '/') ==> {
            &&& 0 < parent@.len() < path@.len()
            &&& parent@ == path@.subrange(0, parent@.len() as int)
            &&& path@[parent@.len() as int] == '/'
            &&& forall|i: int| parent@.len() < i < path@.len() ==> path@[i] != '/'
        },
        !(exists|i: int| 0 < i < path@.len() && path@[i] == '/') ==> parent@ == seq!['/'],
{
    proof {
        reveal_strlit("/");
        assert("/"@ =~= seq!['/']);
        lemma_last_index_of(path@, '/');
    }
    match rsplit_once_char(path, '/') {
        Some(cut_path) => {
            if cut_path.0.is_empty() {
                String::from_str("/")
            } else {
                cut_path.0.to_owned()
            }
        },
        None => String::from_str("/"),
    }
}

/// The part of `path` after its last `/`.
pub open spec fn last_segment(path: Seq<char>) -> Seq<char> {
    path.subrange(last_index_of(path, '/') + 1, path.len() as int)
}

/// The short label of a node: `/` followed by the last segment of its path.
pub fn node_name_label(path: &str) -> (label: String)
    requires
        last_index_of(path@, '/') >= 0,
    ensures
        label@ == seq!['/'] + last_segment(path@),
        1 <= label@.len() <= path@.len(),
        path@[path@.len() - label@.len()] == '/',
        label@ == seq!['/'] + path@.subrange(path@.len() - label@.len() + 1, path@.len() as int),
        forall|i: int| path@.len() - label@.len() < i < path@.len() ==> path@[i] != '/',
{
    proof {
        reveal_strlit("/");
        assert("/"@ =~= seq!['/']);
        lemma_last_index_of(path@, '/');
    }
    match rsplit_once_char(path, '/') {
        Some(cut_path) => {
            let mut label = String::from_str("/");
            label.append(cut_path.1);
            label
        },
        None => String::from_str("/"),
    }
}

} // verus!
