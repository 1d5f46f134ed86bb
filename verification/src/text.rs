//! Text helpers over the character view of strings.

use vstd::prelude::*;

verus! {

/// The position of the last occurrence of `c` in `s`, if there is one.
pub open spec fn last_index_of(s: Seq<char>, c: char) -> Option<int>
    decreases s.len(),
{
    if s.len() == 0 {
        None
    } else if s.last() == c {
        Some(s.len() - 1)
    } else {
        last_index_of(s.drop_last(), c)
    }
}

/// The position of the last `c` in `s`, counted in characters.
pub fn find_last(s: &str, c: char) -> (r: Option<usize>)
    ensures
        match r {
            Some(i) => last_index_of(s@, c) == Some(i as int),
            None => last_index_of(s@, c) is None,
        },
{
    let len = s.unicode_len();
    let mut last: Option<usize> = None;
    let mut n: usize = 0;
    for x in it: s.chars()
        invariant
            n == it.index(),
            it.seq() == s@,
            len == s@.len(),
            match last {
                Some(i) => last_index_of(s@.subrange(0, n as int), c) == Some(i as int),
                None => last_index_of(s@.subrange(0, n as int), c) is None,
            },
    {
        assert(s@.subrange(0, n + 1).drop_last() =~= s@.subrange(0, n as int));
        if x == c {
            last = Some(n);
        }
        n = n + 1;
    }
    assert(s@.subrange(0, n as int) =~= s@);
    last
}

/// Where `last_index_of` finds an occurrence, it is inside the sequence and
/// holds `c`; where it finds none, `c` does not occur.
pub proof fn lemma_last_index_of(s: Seq<char>, c: char)
    ensures
        match last_index_of(s, c) {
            Some(i) => 0 <= i < s.len() && s[i] == c && forall|j: int|
                i < j < s.len() ==> s[j] != c,
            None => forall|j: int| 0 <= j < s.len() ==> s[j] != c,
        },
    decreases s.len(),
{
    if s.len() > 0 && s.last() != c {
        let d = s.drop_last();
        lemma_last_index_of(d, c);
        assert forall|j: int| 0 <= j < d.len() implies d[j] == s[j] by {}
        match last_index_of(d, c) {
            Some(i) => {
                assert forall|j: int| i < j < s.len() implies s[j] != c by {
                    if j < d.len() {
                        assert(d[j] != c);
                    }
                }
            },
            None => {
                assert forall|j: int| 0 <= j < s.len() implies s[j] != c by {
                    if j < d.len() {
                        assert(d[j] != c);
                    }
                }
            },
        }
    }
}

/// The path of the root directory.
pub open spec fn root_path() -> Seq<char> {
    seq!['/']
}

/// A path split at its last `/` into the parent's path and the name. A
/// path without a `/`, or with nothing before its last `/`, lies in the root.
pub open spec fn split_path_spec(path: Seq<char>) -> (Seq<char>, Seq<char>) {
    match last_index_of(path, '/') {
        None => (root_path(), path),
        Some(i) => (
            if i == 0 {
                root_path()
            } else {
                path.subrange(0, i)
            },
            path.subrange(i + 1, path.len() as int),
        ),
    }
}

/// The root path as an owned string.
pub fn root_string() -> (r: String)
    ensures
        r@ == root_path(),
{
    proof {
        reveal_strlit("/");
    }
    let r = "/".to_owned();
    assert(r@ =~= root_path());
    r
}

/// Splits a path into the path of its parent directory and its name.
pub fn split_path(path: &str) -> (parts: (String, String))
    ensures
        (parts.0@, parts.1@) == split_path_spec(path@),
{
    let len = path.unicode_len();
    proof {
        lemma_last_index_of(path@, '/');
    }
    match find_last(path, '/') {
        None => (root_string(), path.to_owned()),
        Some(i) => {
            let name = path.substring_char(i + 1, len).to_owned();
            let parent = if i == 0 {
                root_string()
            } else {
                path.substring_char(0, i).to_owned()
            };
            (parent, name)
        },
    }
}

/// `s` cut at every occurrence of `sep`: the fields between the separators,
/// in order. A sequence without `sep` is one field.
pub open spec fn split_spec(s: Seq<char>, sep: char) -> Seq<Seq<char>>
    decreases s.len(),
{
    match last_index_of(s, sep) {
        None => seq![s],
        Some(i) => if 0 <= i < s.len() {
            split_spec(s.subrange(0, i), sep).push(s.subrange(i + 1, s.len() as int))
        } else {
            seq![s]
        },
    }
}

/// The fields joined again, with `sep` between neighbours.
pub open spec fn join_spec(fields: Seq<Seq<char>>, sep: char) -> Seq<char>
    decreases fields.len(),
{
    if fields.len() == 0 {
        Seq::empty()
    } else if fields.len() == 1 {
        fields[0]
    } else {
        join_spec(fields.drop_last(), sep).push(sep) + fields.last()
    }
}

/// Cuts `line` at every `sep`.
pub fn split_fields(line: &str, sep: char) -> (fields: Vec<String>)
    ensures
        fields.deep_view() == split_spec(line@, sep),
{
    let len = line.unicode_len();
    let mut fields: Vec<String> = Vec::new();
    let mut start: usize = 0;
    let mut n: usize = 0;
    assert(fields.deep_view() =~= Seq::<Seq<char>>::empty());
    for x in it: line.chars()
        invariant
            n == it.index(),
            it.seq() == line@,
            len == line@.len(),
            start <= n,
            match last_index_of(line@.subrange(0, n as int), sep) {
                None => start == 0 && fields.deep_view() == Seq::<Seq<char>>::empty(),
                Some(i) => start == i + 1 && fields.deep_view() == split_spec(
                    line@.subrange(0, i),
                    sep,
                ),
            },
    {
        let ghost before = line@.subrange(0, n as int);
        let ghost now = line@.subrange(0, n + 1);
        assert(now.drop_last() =~= before);
        proof {
            lemma_last_index_of(before, sep);
        }
        if x == sep {
            let field = line.substring_char(start, n).to_owned();
            let ghost done = fields.deep_view();
            fields.push(field);
            proof {
                assert(fields.deep_view() =~= done.push(line@.subrange(start as int, n as int)));
                assert(before.subrange(start as int, n as int) =~= line@.subrange(
                    start as int,
                    n as int,
                ));
                match last_index_of(before, sep) {
                    None => {
                        assert(done.push(before) =~= seq![before]);
                    },
                    Some(i) => {
                        assert(before.subrange(0, i) =~= line@.subrange(0, i));
                    },
                }
                assert(now.subrange(0, n as int) =~= before);
                assert(split_spec(before, sep) == fields.deep_view());
            }
            start = n + 1;
        } else {
            proof {
                match last_index_of(before, sep) {
                    None => {},
                    Some(i) => {
                        assert(now.subrange(0, i) =~= line@.subrange(0, i));
                    },
                }
            }
        }
        n = n + 1;
    }
    assert(line@.subrange(0, n as int) =~= line@);
    let last = line.substring_char(start, len).to_owned();
    let ghost done = fields.deep_view();
    fields.push(last);
    proof {
        lemma_last_index_of(line@, sep);
        assert(fields.deep_view() =~= done.push(line@.subrange(start as int, len as int)));
        match last_index_of(line@, sep) {
            None => {
                assert(line@.subrange(0, len as int) =~= line@);
                assert(done.push(line@) =~= seq![line@]);
            },
            Some(i) => {},
        }
    }
    fields
}

/// `c` does not occur in `s`.
pub open spec fn free_of(s: Seq<char>, c: char) -> bool {
    forall|i: int| 0 <= i < s.len() ==> s[i] != c
}

/// In `a`, then `c`, then a `b` without `c`, the last `c` is the one in
/// the middle.
pub proof fn lemma_last_index_concat(a: Seq<char>, c: char, b: Seq<char>)
    requires
        free_of(b, c),
    ensures
        last_index_of(a.push(c) + b, c) == Some(a.len() as int),
{
    let s = a.push(c) + b;
    lemma_last_index_of(s, c);
    assert(s[a.len() as int] == c);
    match last_index_of(s, c) {
        Some(i) => {
            if i > a.len() {
                assert(s[i] == b[i - a.len() - 1]);
            }
        },
        None => {},
    }
}

/// Fields without the separator, joined and cut again, are the fields.
pub proof fn lemma_split_join(fields: Seq<Seq<char>>, sep: char)
    requires
        fields.len() >= 1,
        forall|i: int| 0 <= i < fields.len() ==> free_of(#[trigger] fields[i], sep),
    ensures
        split_spec(join_spec(fields, sep), sep) == fields,
    decreases fields.len(),
{
    if fields.len() == 1 {
        let s = fields[0];
        lemma_last_index_of(s, sep);
        assert(free_of(s, sep));
        match last_index_of(s, sep) {
            Some(i) => {
                assert(s[i] == sep);
            },
            None => {},
        }
        assert(seq![s] =~= fields);
    } else {
        let d = fields.drop_last();
        let last = fields.last();
        let s = join_spec(fields, sep);
        assert forall|i: int| 0 <= i < d.len() implies free_of(#[trigger] d[i], sep) by {
            assert(d[i] == fields[i]);
        }
        lemma_split_join(d, sep);
        assert(free_of(fields[fields.len() - 1], sep));
        lemma_last_index_concat(join_spec(d, sep), sep, last);
        let i = join_spec(d, sep).len() as int;
        assert(s.subrange(0, i) =~= join_spec(d, sep));
        assert(s.subrange(i + 1, s.len() as int) =~= last);
        assert(d.push(last) =~= fields);
    }
}

/// Cutting gives at least one field.
pub proof fn lemma_split_nonempty(s: Seq<char>, sep: char)
    ensures
        split_spec(s, sep).len() >= 1,
    decreases s.len(),
{
    lemma_last_index_of(s, sep);
    match last_index_of(s, sep) {
        Some(i) => {
            lemma_split_nonempty(s.subrange(0, i), sep);
        },
        None => {},
    }
}

/// Whether `c` occurs in `s`.
pub fn holds_char(s: &str, c: char) -> (found: bool)
    ensures
        found == !free_of(s@, c),
{
    proof {
        lemma_last_index_of(s@, c);
    }
    match find_last(s, c) {
        Some(i) => {
            assert(s@[i as int] == c);
            true
        },
        None => false,
    }
}

/// No field of a cut holds the separator.
pub proof fn lemma_split_fields_free(s: Seq<char>, sep: char)
    ensures
        forall|i: int|
            0 <= i < split_spec(s, sep).len() ==> free_of(#[trigger] split_spec(s, sep)[i], sep),
    decreases s.len(),
{
    lemma_last_index_of(s, sep);
    match last_index_of(s, sep) {
        Some(k) => {
            let front = split_spec(s.subrange(0, k), sep);
            let last = s.subrange(k + 1, s.len() as int);
            lemma_split_fields_free(s.subrange(0, k), sep);
            assert forall|j: int| 0 <= j < last.len() implies last[j] != sep by {
                assert(last[j] == s[k + 1 + j]);
            }
            assert forall|i: int| 0 <= i < split_spec(s, sep).len() implies free_of(
                #[trigger] split_spec(s, sep)[i],
                sep,
            ) by {
                if i < front.len() {
                    assert(split_spec(s, sep)[i] == front[i]);
                } else {
                    assert(split_spec(s, sep)[i] == last);
                }
            }
        },
        None => {
            assert(split_spec(s, sep) =~= seq![s]);
        },
    }
}

} // verus!
