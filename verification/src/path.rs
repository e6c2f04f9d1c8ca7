//! Resolving a template path against the path of the including template.
use vstd::prelude::*;
use crate::text::push_char;

verus! {

/// `s` without its leading run of `c`.
pub open spec fn trim_leading(s: Seq<char>, c: char) -> Seq<char>
    decreases s.len(),
{
    if s.len() > 0 && s[0] == c {
        trim_leading(s.drop_first(), c)
    } else {
        s
    }
}

/// The index of the last `c` in `s`, if any.
pub open spec fn last_index_of(s: Seq<char>, c: char) -> Option<int>
    decreases s.len(),
{
    if s.len() == 0 {
        None
    } else if s.last() == c {
        Some(s.len() - 1)
    } else {
        last_index_of(s.drop_last(), c)
    }
}

/// Law: `last_index_of` finds the last occurrence: when it gives `i`, `s[i]`
/// is `c` and no later position holds `c`; when it gives nothing, `c` does
/// not occur in `s`.
pub proof fn law_last_index_of_is_last(s: Seq<char>, c: char)
    ensures
        match last_index_of(s, c) {
            Some(i) => 0 <= i < s.len() && s[i] == c && forall|j: int| i < j < s.len() ==> s[j] != c,
            None => forall|j: int| 0 <= j < s.len() ==> s[j] != c,
        },
    decreases s.len(),
{
    if s.len() > 0 && s.last() != c {
        law_last_index_of_is_last(s.drop_last(), c);
        assert forall|j: int| 0 <= j < s.len() - 1 implies s[j] == s.drop_last()[j] by {}
    }
}

/// A path separator: `/` or `\`.
pub open spec fn is_separator(c: char) -> bool {
    c == '/' || c == '\\'
}

/// The directory part of `ori`: everything before its last `/`, or else
/// before its last `\`, or all of it when it has neither.
pub open spec fn directory_of(ori: Seq<char>) -> Seq<char> {
    match last_index_of(ori, '/') {
        Some(i) => ori.take(i),
        None => match last_index_of(ori, '\\') {
            Some(i) => ori.take(i),
            None => ori,
        },
    }
}

/// Law: the directory of a path that holds a `/` is everything before its
/// last `/`: the directory is followed in the path by `/`, and no `/` comes
/// after that one.
pub proof fn law_directory_is_before_last_slash(ori: Seq<char>)
    requires
        exists|j: int| 0 <= j < ori.len() && ori[j] == '/',
    ensures
        directory_of(ori).len() < ori.len(),
        ori[directory_of(ori).len() as int] == '/',
        directory_of(ori) == ori.take(directory_of(ori).len() as int),
        forall|j: int| directory_of(ori).len() < j < ori.len() ==> ori[j] != '/',
{
    law_last_index_of_is_last(ori, '/');
}

/// `path` resolved against `ori`.
///
/// A path that starts with a separator is absolute: its leading `/`s and
/// then its leading `\`s are removed. Any other path is relative to the
/// directory of `ori`, joined with `/` unless that directory already ends
/// with a separator.
pub open spec fn full_dir(path: Seq<char>, ori: Seq<char>) -> Seq<char> {
    if path.len() > 0 && is_separator(path[0]) {
        trim_leading(trim_leading(path, '/'), '\\')
    } else {
        let dir = directory_of(ori);
        if dir.len() > 0 && is_separator(dir.last()) {
            dir + path
        } else {
            dir + seq!['/'] + path
        }
    }
}

/// Law: the directory of a path with no `/` is everything before its last
/// `\\`, or the whole path when it has neither separator.
pub proof fn law_directory_without_slash(ori: Seq<char>)
    requires
        forall|j: int| 0 <= j < ori.len() ==> ori[j] != '/',
    ensures
        directory_of(ori) == ori.take(directory_of(ori).len() as int),
        directory_of(ori).len() < ori.len() ==> ori[directory_of(ori).len() as int] == '\\',
        forall|j: int| directory_of(ori).len() < j < ori.len() ==> ori[j] != '\\',
        (forall|j: int| 0 <= j < ori.len() ==> ori[j] != '\\') ==> directory_of(ori) == ori,
{
    law_last_index_of_is_last(ori, '/');
    law_last_index_of_is_last(ori, '\\');
    if last_index_of(ori, '/') is Some {
        assert(ori[last_index_of(ori, '/').unwrap()] == '/');
    }
    if last_index_of(ori, '\\') is None {
        assert(ori.take(ori.len() as int) =~= ori);
    } else {
        let i = last_index_of(ori, '\\').unwrap();
        assert(ori[i] == '\\');
    }
}

/// Law: a relative path is resolved in the directory of the including
/// path: the result is the including path up to and with its last `/`,
/// then the path (the `/` is not doubled after a `\` that ends the
/// directory).
pub proof fn law_relative_path_joins_last_directory(path: Seq<char>, ori: Seq<char>)
    requires
        path.len() == 0 || !is_separator(path[0]),
        exists|j: int| 0 <= j < ori.len() && ori[j] == '/',
    ensures
        exists|k: int|
            0 <= k < ori.len() && #[trigger] ori[k] == '/' && (forall|j: int| k < j < ori.len() ==> ori[j] != '/')
                && (full_dir(path, ori) == ori.take(k + 1) + path || (k > 0 && is_separator(ori[k - 1])
                && full_dir(path, ori) == ori.take(k) + path)),
{
    law_directory_is_before_last_slash(ori);
    let k = directory_of(ori).len() as int;
    if k > 0 && is_separator(ori[k - 1]) {
        assert(directory_of(ori).last() == ori[k - 1]);
    } else {
        assert(ori.take(k) + seq!['/'] =~= ori.take(k + 1));
        assert(ori.take(k + 1) + path =~= ori.take(k) + seq!['/'] + path);
    }
    assert(ori[k] == '/');
}

/// The characters of `s`.
fn chars_of(s: &str) -> (v: Vec<char>)
    ensures
        v@ == s@,
{
    let mut v: Vec<char> = Vec::new();
    proof {
        broadcast use vstd::string::axiom_spec_iter;
    }
    for c in it: s.chars()
        invariant
            it.seq() == s@,
            v@ == s@.take(it.index()),
    {
        v.push(c);
        assert(v@ =~= s@.take(it.index() + 1));
    }
    assert(s@.take(s@.len() as int) =~= s@);
    v
}

/// Append `v[from..to]` to `out`.
fn push_range(out: &mut String, v: &Vec<char>, from: usize, to: usize)
    requires
        from <= to <= v@.len(),
    ensures
        final(out)@ == old(out)@ + v@.subrange(from as int, to as int),
{
    let mut k: usize = from;
    while k < to
        invariant
            from <= k <= to <= v@.len(),
            out@ == old(out)@ + v@.subrange(from as int, k as int),
        decreases to - k,
    {
        push_char(out, v[k]);
        k = k + 1;
        assert(out@ =~= old(out)@ + v@.subrange(from as int, k as int));
    }
}

/// The index of the last `c` in `v`, if any.
fn find_last(v: &Vec<char>, c: char) -> (r: Option<usize>)
    ensures
        r is None <==> last_index_of(v@, c) is None,
        r matches Some(i) ==> last_index_of(v@, c) == Some(i as int) && i < v@.len(),
        r matches Some(i) ==> v@[i as int] == c && forall|j: int| i < j < v@.len() ==> v@[j] != c,
        r is None ==> forall|j: int| 0 <= j < v@.len() ==> v@[j] != c,
{
    proof {
        law_last_index_of_is_last(v@, c);
    }
    let mut k: usize = v.len();
    assert(v@.take(v@.len() as int) =~= v@);
    while k > 0
        invariant
            k <= v@.len(),
            last_index_of(v@, c) == last_index_of(v@.take(k as int), c),
        decreases k,
    {
        assert(v@.take(k as int).drop_last() =~= v@.take(k - 1));
        if v[k - 1] == c {
            proof {
                law_last_index_of_is_last(v@, c);
            }
            return Some(k - 1);
        }
        k = k - 1;
    }
    None
}

/// The start of `v` after its leading run of `c`, from `from` on.
fn skip_leading(v: &Vec<char>, from: usize, c: char) -> (i: usize)
    requires
        from <= v@.len(),
    ensures
        from <= i <= v@.len(),
        v@.subrange(i as int, v@.len() as int) == trim_leading(
            v@.subrange(from as int, v@.len() as int),
            c,
        ),
{
    let mut i: usize = from;
    while i < v.len() && v[i] == c
        invariant
            from <= i <= v@.len(),
            trim_leading(v@.subrange(i as int, v@.len() as int), c) == trim_leading(
                v@.subrange(from as int, v@.len() as int),
                c,
            ),
        decreases v@.len() - i,
    {
        assert(v@.subrange(i as int, v@.len() as int).drop_first() =~= v@.subrange(
            i + 1,
            v@.len() as int,
        ));
        i = i + 1;
    }
    i
}

/// Resolve `path` against the path `ori` of the template that refers to it
/// (see `full_dir`).
pub fn get_full_dir(path: &str, ori: &str) -> (r: String)
    ensures
        r@ == full_dir(path@, ori@),
{
    let p = chars_of(path);
    let o = chars_of(ori);
    let mut out = String::new();
    if p.len() > 0 && (p[0] == '/' || p[0] == '\\') {
        let i = skip_leading(&p, 0, '/');
        let j = skip_leading(&p, i, '\\');
        push_range(&mut out, &p, j, p.len());
        proof {
            assert(p@.subrange(0, p@.len() as int) =~= p@);
            assert(out@ =~= p@.subrange(j as int, p@.len() as int));
        }
        return out;
    }
    let end = match find_last(&o, '/') {
        Some(i) => i,
        None => match find_last(&o, '\\') {
            Some(i) => i,
            None => o.len(),
        },
    };
    proof {
        assert(o@.take(o@.len() as int) =~= o@);
    }
    let ghost before = out@;
    push_range(&mut out, &o, 0, end);
    proof {
        assert(before =~= Seq::<char>::empty());
        assert(out@ =~= o@.subrange(0, end as int));
        assert(o@.subrange(0, end as int) =~= o@.take(end as int));
        assert(out@ =~= directory_of(o@));
    }
    if end > 0 && (o[end - 1] == '/' || o[end - 1] == '\\') {
        push_range(&mut out, &p, 0, p.len());
    } else {
        push_char(&mut out, '/');
        push_range(&mut out, &p, 0, p.len());
    }
    assert(p@.subrange(0, p@.len() as int) =~= p@);
    out
}

} // verus!
