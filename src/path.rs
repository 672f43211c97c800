//! Paths as `/`-separated character sequences.
use vstd::prelude::*;
use vstd::string::*;

verus! {

/// `p` starts with the separator.
pub open spec fn has_leading_separator(p: Seq<char>) -> bool {
    p.len() > 0 && p[0] == '/'
}

/// A path is absolute when it starts with the separator.
pub open spec fn is_absolute(p: Seq<char>) -> bool {
    has_leading_separator(p)
}

/// `rel` placed beneath the directory `dir`, with one separator between
/// them unless `dir` already ends in one; beneath the empty path, `rel`
/// itself.
pub open spec fn join(dir: Seq<char>, rel: Seq<char>) -> Seq<char> {
    if dir.len() == 0 {
        rel
    } else if dir.last() == '/' {
        dir + rel
    } else {
        dir + seq!['/'] + rel
    }
}

/// `p` lies strictly beneath the directory `dir`; nothing lies beneath the
/// empty path.
pub open spec fn is_under(p: Seq<char>, dir: Seq<char>) -> bool {
    &&& dir.len() > 0
    &&& p.len() > dir.len()
    &&& p.subrange(0, dir.len() as int) == dir
    &&& (dir.last() == '/' || p[dir.len() as int] == '/')
}

/// Where `p`, beneath `dir`, starts relative to `dir`.
pub open spec fn relative_start(dir: Seq<char>) -> int {
    if dir.len() > 0 && dir.last() == '/' {
        dir.len() as int
    } else {
        dir.len() as int + 1
    }
}

/// The path of `p`, beneath `dir`, relative to `dir`.
pub open spec fn relative_to(p: Seq<char>, dir: Seq<char>) -> Seq<char> {
    p.subrange(relative_start(dir), p.len() as int)
}

/// `p` is `dir` itself or lies beneath it.
pub open spec fn is_within(p: Seq<char>, dir: Seq<char>) -> bool {
    p == dir || is_under(p, dir)
}

/// Number of separators at the start of `p`.
pub open spec fn leading_separators(p: Seq<char>) -> nat
    decreases p.len(),
{
    if p.len() > 0 && p[0] == '/' {
        1 + leading_separators(p.drop_first())
    } else {
        0
    }
}

/// `p` without any separators at its start.
pub open spec fn trim_leading_separators(p: Seq<char>) -> Seq<char> {
    p.subrange(leading_separators(p) as int, p.len() as int)
}

/// The final component of `p`: what follows its last separator.
pub open spec fn last_component(p: Seq<char>) -> Seq<char>
    decreases p.len(),
{
    if p.len() == 0 || p.last() == '/' {
        Seq::empty()
    } else {
        last_component(p.drop_last()).push(p.last())
    }
}

/// `p` ends in a `.` component.
pub open spec fn ends_in_current_dir(p: Seq<char>) -> bool {
    p.len() > 0 && p.last() == '.' && (p.len() == 1 || p[p.len() - 2] == '/')
}

/// The name of the file or directory that `p` names: its final component,
/// after trailing separators and `.` components are skipped.
pub open spec fn file_name(p: Seq<char>) -> Seq<char>
    decreases p.len(),
{
    if p.len() == 0 {
        Seq::empty()
    } else if p.last() == '/' || ends_in_current_dir(p) {
        file_name(p.drop_last())
    } else {
        last_component(p)
    }
}

/// A component has an extension when a dot stands in it after its first
/// character; the parent-directory component `..` has none.
pub open spec fn component_has_extension(c: Seq<char>) -> bool {
    &&& c != seq!['.', '.']
    &&& exists|i: int| 0 < i < c.len() && c[i] == '.'
}

/// The file a piece of text is written to when rendered at `p`: `p` itself
/// when the name it ends in has an extension, else `index.html` beneath `p`.
pub open spec fn final_path(p: Seq<char>) -> Seq<char> {
    if component_has_extension(file_name(p)) {
        p
    } else {
        join(p, index_file())
    }
}

pub open spec fn index_file() -> Seq<char> {
    seq!['i', 'n', 'd', 'e', 'x', '.', 'h', 't', 'm', 'l']
}

pub proof fn lemma_join_is_under(dir: Seq<char>, rel: Seq<char>)
    requires
        dir.len() > 0,
        rel.len() > 0,
    ensures
        is_under(join(dir, rel), dir),
{
    assert(join(dir, rel).subrange(0, dir.len() as int) =~= dir);
}

pub proof fn lemma_under_transitive(p: Seq<char>, q: Seq<char>, d: Seq<char>)
    requires
        is_under(p, q),
        is_under(q, d),
    ensures
        is_under(p, d),
{
    let pq = p.subrange(0, q.len() as int);
    assert forall|j: int| 0 <= j < d.len() implies #[trigger] p.subrange(0, d.len() as int)[j] == d[j] by {
        assert(pq[j] == p[j]);
        assert(q.subrange(0, d.len() as int)[j] == q[j]);
    }
    assert(p.subrange(0, d.len() as int) =~= d);
    assert(pq[d.len() as int] == p[d.len() as int]);
}

/// A path joined beneath `dir` has, relative to `dir`, the path joined.
pub proof fn lemma_relative_to_join(dir: Seq<char>, rel: Seq<char>)
    requires
        dir.len() > 0,
    ensures
        relative_to(join(dir, rel), dir) == rel,
{
    assert(relative_to(join(dir, rel), dir) =~= rel);
}

pub proof fn lemma_within_transitive(p: Seq<char>, q: Seq<char>, d: Seq<char>)
    requires
        is_within(p, q),
        is_within(q, d),
    ensures
        is_within(p, d),
        is_under(p, q) ==> is_under(p, d),
{
    if is_under(p, q) && is_under(q, d) {
        lemma_under_transitive(p, q, d);
    }
}

pub proof fn lemma_final_path_is_under(p: Seq<char>)
    requires
        p.len() > 0,
    ensures
        is_within(final_path(p), p),
{
    lemma_join_is_under(p, index_file());
}

/// Whether `p` is absolute.
pub fn is_absolute_path(p: &str) -> (r: bool)
    ensures
        r == is_absolute(p@),
{
    p.unicode_len() > 0 && p.get_char(0) == '/'
}

/// `rel` placed beneath the directory `dir`.
pub fn join_path(dir: &str, rel: &str) -> (r: String)
    ensures
        r@ == join(dir@, rel@),
{
    let n = dir.unicode_len();
    if n == 0 {
        return String::from_str(rel);
    }
    let mut r = String::from_str(dir);
    if dir.get_char(n - 1) == '/' {
        r.append(rel);
        return r;
    }
    proof {
        reveal_strlit("/");
    }
    r.append("/");
    r.append(rel);
    r
}

/// `p` with every separator at its start removed.
pub fn trim_separators(p: &str) -> (r: &str)
    ensures
        r@ == trim_leading_separators(p@),
{
    let n = p.unicode_len();
    let mut i: usize = 0;
    assert(p@.subrange(0, n as int) =~= p@);
    while i < n && p.get_char(i) == '/'
        invariant
            n == p@.len(),
            i <= n,
            forall|j: int| 0 <= j < i ==> p@[j] == '/',
            leading_separators(p@) == i + leading_separators(p@.subrange(i as int, n as int)),
        decreases n - i,
    {
        proof {
            let s = p@.subrange(i as int, n as int);
            assert(s.drop_first() =~= p@.subrange(i + 1, n as int));
        }
        i = i + 1;
    }
    proof {
        let s = p@.subrange(i as int, n as int);
        if i < n {
            assert(s[0] == p@[i as int]);
        }
    }
    p.substring_char(i, n)
}

/// Whether the name that `p` ends in has an extension.
pub fn has_extension(p: &str) -> (r: bool)
    ensures
        r == component_has_extension(file_name(p@)),
{
    let n = p.unicode_len();
    let mut end: usize = n;
    assert(p@.subrange(0, n as int) =~= p@);
    while end > 0 && (p.get_char(end - 1) == '/' || (p.get_char(end - 1) == '.' && (end == 1
        || p.get_char(end - 2) == '/')))
        invariant
            n == p@.len(),
            end <= n,
            file_name(p@) == file_name(p@.subrange(0, end as int)),
        decreases end,
    {
        proof {
            let q = p@.subrange(0, end as int);
            assert(q.drop_last() =~= p@.subrange(0, end - 1));
        }
        end = end - 1;
    }
    let q = p.substring_char(0, end);
    proof {
        if end == 0 {
            assert(q@ =~= Seq::<char>::empty());
            assert(last_component(q@) =~= Seq::<char>::empty());
        }
    }
    last_component_has_extension(q)
}

/// Whether the component after the last separator of `p` has an extension.
fn last_component_has_extension(p: &str) -> (r: bool)
    ensures
        r == component_has_extension(last_component(p@)),
{
    let n = p.unicode_len();
    // `start` walks back to the first character of the final component.
    let mut start: usize = n;
    let mut dot_after_first = false;
    assert(p@.subrange(0, n as int) =~= p@);
    assert(p@.subrange(n as int, n as int) =~= Seq::<char>::empty());
    assert(last_component(p@) =~= last_component(p@.subrange(0, n as int)) + Seq::<char>::empty());
    while start > 0 && p.get_char(start - 1) != '/'
        invariant
            n == p@.len(),
            start <= n,
            last_component(p@) == last_component(p@.subrange(0, start as int)) + p@.subrange(start as int, n as int),
            forall|j: int| start <= j < n ==> p@[j] != '/',
            dot_after_first == (exists|j: int| start < j < n && p@[j] == '.'),
        decreases start,
    {
        proof {
            let pre = p@.subrange(0, start as int);
            assert(pre.drop_last() =~= p@.subrange(0, start - 1));
            assert(pre.last() == p@[start - 1]);
            assert(p@.subrange(start - 1, n as int) =~= seq![p@[start - 1]] + p@.subrange(start as int, n as int));
            assert(last_component(pre) =~= last_component(p@.subrange(0, start - 1)).push(p@[start - 1]));
            assert(last_component(pre) + p@.subrange(start as int, n as int)
                =~= last_component(p@.subrange(0, start - 1)) + p@.subrange(start - 1, n as int));
        }
        if start < n && p.get_char(start) == '.' {
            dot_after_first = true;
        }
        start = start - 1;
    }
    let c = p.substring_char(start, n);
    proof {
        let pre = p@.subrange(0, start as int);
        assert(last_component(pre) =~= Seq::<char>::empty());
        assert(last_component(p@) =~= c@);
        if dot_after_first {
            let j = choose|j: int| start < j < n && p@[j] == '.';
            assert(c@[j - start] == '.');
        }
        if exists|i: int| 0 < i < c@.len() && c@[i] == '.' {
            let i = choose|i: int| 0 < i < c@.len() && c@[i] == '.';
            assert(p@[start + i] == '.');
        }
    }
    let is_parent = c.unicode_len() == 2 && c.get_char(0) == '.' && c.get_char(1) == '.';
    proof {
        if is_parent {
            assert(c@ =~= seq!['.', '.']);
        }
    }
    dot_after_first && !is_parent
}

/// The file that text rendered at `p` is written to.
pub fn to_final_path(p: &str) -> (r: String)
    ensures
        r@ == final_path(p@),
{
    if has_extension(p) {
        String::from_str(p)
    } else {
        proof {
            reveal_strlit("index.html");
            assert("index.html"@ =~= index_file());
        }
        join_path(p, "index.html")
    }
}

} // verus!
