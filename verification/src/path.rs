//! Where the files of a cgroup are found.
//!
//! Paths are Unix paths: components separated by slashes, where repeated slashes and `.`
//! components after the first place do not count.

use vstd::prelude::*;
use vstd::string::*;

use crate::text;

verus! {

/// `p` without the slashes and the `.` components at its end that do not count. A path keeps
/// its leading slash, and a leading `.`.
pub open spec fn normal_end(p: Seq<char>) -> Seq<char>
    decreases p.len(),
{
    if p.len() > 1 && (p.last() == '/' || (p.last() == '.' && p[p.len() - 2] == '/')) {
        normal_end(p.drop_last())
    } else {
        p
    }
}

/// How many characters of `p` stand up to its last slash, that slash included.
pub open spec fn dir_len(p: Seq<char>) -> nat
    decreases p.len(),
{
    if p.len() == 0 || p.last() == '/' {
        p.len()
    } else {
        dir_len(p.drop_last())
    }
}

/// The last component of `p`, unless `p` is empty or ends in the root, in `.` or in `..`.
pub open spec fn file_name(p: Seq<char>) -> Option<Seq<char>> {
    let path = normal_end(p);
    let name = path.skip(dir_len(path) as int);
    if name.len() == 0 || name == seq!['.'] || name == seq!['.', '.'] {
        None
    } else {
        Some(name)
    }
}

/// `p` without its last component.
pub open spec fn parent(p: Seq<char>) -> Seq<char> {
    let path = normal_end(p);
    normal_end(path.take(dir_len(path) as int))
}

/// The path of `name` inside the directory `dir`.
pub open spec fn joined(dir: Seq<char>, name: Seq<char>) -> Seq<char> {
    if dir.len() == 0 || dir.last() == '/' {
        dir + name
    } else {
        dir + seq!['/'] + name
    }
}

/// The directory of a cgroup and its `cpu.pressure` file, for a path that names either.
pub open spec fn resolved(p: Seq<char>) -> (Seq<char>, Seq<char>) {
    if file_name(p) == Some("cpu.pressure"@) {
        (parent(p), p)
    } else {
        (p, joined(p, "cpu.pressure"@))
    }
}

/// A name without slashes is what follows the last slash of a path that ends with it.
proof fn lemma_dir_len_append(p: Seq<char>, name: Seq<char>)
    requires
        p.len() == 0 || p.last() == '/',
        !name.contains('/'),
    ensures
        dir_len(p + name) == p.len(),
    decreases name.len(),
{
    if name.len() == 0 {
        assert(p + name =~= p);
    } else {
        assert(name.contains(name.last()));
        assert((p + name).drop_last() =~= p + name.drop_last());
        assert forall|c: char| name.drop_last().contains(c) implies name.contains(c) by {
            let i = choose|i: int| 0 <= i < name.drop_last().len() && name.drop_last()[i] == c;
            assert(name[i] == c);
        }
        lemma_dir_len_append(p, name.drop_last());
    }
}

/// A cgroup directory and its `cpu.pressure` file lead to the same pair of paths, but for
/// slashes and dots at the end of the directory that do not count.
pub proof fn law_directory_or_file(dir: Seq<char>)
    requires
        file_name(dir) != Some("cpu.pressure"@),
    ensures
        resolved(dir).0 == dir,
        resolved(resolved(dir).1) == (normal_end(dir), resolved(dir).1),
{
    reveal_strlit("cpu.pressure");
    let name = "cpu.pressure"@;
    let head = if dir.len() == 0 || dir.last() == '/' {
        dir
    } else {
        dir + seq!['/']
    };
    let p = joined(dir, name);
    assert(p =~= head + name);
    assert(normal_end(p) == p);
    assert(!name.contains('/'));
    lemma_dir_len_append(head, name);
    assert(p.skip(head.len() as int) =~= name);
    assert(p.take(head.len() as int) =~= head);
    assert(name.len() == 12);
    if head != dir {
        assert(head.drop_last() =~= dir);
    }
}

/// Where the part of `chars` up to `end` ends without what does not count.
fn normal_end_of(chars: &Vec<char>, end: usize) -> (r: usize)
    requires
        end <= chars.len(),
    ensures
        r <= end,
        chars@.take(r as int) == normal_end(chars@.take(end as int)),
{
    let mut r: usize = end;
    while r > 1 && (chars[r - 1] == '/' || (chars[r - 1] == '.' && chars[r - 2] == '/'))
        invariant
            r <= end <= chars.len(),
            normal_end(chars@.take(r as int)) == normal_end(chars@.take(end as int)),
        decreases r,
    {
        assert(chars@.take(r as int).drop_last() =~= chars@.take(r - 1));
        r -= 1;
    }
    r
}

/// The directory that `path` stands in and its name there, if its last component is a name.
#[verifier::rlimit(40)]
pub fn split_file_name<'a>(path: &'a str) -> (r: Option<(&'a str, &'a str)>)
    ensures
        match r {
            Some((dir, name)) => file_name(path@) == Some(name@) && parent(path@) == dir@,
            None => file_name(path@) is None,
        },
{
    let chars: Vec<char> = text::chars_of(path);
    assert(path@.take(chars.len() as int) =~= path@);
    let end: usize = normal_end_of(&chars, chars.len());
    let ghost whole = path@.take(end as int);
    let mut start: usize = end;
    while start > 0 && chars[start - 1] != '/'
        invariant
            start <= end <= chars.len(),
            chars@ == path@,
            whole == path@.take(end as int),
            dir_len(path@.take(start as int)) == dir_len(whole),
        decreases start,
    {
        assert(path@.take(start as int).drop_last() =~= path@.take(start - 1));
        start -= 1;
    }
    let name = path.substring_char(start, end);
    proof {
        assert(whole.skip(start as int) =~= name@);
        assert(whole.take(start as int) =~= path@.take(start as int));
        reveal_strlit(".");
        reveal_strlit("..");
        assert("."@ =~= seq!['.']);
        assert(".."@ =~= seq!['.', '.']);
    }
    if start == end || text::same_text(name, ".") || text::same_text(name, "..") {
        None
    } else {
        let dir_end: usize = normal_end_of(&chars, start);
        let dir = path.substring_char(0, dir_end);
        assert(dir@ =~= path@.take(dir_end as int));
        Some((dir, name))
    }
}

/// The path of `name` inside the directory `dir`.
pub fn join(dir: &str, name: &str) -> (r: String)
    ensures
        r@ == joined(dir@, name@),
{
    let n: usize = dir.unicode_len();
    if n == 0 || dir.get_char(n - 1) == '/' {
        dir.to_owned().concat(name)
    } else {
        proof {
            reveal_strlit("/");
            assert("/"@ =~= seq!['/']);
        }
        dir.to_owned().concat("/").concat(name)
    }
}

/// The directory of a cgroup and its `cpu.pressure` file, for a path that names either.
pub fn resolve_cgroup_paths(path: &str) -> (r: (String, String))
    ensures
        (r.0@, r.1@) == resolved(path@),
{
    if let Some((dir, name)) = split_file_name(path) {
        if text::same_text(name, "cpu.pressure") {
            return (dir.to_owned(), path.to_owned());
        }
    }
    (path.to_owned(), join(path, "cpu.pressure"))
}

/// Slashes and `.` components at the end of a path do not count, and nothing else is taken off.
pub proof fn law_path_end(p: Seq<char>)
    ensures
        p.len() > 0 ==> normal_end(p.push('/')) == normal_end(p),
        normal_end(p.push('/').push('.')) == normal_end(p.push('/')),
        p.len() <= 1 ==> normal_end(p) == p,
        p.len() > 1 && p.last() != '/' && !(p.last() == '.' && p[p.len() - 2] == '/')
            ==> normal_end(p) == p,
{
    assert(p.push('/').drop_last() =~= p);
    assert(p.push('/').push('.').drop_last() =~= p.push('/'));
}

/// What does not count at the end of a path does not change its name or its directory.
pub proof fn law_path_end_is_ignored(p: Seq<char>)
    requires
        p.len() > 0,
    ensures
        file_name(p.push('/')) == file_name(p),
        parent(p.push('/')) == parent(p),
        file_name(p.push('/').push('.')) == file_name(p),
        parent(p.push('/').push('.')) == parent(p),
{
    law_path_end(p);
}

/// The name of a path is its last component and the rest is its directory. The empty path, the
/// root, `.` and a path that ends in `..` have no name.
pub proof fn law_path_components(dir: Seq<char>, name: Seq<char>)
    requires
        !name.contains('/'),
        name.len() > 0,
        name != seq!['.'],
    ensures
        ({
            let p = dir + seq!['/'] + name;
            let expected = if name == seq!['.', '.'] {
                None
            } else {
                Some(name)
            };
            &&& file_name(p) == expected
            &&& file_name(name) == expected
            &&& parent(p) == normal_end(dir.push('/'))
            &&& parent(name) == Seq::<char>::empty()
        }),
        file_name(seq![]) is None,
        file_name(seq!['/']) is None,
        file_name(seq!['.']) is None,
{
    let head = dir + seq!['/'];
    let p = head + name;
    let none = Seq::<char>::empty();
    assert(name.contains(name.last()));
    if name.len() > 1 {
        assert(name.contains(name[name.len() - 2]));
        assert(p[p.len() - 2] == name[name.len() - 2]);
    } else if name.last() == '.' {
        assert(name =~= seq!['.']);
    }
    assert(p.last() == name.last());
    assert(normal_end(p) == p);
    assert(normal_end(name) == name);
    lemma_dir_len_append(head, name);
    lemma_dir_len_append(none, name);
    assert(none + name =~= name);
    assert(p.skip(head.len() as int) =~= name);
    assert(p.take(head.len() as int) =~= head);
    assert(head =~= dir.push('/'));
    assert(name.skip(0) =~= name);
    assert(name.take(0) =~= none);
    let (root, dot) = (seq!['/'], seq!['.']);
    assert(root.skip(1) =~= none);
    assert(none.skip(0) =~= none);
    assert(!dot.contains('/'));
    lemma_dir_len_append(none, dot);
    assert(none + dot =~= dot);
    assert(dot.skip(0) =~= dot);
}

/// A name joined to a directory stands in it, behind one slash more unless the directory ends in
/// one. Joined to nothing it stands alone.
pub proof fn law_joined(dir: Seq<char>, name: Seq<char>)
    ensures
        joined(seq![], name) == name,
        joined(dir.push('/'), name) == dir + seq!['/'] + name,
        dir.len() > 0 && dir.last() != '/' ==> joined(dir, name) == dir + seq!['/'] + name,
{
    assert(Seq::<char>::empty() + name =~= name);
    assert(dir.push('/') + name =~= dir + seq!['/'] + name);
}

/// A path whose last component is `cpu.pressure` is the file itself, and the cgroup is the
/// directory that it stands in. Any other path is the directory, and the file stands in it.
pub proof fn law_resolved(dir: Seq<char>, p: Seq<char>)
    requires
        file_name(p) != Some("cpu.pressure"@),
    ensures
        ({
            let file = dir + seq!['/'] + "cpu.pressure"@;
            &&& resolved(file) == (normal_end(dir.push('/')), file)
            &&& resolved(file.push('/')) == (normal_end(dir.push('/')), file.push('/'))
        }),
        resolved("cpu.pressure"@) == (Seq::<char>::empty(), "cpu.pressure"@),
        resolved(p) == (p, joined(p, "cpu.pressure"@)),
{
    reveal_strlit("cpu.pressure");
    let pressure = "cpu.pressure"@;
    assert(pressure.len() == 12);
    assert(!pressure.contains('/'));
    law_path_components(dir, pressure);
    law_path_end_is_ignored(dir + seq!['/'] + pressure);
}

} // verus!
