//! File paths: texts whose parts are divided by `/`.

use vstd::prelude::*;
use vstd::string::*;

use crate::common::text::chars_of;

verus! {

/// The position of the last `c` in `s`, or -1.
pub open spec fn last_position(s: Seq<char>, c: char) -> int
    decreases s.len(),
{
    if s.len() == 0 {
        -1
    } else if s.last() == c {
        s.len() - 1
    } else {
        last_position(s.drop_last(), c)
    }
}

/// `s` without what names no part at its end: a `/`, or a `/.`.
pub open spec fn trimmed(s: Seq<char>) -> Seq<char>
    decreases s.len(),
{
    if s.len() > 1 && s.last() == '/' {
        trimmed(s.drop_last())
    } else if s.len() > 1 && s.last() == '.' && s[s.len() - 2] == '/' {
        trimmed(s.drop_last())
    } else {
        s
    }
}

/// The last part of a path.
pub open spec fn last_part(s: Seq<char>) -> Seq<char> {
    let t = trimmed(s);
    t.skip(last_position(t, '/') + 1)
}

/// Whether a part of a path names a file.
pub open spec fn names_file(part: Seq<char>) -> bool {
    part.len() > 0 && part != seq!['.'] && part != seq!['.', '.']
}

/// The name of the file that a path leads to, if it names one.
pub open spec fn file_name_of(s: Seq<char>) -> Option<Seq<char>> {
    if names_file(last_part(s)) {
        Some(last_part(s))
    } else {
        None
    }
}

/// The length of a file name without its extension: what stands before the last
/// dot, unless nothing does.
pub open spec fn stem_len(name: Seq<char>) -> int {
    if last_position(name, '.') <= 0 {
        name.len() as int
    } else {
        last_position(name, '.')
    }
}

/// The path with the extension of its file name replaced. A path that names no
/// file stays as it is.
pub open spec fn extended(s: Seq<char>, extension: Seq<char>) -> Seq<char> {
    if names_file(last_part(s)) {
        let t = trimmed(s);
        t.take(t.len() - last_part(s).len() + stem_len(last_part(s))) + seq!['.'] + extension
    } else {
        s
    }
}

/// The path of `name` under `dir`.
pub open spec fn joined(dir: Seq<char>, name: Seq<char>) -> Seq<char> {
    if dir.len() == 0 || (name.len() > 0 && name[0] == '/') {
        name
    } else if dir.last() == '/' {
        dir + name
    } else {
        dir.push('/') + name
    }
}

/// Whether a text is a plain file name that ends in neither a dot nor a slash.
pub open spec fn plain_name(name: Seq<char>) -> bool {
    &&& name.len() > 0
    &&& name.last() != '.'
    &&& forall|i: int| 0 <= i < name.len() ==> #[trigger] name[i] != '/'
}

proof fn lemma_last_position_behind(a: Seq<char>, b: Seq<char>, c: char)
    requires
        forall|i: int| 0 <= i < b.len() ==> #[trigger] b[i] != c,
    ensures
        last_position(a + b, c) == last_position(a, c),
    decreases b.len(),
{
    if b.len() == 0 {
        assert(a + b =~= a);
    } else {
        assert((a + b).last() == b.last());
        assert(b[b.len() - 1] != c);
        assert((a + b).drop_last() =~= a + b.drop_last());
        assert forall|i: int| 0 <= i < b.drop_last().len() implies #[trigger] b.drop_last()[i]
            != c by {
            assert(b.drop_last()[i] == b[i]);
        }
        lemma_last_position_behind(a, b.drop_last(), c);
    }
}

/// The name under a directory is the file name of the path.
pub proof fn lemma_joined_name(dir: Seq<char>, name: Seq<char>)
    requires
        plain_name(name),
    ensures
        file_name_of(joined(dir, name)) == Some(name),
{
    let p = joined(dir, name);
    assert(name[0] != '/');
    let front = if dir.len() == 0 {
        Seq::<char>::empty()
    } else if dir.last() == '/' {
        dir
    } else {
        dir.push('/')
    };
    assert(p =~= front + name);
    assert(p.last() == name.last());
    assert(name[name.len() - 1] != '/');
    assert(trimmed(p) == p);
    lemma_last_position_behind(front, name, '/');
    assert(last_position(front, '/') == front.len() - 1);
    assert(p.skip(front.len() as int) =~= name);
    if name.len() == 1 {
        assert(name != seq!['.']) by {
            assert(seq!['.'].last() == '.');
        }
    }
    assert(name != seq!['.', '.']) by {
        assert(seq!['.', '.'].last() == '.');
    }
}

proof fn lemma_last_position(s: Seq<char>, c: char)
    ensures
        -1 <= last_position(s, c) < s.len(),
    decreases s.len(),
{
    if s.len() > 0 && s.last() != c {
        lemma_last_position(s.drop_last(), c);
    }
}

/// The position of the last `c` in `chars[from..to]`.
fn find_last(chars: &Vec<char>, from: usize, to: usize, c: char) -> (r: Option<usize>)
    requires
        from <= to <= chars@.len(),
    ensures
        r matches Some(i) ==> i == last_position(chars@.subrange(from as int, to as int), c),
        r is None ==> last_position(chars@.subrange(from as int, to as int), c) == -1,
{
    let ghost s = chars@.subrange(from as int, to as int);
    let mut n: usize = to - from;
    assert(s.take(n as int) =~= s);
    while n > 0
        invariant
            n <= to - from,
            from <= to <= chars@.len(),
            s == chars@.subrange(from as int, to as int),
            last_position(s, c) == last_position(s.take(n as int), c),
        decreases n,
    {
        assert(s.take(n as int).last() == chars@[from + n - 1]);
        assert(s.take(n as int).drop_last() =~= s.take(n - 1));
        if chars[from + (n - 1)] == c {
            return Some(n - 1);
        }
        n -= 1;
    }
    None
}

/// Where the last part of a path begins and ends.
fn last_part_range(chars: &Vec<char>) -> (r: (usize, usize))
    ensures
        r.0 <= r.1 <= chars@.len(),
        trimmed(chars@) == chars@.take(r.1 as int),
        last_part(chars@) == chars@.subrange(r.0 as int, r.1 as int),
{
    let mut end: usize = chars.len();
    assert(chars@.take(end as int) =~= chars@);
    while end > 1 && (chars[end - 1] == '/' || (chars[end - 1] == '.' && chars[end - 2] == '/'))
        invariant
            end <= chars@.len(),
            trimmed(chars@) == trimmed(chars@.take(end as int)),
        decreases end,
    {
        assert(chars@.take(end as int).drop_last() =~= chars@.take(end - 1));
        end -= 1;
    }
    assert(trimmed(chars@) == chars@.take(end as int));
    assert(chars@.subrange(0, end as int) =~= chars@.take(end as int));
    proof {
        lemma_last_position(chars@.take(end as int), '/');
    }
    let start: usize = match find_last(chars, 0, end, '/') {
        Some(i) => i + 1,
        None => 0,
    };
    assert(chars@.subrange(start as int, end as int) =~= chars@.take(end as int).skip(
        start as int,
    ));
    (start, end)
}

fn names(chars: &Vec<char>, from: usize, to: usize) -> (r: bool)
    requires
        from <= to <= chars@.len(),
    ensures
        r == names_file(chars@.subrange(from as int, to as int)),
{
    let ghost part = chars@.subrange(from as int, to as int);
    let n: usize = to - from;
    if n == 1 && chars[from] == '.' {
        assert(part =~= seq!['.']);
        false
    } else if n == 2 && chars[from] == '.' && chars[from + 1] == '.' {
        assert(part =~= seq!['.', '.']);
        false
    } else {
        proof {
            if part == seq!['.'] {
                assert(part.len() == 1 && part[0] == '.');
            }
            if part == seq!['.', '.'] {
                assert(part.len() == 2 && part[0] == '.' && part[1] == '.');
            }
        }
        n > 0
    }
}

/// The path of `name` under `dir`.
pub fn join(dir: &str, name: &str) -> (r: String)
    ensures
        r@ == joined(dir@, name@),
{
    let chars = chars_of(dir);
    let names = chars_of(name);
    if chars.len() == 0 || (names.len() > 0 && names[0] == '/') {
        return name.to_owned();
    }
    let mut s = dir.to_owned();
    if chars[chars.len() - 1] != '/' {
        proof {
            reveal_strlit("/");
        }
        s.append("/");
        assert(s@ =~= dir@.push('/'));
    }
    s.append(name);
    s
}

/// The name of the file that a path leads to.
pub fn file_name(path: &str) -> (r: Option<String>)
    ensures
        r is Some <==> file_name_of(path@) is Some,
        r matches Some(s) ==> file_name_of(path@) == Some(s@),
{
    let chars = chars_of(path);
    let (start, end) = last_part_range(&chars);
    if names(&chars, start, end) {
        Some(path.substring_char(start, end).to_owned())
    } else {
        None
    }
}

/// The position of the last dot in a name.
pub fn last_dot(name: &str) -> (r: Option<usize>)
    ensures
        r matches Some(i) ==> i == last_position(name@, '.') && i < name@.len(),
        r is None ==> last_position(name@, '.') == -1,
{
    let chars = chars_of(name);
    assert(chars@.subrange(0, chars@.len() as int) =~= name@);
    proof {
        lemma_last_position(name@, '.');
    }
    find_last(&chars, 0, chars.len(), '.')
}

/// The path with the extension of its file name replaced.
pub fn with_extension(path: &str, extension: &str) -> (r: String)
    ensures
        r@ == extended(path@, extension@),
{
    let chars = chars_of(path);
    let (start, end) = last_part_range(&chars);
    if names(&chars, start, end) {
        proof {
            lemma_last_position(last_part(path@), '.');
            reveal_strlit(".");
        }
        let keep: usize = match find_last(&chars, start, end, '.') {
            Some(i) => if i == 0 {
                end
            } else {
                start + i
            },
            None => end,
        };
        let mut s = path.substring_char(0, keep).to_owned();
        s.append(".");
        s.append(extension);
        assert(s@ =~= extended(path@, extension@));
        s
    } else {
        path.to_owned()
    }
}

/// A name under a directory is the directory, a slash if it has none at its end, and the
/// name, whatever they are.
pub proof fn law_joined(dir: Seq<char>, name: Seq<char>)
    ensures
        dir.len() > 0 && dir.last() != '/' && !(name.len() > 0 && name[0] == '/') ==> joined(
            dir,
            name,
        ) == dir + seq!['/'] + name,
        dir.len() > 0 && dir.last() == '/' && !(name.len() > 0 && name[0] == '/') ==> joined(
            dir,
            name,
        ) == dir + name,
        dir.len() == 0 ==> joined(dir, name) == name,
        name.len() > 0 && name[0] == '/' ==> joined(dir, name) == name,
{
    if dir.len() > 0 && dir.last() != '/' && !(name.len() > 0 && name[0] == '/') {
        assert(joined(dir, name) =~= dir + seq!['/'] + name);
    }
}

/// The file name of a path is what stands behind its last slash, when that has no slash
/// and does not end in a dot.
pub proof fn law_file_name(dir: Seq<char>, name: Seq<char>)
    requires
        name.len() > 0,
        name.last() != '.',
        forall|i: int| 0 <= i < name.len() ==> #[trigger] name[i] != '/',
    ensures
        file_name_of(joined(dir, name)) == Some(name),
        file_name_of(name) == Some(name),
{
    lemma_joined_name(dir, name);
    lemma_joined_name(Seq::empty(), name);
}

/// A file name without a dot gets the extension behind a dot.
pub proof fn law_extended(dir: Seq<char>, name: Seq<char>, extension: Seq<char>)
    requires
        name.len() > 0,
        forall|i: int| 0 <= i < name.len() ==> #[trigger] name[i] != '/' && name[i] != '.',
    ensures
        extended(joined(dir, name), extension) == joined(dir, name) + seq!['.'] + extension,
{
    let p = joined(dir, name);
    assert(name[name.len() - 1] != '.' && name[0] != '/');
    lemma_joined_name(dir, name);
    assert(last_part(p) == name);
    assert(p.last() == name.last());
    assert(trimmed(p) == p);
    lemma_last_position_behind(Seq::empty(), name, '.');
    assert(Seq::<char>::empty() + name =~= name);
    assert(p.take(p.len() as int) =~= p);
}

} // verus!
