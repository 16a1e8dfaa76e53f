use vstd::prelude::*;
use vstd::string::*;

verus! {

/// The directory under which every overlay is stored.
pub open spec fn managed_root() -> Seq<char> {
    ".\\mods\\"@
}

/// The directory that holds the preserved stock files.
pub open spec fn archive_root() -> Seq<char> {
    ".\\mods\\_game_file"@
}

/// The managed directory of the overlay `name`.
pub open spec fn managed_prefix(name: Seq<char>) -> Seq<char> {
    managed_root() + name
}

/// `path` with its leading `prefix` replaced by `target`.
pub open spec fn replaced(path: Seq<char>, prefix: Seq<char>, target: Seq<char>) -> Seq<char> {
    target + path.skip(prefix.len() as int)
}

/// Whether `path` lies under the directory `dir`: it begins with `dir`, and a separator
/// follows.
pub open spec fn under(path: Seq<char>, dir: Seq<char>) -> bool {
    &&& dir.is_prefix_of(path)
    &&& path.len() > dir.len()
    &&& is_separator(path[dir.len() as int])
}

/// Whether `path` lies under the managed directory of the overlay `name`.
pub open spec fn mapped(path: Seq<char>, name: Seq<char>) -> bool {
    under(path, managed_prefix(name))
}

/// Where the managed file `path` of the overlay `name` is projected to under `root`.
pub open spec fn target_of(path: Seq<char>, name: Seq<char>, root: Seq<char>) -> Seq<char> {
    replaced(path, managed_prefix(name), root)
}

/// Where the stock file that `path` overwrites is preserved.
pub open spec fn archive_of(path: Seq<char>, name: Seq<char>) -> Seq<char> {
    replaced(path, managed_prefix(name), archive_root())
}

/// Whether `c` separates the components of a path.
pub open spec fn is_separator(c: char) -> bool {
    c == '/' || c == '\\'
}

/// `name` is the last component of `path`: the longest tail without a separator.
pub open spec fn is_base_name(path: Seq<char>, name: Seq<char>) -> bool {
    &&& name.len() <= path.len()
    &&& name == path.skip(path.len() - name.len())
    &&& forall|j: int| 0 <= j < name.len() ==> !is_separator(#[trigger] name[j])
    &&& name.len() < path.len() ==> is_separator(path[path.len() - name.len() - 1])
}

/// `path` without the separators at its end.
pub open spec fn trimmed(path: Seq<char>) -> Seq<char>
    decreases path.len(),
{
    if path.len() > 0 && is_separator(path.last()) {
        trimmed(path.drop_last())
    } else {
        path
    }
}

/// The longest tail of `path` without a separator.
pub open spec fn last_component(path: Seq<char>) -> Seq<char>
    decreases path.len(),
{
    if path.len() == 0 || is_separator(path.last()) {
        Seq::empty()
    } else {
        last_component(path.drop_last()).push(path.last())
    }
}

/// The name of the directory or file that `path` leads to: its last component,
/// separators at the end of `path` set aside. Empty where `path` has no component.
pub open spec fn base_name_of(path: Seq<char>) -> Seq<char> {
    last_component(trimmed(path))
}

/// Whether `path` begins with `prefix`, character by character.
pub fn starts_with(path: &str, prefix: &str) -> (b: bool)
    ensures
        b == prefix@.is_prefix_of(path@),
{
    let plen: usize = prefix.unicode_len();
    let len: usize = path.unicode_len();
    if plen > len {
        return false;
    }
    let head = String::from_str(path.substring_char(0, plen));
    let want = String::from_str(prefix);
    head == want
}

/// Replaces the leading `prefix` of `path` by `target`; `None` where `path` does not
/// start with `prefix`.
pub fn replace_prefix(path: &str, prefix: &str, target: &str) -> (out: Option<String>)
    ensures
        out is Some <==> prefix@.is_prefix_of(path@),
        out is Some ==> out.unwrap()@ == replaced(path@, prefix@, target@),
{
    if !starts_with(path, prefix) {
        return None;
    }
    let plen: usize = prefix.unicode_len();
    let len: usize = path.unicode_len();
    let rest = path.substring_char(plen, len);
    let out = String::from_str(target).concat(rest);
    Some(out)
}

/// Whether `path` lies under the directory `dir`.
pub fn lies_under(path: &str, dir: &str) -> (b: bool)
    ensures
        b == under(path@, dir@),
{
    if !starts_with(path, dir) {
        return false;
    }
    let dlen: usize = dir.unicode_len();
    let len: usize = path.unicode_len();
    if len <= dlen {
        return false;
    }
    let c = path.get_char(dlen);
    c == '/' || c == '\\'
}

/// `path` without the separators at its end.
pub fn trim_separators<'a>(path: &'a str) -> (out: &'a str)
    ensures
        out@ == trimmed(path@),
{
    let len: usize = path.unicode_len();
    let mut end: usize = len;
    let mut done: bool = false;
    proof {
        assert(path@.take(len as int) =~= path@);
    }
    while end > 0 && !done
        invariant
            end <= len,
            len == path@.len(),
            trimmed(path@) == trimmed(path@.take(end as int)),
            done ==> end > 0 && !is_separator(path@[end - 1]),
        decreases end + (if done { 0int } else { 1int }),
    {
        let c = path.get_char(end - 1);
        if c == '/' || c == '\\' {
            proof {
                let head = path@.take(end as int);
                assert(head.last() == c);
                assert(head.drop_last() =~= path@.take(end - 1));
            }
            end = end - 1;
        } else {
            done = true;
        }
    }
    proof {
        let head = path@.take(end as int);
        if done {
            assert(head.last() == path@[end - 1]);
        }
        assert(trimmed(head) == head);
        assert(path@.subrange(0, end as int) =~= head);
    }
    path.substring_char(0, end)
}

/// The managed directory of the overlay `name`.
pub fn managed_dir(name: &str) -> (dir: String)
    ensures
        dir@ == managed_prefix(name@),
{
    String::from_str(".\\mods\\").concat(name)
}

/// The directory that holds the preserved stock files.
pub fn archive_dir() -> (dir: String)
    ensures
        dir@ == archive_root(),
{
    String::from_str(".\\mods\\_game_file")
}

/// Maps a managed file of the overlay `name` to its place under the installation root.
pub fn target_path(path: &str, name: &str, root: &str) -> (out: Result<String, crate::error::ModError>)
    ensures
        out is Ok <==> mapped(path@, name@),
        out is Ok ==> out.unwrap()@ == target_of(path@, name@, root@),
        out is Err ==> out.unwrap_err() == crate::error::ModError::MappingError,
{
    let dir = managed_dir(name);
    if !lies_under(path, dir.as_str()) {
        return Err(crate::error::ModError::MappingError);
    }
    match replace_prefix(path, dir.as_str(), root) {
        Some(t) => Ok(t),
        None => Err(crate::error::ModError::MappingError),
    }
}

/// Maps a managed file of the overlay `name` to the place where the stock file it
/// overwrites is preserved.
pub fn archive_path(path: &str, name: &str) -> (out: Result<String, crate::error::ModError>)
    ensures
        out is Ok <==> mapped(path@, name@),
        out is Ok ==> out.unwrap()@ == archive_of(path@, name@),
        out is Err ==> out.unwrap_err() == crate::error::ModError::MappingError,
{
    let dir = managed_dir(name);
    let root = archive_dir();
    if !lies_under(path, dir.as_str()) {
        return Err(crate::error::ModError::MappingError);
    }
    match replace_prefix(path, dir.as_str(), root.as_str()) {
        Some(t) => Ok(t),
        None => Err(crate::error::ModError::MappingError),
    }
}

/// The name of the directory or file that `path` leads to: its last component,
/// separators at the end set aside. Empty where `path` has no component.
pub fn base_name(source: &str) -> (name: String)
    ensures
        name@ == base_name_of(source@),
        is_base_name(trimmed(source@), name@),
{
    let path = trim_separators(source);
    let len: usize = path.unicode_len();
    let mut start: usize = len;
    let mut found: bool = false;
    proof {
        assert(path@.take(len as int) =~= path@);
        assert(path@.subrange(len as int, len as int) =~= Seq::<char>::empty());
        assert(last_component(path@) + Seq::<char>::empty() =~= last_component(path@));
    }
    while start > 0 && !found
        invariant
            start <= len,
            len == path@.len(),
            forall|j: int| start <= j < len ==> !is_separator(#[trigger] path@[j]),
            found ==> start > 0 && is_separator(path@[start - 1]),
            last_component(path@) == last_component(path@.take(start as int)) + path@.subrange(
                start as int,
                len as int,
            ),
        decreases start + (if found { 0int } else { 1int }),
    {
        let c = path.get_char(start - 1);
        if c == '/' || c == '\\' {
            found = true;
        } else {
            proof {
                let head = path@.take(start as int);
                assert(head.last() == c);
                assert(head.drop_last() =~= path@.take(start - 1));
                assert(last_component(head.drop_last()).push(c) + path@.subrange(
                    start as int,
                    len as int,
                ) =~= last_component(head.drop_last()) + path@.subrange(start - 1, len as int));
            }
            start = start - 1;
        }
    }
    proof {
        let head = path@.take(start as int);
        if found {
            assert(head.last() == path@[start - 1]);
        }
        assert(last_component(head) =~= Seq::<char>::empty());
        assert(last_component(head) + path@.subrange(start as int, len as int) =~= path@.subrange(
            start as int,
            len as int,
        ));
        let tail = path@.subrange(start as int, len as int);
        assert(tail =~= path@.skip(path@.len() - tail.len()));
    }
    String::from_str(path.substring_char(start, len))
}

} // verus!
