//! Paths, as far as every platform takes them apart in the same way.

use vstd::prelude::*;
use crate::text::joined_text;

verus! {

/// A path that means the same everywhere: only slashes set its parts apart, and it names neither a
/// drive nor a host.
pub open spec fn portable(path: Seq<char>) -> bool {
    &&& !path.contains('\\')
    &&& !path.contains(':')
    &&& !(path.len() >= 2 && path[0] == '/' && path[1] == '/')
}

/// Where a path starts.
pub enum Lead {
    /// Where one is, without saying so.
    Nothing,
    /// Where one is: the path begins with a part that is a dot.
    Here,
    Root,
}

pub open spec fn lead_of(path: Seq<char>) -> Lead {
    if path.len() > 0 && path[0] == '/' {
        Lead::Root
    } else if path == "."@ || (path.len() >= 2 && path[0] == '.' && path[1] == '/') {
        Lead::Here
    } else {
        Lead::Nothing
    }
}

/// The number of characters up to the last slash, that slash included.
pub open spec fn up_to_last_slash(path: Seq<char>) -> nat
    decreases path.len(),
{
    if path.len() == 0 {
        0
    } else if path.last() == '/' {
        path.len()
    } else {
        up_to_last_slash(path.drop_last())
    }
}

/// The parts of a path from its lead on: what its slashes set apart. Repeated slashes are as one, a
/// slash at the end is as none, and a part that is a dot does not count.
pub open spec fn parts_of(path: Seq<char>) -> Seq<Seq<char>>
    decreases path.len(),
{
    let n = up_to_last_slash(path) as int;
    if 0 < n <= path.len() {
        with_part(parts_of(path.take(n - 1)), path.skip(n))
    } else {
        with_part(Seq::empty(), path)
    }
}

pub open spec fn with_part(parts: Seq<Seq<char>>, part: Seq<char>) -> Seq<Seq<char>> {
    if part.len() == 0 || part == "."@ {
        parts
    } else {
        parts.push(part)
    }
}

/// What lies under a name in a directory.
pub open spec fn under(dir: Seq<char>, name: Seq<char>) -> Seq<char> {
    if dir.len() == 0 {
        name
    } else if dir.last() == '/' {
        dir + name
    } else {
        dir + "/"@ + name
    }
}

/// A name that can be a part of a portable path.
pub open spec fn plain_name(name: Seq<char>) -> bool {
    &&& name.len() > 0
    &&& name != "."@
    &&& !name.contains('/')
    &&& !name.contains('\\')
    &&& !name.contains(':')
}

pub open spec fn plain_parts(parts: Seq<Seq<char>>) -> bool {
    forall|i: int| 0 <= i < parts.len() ==> plain_name(#[trigger] parts[i])
}

/// A directory whose parts are set apart by single slashes.
pub open spec fn plain_dir(lead: Lead, parts: Seq<Seq<char>>) -> Seq<char> {
    match lead {
        Lead::Nothing => joined_text(parts, "/"@),
        Lead::Here => if parts.len() == 0 {
            "."@
        } else {
            "./"@ + joined_text(parts, "/"@)
        },
        Lead::Root => "/"@ + joined_text(parts, "/"@),
    }
}

/// A path whose parts are set apart by single slashes.
pub open spec fn plain_path(lead: Lead, parts: Seq<Seq<char>>, name: Seq<char>) -> Seq<char> {
    under(plain_dir(lead, parts), name)
}

/// The directory of a path whose parts are set apart by single slashes is what stands before its
/// name.
pub open spec fn plain_path_has_its_dir(path: Seq<char>, dir: Option<Seq<char>>) -> bool {
    forall|lead: Lead, parts: Seq<Seq<char>>, name: Seq<char>|
        plain_parts(parts) && plain_name(name) && path == #[trigger] plain_path(lead, parts, name) ==> dir == Some(
            plain_dir(lead, parts),
        )
}

/// What is left of a path is its beginning.
pub open spec fn proper_beginning(dir: Seq<char>, path: Seq<char>) -> bool {
    dir.len() < path.len() && path.take(dir.len() as int) == dir
}

/// The path without its last part; a lone dot is a part here, and the root has nothing before it.
pub open spec fn is_parent(path: Seq<char>, dir: Option<Seq<char>>) -> bool {
    if parts_of(path).len() > 0 {
        dir is Some && lead_of(dir->0) == lead_of(path) && parts_of(dir->0) == parts_of(path).drop_last()
    } else if lead_of(path) is Here {
        dir is Some && dir->0.len() == 0
    } else {
        dir is None
    }
}

/// `Path::parent`, as text: the path without its last part. It is shorter than the path, which it
/// begins; the empty path has none; a portable path has the parts before its last one; and where
/// single slashes set these apart it has the text before the name. How a path that is not portable
/// is taken apart depends on the platform, and is not stated here.
#[verifier::external_body]
pub(crate) fn path_parent(path: &str) -> (r: Option<String>)
    ensures
        path@.len() == 0 ==> r is None,
        plain_name(path@) ==> r is Some && r->0@.len() == 0,
        r is Some ==> proper_beginning(r->0@, path@),
        portable(path@) ==> is_parent(path@, r.deep_view()),
        plain_path_has_its_dir(path@, r.deep_view()),
{
    std::path::Path::new(path).parent().map(|dir| dir.display().to_string())
}

/// The last part of a path, unless it leads upwards.
pub open spec fn name_in(path: Seq<char>) -> Option<Seq<char>> {
    if parts_of(path).len() == 0 || parts_of(path).last() == ".."@ {
        None
    } else {
        Some(parts_of(path).last())
    }
}

/// `Path::file_name`, as text: the last part of the path, where it is a name. How a path that is not
/// portable is taken apart depends on the platform, and is not stated here.
#[verifier::external_body]
pub(crate) fn path_file_name(path: &str) -> (r: Option<String>)
    ensures
        path@.len() == 0 ==> r is None,
        portable(path@) ==> r.deep_view() == name_in(path@),
{
    std::path::Path::new(path).file_name().and_then(|name| name.to_str()).map(|name| name.to_owned())
}

/// `sub` seen from `base`: a path from the root is itself, any other one lies under the base. The
/// separator that is put between is that of the platform.
pub open spec fn is_joined(base: Seq<char>, sub: Seq<char>, r: Seq<char>) -> bool {
    if lead_of(sub) is Root || base.len() == 0 {
        r == sub
    } else if base.last() == '/' {
        r == base + sub
    } else {
        r == base + "/"@ + sub || r == base + "\\"@ + sub
    }
}

/// `Path::join`, as text: `sub` seen from `base`. How it comes out where either is not portable
/// depends on the platform, and is not stated here.
#[verifier::external_body]
pub(crate) fn path_join(base: &str, sub: &str) -> (r: String)
    ensures
        portable(base@) && portable(sub@) ==> is_joined(base@, sub@, r@),
{
    std::path::Path::new(base).join(sub).display().to_string()
}

/// The directory of a path, given that found in the path where it has one.
pub fn directory(parent: Option<String>) -> (r: String)
    ensures
        r@ == (match parent {
            Some(dir) => dir@,
            None => "."@,
        }),
{
    match parent {
        Some(dir) => dir,
        None => ".".to_owned(),
    }
}

/// The parts of the directory of a path are those before its last one. The root and the empty path
/// have no directory, for which a dot stands; the directory of a dot is empty.
pub open spec fn has_the_parts_before(dir: Seq<char>, path: Seq<char>) -> bool {
    if parts_of(path).len() > 0 {
        lead_of(dir) == lead_of(path) && parts_of(dir) == parts_of(path).drop_last()
    } else if lead_of(path) is Here {
        dir.len() == 0
    } else {
        dir == "."@
    }
}

/// What is known of the directory of a path.
pub open spec fn is_directory_of(dir: Seq<char>, path: Seq<char>) -> bool {
    &&& path.len() == 0 ==> dir == "."@
    &&& plain_name(path) ==> dir.len() == 0
    &&& proper_beginning(dir, path) || dir == "."@
    &&& portable(path) ==> has_the_parts_before(dir, path)
    &&& plain_path_has_its_dir(path, Some(dir))
}

/// The directory a file lies in; that where one is for the empty path.
pub fn directory_of(path: &str) -> (r: String)
    ensures
        is_directory_of(r@, path@),
{
    let parent = path_parent(path);
    let ghost found = parent.deep_view();
    let r = directory(parent);
    proof {
        assert forall|lead: Lead, parts: Seq<Seq<char>>, name: Seq<char>|
            plain_parts(parts) && plain_name(name) && path@ == #[trigger] plain_path(
                lead,
                parts,
                name,
            ) implies r@ == plain_dir(lead, parts) by {
            assert(found == Some(plain_dir(lead, parts)));
        }
    }
    r
}

/// The directory of a path and the name of its file lead back to the path: they have its lead and
/// its parts.
pub proof fn a_directory_and_a_name_lead_back(path: Seq<char>, dir: Seq<char>, name: Seq<char>)
    requires
        portable(path),
        is_directory_of(dir, path),
        name_in(path) == Some(name),
    ensures
        lead_of(under(dir, name)) == lead_of(path),
        parts_of(under(dir, name)) == parts_of(path),
{
    lemma_parts_are_names(path);
    lemma_parts_under(dir, name);
    let parts = parts_of(path);
    assert(parts.drop_last().push(parts.last()) =~= parts);
}

/// A path whose parts are set apart by single slashes has these parts, its directory is what stands
/// before its name, and the two give it back.
pub proof fn a_plain_path_is_its_directory_and_name(lead: Lead, parts: Seq<Seq<char>>, name: Seq<char>)
    requires
        plain_parts(parts),
        plain_name(name),
    ensures
        lead_of(plain_dir(lead, parts)) == lead,
        parts_of(plain_dir(lead, parts)) == parts,
        lead_of(plain_path(lead, parts, name)) == lead,
        parts_of(plain_path(lead, parts, name)) == parts.push(name),
{
    lemma_plain_dir(lead, parts);
    lemma_parts_under(plain_dir(lead, parts), name);
}

/// The text up to the last slash has none behind it.
proof fn lemma_last_slash(path: Seq<char>)
    ensures
        up_to_last_slash(path) <= path.len(),
        up_to_last_slash(path) > 0 ==> path[up_to_last_slash(path) - 1] == '/',
        forall|i: int| up_to_last_slash(path) <= i < path.len() ==> path[i] != '/',
    decreases path.len(),
{
    if path.len() > 0 && path.last() != '/' {
        let rest = path.drop_last();
        lemma_last_slash(rest);
        assert forall|i: int| up_to_last_slash(path) <= i < path.len() implies path[i] != '/' by {
            if i < rest.len() {
                assert(path[i] == rest[i]);
            }
        }
    }
}

/// The last slash of a text is found behind a beginning that ends with it.
proof fn lemma_slash_then(front: Seq<char>, name: Seq<char>)
    requires
        !name.contains('/'),
        front.len() == 0 || front.last() == '/',
    ensures
        up_to_last_slash(front + name) == front.len(),
{
    let path = front + name;
    lemma_last_slash(path);
    let n = up_to_last_slash(path) as int;
    if n > front.len() {
        assert(name.contains(name[n - 1 - front.len()]));
    }
    if n < front.len() {
        assert(path[front.len() - 1] == '/');
    }
}

/// Every part of a path is a name, without slashes.
proof fn lemma_parts_are_names(path: Seq<char>)
    ensures
        forall|i: int|
            0 <= i < parts_of(path).len() ==> (#[trigger] parts_of(path)[i]).len() > 0 && parts_of(path)[i] != "."@
                && !parts_of(path)[i].contains('/'),
    decreases path.len(),
{
    lemma_last_slash(path);
    let n = up_to_last_slash(path) as int;
    let part = if 0 < n {
        path.skip(n)
    } else {
        path
    };
    assert(!part.contains('/')) by {
        if part.contains('/') {
            let i = choose|i: int| 0 <= i < part.len() && part[i] == '/';
            assert(path[n + i] == '/');
        }
    }
    let before = if 0 < n {
        parts_of(path.take(n - 1))
    } else {
        Seq::empty()
    };
    if 0 < n {
        lemma_parts_are_names(path.take(n - 1));
    }
    assert(parts_of(path) == with_part(before, part));
    assert forall|i: int| 0 <= i < parts_of(path).len() implies (#[trigger] parts_of(path)[i]).len() > 0
        && parts_of(path)[i] != "."@ && !parts_of(path)[i].contains('/') by {
        if i < before.len() {
            assert(parts_of(path)[i] == before[i]);
        }
    }
}

/// A name under a directory is one more part of it.
proof fn lemma_parts_under(dir: Seq<char>, name: Seq<char>)
    requires
        name.len() > 0,
        name != "."@,
        !name.contains('/'),
    ensures
        parts_of(under(dir, name)) == parts_of(dir).push(name),
        lead_of(under(dir, name)) == lead_of(dir),
{
    reveal_strlit("/");
    reveal_strlit(".");
    let path = under(dir, name);
    if name[0] == '/' {
        assert(name.contains(name[0]));
    }
    if dir.len() == 0 {
        lemma_slash_then(dir, name);
        assert(dir + name =~= name);
        assert(name.len() >= 2 && name[1] == '/' ==> name.contains(name[1]));
        assert(parts_of(dir) =~= Seq::empty());
        assert(parts_of(path) =~= parts_of(dir).push(name));
        assert(dir != "."@);
    } else if dir.last() == '/' {
        lemma_slash_then(dir, name);
        assert(path.take(dir.len() - 1) =~= dir.take(dir.len() - 1));
        assert(path.skip(dir.len() as int) =~= name);
        assert(dir.skip(dir.len() as int) =~= Seq::empty());
        assert(path[0] == dir[0]);
        if dir.len() >= 2 {
            assert(path[1] == dir[1]);
        }
        assert(dir != "."@ && path != "."@);
    } else {
        let front = dir + "/"@;
        lemma_slash_then(front, name);
        assert(path =~= front + name);
        assert(path.take(front.len() - 1) =~= dir);
        assert(path.skip(front.len() as int) =~= name);
        assert(path[0] == dir[0]);
        if dir.len() >= 2 {
            assert(path[1] == dir[1]);
            assert(dir != "."@);
        } else {
            assert(path[1] == '/');
            if dir[0] == '.' {
                assert(dir =~= "."@);
            }
        }
        assert(path.len() >= 2);
        assert(path != "."@);
    }
}

/// Joined parts are not empty and end with the last one.
proof fn lemma_joined_names(parts: Seq<Seq<char>>)
    requires
        plain_parts(parts),
        parts.len() > 0,
    ensures
        joined_text(parts, "/"@).len() > 0,
        joined_text(parts, "/"@).last() != '/',
        joined_text(parts, "/"@).last() == parts.last().last(),
    decreases parts.len(),
{
    let last = parts[parts.len() - 1];
    assert(plain_name(last));
    assert(last.contains(last.last()));
}

proof fn lemma_plain_dir(lead: Lead, parts: Seq<Seq<char>>)
    requires
        plain_parts(parts),
    ensures
        lead_of(plain_dir(lead, parts)) == lead,
        parts_of(plain_dir(lead, parts)) == parts,
    decreases parts.len(),
{
    reveal_strlit("/");
    reveal_strlit(".");
    reveal_strlit("./");
    let dir = plain_dir(lead, parts);
    if parts.len() == 0 {
        let joined = joined_text(parts, "/"@);
        assert(joined =~= Seq::<char>::empty());
        match lead {
            Lead::Nothing => {
                assert(dir =~= Seq::<char>::empty());
                assert(dir != "."@);
            },
            Lead::Here => {
                assert(dir.drop_last() =~= Seq::<char>::empty());
                assert(up_to_last_slash(dir.drop_last()) == 0);
                assert(up_to_last_slash(dir) == 0);
            },
            Lead::Root => {
                assert(dir =~= "/"@);
                assert(up_to_last_slash(dir) == 1);
                let front = dir.take(0);
                assert(front =~= Seq::<char>::empty());
                assert(up_to_last_slash(front) == 0);
                assert(parts_of(front) =~= Seq::<Seq<char>>::empty());
                assert(dir.skip(1) =~= Seq::<char>::empty());
            },
        }
        assert(parts_of(dir) =~= parts);
    } else {
        let init = parts.drop_last();
        let last = parts[parts.len() - 1];
        assert(plain_name(last));
        assert forall|i: int| 0 <= i < init.len() implies plain_name(#[trigger] init[i]) by {
            assert(init[i] == parts[i]);
        }
        lemma_plain_dir(lead, init);
        let front = plain_dir(lead, init);
        if init.len() > 0 {
            lemma_joined_names(init);
        }
        assert(dir =~= under(front, last)) by {
            if init.len() == 0 {
                assert(joined_text(init, "/"@) =~= Seq::<char>::empty());
                assert(joined_text(parts, "/"@) =~= last);
            } else {
                assert(joined_text(parts, "/"@) =~= joined_text(init, "/"@) + "/"@ + last);
                assert(front.last() == joined_text(init, "/"@).last());
            }
        }
        lemma_parts_under(front, last);
        assert(init.push(last) =~= parts);
    }
}

} // verus!
