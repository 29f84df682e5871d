//! What names and directories are, said of joined paths.

use vstd::prelude::*;

use crate::paths::directory_name;
use crate::paths::final_name;
use crate::paths::joined;
use crate::paths::parent_path;
use crate::paths::sibling_path;
use crate::paths::stripped;
use crate::paths::tail_start;

verus! {

/// A name within a path: not empty, without a slash, and not one or two dots.
pub open spec fn is_name(name: Seq<u8>) -> bool {
    &&& name.len() > 0
    &&& forall|i: int| 0 <= i < name.len() ==> #[trigger] name[i] != 47
    &&& name != seq![46u8]
    &&& name != seq![46u8, 46u8]
}

proof fn lemma_tail(front: Seq<u8>, name: Seq<u8>)
    requires
        front.len() == 0 || front.last() == 47,
        forall|i: int| 0 <= i < name.len() ==> #[trigger] name[i] != 47,
    ensures
        tail_start(front + name) == front.len(),
    decreases name.len(),
{
    if name.len() == 0 {
        assert(front + name =~= front);
    } else {
        let shorter = name.drop_last();
        assert forall|i: int| 0 <= i < shorter.len() implies #[trigger] shorter[i] != 47 by {
            assert(shorter[i] == name[i]);
        }
        lemma_tail(front, shorter);
        assert((front + name).last() == name[name.len() - 1]);
        assert((front + name).drop_last() =~= front + shorter);
    }
}

/// Slashes and single dots at the end of a path do not matter for its final name, nor for its
/// directory.
pub proof fn law_path_ends(path: Seq<u8>)
    ensures
        final_name(path.push(47)) == final_name(path),
        final_name(path + seq![47u8, 46u8]) == final_name(path),
        path.len() > 0 ==> directory_name(path.push(47)) == directory_name(path),
        path.len() > 0 ==> directory_name(path + seq![47u8, 46u8]) == directory_name(path),
{
    let none = Seq::<u8>::empty();
    let dot = seq![46u8];
    let slashed = path.push(47);
    lemma_tail(slashed, none);
    assert(slashed + none =~= slashed);
    assert(slashed.skip(slashed.len() as int) =~= none);
    assert(slashed.take(slashed.len() - 1) =~= path);
    assert(slashed.drop_last() =~= path);
    let dotted = path + seq![47u8, 46u8];
    assert(dotted =~= slashed + dot);
    lemma_tail(slashed, dot);
    assert(dotted.skip(slashed.len() as int) =~= dot);
    assert(dotted.take(slashed.len() - 1) =~= path);
    assert(dotted.take(slashed.len() as int) =~= slashed);
    assert(dotted.last() == 46);
    if path.len() > 0 {
        assert(stripped(slashed) == stripped(path));
        assert(stripped(dotted) == stripped(slashed));
    }
}

/// The name behind the last slash is the final name, and a path that is one name is that name;
/// behind two dots there is none.
pub proof fn law_final_names(directory: Seq<u8>, name: Seq<u8>)
    requires
        is_name(name),
    ensures
        final_name(name) == Some(name),
        final_name(directory.push(47) + name) == Some(name),
        final_name(directory.push(47) + seq![46u8, 46u8]) is None,
        final_name(seq![46u8, 46u8]) is None,
        final_name(seq![46u8]) is None,
        final_name(seq![47u8]) is None,
        final_name(Seq::empty()) is None,
{
    let none = Seq::<u8>::empty();
    let front = directory.push(47);
    let path = front + name;
    lemma_tail(none, name);
    assert(none + name =~= name);
    assert(name.skip(0) =~= name);
    lemma_tail(front, name);
    assert(path.skip(front.len() as int) =~= name);
    let dot = seq![46u8];
    let up = seq![46u8, 46u8];
    lemma_tail(front, up);
    assert((front + up).skip(front.len() as int) =~= up);
    assert(up != dot) by {
        assert(up.len() == 2 && dot.len() == 1);
    }
    lemma_tail(none, up);
    assert(none + up =~= up && up.skip(0) =~= up);
    lemma_tail(none, dot);
    assert(none + dot =~= dot && dot.skip(0) =~= dot);
    assert(tail_start(none) == 0 && none.skip(0) =~= none);
    assert(final_name(none) is None);
    let root = seq![47u8];
    assert(tail_start(root) == 1);
    assert(root.skip(1) =~= none && root.take(0) =~= none);
}

/// The directory of a path is what stands before its final name; that of a lone name is the
/// current one, and that of a name in the root is the root. A sibling stands in the same
/// directory.
pub proof fn law_directories(directory: Seq<u8>, name: Seq<u8>, other: Seq<u8>)
    requires
        is_name(name),
        is_name(other),
        is_name(directory) || (exists|front: Seq<u8>, last: Seq<u8>|
            is_name(last) && #[trigger] (front.push(47) + last) == directory),
    ensures
        directory_name(directory.push(47) + name) == directory,
        sibling_path(directory.push(47) + name, other) == directory.push(47) + other,
        directory_name(name) == seq![46u8],
        sibling_path(name, other) == other,
        directory_name(seq![47u8] + name) == seq![47u8],
        sibling_path(seq![47u8] + name, other) == seq![47u8] + other,
        joined(directory, other) == directory.push(47) + other,
{
    let none = Seq::<u8>::empty();
    let root = seq![47u8];
    let path = directory.push(47) + name;
    assert(other[0] != 47);
    law_final_names(directory, name);
    // Within a directory.
    lemma_name_ends(directory.push(47), name);
    assert(path.take(directory.len() as int + 1) =~= directory.push(47));
    assert(directory.push(47).drop_last() =~= directory);
    if is_name(directory) {
        lemma_name_ends(none, directory);
        assert(none + directory =~= directory);
    } else {
        let (front, last) = choose|front: Seq<u8>, last: Seq<u8>|
            is_name(last) && #[trigger] (front.push(47) + last) == directory;
        lemma_name_ends(front.push(47), last);
    }
    assert(stripped(directory) == directory);
    assert(stripped(directory.push(47)) == directory);
    assert(path.len() > 1);
    assert(path != root);
    assert(parent_path(path) == directory);
    assert(directory.len() > 0 && directory.last() != 47);
    // Alone.
    lemma_name_ends(none, name);
    assert(none + name =~= name);
    assert(name != root) by {
        assert(name[0] != 47);
    }
    assert(name.take(0) =~= none);
    assert(stripped(none) == none);
    assert(none + other =~= other);
    // In the root.
    lemma_name_ends(root, name);
    assert(root =~= none.push(47));
    law_final_names(none, name);
    assert((root + name).take(1) =~= root);
    assert(stripped(root) == root) by {
        assert(tail_start(root) == 1);
    }
    assert((root + name).len() > 1);
    assert(root + name != root);
}

/// A slash stands between a path and a name behind it, unless the path ends with one or is empty;
/// a name that begins with a slash stands for itself.
pub proof fn law_joined_paths(path: Seq<u8>, name: Seq<u8>)
    ensures
        name.len() > 0 && name[0] == 47 ==> joined(path, name) == name,
        (name.len() == 0 || name[0] != 47) ==> {
            &&& joined(Seq::empty(), name) == name
            &&& joined(path.push(47), name) == path.push(47) + name
            &&& path.len() > 0 && path.last() != 47 ==> joined(path, name) == path.push(47) + name
        },
{
    assert(Seq::<u8>::empty() + name =~= name);
}

/// A path that ends with a name is not stripped.
proof fn lemma_name_ends(front: Seq<u8>, name: Seq<u8>)
    requires
        front.len() == 0 || front.last() == 47,
        is_name(name),
    ensures
        stripped(front + name) == front + name,
        tail_start(front + name) == front.len(),
        (front + name).last() != 47,
{
    lemma_tail(front, name);
    assert((front + name).skip(front.len() as int) =~= name);
    assert((front + name).last() == name[name.len() - 1]);
}

} // verus!
