//! Names and directories within paths, as bytes.

use vstd::prelude::*;
use vstd::utf8::*;

verus! {

/// The byte between the names of a path.
pub const SLASH: u8 = 47;

/// The byte of a name that stands for the directory itself.
pub const DOT: u8 = 46;

/// Where the text behind the last slash begins.
pub open spec fn tail_start(path: Seq<u8>) -> nat
    decreases path.len(),
{
    if path.len() == 0 {
        0
    } else if path.last() == SLASH {
        path.len()
    } else {
        tail_start(path.drop_last())
    }
}

pub proof fn lemma_tail_start(path: Seq<u8>)
    ensures
        tail_start(path) <= path.len(),
    decreases path.len(),
{
    if path.len() > 0 && path.last() != SLASH {
        lemma_tail_start(path.drop_last());
    }
}

/// The name that a path ends with. Slashes at the end and names that are one dot do not count; a
/// path that ends with two dots, or has no name, has no final name.
pub open spec fn final_name(path: Seq<u8>) -> Option<Seq<u8>>
    decreases path.len(),
{
    let start = tail_start(path) as int;
    let tail = path.skip(start);
    if tail.len() > 0 && tail != seq![DOT] {
        if tail == seq![DOT, DOT] {
            None
        } else {
            Some(tail)
        }
    } else if start == 0 {
        None
    } else {
        proof {
            lemma_tail_start(path);
        }
        final_name(path.take(start - 1))
    }
}

/// The name that a path ends with.
pub fn file_name(path: &Vec<u8>) -> (name: Option<Vec<u8>>)
    ensures
        match name {
            Some(bytes) => final_name(path@) == Some(bytes@),
            None => final_name(path@) is None,
        },
{
    let mut end: usize = path.len();
    assert(path@.take(end as int) =~= path@);
    loop
        invariant
            end <= path.len(),
            final_name(path@.take(end as int)) == final_name(path@),
        decreases end,
    {
        let ghost front = path@.take(end as int);
        let start: usize = tail_before(path, end);
        assert(path@.subrange(start as int, end as int) =~= front.skip(start as int));
        let ghost tail = front.skip(start as int);
        let length: usize = end - start;
        let lone_dot: bool = length == 1 && path[start] == DOT;
        proof {
            assert(length == 1 ==> tail[0] == path@[start as int]);
            assert(lone_dot == (tail =~= seq![DOT]));
        }
        if length > 0 && !lone_dot {
            let two_dots: bool = length == 2 && path[start] == DOT && path[start + 1] == DOT;
            proof {
                assert(length == 2 ==> tail[0] == path@[start as int] && tail[1] == path@[start
                    + 1]);
                assert(two_dots == (tail =~= seq![DOT, DOT]));
            }
            if two_dots {
                return None;
            }
            let mut name: Vec<u8> = Vec::new();
            let mut i: usize = start;
            while i < end
                invariant
                    start <= i <= end <= path.len(),
                    name@ == path@.subrange(start as int, i as int),
                decreases end - i,
            {
                name.push(path[i]);
                i = i + 1;
                assert(path@.subrange(start as int, i as int) =~= path@.subrange(
                    start as int,
                    i - 1,
                ).push(path@[i - 1]));
            }
            return Some(name);
        }
        if start == 0 {
            return None;
        }
        assert(front.take(start - 1) =~= path@.take(start - 1));
        end = start - 1;
    }
}

/// A path without the slashes and the names of one dot at its end. The root and a dot at the front
/// stay.
pub open spec fn stripped(path: Seq<u8>) -> Seq<u8>
    decreases path.len(),
{
    let start = tail_start(path) as int;
    if path.len() > 1 && path.last() == SLASH {
        stripped(path.drop_last())
    } else if 0 < start < path.len() && path.skip(start) == seq![DOT] {
        stripped(path.take(start))
    } else {
        path
    }
}

/// The path before the last name, where that name may also be dots; empty where there is no such
/// path.
pub open spec fn parent_path(path: Seq<u8>) -> Seq<u8> {
    let whole = stripped(path);
    if whole == seq![SLASH] {
        Seq::empty()
    } else {
        stripped(whole.take(tail_start(whole) as int))
    }
}

/// The directory that holds what a path names; the current one where the path has no other.
pub open spec fn directory_name(path: Seq<u8>) -> Seq<u8> {
    if parent_path(path).len() == 0 {
        seq![DOT]
    } else {
        parent_path(path)
    }
}

/// A name behind a path. A name that begins with a slash stands for itself.
pub open spec fn joined(path: Seq<u8>, name: Seq<u8>) -> Seq<u8> {
    if name.len() > 0 && name[0] == SLASH {
        name
    } else if path.len() > 0 && path.last() != SLASH {
        path.push(SLASH) + name
    } else {
        path + name
    }
}

/// A path with another name in the place of its final one, or behind it where it has none.
pub open spec fn sibling_path(path: Seq<u8>, name: Seq<u8>) -> Seq<u8> {
    if final_name(path) is Some {
        joined(parent_path(path), name)
    } else {
        joined(path, name)
    }
}

/// Where the text behind the last slash before `end` begins.
fn tail_before(path: &Vec<u8>, end: usize) -> (start: usize)
    requires
        end <= path.len(),
    ensures
        start <= end,
        start == tail_start(path@.take(end as int)),
{
    let ghost front = path@.take(end as int);
    let mut start: usize = end;
    assert(front.take(start as int) =~= front);
    while start > 0 && path[start - 1] != SLASH
        invariant
            start <= end <= path.len(),
            front == path@.take(end as int),
            tail_start(front.take(start as int)) == tail_start(front),
        decreases start,
    {
        assert(front.take(start as int).drop_last() =~= front.take(start - 1));
        start = start - 1;
    }
    start
}

/// Where the front of a path ends once it is stripped.
fn stripped_end(path: &Vec<u8>, from: usize) -> (end: usize)
    requires
        from <= path.len(),
    ensures
        end <= from,
        path@.take(end as int) == stripped(path@.take(from as int)),
{
    let mut end: usize = from;
    loop
        invariant
            end <= from <= path.len(),
            stripped(path@.take(end as int)) == stripped(path@.take(from as int)),
        decreases end,
    {
        let ghost front = path@.take(end as int);
        if end > 1 && path[end - 1] == SLASH {
            assert(front.drop_last() =~= path@.take(end - 1));
            end = end - 1;
        } else {
            let start: usize = tail_before(path, end);
            let ghost tail = front.skip(start as int);
            let lone_dot: bool = 0 < start && end - start == 1 && path[start] == DOT;
            proof {
                assert(tail.len() == end - start);
                assert(tail.len() == 1 ==> tail[0] == path@[start as int]);
                assert(lone_dot == (0 < start < end && tail =~= seq![DOT]));
                assert(front.take(start as int) =~= path@.take(start as int));
            }
            if !lone_dot {
                return end;
            }
            end = start;
        }
    }
}

/// The first bytes of a path.
fn front_of(path: &Vec<u8>, end: usize) -> (front: Vec<u8>)
    requires
        end <= path.len(),
    ensures
        front@ == path@.take(end as int),
{
    let mut front: Vec<u8> = Vec::new();
    let mut i: usize = 0;
    while i < end
        invariant
            i <= end <= path.len(),
            front@ == path@.take(i as int),
        decreases end - i,
    {
        front.push(path[i]);
        i = i + 1;
        assert(path@.take(i as int) =~= path@.take(i - 1).push(path@[i - 1]));
    }
    front
}

/// The path before the last name.
fn parent_of(path: &Vec<u8>) -> (parent: Vec<u8>)
    ensures
        parent@ == parent_path(path@),
{
    assert(path@.take(path.len() as int) =~= path@);
    let end: usize = stripped_end(path, path.len());
    let ghost whole = path@.take(end as int);
    let is_root: bool = end == 1 && path[0] == SLASH;
    proof {
        assert(end == 1 ==> whole[0] == path@[0]);
        assert(is_root == (whole =~= seq![SLASH]));
    }
    if is_root {
        return Vec::new();
    }
    let start: usize = tail_before(path, end);
    assert(whole.take(start as int) =~= path@.take(start as int));
    let last: usize = stripped_end(path, start);
    front_of(path, last)
}

/// The directory that holds what a path names.
pub fn directory_of(path: &Vec<u8>) -> (directory: Vec<u8>)
    ensures
        directory@ == directory_name(path@),
{
    let mut directory: Vec<u8> = parent_of(path);
    if directory.len() == 0 {
        directory.push(DOT);
        assert(directory@ =~= seq![DOT]);
    }
    directory
}

/// A name behind a path.
pub fn join_path(path: &Vec<u8>, name: &Vec<u8>) -> (whole: Vec<u8>)
    ensures
        whole@ == joined(path@, name@),
{
    if name.len() > 0 && name[0] == SLASH {
        assert(name@.take(name.len() as int) =~= name@);
        return front_of(name, name.len());
    }
    let mut whole: Vec<u8> = front_of(path, path.len());
    assert(whole@ =~= path@);
    if path.len() > 0 && path[path.len() - 1] != SLASH {
        whole.push(SLASH);
    }
    let ghost front = whole@;
    let mut i: usize = 0;
    assert(front + name@.take(0) =~= front);
    while i < name.len()
        invariant
            i <= name.len(),
            whole@ == front + name@.take(i as int),
        decreases name.len() - i,
    {
        whole.push(name[i]);
        i = i + 1;
        assert(front + name@.take(i as int) =~= (front + name@.take(i - 1)).push(name@[i - 1]));
    }
    assert(name@.take(i as int) =~= name@);
    whole
}

/// A path with another name in the place of its final one.
pub fn sibling_of(path: &Vec<u8>, name: &str) -> (sibling: Vec<u8>)
    ensures
        sibling@ == sibling_path(path@, encode_utf8(name@)),
{
    let bytes: Vec<u8> = name.as_bytes_vec();
    if file_name(path).is_some() {
        join_path(&parent_of(path), &bytes)
    } else {
        join_path(path, &bytes)
    }
}

} // verus!
