//! Paths as texts.

use vstd::prelude::*;
use vstd::string::*;
use crate::cutting::{ends_with, starts_with};
use crate::text::{copy_text, text_of, to_chars};

verus! {

/// A path below a root, unless it is absolute.
pub open spec fn joined(root: Seq<char>, path: Seq<char>) -> Seq<char> {
    if (path.len() > 0 && path[0] == '/') || root.len() == 0 {
        path
    } else if root.last() == '/' {
        root + path
    } else {
        root + "/"@ + path
    }
}

pub fn join_path(root: &str, path: &str) -> (r: String)
    ensures
        r@ == joined(root@, path@),
{
    if starts_with(path, "/") || root.is_empty() {
        proof {
            reveal_strlit("/");
            if path@.len() >= 1 {
                assert(path@.take(1)[0] == path@[0]);
                assert("/"@[0] == '/');
            }
        }
        return copy_text(path);
    }
    proof {
        reveal_strlit("/");
        if path@.len() > 0 && path@[0] == '/' {
            assert(path@.take(1) =~= "/"@);
        }
    }
    let mut out: String = copy_text(root);
    if !ends_with(root, "/") {
        proof {
            if root@.last() == '/' {
                assert(root@.skip(root@.len() - 1) =~= "/"@);
            }
        }
        out.append("/");
    } else {
        proof {
            assert(root@.skip(root@.len() - 1)[0] == root@.last());
        }
    }
    out.append(path);
    out
}

/// Where the slashes in front of a text end.
pub open spec fn slashes_end(s: Seq<char>) -> nat
    decreases s.len(),
{
    if s.len() > 0 && s[0] == '/' {
        1 + slashes_end(s.drop_first())
    } else {
        0
    }
}

/// A text without the slashes in front of it.
pub open spec fn without_front_slashes(s: Seq<char>) -> Seq<char> {
    s.skip(slashes_end(s) as int)
}

pub fn trim_front_slashes(s: &str) -> (r: String)
    ensures
        r@ == without_front_slashes(s@),
{
    let chars: Vec<char> = to_chars(s);
    let mut i: usize = 0;
    assert(s@.skip(0) =~= s@);
    while i < chars.len() && chars[i] == '/'
        invariant
            chars@ == s@,
            i <= chars@.len(),
            slashes_end(s@) == i + slashes_end(s@.skip(i as int)),
        decreases chars@.len() - i,
    {
        assert(s@.skip(i as int).drop_first() =~= s@.skip(i + 1));
        i = i + 1;
    }
    assert(chars@.subrange(i as int, chars@.len() as int) =~= s@.skip(i as int));
    text_of(&chars, i, chars.len())
}

/// What paths are ordered by: piece by piece, so that a slash comes before every other character.
pub open spec fn path_key(s: Seq<char>) -> Seq<char> {
    Seq::new(
        s.len(),
        |i: int|
            if s[i] == '/' {
                '\0'
            } else {
                s[i]
            },
    )
}

/// A text in which the character zero does not occur, as in every path.
pub open spec fn path_like(s: Seq<char>) -> bool {
    forall|i: int| 0 <= i < s.len() ==> #[trigger] s[i] != '\0'
}

/// Paths that are ordered alike are the same.
pub proof fn lemma_path_key(a: Seq<char>, b: Seq<char>)
    requires
        path_like(a),
        path_like(b),
        path_key(a) == path_key(b),
    ensures
        a == b,
{
    assert(a.len() == path_key(a).len() && b.len() == path_key(b).len());
    assert forall|i: int| 0 <= i < a.len() implies a[i] == b[i] by {
        let x = a[i];
        let y = b[i];
        assert(x != '\0' && y != '\0');
        assert(path_key(a)[i] == if x == '/' {
            '\0'
        } else {
            x
        });
        assert(path_key(b)[i] == if y == '/' {
            '\0'
        } else {
            y
        });
    }
    assert(a =~= b);
}

pub fn path_key_text(s: &str) -> (r: String)
    ensures
        r@ == path_key(s@),
{
    let chars: Vec<char> = to_chars(s);
    let mut out: String = String::new();
    let mut i: usize = 0;
    while i < chars.len()
        invariant
            chars@ == s@,
            i <= chars@.len(),
            out@ == path_key(s@).take(i as int),
        decreases chars@.len() - i,
    {
        let c: char = chars[i];
        out.push(
            if c == '/' {
                '\0'
            } else {
                c
            },
        );
        assert(path_key(s@).take(i + 1) =~= path_key(s@).take(i as int).push(
            path_key(s@)[i as int],
        ));
        i = i + 1;
    }
    assert(path_key(s@).take(s@.len() as int) =~= path_key(s@));
    out
}

/// The texts of a list with semicolons between them.
pub fn path_list(paths: &Vec<String>) -> (r: String)
    ensures
        r@ == crate::cutting::join(crate::text::texts_view(paths@), ";"@),
{
    crate::cutting::join_texts(paths, ";")
}

/// A glob pattern with another root in front, where it starts with the one; else that root alone.
pub open spec fn rebased(glob: Seq<char>, root: Seq<char>, canonical_root: Seq<char>) -> Seq<char> {
    if glob.len() >= root.len() && glob.take(root.len() as int) == root {
        canonical_root + glob.skip(root.len() as int)
    } else {
        canonical_root
    }
}

pub fn rebase_glob(glob: &str, root: &str, canonical_root: &str) -> (r: String)
    ensures
        r@ == rebased(glob@, root@, canonical_root@),
{
    let mut out: String = copy_text(canonical_root);
    if starts_with(glob, root) {
        let chars: Vec<char> = to_chars(glob);
        let front: Vec<char> = to_chars(root);
        let rest: String = text_of(&chars, front.len(), chars.len());
        assert(rest@ =~= glob@.skip(root@.len() as int));
        out.append(rest.as_str());
    }
    out
}

} // verus!
