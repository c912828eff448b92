use vstd::prelude::*;
use vstd::string::StringSliceAdditionalSpecFns;

use crate::error::Error;
use crate::strings::{contains_seq, str_contains, str_eq, string_push, push_str};

verus! {

/// Joins path components with `/` separators.
pub open spec fn join_slash(parts: Seq<Seq<char>>) -> Seq<char>
    decreases parts.len(),
{
    if parts.len() == 0 {
        Seq::<char>::empty()
    } else if parts.len() == 1 {
        parts[0]
    } else {
        join_slash(parts.drop_last()) + seq!['/'] + parts.last()
    }
}

/// Whether a sequence of components is a valid split: none holds a separator.
pub open spec fn separator_free(parts: Seq<Seq<char>>) -> bool {
    forall|i: int| 0 <= i < parts.len() ==> !parts[i].contains('/')
}

/// The components of a path between `/` separators, in order. An empty
/// path has one empty component; each separator ends a component.
pub open spec fn split_of(s: Seq<char>) -> Seq<Seq<char>>
    decreases s.len(),
{
    if s.len() == 0 {
        seq![Seq::<char>::empty()]
    } else if s.last() == '/' {
        split_of(s.drop_last()).push(Seq::<char>::empty())
    } else {
        let p = split_of(s.drop_last());
        p.update(p.len() - 1, p.last().push(s.last()))
    }
}

/// Splits a path on `/`.
pub fn split_slash(s: &str) -> (r: Vec<String>)
    ensures
        r.deep_view() == split_of(s@),
{
    let n: usize = s.unicode_len();
    let mut parts: Vec<String> = Vec::new();
    let mut cur: String = String::new();
    let mut i: usize = 0;
    while i < n
        invariant
            n == s@.len(),
            0 <= i <= n,
            parts.deep_view().push(cur@) == split_of(s@.subrange(0, i as int)),
        decreases n - i,
    {
        let ghost oldparts = parts.deep_view();
        let ghost oldcur = cur@;
        let c = s.get_char(i);
        proof {
            assert(s@.subrange(0, i + 1).drop_last() =~= s@.subrange(0, i as int));
            assert(s@.subrange(0, i + 1).last() == s@[i as int]);
        }
        if c == '/' {
            parts.push(cur);
            cur = String::new();
            proof {
                assert(parts.deep_view() =~= oldparts.push(oldcur));
                assert(parts.deep_view().push(cur@) =~= split_of(s@.subrange(0, i as int)).push(
                    Seq::<char>::empty(),
                ));
            }
        } else {
            string_push(&mut cur, c);
            proof {
                let p = split_of(s@.subrange(0, i as int));
                assert(parts.deep_view().push(cur@) =~= p.update(
                    p.len() - 1,
                    p.last().push(s@[i as int]),
                )) by {
                    assert(p == oldparts.push(oldcur));
                    assert(p.last() == oldcur);
                    assert(cur@ == oldcur.push(s@[i as int]));
                    assert(p.update(p.len() - 1, oldcur.push(s@[i as int])) =~= oldparts.push(
                        oldcur.push(s@[i as int]),
                    ));
                }
            }
        }
        i += 1;
    }
    proof {
        assert(s@.subrange(0, n as int) =~= s@);
    }
    parts.push(cur);
    proof {
        assert(parts.deep_view() =~= split_of(s@));
    }
    parts
}

/// Normalizes a component stack: empty and `.` components vanish, `..` pops
/// the stack, anything else is pushed. `None` marks an escape above the root.
pub open spec fn norm_components(parts: Seq<Seq<char>>) -> Option<Seq<Seq<char>>>
    decreases parts.len(),
{
    if parts.len() == 0 {
        Some(Seq::<Seq<char>>::empty())
    } else {
        match norm_components(parts.drop_last()) {
            None => None,
            Some(stack) => {
                let last = parts.last();
                if last =~= Seq::<char>::empty() || last =~= "."@ {
                    Some(stack)
                } else if last =~= ".."@ {
                    if stack.len() == 0 {
                        None
                    } else {
                        Some(stack.drop_last())
                    }
                } else {
                    Some(stack.push(last))
                }
            },
        }
    }
}

/// The absolute path of a normalized stack under a root: the root alone for
/// an empty stack, else the root, a separator, and the joined stack.
pub open spec fn joined_under(root: Seq<char>, stack: Seq<Seq<char>>) -> Seq<char> {
    if stack.len() == 0 {
        root
    } else {
        root + seq!['/'] + join_slash(stack)
    }
}

/// What resolving a relative path against a root yields: `None` when the
/// path escapes the root.
pub open spec fn spec_resolve(root: Seq<char>, path: Seq<char>) -> Option<Seq<char>> {
    if path.len() > 0 && path[0] == '/' {
        None
    } else {
        match norm_components(split_of(path)) {
            None => None,
            Some(stack) => Some(joined_under(root, stack)),
        }
    }
}

/// Resolves a path against a root directory without touching the filesystem:
/// `.` and empty components vanish, `..` ascends, and any attempt to escape
/// the root (a leading `/` or too many `..`) fails.
pub fn resolve_abs_path(root_path: &str, path: &str) -> (r: Result<String, Error>)
    ensures
        match r {
            Ok(p) => spec_resolve(root_path@, path@) == Some(p@),
            Err(_) => spec_resolve(root_path@, path@) is None,
        },
{
    if path.unicode_len() > 0 && path.get_char(0) == '/' {
        return Err(Error::from_string(new_string("path escapes the root directory")));
    }
    let parts = split_slash(path);
    let n: usize = parts.len();
    let mut stack: Vec<String> = Vec::new();
    let mut i: usize = 0;
    while i < n
        invariant
            n == parts.deep_view().len(),
            0 <= i <= n,
            parts.deep_view() == split_of(path@),
            !(path@.len() > 0 && path@[0] == '/'),
            norm_components(parts.deep_view().subrange(0, i as int)) == Some(stack.deep_view()),
        decreases n - i,
    {
        let ghost oldstack = stack.deep_view();
        let p: &String = &parts[i];
        proof {
            assert(parts.deep_view().subrange(0, i + 1).drop_last() =~= parts.deep_view().subrange(
                0,
                i as int,
            ));
            assert(parts.deep_view().subrange(0, i + 1).last() == parts.deep_view()[i as int]);
        }
        if str_eq(p.as_str(), "") || str_eq(p.as_str(), ".") {
            proof {
                reveal_strlit("");
                assert(parts.deep_view()[i as int] =~= Seq::<char>::empty() || parts.deep_view()[i
                    as int] =~= "."@);
            }
        } else if str_eq(p.as_str(), "..") {
            proof {
                reveal_strlit("");
                reveal_strlit(".");
                reveal_strlit("..");
                assert(!(parts.deep_view()[i as int] =~= Seq::<char>::empty()));
                assert(!(parts.deep_view()[i as int] =~= "."@));
            }
            if stack.len() == 0 {
                proof {
                    assert(norm_components(parts.deep_view().subrange(0, i + 1)) is None);
                    lemma_norm_none_prefix(parts.deep_view(), i + 1);
                }
                return Err(Error::from_string(new_string("path escapes the root directory")));
            }
            stack.pop();
            proof {
                assert(stack.deep_view() =~= oldstack.drop_last());
            }
        } else {
            stack.push(p.clone());
            proof {
                reveal_strlit("");
                if parts.deep_view()[i as int] =~= Seq::<char>::empty() {
                    assert(""@ =~= Seq::<char>::empty());
                    assert(parts.deep_view()[i as int] == ""@);
                    assert(false);
                }
                assert(stack.deep_view() =~= oldstack.push(parts.deep_view()[i as int]));
            }
        }
        i += 1;
    }
    proof {
        assert(parts.deep_view().subrange(0, n as int) =~= parts.deep_view());
    }
    let mut out: String = root_path.to_owned();
    if stack.len() > 0 {
        push_str(&mut out, "/");
        proof {
            reveal_strlit("/");
            assert(out@ =~= root_path@ + seq!['/']);
        }
        let m: usize = stack.len();
        let mut j: usize = 0;
        while j < m
            invariant
                m == stack.deep_view().len(),
                m > 0,
                0 <= j <= m,
                j > 0 ==> out@ == root_path@ + seq!['/'] + join_slash(
                    stack.deep_view().subrange(0, j as int),
                ),
                j == 0 ==> out@ == root_path@ + seq!['/'],
            decreases m - j,
        {
            let ghost oldout = out@;
            if j > 0 {
                push_str(&mut out, "/");
            }
            push_str(&mut out, stack[j].as_str());
            proof {
                reveal_strlit("/");
                let sv = stack.deep_view();
                assert(sv.subrange(0, j + 1).drop_last() =~= sv.subrange(0, j as int));
                assert(sv.subrange(0, j + 1).last() == sv[j as int]);
                if j > 0 {
                    assert(join_slash(sv.subrange(0, j + 1)) =~= join_slash(
                        sv.subrange(0, j as int),
                    ) + seq!['/'] + sv[j as int]);
                    assert(out@ =~= oldout + seq!['/'] + sv[j as int]);
                    assert(out@ =~= root_path@ + seq!['/'] + join_slash(sv.subrange(0, j + 1)));
                } else {
                    assert(sv.subrange(0, 1).len() == 1);
                    assert(join_slash(sv.subrange(0, 1)) == sv[0]);
                    assert(out@ =~= root_path@ + seq!['/'] + join_slash(sv.subrange(0, 1)));
                }
            }
            j += 1;
        }
        proof {
            assert(stack.deep_view().subrange(0, m as int) =~= stack.deep_view());
        }
    }
    Ok(out)
}

/// A normalization that fails on a prefix fails on the whole.
proof fn lemma_norm_none_prefix(parts: Seq<Seq<char>>, i: int)
    requires
        0 <= i <= parts.len(),
        norm_components(parts.subrange(0, i)) is None,
    ensures
        norm_components(parts) is None,
    decreases parts.len() - i,
{
    if i < parts.len() {
        assert(parts.subrange(0, i + 1).drop_last() =~= parts.subrange(0, i));
        lemma_norm_none_prefix(parts, i + 1);
    } else {
        assert(parts.subrange(0, i) =~= parts);
    }
}

/// Whether a character is a Unicode control character, as char::is_control
/// defines it.
pub open spec fn is_control_char(c: char) -> bool {
    (c as u32) < 0x20 || (0x7f <= (c as u32) && (c as u32) < 0xa0)
}

/// An S3 key the storage layer accepts: nonempty, at most 1024 bytes when
/// UTF-8 encoded, free of `../`, `./` and `//` sequences, and free of
/// control characters.
pub open spec fn valid_key_seq(k: Seq<char>) -> bool {
    &&& k.len() > 0
    &&& vstd::utf8::encode_utf8(k).len() <= 1024
    &&& !contains_seq(k, "../"@)
    &&& !contains_seq(k, "./"@)
    &&& !contains_seq(k, "//"@)
    &&& !(exists|i: int| 0 <= i < k.len() && is_control_char(k[i]))
}

/// `valid_key_seq` over a string slice.
pub open spec fn spec_valid_key(s: &str) -> bool {
    valid_key_seq(s@)
}

/// Tests whether a string holds any control character.
fn contains_control(s: &str) -> (r: bool)
    ensures
        r == exists|i: int| 0 <= i < s@.len() && is_control_char(s@[i]),
{
    let n: usize = s.unicode_len();
    let mut i: usize = 0;
    while i < n
        invariant
            n == s@.len(),
            0 <= i <= n,
            forall|j: int| 0 <= j < i ==> !is_control_char(s@[j]),
        decreases n - i,
    {
        let c = s.get_char(i);
        let v = c as u32;
        if v < 0x20 || (0x7f <= v && v < 0xa0) {
            assert(is_control_char(s@[i as int]));
            return true;
        }
        assert(!is_control_char(s@[i as int]));
        i += 1;
    }
    false
}

/// Validates an S3 key: length bounds, no path traversal sequences, no
/// control characters.
pub fn validate_s3_key(key: &str) -> (r: bool)
    ensures
        r == spec_valid_key(key),
{
    if key.is_empty() || key.as_bytes().len() > 1024 {
        return false;
    }
    if str_contains(key, "../") || str_contains(key, "./") || str_contains(key, "//") {
        return false;
    }
    !contains_control(key)
}

/// Makes an owned string from a literal.
fn new_string(s: &str) -> (r: String)
    ensures
        r@ == s@,
{
    s.to_owned()
}

} // verus!
