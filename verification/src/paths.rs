use vstd::prelude::*;

verus! {

/// `Path::join` on Unix paths held as text: an absolute `rel` replaces `base`;
/// otherwise `rel` is appended after a single `/` separator.
pub open spec fn join_path(base: Seq<char>, rel: Seq<char>) -> Seq<char> {
    if rel.len() > 0 && rel[0] == '/' {
        rel
    } else if base.len() == 0 {
        rel
    } else if base.last() == '/' {
        base + rel
    } else {
        base + seq!['/'] + rel
    }
}

/// Joins `rel` onto `base` as `Path::join` does.
pub fn join(base: &str, rel: &str) -> (r: String)
    ensures
        r@ == join_path(base@, rel@),
{
    let b = crate::text::chars_of(base);
    let rv = crate::text::chars_of(rel);
    if rv.len() > 0 && rv[0] == '/' {
        return rel.to_owned();
    }
    let mut r = String::from_str(base);
    if b.len() > 0 && b[b.len() - 1] != '/' {
        r.push('/');
    }
    r.append(rel);
    proof {
        if b.len() > 0 && b@.last() != '/' {
            assert(r@ =~= base@ + seq!['/'] + rel@);
        } else {
            assert(r@ =~= base@ + rel@);
        }
    }
    r
}

} // verus!
