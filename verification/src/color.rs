use vstd::prelude::*;
use crate::text::{chars_of, first_index, lemma_first_index};

verus! {

/// The escape character that starts an ANSI sequence.
pub open spec fn esc() -> char {
    '\x1b'
}

/// `s` without its ANSI SGR sequences: an escape followed by `[` is dropped
/// together with everything up to and including the next `m` (or up to the
/// end when no `m` follows); a lone escape is dropped by itself.
pub open spec fn strip_ansi_spec(s: Seq<char>) -> Seq<char>
    decreases s.len(),
{
    if s.len() == 0 {
        s
    } else if s[0] != esc() {
        seq![s[0]] + strip_ansi_spec(s.drop_first())
    } else if s.len() > 1 && s[1] == '[' {
        let rest = s.skip(2);
        proof {
            lemma_first_index(rest, 'm');
        }
        if first_index(rest, 'm') < rest.len() {
            strip_ansi_spec(rest.skip(first_index(rest, 'm') + 1))
        } else {
            Seq::empty()
        }
    } else {
        strip_ansi_spec(s.drop_first())
    }
}

/// Removes ANSI SGR escape sequences (`ESC [ ... m`) from `s`.
pub fn strip_ansi(s: &str) -> (out: String)
    ensures
        out@ == strip_ansi_spec(s@),
{
    let v = chars_of(s);
    let mut out = String::new();
    let mut i: usize = 0;
    proof {
        assert(s@.skip(0) =~= s@);
    }
    while i < v.len()
        invariant
            i <= v.len(),
            v@ == s@,
            out@ + strip_ansi_spec(s@.skip(i as int)) == strip_ansi_spec(s@),
        decreases v.len() - i,
    {
        let ghost t = s@.skip(i as int);
        let c = v[i];
        assert(t[0] == c);
        if c != '\x1b' {
            let ghost prev = out@;
            out.push(c);
            proof {
                assert(t.drop_first() =~= s@.skip(i + 1));
                assert(out@ + strip_ansi_spec(s@.skip(i + 1)) =~= prev + strip_ansi_spec(t));
            }
            i = i + 1;
        } else if i + 1 < v.len() && v[i + 1] == '[' {
            let ghost rest = t.skip(2);
            proof {
                assert(t[1] == v@[i + 1]);
                assert(rest =~= s@.skip(i + 2));
                lemma_first_index(rest, 'm');
            }
            let mut j: usize = i + 2;
            while j < v.len() && v[j] != 'm'
                invariant
                    i + 2 <= j <= v.len(),
                    v@ == s@,
                    rest == s@.skip(i + 2),
                    forall|k: int| i + 2 <= k < j ==> s@[k] != 'm',
                decreases v.len() - j,
            {
                j = j + 1;
            }
            proof {
                let fi = first_index(rest, 'm');
                if fi < rest.len() {
                    assert(rest[fi] == 'm');
                    assert(s@[i + 2 + fi] == 'm');
                }
                if j < v.len() {
                    assert(rest[j - (i + 2)] == 'm');
                    assert(fi == j - (i + 2));
                    assert(rest.skip(fi + 1) =~= s@.skip(j + 1));
                } else {
                    if fi < rest.len() {
                        assert(s@[i + 2 + fi] == 'm');
                    }
                    assert(s@.skip(v.len() as int) =~= Seq::<char>::empty());
                }
            }
            if j < v.len() {
                i = j + 1;
            } else {
                i = v.len();
            }
        } else {
            proof {
                if i + 1 < v.len() {
                    assert(t[1] == v@[i + 1]);
                }
                assert(t.drop_first() =~= s@.skip(i + 1));
            }
            i = i + 1;
        }
    }
    proof {
        assert(s@.skip(v.len() as int) =~= Seq::<char>::empty());
        assert(out@ + Seq::<char>::empty() =~= out@);
    }
    out
}

/// Stripping never leaves an escape character behind.
pub proof fn lemma_strip_ansi_has_no_escape(s: Seq<char>)
    ensures
        !strip_ansi_spec(s).contains(esc()),
    decreases s.len(),
{
    if s.len() > 0 {
        if s[0] != esc() {
            lemma_strip_ansi_has_no_escape(s.drop_first());
            let r = strip_ansi_spec(s.drop_first());
            assert forall|k: int| 0 <= k < (seq![s[0]] + r).len() implies (seq![s[0]] + r)[k] != esc() by {
                if k > 0 {
                    assert((seq![s[0]] + r)[k] == r[k - 1]);
                }
            }
        } else if s.len() > 1 && s[1] == '[' {
            let rest = s.skip(2);
            lemma_first_index(rest, 'm');
            if first_index(rest, 'm') < rest.len() {
                lemma_strip_ansi_has_no_escape(rest.skip(first_index(rest, 'm') + 1));
            }
        } else {
            lemma_strip_ansi_has_no_escape(s.drop_first());
        }
    }
}

/// Text without escapes passes through unchanged.
pub proof fn lemma_strip_ansi_plain(s: Seq<char>)
    requires
        !s.contains(esc()),
    ensures
        strip_ansi_spec(s) == s,
    decreases s.len(),
{
    if s.len() > 0 {
        assert(s[0] != esc());
        assert(!s.drop_first().contains(esc())) by {
            if s.drop_first().contains(esc()) {
                let k = choose|k: int| 0 <= k < s.drop_first().len() && s.drop_first()[k] == esc();
                assert(s[k + 1] == esc());
            }
        }
        lemma_strip_ansi_plain(s.drop_first());
        assert(s =~= seq![s[0]] + s.drop_first());
    }
}

/// Stripping twice is stripping once.
pub proof fn lemma_strip_ansi_idempotent(s: Seq<char>)
    ensures
        strip_ansi_spec(strip_ansi_spec(s)) == strip_ansi_spec(s),
{
    lemma_strip_ansi_has_no_escape(s);
    lemma_strip_ansi_plain(strip_ansi_spec(s));
}

} // verus!
