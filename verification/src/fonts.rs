use vstd::prelude::*;
use crate::modloader::trim_quotes;
use crate::text::{
    all_digits, ascii_lower, chars_of, char_is_whitespace, first_index, is_digit, is_ws,
    lemma_first_index, lower_ascii_char, trim, trim_seq,
};

verus! {

/// `s` without its leading and trailing `'` (as `trim_matches('\'')`).
pub open spec fn trim_apostrophes(s: Seq<char>) -> Seq<char>
    decreases s.len(),
{
    if s.len() > 0 && s[0] == '\'' {
        trim_apostrophes(s.drop_first())
    } else if s.len() > 0 && s.last() == '\'' {
        trim_apostrophes(s.drop_last())
    } else {
        s
    }
}

/// The pieces of `s` between whitespace characters (empty pieces included).
pub open spec fn ws_pieces(s: Seq<char>) -> Seq<Seq<char>>
    decreases s.len(),
{
    if s.len() == 0 {
        seq![Seq::<char>::empty()]
    } else {
        let r = ws_pieces(s.drop_last());
        if is_ws(s.last()) {
            r.push(Seq::<char>::empty())
        } else {
            r.update(r.len() - 1, r.last().push(s.last()))
        }
    }
}

/// `str::split_whitespace`: the non-empty runs of non-whitespace characters.
pub open spec fn words(s: Seq<char>) -> Seq<Seq<char>> {
    ws_pieces(s).filter(|p: Seq<char>| p.len() > 0)
}

/// The index of the first `e` or `E` (the length when there is none).
pub open spec fn first_exp(s: Seq<char>) -> int
    decreases s.len(),
{
    if s.len() == 0 {
        0
    } else if s[0] == 'e' || s[0] == 'E' {
        0
    } else {
        1 + first_exp(s.drop_first())
    }
}

/// Digits with at most one `.` and at least one digit.
pub open spec fn mantissa_ok(m: Seq<char>) -> bool {
    let d = first_index(m, '.');
    if d >= m.len() {
        m.len() > 0 && all_digits(m)
    } else {
        all_digits(m.take(d)) && all_digits(m.skip(d + 1)) && (d > 0 || m.len() - d - 1 > 0)
    }
}

/// Nothing, or `e`/`E`, an optional sign and one or more digits.
pub open spec fn exponent_ok(x: Seq<char>) -> bool {
    x.len() == 0 || {
        let r = x.drop_first();
        let r2 = if r.len() > 0 && (r[0] == '+' || r[0] == '-') { r.drop_first() } else { r };
        r2.len() > 0 && all_digits(r2)
    }
}

/// What `f32::from_str` accepts: an optional sign, then `inf`, `infinity` or
/// `nan` (any ASCII case), or digits with an optional `.` and an optional
/// exponent, with at least one digit before the exponent.
pub open spec fn float_literal(s: Seq<char>) -> bool {
    let b = if s.len() > 0 && (s[0] == '+' || s[0] == '-') { s.drop_first() } else { s };
    let l = ascii_lower(b);
    l == "inf"@ || l == "infinity"@ || l == "nan"@ || number_ok(b)
}

/// A mantissa followed by an optional exponent.
pub open spec fn number_ok(b: Seq<char>) -> bool {
    let k = first_exp(b);
    mantissa_ok(b.take(k)) && exponent_ok(b.skip(k))
}

proof fn lemma_first_exp(s: Seq<char>)
    ensures
        0 <= first_exp(s) <= s.len(),
        first_exp(s) < s.len() ==> (s[first_exp(s)] == 'e' || s[first_exp(s)] == 'E'),
        forall|k: int| 0 <= k < first_exp(s) ==> s[k] != 'e' && s[k] != 'E',
    decreases s.len(),
{
    if s.len() > 0 && !(s[0] == 'e' || s[0] == 'E') {
        lemma_first_exp(s.drop_first());
        assert forall|k: int| 0 <= k < first_exp(s) implies s[k] != 'e' && s[k] != 'E' by {
            if k > 0 {
                assert(s[k] == s.drop_first()[k - 1]);
            }
        }
    }
}

fn digits_only(v: &Vec<char>, from: usize, to: usize) -> (r: bool)
    requires
        from <= to <= v.len(),
    ensures
        r == all_digits(v@.subrange(from as int, to as int)),
{
    let mut i = from;
    while i < to
        invariant
            from <= i <= to <= v.len(),
            forall|k: int| from <= k < i ==> is_digit(#[trigger] v@[k]),
        decreases to - i,
    {
        if !('0' <= v[i] && v[i] <= '9') {
            assert(!is_digit(v@.subrange(from as int, to as int)[i - from]));
            return false;
        }
        i = i + 1;
    }
    assert forall|k: int| 0 <= k < to - from implies is_digit(#[trigger] v@.subrange(from as int, to as int)[k]) by {
        assert(v@.subrange(from as int, to as int)[k] == v@[from + k]);
    }
    true
}

fn lowered_equals(v: &Vec<char>, from: usize, lit: &str) -> (r: bool)
    requires
        from <= v.len(),
    ensures
        r == (ascii_lower(v@.skip(from as int)) == lit@),
{
    let l = chars_of(lit);
    if v.len() - from != l.len() {
        assert(ascii_lower(v@.skip(from as int)).len() != lit@.len());
        return false;
    }
    let mut i: usize = 0;
    while i < l.len()
        invariant
            i <= l.len(),
            l@ == lit@,
            from + l.len() == v.len(),
            forall|k: int| 0 <= k < i ==> crate::text::ascii_lower_char(v@[from + k]) == l@[k],
        decreases l.len() - i,
    {
        if lower_ascii_char(v[from + i]) != l[i] {
            assert(ascii_lower(v@.skip(from as int))[i as int] != lit@[i as int]);
            return false;
        }
        i = i + 1;
    }
    assert(ascii_lower(v@.skip(from as int)) =~= lit@);
    true
}

fn exp_index(v: &Vec<char>, start: usize) -> (k: usize)
    requires
        start <= v.len(),
    ensures
        start <= k <= v.len(),
        k - start == first_exp(v@.skip(start as int)),
{
    let ghost b = v@.skip(start as int);
    let mut k: usize = start;
    while k < v.len() && v[k] != 'e' && v[k] != 'E'
        invariant
            start <= k <= v.len(),
            forall|t: int| start <= t < k ==> v@[t] != 'e' && v@[t] != 'E',
        decreases v.len() - k,
    {
        k = k + 1;
    }
    proof {
        lemma_first_exp(b);
        let fe = first_exp(b);
        if fe < k - start {
            assert(b[fe] == v@[start + fe]);
        }
        if k < v.len() && fe > k - start {
            assert(b[k - start] == v@[k as int]);
        }
    }
    k
}

fn mantissa_check(v: &Vec<char>, start: usize, k: usize) -> (r: bool)
    requires
        start <= k <= v.len(),
    ensures
        r == mantissa_ok(v@.subrange(start as int, k as int)),
{
    let mut d: usize = start;
    while d < k && v[d] != '.'
        invariant
            start <= d <= k <= v.len(),
            forall|t: int| start <= t < d ==> v@[t] != '.',
        decreases k - d,
    {
        d = d + 1;
    }
    let ghost m = v@.subrange(start as int, k as int);
    proof {
        lemma_first_index(m, '.');
        let fi = first_index(m, '.');
        if fi < d - start {
            assert(m[fi] == v@[start + fi]);
        }
        if d < k && fi > d - start {
            assert(m[d - start] == v@[d as int]);
        }
        assert(fi == d - start);
        assert(m.take(fi) =~= v@.subrange(start as int, d as int));
        if d < k {
            assert(m.skip(fi + 1) =~= v@.subrange(d + 1, k as int));
        }
    }
    if d == k {
        k > start && digits_only(v, start, k)
    } else {
        digits_only(v, start, d) && digits_only(v, d + 1, k) && (d > start || k - d - 1 > 0)
    }
}

fn exponent_check(v: &Vec<char>, k: usize) -> (r: bool)
    requires
        k <= v.len(),
    ensures
        r == exponent_ok(v@.skip(k as int)),
{
    if k == v.len() {
        assert(v@.skip(k as int).len() == 0);
        return true;
    }
    let mut e = k + 1;
    if e < v.len() && (v[e] == '+' || v[e] == '-') {
        e = e + 1;
    }
    proof {
        let x = v@.skip(k as int);
        let r = x.drop_first();
        assert(r =~= v@.skip(k + 1));
        if k + 1 < v.len() {
            assert(r[0] == v@[k + 1]);
        }
        let r2 = if r.len() > 0 && (r[0] == '+' || r[0] == '-') { r.drop_first() } else { r };
        assert(r2 =~= v@.subrange(e as int, v.len() as int));
    }
    e < v.len() && digits_only(v, e, v.len())
}

/// Whether `s` parses as an `f32`, following the grammar of `f32::from_str`.
pub fn is_float_literal(s: &str) -> (r: bool)
    ensures
        r == float_literal(s@),
{
    let v = chars_of(s);
    let start: usize = if v.len() > 0 && (v[0] == '+' || v[0] == '-') { 1 } else { 0 };
    let ghost b = if s@.len() > 0 && (s@[0] == '+' || s@[0] == '-') { s@.drop_first() } else { s@ };
    assert(b =~= v@.skip(start as int));
    if lowered_equals(&v, start, "inf") || lowered_equals(&v, start, "infinity") || lowered_equals(&v, start, "nan") {
        return true;
    }
    let k = exp_index(&v, start);
    proof {
        let fe = first_exp(b);
        assert(b.take(fe) =~= v@.subrange(start as int, k as int));
        assert(b.skip(fe) =~= v@.skip(k as int));
    }
    mantissa_check(&v, start, k) && exponent_check(&v, k)
}

fn ws_words(s: &str) -> (out: Vec<String>)
    ensures
        out@.map_values(|p: String| p@) == words(s@),
{
    let v = chars_of(s);
    let mut pieces: Vec<String> = Vec::new();
    let mut cur = String::new();
    let mut i: usize = 0;
    proof {
        assert(s@.take(0) =~= Seq::<char>::empty());
        reveal(Seq::filter);
        assert(ws_pieces(Seq::<char>::empty()) =~= seq![Seq::<char>::empty()]);
    }
    // `pieces` holds the non-empty pieces already closed; `cur` the open one.
    while i < v.len()
        invariant
            i <= v.len(),
            v@ == s@,
            ws_pieces(s@.take(i as int)).last() == cur@,
            ws_pieces(s@.take(i as int)).len() >= 1,
            pieces@.map_values(|p: String| p@) == ws_pieces(s@.take(i as int)).drop_last().filter(|p: Seq<char>| p.len() > 0),
        decreases v.len() - i,
    {
        let c = v[i];
        let ghost prev_pieces = ws_pieces(s@.take(i as int));
        proof {
            assert(s@.take(i + 1).drop_last() =~= s@.take(i as int));
            assert(s@.take(i + 1).last() == c);
            reveal(Seq::filter);
        }
        if char_is_whitespace(c) {
            let ghost before = pieces@.map_values(|p: String| p@);
            if cur.as_str().unicode_len() > 0 {
                let done = cur;
                pieces.push(done);
                cur = String::new();
                proof {
                    assert(pieces@.map_values(|p: String| p@) =~= before.push(prev_pieces.last()));
                    assert(prev_pieces =~= prev_pieces.drop_last().push(prev_pieces.last()));
                }
            } else {
                cur = String::new();
                proof {
                    assert(prev_pieces =~= prev_pieces.drop_last().push(prev_pieces.last()));
                }
            }
            proof {
                assert(ws_pieces(s@.take(i + 1)) == prev_pieces.push(Seq::<char>::empty()));
                assert(ws_pieces(s@.take(i + 1)).drop_last() =~= prev_pieces);
            }
        } else {
            cur.push(c);
            proof {
                let np = ws_pieces(s@.take(i + 1));
                assert(np == prev_pieces.update(prev_pieces.len() - 1, prev_pieces.last().push(c)));
                assert(np.drop_last() =~= prev_pieces.drop_last());
            }
        }
        i = i + 1;
    }
    proof {
        assert(s@.take(v.len() as int) =~= s@);
        reveal(Seq::filter);
        let wp = ws_pieces(s@);
        assert(wp =~= wp.drop_last().push(wp.last()));
    }
    if cur.as_str().unicode_len() > 0 {
        pieces.push(cur);
    }
    pieces
}

/// The family of a GNOME font setting (`'Family Size'`): quotes and a trailing
/// numeric size removed, the words joined by single spaces.
pub open spec fn font_family(raw: Seq<char>) -> Option<Seq<char>> {
    let s = trim_seq(trim_quotes(trim_apostrophes(trim_seq(raw))));
    let ws = words(s);
    let parts = if ws.len() > 0 && float_literal(ws.last()) { ws.drop_last() } else { ws };
    if s.len() == 0 || parts.len() == 0 {
        None
    } else {
        Some(crate::text::join_with(parts, " "@))
    }
}

fn trim_apostrophes_exec(s: &str) -> (r: String)
    ensures
        r@ == trim_apostrophes(s@),
{
    let v = chars_of(s);
    let mut a: usize = 0;
    let b: usize = v.len();
    proof {
        assert(s@.subrange(0, v.len() as int) =~= s@);
    }
    while a < b && v[a] == '\''
        invariant
            a <= b,
            b == v.len(),
            v@ == s@,
            trim_apostrophes(s@) == trim_apostrophes(s@.subrange(a as int, b as int)),
        decreases b - a,
    {
        proof {
            assert(s@.subrange(a as int, b as int).drop_first() =~= s@.subrange(a + 1, b as int));
        }
        a = a + 1;
    }
    let mut b = b;
    while a < b && v[b - 1] == '\''
        invariant
            a <= b <= v.len(),
            v@ == s@,
            a == b || v@[a as int] != '\'',
            trim_apostrophes(s@) == trim_apostrophes(s@.subrange(a as int, b as int)),
        decreases b - a,
    {
        proof {
            let t = s@.subrange(a as int, b as int);
            assert(t[0] == v@[a as int]);
            assert(t.drop_last() =~= s@.subrange(a as int, b - 1));
            if b - 1 > a {
                assert(s@.subrange(a as int, b - 1)[0] == v@[a as int]);
            }
        }
        b = b - 1;
    }
    proof {
        let t = s@.subrange(a as int, b as int);
        if a < b {
            assert(t[0] == v@[a as int]);
            assert(t.last() == v@[b - 1]);
        }
    }
    let mut r = String::new();
    let mut i: usize = a;
    while i < b
        invariant
            a <= i <= b <= v.len(),
            v@ == s@,
            r@ == s@.subrange(a as int, i as int),
        decreases b - i,
    {
        r.push(v[i]);
        assert(s@.subrange(a as int, i + 1) =~= s@.subrange(a as int, i as int).push(v@[i as int]));
        i = i + 1;
    }
    r
}

/// Reads a GNOME interface font name (`Family Size`) and returns just the
/// family, dropping the trailing point size.
pub fn parse_font_name(raw: &str) -> (r: Option<String>)
    ensures
        (match r { Some(f) => Some(f@), None => None }) == font_family(raw@),
{
    let a = trim_apostrophes_exec(trim(raw));
    let q = crate::modloader::trim_quotes_exec(a.as_str());
    let s = trim(q.as_str());
    if s.unicode_len() == 0 {
        return None;
    }
    let mut parts = ws_words(s);
    if parts.len() > 0 && is_float_literal(parts[parts.len() - 1].as_str()) {
        let ghost before = parts@;
        parts.pop();
        proof {
            assert(parts@.map_values(|p: String| p@) =~= before.map_values(|p: String| p@).drop_last());
        }
    }
    if parts.len() == 0 {
        return None;
    }
    let joined = crate::text::join_strings(&parts, " ");
    Some(joined)
}

} // verus!
