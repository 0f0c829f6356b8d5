use vstd::prelude::*;

verus! {

/// `String::push` appends one character at the end of the string.
pub assume_specification[ String::push ](s: &mut String, ch: char)
    ensures
        final(s)@ == old(s)@.push(ch),
;

/// Collects the characters of a string slice, in order.
pub fn chars_of(s: &str) -> (v: Vec<char>)
    ensures
        v@ == s@,
{
    let mut v: Vec<char> = Vec::new();
    for c in it: s.chars()
        invariant
            v@ == it.seq().take(it.index() as int),
            it.seq() == s@,
    {
        v.push(c);
    }
    v
}

} // verus!

verus! {

/// The character of a decimal digit.
pub open spec fn digit_char(d: int) -> char {
    if d == 0 { '0' }
    else if d == 1 { '1' }
    else if d == 2 { '2' }
    else if d == 3 { '3' }
    else if d == 4 { '4' }
    else if d == 5 { '5' }
    else if d == 6 { '6' }
    else if d == 7 { '7' }
    else if d == 8 { '8' }
    else { '9' }
}

/// Decimal digits of a natural number, most significant first, no leading zeros.
pub open spec fn nat_decimal(n: nat) -> Seq<char>
    decreases n,
{
    if n < 10 {
        seq![digit_char(n as int)]
    } else {
        nat_decimal(n / 10).push(digit_char((n % 10) as int))
    }
}

/// Decimal text of an integer, with a leading `-` when negative.
pub open spec fn int_decimal(i: int) -> Seq<char> {
    if i < 0 {
        seq!['-'] + nat_decimal((-i) as nat)
    } else {
        nat_decimal(i as nat)
    }
}

fn digit(d: u128) -> (c: char)
    requires
        d < 10,
    ensures
        c == digit_char(d as int),
{
    if d == 0 { '0' }
    else if d == 1 { '1' }
    else if d == 2 { '2' }
    else if d == 3 { '3' }
    else if d == 4 { '4' }
    else if d == 5 { '5' }
    else if d == 6 { '6' }
    else if d == 7 { '7' }
    else if d == 8 { '8' }
    else { '9' }
}

/// Appends the decimal digits of `n`.
pub fn push_nat_decimal(s: &mut String, n: u128)
    ensures
        final(s)@ == old(s)@ + nat_decimal(n as nat),
    decreases n,
{
    if n >= 10 {
        push_nat_decimal(s, n / 10);
    }
    s.push(digit(n % 10));
    proof {
        if n >= 10 {
            assert(old(s)@ + nat_decimal(n as nat) =~= old(s)@ + nat_decimal((n / 10) as nat) + seq![digit_char((n % 10) as int)]);
        }
    }
}

/// Appends the decimal text of `i` (as `{}` formats an `i64`).
pub fn push_int_decimal(s: &mut String, i: i64)
    ensures
        final(s)@ == old(s)@ + int_decimal(i as int),
{
    if i < 0 {
        s.push('-');
        let mag: u64 = if i == i64::MIN { 9223372036854775808u64 } else { (-i) as u64 };
        push_nat_decimal(s, mag as u128);
        assert(old(s)@ + int_decimal(i as int) =~= old(s)@.push('-') + nat_decimal(mag as nat));
    } else {
        push_nat_decimal(s, i as u128);
    }
}

} // verus!

verus! {

/// The only character of `s`, when it has exactly one.
pub fn one_char(s: &str) -> (c: Option<char>)
    ensures
        s@.len() == 1 ==> c == Some(s@[0]),
        s@.len() != 1 ==> c is None,
        c == Some('1') <==> s@ == seq!['1'],
        c == Some('2') <==> s@ == seq!['2'],
        c == Some('3') <==> s@ == seq!['3'],
{
    let n = s.unicode_len();
    if n == 1 {
        let c = s.get_char(0);
        assert(s@ =~= seq![c]) by {
            assert(s@.len() == 1);
        }
        Some(c)
    } else {
        None
    }
}

} // verus!

verus! {

/// Whether `c` has the Unicode White_Space property, which is what
/// `char::is_whitespace` reports: tab through carriage return, space, next
/// line, no-break space, ogham space mark, the spaces from en quad to hair
/// space, line and paragraph separators, narrow no-break space, medium
/// mathematical space and ideographic space.
pub open spec fn is_ws(c: char) -> bool {
    let u = c as u32;
    (0x09 <= u && u <= 0x0d) || u == 0x20 || u == 0x85 || u == 0xa0 || u == 0x1680
        || (0x2000 <= u && u <= 0x200a) || u == 0x2028 || u == 0x2029 || u == 0x202f
        || u == 0x205f || u == 0x3000
}

/// Whether a character outside ASCII is alphabetic or numeric in Unicode, as
/// `char::is_alphanumeric` reports it.
pub uninterp spec fn non_ascii_alnum(c: char) -> bool;

/// An ASCII letter or digit.
pub open spec fn ascii_alnum(c: char) -> bool {
    ('a' <= c && c <= 'z') || ('A' <= c && c <= 'Z') || ('0' <= c && c <= '9')
}

/// `char::is_alphanumeric`: within ASCII exactly the letters and digits.
pub open spec fn is_alnum(c: char) -> bool {
    if (c as u32) < 128 { ascii_alnum(c) } else { non_ascii_alnum(c) }
}

/// The Unicode lowercase mapping of a string that holds a character
/// outside ASCII, as `str::to_lowercase` computes it.
pub uninterp spec fn unicode_lower(s: Seq<char>) -> Seq<char>;

/// Every character is ASCII.
pub open spec fn all_ascii(s: Seq<char>) -> bool {
    forall|i: int| 0 <= i < s.len() ==> (#[trigger] s[i] as u32) < 128
}

/// The lowercase of a string as `str::to_lowercase` computes it: on ASCII
/// text the ASCII lowercase.
pub open spec fn lower(s: Seq<char>) -> Seq<char> {
    if all_ascii(s) { ascii_lower(s) } else { unicode_lower(s) }
}

/// `char::is_whitespace`: the Unicode `White_Space` characters.
pub(crate) fn char_is_whitespace(c: char) -> (r: bool)
    ensures
        r == is_ws(c),
{
    let u = c as u32;
    (0x09 <= u && u <= 0x0d) || u == 0x20 || u == 0x85 || u == 0xa0 || u == 0x1680
        || (0x2000 <= u && u <= 0x200a) || u == 0x2028 || u == 0x2029 || u == 0x202f
        || u == 0x205f || u == 0x3000
}

/// `char::is_alphanumeric`.
#[verifier::external_body]
pub(crate) fn char_is_alphanumeric(c: char) -> (r: bool)
    ensures
        r == (if (c as u32) < 128 { ascii_alnum(c) } else { non_ascii_alnum(c) }),
{
    c.is_alphanumeric()
}

/// `str::to_lowercase`: the Unicode lowercase mapping, which on ASCII text
/// is the ASCII lowercase.
#[verifier::external_body]
pub(crate) fn to_lowercase(s: &str) -> (r: String)
    ensures
        all_ascii(s@) ==> r@ == ascii_lower(s@),
        !all_ascii(s@) ==> r@ == unicode_lower(s@),
{
    s.to_lowercase()
}

/// `s` without its leading and trailing whitespace.
pub open spec fn trim_seq(s: Seq<char>) -> Seq<char>
    decreases s.len(),
{
    if s.len() > 0 && is_ws(s[0]) {
        trim_seq(s.drop_first())
    } else if s.len() > 0 && is_ws(s.last()) {
        trim_seq(s.drop_last())
    } else {
        s
    }
}

/// `str::trim`: removes leading and trailing whitespace, whitespace being what
/// `char::is_whitespace` accepts.
#[verifier::external_body]
pub(crate) fn trim(s: &str) -> (r: &str)
    ensures
        r@ == trim_seq(s@),
{
    s.trim()
}

/// ASCII lowercase of one character; other characters are unchanged.
pub open spec fn ascii_lower_char(c: char) -> char {
    if 'A' <= c && c <= 'Z' {
        ((c as u32) + 32) as char
    } else {
        c
    }
}

/// ASCII lowercase of a string (as `str::to_ascii_lowercase`).
pub open spec fn ascii_lower(s: Seq<char>) -> Seq<char> {
    s.map_values(|c: char| ascii_lower_char(c))
}

pub fn lower_ascii_char(c: char) -> (r: char)
    ensures
        r == ascii_lower_char(c),
{
    if 'A' <= c && c <= 'Z' {
        let u: u32 = (c as u32) + 32;
        assert(u <= 0x7f);
        char_from_ascii(u)
    } else {
        c
    }
}

fn char_from_ascii(u: u32) -> (c: char)
    requires
        u <= 0x7f,
    ensures
        c == u as char,
{
    (u as u8) as char
}

/// `a` and `b` are equal ignoring ASCII case (as `str::eq_ignore_ascii_case`).
pub open spec fn eq_ignore_ascii_case(a: Seq<char>, b: Seq<char>) -> bool {
    ascii_lower(a) == ascii_lower(b)
}

pub fn str_eq_ignore_ascii_case(a: &str, b: &str) -> (r: bool)
    ensures
        r == eq_ignore_ascii_case(a@, b@),
{
    let x = chars_of(a);
    let y = chars_of(b);
    if x.len() != y.len() {
        proof {
            assert(ascii_lower(a@).len() != ascii_lower(b@).len());
        }
        return false;
    }
    let mut i: usize = 0;
    while i < x.len()
        invariant
            i <= x.len(),
            x@ == a@,
            y@ == b@,
            x.len() == y.len(),
            forall|j: int| 0 <= j < i ==> ascii_lower_char(x@[j]) == ascii_lower_char(y@[j]),
        decreases x.len() - i,
    {
        if lower_ascii_char(x[i]) != lower_ascii_char(y[i]) {
            proof {
                assert(ascii_lower(a@)[i as int] != ascii_lower(b@)[i as int]);
            }
            return false;
        }
        i = i + 1;
    }
    assert(ascii_lower(a@) =~= ascii_lower(b@));
    true
}

/// `s` starts with `p` (as sequences of characters).
pub open spec fn has_prefix(s: Seq<char>, p: Seq<char>) -> bool {
    p.len() <= s.len() && s.subrange(0, p.len() as int) == p
}

/// `s` ends with `p`.
pub open spec fn has_suffix(s: Seq<char>, p: Seq<char>) -> bool {
    p.len() <= s.len() && s.subrange(s.len() - p.len(), s.len() as int) == p
}

/// `n` occurs in `h` as a contiguous run (as `str::contains` with a string pattern).
pub open spec fn has_infix(h: Seq<char>, n: Seq<char>) -> bool {
    exists|i: int| 0 <= i <= h.len() - n.len() && #[trigger] h.subrange(i, i + n.len()) == n
}

/// Whether `h[at..]` begins with `n`.
pub fn seq_matches_at(h: &Vec<char>, n: &Vec<char>, at: usize) -> (r: bool)
    requires
        at + n.len() <= h.len(),
    ensures
        r == (h@.subrange(at as int, at + n.len()) == n@),
{
    let mut j: usize = 0;
    while j < n.len()
        invariant
            j <= n.len(),
            at + n.len() <= h.len(),
            forall|k: int| 0 <= k < j ==> h@[at + k] == n@[k],
        decreases n.len() - j,
    {
        if h[at + j] != n[j] {
            proof {
                assert(h@.subrange(at as int, at + n.len())[j as int] != n@[j as int]);
            }
            return false;
        }
        j = j + 1;
    }
    assert(h@.subrange(at as int, at + n.len()) =~= n@);
    true
}

pub fn starts_with_str(s: &str, p: &str) -> (r: bool)
    ensures
        r == has_prefix(s@, p@),
{
    let h = chars_of(s);
    let n = chars_of(p);
    if n.len() > h.len() {
        return false;
    }
    seq_matches_at(&h, &n, 0)
}

pub fn ends_with_str(s: &str, p: &str) -> (r: bool)
    ensures
        r == has_suffix(s@, p@),
{
    let h = chars_of(s);
    let n = chars_of(p);
    if n.len() > h.len() {
        return false;
    }
    seq_matches_at(&h, &n, h.len() - n.len())
}

pub fn contains_str(s: &str, p: &str) -> (r: bool)
    ensures
        r == has_infix(s@, p@),
{
    let h = chars_of(s);
    let n = chars_of(p);
    if n.len() > h.len() {
        return false;
    }
    let last = h.len() - n.len();
    let mut i: usize = 0;
    loop
        invariant
            h@ == s@,
            n@ == p@,
            n.len() <= h.len(),
            last == h.len() - n.len(),
            i <= last,
            forall|k: int| 0 <= k < i ==> #[trigger] h@.subrange(k, k + n.len()) != n@,
        decreases last - i,
    {
        if seq_matches_at(&h, &n, i) {
            return true;
        }
        if i == last {
            return false;
        }
        i = i + 1;
    }
}

/// Whether `c` occurs in `s`.
pub fn has_char(s: &str, c: char) -> (r: bool)
    ensures
        r == s@.contains(c),
{
    let h = chars_of(s);
    let mut i: usize = 0;
    while i < h.len()
        invariant
            h@ == s@,
            i <= h.len(),
            forall|k: int| 0 <= k < i ==> h@[k] != c,
        decreases h.len() - i,
    {
        if h[i] == c {
            return true;
        }
        i = i + 1;
    }
    false
}

/// A `String` holding exactly the characters of `v`.
pub fn string_of(v: &Vec<char>) -> (s: String)
    ensures
        s@ == v@,
{
    let mut s = String::new();
    let mut i: usize = 0;
    while i < v.len()
        invariant
            i <= v.len(),
            s@ == v@.take(i as int),
        decreases v.len() - i,
    {
        s.push(v[i]);
        assert(v@.take(i + 1) =~= v@.take(i as int).push(v@[i as int]));
        i = i + 1;
    }
    assert(v@.take(v.len() as int) =~= v@);
    s
}

} // verus!

verus! {

/// The pieces of `s` between occurrences of `c`, as `str::split` with a
/// character pattern yields them (always at least one piece).
pub open spec fn split_on(s: Seq<char>, c: char) -> Seq<Seq<char>>
    decreases s.len(),
{
    if s.len() == 0 {
        seq![Seq::<char>::empty()]
    } else {
        let r = split_on(s.drop_last(), c);
        if s.last() == c {
            r.push(Seq::<char>::empty())
        } else {
            r.update(r.len() - 1, r.last().push(s.last()))
        }
    }
}

pub proof fn lemma_split_nonempty(s: Seq<char>, c: char)
    ensures
        split_on(s, c).len() >= 1,
    decreases s.len(),
{
    if s.len() > 0 {
        lemma_split_nonempty(s.drop_last(), c);
    }
}

/// Splits `s` at every `c`.
pub fn split_char(s: &str, c: char) -> (pieces: Vec<String>)
    ensures
        pieces@.map_values(|p: String| p@) == split_on(s@, c),
{
    let v = chars_of(s);
    let mut pieces: Vec<String> = Vec::new();
    let mut cur = String::new();
    let mut i: usize = 0;
    proof {
        assert(s@.take(0) =~= Seq::<char>::empty());
    }
    while i < v.len()
        invariant
            i <= v.len(),
            v@ == s@,
            pieces@.map_values(|p: String| p@).push(cur@) == split_on(s@.take(i as int), c),
        decreases v.len() - i,
    {
        let ch = v[i];
        proof {
            assert(s@.take(i + 1).drop_last() =~= s@.take(i as int));
            assert(s@.take(i + 1).last() == ch);
            lemma_split_nonempty(s@.take(i as int), c);
        }
        if ch == c {
            let done = cur;
            pieces.push(done);
            cur = String::new();
            proof {
                assert(pieces@.map_values(|p: String| p@).push(cur@)
                    =~= split_on(s@.take(i as int), c).push(Seq::<char>::empty()));
            }
        } else {
            let ghost prev = pieces@.map_values(|p: String| p@).push(cur@);
            cur.push(ch);
            proof {
                assert(pieces@.map_values(|p: String| p@).push(cur@)
                    =~= prev.update(prev.len() - 1, prev.last().push(ch)));
            }
        }
        i = i + 1;
    }
    pieces.push(cur);
    proof {
        assert(s@.take(v.len() as int) =~= s@);
    }
    pieces
}

/// The index of the first `c` in `s` (the length of `s` when there is none).
pub open spec fn first_index(s: Seq<char>, c: char) -> int
    decreases s.len(),
{
    if s.len() == 0 {
        0
    } else if s[0] == c {
        0
    } else {
        1 + first_index(s.drop_first(), c)
    }
}

pub proof fn lemma_first_index(s: Seq<char>, c: char)
    ensures
        0 <= first_index(s, c) <= s.len(),
        first_index(s, c) < s.len() <==> s.contains(c),
        first_index(s, c) < s.len() ==> s[first_index(s, c)] == c,
        forall|k: int| 0 <= k < first_index(s, c) ==> s[k] != c,
    decreases s.len(),
{
    if s.len() > 0 && s[0] != c {
        lemma_first_index(s.drop_first(), c);
        assert forall|k: int| 0 <= k < first_index(s, c) implies s[k] != c by {
            if k > 0 {
                assert(s[k] == s.drop_first()[k - 1]);
            }
        }
        if s.contains(c) {
            let k = choose|k: int| 0 <= k < s.len() && s[k] == c;
            assert(s.drop_first()[k - 1] == c);
        }
        if s.drop_first().contains(c) {
            let k = choose|k: int| 0 <= k < s.drop_first().len() && s.drop_first()[k] == c;
            assert(s[k + 1] == c);
        }
    } else if s.len() > 0 {
        assert(s.contains(c));
    }
}

/// `str::split_once` with a character pattern: the text before and after the
/// first `c`, or `None` when `c` does not occur.
pub open spec fn split_once_spec(s: Seq<char>, c: char) -> Option<(Seq<char>, Seq<char>)> {
    if s.contains(c) {
        Some((s.take(first_index(s, c)), s.skip(first_index(s, c) + 1)))
    } else {
        None
    }
}

pub fn split_once_char(s: &str, c: char) -> (r: Option<(String, String)>)
    ensures
        match r {
            Some((a, b)) => split_once_spec(s@, c) == Some((a@, b@)),
            None => split_once_spec(s@, c) is None,
        },
{
    let v = chars_of(s);
    let mut i: usize = 0;
    proof {
        lemma_first_index(s@, c);
    }
    while i < v.len() && v[i] != c
        invariant
            i <= v.len(),
            v@ == s@,
            forall|k: int| 0 <= k < i ==> s@[k] != c,
        decreases v.len() - i,
    {
        i = i + 1;
    }
    if i == v.len() {
        proof {
            if s@.contains(c) {
                let k = choose|k: int| 0 <= k < s@.len() && s@[k] == c;
            }
        }
        return None;
    }
    proof {
        if first_index(s@, c) < i {
            assert(s@[first_index(s@, c)] == c);
        }
        if first_index(s@, c) > i {
            assert(s@[i as int] == c);
        }
    }
    let mut a = String::new();
    let mut b = String::new();
    let mut j: usize = 0;
    while j < i
        invariant
            j <= i,
            i < v.len(),
            v@ == s@,
            a@ == s@.take(j as int),
        decreases i - j,
    {
        a.push(v[j]);
        assert(s@.take(j + 1) =~= s@.take(j as int).push(v@[j as int]));
        j = j + 1;
    }
    let mut j: usize = i + 1;
    assert(s@.subrange(i + 1, i + 1) =~= Seq::<char>::empty());
    while j < v.len()
        invariant
            i < j <= v.len(),
            v@ == s@,
            b@ == s@.subrange(i + 1, j as int),
        decreases v.len() - j,
    {
        b.push(v[j]);
        assert(s@.subrange(i + 1, j + 1) =~= s@.subrange(i + 1, j as int).push(v@[j as int]));
        j = j + 1;
    }
    assert(s@.subrange(i + 1, v.len() as int) =~= s@.skip(i + 1));
    Some((a, b))
}

/// A line of `str::lines`: a piece that was followed by `\n` loses one
/// trailing `\r`.
pub open spec fn strip_cr(p: Seq<char>) -> Seq<char> {
    if p.len() > 0 && p.last() == '\r' { p.drop_last() } else { p }
}

/// `str::lines`: the text split at `\n`; every line that ended in `\n` loses a
/// trailing `\r`; a final empty piece (text ending in `\n`, or empty text) is
/// not a line.
pub open spec fn lines_spec(s: Seq<char>) -> Seq<Seq<char>> {
    let p = split_on(s, '\n');
    let ended = p.drop_last().map_values(|x: Seq<char>| strip_cr(x));
    if p.last().len() == 0 { ended } else { ended.push(p.last()) }
}

pub fn lines(s: &str) -> (out: Vec<String>)
    ensures
        out@.map_values(|p: String| p@) == lines_spec(s@),
{
    let pieces = split_char(s, '\n');
    let ghost p = pieces@.map_values(|x: String| x@);
    proof {
        lemma_split_nonempty(s@, '\n');
    }
    let n = pieces.len();
    let mut out: Vec<String> = Vec::new();
    let mut i: usize = 0;
    while i + 1 < n
        invariant
            n == pieces.len(),
            n >= 1,
            i + 1 <= n,
            p == pieces@.map_values(|x: String| x@),
            p == split_on(s@, '\n'),
            out@.map_values(|x: String| x@) == p.take(i as int).map_values(|x: Seq<char>| strip_cr(x)),
        decreases n - i,
    {
        let line = strip_trailing_cr(&pieces[i]);
        let ghost old_out = out@.map_values(|x: String| x@);
        out.push(line);
        proof {
            assert(p[i as int] == pieces@[i as int]@);
            assert(out@.map_values(|x: String| x@) =~= old_out.push(strip_cr(p[i as int])));
            assert(p.take(i + 1) =~= p.take(i as int).push(p[i as int]));
            assert(out@.map_values(|x: String| x@) =~= p.take(i + 1).map_values(|x: Seq<char>| strip_cr(x)));
        }
        i = i + 1;
    }
    proof {
        assert(p.take(i as int) =~= p.drop_last());
    }
    let last = &pieces[n - 1];
    if last.as_str().unicode_len() > 0 {
        out.push(last.clone());
        proof {
            assert(out@.map_values(|x: String| x@) =~= lines_spec(s@));
        }
    }
    out
}

fn strip_trailing_cr(s: &String) -> (r: String)
    ensures
        r@ == strip_cr(s@),
{
    let v = chars_of(s.as_str());
    if v.len() > 0 && v[v.len() - 1] == '\r' {
        let mut r = String::new();
        let mut i: usize = 0;
        while i + 1 < v.len()
            invariant
                v@ == s@,
                v.len() > 0,
                i + 1 <= v.len(),
                r@ == s@.take(i as int),
            decreases v.len() - i,
        {
            r.push(v[i]);
            assert(s@.take(i + 1) =~= s@.take(i as int).push(v@[i as int]));
            i = i + 1;
        }
        assert(s@.take(i as int) =~= s@.drop_last());
        r
    } else {
        s.clone()
    }
}

/// The pieces joined with `sep` between consecutive pieces.
pub open spec fn join_with(pieces: Seq<Seq<char>>, sep: Seq<char>) -> Seq<char>
    decreases pieces.len(),
{
    if pieces.len() == 0 {
        Seq::empty()
    } else if pieces.len() == 1 {
        pieces[0]
    } else {
        join_with(pieces.drop_last(), sep) + sep + pieces.last()
    }
}

/// `[T]::join` on strings.
pub fn join_strings(pieces: &Vec<String>, sep: &str) -> (r: String)
    ensures
        r@ == join_with(pieces@.map_values(|p: String| p@), sep@),
{
    let ghost ps = pieces@.map_values(|p: String| p@);
    let mut r = String::new();
    let mut i: usize = 0;
    while i < pieces.len()
        invariant
            i <= pieces.len(),
            ps == pieces@.map_values(|p: String| p@),
            r@ == join_with(ps.take(i as int), sep@),
        decreases pieces.len() - i,
    {
        if i > 0 {
            r.append(sep);
        }
        r.append(pieces[i].as_str());
        proof {
            assert(ps.take(i + 1).drop_last() =~= ps.take(i as int));
            if i == 0 {
                assert(ps.take(1) =~= seq![ps[0]]);
            }
        }
        i = i + 1;
    }
    assert(ps.take(pieces.len() as int) =~= ps);
    r
}

} // verus!

verus! {

/// Trimming only removes characters; keeping the length keeps the text.
pub proof fn lemma_trim_len(s: Seq<char>)
    ensures
        trim_seq(s).len() <= s.len(),
        trim_seq(s).len() == s.len() ==> trim_seq(s) == s,
    decreases s.len(),
{
    if s.len() > 0 && is_ws(s[0]) {
        lemma_trim_len(s.drop_first());
    } else if s.len() > 0 && is_ws(s.last()) {
        lemma_trim_len(s.drop_last());
    }
}

} // verus!

verus! {

/// An ASCII decimal digit.
pub open spec fn is_digit(c: char) -> bool {
    '0' <= c && c <= '9'
}

/// The value of an ASCII decimal digit.
pub open spec fn digit_val(c: char) -> nat {
    ((c as u32) - ('0' as u32)) as nat
}

/// The value of a run of decimal digits.
pub open spec fn digits_value(s: Seq<char>) -> nat
    decreases s.len(),
{
    if s.len() == 0 {
        0
    } else {
        digits_value(s.drop_last()) * 10 + digit_val(s.last())
    }
}

pub open spec fn all_digits(s: Seq<char>) -> bool {
    forall|i: int| 0 <= i < s.len() ==> is_digit(#[trigger] s[i])
}

/// `i64::from_str`: an optional `+` or `-`, then one or more ASCII digits,
/// whose value must fit in an `i64`.
pub open spec fn parse_i64_spec(s: Seq<char>) -> Option<i64> {
    if s.len() == 0 {
        None
    } else {
        let ds = if s[0] == '-' || s[0] == '+' { s.drop_first() } else { s };
        if ds.len() == 0 || !all_digits(ds) {
            None
        } else if s[0] == '-' {
            if digits_value(ds) <= 0x8000_0000_0000_0000 {
                Some((-(digits_value(ds) as int)) as i64)
            } else {
                None
            }
        } else if digits_value(ds) <= 0x7fff_ffff_ffff_ffff {
            Some(digits_value(ds) as i64)
        } else {
            None
        }
    }
}

proof fn lemma_digits_value_grows(s: Seq<char>, i: int)
    requires
        0 <= i <= s.len(),
        all_digits(s),
    ensures
        digits_value(s.take(i)) <= digits_value(s),
    decreases s.len() - i,
{
    if i < s.len() {
        lemma_digits_value_grows(s, i + 1);
        assert(s.take(i + 1).drop_last() =~= s.take(i));
        assert(is_digit(s[i]));
    } else {
        assert(s.take(i) =~= s);
    }
}

/// Parses a decimal `i64` as `str::parse::<i64>` does.
pub fn parse_i64(s: &str) -> (r: Option<i64>)
    ensures
        r == parse_i64_spec(s@),
{
    let v = chars_of(s);
    if v.len() == 0 {
        return None;
    }
    let neg = v[0] == '-';
    let start: usize = if v[0] == '-' || v[0] == '+' { 1 } else { 0 };
    let ghost ds = if s@[0] == '-' || s@[0] == '+' { s@.drop_first() } else { s@ };
    proof {
        assert(ds =~= s@.skip(start as int));
    }
    if start == v.len() {
        return None;
    }
    let limit: u64 = 0x8000_0000_0000_0000;
    let mut acc: u64 = 0;
    let mut i: usize = start;
    proof {
        assert(ds.take(0) =~= Seq::<char>::empty());
    }
    while i < v.len()
        invariant
            start <= i <= v.len(),
            start < v.len(),
            v@ == s@,
            ds == s@.skip(start as int),
            ds == (if s@[0] == '-' || s@[0] == '+' { s@.drop_first() } else { s@ }),
            neg == (s@[0] == '-'),
            acc as nat == digits_value(ds.take(i - start)),
            acc <= limit,
            all_digits(ds.take(i - start)),
            limit == 0x8000_0000_0000_0000u64,
        decreases v.len() - i,
    {
        let c = v[i];
        assert(ds[i - start] == c);
        if !('0' <= c && c <= '9') {
            proof {
                assert(!is_digit(ds[i - start]));
                assert(!all_digits(ds));
                assert(ds.len() > 0);
                assert(parse_i64_spec(s@) is None);
            }
            return None;
        }
        let d = (c as u32 - '0' as u32) as u64;
        assert(d as nat == digit_val(c));
        proof {
            assert(ds.take(i - start + 1).drop_last() =~= ds.take(i - start));
            assert(ds.take(i - start + 1).last() == c);
        }
        proof {
            assert(digits_value(ds.take(i - start + 1)) == acc * 10 + d);
        }
        if acc > (limit - d) / 10 {
            proof {
                assert(acc * 10 + d > limit) by (nonlinear_arith)
                    requires acc > (limit - d) / 10, d <= 9, limit >= 9;
                let rest_ok = all_digits(ds);
                if rest_ok {
                    lemma_digits_value_grows(ds, i - start + 1);
                }
            }
            return None;
        }
        proof {
            assert(acc * 10 + d <= limit) by (nonlinear_arith)
                requires acc <= (limit - d) / 10, d <= 9, limit >= 9;
        }
        acc = acc * 10 + d;
        proof {
            assert forall|k: int| 0 <= k < ds.take(i - start + 1).len() implies is_digit(#[trigger] ds.take(i - start + 1)[k]) by {
                if k < i - start {
                    assert(ds.take(i - start + 1)[k] == ds.take(i - start)[k]);
                }
            }
        }
        i = i + 1;
    }
    proof {
        assert(ds.take(i - start) =~= ds);
    }
    if neg {
        if acc == limit {
            Some(i64::MIN)
        } else {
            Some(-(acc as i64))
        }
    } else if acc <= 0x7fff_ffff_ffff_ffff {
        Some(acc as i64)
    } else {
        None
    }
}

pub proof fn lemma_nat_decimal_digits(n: nat)
    ensures
        all_digits(nat_decimal(n)),
        nat_decimal(n).len() > 0,
        digits_value(nat_decimal(n)) == n,
    decreases n,
{
    if n >= 10 {
        lemma_nat_decimal_digits(n / 10);
        let s = nat_decimal(n);
        assert(s.drop_last() =~= nat_decimal(n / 10));
        assert forall|i: int| 0 <= i < s.len() implies is_digit(#[trigger] s[i]) by {
            if i < s.len() - 1 {
                assert(s[i] == nat_decimal(n / 10)[i]);
            }
        }
        assert(digit_val(digit_char((n % 10) as int)) == n % 10);
        assert(s.last() == digit_char((n % 10) as int));
        assert(n == (n / 10) * 10 + n % 10);
        assert(digits_value(s) == digits_value(s.drop_last()) * 10 + digit_val(s.last()));
        assert(digits_value(s.drop_last()) == n / 10);
    } else {
        assert(digit_val(digit_char(n as int)) == n);
        let s = nat_decimal(n);
        assert(s.drop_last() =~= Seq::<char>::empty());
        assert(digits_value(s.drop_last()) == 0);
        assert(s.last() == digit_char(n as int));
        assert(digits_value(s) == digits_value(s.drop_last()) * 10 + digit_val(s.last()));
    }
}

/// Formatting an `i64` in decimal and parsing it back gives the same number.
pub proof fn lemma_parse_int_decimal(i: i64)
    ensures
        parse_i64_spec(int_decimal(i as int)) == Some(i),
{
    if i < 0 {
        let m = (-(i as int)) as nat;
        lemma_nat_decimal_digits(m);
        let s = int_decimal(i as int);
        assert(s.drop_first() =~= nat_decimal(m));
        assert(s[0] == '-');
    } else {
        lemma_nat_decimal_digits(i as nat);
        let s = nat_decimal(i as nat);
        assert(is_digit(s[0]));
    }
}

} // verus!

verus! {

/// Appending text without `c` extends the last piece.
pub proof fn lemma_split_extend(s: Seq<char>, x: Seq<char>, c: char)
    requires
        !x.contains(c),
    ensures
        split_on(s + x, c) == split_on(s, c).update(split_on(s, c).len() - 1, split_on(s, c).last() + x),
    decreases x.len(),
{
    lemma_split_nonempty(s, c);
    if x.len() == 0 {
        assert(s + x =~= s);
        assert(split_on(s, c).last() + x =~= split_on(s, c).last());
        assert(split_on(s, c).update(split_on(s, c).len() - 1, split_on(s, c).last()) =~= split_on(s, c));
    } else {
        let y = x.drop_last();
        assert(!y.contains(c)) by {
            if y.contains(c) {
                let k = choose|k: int| 0 <= k < y.len() && y[k] == c;
                assert(x[k] == c);
            }
        }
        assert(x.last() != c) by {
            assert(x[x.len() - 1] == x.last());
        }
        lemma_split_extend(s, y, c);
        assert((s + x).drop_last() =~= s + y);
        assert((s + x).last() == x.last());
        lemma_split_nonempty(s + y, c);
        let r = split_on(s, c);
        let ry = split_on(s + y, c);
        assert(ry == r.update(r.len() - 1, r.last() + y));
        assert(ry.len() == r.len());
        assert(ry.last() == r.last() + y);
        assert(split_on(s + x, c) == ry.update(ry.len() - 1, ry.last().push(x.last())));
        assert((r.last() + y).push(x.last()) =~= r.last() + x);
        assert(split_on(s + x, c) =~= r.update(r.len() - 1, r.last() + x));
    }
}

/// The pieces of lines joined with `\n` are the lines.
pub proof fn lemma_split_join(m: Seq<Seq<char>>)
    requires
        m.len() > 0,
        forall|i: int| 0 <= i < m.len() ==> !(#[trigger] m[i]).contains('\n'),
    ensures
        split_on(join_with(m, seq!['\n']), '\n') == m,
    decreases m.len(),
{
    if m.len() == 1 {
        lemma_split_extend(Seq::<char>::empty(), m[0], '\n');
        assert(Seq::<char>::empty() + m[0] =~= m[0]);
        assert(split_on(Seq::<char>::empty(), '\n') =~= seq![Seq::<char>::empty()]);
        assert(seq![Seq::<char>::empty()].update(0, Seq::<char>::empty() + m[0]) =~= m);
    } else {
        let p = m.drop_last();
        assert forall|i: int| 0 <= i < p.len() implies !(#[trigger] p[i]).contains('\n') by {
            assert(p[i] == m[i]);
        }
        lemma_split_join(p);
        let jp = join_with(p, seq!['\n']);
        assert(join_with(m, seq!['\n']) == jp + seq!['\n'] + m.last());
        assert((jp + seq!['\n']).drop_last() =~= jp);
        assert(split_on(jp + seq!['\n'], '\n') == split_on(jp, '\n').push(Seq::<char>::empty()));
        assert(!m.last().contains('\n')) by {
            assert(m[m.len() - 1] == m.last());
        }
        lemma_split_extend(jp + seq!['\n'], m.last(), '\n');
        assert(Seq::<char>::empty() + m.last() =~= m.last());
        assert(p.push(Seq::<char>::empty()).update(p.len() as int, m.last()) =~= m);
    }
}

/// The lines of text written as lines joined with `\n` plus a final `\n` are
/// those lines, each without one trailing `\r`.
pub proof fn lemma_lines_of_joined(m: Seq<Seq<char>>)
    requires
        m.len() > 0,
        forall|i: int| 0 <= i < m.len() ==> !(#[trigger] m[i]).contains('\n'),
    ensures
        lines_spec(join_with(m, seq!['\n']) + seq!['\n']) == m.map_values(|x: Seq<char>| strip_cr(x)),
{
    lemma_split_join(m);
    let j = join_with(m, seq!['\n']);
    assert((j + seq!['\n']).drop_last() =~= j);
    assert(split_on(j + seq!['\n'], '\n') == m.push(Seq::<char>::empty()));
    assert(m.push(Seq::<char>::empty()).drop_last() =~= m);
}

/// Trailing whitespace does not change the trimmed text.
pub proof fn lemma_trim_drop_last_ws(s: Seq<char>)
    requires
        s.len() > 0,
        is_ws(s.last()),
    ensures
        trim_seq(s) == trim_seq(s.drop_last()),
    decreases s.len(),
{
    if is_ws(s[0]) {
        if s.len() == 1 {
            assert(s.drop_first() =~= s.drop_last());
        } else {
            let d = s.drop_first();
            assert(d.last() == s.last());
            lemma_trim_drop_last_ws(d);
            assert(d.drop_last() =~= s.drop_last().drop_first());
            assert(s.drop_last()[0] == s[0]);
        }
    }
}

/// A line of `str::lines` trims like the piece it came from.
pub proof fn lemma_trim_strip_cr(s: Seq<char>)
    ensures
        trim_seq(strip_cr(s)) == trim_seq(s),
{
    if s.len() > 0 && s.last() == '\r' {
        assert(is_ws('\r'));
        lemma_trim_drop_last_ws(s);
    }
}

/// Text that neither starts nor ends with whitespace is its own trim.
pub proof fn lemma_trim_noop(s: Seq<char>)
    requires
        s.len() > 0 ==> !is_ws(s[0]) && !is_ws(s.last()),
    ensures
        trim_seq(s) == s,
{
}

/// A trimmed non-empty text neither starts nor ends with whitespace.
pub proof fn lemma_trimmed_ends(s: Seq<char>)
    requires
        trim_seq(s) == s,
        s.len() > 0,
    ensures
        !is_ws(s[0]),
        !is_ws(s.last()),
{
    if is_ws(s[0]) {
        lemma_trim_len(s.drop_first());
    } else if is_ws(s.last()) {
        lemma_trim_len(s.drop_last());
    }
}

/// No piece contains the separator.
pub proof fn lemma_split_pieces(s: Seq<char>, c: char)
    ensures
        forall|i: int| 0 <= i < split_on(s, c).len() ==> !(#[trigger] split_on(s, c)[i]).contains(c),
    decreases s.len(),
{
    lemma_split_nonempty(s, c);
    if s.len() > 0 {
        lemma_split_pieces(s.drop_last(), c);
        lemma_split_nonempty(s.drop_last(), c);
        let r = split_on(s.drop_last(), c);
        assert forall|i: int| 0 <= i < split_on(s, c).len() implies !(#[trigger] split_on(s, c)[i]).contains(c) by {
            if s.last() != c && i == r.len() - 1 {
                let piece = r.last().push(s.last());
                assert(split_on(s, c)[i] == piece);
                if piece.contains(c) {
                    let k = choose|k: int| 0 <= k < piece.len() && piece[k] == c;
                    if k < r.last().len() {
                        assert(r.last()[k] == c);
                        assert(r[r.len() - 1] == r.last());
                    }
                }
            } else if s.last() == c && i == r.len() {
                assert(split_on(s, c)[i] =~= Seq::<char>::empty());
            } else {
                assert(split_on(s, c)[i] == r[i]);
            }
        }
    }
}

/// No line contains a newline.
pub proof fn lemma_lines_no_newline(s: Seq<char>)
    ensures
        forall|i: int| 0 <= i < lines_spec(s).len() ==> !(#[trigger] lines_spec(s)[i]).contains('\n'),
{
    lemma_split_pieces(s, '\n');
    lemma_split_nonempty(s, '\n');
    let p = split_on(s, '\n');
    assert forall|i: int| 0 <= i < lines_spec(s).len() implies !(#[trigger] lines_spec(s)[i]).contains('\n') by {
        if i < p.len() - 1 {
            let x = p[i];
            assert(lines_spec(s)[i] == strip_cr(x));
            if strip_cr(x).contains('\n') {
                let k = choose|k: int| 0 <= k < strip_cr(x).len() && strip_cr(x)[k] == '\n';
                assert(x[k] == '\n');
            }
        } else {
            assert(lines_spec(s)[i] == p.last());
            assert(p[p.len() - 1] == p.last());
        }
    }
}

} // verus!
