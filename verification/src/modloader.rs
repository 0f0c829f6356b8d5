use vstd::prelude::*;
use crate::meta::{ModMeta, modloader_folder_ok, valid_modloader_folder};
use crate::paths::{join, join_path};
use crate::text::{
    chars_of, eq_ignore_ascii_case, first_index, lemma_first_index, lines, lines_spec, parse_i64,
    parse_i64_spec, split_once_char, split_once_spec, str_eq_ignore_ascii_case, trim, trim_seq,
};

verus! {

/// `<upper>/modloader/modloader.ini` for a profile's upper directory.
pub fn ini_path(upper: &str) -> (p: String)
    ensures
        p@ == join_path(join_path(upper@, "modloader"@), "modloader.ini"@),
{
    let dir = join(upper, "modloader");
    join(dir.as_str(), "modloader.ini")
}

/// Text before a Mod Loader `;` comment.
pub open spec fn before_comment(line: Seq<char>) -> Seq<char> {
    line.take(first_index(line, ';'))
}

/// Text before a Mod Loader `;` comment.
pub fn strip_comment(line: &str) -> (r: String)
    ensures
        r@ == before_comment(line@),
{
    let v = chars_of(line);
    proof {
        lemma_first_index(line@, ';');
    }
    let mut r = String::new();
    let mut i: usize = 0;
    while i < v.len() && v[i] != ';'
        invariant
            i <= v.len(),
            v@ == line@,
            r@ == line@.take(i as int),
            forall|k: int| 0 <= k < i ==> line@[k] != ';',
        decreases v.len() - i,
    {
        r.push(v[i]);
        assert(line@.take(i + 1) =~= line@.take(i as int).push(v@[i as int]));
        i = i + 1;
    }
    proof {
        let fi = first_index(line@, ';');
        if fi < i {
            assert(line@[fi] == ';');
        }
        if i < v.len() && fi > i {
            assert(line@[i as int] == ';');
        }
        if i == v.len() && fi < line@.len() {
            assert(line@[fi] == ';');
        }
    }
    r
}

/// `s` without its leading and trailing `"` (as `trim_matches('"')`).
pub open spec fn trim_quotes(s: Seq<char>) -> Seq<char>
    decreases s.len(),
{
    if s.len() > 0 && s[0] == '"' {
        trim_quotes(s.drop_first())
    } else if s.len() > 0 && s.last() == '"' {
        trim_quotes(s.drop_last())
    } else {
        s
    }
}

pub fn trim_quotes_exec(s: &str) -> (r: String)
    ensures
        r@ == trim_quotes(s@),
{
    let v = chars_of(s);
    let mut a: usize = 0;
    let mut b: usize = v.len();
    proof {
        assert(s@.subrange(0, v.len() as int) =~= s@);
    }
    while a < b && v[a] == '"'
        invariant
            a <= b <= v.len(),
            b == v.len(),
            v@ == s@,
            trim_quotes(s@) == trim_quotes(s@.subrange(a as int, b as int)),
        decreases b - a,
    {
        proof {
            assert(s@.subrange(a as int, b as int).drop_first() =~= s@.subrange(a + 1, b as int));
        }
        a = a + 1;
    }
    while a < b && v[b - 1] == '"'
        invariant
            a <= b <= v.len(),
            v@ == s@,
            a == b || v@[a as int] != '"',
            trim_quotes(s@) == trim_quotes(s@.subrange(a as int, b as int)),
        decreases b - a,
    {
        proof {
            let t = s@.subrange(a as int, b as int);
            assert(t[0] == v@[a as int]);
            assert(t.drop_last() =~= s@.subrange(a as int, b - 1));
            if b - 1 > a {
                assert(s@.subrange(a as int, b - 1)[0] == v@[a as int]);
            }
        }
        b = b - 1;
    }
    proof {
        let t = s@.subrange(a as int, b as int);
        if a < b {
            assert(t[0] == v@[a as int]);
            assert(t.last() == v@[b - 1]);
        }
    }
    let mut r = String::new();
    let mut i: usize = a;
    while i < b
        invariant
            a <= i <= b <= v.len(),
            v@ == s@,
            r@ == s@.subrange(a as int, i as int),
        decreases b - i,
    {
        r.push(v[i]);
        assert(s@.subrange(a as int, i + 1) =~= s@.subrange(a as int, i as int).push(v@[i as int]));
        i = i + 1;
    }
    r
}

/// A trimmed line that opens a section.
pub open spec fn is_header(t: Seq<char>) -> bool {
    t.len() > 0 && t[0] == '['
}

/// The value of a `Profile = X` line (trimmed, quotes removed), when it has
/// one that is not empty.
pub open spec fn profile_value(t: Seq<char>) -> Option<Seq<char>> {
    match split_once_spec(before_comment(t), '=') {
        Some((k, v)) => {
            let val = trim_seq(trim_quotes(trim_seq(v)));
            if eq_ignore_ascii_case(trim_seq(k), "Profile"@) && val.len() > 0 {
                Some(val)
            } else {
                None
            }
        },
        None => None,
    }
}

/// The first usable `Profile` value inside a `[Folder.Config]` section.
pub open spec fn config_scan(ls: Seq<Seq<char>>, in_section: bool) -> Option<Seq<char>>
    decreases ls.len(),
{
    if ls.len() == 0 {
        None
    } else {
        let t = trim_seq(ls[0]);
        if is_header(t) {
            config_scan(ls.drop_first(), eq_ignore_ascii_case(t, "[Folder.Config]"@))
        } else if in_section && profile_value(t) is Some {
            profile_value(t)
        } else {
            config_scan(ls.drop_first(), in_section)
        }
    }
}

fn profile_value_exec(t: &str) -> (r: Option<String>)
    ensures
        (match r { Some(v) => Some(v@), None => None }) == profile_value(t@),
{
    let sc = strip_comment(t);
    match split_once_char(sc.as_str(), '=') {
        Some((k, v)) => {
            let kt = trim(k.as_str());
            if !str_eq_ignore_ascii_case(kt, "Profile") {
                return None;
            }
            let q = trim_quotes_exec(trim(v.as_str()));
            let val = trim(q.as_str());
            if val.unicode_len() > 0 {
                Some(val.to_owned())
            } else {
                None
            }
        },
        None => None,
    }
}

/// The views of some strings.
pub open spec fn views(s: Seq<String>) -> Seq<Seq<char>> {
    s.map_values(|x: String| x@)
}

/// Name of the profile configured in `[Folder.Config]` (`Profile = X`).
pub fn configured_profile(content: &str) -> (r: Option<String>)
    ensures
        (match r { Some(v) => Some(v@), None => None }) == config_scan(lines_spec(content@), false),
{
    let ls = lines(content);
    let ghost lv = views(ls@);
    let mut in_section = false;
    let mut i: usize = 0;
    proof {
        assert(lv.skip(0) =~= lv);
    }
    while i < ls.len()
        invariant
            i <= ls.len(),
            lv == views(ls@),
            lv == lines_spec(content@),
            config_scan(lv, false) == config_scan(lv.skip(i as int), in_section),
        decreases ls.len() - i,
    {
        let t = trim(ls[i].as_str());
        proof {
            assert(lv.skip(i as int)[0] == ls@[i as int]@);
            assert(lv.skip(i as int).drop_first() =~= lv.skip(i + 1));
        }
        let tv = chars_of(t);
        if tv.len() > 0 && tv[0] == '[' {
            in_section = str_eq_ignore_ascii_case(t, "[Folder.Config]");
        } else if in_section {
            let pv = profile_value_exec(t);
            if pv.is_some() {
                return pv;
            }
        }
        i = i + 1;
    }
    None
}

/// `[Profiles.<profile>.Priority]`
pub open spec fn target_header(profile: Seq<char>) -> Seq<char> {
    "[Profiles."@ + profile + ".Priority]"@
}

fn target_header_exec(profile: &str) -> (r: String)
    ensures
        r@ == target_header(profile@),
{
    let mut r = String::from_str("[Profiles.");
    r.append(profile);
    r.append(".Priority]");
    r
}

/// A `name = priority` entry of a trimmed line, with both sides trimmed; the
/// priority must parse as an `i64`.
pub open spec fn entry_of(t: Seq<char>) -> Option<(Seq<char>, i64)> {
    match split_once_spec(before_comment(t), '=') {
        Some((k, v)) => match parse_i64_spec(trim_seq(v)) {
            Some(p) => Some((trim_seq(k), p)),
            None => None,
        },
        None => None,
    }
}

/// The entries of the target sections, in order.
pub open spec fn priority_scan(ls: Seq<Seq<char>>, in_target: bool, target: Seq<char>) -> Seq<(Seq<char>, i64)>
    decreases ls.len(),
{
    if ls.len() == 0 {
        Seq::empty()
    } else {
        let t = trim_seq(ls[0]);
        if is_header(t) {
            priority_scan(ls.drop_first(), eq_ignore_ascii_case(t, target), target)
        } else if in_target && entry_of(t) is Some {
            seq![entry_of(t)->0] + priority_scan(ls.drop_first(), in_target, target)
        } else {
            priority_scan(ls.drop_first(), in_target, target)
        }
    }
}

fn entry_exec(t: &str) -> (r: Option<(String, i64)>)
    ensures
        (match r { Some((k, p)) => Some((k@, p)), None => None }) == entry_of(t@),
{
    let sc = strip_comment(t);
    match split_once_char(sc.as_str(), '=') {
        Some((k, v)) => match parse_i64(trim(v.as_str())) {
            Some(p) => Some((trim(k.as_str()).to_owned(), p)),
            None => None,
        },
        None => None,
    }
}

/// Entries as plain values.
pub open spec fn entry_views(s: Seq<(String, i64)>) -> Seq<(Seq<char>, i64)> {
    s.map_values(|e: (String, i64)| (e.0@, e.1))
}

/// Reads the `[Profiles.<profile>.Priority]` entries from an ini.
pub fn read_priorities(content: &str, profile: &str) -> (out: Vec<(String, i64)>)
    ensures
        entry_views(out@) == priority_scan(lines_spec(content@), false, target_header(profile@)),
{
    let target = target_header_exec(profile);
    let ls = lines(content);
    let ghost lv = views(ls@);
    let ghost tg = target@;
    let mut out: Vec<(String, i64)> = Vec::new();
    let mut in_target = false;
    let mut i: usize = 0;
    proof {
        assert(lv.skip(0) =~= lv);
        assert(entry_views(out@) + priority_scan(lv.skip(0), in_target, tg) =~= priority_scan(lv, false, tg));
    }
    while i < ls.len()
        invariant
            i <= ls.len(),
            lv == views(ls@),
            lv == lines_spec(content@),
            tg == target@,
            entry_views(out@) + priority_scan(lv.skip(i as int), in_target, tg) == priority_scan(lv, false, tg),
        decreases ls.len() - i,
    {
        let t = trim(ls[i].as_str());
        proof {
            assert(lv.skip(i as int)[0] == ls@[i as int]@);
            assert(lv.skip(i as int).drop_first() =~= lv.skip(i + 1));
        }
        let tv = chars_of(t);
        if tv.len() > 0 && tv[0] == '[' {
            in_target = str_eq_ignore_ascii_case(t, target.as_str());
        } else if in_target {
            match entry_exec(t) {
                Some(e) => {
                    let ghost prev = entry_views(out@);
                    let ghost ev = (e.0@, e.1);
                    out.push(e);
                    proof {
                        assert(entry_views(out@) =~= prev.push(ev));
                        assert(prev.push(ev) + priority_scan(lv.skip(i + 1), in_target, tg)
                            =~= prev + (seq![ev] + priority_scan(lv.skip(i + 1), in_target, tg)));
                    }
                },
                None => {},
            }
        }
        i = i + 1;
    }
    proof {
        assert(lv.skip(ls.len() as int) =~= Seq::<Seq<char>>::empty());
        assert(entry_views(out@) + Seq::<(Seq<char>, i64)>::empty() =~= entry_views(out@));
    }
    out
}

/// A line kept when a priority section is rewritten: blank or a comment.
pub open spec fn kept_line(l: Seq<char>) -> bool {
    let nt = trim_seq(l);
    nt.len() == 0 || nt[0] == ';' || nt[0] == '#'
}

/// The kept lines of a section body, in order.
pub open spec fn kept(ls: Seq<Seq<char>>) -> Seq<Seq<char>>
    decreases ls.len(),
{
    if ls.len() == 0 {
        ls
    } else if kept_line(ls.last()) {
        kept(ls.drop_last()).push(ls.last())
    } else {
        kept(ls.drop_last())
    }
}

/// How many lines of `ls` come before the next section header.
pub open spec fn body_len(ls: Seq<Seq<char>>) -> nat
    decreases ls.len(),
{
    if ls.len() == 0 || is_header(trim_seq(ls[0])) {
        0
    } else {
        1 + body_len(ls.drop_first())
    }
}

pub proof fn lemma_body_len_bound(ls: Seq<Seq<char>>)
    ensures
        body_len(ls) <= ls.len(),
    decreases ls.len(),
{
    if ls.len() > 0 && !is_header(trim_seq(ls[0])) {
        lemma_body_len_bound(ls.drop_first());
    }
}

proof fn lemma_body_len(ls: Seq<Seq<char>>, n: int)
    requires
        0 <= n <= ls.len(),
        forall|k: int| 0 <= k < n ==> !is_header(trim_seq(#[trigger] ls[k])),
        n == ls.len() || is_header(trim_seq(ls[n])),
    ensures
        body_len(ls) == n,
    decreases n,
{
    if n > 0 {
        assert(!is_header(trim_seq(ls[0])));
        let d = ls.drop_first();
        assert forall|k: int| 0 <= k < n - 1 implies !is_header(trim_seq(#[trigger] d[k])) by {
            assert(d[k] == ls[k + 1]);
        }
        if n < ls.len() {
            assert(d[n - 1] == ls[n]);
        }
        lemma_body_len(d, n - 1);
    }
}

/// `name=priority`
pub open spec fn entry_line(e: (Seq<char>, i64)) -> Seq<char> {
    e.0 + "="@ + crate::text::int_decimal(e.1 as int)
}

/// The comment written under a new priority section.
pub open spec fn priority_hint() -> Seq<char> {
    "; Higher values override lower ones (default 50)."@
}

/// The lines with every target section's entries replaced by `el` (its blank
/// and comment lines kept), and whether a target section was found.
pub open spec fn merge_scan(ls: Seq<Seq<char>>, target: Seq<char>, el: Seq<Seq<char>>) -> (Seq<Seq<char>>, bool)
    decreases ls.len(),
{
    if ls.len() == 0 {
        (Seq::empty(), false)
    } else {
        let t = trim_seq(ls[0]);
        let rest = ls.drop_first();
        if is_header(t) && eq_ignore_ascii_case(t, target) {
            proof {
                lemma_body_len_bound(rest);
            }
            let n = body_len(rest) as int;
            (seq![ls[0]] + kept(rest.take(n)) + el + merge_scan(rest.skip(n), target, el).0, true)
        } else {
            let r = merge_scan(rest, target, el);
            (seq![ls[0]] + r.0, r.1)
        }
    }
}

/// The lines of the merged file: the target sections rewritten, or, when
/// there is none, a new section (after a blank line when the text does not end
/// in one) with a hint comment and the entries.
pub open spec fn merged_lines(content: Seq<char>, profile: Seq<char>, entries: Seq<(Seq<char>, i64)>) -> Seq<Seq<char>> {
    let target = target_header(profile);
    let el = entries.map_values(|e: (Seq<char>, i64)| entry_line(e));
    let r = merge_scan(lines_spec(content), target, el);
    if r.1 {
        r.0
    } else {
        let out = r.0;
        let pad = if out.len() > 0 && trim_seq(out.last()).len() > 0 {
            seq![Seq::<char>::empty()]
        } else {
            Seq::<Seq<char>>::empty()
        };
        out + pad + seq![target, priority_hint()] + el
    }
}

fn entry_line_exec(e: &(String, i64)) -> (r: String)
    ensures
        r@ == entry_line((e.0@, e.1)),
{
    let mut r = e.0.clone();
    r.push('=');
    crate::text::push_int_decimal(&mut r, e.1);
    proof {
        reveal_strlit("=");
        assert(r@ =~= entry_line((e.0@, e.1)));
    }
    r
}

fn kept_line_exec(l: &str) -> (r: bool)
    ensures
        r == kept_line(l@),
{
    let t = chars_of(trim(l));
    t.len() == 0 || t[0] == ';' || t[0] == '#'
}

fn is_header_exec(l: &str) -> (r: bool)
    ensures
        r == is_header(trim_seq(l@)),
{
    let t = chars_of(trim(l));
    t.len() > 0 && t[0] == '['
}

/// Returns `content` with the priority entries of `profile` replaced by
/// `entries`, keeping comments and every other section intact.
pub fn merge_priority(content: &str, profile: &str, entries: &Vec<(String, i64)>) -> (r: String)
    ensures
        r@ == crate::text::join_with(merged_lines(content@, profile@, entry_views(entries@)), "\n"@) + "\n"@,
{
    let target = target_header_exec(profile);
    let ghost tg = target@;
    let ghost ev = entry_views(entries@);
    let mut el: Vec<String> = Vec::new();
    let mut e: usize = 0;
    while e < entries.len()
        invariant
            e <= entries.len(),
            ev == entry_views(entries@),
            views(el@) == ev.take(e as int).map_values(|x: (Seq<char>, i64)| entry_line(x)),
        decreases entries.len() - e,
    {
        let line = entry_line_exec(&entries[e]);
        let ghost prev = views(el@);
        el.push(line);
        proof {
            assert(ev.take(e + 1) =~= ev.take(e as int).push(ev[e as int]));
            assert(views(el@) =~= prev.push(entry_line(ev[e as int])));
            assert(views(el@) =~= ev.take(e + 1).map_values(|x: (Seq<char>, i64)| entry_line(x)));
        }
        e = e + 1;
    }
    proof {
        assert(ev.take(entries.len() as int) =~= ev);
    }
    let ghost elv = views(el@);
    let ls = lines(content);
    let ghost lv = views(ls@);
    let mut out: Vec<String> = Vec::new();
    let mut found = false;
    let mut i: usize = 0;
    proof {
        assert(lv.skip(0) =~= lv);
        assert(views(out@) + merge_scan(lv.skip(0), tg, elv).0 =~= merge_scan(lv, tg, elv).0);
    }
    while i < ls.len()
        invariant
            i <= ls.len(),
            lv == views(ls@),
            lv == lines_spec(content@),
            tg == target@,
            elv == views(el@),
            views(out@) + merge_scan(lv.skip(i as int), tg, elv).0 == merge_scan(lv, tg, elv).0,
            (found || merge_scan(lv.skip(i as int), tg, elv).1) == merge_scan(lv, tg, elv).1,
        decreases ls.len() - i,
    {
        let ghost s = lv.skip(i as int);
        let ghost rest = s.drop_first();
        proof {
            assert(s[0] == ls@[i as int]@);
            assert(rest =~= lv.skip(i + 1));
        }
        let t = trim(ls[i].as_str());
        let tv = chars_of(t);
        if tv.len() > 0 && tv[0] == '[' && str_eq_ignore_ascii_case(t, target.as_str()) {
            found = true;
            let ghost base = views(out@);
            out.push(ls[i].clone());
            let start = i + 1;
            let mut j: usize = start;
            proof {
                assert(lv.subrange(start as int, start as int) =~= Seq::<Seq<char>>::empty());
                assert(views(out@) =~= base.push(lv[i as int]));
            }
            while j < ls.len() && !is_header_exec(ls[j].as_str())
                invariant
                    start <= j <= ls.len(),
                    start == i + 1,
                    lv == views(ls@),
                    views(out@) == base.push(lv[i as int]) + kept(lv.subrange(start as int, j as int)),
                    forall|k: int| start <= k < j ==> !is_header(trim_seq(#[trigger] lv[k])),
                decreases ls.len() - j,
            {
                let ghost before = views(out@);
                proof {
                    assert(lv.subrange(start as int, j + 1).drop_last() =~= lv.subrange(start as int, j as int));
                    assert(lv.subrange(start as int, j + 1).last() == lv[j as int]);
                    assert(lv[j as int] == ls@[j as int]@);
                }
                if kept_line_exec(ls[j].as_str()) {
                    out.push(ls[j].clone());
                    proof {
                        assert(views(out@) =~= before.push(lv[j as int]));
                    }
                }
                j = j + 1;
            }
            proof {
                let n = j - start;
                assert forall|k: int| 0 <= k < n implies !is_header(trim_seq(#[trigger] rest[k])) by {
                    assert(rest[k] == lv[start + k]);
                }
                if j < ls.len() {
                    assert(rest[n] == lv[j as int]);
                    assert(lv[j as int] == ls@[j as int]@);
                }
                lemma_body_len(rest, n);
                assert(rest.take(n) =~= lv.subrange(start as int, j as int));
                assert(rest.skip(n) =~= lv.skip(j as int));
            }
            let mut k: usize = 0;
            let ghost mid = views(out@);
            while k < el.len()
                invariant
                    k <= el.len(),
                    elv == views(el@),
                    views(out@) == mid + elv.take(k as int),
                decreases el.len() - k,
            {
                let ghost before = views(out@);
                out.push(el[k].clone());
                proof {
                    assert(views(out@) =~= before.push(elv[k as int]));
                    assert(elv.take(k + 1) =~= elv.take(k as int).push(elv[k as int]));
                }
                k = k + 1;
            }
            proof {
                assert(elv.take(el.len() as int) =~= elv);
                let n = (j - start) as int;
                assert(merge_scan(s, tg, elv).0 == seq![s[0]] + kept(rest.take(n)) + elv + merge_scan(rest.skip(n), tg, elv).0);
                assert(views(out@) + merge_scan(lv.skip(j as int), tg, elv).0 =~= base + merge_scan(s, tg, elv).0);
            }
            i = j;
        } else {
            proof {
                assert(is_header(trim_seq(s[0])) == (tv@.len() > 0 && tv@[0] == '['));
            }
            let ghost base = views(out@);
            out.push(ls[i].clone());
            proof {
                assert(views(out@) =~= base.push(s[0]));
                assert(views(out@) + merge_scan(rest, tg, elv).0 =~= base + merge_scan(s, tg, elv).0);
            }
            i = i + 1;
        }
    }
    proof {
        assert(lv.skip(ls.len() as int) =~= Seq::<Seq<char>>::empty());
        assert(views(out@) =~= merge_scan(lv, tg, elv).0);
    }
    if !found {
        let ghost before_pad = views(out@);
        if out.len() > 0 {
            let last_blank = trim(out[out.len() - 1].as_str()).unicode_len() == 0;
            if !last_blank {
                out.push(String::new());
            }
        }
        out.push(target);
        out.push(String::from_str("; Higher values override lower ones (default 50)."));
        let ghost mid = views(out@);
        let mut k: usize = 0;
        while k < el.len()
            invariant
                k <= el.len(),
                elv == views(el@),
                views(out@) == mid + elv.take(k as int),
            decreases el.len() - k,
        {
            let ghost before = views(out@);
            out.push(el[k].clone());
            proof {
                assert(views(out@) =~= before.push(elv[k as int]));
                assert(elv.take(k + 1) =~= elv.take(k as int).push(elv[k as int]));
            }
            k = k + 1;
        }
        proof {
            assert(elv.take(el.len() as int) =~= elv);
            assert(elv == ev.map_values(|x: (Seq<char>, i64)| entry_line(x)));
            assert(views(out@) =~= merged_lines(content@, profile@, ev));
        }
    } else {
        proof {
            assert(views(out@) =~= merged_lines(content@, profile@, ev));
        }
    }
    let mut s = crate::text::join_strings(&out, "\n");
    s.push('\n');
    proof {
        assert(out@.map_values(|p: String| p@) == views(out@));
        reveal_strlit("\n");
    }
    s
}

/// Mod Loader's default profile name.
pub open spec fn default_profile() -> Seq<char> {
    "Default"@
}

/// The minimal Mod Loader config written into a missing or empty file.
pub open spec fn default_ini() -> Seq<char> {
    ";\n;  Mod Loader Folder Config File\n;\n[Folder.Config]\nProfile = Default\nPriorityLimit = 100\n"@
}

/// The new text of a `modloader.ini`: a blank file gets the default config;
/// the entries replace the priorities of the configured profile (`Default`
/// when none is configured).
pub open spec fn ini_after(existing: Seq<char>, entries: Seq<(Seq<char>, i64)>) -> Seq<char> {
    let content = if trim_seq(existing).len() == 0 { default_ini() } else { existing };
    let profile = match config_scan(lines_spec(content), false) {
        Some(p) => p,
        None => default_profile(),
    };
    crate::text::join_with(merged_lines(content, profile, entries), "\n"@) + "\n"@
}

/// Merges `entries` into the current text of a `modloader.ini` (empty when the
/// file does not exist).
pub fn merged_ini(existing: &str, entries: &Vec<(String, i64)>) -> (r: String)
    ensures
        r@ == ini_after(existing@, entry_views(entries@)),
{
    let content: String = if trim(existing).unicode_len() == 0 {
        String::from_str(";\n;  Mod Loader Folder Config File\n;\n[Folder.Config]\nProfile = Default\nPriorityLimit = 100\n")
    } else {
        String::from_str(existing)
    };
    let profile = match configured_profile(content.as_str()) {
        Some(p) => p,
        None => String::from_str("Default"),
    };
    merge_priority(content.as_str(), profile.as_str(), entries)
}

/// The Mod Loader folders of a mod, from the names of the directories found
/// under its layers' `modloader/`: hidden ones skipped, each once, sorted.
pub open spec fn detected_spec(names: Seq<Seq<char>>) -> Seq<Seq<char>> {
    crate::constraints::sorted_strings(crate::constraints::dedup(visible_names(names)))
}

/// The names that do not start with `.`, in order.
pub open spec fn visible_names(names: Seq<Seq<char>>) -> Seq<Seq<char>>
    decreases names.len(),
{
    if names.len() == 0 {
        names
    } else if names.last().len() > 0 && names.last()[0] == '.' {
        visible_names(names.drop_last())
    } else {
        visible_names(names.drop_last()).push(names.last())
    }
}

pub fn detect_folders(names: &Vec<String>) -> (out: Vec<String>)
    ensures
        views(out@) == detected_spec(views(names@)),
{
    let ghost nv = views(names@);
    let mut uniq: Vec<String> = Vec::new();
    let mut i: usize = 0;
    while i < names.len()
        invariant
            i <= names.len(),
            nv == views(names@),
            views(uniq@) == crate::constraints::dedup(visible_names(nv.take(i as int))),
        decreases names.len() - i,
    {
        proof {
            reveal(Seq::filter);
            assert(nv.take(i + 1).drop_last() =~= nv.take(i as int));
            assert(nv.take(i + 1).last() == names@[i as int]@);
        }
        let v = chars_of(names[i].as_str());
        let hidden = v.len() > 0 && v[0] == '.';
        proof {
            let x = names@[i as int]@;
            let vis = visible_names(nv.take(i as int));
            assert(vis.push(x).drop_last() =~= vis);
            assert(vis.push(x).last() == x);
        }
        if !hidden {
            let ghost cur = views(uniq@);
            let mut seen = false;
            let mut j: usize = 0;
            while j < uniq.len()
                invariant
                    j <= uniq.len(),
                    cur == views(uniq@),
                    seen ==> cur.contains(names@[i as int]@),
                    !seen ==> forall|k: int| 0 <= k < j ==> cur[k] != names@[i as int]@,
                    i < names.len(),
                decreases uniq.len() - j,
            {
                assert(cur[j as int] == uniq@[j as int]@);
                if crate::meta::str_is(uniq[j].as_str(), names[i].as_str()) {
                    seen = true;
                }
                j = j + 1;
            }
            proof {
                if !seen && cur.contains(names@[i as int]@) {
                    let k = choose|k: int| 0 <= k < cur.len() && cur[k] == names@[i as int]@;
                }
            }
            if !seen {
                uniq.push(names[i].clone());
                proof {
                    assert(views(uniq@) =~= cur.push(names@[i as int]@));
                }
            }
        }
        i = i + 1;
    }
    proof {
        assert(nv.take(names.len() as int) =~= nv);
    }
    crate::constraints::sort_strings(uniq)
}

/// The priority entries one mod declares: its `[modloader] priority` for each
/// of its folders (declared, or detected when the list is absent or empty)
/// that is a valid folder name.
pub open spec fn folders_of(m: ModMeta, detected: Seq<Seq<char>>) -> Seq<Seq<char>> {
    match m.modloader {
        Some(ml) => match ml.folders {
            Some(f) => if f@.len() > 0 { views(f@) } else { detected },
            None => detected,
        },
        None => Seq::empty(),
    }
}

/// The valid names paired with the priority.
pub open spec fn named(names: Seq<Seq<char>>, p: i64) -> Seq<(Seq<char>, i64)>
    decreases names.len(),
{
    if names.len() == 0 {
        Seq::empty()
    } else if modloader_folder_ok(names.last()) {
        named(names.drop_last(), p).push((names.last(), p))
    } else {
        named(names.drop_last(), p)
    }
}

/// `'<folder>': nombre de carpeta de modloader inválido '<name>' (se ignora).`
pub open spec fn bad_folder_msg(folder: Seq<char>, name: Seq<char>) -> Seq<char> {
    "'"@ + folder + "': nombre de carpeta de modloader inválido '"@ + name + "' (se ignora)."@
}

/// The warnings for the invalid names.
pub open spec fn bad_names(folder: Seq<char>, names: Seq<Seq<char>>) -> Seq<Seq<char>>
    decreases names.len(),
{
    if names.len() == 0 {
        Seq::empty()
    } else if modloader_folder_ok(names.last()) {
        bad_names(folder, names.drop_last())
    } else {
        bad_names(folder, names.drop_last()).push(bad_folder_msg(folder, names.last()))
    }
}

/// The priority declared by a manifest.
pub open spec fn priority_of(meta: Option<ModMeta>) -> Option<i64> {
    match meta {
        Some(m) => match m.modloader {
            Some(ml) => ml.priority,
            None => None,
        },
        None => None,
    }
}

/// The candidate entries and warnings of the enabled mods, in order.
pub open spec fn candidates(en: Seq<String>, metas: Seq<Option<ModMeta>>, detected: Seq<Vec<String>>) -> (Seq<(Seq<char>, i64)>, Seq<Seq<char>>)
    decreases en.len(),
{
    if en.len() == 0 || metas.len() == 0 || detected.len() == 0 {
        (Seq::empty(), Seq::empty())
    } else {
        let r = candidates(en.drop_last(), metas.drop_last(), detected.drop_last());
        match (metas.last(), priority_of(metas.last())) {
            (Some(m), Some(p)) => {
                let names = folders_of(m, views(detected.last()@));
                (r.0 + named(names, p), r.1 + bad_names(en.last()@, names))
            },
            _ => r,
        }
    }
}

/// The index of the entry named `name`, or the length when there is none.
pub open spec fn name_index(acc: Seq<(Seq<char>, i64)>, name: Seq<char>) -> int
    decreases acc.len(),
{
    if acc.len() == 0 {
        0
    } else if acc[0].0 == name {
        0
    } else {
        1 + name_index(acc.drop_first(), name)
    }
}

/// Each name once, with the lowest priority given to it, in order of first
/// appearance.
pub open spec fn lowest(cands: Seq<(Seq<char>, i64)>) -> Seq<(Seq<char>, i64)>
    decreases cands.len(),
{
    if cands.len() == 0 {
        Seq::empty()
    } else {
        let acc = lowest(cands.drop_last());
        let e = cands.last();
        let k = name_index(acc, e.0);
        if k < acc.len() {
            acc.update(k, (e.0, if e.1 < acc[k].1 { e.1 } else { acc[k].1 }))
        } else {
            acc.push(e)
        }
    }
}

/// `lowest` keeps each name once, with a priority it was given, no larger
/// than any priority given to that name, and loses no name.
proof fn lemma_lowest(c: Seq<(Seq<char>, i64)>)
    ensures
        forall|i: int, j: int| 0 <= i < j < lowest(c).len() ==> #[trigger] lowest(c)[i].0 != #[trigger] lowest(c)[j].0,
        forall|i: int| 0 <= i < lowest(c).len() ==> #[trigger] c.contains(lowest(c)[i]),
        forall|i: int, k: int| 0 <= i < lowest(c).len() && 0 <= k < c.len() && #[trigger] c[k].0 == #[trigger] lowest(c)[i].0
            ==> lowest(c)[i].1 <= c[k].1,
        forall|k: int| 0 <= k < c.len() ==> exists|i: int| 0 <= i < lowest(c).len() && #[trigger] lowest(c)[i].0 == #[trigger] c[k].0,
    decreases c.len(),
{
    if c.len() > 0 {
        let d = c.drop_last();
        lemma_lowest(d);
        let acc = lowest(d);
        let e = c.last();
        lemma_name_index(acc, e.0);
        let k = name_index(acc, e.0);
        let l = lowest(c);
        assert forall|x: (Seq<char>, i64)| d.contains(x) implies c.contains(x) by {
            let t = choose|t: int| 0 <= t < d.len() && d[t] == x;
            assert(c[t] == x);
        }
        assert(c.contains(e)) by {
            assert(c[c.len() - 1] == e);
        }
        if k < acc.len() {
            let m = (e.0, if e.1 < acc[k].1 { e.1 } else { acc[k].1 });
            assert(l == acc.update(k, m));
            assert forall|i: int| 0 <= i < l.len() implies #[trigger] c.contains(l[i]) by {
                if i != k {
                    assert(d.contains(acc[i]));
                } else if e.1 >= acc[k].1 {
                    assert(d.contains(acc[k]));
                    assert(l[i] == acc[k]);
                }
            }
            assert forall|i: int, t: int| 0 <= i < l.len() && 0 <= t < c.len() && #[trigger] c[t].0 == #[trigger] l[i].0
                implies l[i].1 <= c[t].1 by {
                if t < d.len() {
                    assert(d[t] == c[t]);
                    assert(acc[i].0 == d[t].0);
                } else {
                    if i != k {
                        assert(acc[i].0 == acc[k].0);
                    }
                }
            }
            assert forall|t: int| 0 <= t < c.len() implies exists|i: int| 0 <= i < l.len() && #[trigger] l[i].0 == #[trigger] c[t].0 by {
                if t < d.len() {
                    assert(d[t] == c[t]);
                    let i = choose|i: int| 0 <= i < acc.len() && #[trigger] acc[i].0 == #[trigger] d[t].0;
                    assert(l[i].0 == c[t].0);
                } else {
                    assert(l[k].0 == c[t].0);
                }
            }
            assert forall|i: int, j: int| 0 <= i < j < l.len() implies #[trigger] l[i].0 != #[trigger] l[j].0 by {
                assert(acc[i].0 != acc[j].0);
            }
        } else {
            assert(l == acc.push(e));
            assert forall|i: int| 0 <= i < l.len() implies #[trigger] c.contains(l[i]) by {
                if i < acc.len() {
                    assert(d.contains(acc[i]));
                }
            }
            assert forall|i: int, t: int| 0 <= i < l.len() && 0 <= t < c.len() && #[trigger] c[t].0 == #[trigger] l[i].0
                implies l[i].1 <= c[t].1 by {
                if t < d.len() {
                    assert(d[t] == c[t]);
                    if i < acc.len() {
                        assert(acc[i].0 == d[t].0);
                    } else {
                        let q = choose|q: int| 0 <= q < acc.len() && #[trigger] acc[q].0 == #[trigger] d[t].0;
                        assert(acc[q].0 == e.0);
                    }
                } else if i < acc.len() {
                    assert(acc[i].0 == e.0);
                }
            }
            assert forall|t: int| 0 <= t < c.len() implies exists|i: int| 0 <= i < l.len() && #[trigger] l[i].0 == #[trigger] c[t].0 by {
                if t < d.len() {
                    assert(d[t] == c[t]);
                    let i = choose|i: int| 0 <= i < acc.len() && #[trigger] acc[i].0 == #[trigger] d[t].0;
                    assert(l[i].0 == c[t].0);
                } else {
                    assert(l[acc.len() as int].0 == c[t].0);
                }
            }
            assert forall|i: int, j: int| 0 <= i < j < l.len() implies #[trigger] l[i].0 != #[trigger] l[j].0 by {
                if j < acc.len() {
                    assert(acc[i].0 != acc[j].0);
                } else {
                    assert(acc[i].0 != e.0);
                }
            }
        }
    }
}

/// The entries written for the enabled mods: one per folder name with the
/// lowest priority declared for it, sorted by name.
pub open spec fn entries_spec(en: Seq<String>, metas: Seq<Option<ModMeta>>, detected: Seq<Vec<String>>) -> Seq<(Seq<char>, i64)> {
    crate::order::stable_sort(by_name(lowest(candidates(en, metas, detected).0)), false)
        .map_values(|p: (Seq<char>, (Seq<char>, i64))| p.1)
}

/// The Mod Loader entries of the enabled mods are sorted by folder name,
/// name each folder once, and give every folder an enabled mod declares the
/// least priority declared for it (and nothing else).
pub proof fn lemma_entries_sorted_unique_least(en: Seq<String>, metas: Seq<Option<ModMeta>>, detected: Seq<Vec<String>>)
    ensures
        ({
            let r = entries_spec(en, metas, detected);
            let c = candidates(en, metas, detected).0;
            &&& forall|i: int, j: int| 0 <= i < j < r.len()
                ==> !crate::order::precedes(#[trigger] r[j].0, #[trigger] r[i].0, false) && r[i].0 != r[j].0
            &&& forall|i: int| 0 <= i < r.len() ==> #[trigger] c.contains(r[i])
            &&& forall|i: int, k: int| 0 <= i < r.len() && 0 <= k < c.len() && #[trigger] c[k].0 == #[trigger] r[i].0
                ==> r[i].1 <= c[k].1
            &&& forall|k: int| 0 <= k < c.len() ==> exists|i: int| 0 <= i < r.len() && #[trigger] r[i].0 == #[trigger] c[k].0
        }),
{
    broadcast use vstd::seq_lib::group_to_multiset_ensures;
    let c = candidates(en, metas, detected).0;
    let l = lowest(c);
    lemma_lowest(c);
    let b = by_name(l);
    let srt = crate::order::stable_sort(b, false);
    let r = entries_spec(en, metas, detected);
    crate::order::lemma_stable_sort_sorted(b, false);
    crate::order::lemma_stable_sort_perm(b, false);
    assert(r.len() == srt.len());
    assert forall|i: int| 0 <= i < srt.len() implies exists|j: int| 0 <= j < l.len() && #[trigger] srt[i] == (l[j].0, l[j]) by {
        assert(srt.to_multiset().contains(srt[i]));
        assert(b.contains(srt[i]));
        let j = choose|j: int| 0 <= j < b.len() && b[j] == srt[i];
        assert(b[j] == (l[j].0, l[j]));
    }
    assert forall|i: int| 0 <= i < r.len() implies #[trigger] r[i] == srt[i].1 && r[i].0 == srt[i].0 by {
        let j = choose|j: int| 0 <= j < l.len() && #[trigger] srt[i] == (l[j].0, l[j]);
    }
    assert(b.no_duplicates()) by {
        assert forall|i: int, j: int| 0 <= i < b.len() && 0 <= j < b.len() && i != j implies b[i] != b[j] by {
            if i < j {
                assert(l[i].0 != l[j].0);
            } else {
                assert(l[j].0 != l[i].0);
            }
        }
    }
    b.lemma_multiset_has_no_duplicates();
    srt.lemma_multiset_has_no_duplicates_conv();
    assert forall|i: int, j: int| 0 <= i < j < r.len()
        implies !crate::order::precedes(#[trigger] r[j].0, #[trigger] r[i].0, false) && r[i].0 != r[j].0 by {
        assert(r[i] == srt[i].1 && r[i].0 == srt[i].0);
        assert(r[j] == srt[j].1 && r[j].0 == srt[j].0);
        let a = choose|a: int| 0 <= a < l.len() && #[trigger] srt[i] == (l[a].0, l[a]);
        let z = choose|z: int| 0 <= z < l.len() && #[trigger] srt[j] == (l[z].0, l[z]);
        if l[a].0 == l[z].0 && a != z {
            if a < z {
                assert(l[a].0 != l[z].0);
            } else {
                assert(l[z].0 != l[a].0);
            }
        }
        assert(srt[i] != srt[j]);
    }
    assert forall|i: int| 0 <= i < r.len() implies #[trigger] c.contains(r[i]) by {
        assert(r[i] == srt[i].1);
        let a = choose|a: int| 0 <= a < l.len() && #[trigger] srt[i] == (l[a].0, l[a]);
        assert(c.contains(l[a]));
    }
    assert forall|i: int, k: int| 0 <= i < r.len() && 0 <= k < c.len() && #[trigger] c[k].0 == #[trigger] r[i].0
        implies r[i].1 <= c[k].1 by {
        assert(r[i] == srt[i].1);
        let a = choose|a: int| 0 <= a < l.len() && #[trigger] srt[i] == (l[a].0, l[a]);
        assert(c[k].0 == l[a].0);
    }
    assert forall|k: int| 0 <= k < c.len() implies exists|i: int| 0 <= i < r.len() && #[trigger] r[i].0 == #[trigger] c[k].0 by {
        let a = choose|a: int| 0 <= a < l.len() && #[trigger] l[a].0 == #[trigger] c[k].0;
        assert(b[a] == (l[a].0, l[a]));
        assert(b.to_multiset().contains(b[a]));
        assert(srt.contains(b[a]));
        let t = choose|t: int| 0 <= t < srt.len() && srt[t] == b[a];
        assert(r[t] == srt[t].1);
    }
}

proof fn lemma_name_index(acc: Seq<(Seq<char>, i64)>, name: Seq<char>)
    ensures
        0 <= name_index(acc, name) <= acc.len(),
        name_index(acc, name) < acc.len() ==> acc[name_index(acc, name)].0 == name,
        forall|k: int| 0 <= k < name_index(acc, name) ==> acc[k].0 != name,
    decreases acc.len(),
{
    if acc.len() > 0 && acc[0].0 != name {
        lemma_name_index(acc.drop_first(), name);
        assert forall|k: int| 0 <= k < name_index(acc, name) implies acc[k].0 != name by {
            if k > 0 {
                assert(acc[k] == acc.drop_first()[k - 1]);
            }
        }
    }
}

fn add_names(out: &mut Vec<(String, i64)>, warnings: &mut Vec<String>, folder: &String, names: &Vec<String>, p: i64)
    ensures
        entry_views(final(out)@) == entry_views(old(out)@) + named(views(names@), p),
        views(final(warnings)@) == views(old(warnings)@) + bad_names(folder@, views(names@)),
{
    let ghost nv = views(names@);
    let ghost o0 = entry_views(out@);
    let ghost w0 = views(warnings@);
    let mut i: usize = 0;
    proof {
        assert(nv.take(0) =~= Seq::<Seq<char>>::empty());
        assert(o0 + named(nv.take(0), p) =~= o0);
        assert(w0 + bad_names(folder@, nv.take(0)) =~= w0);
    }
    while i < names.len()
        invariant
            i <= names.len(),
            nv == views(names@),
            entry_views(out@) == o0 + named(nv.take(i as int), p),
            views(warnings@) == w0 + bad_names(folder@, nv.take(i as int)),
        decreases names.len() - i,
    {
        proof {
            assert(nv.take(i + 1).drop_last() =~= nv.take(i as int));
            assert(nv.take(i + 1).last() == names@[i as int]@);
        }
        let name = &names[i];
        if crate::meta::valid_modloader_folder(name.as_str()) {
            let ghost prev = entry_views(out@);
            out.push((name.clone(), p));
            proof {
                assert(entry_views(out@) =~= prev.push((name@, p)));
                assert(o0 + named(nv.take(i + 1), p) =~= (o0 + named(nv.take(i as int), p)).push((name@, p)));
            }
        } else {
            let mut msg = String::from_str("'");
            msg.append(folder.as_str());
            msg.append("': nombre de carpeta de modloader inválido '");
            msg.append(name.as_str());
            msg.append("' (se ignora).");
            let ghost prev = views(warnings@);
            warnings.push(msg);
            proof {
                assert(views(warnings@) =~= prev.push(bad_folder_msg(folder@, name@)));
                assert(w0 + bad_names(folder@, nv.take(i + 1)) =~= (w0 + bad_names(folder@, nv.take(i as int))).push(bad_folder_msg(folder@, name@)));
            }
        }
        i = i + 1;
    }
    proof {
        assert(nv.take(names.len() as int) =~= nv);
    }
}

/// Priority entries for the enabled mods that declare `[modloader] priority`,
/// with the warnings for invalid folder names. `metas` are the enabled mods'
/// manifests and `detected` their auto-detected Mod Loader folders.
pub fn entries_for(enabled: &Vec<String>, metas: &Vec<Option<ModMeta>>, detected: &Vec<Vec<String>>) -> (r: (Vec<(String, i64)>, Vec<String>))
    requires
        enabled.len() == metas.len(),
        metas.len() == detected.len(),
    ensures
        entry_views(r.0@) == entries_spec(enabled@, metas@, detected@),
        views(r.1@) == candidates(enabled@, metas@, detected@).1,
{
    let mut cands: Vec<(String, i64)> = Vec::new();
    let mut warnings: Vec<String> = Vec::new();
    let mut i: usize = 0;
    proof {
        assert(enabled@.take(0) =~= Seq::<String>::empty());
        assert(entry_views(cands@) =~= Seq::<(Seq<char>, i64)>::empty());
        assert(views(warnings@) =~= Seq::<Seq<char>>::empty());
    }
    while i < enabled.len()
        invariant
            i <= enabled.len(),
            enabled.len() == metas.len(),
            metas.len() == detected.len(),
            entry_views(cands@) == candidates(enabled@.take(i as int), metas@.take(i as int), detected@.take(i as int)).0,
            views(warnings@) == candidates(enabled@.take(i as int), metas@.take(i as int), detected@.take(i as int)).1,
        decreases enabled.len() - i,
    {
        proof {
            assert(enabled@.take(i + 1).drop_last() =~= enabled@.take(i as int));
            assert(metas@.take(i + 1).drop_last() =~= metas@.take(i as int));
            assert(detected@.take(i + 1).drop_last() =~= detected@.take(i as int));
            assert(enabled@.take(i + 1).last() == enabled@[i as int]);
            assert(metas@.take(i + 1).last() == metas@[i as int]);
            assert(detected@.take(i + 1).last() == detected@[i as int]);
        }
        match &metas[i] {
            Some(m) => match &m.modloader {
                Some(ml) => match ml.priority {
                    Some(p) => {
                        let names: &Vec<String> = match &ml.folders {
                            Some(f) => if f.len() > 0 { f } else { &detected[i] },
                            None => &detected[i],
                        };
                        add_names(&mut cands, &mut warnings, &enabled[i], names, p);
                    },
                    None => {},
                },
                None => {},
            },
            None => {},
        }
        i = i + 1;
    }
    proof {
        assert(enabled@.take(enabled.len() as int) =~= enabled@);
        assert(metas@.take(metas.len() as int) =~= metas@);
        assert(detected@.take(detected.len() as int) =~= detected@);
    }
    let ghost cv = entry_views(cands@);
    // Lowest priority per name, in order of first appearance.
    let mut acc: Vec<(String, i64)> = Vec::new();
    let mut k: usize = 0;
    proof {
        assert(cv.take(0) =~= Seq::<(Seq<char>, i64)>::empty());
    }
    while k < cands.len()
        invariant
            k <= cands.len(),
            cv == entry_views(cands@),
            entry_views(acc@) == lowest(cv.take(k as int)),
        decreases cands.len() - k,
    {
        let ghost av = entry_views(acc@);
        proof {
            assert(cv.take(k + 1).drop_last() =~= cv.take(k as int));
            assert(cv.take(k + 1).last() == (cands@[k as int].0@, cands@[k as int].1));
            lemma_name_index(av, cands@[k as int].0@);
        }
        let mut j: usize = 0;
        while j < acc.len() && !crate::meta::str_is(acc[j].0.as_str(), cands[k].0.as_str())
            invariant
                j <= acc.len(),
                av == entry_views(acc@),
                k < cands.len(),
                forall|t: int| 0 <= t < j ==> av[t].0 != cands@[k as int].0@,
            decreases acc.len() - j,
        {
            j = j + 1;
        }
        proof {
            let ni = name_index(av, cands@[k as int].0@);
            if ni < j {
                assert(av[ni].0 == cands@[k as int].0@);
            }
            if j < acc.len() && ni > j {
                assert(av[j as int].0 == cands@[k as int].0@);
            }
            assert(ni == j);
        }
        if j < acc.len() {
            let p = cands[k].1;
            let cur = acc[j].1;
            let newp = if p < cur { p } else { cur };
            let name = acc[j].0.clone();
            acc.set(j, (name, newp));
            proof {
                assert(entry_views(acc@) =~= av.update(j as int, (cands@[k as int].0@, newp)));
            }
        } else {
            acc.push((cands[k].0.clone(), cands[k].1));
            proof {
                assert(entry_views(acc@) =~= av.push((cands@[k as int].0@, cands@[k as int].1)));
            }
        }
        k = k + 1;
    }
    proof {
        assert(cv.take(cands.len() as int) =~= cv);
    }
    // Sort by name.
    let ghost lv = entry_views(acc@);
    let an = acc.len();
    let mut keyed: Vec<(String, (String, i64))> = Vec::new();
    let mut t: usize = 0;
    while t < acc.len()
        invariant
            t <= acc.len(),
            an == acc.len(),
            lv == entry_views(acc@),
            pvs(crate::order::keyed_view(keyed@)) == by_name(lv.take(t as int)),
        decreases acc.len() - t,
    {
        let ghost prev = pvs(crate::order::keyed_view(keyed@));
        keyed.push((acc[t].0.clone(), (acc[t].0.clone(), acc[t].1)));
        proof {
            assert(lv.take(t + 1) =~= lv.take(t as int).push(lv[t as int]));
            assert(pvs(crate::order::keyed_view(keyed@)) =~= prev.push((lv[t as int].0, lv[t as int])));
            assert(pvs(crate::order::keyed_view(keyed@)) =~= by_name(lv.take(t + 1)));
        }
        t = t + 1;
    }
    proof {
        assert(lv.take(an as int) =~= lv);
    }
    let sorted = crate::order::sort_keyed(keyed, false);
    let mut out: Vec<(String, i64)> = Vec::new();
    let mut u: usize = 0;
    let ghost sv = pvs(crate::order::keyed_view(sorted@));
    while u < sorted.len()
        invariant
            u <= sorted.len(),
            sv == pvs(crate::order::keyed_view(sorted@)),
            entry_views(out@) == sv.take(u as int).map_values(|q: (Seq<char>, (Seq<char>, i64))| q.1),
        decreases sorted.len() - u,
    {
        let ghost prev = entry_views(out@);
        out.push((sorted[u].1.0.clone(), sorted[u].1.1));
        proof {
            assert(sv[u as int] == pv(crate::order::keyed_view(sorted@)[u as int]));
            assert(crate::order::keyed_view(sorted@)[u as int] == (sorted@[u as int].0@, sorted@[u as int].1));
            assert(entry_views(out@) =~= prev.push(sv[u as int].1));
            assert(sv.take(u + 1) =~= sv.take(u as int).push(sv[u as int]));
            assert(entry_views(out@) =~= sv.take(u + 1).map_values(|q: (Seq<char>, (Seq<char>, i64))| q.1));
        }
        u = u + 1;
    }
    proof {
        assert(sv.take(sorted.len() as int) =~= sv);
        lemma_sort_map(crate::order::keyed_view(keyed@), false);
    }
    (out, warnings)
}

/// A keyed entry with its payload as plain values.
pub open spec fn pv(q: (Seq<char>, (String, i64))) -> (Seq<char>, (Seq<char>, i64)) {
    (q.0, (q.1.0@, q.1.1))
}

pub open spec fn pvs(s: Seq<(Seq<char>, (String, i64))>) -> Seq<(Seq<char>, (Seq<char>, i64))> {
    s.map_values(|q: (Seq<char>, (String, i64))| pv(q))
}

/// Entries keyed by their names.
pub open spec fn by_name(lv: Seq<(Seq<char>, i64)>) -> Seq<(Seq<char>, (Seq<char>, i64))> {
    lv.map_values(|e: (Seq<char>, i64)| (e.0, e))
}

/// Sorting by key commutes with viewing the payload.
proof fn lemma_sort_map(s: Seq<(Seq<char>, (String, i64))>, desc: bool)
    ensures
        pvs(crate::order::stable_sort(s, desc)) == crate::order::stable_sort(pvs(s), desc),
    decreases s.len(),
{
    if s.len() > 0 {
        lemma_sort_map(s.drop_last(), desc);
        let rest = crate::order::stable_sort(s.drop_last(), desc);
        let mrest = crate::order::stable_sort(pvs(s.drop_last()), desc);
        assert(pvs(s).drop_last() =~= pvs(s.drop_last()));
        assert(pvs(s).last() == pv(s.last()));
        lemma_insert_pos_map(rest, s.last().0, desc);
        let p = crate::order::insert_pos(rest, s.last().0, desc) as int;
        crate::order::lemma_stable_sort_sorted(s.drop_last(), desc);
        crate::order::lemma_insert_pos_bound(rest, s.last().0, desc);
        let ins = rest.insert(p, s.last());
        assert forall|i: int| 0 <= i < ins.len() implies #[trigger] pvs(ins)[i] == mrest.insert(p, pv(s.last()))[i] by {
            if i < p {
                assert(ins[i] == rest[i]);
            } else if i > p {
                assert(ins[i] == rest[i - 1]);
            }
        }
        assert(pvs(ins) =~= mrest.insert(p, pv(s.last())));
    }
}

proof fn lemma_insert_pos_map(s: Seq<(Seq<char>, (String, i64))>, key: Seq<char>, desc: bool)
    ensures
        crate::order::insert_pos(s, key, desc) == crate::order::insert_pos(pvs(s), key, desc),
    decreases s.len(),
{
    if s.len() > 0 {
        assert(pvs(s).drop_first() =~= pvs(s.drop_first()));
        assert(pvs(s)[0] == pv(s[0]));
        lemma_insert_pos_map(s.drop_first(), key, desc);
    }
}

/// A line that opens a target section.
pub open spec fn is_target(l: Seq<char>, target: Seq<char>) -> bool {
    is_header(trim_seq(l)) && eq_ignore_ascii_case(trim_seq(l), target)
}

/// Whether the reader is inside a target section after some lines.
pub open spec fn state_after(ls: Seq<Seq<char>>, in_target: bool, target: Seq<char>) -> bool
    decreases ls.len(),
{
    if ls.len() == 0 {
        in_target
    } else {
        let t = trim_seq(ls[0]);
        state_after(ls.drop_first(), if is_header(t) { eq_ignore_ascii_case(t, target) } else { in_target }, target)
    }
}

proof fn lemma_scan_concat(a: Seq<Seq<char>>, b: Seq<Seq<char>>, st: bool, target: Seq<char>)
    ensures
        priority_scan(a + b, st, target) == priority_scan(a, st, target) + priority_scan(b, state_after(a, st, target), target),
        state_after(a + b, st, target) == state_after(b, state_after(a, st, target), target),
    decreases a.len(),
{
    if a.len() == 0 {
        assert(a + b =~= b);
        assert(priority_scan(a, st, target) + priority_scan(b, st, target) =~= priority_scan(b, st, target));
    } else {
        let t = trim_seq(a[0]);
        let st2 = if is_header(t) { eq_ignore_ascii_case(t, target) } else { st };
        assert((a + b)[0] == a[0]);
        assert((a + b).drop_first() =~= a.drop_first() + b);
        lemma_scan_concat(a.drop_first(), b, st2, target);
        if !is_header(t) && st && entry_of(t) is Some {
            assert(seq![entry_of(t)->0] + (priority_scan(a.drop_first(), st2, target) + priority_scan(b, state_after(a.drop_first(), st2, target), target))
                =~= (seq![entry_of(t)->0] + priority_scan(a.drop_first(), st2, target)) + priority_scan(b, state_after(a.drop_first(), st2, target), target));
        }
    }
}

proof fn lemma_scan_outside(a: Seq<Seq<char>>, target: Seq<char>)
    requires
        forall|k: int| 0 <= k < a.len() ==> !is_target(#[trigger] a[k], target),
    ensures
        priority_scan(a, false, target) == Seq::<(Seq<char>, i64)>::empty(),
        state_after(a, false, target) == false,
    decreases a.len(),
{
    if a.len() > 0 {
        assert(!is_target(a[0], target));
        let d = a.drop_first();
        assert forall|k: int| 0 <= k < d.len() implies !is_target(#[trigger] d[k], target) by {
            assert(d[k] == a[k + 1]);
        }
        lemma_scan_outside(d, target);
    }
}

proof fn lemma_scan_quiet(a: Seq<Seq<char>>, target: Seq<char>)
    requires
        forall|k: int| 0 <= k < a.len() ==> !is_header(trim_seq(#[trigger] a[k])) && entry_of(trim_seq(a[k])) is None,
    ensures
        priority_scan(a, true, target) == Seq::<(Seq<char>, i64)>::empty(),
        state_after(a, true, target) == true,
    decreases a.len(),
{
    if a.len() > 0 {
        assert(!is_header(trim_seq(a[0])));
        let d = a.drop_first();
        assert forall|k: int| 0 <= k < d.len() implies !is_header(trim_seq(#[trigger] d[k])) && entry_of(trim_seq(d[k])) is None by {
            assert(d[k] == a[k + 1]);
        }
        lemma_scan_quiet(d, target);
    }
}

/// A key that an entry line gives back: no surrounding whitespace, no `=`, `;`
/// or newline, and not starting like a section header.
pub open spec fn key_ok(n: Seq<char>) -> bool {
    &&& trim_seq(n) == n
    &&& !n.contains('=') && !n.contains(';') && !n.contains('\n')
    &&& !(n.len() > 0 && n[0] == '[')
}

proof fn lemma_no_char_first_index(s: Seq<char>, c: char)
    requires
        !s.contains(c),
    ensures
        first_index(s, c) == s.len(),
{
    lemma_first_index(s, c);
}

proof fn lemma_decimal_shape(p: i64)
    ensures
        crate::text::int_decimal(p as int).len() > 0,
        crate::text::is_digit(crate::text::int_decimal(p as int).last()),
        forall|i: int| 0 <= i < crate::text::int_decimal(p as int).len() ==> {
            let c = #[trigger] crate::text::int_decimal(p as int)[i];
            c == '-' || crate::text::is_digit(c)
        },
{
    let d = crate::text::int_decimal(p as int);
    if p < 0 {
        let m = (-(p as int)) as nat;
        crate::text::lemma_nat_decimal_digits(m);
        let nd = crate::text::nat_decimal(m);
        assert(d == seq!['-'] + nd);
        assert(d.last() == nd.last());
        assert(nd[nd.len() - 1] == nd.last());
        assert forall|i: int| 0 <= i < d.len() implies {
            let c = #[trigger] d[i];
            c == '-' || crate::text::is_digit(c)
        } by {
            if i > 0 {
                assert(d[i] == nd[i - 1]);
            }
        }
    } else {
        crate::text::lemma_nat_decimal_digits(p as nat);
        assert(d[d.len() - 1] == d.last());
    }
}

/// An entry line reads back as its entry.
proof fn lemma_entry_line_reads(e: (Seq<char>, i64))
    requires
        key_ok(e.0),
    ensures
        !is_header(trim_seq(entry_line(e))),
        entry_of(trim_seq(entry_line(e))) == Some(e),
        !entry_line(e).contains('\n'),
        trim_seq(entry_line(e)) == entry_line(e),
        entry_line(e).len() > 0,
        entry_line(e)[0] == (if e.0.len() > 0 { e.0[0] } else { '=' }),
        entry_line(e).last() != '\r',
{
    reveal_strlit("=");
    let n = e.0;
    let d = crate::text::int_decimal(e.1 as int);
    let line = entry_line(e);
    assert(line =~= n + seq!['='] + d);
    lemma_decimal_shape(e.1);
    if n.len() > 0 {
        crate::text::lemma_trimmed_ends(n);
        assert(line[0] == n[0]);
    } else {
        assert(line[0] == '=');
    }
    assert(line.last() == d.last());
    crate::text::lemma_trim_noop(line);
    assert(!line.contains(';')) by {
        if line.contains(';') {
            let k = choose|k: int| 0 <= k < line.len() && line[k] == ';';
            if k < n.len() {
                assert(n[k] == ';');
            } else if k > n.len() {
                assert(d[k - n.len() - 1] == ';');
            }
        }
    }
    lemma_no_char_first_index(line, ';');
    assert(before_comment(line) =~= line);
    lemma_first_index(line, '=');
    assert(line[n.len() as int] == '=');
    assert(first_index(line, '=') == n.len()) by {
        let fi = first_index(line, '=');
        if fi < n.len() {
            assert(n[fi] == '=');
        }
    }
    assert(line.take(n.len() as int) =~= n);
    assert(line.skip(n.len() as int + 1) =~= d);
    crate::text::lemma_trim_noop(d);
    crate::text::lemma_parse_int_decimal(e.1);
    assert(!line.contains('\n')) by {
        if line.contains('\n') {
            let k = choose|k: int| 0 <= k < line.len() && line[k] == '\n';
            if k < n.len() {
                assert(n[k] == '\n');
            } else if k > n.len() {
                assert(d[k - n.len() - 1] == '\n');
            }
        }
    }
}

proof fn lemma_scan_entries(es: Seq<(Seq<char>, i64)>, target: Seq<char>)
    requires
        forall|i: int| 0 <= i < es.len() ==> key_ok(#[trigger] es[i].0),
    ensures
        priority_scan(es.map_values(|e: (Seq<char>, i64)| entry_line(e)), true, target) == es,
        state_after(es.map_values(|e: (Seq<char>, i64)| entry_line(e)), true, target) == true,
    decreases es.len(),
{
    let el = es.map_values(|e: (Seq<char>, i64)| entry_line(e));
    if es.len() > 0 {
        lemma_entry_line_reads(es[0]);
        let d = es.drop_first();
        assert forall|i: int| 0 <= i < d.len() implies key_ok(#[trigger] d[i].0) by {
            assert(d[i] == es[i + 1]);
        }
        lemma_scan_entries(d, target);
        assert(el.drop_first() =~= d.map_values(|e: (Seq<char>, i64)| entry_line(e)));
        assert(el[0] == entry_line(es[0]));
        assert(seq![es[0]] + d =~= es);
    }
}

/// Without a section for the profile, rewriting leaves every line as it is
/// (the new section is then appended after them).
pub proof fn lemma_merge_outside(ls: Seq<Seq<char>>, target: Seq<char>, el: Seq<Seq<char>>)
    requires
        forall|k: int| 0 <= k < ls.len() ==> !is_target(#[trigger] ls[k], target),
    ensures
        merge_scan(ls, target, el) == (ls, false),
    decreases ls.len(),
{
    if ls.len() > 0 {
        assert(!is_target(ls[0], target));
        let d = ls.drop_first();
        assert forall|k: int| 0 <= k < d.len() implies !is_target(#[trigger] d[k], target) by {
            assert(d[k] == ls[k + 1]);
        }
        lemma_merge_outside(d, target, el);
        assert(seq![ls[0]] + d =~= ls);
    }
}

/// The lines of a target section's body: those after the header up to the
/// next header.
pub open spec fn body_of(ls: Seq<Seq<char>>, h: int) -> Seq<Seq<char>> {
    ls.skip(h + 1).take(body_len(ls.skip(h + 1)) as int)
}

/// With one section for the profile, rewriting keeps the lines before it, its
/// header, its blank and comment lines and the lines after it, and puts the
/// new entries at the end of the section.
pub proof fn lemma_merge_one(ls: Seq<Seq<char>>, target: Seq<char>, el: Seq<Seq<char>>, h: int)
    requires
        0 <= h < ls.len(),
        is_target(ls[h], target),
        forall|k: int| 0 <= k < ls.len() && k != h ==> !is_target(#[trigger] ls[k], target),
    ensures
        merge_scan(ls, target, el).1,
        merge_scan(ls, target, el).0 == ls.take(h) + seq![ls[h]] + kept(body_of(ls, h)) + el
            + ls.skip(h + 1).skip(body_len(ls.skip(h + 1)) as int),
    decreases h,
{
    let d = ls.drop_first();
    if h == 0 {
        lemma_body_len_bound(d);
        let n = body_len(d) as int;
        let r = d.skip(n);
        assert forall|k: int| 0 <= k < r.len() implies !is_target(#[trigger] r[k], target) by {
            assert(r[k] == ls[k + 1 + n]);
        }
        lemma_merge_outside(r, target, el);
        assert(d =~= ls.skip(1));
        assert(ls.take(0) + seq![ls[0]] =~= seq![ls[0]]);
    } else {
        assert(!is_target(ls[0], target));
        assert forall|k: int| 0 <= k < d.len() && k != h - 1 implies !is_target(#[trigger] d[k], target) by {
            assert(d[k] == ls[k + 1]);
        }
        assert(d[h - 1] == ls[h]);
        lemma_merge_one(d, target, el, h - 1);
        assert(d.skip(h) =~= ls.skip(h + 1));
        assert(seq![ls[0]] + d.take(h - 1) =~= ls.take(h));
        let tail = kept(body_of(ls, h)) + el + ls.skip(h + 1).skip(body_len(ls.skip(h + 1)) as int);
        assert(seq![ls[0]] + (d.take(h - 1) + seq![d[h - 1]] + kept(body_of(d, h - 1)) + el
            + d.skip(h).skip(body_len(d.skip(h)) as int))
            =~= ls.take(h) + seq![ls[h]] + kept(body_of(ls, h)) + el + ls.skip(h + 1).skip(body_len(ls.skip(h + 1)) as int));
    }
}

proof fn lemma_body_lines(ls: Seq<Seq<char>>)
    ensures
        forall|k: int| 0 <= k < body_len(ls) ==> !is_header(trim_seq(#[trigger] ls[k])),
        body_len(ls) < ls.len() ==> is_header(trim_seq(ls[body_len(ls) as int])),
    decreases ls.len(),
{
    lemma_body_len_bound(ls);
    if ls.len() > 0 && !is_header(trim_seq(ls[0])) {
        let d = ls.drop_first();
        lemma_body_lines(d);
        assert forall|k: int| 0 <= k < body_len(ls) implies !is_header(trim_seq(#[trigger] ls[k])) by {
            if k > 0 {
                assert(ls[k] == d[k - 1]);
            }
        }
        if body_len(ls) < ls.len() {
            assert(ls[body_len(ls) as int] == d[body_len(d) as int]);
        }
    }
}

/// The kept lines of a quiet body are quiet lines.
proof fn lemma_kept_quiet(b: Seq<Seq<char>>)
    requires
        forall|j: int| 0 <= j < b.len() ==> !is_header(trim_seq(#[trigger] b[j]))
            && (kept_line(b[j]) ==> entry_of(trim_seq(b[j])) is None) && !b[j].contains('\n'),
    ensures
        forall|i: int| 0 <= i < kept(b).len() ==> !is_header(trim_seq(#[trigger] kept(b)[i]))
            && entry_of(trim_seq(kept(b)[i])) is None && !kept(b)[i].contains('\n'),
    decreases b.len(),
{
    if b.len() > 0 {
        let d = b.drop_last();
        assert forall|j: int| 0 <= j < d.len() implies !is_header(trim_seq(#[trigger] d[j]))
            && (kept_line(d[j]) ==> entry_of(trim_seq(d[j])) is None) && !d[j].contains('\n') by {
            assert(d[j] == b[j]);
        }
        lemma_kept_quiet(d);
        assert(b[b.len() - 1] == b.last());
        let r = kept(d);
        if kept_line(b.last()) {
            assert(kept(b) == r.push(b.last()));
            assert forall|i: int| 0 <= i < kept(b).len() implies !is_header(trim_seq(#[trigger] kept(b)[i]))
                && entry_of(trim_seq(kept(b)[i])) is None && !kept(b)[i].contains('\n') by {
                if i < r.len() {
                    assert(kept(b)[i] == r[i]);
                }
            }
        } else {
            assert(kept(b) == r);
        }
    }
}

proof fn lemma_scan_one_target(x: Seq<char>, target: Seq<char>)
    requires
        is_target(x, target),
    ensures
        priority_scan(seq![x], false, target) == Seq::<(Seq<char>, i64)>::empty(),
        state_after(seq![x], false, target) == true,
{
    assert(seq![x][0] == x);
    assert(seq![x].drop_first() =~= Seq::<Seq<char>>::empty());
    assert(priority_scan(Seq::<Seq<char>>::empty(), true, target) =~= Seq::<(Seq<char>, i64)>::empty());
    assert(state_after(Seq::<Seq<char>>::empty(), true, target) == true);
}

proof fn lemma_scan_hint(target: Seq<char>)
    requires
        is_target(target, target),
    ensures
        priority_scan(seq![target, priority_hint()], false, target) == Seq::<(Seq<char>, i64)>::empty(),
        state_after(seq![target, priority_hint()], false, target) == true,
{
    let hint = priority_hint();
    reveal_strlit("; Higher values override lower ones (default 50).");
    assert(hint[0] == ';');
    assert(hint.last() == '.');
    crate::text::lemma_trim_noop(hint);
    lemma_first_index(hint, ';');
    assert(before_comment(hint) =~= Seq::<char>::empty());
    assert(entry_of(hint) is None);
    let th = seq![target, hint];
    assert(th[0] == target);
    assert(th.drop_first() =~= seq![hint]);
    assert(seq![hint][0] == hint);
    assert(seq![hint].drop_first() =~= Seq::<Seq<char>>::empty());
    assert(priority_scan(Seq::<Seq<char>>::empty(), true, target) =~= Seq::<(Seq<char>, i64)>::empty());
    assert(state_after(Seq::<Seq<char>>::empty(), true, target) == true);
    assert(priority_scan(seq![hint], true, target) =~= Seq::<(Seq<char>, i64)>::empty());
    assert(state_after(seq![hint], true, target) == true);
}

/// Reading ignores a trailing `\r` on every line.
proof fn lemma_scan_strip_cr(ls: Seq<Seq<char>>, st: bool, target: Seq<char>)
    ensures
        priority_scan(ls.map_values(|x: Seq<char>| crate::text::strip_cr(x)), st, target) == priority_scan(ls, st, target),
    decreases ls.len(),
{
    let m = ls.map_values(|x: Seq<char>| crate::text::strip_cr(x));
    if ls.len() > 0 {
        crate::text::lemma_trim_strip_cr(ls[0]);
        assert(m[0] == crate::text::strip_cr(ls[0]));
        assert(m.drop_first() =~= ls.drop_first().map_values(|x: Seq<char>| crate::text::strip_cr(x)));
        let t = trim_seq(ls[0]);
        let st2 = if is_header(t) { eq_ignore_ascii_case(t, target) } else { st };
        lemma_scan_strip_cr(ls.drop_first(), st2, target);
    }
}

/// Texts where a profile's priority section reads back as written: at most
/// one section for the profile, and no comment line inside it that reads as
/// an entry.
pub open spec fn readable_ini(ls: Seq<Seq<char>>, target: Seq<char>) -> bool {
    &&& forall|a: int, b: int| 0 <= a < ls.len() && 0 <= b < ls.len() && is_target(#[trigger] ls[a], target)
        && is_target(#[trigger] ls[b], target) ==> a == b
    &&& forall|h: int, k: int| 0 <= h < k < ls.len() && is_target(#[trigger] ls[h], target)
        && (forall|j: int| h < j <= k ==> !is_header(trim_seq(#[trigger] ls[j])))
        && kept_line(#[trigger] ls[k]) ==> entry_of(trim_seq(ls[k])) is None
}

/// The header of a priority section is a target line without newlines.
proof fn lemma_target_line(profile: Seq<char>)
    requires
        !profile.contains('\n'),
    ensures
        is_target(target_header(profile), target_header(profile)),
        !target_header(profile).contains('\n'),
        target_header(profile).len() > 0,
        target_header(profile).last() == ']',
{
    let target = target_header(profile);
    reveal_strlit("[Profiles.");
    reveal_strlit(".Priority]");
    assert(target[0] == '[');
    assert(target.last() == ']');
    crate::text::lemma_trim_noop(target);
    assert(!target.contains('\n')) by {
        if target.contains('\n') {
            let k = choose|k: int| 0 <= k < target.len() && target[k] == '\n';
            let pre = "[Profiles."@;
            if k >= pre.len() && k < pre.len() + profile.len() {
                assert(profile[k - pre.len()] == '\n');
            }
        }
    }
}

#[verifier::rlimit(100)]
#[verifier::spinoff_prover]
proof fn lemma_merge_then_read_found(content: Seq<char>, profile: Seq<char>, entries: Seq<(Seq<char>, i64)>, h: int)
    requires
        !profile.contains('\n'),
        forall|i: int| 0 <= i < entries.len() ==> key_ok(#[trigger] entries[i].0),
        readable_ini(lines_spec(content), target_header(profile)),
        0 <= h < lines_spec(content).len(),
        is_target(lines_spec(content)[h], target_header(profile)),
    ensures
        priority_scan(lines_spec(crate::text::join_with(merged_lines(content, profile, entries), seq!['\n']) + seq!['\n']),
            false, target_header(profile)) == entries,
{
    reveal_strlit("\n");
    let target = target_header(profile);
    let ls = lines_spec(content);
    let el = entries.map_values(|e: (Seq<char>, i64)| entry_line(e));
    let m = merged_lines(content, profile, entries);
    crate::text::lemma_lines_no_newline(content);
    lemma_target_line(profile);
    assert forall|i: int| 0 <= i < el.len() implies !(#[trigger] el[i]).contains('\n') by {
        lemma_entry_line_reads(entries[i]);
    }
    lemma_scan_entries(entries, target);
        assert forall|k: int| 0 <= k < ls.len() && k != h implies !is_target(#[trigger] ls[k], target) by {}
        lemma_merge_one(ls, target, el, h);
        let rest = ls.skip(h + 1);
        lemma_body_len_bound(rest);
        let n = body_len(rest) as int;
        let b = body_of(ls, h);
        let r = rest.skip(n);
        let a1 = ls.take(h);
        let kb = kept(b);
        assert(m == a1 + seq![ls[h]] + kb + el + r);
        // No line has a newline.
        lemma_body_lines(rest);
        assert forall|j: int| 0 <= j < b.len() implies !is_header(trim_seq(#[trigger] b[j]))
            && (kept_line(b[j]) ==> entry_of(trim_seq(b[j])) is None) && !b[j].contains('\n') by {
            assert(b[j] == rest[j]);
            assert(rest[j] == ls[h + 1 + j]);
            assert forall|q: int| h < q <= h + 1 + j implies !is_header(trim_seq(#[trigger] ls[q])) by {
                assert(ls[q] == rest[q - h - 1]);
            }
        }
        lemma_kept_quiet(b);
        assert forall|i: int| 0 <= i < m.len() implies !(#[trigger] m[i]).contains('\n') by {
            if i < h {
                assert(m[i] == ls[i]);
            } else if i == h {
                assert(m[i] == ls[h]);
            } else if i < h + 1 + kb.len() {
                assert(m[i] == kb[i - h - 1]);
            } else if i < h + 1 + kb.len() + el.len() {
                assert(m[i] == el[i - h - 1 - kb.len()]);
            } else {
                assert(m[i] == r[i - h - 1 - kb.len() - el.len()]);
                assert(r[i - h - 1 - kb.len() - el.len()] == ls[i - kb.len() - el.len() + n]);
            }
        }
        crate::text::lemma_lines_of_joined(m);
        lemma_scan_strip_cr(m, false, target);
        // Scan piece by piece.
        assert forall|k: int| 0 <= k < a1.len() implies !is_target(#[trigger] a1[k], target) by {
            assert(a1[k] == ls[k]);
        }
        lemma_scan_outside(a1, target);
        lemma_scan_quiet(kb, target);
        assert forall|k: int| 0 <= k < r.len() implies !is_target(#[trigger] r[k], target) by {
            assert(r[k] == ls[h + 1 + n + k]);
        }
        if r.len() > 0 {
            assert(r[0] == rest[n]);
            lemma_scan_outside(r.drop_first(), target);
            assert forall|k: int| 0 <= k < r.drop_first().len() implies !is_target(#[trigger] r.drop_first()[k], target) by {
                assert(r.drop_first()[k] == r[k + 1]);
            }
            lemma_scan_outside(r.drop_first(), target);
        }
        assert(priority_scan(r, true, target) =~= Seq::<(Seq<char>, i64)>::empty());
        lemma_scan_concat(a1, seq![ls[h]], false, target);
        lemma_scan_concat(a1 + seq![ls[h]], kb, false, target);
        lemma_scan_concat(a1 + seq![ls[h]] + kb, el, false, target);
        lemma_scan_concat(a1 + seq![ls[h]] + kb + el, r, false, target);
        lemma_scan_one_target(ls[h], target);
        assert(priority_scan(m, false, target) =~= entries);
}

#[verifier::rlimit(60)]
proof fn lemma_merge_then_read_new(content: Seq<char>, profile: Seq<char>, entries: Seq<(Seq<char>, i64)>)
    requires
        !profile.contains('\n'),
        forall|i: int| 0 <= i < entries.len() ==> key_ok(#[trigger] entries[i].0),
        forall|k: int| 0 <= k < lines_spec(content).len() ==> !is_target(#[trigger] lines_spec(content)[k], target_header(profile)),
    ensures
        priority_scan(lines_spec(crate::text::join_with(merged_lines(content, profile, entries), seq!['\n']) + seq!['\n']),
            false, target_header(profile)) == entries,
{
    reveal_strlit("\n");
    let target = target_header(profile);
    let ls = lines_spec(content);
    let el = entries.map_values(|e: (Seq<char>, i64)| entry_line(e));
    let m = merged_lines(content, profile, entries);
    crate::text::lemma_lines_no_newline(content);
    lemma_target_line(profile);
    assert forall|i: int| 0 <= i < el.len() implies !(#[trigger] el[i]).contains('\n') by {
        lemma_entry_line_reads(entries[i]);
    }
    lemma_scan_entries(entries, target);
        lemma_merge_outside(ls, target, el);
        lemma_scan_outside(ls, target);
        let pad = if ls.len() > 0 && trim_seq(ls.last()).len() > 0 {
            seq![Seq::<char>::empty()]
        } else {
            Seq::<Seq<char>>::empty()
        };
        let hint = priority_hint();
        reveal_strlit("; Higher values override lower ones (default 50).");
        assert(hint[0] == ';');
        assert(hint.last() == '.');
        crate::text::lemma_trim_noop(hint);
        lemma_first_index(hint, ';');
        assert(before_comment(hint) =~= Seq::<char>::empty());
        assert(m == ls + pad + seq![target, hint] + el);
        assert(!hint.contains('\n')) by {
            if hint.contains('\n') {
                let k = choose|k: int| 0 <= k < hint.len() && hint[k] == '\n';
            }
        }
        assert forall|i: int| 0 <= i < m.len() implies !(#[trigger] m[i]).contains('\n') by {
            if i < ls.len() {
                assert(m[i] == ls[i]);
            } else if i < ls.len() + pad.len() {
                assert(m[i] == Seq::<char>::empty());
            } else if i == ls.len() + pad.len() {
                assert(m[i] == target);
            } else if i == ls.len() + pad.len() + 1 {
                assert(m[i] == hint);
            } else {
                assert(m[i] == el[i - ls.len() - pad.len() - 2]);
            }
        }
        crate::text::lemma_lines_of_joined(m);
        lemma_scan_strip_cr(m, false, target);
        assert forall|k: int| 0 <= k < pad.len() implies !is_target(#[trigger] pad[k], target) by {
            assert(pad[k] == Seq::<char>::empty());
            assert(trim_seq(Seq::<char>::empty()) == Seq::<char>::empty());
        }
        lemma_scan_outside(pad, target);
        lemma_scan_concat(ls, pad, false, target);
        lemma_scan_concat(ls + pad, seq![target, hint], false, target);
        lemma_scan_concat(ls + pad + seq![target, hint], el, false, target);
        lemma_scan_hint(target);
        assert(priority_scan(m, false, target) =~= entries);
}

/// Reading the priorities of a profile from a merged file gives exactly the
/// entries merged in, whenever the profile name has no newline, every entry
/// name reads back (no surrounding whitespace, no `=`, `;` or newline, not
/// starting with `[`), and the file has at most one section for the profile
/// with no comment line in it that reads as an entry.
pub proof fn lemma_merge_then_read(content: Seq<char>, profile: Seq<char>, entries: Seq<(Seq<char>, i64)>)
    requires
        !profile.contains('\n'),
        forall|i: int| 0 <= i < entries.len() ==> key_ok(#[trigger] entries[i].0),
        readable_ini(lines_spec(content), target_header(profile)),
    ensures
        priority_scan(lines_spec(crate::text::join_with(merged_lines(content, profile, entries), "\n"@) + "\n"@),
            false, target_header(profile)) == entries,
{
    reveal_strlit("\n");
    assert("\n"@ =~= seq!['\n']);
    let ls = lines_spec(content);
    let target = target_header(profile);
    if exists|h: int| 0 <= h < ls.len() && is_target(#[trigger] ls[h], target) {
        let h = choose|h: int| 0 <= h < ls.len() && is_target(#[trigger] ls[h], target);
        lemma_merge_then_read_found(content, profile, entries, h);
    } else {
        lemma_merge_then_read_new(content, profile, entries);
    }
}

proof fn lemma_kept_facts(x: Seq<Seq<char>>)
    ensures
        forall|i: int| 0 <= i < kept(x).len() ==> kept_line(#[trigger] kept(x)[i]) && x.contains(kept(x)[i]),
        (forall|i: int| 0 <= i < x.len() ==> kept_line(#[trigger] x[i])) ==> kept(x) == x,
        (forall|i: int| 0 <= i < x.len() ==> !kept_line(#[trigger] x[i])) ==> kept(x).len() == 0,
    decreases x.len(),
{
    if x.len() > 0 {
        let d = x.drop_last();
        lemma_kept_facts(d);
        assert forall|y: Seq<char>| d.contains(y) implies x.contains(y) by {
            let j = choose|j: int| 0 <= j < d.len() && d[j] == y;
            assert(x[j] == y);
        }
        assert(x.contains(x.last())) by {
            assert(x[x.len() - 1] == x.last());
        }
        if forall|i: int| 0 <= i < x.len() ==> kept_line(#[trigger] x[i]) {
            assert forall|i: int| 0 <= i < d.len() implies kept_line(#[trigger] d[i]) by {
                assert(d[i] == x[i]);
            }
            assert(kept_line(x[x.len() - 1]));
            assert(kept(x) =~= x);
        }
        if forall|i: int| 0 <= i < x.len() ==> !kept_line(#[trigger] x[i]) {
            assert forall|i: int| 0 <= i < d.len() implies !kept_line(#[trigger] d[i]) by {
                assert(d[i] == x[i]);
            }
            assert(!kept_line(x[x.len() - 1]));
        }
        if kept_line(x.last()) {
            assert(kept(x) == kept(d).push(x.last()));
        }
    }
}

proof fn lemma_kept_concat(a: Seq<Seq<char>>, b: Seq<Seq<char>>)
    ensures
        kept(a + b) == kept(a) + kept(b),
    decreases b.len(),
{
    if b.len() == 0 {
        assert(a + b =~= a);
        assert(kept(a) + kept(b) =~= kept(a));
    } else {
        lemma_kept_concat(a, b.drop_last());
        assert((a + b).drop_last() =~= a + b.drop_last());
        assert((a + b).last() == b.last());
        if kept_line(b.last()) {
            assert(kept(a) + kept(b) =~= (kept(a) + kept(b.drop_last())).push(b.last()));
        }
    }
}

/// Rewriting a file whose profile sections were already rewritten with the
/// same entries changes nothing.
proof fn lemma_scan_idem(ls: Seq<Seq<char>>, target: Seq<char>, el: Seq<Seq<char>>)
    requires
        forall|i: int| 0 <= i < el.len() ==> !kept_line(#[trigger] el[i]) && !is_header(trim_seq(el[i])),
    ensures
        merge_scan(merge_scan(ls, target, el).0, target, el) == merge_scan(ls, target, el),
        ls.len() > 0 ==> merge_scan(ls, target, el).0.len() > 0 && merge_scan(ls, target, el).0[0] == ls[0],
        ls.len() == 0 ==> merge_scan(ls, target, el).0.len() == 0,
    decreases ls.len(),
{
    if ls.len() > 0 {
        let t = trim_seq(ls[0]);
        let rest = ls.drop_first();
        let out = merge_scan(ls, target, el).0;
        if is_header(t) && eq_ignore_ascii_case(t, target) {
            lemma_body_len_bound(rest);
            lemma_body_lines(rest);
            let n = body_len(rest) as int;
            let b = rest.take(n);
            let sk = rest.skip(n);
            assert(sk.len() < ls.len());
            lemma_scan_idem(sk, target, el);
            let r = merge_scan(sk, target, el).0;
            let kb = kept(b);
            lemma_kept_facts(b);
            assert(out == seq![ls[0]] + kb + el + r);
            let rest2 = kb + el + r;
            assert(out.drop_first() =~= rest2);
            assert(out[0] == ls[0]);
            let x = kb + el;
            assert forall|k: int| 0 <= k < x.len() implies !is_header(trim_seq(#[trigger] x[k])) by {
                if k < kb.len() {
                    assert(x[k] == kb[k]);
                    assert(kept_line(kb[k]));
                } else {
                    assert(x[k] == el[k - kb.len()]);
                }
            }
            if r.len() > 0 {
                assert(sk.len() > 0);
                assert(sk[0] == rest[n]);
                assert(rest2[x.len() as int] == r[0]);
            }
            assert(rest2 =~= x + r);
            lemma_body_len(rest2, x.len() as int);
            assert(rest2.take(x.len() as int) =~= x);
            assert(rest2.skip(x.len() as int) =~= r);
            lemma_kept_concat(kb, el);
            lemma_kept_facts(kb);
            lemma_kept_facts(el);
            assert(kept(x) =~= kb);
            assert(merge_scan(out, target, el).0 =~= seq![ls[0]] + kept(x) + el + merge_scan(r, target, el).0);
        } else {
            lemma_scan_idem(rest, target, el);
            let r = merge_scan(rest, target, el).0;
            assert(out == seq![ls[0]] + r);
            assert(out.drop_first() =~= r);
            assert(out[0] == ls[0]);
            assert(merge_scan(out, target, el).0 =~= seq![ls[0]] + merge_scan(r, target, el).0);
        }
    }
}

proof fn lemma_scan_elems(ls: Seq<Seq<char>>, target: Seq<char>, el: Seq<Seq<char>>)
    ensures
        forall|i: int| 0 <= i < merge_scan(ls, target, el).0.len()
            ==> ls.contains(#[trigger] merge_scan(ls, target, el).0[i]) || el.contains(merge_scan(ls, target, el).0[i]),
    decreases ls.len(),
{
    if ls.len() > 0 {
        let t = trim_seq(ls[0]);
        let rest = ls.drop_first();
        let out = merge_scan(ls, target, el).0;
        assert forall|y: Seq<char>| rest.contains(y) implies ls.contains(y) by {
            let j = choose|j: int| 0 <= j < rest.len() && rest[j] == y;
            assert(ls[j + 1] == y);
        }
        assert(ls.contains(ls[0]));
        if is_header(t) && eq_ignore_ascii_case(t, target) {
            lemma_body_len_bound(rest);
            let n = body_len(rest) as int;
            let b = rest.take(n);
            let sk = rest.skip(n);
            lemma_scan_elems(sk, target, el);
            lemma_kept_facts(b);
            let kb = kept(b);
            let r = merge_scan(sk, target, el).0;
            assert(out == seq![ls[0]] + kb + el + r);
            assert forall|i: int| 0 <= i < out.len() implies ls.contains(#[trigger] out[i]) || el.contains(out[i]) by {
                if i == 0 {
                } else if i < 1 + kb.len() {
                    assert(out[i] == kb[i - 1]);
                    assert(b.contains(kb[i - 1]));
                    let j = choose|j: int| 0 <= j < b.len() && b[j] == kb[i - 1];
                    assert(rest[j] == b[j]);
                } else if i < 1 + kb.len() + el.len() {
                    assert(out[i] == el[i - 1 - kb.len()]);
                } else {
                    assert(out[i] == r[i - 1 - kb.len() - el.len()]);
                    if sk.contains(out[i]) {
                        let j = choose|j: int| 0 <= j < sk.len() && sk[j] == out[i];
                        assert(rest[j + n] == sk[j]);
                    }
                }
            }
        } else {
            lemma_scan_elems(rest, target, el);
            let r = merge_scan(rest, target, el).0;
            assert(out == seq![ls[0]] + r);
            assert forall|i: int| 0 <= i < out.len() implies ls.contains(#[trigger] out[i]) || el.contains(out[i]) by {
                if i > 0 {
                    assert(out[i] == r[i - 1]);
                }
            }
        }
    }
}

proof fn lemma_scan_found(ls: Seq<Seq<char>>, target: Seq<char>, el: Seq<Seq<char>>, h: int)
    requires
        0 <= h < ls.len(),
        is_target(ls[h], target),
    ensures
        merge_scan(ls, target, el).1,
    decreases ls.len(),
{
    let t = trim_seq(ls[0]);
    if !(is_header(t) && eq_ignore_ascii_case(t, target)) {
        assert(h > 0);
        assert(ls.drop_first()[h - 1] == ls[h]);
        lemma_scan_found(ls.drop_first(), target, el, h - 1);
    }
}

proof fn lemma_scan_prefix(a: Seq<Seq<char>>, b: Seq<Seq<char>>, target: Seq<char>, el: Seq<Seq<char>>)
    requires
        forall|k: int| 0 <= k < a.len() ==> !is_target(#[trigger] a[k], target),
    ensures
        merge_scan(a + b, target, el) == (a + merge_scan(b, target, el).0, merge_scan(b, target, el).1),
    decreases a.len(),
{
    if a.len() == 0 {
        assert(a + b =~= b);
        assert(a + merge_scan(b, target, el).0 =~= merge_scan(b, target, el).0);
    } else {
        assert(!is_target(a[0], target));
        let d = a.drop_first();
        assert forall|k: int| 0 <= k < d.len() implies !is_target(#[trigger] d[k], target) by {
            assert(d[k] == a[k + 1]);
        }
        lemma_scan_prefix(d, b, target, el);
        assert((a + b).drop_first() =~= d + b);
        assert((a + b)[0] == a[0]);
        assert(seq![a[0]] + (d + merge_scan(b, target, el).0) =~= a + merge_scan(b, target, el).0);
    }
}

/// Merging the same priorities twice gives the text merging once gives,
/// whenever the profile name has no newline, every entry name reads back and
/// does not start with `#`, and no line of the text, as read, still ends in
/// a carriage return (`\r\n` line ends are read without it; a line such
/// as `a\r` at the end of the text is written back as `a\r\n` and then read
/// as `a`).
pub proof fn lemma_merge_idempotent(content: Seq<char>, profile: Seq<char>, entries: Seq<(Seq<char>, i64)>)
    requires
        !profile.contains('\n'),
        forall|i: int| 0 <= i < entries.len() ==> key_ok(#[trigger] entries[i].0)
            && !(entries[i].0.len() > 0 && entries[i].0[0] == '#'),
        forall|k: int| 0 <= k < lines_spec(content).len()
            ==> !(lines_spec(content)[k].len() > 0 && #[trigger] lines_spec(content)[k].last() == '\r'),
    ensures
        ({
            let once = crate::text::join_with(merged_lines(content, profile, entries), "\n"@) + "\n"@;
            crate::text::join_with(merged_lines(once, profile, entries), "\n"@) + "\n"@ == once
        }),
{
    reveal_strlit("\n");
    assert("\n"@ =~= seq!['\n']);
    let ls = lines_spec(content);
    let target = target_header(profile);
    let el = entries.map_values(|e: (Seq<char>, i64)| entry_line(e));
    let m = merged_lines(content, profile, entries);
    let once = crate::text::join_with(m, seq!['\n']) + seq!['\n'];
    crate::text::lemma_lines_no_newline(content);
    lemma_target_line(profile);
    let hint = priority_hint();
    reveal_strlit("; Higher values override lower ones (default 50).");
    assert(hint[0] == ';');
    assert(hint.last() == '.');
    crate::text::lemma_trim_noop(hint);
    assert(!hint.contains('\n')) by {
        if hint.contains('\n') {
            let k = choose|k: int| 0 <= k < hint.len() && hint[k] == '\n';
        }
    }
    assert(kept_line(hint));
    assert forall|i: int| 0 <= i < el.len() implies !kept_line(#[trigger] el[i]) && !is_header(trim_seq(el[i]))
        && !el[i].contains('\n') && el[i].last() != '\r' && el[i].len() > 0 by {
        lemma_entry_line_reads(entries[i]);
        assert(el[i] == entry_line(entries[i]));
        let n = entries[i].0;
        if n.len() > 0 {
            assert(!n.contains(';'));
            assert(n[0] != ';') by {
                if n[0] == ';' {
                    assert(n.contains(';'));
                }
            }
        }
    }
    // The lines written are read back unchanged.
    let good = |l: Seq<char>| !l.contains('\n') && !(l.len() > 0 && l.last() == '\r');
    assert forall|i: int| 0 <= i < ls.len() implies #[trigger] good(ls[i]) by {}
    assert forall|i: int| 0 <= i < el.len() implies #[trigger] good(el[i]) by {}
    let r = merge_scan(ls, target, el);
    lemma_scan_elems(ls, target, el);
    lemma_scan_idem(ls, target, el);
    if exists|h: int| 0 <= h < ls.len() && is_target(#[trigger] ls[h], target) {
        let h = choose|h: int| 0 <= h < ls.len() && is_target(#[trigger] ls[h], target);
        lemma_scan_found(ls, target, el, h);
        assert(m == r.0);
        assert(m.len() > 0);
        assert forall|i: int| 0 <= i < m.len() implies #[trigger] good(m[i]) by {
            if ls.contains(m[i]) {
                let j = choose|j: int| 0 <= j < ls.len() && ls[j] == m[i];
                assert(good(ls[j]));
            } else {
                let j = choose|j: int| 0 <= j < el.len() && el[j] == m[i];
                assert(good(el[j]));
            }
        }
        assert forall|i: int| 0 <= i < m.len() implies !(#[trigger] m[i]).contains('\n') by {
            assert(good(m[i]));
        }
        crate::text::lemma_lines_of_joined(m);
        assert(m.map_values(|x: Seq<char>| crate::text::strip_cr(x)) =~= m) by {
            assert forall|i: int| 0 <= i < m.len() implies crate::text::strip_cr(m[i]) == m[i] by {
                assert(good(m[i]));
            }
        }
        assert(lines_spec(once) == m);
        assert(merge_scan(m, target, el) == r);
        assert(merged_lines(once, profile, entries) == m);
    } else {
        lemma_merge_outside(ls, target, el);
        let pad = if ls.len() > 0 && trim_seq(ls.last()).len() > 0 {
            seq![Seq::<char>::empty()]
        } else {
            Seq::<Seq<char>>::empty()
        };
        assert(m == ls + pad + seq![target, hint] + el);
        assert forall|i: int| 0 <= i < m.len() implies #[trigger] good(m[i]) by {
            if i < ls.len() {
                assert(m[i] == ls[i]);
            } else if i < ls.len() + pad.len() {
                assert(m[i] == Seq::<char>::empty());
            } else if i == ls.len() + pad.len() {
                assert(m[i] == target);
            } else if i == ls.len() + pad.len() + 1 {
                assert(m[i] == hint);
            } else {
                assert(m[i] == el[i - ls.len() - pad.len() - 2]);
            }
        }
        assert forall|i: int| 0 <= i < m.len() implies !(#[trigger] m[i]).contains('\n') by {
            assert(good(m[i]));
        }
        crate::text::lemma_lines_of_joined(m);
        assert(m.map_values(|x: Seq<char>| crate::text::strip_cr(x)) =~= m) by {
            assert forall|i: int| 0 <= i < m.len() implies crate::text::strip_cr(m[i]) == m[i] by {
                assert(good(m[i]));
            }
        }
        assert(lines_spec(once) == m);
        let a = ls + pad;
        assert forall|k: int| 0 <= k < a.len() implies !is_target(#[trigger] a[k], target) by {
            if k >= ls.len() {
                assert(a[k] == Seq::<char>::empty());
                assert(trim_seq(Seq::<char>::empty()) == Seq::<char>::empty());
            } else {
                assert(a[k] == ls[k]);
            }
        }
        let tail = seq![target, hint] + el;
        assert(m =~= a + tail);
        lemma_scan_prefix(a, tail, target, el);
        // The new section reads as a target section whose body is the hint and the entries.
        let rest = tail.drop_first();
        assert(rest =~= seq![hint] + el);
        assert(tail[0] == target);
        let x = seq![hint] + el;
        assert forall|k: int| 0 <= k < x.len() implies !is_header(trim_seq(#[trigger] x[k])) by {
            if k > 0 {
                assert(x[k] == el[k - 1]);
            }
        }
        lemma_body_len(rest, x.len() as int);
        assert(rest.take(x.len() as int) =~= x);
        assert(rest.skip(x.len() as int) =~= Seq::<Seq<char>>::empty());
        lemma_kept_concat(seq![hint], el);
        lemma_kept_facts(seq![hint]);
        lemma_kept_facts(el);
        assert(kept(x) =~= seq![hint]);
        assert(merge_scan(Seq::<Seq<char>>::empty(), target, el).0 =~= Seq::<Seq<char>>::empty());
        assert(merge_scan(tail, target, el).0 =~= seq![target] + seq![hint] + el + Seq::<Seq<char>>::empty());
        assert(merge_scan(tail, target, el).1);
        assert(merge_scan(m, target, el).0 =~= m);
        assert(merged_lines(once, profile, entries) == m);
    }
}

/// What merging writes, line by line: without a section for the profile,
/// the text's lines first, unchanged and in order, then the new section;
/// with one (at line `h`), the lines before it, its header, its blank and
/// comment lines and the lines after it, unchanged and in order, the new
/// entries closing the section. The text written ends in a newline and
/// reads back as exactly the entries merged in, under the conditions of
/// `lemma_merge_then_read`.
pub proof fn lemma_merge_keeps_lines(content: Seq<char>, profile: Seq<char>, entries: Seq<(Seq<char>, i64)>)
    requires
        !profile.contains('\n'),
        forall|i: int| 0 <= i < entries.len() ==> key_ok(#[trigger] entries[i].0),
        readable_ini(lines_spec(content), target_header(profile)),
    ensures
        ({
            let written = crate::text::join_with(merged_lines(content, profile, entries), "\n"@) + "\n"@;
            &&& priority_scan(lines_spec(written), false, target_header(profile)) == entries
            &&& written.len() > 0 && written.last() == '\n'
        }),
        (forall|k: int| 0 <= k < lines_spec(content).len() ==> !is_target(#[trigger] lines_spec(content)[k], target_header(profile)))
            ==> merged_lines(content, profile, entries).take(lines_spec(content).len() as int) == lines_spec(content),
        forall|h: int| 0 <= h < lines_spec(content).len() && is_target(#[trigger] lines_spec(content)[h], target_header(profile))
            ==> merged_lines(content, profile, entries) == ({
                let ls = lines_spec(content);
                ls.take(h) + seq![ls[h]] + kept(body_of(ls, h))
                    + entries.map_values(|e: (Seq<char>, i64)| entry_line(e))
                    + ls.skip(h + 1).skip(body_len(ls.skip(h + 1)) as int)
            }),
{
    reveal_strlit("\n");
    lemma_merge_then_read(content, profile, entries);
    let ls = lines_spec(content);
    let target = target_header(profile);
    let el = entries.map_values(|e: (Seq<char>, i64)| entry_line(e));
    if forall|k: int| 0 <= k < ls.len() ==> !is_target(#[trigger] ls[k], target) {
        lemma_merge_outside(ls, target, el);
        let m = merged_lines(content, profile, entries);
        assert(m.take(ls.len() as int) =~= ls);
    }
    assert forall|h: int| 0 <= h < ls.len() && is_target(#[trigger] ls[h], target) implies merged_lines(content, profile, entries)
        == ls.take(h) + seq![ls[h]] + kept(body_of(ls, h)) + el + ls.skip(h + 1).skip(body_len(ls.skip(h + 1)) as int) by {
        assert forall|k: int| 0 <= k < ls.len() && k != h implies !is_target(#[trigger] ls[k], target) by {
            if is_target(ls[k], target) {
                assert(k == h);
            }
        }
        lemma_merge_one(ls, target, el, h);
    }
}

/// Mod `i` of the enabled ones declares Mod Loader priority `p` for the
/// valid folder name `n`.
pub open spec fn declares(metas: Seq<Option<ModMeta>>, detected: Seq<Vec<String>>, i: int, n: Seq<char>, p: i64) -> bool {
    &&& 0 <= i < metas.len()
    &&& 0 <= i < detected.len()
    &&& metas[i] is Some
    &&& priority_of(metas[i]) == Some(p)
    &&& folders_of(metas[i].unwrap(), views(detected[i]@)).contains(n)
    &&& modloader_folder_ok(n)
}

/// Some enabled mod declares priority `p` for the valid folder name `n`.
pub open spec fn declared(metas: Seq<Option<ModMeta>>, detected: Seq<Vec<String>>, n: Seq<char>, p: i64) -> bool {
    exists|k: int| #[trigger] declares(metas, detected, k, n, p)
}

proof fn lemma_named(names: Seq<Seq<char>>, p: i64)
    ensures
        forall|k: int| 0 <= k < named(names, p).len() ==> (#[trigger] named(names, p)[k]).1 == p
            && names.contains(named(names, p)[k].0) && modloader_folder_ok(named(names, p)[k].0),
        forall|j: int| 0 <= j < names.len() && modloader_folder_ok(#[trigger] names[j]) ==> named(names, p).contains((names[j], p)),
    decreases names.len(),
{
    if names.len() > 0 {
        let d = names.drop_last();
        lemma_named(d, p);
        let r = named(names, p);
        let q = named(d, p);
        assert forall|k: int| 0 <= k < r.len() implies (#[trigger] r[k]).1 == p && names.contains(r[k].0) && modloader_folder_ok(r[k].0) by {
            if k < q.len() {
                assert(r[k] == q[k]);
                let t = choose|t: int| 0 <= t < d.len() && d[t] == q[k].0;
                assert(names[t] == d[t]);
            } else {
                assert(names[names.len() - 1] == names.last());
            }
        }
        assert forall|j: int| 0 <= j < names.len() && modloader_folder_ok(#[trigger] names[j]) implies r.contains((names[j], p)) by {
            if j < d.len() {
                assert(d[j] == names[j]);
                let t = choose|t: int| 0 <= t < q.len() && q[t] == (d[j], p);
                assert(r[t] == q[t]);
            } else {
                assert(r[r.len() - 1] == (names[j], p));
            }
        }
    }
}

proof fn lemma_candidate_source(en: Seq<String>, metas: Seq<Option<ModMeta>>, detected: Seq<Vec<String>>, k: int) -> (i: int)
    requires
        en.len() == metas.len(),
        metas.len() == detected.len(),
        0 <= k < candidates(en, metas, detected).0.len(),
    ensures
        declares(metas, detected, i, candidates(en, metas, detected).0[k].0, candidates(en, metas, detected).0[k].1),
    decreases en.len(),
{
    let (e2, m2, d2) = (en.drop_last(), metas.drop_last(), detected.drop_last());
    let c = candidates(en, metas, detected).0;
    let c2 = candidates(e2, m2, d2).0;
    let last = metas.len() - 1;
    assert(metas[last] == metas.last() && detected[last] == detected.last());
    match (metas.last(), priority_of(metas.last())) {
        (Some(m), Some(p)) => {
            let names = folders_of(m, views(detected.last()@));
            assert(c == c2 + named(names, p));
            if k < c2.len() {
                assert(c[k] == c2[k]);
                let i = lemma_candidate_source(e2, m2, d2, k);
                assert(m2[i] == metas[i] && d2[i] == detected[i]);
                i
            } else {
                lemma_named(names, p);
                assert(c[k] == named(names, p)[k - c2.len()]);
                last
            }
        },
        _ => {
            assert(c == c2);
            let i = lemma_candidate_source(e2, m2, d2, k);
            assert(m2[i] == metas[i] && d2[i] == detected[i]);
            i
        },
    }
}

proof fn lemma_declared_candidate(en: Seq<String>, metas: Seq<Option<ModMeta>>, detected: Seq<Vec<String>>, i: int, n: Seq<char>, p: i64)
    requires
        en.len() == metas.len(),
        metas.len() == detected.len(),
        declares(metas, detected, i, n, p),
    ensures
        candidates(en, metas, detected).0.contains((n, p)),
    decreases en.len(),
{
    let (e2, m2, d2) = (en.drop_last(), metas.drop_last(), detected.drop_last());
    let c = candidates(en, metas, detected).0;
    let c2 = candidates(e2, m2, d2).0;
    let last = metas.len() - 1;
    assert(metas[last] == metas.last() && detected[last] == detected.last());
    if i < last {
        assert(m2[i] == metas[i] && d2[i] == detected[i]);
        lemma_declared_candidate(e2, m2, d2, i, n, p);
        let t = choose|t: int| 0 <= t < c2.len() && c2[t] == (n, p);
        match (metas.last(), priority_of(metas.last())) {
            (Some(m), Some(q)) => {
                let names = folders_of(m, views(detected.last()@));
                assert(c == c2 + named(names, q));
                assert(c[t] == c2[t]);
            },
            _ => {
                assert(c == c2);
            },
        }
    } else {
        let m = metas.last().unwrap();
        let names = folders_of(m, views(detected.last()@));
        lemma_named(names, p);
        assert(c == c2 + named(names, p));
        let j = choose|j: int| 0 <= j < names.len() && names[j] == n;
        assert(modloader_folder_ok(names[j]));
        let t = choose|t: int| 0 <= t < named(names, p).len() && named(names, p)[t] == (names[j], p);
        assert(c[c2.len() + t] == (n, p));
    }
}

/// The Mod Loader entries of the enabled mods, in terms of what they
/// declare: sorted by folder name with no name twice, and for every valid
/// folder name an enabled mod declares with priority `p` there is an entry
/// for it, with priority at most `p`. With `lemma_entries_from_declarations`
/// (each entry is declared so), each entry has the least priority declared
/// for its name.
pub proof fn lemma_entries_declared(en: Seq<String>, metas: Seq<Option<ModMeta>>, detected: Seq<Vec<String>>)
    requires
        en.len() == metas.len(),
        metas.len() == detected.len(),
    ensures
        forall|i: int, j: int| 0 <= i < j < entries_spec(en, metas, detected).len()
            ==> !crate::order::precedes(#[trigger] entries_spec(en, metas, detected)[j].0, #[trigger] entries_spec(en, metas, detected)[i].0, false)
                && entries_spec(en, metas, detected)[i].0 != entries_spec(en, metas, detected)[j].0,
        forall|k: int, n: Seq<char>, p: i64| #[trigger] declares(metas, detected, k, n, p)
            ==> exists|i: int| 0 <= i < entries_spec(en, metas, detected).len()
                && (#[trigger] entries_spec(en, metas, detected)[i]).0 == n && entries_spec(en, metas, detected)[i].1 <= p,
{
    lemma_entries_sorted_unique_least(en, metas, detected);
    let r = entries_spec(en, metas, detected);
    let c = candidates(en, metas, detected).0;
    assert forall|k: int, n: Seq<char>, p: i64| #[trigger] declares(metas, detected, k, n, p)
        implies exists|i: int| 0 <= i < r.len() && (#[trigger] r[i]).0 == n && r[i].1 <= p by {
        lemma_declared_candidate(en, metas, detected, k, n, p);
        let t = choose|t: int| 0 <= t < c.len() && c[t] == (n, p);
        let i = choose|i: int| 0 <= i < r.len() && #[trigger] r[i].0 == #[trigger] c[t].0;
        assert(r[i].1 <= c[t].1);
    }
}

/// Every Mod Loader entry of the enabled mods is a valid folder name that
/// some enabled mod declares with exactly that priority.
pub proof fn lemma_entries_from_declarations(en: Seq<String>, metas: Seq<Option<ModMeta>>, detected: Seq<Vec<String>>)
    requires
        en.len() == metas.len(),
        metas.len() == detected.len(),
    ensures
        forall|i: int| 0 <= i < entries_spec(en, metas, detected).len()
            ==> declared(metas, detected, (#[trigger] entries_spec(en, metas, detected)[i]).0, entries_spec(en, metas, detected)[i].1),
{
    lemma_entries_sorted_unique_least(en, metas, detected);
    let r = entries_spec(en, metas, detected);
    let c = candidates(en, metas, detected).0;
    assert forall|i: int| 0 <= i < r.len() implies declared(metas, detected, (#[trigger] r[i]).0, r[i].1) by {
        assert(c.contains(r[i]));
        let t = choose|t: int| 0 <= t < c.len() && c[t] == r[i];
        let k = lemma_candidate_source(en, metas, detected, t);
        assert(declares(metas, detected, k, r[i].0, r[i].1));
    }
}

proof fn lemma_sub_lacks(s: Seq<char>, a: int, b: int, c: char)
    requires
        !s.contains(c),
        0 <= a <= b <= s.len(),
    ensures
        !s.subrange(a, b).contains(c),
{
    if s.subrange(a, b).contains(c) {
        let k = choose|k: int| 0 <= k < s.subrange(a, b).len() && s.subrange(a, b)[k] == c;
        assert(s[a + k] == c);
    }
}

proof fn lemma_trim_lacks(s: Seq<char>, c: char)
    requires
        !s.contains(c),
    ensures
        !trim_seq(s).contains(c),
    decreases s.len(),
{
    if s.len() > 0 && crate::text::is_ws(s[0]) {
        lemma_sub_lacks(s, 1, s.len() as int, c);
        assert(s.drop_first() =~= s.subrange(1, s.len() as int));
        lemma_trim_lacks(s.drop_first(), c);
    } else if s.len() > 0 && crate::text::is_ws(s.last()) {
        lemma_sub_lacks(s, 0, s.len() - 1, c);
        assert(s.drop_last() =~= s.subrange(0, s.len() - 1));
        lemma_trim_lacks(s.drop_last(), c);
    }
}

proof fn lemma_trim_quotes_lacks(s: Seq<char>, c: char)
    requires
        !s.contains(c),
    ensures
        !trim_quotes(s).contains(c),
    decreases s.len(),
{
    if s.len() > 0 && s[0] == '"' {
        lemma_sub_lacks(s, 1, s.len() as int, c);
        assert(s.drop_first() =~= s.subrange(1, s.len() as int));
        lemma_trim_quotes_lacks(s.drop_first(), c);
    } else if s.len() > 0 && s.last() == '"' {
        lemma_sub_lacks(s, 0, s.len() - 1, c);
        assert(s.drop_last() =~= s.subrange(0, s.len() - 1));
        lemma_trim_quotes_lacks(s.drop_last(), c);
    }
}

proof fn lemma_profile_value_lacks(t: Seq<char>, c: char)
    requires
        !t.contains(c),
    ensures
        profile_value(t) matches Some(v) ==> !v.contains(c),
{
    let bc = before_comment(t);
    lemma_first_index(t, ';');
    lemma_sub_lacks(t, 0, first_index(t, ';'), c);
    assert(bc =~= t.subrange(0, first_index(t, ';')));
    if bc.contains('=') {
        lemma_first_index(bc, '=');
        let f = first_index(bc, '=');
        lemma_sub_lacks(bc, f + 1, bc.len() as int, c);
        let v = bc.skip(f + 1);
        assert(v =~= bc.subrange(f + 1, bc.len() as int));
        lemma_trim_lacks(v, c);
        lemma_trim_quotes_lacks(trim_seq(v), c);
        lemma_trim_lacks(trim_quotes(trim_seq(v)), c);
    }
}

proof fn lemma_config_scan_lacks(ls: Seq<Seq<char>>, in_section: bool, c: char)
    requires
        forall|i: int| 0 <= i < ls.len() ==> !(#[trigger] ls[i]).contains(c),
    ensures
        config_scan(ls, in_section) matches Some(v) ==> !v.contains(c),
    decreases ls.len(),
{
    if ls.len() > 0 {
        let d = ls.drop_first();
        assert forall|i: int| 0 <= i < d.len() implies !(#[trigger] d[i]).contains(c) by {
            assert(d[i] == ls[i + 1]);
        }
        assert(!ls[0].contains(c));
        lemma_trim_lacks(ls[0], c);
        lemma_profile_value_lacks(trim_seq(ls[0]), c);
        let t = trim_seq(ls[0]);
        if is_header(t) {
            lemma_config_scan_lacks(d, eq_ignore_ascii_case(t, "[Folder.Config]"@), c);
        } else {
            lemma_config_scan_lacks(d, in_section, c);
        }
    }
}

/// Merging into a `modloader.ini` writes the priorities of the profile its
/// `[Folder.Config]` names: reading that profile's priorities back from the
/// new text gives exactly the entries merged in, whenever every entry name
/// reads back and the text has at most one section for that profile, with
/// no comment line in it that reads as an entry.
pub proof fn lemma_merged_ini_configured(existing: Seq<char>, entries: Seq<(Seq<char>, i64)>, profile: Seq<char>)
    requires
        trim_seq(existing).len() > 0,
        config_scan(lines_spec(existing), false) == Some(profile),
        forall|i: int| 0 <= i < entries.len() ==> key_ok(#[trigger] entries[i].0),
        readable_ini(lines_spec(existing), target_header(profile)),
    ensures
        priority_scan(lines_spec(ini_after(existing, entries)), false, target_header(profile)) == entries,
{
    crate::text::lemma_lines_no_newline(existing);
    lemma_config_scan_lacks(lines_spec(existing), false, '\n');
    lemma_merge_then_read(existing, profile, entries);
    reveal_strlit("\n");
}

} // verus!
