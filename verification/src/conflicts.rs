use vstd::prelude::*;
use owo_colors::OwoColorize;
use crate::constraints::views;
use crate::log::sgr;
use crate::order::{seq_lt, str_lt, lemma_lt_total, lemma_lt_trans, lemma_lt_irrefl};
use crate::text::{has_prefix, has_suffix, lower, to_lowercase, starts_with_str, ends_with_str, chars_of, join_strings, join_with, nat_decimal, push_nat_decimal};
use crate::meta::str_is;

verus! {

#[derive(Debug, Clone, Copy, PartialEq, Eq, Structural)]
pub enum Severity {
    High,
    Medium,
    Info,
}

#[derive(Debug)]
pub struct Conflict {
    /// Game-root-relative path provided by more than one enabled mod.
    pub path: String,
    /// Providing mod folders, in overlay priority order (first one wins).
    pub providers: Vec<String>,
    /// True when every provider has identical content (harmless duplicate).
    pub duplicate: bool,
    pub severity: Severity,
}

/// Result of asking "who provides this game-relative path".
#[derive(Debug)]
pub struct PathProviders {
    /// Folders in overlay priority order (first one wins).
    pub providers: Vec<String>,
    /// File sizes, aligned with `providers`.
    pub sizes: Vec<u64>,
    pub duplicate: bool,
    pub severity: Severity,
}

/// One file contributed by a mod layer, as found when walking it.
#[derive(Debug)]
pub struct FileRecord {
    /// Path relative to the layer root, with `/` separators.
    pub rel: String,
    /// The mod folder that provides it.
    pub folder: String,
    /// Where the file is on disk.
    pub file: String,
    pub size: u64,
}

/// The records of every mod that provide one game-relative path, in overlay
/// priority order.
#[derive(Debug)]
pub struct PathGroup {
    pub path: String,
    pub records: Vec<FileRecord>,
}

/// How a path is classified: executables are high severity, the Mod Loader
/// tree (which orders its own priorities) is informative, the rest medium.
pub open spec fn severity_spec(path: Seq<char>) -> Severity {
    let p = lower(path);
    if p == "gta_sa.exe"@ || p == "gta_sa.pdb"@ || has_suffix(p, ".exe"@) {
        Severity::High
    } else if has_prefix(p, "modloader/"@) {
        Severity::Info
    } else {
        Severity::Medium
    }
}

pub fn severity_for(path: &str) -> (s: Severity)
    ensures
        s == severity_spec(path@),
{
    let p = to_lowercase(path);
    if str_is(p.as_str(), "gta_sa.exe") || str_is(p.as_str(), "gta_sa.pdb") || ends_with_str(p.as_str(), ".exe") {
        Severity::High
    } else if starts_with_str(p.as_str(), "modloader/") {
        Severity::Info
    } else {
        Severity::Medium
    }
}

/// The records that provide `p`, in input order.
pub open spec fn records_at(rs: Seq<FileRecord>, p: Seq<char>) -> Seq<FileRecord>
    decreases rs.len(),
{
    if rs.len() == 0 {
        Seq::empty()
    } else if rs.last().rel@ == p {
        records_at(rs.drop_last(), p).push(rs.last())
    } else {
        records_at(rs.drop_last(), p)
    }
}

/// Paths strictly increasing through the groups (so each appears once).
pub open spec fn strictly_sorted(gs: Seq<PathGroup>) -> bool {
    forall|i: int, j: int| 0 <= i < j < gs.len() ==> seq_lt(#[trigger] gs[i].path@, #[trigger] gs[j].path@)
}

/// Every path that occurs in `rs` has its group, holding its records.
pub open spec fn groups_of(gs: Seq<PathGroup>, rs: Seq<FileRecord>) -> bool {
    &&& strictly_sorted(gs)
    &&& forall|i: int| 0 <= i < gs.len() ==> (#[trigger] gs[i]).records@ == records_at(rs, gs[i].path@)
    &&& forall|i: int| 0 <= i < gs.len() ==> records_at(rs, (#[trigger] gs[i]).path@).len() > 0
    &&& forall|k: int| 0 <= k < rs.len() ==> exists|i: int| 0 <= i < gs.len() && (#[trigger] gs[i]).path@ == (#[trigger] rs[k]).rel@
}

proof fn lemma_records_at_absent(rs: Seq<FileRecord>, p: Seq<char>)
    requires
        forall|k: int| 0 <= k < rs.len() ==> (#[trigger] rs[k]).rel@ != p,
    ensures
        records_at(rs, p).len() == 0,
    decreases rs.len(),
{
    if rs.len() > 0 {
        assert(rs.last().rel@ != p);
        lemma_records_at_absent(rs.drop_last(), p);
    }
}

/// Groups the walked files by their game-relative path, sorted by path; each
/// group keeps its providers in input (overlay priority) order.
pub fn group_by_path(records: Vec<FileRecord>) -> (groups: Vec<PathGroup>)
    ensures
        groups_of(groups@, records@),
{
    let ghost rs = records@;
    let n = records.len();
    let mut records = records;
    let mut rev: Vec<FileRecord> = Vec::new();
    // Reverse once so that popping yields the records in input order.
    while records.len() > 0
        invariant
            records.len() + rev.len() == n,
            rs.len() == n,
            records@ == rs.take(records.len() as int),
            forall|k: int| 0 <= k < rev.len() ==> rev@[k] == rs[n - 1 - k],
        decreases records.len(),
    {
        let ghost before = records@;
        let r = records.pop().unwrap();
        proof {
            assert(records@ =~= rs.take(records.len() as int));
        }
        rev.push(r);
    }
    let mut groups: Vec<PathGroup> = Vec::new();
    let mut i: usize = 0;
    proof {
        assert(rs.take(0) =~= Seq::<FileRecord>::empty());
    }
    while rev.len() > 0
        invariant
            i + rev.len() == n,
            rs.len() == n,
            forall|k: int| 0 <= k < rev.len() ==> rev@[k] == rs[n - 1 - k],
            groups_of(groups@, rs.take(i as int)),
        decreases rev.len(),
    {
        let r = rev.pop().unwrap();
        let ghost seen = rs.take(i as int);
        let ghost next = rs.take(i + 1);
        proof {
            assert(r == rs[i as int]);
            assert(next.drop_last() =~= seen);
            assert(next.last() == r);
        }
        // First group whose path is not before the record's path.
        let mut j: usize = 0;
        while j < groups.len() && str_lt(groups[j].path.as_str(), r.rel.as_str())
            invariant
                j <= groups.len(),
                groups_of(groups@, seen),
                forall|t: int| 0 <= t < j ==> seq_lt(#[trigger] groups@[t].path@, r.rel@),
            decreases groups.len() - j,
        {
            j = j + 1;
        }
        let ghost old_groups = groups@;
        if j < groups.len() && str_is(groups[j].path.as_str(), r.rel.as_str()) {
            let mut g = groups.remove(j);
            let ghost gv = g;
            g.records.push(r);
            groups.insert(j, g);
            proof {
                assert forall|t: int| 0 <= t < groups@.len() implies (#[trigger] groups@[t]).records@ == records_at(next, groups@[t].path@) by {
                    if t != j {
                        assert(groups@[t] == old_groups[t]);
                        assert(old_groups[t].path@ != r.rel@) by {
                            if t < j { lemma_lt_irrefl(r.rel@); }
                            else { lemma_lt_irrefl(r.rel@); }
                        }
                    }
                }
                assert forall|k: int| 0 <= k < next.len() implies exists|t: int| 0 <= t < groups@.len() && (#[trigger] groups@[t]).path@ == (#[trigger] next[k]).rel@ by {
                    if k < i {
                        assert(next[k] == seen[k]);
                        let t = choose|t: int| 0 <= t < old_groups.len() && (#[trigger] old_groups[t]).path@ == seen[k].rel@;
                        assert(groups@[t].path@ == old_groups[t].path@);
                    } else {
                        assert(groups@[j as int].path@ == next[k].rel@);
                    }
                }
                assert forall|a: int, b: int| 0 <= a < b < groups@.len() implies seq_lt(#[trigger] groups@[a].path@, #[trigger] groups@[b].path@) by {
                    assert(groups@[a].path@ == old_groups[a].path@);
                    assert(groups@[b].path@ == old_groups[b].path@);
                }
                assert forall|t: int| 0 <= t < groups@.len() implies records_at(next, (#[trigger] groups@[t]).path@).len() > 0 by {
                    assert(groups@[t].path@ == old_groups[t].path@);
                }
            }
        } else {
            let path = r.rel.clone();
            let ghost pv = path@;
            proof {
                if j < old_groups.len() {
                    lemma_lt_total(old_groups[j as int].path@, pv);
                }
                assert forall|t: int| 0 <= t < old_groups.len() implies (#[trigger] old_groups[t]).path@ != pv by {
                    if t < j {
                        lemma_lt_irrefl(pv);
                    } else if t > j {
                        lemma_lt_trans(pv, old_groups[j as int].path@, old_groups[t].path@);
                        lemma_lt_irrefl(pv);
                    }
                }
                assert forall|k: int| 0 <= k < seen.len() implies (#[trigger] seen[k]).rel@ != pv by {
                    let t = choose|t: int| 0 <= t < old_groups.len() && (#[trigger] old_groups[t]).path@ == seen[k].rel@;
                }
                lemma_records_at_absent(seen, pv);
            }
            let mut recs: Vec<FileRecord> = Vec::new();
            recs.push(r);
            let g = PathGroup { path, records: recs };
            groups.insert(j, g);
            proof {
                assert(records_at(next, pv) =~= seq![r]);
                assert forall|t: int| 0 <= t < groups@.len() implies (#[trigger] groups@[t]).records@ == records_at(next, groups@[t].path@) by {
                    if t < j {
                        assert(groups@[t] == old_groups[t]);
                    } else if t > j {
                        assert(groups@[t] == old_groups[t - 1]);
                    }
                }
                assert forall|t: int| 0 <= t < groups@.len() implies records_at(next, (#[trigger] groups@[t]).path@).len() > 0 by {
                    if t < j {
                        assert(groups@[t] == old_groups[t]);
                    } else if t > j {
                        assert(groups@[t] == old_groups[t - 1]);
                    }
                }
                assert forall|k: int| 0 <= k < next.len() implies exists|t: int| 0 <= t < groups@.len() && (#[trigger] groups@[t]).path@ == (#[trigger] next[k]).rel@ by {
                    if k < i {
                        assert(next[k] == seen[k]);
                        let t = choose|t: int| 0 <= t < old_groups.len() && (#[trigger] old_groups[t]).path@ == seen[k].rel@;
                        if t < j {
                            assert(groups@[t] == old_groups[t]);
                        } else {
                            assert(groups@[t + 1] == old_groups[t]);
                        }
                    } else {
                        assert(groups@[j as int].path@ == next[k].rel@);
                    }
                }
                assert forall|a: int, b: int| 0 <= a < b < groups@.len() implies seq_lt(#[trigger] groups@[a].path@, #[trigger] groups@[b].path@) by {
                    if b == j {
                        assert(groups@[a] == old_groups[a]);
                    } else if a == j {
                        assert(groups@[b] == old_groups[b - 1]);
                        if b - 1 > j {
                            lemma_lt_trans(pv, old_groups[j as int].path@, old_groups[b - 1].path@);
                        }
                    } else if b < j {
                        assert(groups@[a] == old_groups[a]);
                        assert(groups@[b] == old_groups[b]);
                    } else if a > j {
                        assert(groups@[a] == old_groups[a - 1]);
                        assert(groups@[b] == old_groups[b - 1]);
                    } else {
                        assert(groups@[a] == old_groups[a]);
                        assert(groups@[b] == old_groups[b - 1]);
                    }
                }
            }
        }
        i = i + 1;
    }
    proof {
        assert(rs.take(n as int) =~= rs);
    }
    groups
}


/// The folders of some records, in order.
pub open spec fn folders_of(rs: Seq<FileRecord>) -> Seq<Seq<char>> {
    rs.map_values(|r: FileRecord| r.folder@)
}

/// All records have the size of the first.
pub open spec fn same_sizes(rs: Seq<FileRecord>) -> bool {
    forall|k: int| 0 <= k < rs.len() ==> (#[trigger] rs[k]).size == rs[0].size
}

/// A conflict as plain values: path, providers, duplicate flag, severity.
pub open spec fn conflict_view(c: Conflict) -> (Seq<char>, Seq<Seq<char>>, bool, Severity) {
    (c.path@, c.providers@.map_values(|f: String| f@), c.duplicate, c.severity)
}

/// The conflict a group of two or more providers makes: its path, the
/// providers' folders in order, whether it is a harmless duplicate (same
/// sizes and `same_bytes`), and the path's severity.
#[verifier::opaque]
pub open spec fn conflict_entry(g: PathGroup, same_bytes: bool) -> (Seq<char>, Seq<Seq<char>>, bool, Severity) {
    (g.path@, folders_of(g.records@), same_sizes(g.records@) && same_bytes, severity_spec(g.path@))
}

/// The conflicts among path groups: every group provided by two or more mods,
/// in group order. It is a harmless duplicate when all copies have the same
/// size and `contents_equal` reports identical bytes for it.
pub open spec fn conflicts_spec(gs: Seq<PathGroup>, contents_equal: Seq<bool>) -> Seq<(Seq<char>, Seq<Seq<char>>, bool, Severity)>
    decreases gs.len(),
{
    if gs.len() == 0 {
        Seq::empty()
    } else {
        let rest = conflicts_spec(gs.drop_last(), contents_equal);
        let g = gs.last();
        if g.records@.len() >= 2 {
            rest.push(conflict_entry(g, contents_equal[gs.len() - 1]))
        } else {
            rest
        }
    }
}

fn folders(rs: &Vec<FileRecord>) -> (out: Vec<String>)
    ensures
        out@.map_values(|f: String| f@) == folders_of(rs@),
{
    let mut out: Vec<String> = Vec::new();
    let mut i: usize = 0;
    while i < rs.len()
        invariant
            i <= rs.len(),
            out@.map_values(|f: String| f@) == folders_of(rs@.take(i as int)),
        decreases rs.len() - i,
    {
        let ghost prev = out@.map_values(|f: String| f@);
        out.push(rs[i].folder.clone());
        proof {
            assert(rs@.take(i + 1) =~= rs@.take(i as int).push(rs@[i as int]));
            assert(out@.map_values(|f: String| f@) =~= prev.push(rs@[i as int].folder@));
            assert(out@.map_values(|f: String| f@) =~= folders_of(rs@.take(i + 1)));
        }
        i = i + 1;
    }
    assert(rs@.take(rs.len() as int) =~= rs@);
    out
}

fn sizes_equal(rs: &Vec<FileRecord>) -> (r: bool)
    requires
        rs.len() > 0,
    ensures
        r == same_sizes(rs@),
{
    let first = rs[0].size;
    let mut i: usize = 0;
    while i < rs.len()
        invariant
            i <= rs.len(),
            first == rs@[0].size,
            forall|k: int| 0 <= k < i ==> (#[trigger] rs@[k]).size == first,
        decreases rs.len() - i,
    {
        if rs[i].size != first {
            return false;
        }
        i = i + 1;
    }
    true
}

/// Reports the paths provided by more than one enabled mod, given the files
/// grouped by path and, per group, whether its copies have identical bytes.
pub fn scan_conflicts(groups: &Vec<PathGroup>, contents_equal: &Vec<bool>) -> (out: Vec<Conflict>)
    requires
        contents_equal.len() == groups.len(),
    ensures
        out@.map_values(|c: Conflict| conflict_view(c)) == conflicts_spec(groups@, contents_equal@),
{
    let mut out: Vec<Conflict> = Vec::new();
    let mut i: usize = 0;
    while i < groups.len()
        invariant
            i <= groups.len(),
            contents_equal.len() == groups.len(),
            out@.map_values(|c: Conflict| conflict_view(c)) == conflicts_spec(groups@.take(i as int), contents_equal@),
        decreases groups.len() - i,
    {
        let g = &groups[i];
        let ghost prev = out@.map_values(|c: Conflict| conflict_view(c));
        proof {
            assert(groups@.take(i + 1).drop_last() =~= groups@.take(i as int));
            assert(groups@.take(i + 1).last() == groups@[i as int]);
        }
        if g.records.len() >= 2 {
            let dup = sizes_equal(&g.records) && contents_equal[i];
            let c = Conflict {
                path: g.path.clone(),
                providers: folders(&g.records),
                duplicate: dup,
                severity: severity_for(g.path.as_str()),
            };
            out.push(c);
            proof {
                reveal(conflict_entry);
                assert(out@.map_values(|c: Conflict| conflict_view(c)) =~= conflicts_spec(groups@.take(i + 1), contents_equal@));
            }
        } else {
            proof {
                assert(out@.map_values(|c: Conflict| conflict_view(c)) =~= conflicts_spec(groups@.take(i + 1), contents_equal@));
            }
        }
        i = i + 1;
    }
    assert(groups@.take(groups.len() as int) =~= groups@);
    out
}

/// `s` with every leading `./` removed (as `trim_start_matches("./")`).
pub open spec fn strip_dot_slash(s: Seq<char>) -> Seq<char>
    decreases s.len(),
{
    if s.len() >= 2 && s[0] == '.' && s[1] == '/' {
        strip_dot_slash(s.skip(2))
    } else {
        s
    }
}

/// A user-typed game path in the form the walk produces: leading `./`
/// removed and `\` turned into `/`.
pub open spec fn normalized_rel(s: Seq<char>) -> Seq<char> {
    strip_dot_slash(s).map_values(|c: char| if c == '\\' { '/' } else { c })
}

pub fn normalize_rel(rel: &str) -> (r: String)
    ensures
        r@ == normalized_rel(rel@),
{
    let v = chars_of(rel);
    let mut start: usize = 0;
    proof {
        assert(rel@.skip(0) =~= rel@);
    }
    while v.len() - start >= 2 && v[start] == '.' && v[start + 1] == '/'
        invariant
            start <= v.len(),
            v@ == rel@,
            strip_dot_slash(rel@) == strip_dot_slash(rel@.skip(start as int)),
        decreases v.len() - start,
    {
        proof {
            assert(rel@.skip(start as int).skip(2) =~= rel@.skip(start + 2));
        }
        start = start + 2;
    }
    let ghost t = rel@.skip(start as int);
    assert(strip_dot_slash(t) == t);
    let mut r = String::new();
    let mut i: usize = start;
    while i < v.len()
        invariant
            start <= i <= v.len(),
            v@ == rel@,
            t == rel@.skip(start as int),
            r@ == t.take(i - start).map_values(|c: char| if c == '\\' { '/' } else { c }),
        decreases v.len() - i,
    {
        let c = v[i];
        if c == '\\' {
            r.push('/');
        } else {
            r.push(c);
        }
        proof {
            assert(t.take(i + 1 - start) =~= t.take(i - start).push(c));
            assert(r@ =~= t.take(i + 1 - start).map_values(|c: char| if c == '\\' { '/' } else { c }));
        }
        i = i + 1;
    }
    assert(t.take(v.len() - start) =~= t);
    r
}

/// The providers of one path: its records' folders and sizes, duplicate when
/// the sizes agree and `contents_equal`, and the path's severity.
pub open spec fn providers_spec(found: Seq<FileRecord>, path: Seq<char>, contents_equal: bool)
    -> Option<(Seq<Seq<char>>, Seq<u64>, bool, Severity)>
{
    if found.len() == 0 {
        None
    } else {
        Some((folders_of(found), found.map_values(|r: FileRecord| r.size),
            same_sizes(found) && contents_equal, severity_spec(path)))
    }
}

pub open spec fn providers_view(p: PathProviders) -> (Seq<Seq<char>>, Seq<u64>, bool, Severity) {
    (p.providers@.map_values(|f: String| f@), p.sizes@, p.duplicate, p.severity)
}

/// The files of `records` that provide `rel` (normalized), in order.
pub fn records_for_path(records: &Vec<FileRecord>, rel: &str) -> (found: Vec<usize>)
    ensures
        found@.map_values(|k: usize| records@[k as int]) == records_at(records@, normalized_rel(rel@)),
        forall|t: int| 0 <= t < found.len() ==> found@[t] < records.len(),
{
    let norm = normalize_rel(rel);
    let mut found: Vec<usize> = Vec::new();
    let mut i: usize = 0;
    while i < records.len()
        invariant
            i <= records.len(),
            norm@ == normalized_rel(rel@),
            forall|t: int| 0 <= t < found.len() ==> found@[t] < i,
            found@.map_values(|k: usize| records@[k as int]) == records_at(records@.take(i as int), norm@),
        decreases records.len() - i,
    {
        proof {
            assert(records@.take(i + 1).drop_last() =~= records@.take(i as int));
        }
        if str_is(records[i].rel.as_str(), norm.as_str()) {
            found.push(i);
        }
        proof {
            assert(found@.map_values(|k: usize| records@[k as int]) =~= records_at(records@.take(i + 1), norm@));
        }
        i = i + 1;
    }
    assert(records@.take(records.len() as int) =~= records@);
    found
}

/// Finds every enabled mod that provides `rel` (a game-root-relative path)
/// among the walked files. `None` when no mod provides it (the file comes
/// from the base game). `contents_equal` tells whether the found copies have
/// identical bytes.
pub fn providers_for_path(records: &Vec<FileRecord>, rel: &str, contents_equal: bool) -> (r: Option<PathProviders>)
    ensures
        (match r {
            Some(p) => Some(providers_view(p)),
            None => None,
        }) == providers_spec(records_at(records@, normalized_rel(rel@)), normalized_rel(rel@), contents_equal),
{
    let norm = normalize_rel(rel);
    let idx = records_for_path(records, rel);
    let ghost found = idx@.map_values(|k: usize| records@[k as int]);
    if idx.len() == 0 {
        return None;
    }
    let mut providers: Vec<String> = Vec::new();
    let mut sizes: Vec<u64> = Vec::new();
    let first = records[idx[0]].size;
    let mut same = true;
    let mut t: usize = 0;
    while t < idx.len()
        invariant
            t <= idx.len(),
            idx.len() > 0,
            found == idx@.map_values(|k: usize| records@[k as int]),
            forall|u: int| 0 <= u < idx.len() ==> idx@[u] < records.len(),
            first == found[0].size,
            providers@.map_values(|f: String| f@) == folders_of(found.take(t as int)),
            sizes@ == found.take(t as int).map_values(|r: FileRecord| r.size),
            same == (forall|k: int| 0 <= k < t ==> (#[trigger] found[k]).size == first),
        decreases idx.len() - t,
    {
        let rec = &records[idx[t]];
        assert(found[t as int] == *rec);
        let ghost prev = providers@.map_values(|f: String| f@);
        providers.push(rec.folder.clone());
        sizes.push(rec.size);
        if rec.size != first {
            same = false;
        }
        proof {
            assert(found.take(t + 1) =~= found.take(t as int).push(found[t as int]));
            assert(providers@.map_values(|f: String| f@) =~= prev.push(rec.folder@));
            assert(providers@.map_values(|f: String| f@) =~= folders_of(found.take(t + 1)));
            assert(sizes@ =~= found.take(t + 1).map_values(|r: FileRecord| r.size));
        }
        t = t + 1;
    }
    proof {
        assert(found.take(idx.len() as int) =~= found);
    }
    Some(PathProviders {
        providers,
        sizes,
        duplicate: same && contents_equal,
        severity: severity_for(norm.as_str()),
    })
}

/// What comparing the next chunks of two files says.
#[derive(Debug, Clone, Copy, PartialEq, Eq, Structural)]
pub enum StreamStep {
    /// Both chunks agree and are not the end: read on.
    Continue,
    /// Both files ended together: identical.
    Equal,
    /// A read failed or the chunks differ: not identical.
    Different,
}

/// One step of comparing two byte streams chunk by chunk (`None` is a failed
/// read): any difference or failure means the files are not identical; both
/// ending at once means they are.
pub fn streams_equal(a: Option<&[u8]>, b: Option<&[u8]>) -> (step: StreamStep)
    ensures
        step == (match (a, b) {
            (Some(x), Some(y)) => if x@ != y@ {
                StreamStep::Different
            } else if x@.len() == 0 {
                StreamStep::Equal
            } else {
                StreamStep::Continue
            },
            _ => StreamStep::Different,
        }),
{
    match (a, b) {
        (Some(x), Some(y)) => {
            if x.len() != y.len() {
                assert(x@.len() != y@.len());
                return StreamStep::Different;
            }
            let mut i: usize = 0;
            while i < x.len()
                invariant
                    i <= x.len(),
                    x.len() == y.len(),
                    a == Some(x),
                    b == Some(y),
                    forall|k: int| 0 <= k < i ==> x@[k] == y@[k],
                decreases x.len() - i,
            {
                if x[i] != y[i] {
                    assert(x@[i as int] != y@[i as int]);
                    return StreamStep::Different;
                }
                i = i + 1;
            }
            assert(x@ =~= y@);
            if x.len() == 0 {
                StreamStep::Equal
            } else {
                StreamStep::Continue
            }
        },
        _ => StreamStep::Different,
    }
}

/// `text` in the foreground color `fg`, as owo-colors writes it: color on,
/// the text, color reset.
pub open spec fn fg(code: Seq<char>, text: Seq<char>) -> Seq<char> {
    sgr(code) + text + sgr(seq!['3', '9'])
}

/// owo-colors `text.red().to_string()`: `ESC[31m`, the text, `ESC[39m`.
#[verifier::external_body]
fn red_text(text: &str) -> (r: String)
    ensures
        r@ == fg(seq!['3', '1'], text@),
{
    text.red().to_string()
}

/// owo-colors `text.yellow().to_string()`: `ESC[33m`, the text, `ESC[39m`.
#[verifier::external_body]
fn yellow_text(text: &str) -> (r: String)
    ensures
        r@ == fg(seq!['3', '3'], text@),
{
    text.yellow().to_string()
}

/// owo-colors `text.cyan().to_string()`: `ESC[36m`, the text, `ESC[39m`.
#[verifier::external_body]
fn cyan_text(text: &str) -> (r: String)
    ensures
        r@ == fg(seq!['3', '6'], text@),
{
    text.cyan().to_string()
}

/// A severity as the conflicts table shows it: high in red, medium in
/// yellow, informational in cyan.
pub open spec fn severity_cell(s: Severity) -> Seq<char> {
    match s {
        Severity::High => fg(seq!['3', '1'], "ALTO"@),
        Severity::Medium => fg(seq!['3', '3'], "MEDIO"@),
        Severity::Info => fg(seq!['3', '6'], "INFO"@),
    }
}

/// One row of the conflicts table: the path, its severity, and the
/// providers in priority order (the first one wins).
pub open spec fn conflict_row(c: Conflict) -> Seq<Seq<char>> {
    seq![c.path@, severity_cell(c.severity), join_with(views(c.providers@), " -> "@)]
}

/// The rows of the conflicts table: the real conflicts, in scan order;
/// identical copies are left out.
pub open spec fn conflict_rows(cs: Seq<Conflict>) -> Seq<Seq<Seq<char>>>
    decreases cs.len(),
{
    if cs.len() == 0 {
        Seq::empty()
    } else {
        conflict_rows(cs.drop_last()) + if cs.last().duplicate { Seq::empty() } else { seq![conflict_row(cs.last())] }
    }
}

/// How many of the conflicts are identical copies.
pub open spec fn duplicate_count(cs: Seq<Conflict>) -> nat
    decreases cs.len(),
{
    if cs.len() == 0 {
        0
    } else {
        duplicate_count(cs.drop_last()) + if cs.last().duplicate { 1nat } else { 0nat }
    }
}

/// The conflicts table and the number of identical copies it leaves out.
pub struct ConflictTable {
    pub rows: Vec<Vec<String>>,
    pub duplicates: usize,
}

/// A table's rows as plain text.
pub open spec fn rows_view(rows: Seq<Vec<String>>) -> Seq<Seq<Seq<char>>> {
    rows.map_values(|r: Vec<String>| views(r@))
}

/// What `ctl conflicts` prints for the enabled mods of a profile.
pub fn conflict_table(cs: &Vec<Conflict>) -> (t: ConflictTable)
    ensures
        rows_view(t.rows@) == conflict_rows(cs@),
        t.duplicates == duplicate_count(cs@),
{
    let mut rows: Vec<Vec<String>> = Vec::new();
    let mut dups: usize = 0;
    let mut i: usize = 0;
    while i < cs.len()
        invariant
            i <= cs.len(),
            rows_view(rows@) == conflict_rows(cs@.take(i as int)),
            dups == duplicate_count(cs@.take(i as int)),
            dups <= i,
        decreases cs.len() - i,
    {
        proof {
            assert(cs@.take(i + 1).drop_last() =~= cs@.take(i as int));
        }
        let c = &cs[i];
        if c.duplicate {
            dups = dups + 1;
            assert(rows_view(rows@) =~= conflict_rows(cs@.take(i + 1)));
        } else {
            let sev = match c.severity {
                Severity::High => red_text("ALTO"),
                Severity::Medium => yellow_text("MEDIO"),
                Severity::Info => cyan_text("INFO"),
            };
            let provs = join_strings(&c.providers, " -> ");
            assert(c.providers@.map_values(|p: String| p@) =~= views(c.providers@));
            let row = vec![c.path.clone(), sev, provs];
            assert(views(row@) =~= conflict_row(*c));
            let ghost prev = rows_view(rows@);
            rows.push(row);
            assert(rows_view(rows@) =~= prev.push(conflict_row(*c)));
        }
        i = i + 1;
    }
    proof {
        assert(cs@.take(cs.len() as int) =~= cs@);
    }
    ConflictTable { rows, duplicates: dups }
}

/// The message when the enabled mods of a profile share no file.
pub fn no_conflicts_message(profile_name: &str) -> (m: String)
    ensures
        m@ == "No hay conflictos de archivos entre los mods activos del perfil '"@ + profile_name@ + "'."@,
{
    let mut m = "No hay conflictos de archivos entre los mods activos del perfil '".to_owned();
    m.append(profile_name);
    m.append("'.");
    m
}

/// The note on identical copies left out of the report, when there are any.
pub fn duplicates_note(n: usize) -> (r: Option<String>)
    ensures
        match r {
            Some(t) => n > 0 && t@ == "("@ + nat_decimal(n as nat) + " duplicado(s) id\u{e9}ntico(s) ignorados)"@,
            None => n == 0,
        },
{
    if n > 0 {
        let mut t = "(".to_owned();
        push_nat_decimal(&mut t, n as u128);
        t.append(" duplicado(s) id\u{e9}ntico(s) ignorados)");
        Some(t)
    } else {
        None
    }
}

/// What `ctl which` answers for `path`: who provides it, who wins and
/// whom it covers.
pub open spec fn which_lines_spec(path: Seq<char>, profile_name: Seq<char>, p: Option<PathProviders>) -> Seq<Seq<char>> {
    match p {
        None => seq!["'"@ + path + "' no lo provee ning\u{fa}n mod del perfil '"@ + profile_name + "' (viene de la base)."@],
        Some(p) => if p.providers.len() == 1 {
            seq!["'"@ + path + "' lo provee '"@ + p.providers@[0]@ + "'."@]
        } else {
            seq![
                "'"@ + path + "' \u{2192} gana '"@ + p.providers@[0]@ + "' (gravedad: "@ + severity_cell(p.severity) + ")"@,
                if p.duplicate {
                    "  (los "@ + nat_decimal(p.providers.len() as nat) + " mods aportan el mismo contenido)"@
                } else {
                    "  pisados: "@ + join_with(views(p.providers@).drop_first(), ", "@)
                },
            ]
        },
    }
}

/// The lines `ctl which` prints for `path` in the profile `profile_name`.
pub fn which_lines(path: &str, profile_name: &str, p: &Option<PathProviders>) -> (lines: Vec<String>)
    requires
        p matches Some(x) ==> x.providers.len() > 0,
    ensures
        views(lines@) == which_lines_spec(path@, profile_name@, *p),
{
    match p {
        None => {
            let mut l = "'".to_owned();
            l.append(path);
            l.append("' no lo provee ning\u{fa}n mod del perfil '");
            l.append(profile_name);
            l.append("' (viene de la base).");
            let v = vec![l];
            assert(views(v@) =~= which_lines_spec(path@, profile_name@, *p));
            v
        },
        Some(pp) => {
            if pp.providers.len() == 1 {
                let mut l = "'".to_owned();
                l.append(path);
                l.append("' lo provee '");
                l.append(pp.providers[0].as_str());
                l.append("'.");
                let v = vec![l];
                assert(views(v@) =~= which_lines_spec(path@, profile_name@, *p));
                v
            } else {
                let sev = match pp.severity {
                    Severity::High => red_text("ALTO"),
                    Severity::Medium => yellow_text("MEDIO"),
                    Severity::Info => cyan_text("INFO"),
                };
                let mut first = "'".to_owned();
                first.append(path);
                first.append("' \u{2192} gana '");
                first.append(pp.providers[0].as_str());
                first.append("' (gravedad: ");
                first.append(sev.as_str());
                first.append(")");
                let second = if pp.duplicate {
                    let mut t = "  (los ".to_owned();
                    push_nat_decimal(&mut t, pp.providers.len() as u128);
                    t.append(" mods aportan el mismo contenido)");
                    t
                } else {
                    let mut rest: Vec<String> = Vec::new();
                    let mut i: usize = 1;
                    while i < pp.providers.len()
                        invariant
                            1 <= i <= pp.providers.len(),
                            views(rest@) == views(pp.providers@).subrange(1, i as int),
                        decreases pp.providers.len() - i,
                    {
                        rest.push(pp.providers[i].clone());
                        assert(views(pp.providers@).subrange(1, i + 1) =~= views(pp.providers@).subrange(1, i as int).push(pp.providers@[i as int]@));
                        i = i + 1;
                    }
                    assert(views(pp.providers@).subrange(1, pp.providers.len() as int) =~= views(pp.providers@).drop_first());
                    let j = join_strings(&rest, ", ");
                    assert(rest@.map_values(|x: String| x@) =~= views(rest@));
                    let mut t = "  pisados: ".to_owned();
                    t.append(j.as_str());
                    t
                };
                let v = vec![first, second];
                assert(views(v@) =~= which_lines_spec(path@, profile_name@, *p));
                v
            }
        },
    }
}

/// Which group each conflict comes from: strictly increasing indices of the
/// groups with two or more providers, every such group among them.
proof fn conflict_sources(gs: Seq<PathGroup>, ce: Seq<bool>) -> (idx: Seq<int>)
    requires
        ce.len() >= gs.len(),
    ensures
        idx.len() == conflicts_spec(gs, ce).len(),
        forall|i: int| 0 <= i < idx.len() ==> 0 <= #[trigger] idx[i] < gs.len() && gs[idx[i]].records@.len() >= 2
            && conflicts_spec(gs, ce)[i] == conflict_entry(gs[idx[i]], ce[idx[i]]),
        forall|i1: int, i2: int| 0 <= i1 < i2 < idx.len() ==> #[trigger] idx[i1] < #[trigger] idx[i2],
        forall|j: int| 0 <= j < gs.len() && (#[trigger] gs[j]).records@.len() >= 2 ==> idx.contains(j),
    decreases gs.len(),
{
    if gs.len() == 0 {
        Seq::empty()
    } else {
        let init = gs.drop_last();
        let r = conflict_sources(init, ce);
        let n = gs.len() - 1;
        assert(gs[n] == gs.last());
        assert forall|j: int| 0 <= j < n implies #[trigger] init[j] == gs[j] by {}
        if gs.last().records@.len() >= 2 {
            let idx = r.push(n);
            assert forall|i: int| 0 <= i < idx.len() implies 0 <= #[trigger] idx[i] < gs.len() && gs[idx[i]].records@.len() >= 2
                && conflicts_spec(gs, ce)[i] == conflict_entry(gs[idx[i]], ce[idx[i]]) by {
                if i < r.len() {
                    assert(idx[i] == r[i]);
                    assert(init[r[i]] == gs[r[i]]);
                }
            }
            assert forall|j: int| 0 <= j < gs.len() && (#[trigger] gs[j]).records@.len() >= 2 implies idx.contains(j) by {
                if j < n {
                    assert(init[j] == gs[j]);
                    let k = choose|k: int| 0 <= k < r.len() && r[k] == j;
                    assert(idx[k] == j);
                } else {
                    assert(idx[idx.len() - 1] == j);
                }
            }
            idx
        } else {
            assert forall|i: int| 0 <= i < r.len() implies 0 <= #[trigger] r[i] < gs.len() && gs[r[i]].records@.len() >= 2
                && conflicts_spec(gs, ce)[i] == conflict_entry(gs[r[i]], ce[r[i]]) by {
                assert(init[r[i]] == gs[r[i]]);
            }
            assert forall|j: int| 0 <= j < gs.len() && (#[trigger] gs[j]).records@.len() >= 2 implies r.contains(j) by {
                assert(init[j] == gs[j]);
            }
            r
        }
    }
}

proof fn lemma_records_at_present(rs: Seq<FileRecord>, p: Seq<char>)
    requires
        records_at(rs, p).len() > 0,
    ensures
        exists|k: int| 0 <= k < rs.len() && (#[trigger] rs[k]).rel@ == p,
{
    if forall|k: int| 0 <= k < rs.len() ==> (#[trigger] rs[k]).rel@ != p {
        lemma_records_at_absent(rs, p);
    }
}

/// Over the walked files grouped by path: a path is reported as a conflict
/// exactly when two or more files provide it; such a conflict lists the
/// providing folders in the order the files came (the first wins) and has
/// the path's severity; and the reported paths strictly increase, so none is
/// reported twice.
pub proof fn lemma_conflicts_exact(rs: Seq<FileRecord>, gs: Seq<PathGroup>, ce: Seq<bool>, p: Seq<char>)
    requires
        groups_of(gs, rs),
        ce.len() == gs.len(),
    ensures
        (exists|i: int| 0 <= i < conflicts_spec(gs, ce).len() && (#[trigger] conflicts_spec(gs, ce)[i]).0 == p)
            <==> records_at(rs, p).len() >= 2,
        forall|i: int| 0 <= i < conflicts_spec(gs, ce).len() && (#[trigger] conflicts_spec(gs, ce)[i]).0 == p ==>
            conflicts_spec(gs, ce)[i].1 == folders_of(records_at(rs, p)) && conflicts_spec(gs, ce)[i].3 == severity_spec(p),
        forall|i1: int, i2: int| 0 <= i1 < i2 < conflicts_spec(gs, ce).len() ==>
            seq_lt(#[trigger] conflicts_spec(gs, ce)[i1].0, #[trigger] conflicts_spec(gs, ce)[i2].0),
{
    let idx = conflict_sources(gs, ce);
    let cs = conflicts_spec(gs, ce);
    reveal(conflict_entry);
    assert forall|i: int| 0 <= i < cs.len() && (#[trigger] cs[i]).0 == p implies
        records_at(rs, p).len() >= 2 && cs[i].1 == folders_of(records_at(rs, p)) && cs[i].3 == severity_spec(p) by {
        let j = idx[i];
        assert(gs[j].records@ == records_at(rs, gs[j].path@));
    }
    assert forall|i1: int, i2: int| 0 <= i1 < i2 < cs.len() implies seq_lt(#[trigger] cs[i1].0, #[trigger] cs[i2].0) by {
        assert(idx[i1] < idx[i2]);
        assert(seq_lt(gs[idx[i1]].path@, gs[idx[i2]].path@));
    }
    if records_at(rs, p).len() >= 2 {
        lemma_records_at_present(rs, p);
        let k = choose|k: int| 0 <= k < rs.len() && (#[trigger] rs[k]).rel@ == p;
        let j = choose|j: int| 0 <= j < gs.len() && (#[trigger] gs[j]).path@ == (#[trigger] rs[k]).rel@;
        assert(gs[j].records@ == records_at(rs, gs[j].path@));
        let i = choose|i: int| 0 <= i < idx.len() && idx[i] == j;
        assert(cs[i].0 == p);
    }
}

/// Looking up a path finds nothing exactly when no walked file has that
/// (normalized) path; otherwise it lists one provider and one size per such
/// file, in the order the files came (the first wins), with the path's
/// severity.
pub proof fn lemma_providers_none_iff_absent(rs: Seq<FileRecord>, rel: Seq<char>, same_bytes: bool)
    ensures
        providers_spec(records_at(rs, normalized_rel(rel)), normalized_rel(rel), same_bytes) is None
            <==> forall|k: int| 0 <= k < rs.len() ==> (#[trigger] rs[k]).rel@ != normalized_rel(rel),
        providers_spec(records_at(rs, normalized_rel(rel)), normalized_rel(rel), same_bytes) matches Some(v) ==>
            v.0 == folders_of(records_at(rs, normalized_rel(rel))) && v.1.len() == v.0.len() && v.0.len() >= 1
            && v.3 == severity_spec(normalized_rel(rel)),
{
    let p = normalized_rel(rel);
    if forall|k: int| 0 <= k < rs.len() ==> (#[trigger] rs[k]).rel@ != p {
        lemma_records_at_absent(rs, p);
    } else {
        let k = choose|k: int| 0 <= k < rs.len() && (#[trigger] rs[k]).rel@ != p == false;
        lemma_records_at_nonempty(rs, p, k);
    }
}

proof fn lemma_records_at_nonempty(rs: Seq<FileRecord>, p: Seq<char>, k: int)
    requires
        0 <= k < rs.len(),
        rs[k].rel@ == p,
    ensures
        records_at(rs, p).len() > 0,
    decreases rs.len(),
{
    if k < rs.len() - 1 {
        assert(rs.drop_last()[k] == rs[k]);
        lemma_records_at_nonempty(rs.drop_last(), p, k);
    }
}

} // verus!
