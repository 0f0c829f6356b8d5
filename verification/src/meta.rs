use vstd::prelude::*;
use crate::paths::{join, join_path};
use crate::text::{
    chars_of, lower, split_char, split_on, split_once_char, split_once_spec, to_lowercase, trim,
    trim_seq,
};

verus! {

/// Metadata manifest (`mod.toml`) read from inside each mod folder. All
/// fields are optional.
#[derive(Debug, Clone, Default)]
pub struct ModMeta {
    /// Stable `author:slug` identifier.
    pub id: Option<String>,
    pub name: Option<String>,
    pub version: Option<String>,
    pub author: Vec<String>,
    pub url: Option<String>,
    pub description: Option<String>,
    pub cover: Option<String>,
    pub guides: Option<Vec<String>>,
    pub tags: Option<Vec<String>>,
    /// Subdirectories (relative to the mod folder) laid over the game root.
    /// Absent or empty means the whole folder.
    pub mount: Option<Vec<String>>,
    pub screenshots: Option<Vec<String>>,
    pub dependencies: Option<ModDeps>,
    /// Bundled components of a composite pack.
    pub components: Option<Vec<MetaComponent>>,
    /// Family of mutually exclusive variants this mod belongs to.
    pub variant: Option<ModVariant>,
    /// Mods (by `author:slug` id or folder) that must not be enabled together
    /// with this one.
    pub conflicts: Vec<String>,
    /// Alternatives (by `author:slug` id or folder) of which at least one
    /// should be enabled together with this mod.
    pub requires_any: Vec<String>,
    /// Mod Loader integration.
    pub modloader: Option<ModLoaderMeta>,
}

/// `[dependencies]` section of a manifest: references by `id` or folder name.
#[derive(Debug, Clone, Default)]
pub struct ModDeps {
    pub required: Vec<String>,
    pub optional: Vec<String>,
}

/// One bundled component of a composite pack.
#[derive(Debug, Clone, Default)]
pub struct MetaComponent {
    pub name: String,
    pub version: Option<String>,
    pub author: Option<String>,
    pub url: Option<String>,
    /// Path of the component inside the mod folder.
    pub path: Option<String>,
}

/// `[variant]` section: the family (`group`) and this variant's name.
#[derive(Debug, Clone, Default)]
pub struct ModVariant {
    pub group: String,
    pub name: Option<String>,
}

/// `[modloader]` section: the Mod Loader priority and the folders it applies to.
#[derive(Debug, Clone, Default)]
pub struct ModLoaderMeta {
    pub priority: Option<i64>,
    pub folders: Option<Vec<String>>,
}

/// A character allowed in ids and tags: lowercase ASCII letter, digit, `-`, `_`.
pub open spec fn is_id_char(c: char) -> bool {
    ('a' <= c && c <= 'z') || ('0' <= c && c <= '9') || c == '-' || c == '_'
}

/// A non-empty run of id characters.
pub open spec fn id_part(p: Seq<char>) -> bool {
    p.len() > 0 && forall|i: int| 0 <= i < p.len() ==> is_id_char(#[trigger] p[i])
}

/// `author:slug`, both parts non-empty runs of id characters.
pub open spec fn mod_id_ok(s: Seq<char>) -> bool {
    match split_once_spec(s, ':') {
        Some((author, slug)) => id_part(author) && id_part(slug),
        None => false,
    }
}

fn id_char(c: char) -> (r: bool)
    ensures
        r == is_id_char(c),
{
    ('a' <= c && c <= 'z') || ('0' <= c && c <= '9') || c == '-' || c == '_'
}

fn all_id_chars(s: &str) -> (r: bool)
    ensures
        r == id_part(s@),
{
    let v = chars_of(s);
    if v.len() == 0 {
        return false;
    }
    let mut i: usize = 0;
    while i < v.len()
        invariant
            v@ == s@,
            i <= v.len(),
            forall|k: int| 0 <= k < i ==> is_id_char(#[trigger] s@[k]),
        decreases v.len() - i,
    {
        if !id_char(v[i]) {
            return false;
        }
        i = i + 1;
    }
    true
}

/// A stable mod id must be `author:slug`, both parts lowercase `[a-z0-9_-]`
/// (non-empty).
pub fn valid_mod_id(id: &str) -> (r: bool)
    ensures
        r == mod_id_ok(id@),
{
    match split_once_char(id, ':') {
        Some((author, slug)) => all_id_chars(author.as_str()) && all_id_chars(slug.as_str()),
        None => false,
    }
}

/// A tag is a non-empty lowercase `[a-z0-9_-]` word.
pub fn valid_tag(tag: &str) -> (r: bool)
    ensures
        r == id_part(tag@),
{
    all_id_chars(tag)
}

/// The canonical form of a mod id: surrounding whitespace removed, lowercased.
pub open spec fn normalized_id(id: Seq<char>) -> Seq<char> {
    lower(trim_seq(id))
}

/// Canonical form of a mod id reference (trimmed, lowercased), so that
/// `Author:Mod ` and `author:mod` refer to the same mod.
pub fn normalize_mod_id(id: &str) -> (r: String)
    ensures
        r@ == normalized_id(id@),
{
    to_lowercase(trim(id))
}

/// A path component that may appear in a relative path: not empty, `.` or `..`.
pub open spec fn component_ok(p: Seq<char>) -> bool {
    p.len() > 0 && p != seq!['.'] && p != seq!['.', '.']
}

/// A relative `/`-separated path with no empty, `.` or `..` components, so it
/// can never escape the folder it is joined to.
pub open spec fn mount_entry_ok(s: Seq<char>) -> bool {
    s.len() > 0 && forall|i: int| 0 <= i < split_on(s, '/').len() ==> component_ok(#[trigger] split_on(s, '/')[i])
}

fn component_valid(p: &String) -> (r: bool)
    ensures
        r == component_ok(p@),
{
    let v = chars_of(p.as_str());
    if v.len() == 0 {
        return false;
    }
    if v.len() == 1 && v[0] == '.' {
        assert(p@ =~= seq!['.']);
        return false;
    }
    if v.len() == 2 && v[0] == '.' && v[1] == '.' {
        assert(p@ =~= seq!['.', '.']);
        return false;
    }
    proof {
        if p@ == seq!['.'] {
            assert(p@[0] == '.');
        }
        if p@ == seq!['.', '.'] {
            assert(p@[0] == '.' && p@[1] == '.');
        }
    }
    true
}

/// A mount entry must be a relative path (using `/`) with no `.`/`..`
/// components, so it can never escape the mod folder.
pub fn valid_mount_entry(entry: &str) -> (r: bool)
    ensures
        r == mount_entry_ok(entry@),
{
    if entry.unicode_len() == 0 {
        return false;
    }
    let parts = split_char(entry, '/');
    let ghost ps = parts@.map_values(|p: String| p@);
    let mut i: usize = 0;
    while i < parts.len()
        invariant
            i <= parts.len(),
            ps == parts@.map_values(|p: String| p@),
            ps == split_on(entry@, '/'),
            forall|k: int| 0 <= k < i ==> component_ok(#[trigger] ps[k]),
        decreases parts.len() - i,
    {
        if !component_valid(&parts[i]) {
            assert(ps[i as int] == parts@[i as int]@);
            return false;
        }
        i = i + 1;
    }
    true
}

/// A path relative to a data directory that cannot escape it: the same rule
/// as a mount entry.
pub fn valid_relative_path(rel: &str) -> (r: bool)
    ensures
        r == mount_entry_ok(rel@),
{
    valid_mount_entry(rel)
}

/// A character that would break a `modloader.ini` line or a path.
pub open spec fn ini_breaking(c: char) -> bool {
    c == '/' || c == '\\' || c == '=' || c == ';' || c == '[' || c == ']' || c == '\n' || c == '\r'
}

/// A Mod Loader folder name usable as a priority key: non-empty, not `.` or
/// `..`, without surrounding whitespace and without characters that would
/// break the INI line or escape the `modloader` directory.
pub open spec fn modloader_folder_ok(name: Seq<char>) -> bool {
    &&& component_ok(name)
    &&& trim_seq(name) == name
    &&& forall|i: int| 0 <= i < name.len() ==> !ini_breaking(#[trigger] name[i])
}

/// Whether `name` can be written as a Mod Loader priority key.
pub fn valid_modloader_folder(name: &str) -> (r: bool)
    ensures
        r == modloader_folder_ok(name@),
{
    let owned = String::from_str(name);
    if !component_valid(&owned) {
        return false;
    }
    let t = trim(name);
    if t.unicode_len() != name.unicode_len() {
        return false;
    }
    proof {
        crate::text::lemma_trim_len(name@);
    }
    let v = chars_of(name);
    let mut i: usize = 0;
    while i < v.len()
        invariant
            v@ == name@,
            i <= v.len(),
            forall|k: int| 0 <= k < i ==> !ini_breaking(#[trigger] name@[k]),
        decreases v.len() - i,
    {
        let c = v[i];
        if c == '/' || c == '\\' || c == '=' || c == ';' || c == '[' || c == ']' || c == '\n' || c == '\r' {
            return false;
        }
        i = i + 1;
    }
    true
}

/// The index of the last `c` in `s`, or -1.
pub open spec fn last_index(s: Seq<char>, c: char) -> int
    decreases s.len(),
{
    if s.len() == 0 {
        -1
    } else if s.last() == c {
        s.len() - 1
    } else {
        last_index(s.drop_last(), c)
    }
}

/// The extension of the last `/`-component of `path`: the text after its last
/// `.`, when that `.` is not the component's first character.
pub open spec fn file_ext(path: Seq<char>) -> Option<Seq<char>> {
    let name = split_on(path, '/').last();
    let k = last_index(name, '.');
    if k > 0 { Some(name.skip(k + 1)) } else { None }
}

/// The image extensions shown as pictures (compared ignoring ASCII case).
pub open spec fn image_ext(e: Seq<char>) -> bool {
    let l = crate::text::ascii_lower(e);
    l == seq!['p', 'n', 'g'] || l == seq!['j', 'p', 'g'] || l == seq!['j', 'p', 'e', 'g']
        || l == seq!['b', 'm', 'p'] || l == seq!['g', 'i', 'f'] || l == seq!['w', 'e', 'b', 'p']
}

proof fn lemma_last_index(s: Seq<char>, c: char)
    ensures
        -1 <= last_index(s, c) < s.len(),
        last_index(s, c) >= 0 ==> s[last_index(s, c)] == c,
        forall|k: int| last_index(s, c) < k < s.len() ==> s[k] != c,
    decreases s.len(),
{
    if s.len() > 0 && s.last() != c {
        lemma_last_index(s.drop_last(), c);
        assert forall|k: int| last_index(s, c) < k < s.len() implies s[k] != c by {
            if k < s.len() - 1 {
                assert(s[k] == s.drop_last()[k]);
            }
        }
    }
}

/// Whether `path` names a picture, by its extension (`png`, `jpg`, `jpeg`,
/// `bmp`, `gif`, `webp`, in any ASCII case).
pub fn is_image_file(path: &str) -> (r: bool)
    ensures
        r == (file_ext(path@) matches Some(e) && image_ext(e)),
{
    let parts = split_char(path, '/');
    proof {
        crate::text::lemma_split_nonempty(path@, '/');
    }
    let name = &parts[parts.len() - 1];
    let ghost ps = parts@.map_values(|p: String| p@);
    assert(name@ == ps.last());
    let v = chars_of(name.as_str());
    let mut k: usize = v.len();
    proof {
        lemma_last_index(name@, '.');
    }
    while k > 0 && v[k - 1] != '.'
        invariant
            k <= v.len(),
            v@ == name@,
            forall|t: int| k <= t < v.len() ==> v@[t] != '.',
        decreases k,
    {
        k = k - 1;
    }
    proof {
        let li = last_index(name@, '.');
        if k > 0 {
            assert(v@[k - 1] == '.');
            if li > k - 1 {
                assert(name@[li] == '.');
            }
            if li < k - 1 {
            }
            assert(li == k - 1);
        } else {
            if li >= 0 {
                assert(name@[li] == '.');
            }
            assert(li == -1);
        }
    }
    if k <= 1 {
        return false;
    }
    let mut ext = String::new();
    let mut i: usize = k;
    while i < v.len()
        invariant
            k <= i <= v.len(),
            v@ == name@,
            ext@ == crate::text::ascii_lower(name@.subrange(k as int, i as int)),
        decreases v.len() - i,
    {
        let c = crate::text::lower_ascii_char(v[i]);
        ext.push(c);
        proof {
            assert(name@.subrange(k as int, i + 1) =~= name@.subrange(k as int, i as int).push(v@[i as int]));
            assert(crate::text::ascii_lower(name@.subrange(k as int, i + 1)) =~= ext@);
        }
        i = i + 1;
    }
    proof {
        assert(name@.subrange(k as int, v.len() as int) =~= name@.skip(k as int));
    }
    let e = ext.as_str();
    let r = str_is(e, "png") || str_is(e, "jpg") || str_is(e, "jpeg") || str_is(e, "bmp")
        || str_is(e, "gif") || str_is(e, "webp");
    proof {
        reveal_strlit("png");
        reveal_strlit("jpg");
        reveal_strlit("jpeg");
        reveal_strlit("bmp");
        reveal_strlit("gif");
        reveal_strlit("webp");
        assert("png"@ =~= seq!['p', 'n', 'g']);
        assert("jpg"@ =~= seq!['j', 'p', 'g']);
        assert("jpeg"@ =~= seq!['j', 'p', 'e', 'g']);
        assert("bmp"@ =~= seq!['b', 'm', 'p']);
        assert("gif"@ =~= seq!['g', 'i', 'f']);
        assert("webp"@ =~= seq!['w', 'e', 'b', 'p']);
    }
    r
}

/// Whether two strings hold the same characters.
pub fn str_is(a: &str, b: &str) -> (r: bool)
    ensures
        r == (a@ == b@),
{
    let x = String::from_str(a);
    let y = String::from_str(b);
    x == y
}

/// The overlay layers of a mod: each valid `mount` entry of its manifest
/// joined to the mod folder, or the mod folder itself when the manifest is
/// absent, has no mount list, or no valid entry.
pub open spec fn layers_spec(mods_dir: Seq<char>, folder: Seq<char>, mount: Option<Seq<Seq<char>>>) -> Seq<Seq<char>> {
    let base = join_path(mods_dir, folder);
    match mount {
        Some(m) => {
            let valid = m.filter(|e: Seq<char>| mount_entry_ok(e));
            if valid.len() > 0 {
                valid.map_values(|e: Seq<char>| join_path(base, e))
            } else {
                seq![base]
            }
        },
        None => seq![base],
    }
}

/// The mount list a manifest declares, as character sequences.
pub open spec fn mount_of(meta: Option<&ModMeta>) -> Option<Seq<Seq<char>>> {
    match meta {
        Some(m) => match m.mount {
            Some(v) => Some(v@.map_values(|e: String| e@)),
            None => None,
        },
        None => None,
    }
}

/// Resolves the overlay layer(s) that a mod contributes, given its manifest
/// (`None` when the mod has none or it could not be read). Each `mount`
/// entry names a folder treated as the game root; without a usable mount list
/// the whole mod folder is the game root.
pub fn mod_layers(mods_dir: &str, folder: &str, meta: Option<&ModMeta>) -> (layers: Vec<String>)
    ensures
        layers@.map_values(|l: String| l@) == layers_spec(mods_dir@, folder@, mount_of(meta)),
{
    let base = join(mods_dir, folder);
    let mount = match meta {
        Some(m) => match &m.mount {
            Some(v) => v,
            None => {
                let out = vec![base];
                assert(out@.map_values(|l: String| l@) =~= seq![join_path(mods_dir@, folder@)]);
                return out;
            },
        },
        None => {
            let out = vec![base];
            assert(out@.map_values(|l: String| l@) =~= seq![join_path(mods_dir@, folder@)]);
            return out;
        },
    };
    let ghost m = mount@.map_values(|e: String| e@);
    let ghost base_v = base@;
    let mut out: Vec<String> = Vec::new();
    let mut i: usize = 0;
    while i < mount.len()
        invariant
            i <= mount.len(),
            m == mount@.map_values(|e: String| e@),
            base_v == base@,
            out@.map_values(|l: String| l@)
                == m.take(i as int).filter(|e: Seq<char>| mount_entry_ok(e)).map_values(|e: Seq<char>| join_path(base_v, e)),
        decreases mount.len() - i,
    {
        let e = &mount[i];
        let ok = valid_mount_entry(e.as_str());
        let ghost prev = out@.map_values(|l: String| l@);
        proof {
            reveal(Seq::filter);
            assert(m.take(i + 1).drop_last() =~= m.take(i as int));
            assert(m.take(i + 1).last() == e@);
        }
        if ok {
            let l = join(base.as_str(), e.as_str());
            out.push(l);
            proof {
                assert(out@.map_values(|l: String| l@) =~= prev.push(join_path(base_v, e@)));
            }
        } else {
            proof {
                assert(out@.map_values(|l: String| l@) =~= prev);
            }
        }
        i = i + 1;
    }
    proof {
        assert(m.take(mount.len() as int) =~= m);
    }
    if out.len() == 0 {
        let out2 = vec![base];
        assert(out2@.map_values(|l: String| l@) =~= seq![base_v]);
        return out2;
    }
    out
}

/// The `[dependencies]` array a reference goes to.
pub fn dependency_key(optional: bool) -> (k: &'static str)
    ensures
        k@ == (if optional { "optional"@ } else { "required"@ }),
{
    if optional { "optional" } else { "required" }
}

/// The text `toml_edit` writes back after setting `name = "<name>"`;
/// `None` when the text is not TOML.
pub uninterp spec fn toml_with_name(content: Seq<char>, name: Seq<char>) -> Option<Seq<char>>;

/// The text `toml_edit` writes back after setting `tags` to the array of
/// `tags`; `None` when the text is not TOML.
pub uninterp spec fn toml_with_tags(content: Seq<char>, tags: Seq<Seq<char>>) -> Option<Seq<char>>;

/// Array entries as plain values.
pub open spec fn items_view(items: Seq<Option<String>>) -> Seq<Option<Seq<char>>> {
    items.map_values(|x: Option<String>| match x {
        Some(s) => Some(s@),
        None => None,
    })
}

/// An optional borrowed string as plain text.
pub open spec fn opt_str_view(o: Option<&str>) -> Option<Seq<char>> {
    match o {
        Some(s) => Some(s@),
        None => None,
    }
}

/// An optional owned string as plain text.
pub open spec fn opt_string_view(o: Option<String>) -> Option<Seq<char>> {
    match o {
        Some(s) => Some(s@),
        None => None,
    }
}

/// `toml_edit`: parses `content`, sets `doc["name"] = value(name)` and prints
/// the document.
#[verifier::external_body]
fn with_name(content: &str, name: &str) -> (r: Option<String>)
    ensures
        opt_string_view(r) == toml_with_name(content@, name@),
{
    let mut doc: toml_edit::DocumentMut = content.parse().ok()?;
    doc["name"] = toml_edit::value(name);
    Some(doc.to_string())
}

/// `toml_edit`: parses `content`, sets `doc["tags"]` to the array of `tags`
/// and prints the document.
#[verifier::external_body]
fn with_tags(content: &str, tags: &Vec<String>) -> (r: Option<String>)
    ensures
        opt_string_view(r) == toml_with_tags(content@, tags@.map_values(|t: String| t@)),
{
    let mut doc: toml_edit::DocumentMut = content.parse().ok()?;
    let arr: toml_edit::Array = tags.iter().map(|t| t.as_str()).collect();
    doc["tags"] = toml_edit::value(arr);
    Some(doc.to_string())
}

/// The entries of a manifest array, each as `Value::as_str` reads it
/// (`None` for an entry that is not a string).
pub type ArrayEntries = Seq<Option<Seq<char>>>;

/// The keys of a table, each with the entries of its array (`None` when
/// the item is not an array).
pub type TableArrays = Map<Seq<char>, Option<ArrayEntries>>;

/// The top-level keys of a document, each with its table (`None` when the
/// item is not a table).
pub type DocTables = Map<Seq<char>, Option<TableArrays>>;

#[verifier::external_type_specification]
#[verifier::external_body]
pub struct ExDocumentMut(toml_edit::DocumentMut);

/// What a `toml_edit::DocumentMut` holds, as far as the manifest editor
/// reads it: its top-level keys, with their tables and the arrays in them.
pub uninterp spec fn toml_tables(doc: toml_edit::DocumentMut) -> DocTables;

/// The text `toml_edit` prints for a document.
pub uninterp spec fn toml_text(doc: toml_edit::DocumentMut) -> Seq<char>;

/// What the document `toml_edit` parses from `content` holds; `None` when
/// the text is not TOML.
pub uninterp spec fn toml_read(content: Seq<char>) -> Option<DocTables>;

/// The table under the top-level `table`, if that item is a table.
pub open spec fn table_in(t: DocTables, table: Seq<char>) -> Option<TableArrays> {
    if t.contains_key(table) { t[table] } else { None }
}

/// The entries of the array `table.key`, if that item is an array.
pub open spec fn array_in(t: DocTables, table: Seq<char>, key: Seq<char>) -> Option<ArrayEntries> {
    match table_in(t, table) {
        Some(m) => if m.contains_key(key) { m[key] } else { None },
        None => None,
    }
}

/// `t` with the array `table.key` holding `entries`.
pub open spec fn with_array(t: DocTables, table: Seq<char>, key: Seq<char>, entries: ArrayEntries) -> DocTables {
    t.insert(table, Some(table_in(t, table).unwrap().insert(key, Some(entries))))
}

/// `toml_edit`: `str::parse` into a `DocumentMut`.
#[verifier::external_body]
fn parse_document(content: &str) -> (r: Option<toml_edit::DocumentMut>)
    ensures
        match r {
            Some(d) => toml_read(content@) == Some(toml_tables(d)),
            None => toml_read(content@) is None,
        },
{
    content.parse::<toml_edit::DocumentMut>().ok()
}

/// `toml_edit`: `Table::contains_key` on the document's root table.
#[verifier::external_body]
fn has_key(doc: &toml_edit::DocumentMut, key: &str) -> (r: bool)
    ensures
        r == toml_tables(*doc).contains_key(key@),
{
    doc.contains_key(key)
}

/// `toml_edit`: `Table::insert` of an empty `Item::Table` under `key` of the
/// root table.
#[verifier::external_body]
fn insert_table(doc: &mut toml_edit::DocumentMut, key: &str)
    ensures
        toml_tables(*final(doc)) == toml_tables(*old(doc)).insert(key@, Some(Map::empty())),
{
    doc.insert(key, toml_edit::Item::Table(toml_edit::Table::new()));
}

/// `toml_edit`: `Table::contains_key` on the table under `table`; `None`
/// when that item is missing or not a table.
#[verifier::external_body]
fn table_has_key(doc: &toml_edit::DocumentMut, table: &str, key: &str) -> (r: Option<bool>)
    ensures
        r == match table_in(toml_tables(*doc), table@) {
            Some(m) => Some(m.contains_key(key@)),
            None => None,
        },
{
    doc.get(table).and_then(toml_edit::Item::as_table).map(|t| t.contains_key(key))
}

/// `toml_edit`: `Table::insert` of an empty array value under `key` of the
/// table under `table`; false (and nothing changed) when that item is
/// missing or not a table.
#[verifier::external_body]
fn insert_array(doc: &mut toml_edit::DocumentMut, table: &str, key: &str) -> (r: bool)
    ensures
        r == (table_in(toml_tables(*old(doc)), table@) is Some),
        r ==> toml_tables(*final(doc)) == with_array(toml_tables(*old(doc)), table@, key@, Seq::empty()),
        !r ==> toml_tables(*final(doc)) == toml_tables(*old(doc)),
{
    doc.get_mut(table)
        .and_then(toml_edit::Item::as_table_mut)
        .map(|t| t.insert(key, toml_edit::Item::Value(toml_edit::Value::Array(toml_edit::Array::new()))))
        .is_some()
}

/// `toml_edit`: the entries of the array `table.key` (`Array::iter`, each
/// through `Value::as_str`); `None` when there is no such array.
#[verifier::external_body]
fn array_entries(doc: &toml_edit::DocumentMut, table: &str, key: &str) -> (r: Option<Vec<Option<String>>>)
    ensures
        match r {
            Some(v) => array_in(toml_tables(*doc), table@, key@) == Some(items_view(v@)),
            None => array_in(toml_tables(*doc), table@, key@) is None,
        },
{
    doc.get(table)
        .and_then(toml_edit::Item::as_table)
        .and_then(|t| t.get(key))
        .and_then(toml_edit::Item::as_array)
        .map(|a| a.iter().map(|v| v.as_str().map(str::to_string)).collect())
}

/// `toml_edit`: `Array::push` of the string `entry` onto the array
/// `table.key`.
#[verifier::external_body]
fn push_entry(doc: &mut toml_edit::DocumentMut, table: &str, key: &str, entry: &str)
    requires
        array_in(toml_tables(*old(doc)), table@, key@) is Some,
    ensures
        toml_tables(*final(doc)) == with_array(
            toml_tables(*old(doc)),
            table@,
            key@,
            array_in(toml_tables(*old(doc)), table@, key@).unwrap().push(Some(entry@)),
        ),
{
    doc.get_mut(table)
        .and_then(toml_edit::Item::as_table_mut)
        .and_then(|t| t.get_mut(key))
        .and_then(toml_edit::Item::as_array_mut)
        .map(|a| a.push(entry));
}

/// Whether an array entry stays when `dropped` is removed: every entry but
/// the string `dropped`.
pub fn keeps_entry(entry: Option<&str>, dropped: &str) -> (r: bool)
    ensures
        r == (opt_str_view(entry) != Some(dropped@)),
{
    match entry {
        Some(e) => !str_is(e, dropped),
        None => true,
    }
}

/// `toml_edit`: `Array::retain` on the array `table.key`, keeping the
/// entries `keeps_entry` keeps.
#[verifier::external_body]
fn retain_entries(doc: &mut toml_edit::DocumentMut, table: &str, key: &str, dropped: &str)
    requires
        array_in(toml_tables(*old(doc)), table@, key@) is Some,
    ensures
        toml_tables(*final(doc)) == with_array(
            toml_tables(*old(doc)),
            table@,
            key@,
            array_in(toml_tables(*old(doc)), table@, key@).unwrap().filter(|x: Option<Seq<char>>| x != Some(dropped@)),
        ),
{
    doc.get_mut(table)
        .and_then(toml_edit::Item::as_table_mut)
        .and_then(|t| t.get_mut(key))
        .and_then(toml_edit::Item::as_array_mut)
        .map(|a| a.retain(|v| keeps_entry(v.as_str(), dropped)));
}

/// `toml_edit`: the document printed back (`to_string`).
#[verifier::external_body]
fn document_text(doc: &toml_edit::DocumentMut) -> (t: String)
    ensures
        t@ == toml_text(*doc),
{
    doc.to_string()
}

/// Whether some entry of a manifest array is the string `r`.
pub fn has_entry(items: &Vec<Option<String>>, r: &str) -> (found: bool)
    ensures
        found == items_view(items@).contains(Some(r@)),
{
    let ghost iv = items_view(items@);
    let mut i: usize = 0;
    while i < items.len()
        invariant
            i <= items.len(),
            iv == items_view(items@),
            forall|k: int| 0 <= k < i ==> iv[k] != Some(r@),
        decreases items.len() - i,
    {
        let hit = match &items[i] {
            Some(x) => str_is(x.as_str(), r),
            None => false,
        };
        if hit {
            assert(iv[i as int] == Some(r@));
            return true;
        }
        i = i + 1;
    }
    false
}

/// The entries of a dependency array after adding `r` (appended unless
/// some entry already is `r`) or removing it (every entry equal to `r`
/// goes, the others stay in order).
pub open spec fn edited_entries(items: ArrayEntries, r: Seq<char>, add: bool) -> ArrayEntries {
    if add {
        if items.contains(Some(r)) { items } else { items.push(Some(r)) }
    } else {
        items.filter(|x: Option<Seq<char>>| x != Some(r))
    }
}

/// What a manifest holds after adding or removing the reference `r` in the
/// array `dependencies.<key>`, the table and the array being created when
/// missing; `None` when `dependencies` is not a table or `key` in it is
/// not an array.
pub open spec fn with_dependency_tables(t: DocTables, key: Seq<char>, r: Seq<char>, add: bool) -> Option<DocTables> {
    let deps = if t.contains_key("dependencies"@) { t["dependencies"@] } else { Some(Map::empty()) };
    match deps {
        None => None,
        Some(m) => {
            let items = if m.contains_key(key) { m[key] } else { Some(Seq::empty()) };
            match items {
                None => None,
                Some(items) => Some(t.insert("dependencies"@, Some(m.insert(key, Some(edited_entries(items, r, add)))))),
            }
        },
    }
}

/// The name of the array a reference goes to.
pub open spec fn dependency_key_spec(optional: bool) -> Seq<char> {
    if optional { "optional"@ } else { "required"@ }
}

/// Adds `dep_ref` to (unless it is already there) or removes every copy of
/// it from the `required` (or `optional`) array of a manifest document's
/// `[dependencies]`, creating the table and the array when missing. False,
/// with the document unchanged, when `dependencies` is not a table or the
/// array is not an array.
pub fn edit_dependency(doc: &mut toml_edit::DocumentMut, dep_ref: &str, optional: bool, add: bool) -> (ok: bool)
    ensures
        ok == (with_dependency_tables(toml_tables(*old(doc)), dependency_key_spec(optional), dep_ref@, add) is Some),
        ok ==> Some(toml_tables(*final(doc))) == with_dependency_tables(
            toml_tables(*old(doc)),
            dependency_key_spec(optional),
            dep_ref@,
            add,
        ),
        !ok ==> toml_tables(*final(doc)) == toml_tables(*old(doc)),
{
    let ghost t0 = toml_tables(*doc);
    let key = dependency_key(optional);
    if !has_key(doc, "dependencies") {
        insert_table(doc, "dependencies");
    }
    let ghost t1 = toml_tables(*doc);
    let ghost m = table_in(t1, "dependencies"@);
    match table_has_key(doc, "dependencies", key) {
        None => {
            return false;
        },
        Some(false) => {
            insert_array(doc, "dependencies", key);
        },
        Some(true) => {},
    }
    let ghost t2 = toml_tables(*doc);
    let items = match array_entries(doc, "dependencies", key) {
        Some(v) => v,
        None => {
            return false;
        },
    };
    let ghost iv = items_view(items@);
    let ghost mb = m.unwrap();
    assert(t2 =~~= t0.insert("dependencies"@, Some(mb.insert(key@, Some(iv)))));
    if add {
        if !has_entry(&items, dep_ref) {
            push_entry(doc, "dependencies", key, dep_ref);
            assert(toml_tables(*doc) =~~= t0.insert("dependencies"@, Some(mb.insert(key@, Some(iv.push(Some(dep_ref@)))))));
        }
    } else {
        retain_entries(doc, "dependencies", key, dep_ref);
        assert(toml_tables(*doc) =~~= t0.insert(
            "dependencies"@,
            Some(mb.insert(key@, Some(iv.filter(|x: Option<Seq<char>>| x != Some(dep_ref@))))),
        ));
    }
    true
}

/// Adds `dep_ref` to (unless it is already there) or removes every copy of
/// it from the `[dependencies]` array of a manifest's text, creating the
/// table and the array when needed; the text is `toml_edit`'s printing of
/// the edited document, which keeps comments and the other fields. `None`
/// when the text is not TOML or cannot be edited.
pub fn manifest_with_dependency(content: &str, dep_ref: &str, optional: bool, add: bool) -> (r: Option<String>)
    ensures
        r is Some <==> (toml_read(content@) matches Some(t)
            && with_dependency_tables(t, dependency_key_spec(optional), dep_ref@, add) is Some),
        r matches Some(s) ==> exists|d: toml_edit::DocumentMut|
            Some(toml_tables(d)) == with_dependency_tables(toml_read(content@).unwrap(), dependency_key_spec(optional), dep_ref@, add)
            && s@ == #[trigger] toml_text(d),
{
    let mut doc = match parse_document(content) {
        Some(d) => d,
        None => {
            return None;
        },
    };
    if !edit_dependency(&mut doc, dep_ref, optional, add) {
        return None;
    }
    let t = document_text(&doc);
    assert(t@ == toml_text(doc));
    Some(t)
}

/// Editing the same dependency twice gives what editing it once gives:
/// adding a reference that is there, or removing one that is gone, changes
/// nothing.
pub proof fn lemma_dependency_edit_idempotent(t: DocTables, key: Seq<char>, r: Seq<char>, add: bool)
    requires
        with_dependency_tables(t, key, r, add) is Some,
    ensures
        with_dependency_tables(with_dependency_tables(t, key, r, add).unwrap(), key, r, add)
            == with_dependency_tables(t, key, r, add),
{
    let t1 = with_dependency_tables(t, key, r, add).unwrap();
    let m = if t.contains_key("dependencies"@) { t["dependencies"@].unwrap() } else { Map::empty() };
    let items = if m.contains_key(key) { m[key].unwrap() } else { Seq::empty() };
    let e = edited_entries(items, r, add);
    assert(t1["dependencies"@] == Some(m.insert(key, Some(e))));
    assert(m.insert(key, Some(e))[key] == Some(e));
    let e2 = edited_entries(e, r, add);
    if add {
        if !items.contains(Some(r)) {
            assert(e[e.len() - 1] == Some(r));
        }
        assert(e2 == e);
    } else {
        let f = |x: Option<Seq<char>>| x != Some(r);
        assert(!e.contains(Some(r))) by {
            if e.contains(Some(r)) {
                let k = choose|k: int| 0 <= k < e.len() && e[k] == Some(r);
                items.lemma_filter_pred(f, k);
            }
        }
        lemma_filter_keeps_all(e, r);
        assert(e2 == e);
    }
    assert(m.insert(key, Some(e)).insert(key, Some(e2)) =~= m.insert(key, Some(e)));
    assert(t1.insert("dependencies"@, Some(m.insert(key, Some(e)).insert(key, Some(e2)))) =~= t1);
}

/// Filtering out `r` leaves a sequence without `r` as it is.
proof fn lemma_filter_keeps_all(s: ArrayEntries, r: Seq<char>)
    requires
        !s.contains(Some(r)),
    ensures
        s.filter(|x: Option<Seq<char>>| x != Some(r)) == s,
    decreases s.len(),
{
    reveal(Seq::filter);
    let f = |x: Option<Seq<char>>| x != Some(r);
    if s.len() > 0 {
        assert(!s.drop_last().contains(Some(r))) by {
            if s.drop_last().contains(Some(r)) {
                let k = choose|k: int| 0 <= k < s.drop_last().len() && s.drop_last()[k] == Some(r);
                assert(s[k] == Some(r));
            }
        }
        lemma_filter_keeps_all(s.drop_last(), r);
        assert(s.last() != Some(r)) by {
            assert(s[s.len() - 1] == s.last());
        }
        assert(s.drop_last().push(s.last()) =~= s);
    }
}

/// Sets the `name` of a manifest's text, keeping comments and the other
/// fields; `None` when the text is not TOML.
pub fn manifest_with_name(content: &str, name: &str) -> (r: Option<String>)
    ensures
        opt_string_view(r) == toml_with_name(content@, name@),
{
    with_name(content, name)
}

/// Sets the `tags` of a manifest's text, keeping comments and the other
/// fields; `None` when the text is not TOML.
pub fn manifest_with_tags(content: &str, tags: &Vec<String>) -> (r: Option<String>)
    ensures
        opt_string_view(r) == toml_with_tags(content@, tags@.map_values(|t: String| t@)),
{
    with_tags(content, tags)
}

proof fn lemma_split_leading(s: Seq<char>, c: char)
    requires
        s.len() > 0,
        s[0] == c,
    ensures
        split_on(s, c).len() >= 2,
        split_on(s, c)[0].len() == 0,
    decreases s.len(),
{
    let r = split_on(s.drop_last(), c);
    if s.len() > 1 {
        assert(s.drop_last()[0] == c);
        lemma_split_leading(s.drop_last(), c);
    } else {
        assert(s.drop_last().len() == 0);
        assert(r == seq![Seq::<char>::empty()]);
    }
    assert(split_on(s, c) == (if s.last() == c { r.push(Seq::<char>::empty()) } else { r.update(r.len() - 1, r.last().push(s.last())) }));
}

/// A valid mount entry neither starts nor ends with `/`, and has no empty,
/// `.` or `..` component.
pub proof fn lemma_mount_entry_shape(e: Seq<char>)
    requires
        mount_entry_ok(e),
    ensures
        e[0] != '/',
        e.last() != '/',
        forall|i: int| 0 <= i < split_on(e, '/').len() ==> #[trigger] split_on(e, '/')[i] != seq!['.', '.'],
{
    if e[0] == '/' {
        lemma_split_leading(e, '/');
        assert(component_ok(split_on(e, '/')[0]));
    }
    if e.last() == '/' {
        let r = split_on(e.drop_last(), '/');
        assert(split_on(e, '/') == r.push(Seq::<char>::empty()));
        assert(component_ok(split_on(e, '/')[r.len() as int]));
    }
}

/// Every layer of a mod lies under its folder: the layers are the folder
/// itself or the folder joined with a valid mount entry.
pub proof fn lemma_layers_under_folder(mods_dir: Seq<char>, folder: Seq<char>, mount: Option<Seq<Seq<char>>>)
    ensures
        layers_spec(mods_dir, folder, mount).len() >= 1,
        forall|i: int| 0 <= i < layers_spec(mods_dir, folder, mount).len()
            ==> join_path(mods_dir, folder).is_prefix_of(#[trigger] layers_spec(mods_dir, folder, mount)[i]),
{
    let base = join_path(mods_dir, folder);
    assert(base.is_prefix_of(base)) by {
        assert(base.take(base.len() as int) =~= base);
    }
    match mount {
        Some(m) => {
            let valid = m.filter(|e: Seq<char>| mount_entry_ok(e));
            if valid.len() > 0 {
                assert forall|i: int| 0 <= i < valid.len() implies base.is_prefix_of(#[trigger] join_path(base, valid[i])) by {
                    m.filter_lemma(|e: Seq<char>| mount_entry_ok(e));
                    assert(mount_entry_ok(valid[i]));
                    lemma_mount_entry_shape(valid[i]);
                    let l = join_path(base, valid[i]);
                    if base.len() > 0 {
                        assert(l.take(base.len() as int) =~= base);
                    }
                }
                let ls = valid.map_values(|e: Seq<char>| join_path(base, e));
                assert forall|i: int| 0 <= i < ls.len() implies base.is_prefix_of(#[trigger] ls[i]) by {
                    assert(ls[i] == join_path(base, valid[i]));
                }
            }
        },
        None => {},
    }
}

/// A stable id is exactly `author:slug` with both parts non-empty runs of
/// `[a-z0-9_-]`; so it holds exactly one `:`.
pub proof fn lemma_mod_id_form(s: Seq<char>)
    ensures
        mod_id_ok(s) <==> exists|a: Seq<char>, b: Seq<char>| #[trigger] id_part(a) && #[trigger] id_part(b)
            && s == a + seq![':'] + b,
{
    crate::text::lemma_first_index(s, ':');
    let k = crate::text::first_index(s, ':');
    if mod_id_ok(s) {
        let a = s.take(k);
        let b = s.skip(k + 1);
        assert(s =~= a + seq![':'] + b);
        assert(id_part(a) && id_part(b));
    }
    if exists|a: Seq<char>, b: Seq<char>| #[trigger] id_part(a) && #[trigger] id_part(b) && s == a + seq![':'] + b {
        let (a, b) = choose|a: Seq<char>, b: Seq<char>| #[trigger] id_part(a) && #[trigger] id_part(b) && s == a + seq![':'] + b;
        assert(s[a.len() as int] == ':');
        assert(s.contains(':'));
        assert forall|t: int| 0 <= t < a.len() implies s[t] != ':' by {
            assert(s[t] == a[t]);
            assert(is_id_char(a[t]));
        }
        assert(k == a.len()) by {
            if k < a.len() {
                assert(s[k] == ':');
                assert(s[k] != ':');
            }
        }
        assert(s.take(k) =~= a);
        assert(s.skip(k + 1) =~= b);
    }
}

} // verus!
