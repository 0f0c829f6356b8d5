use vstd::prelude::*;
use crate::constraints::views;
use crate::text::{chars_of, string_of, trim, trim_seq};

verus! {

/// UI density. Affects spacing and control sizes.
#[derive(Debug, Clone, Copy, PartialEq, Eq, Structural)]
pub enum Density {
    Compact,
    Cozy,
}

impl Density {
    pub fn label(self) -> (l: &'static str)
        ensures
            l@ == (match self {
                Density::Compact => "Compacta"@,
                Density::Cozy => "Cómoda"@,
            }),
    {
        match self {
            Density::Compact => "Compacta",
            Density::Cozy => "Cómoda",
        }
    }
}

impl Default for Density {
    /// Cozy.
    fn default() -> (d: Self)
        ensures
            d == Density::Cozy,
    {
        Density::Cozy
    }
}

/// Theme preference. `System` follows the OS.
#[derive(Debug, Clone, Copy, PartialEq, Eq, Structural)]
pub enum ThemePref {
    System,
    Light,
    Dark,
}

impl ThemePref {
    pub fn label(self) -> (l: &'static str)
        ensures
            l@ == (match self {
                ThemePref::System => "Sistema"@,
                ThemePref::Light => "Claro"@,
                ThemePref::Dark => "Oscuro"@,
            }),
    {
        match self {
            ThemePref::System => "Sistema",
            ThemePref::Light => "Claro",
            ThemePref::Dark => "Oscuro",
        }
    }
}

impl Default for ThemePref {
    /// Follow the system.
    fn default() -> (t: Self)
        ensures
            t == ThemePref::System,
    {
        ThemePref::System
    }
}

/// Accent color palette.
#[derive(Debug, Clone, Copy, PartialEq, Eq, Structural)]
pub enum Accent {
    Azure,
    Purple,
    Magenta,
    Red,
    Amber,
    Yellow,
    Leaf,
    Gray,
}

impl Accent {
    pub fn label(self) -> (l: &'static str)
        ensures
            l@ == (match self {
                Accent::Azure => "Azul"@,
                Accent::Purple => "Púrpura"@,
                Accent::Magenta => "Magenta"@,
                Accent::Red => "Rojo"@,
                Accent::Amber => "Ámbar"@,
                Accent::Yellow => "Amarillo"@,
                Accent::Leaf => "Verde"@,
                Accent::Gray => "Gris"@,
            }),
    {
        match self {
            Accent::Azure => "Azul",
            Accent::Purple => "Púrpura",
            Accent::Magenta => "Magenta",
            Accent::Red => "Rojo",
            Accent::Amber => "Ámbar",
            Accent::Yellow => "Amarillo",
            Accent::Leaf => "Verde",
            Accent::Gray => "Gris",
        }
    }
}

impl Default for Accent {
    /// Azure.
    fn default() -> (a: Self)
        ensures
            a == Accent::Azure,
    {
        Accent::Azure
    }
}

/// Kind of a transient notification.
#[derive(Debug, Clone, Copy, PartialEq, Eq, Structural)]
pub enum ToastKind {
    Success,
    Error,
    Info,
}

/// The Lucide glyph shown for each theme preference: monitor, sun, moon.
pub fn theme_icon(pref: ThemePref) -> (icon: &'static str)
    ensures
        icon@ == (match pref {
            ThemePref::System => "\u{E11D}"@,
            ThemePref::Light => "\u{E178}"@,
            ThemePref::Dark => "\u{E11E}"@,
        }),
{
    match pref {
        ThemePref::System => "\u{E11D}",
        ThemePref::Light => "\u{E178}",
        ThemePref::Dark => "\u{E11E}",
    }
}

/// Settings flags that default to on.
pub fn default_true() -> (b: bool)
    ensures
        b,
{
    true
}

/// What a text-input dialog does with its value when confirmed.
#[derive(Debug, Clone)]
pub enum InputAction {
    Create,
    Rename(String),
    Copy(String),
    NewMod,
    RenameMod(String),
    RenameModFolder(String),
    SetTags(String),
    NewGroup,
    RenameGroup(String),
}

/// State of a text-input dialog.
#[derive(Debug)]
pub struct InputState {
    pub title: String,
    pub label: String,
    pub value: String,
    pub action: InputAction,
}

impl InputState {
    /// A dialog with the given title and label, an empty value.
    pub fn new(title: &str, label: &str, action: InputAction) -> (s: Self)
        ensures
            s.title@ == title@,
            s.label@ == label@,
            s.value@.len() == 0,
            s.action == action,
    {
        InputState {
            title: String::from_str(title),
            label: String::from_str(label),
            value: String::new(),
            action,
        }
    }
}

/// A character that separates the tags typed in the tag dialog.
pub open spec fn is_tag_sep(c: char) -> bool {
    c == ',' || c == ' ' || c == '\t' || c == '\n'
}

/// The pieces between separators (empty pieces included).
pub open spec fn split_seps(s: Seq<char>) -> Seq<Seq<char>>
    decreases s.len(),
{
    if s.len() == 0 {
        seq![Seq::empty()]
    } else {
        let r = split_seps(s.drop_last());
        if is_tag_sep(s.last()) {
            r.push(Seq::empty())
        } else {
            r.update(r.len() - 1, r.last().push(s.last()))
        }
    }
}

/// The trimmed pieces that are not empty.
pub open spec fn words_of(pieces: Seq<Seq<char>>) -> Seq<Seq<char>>
    decreases pieces.len(),
{
    if pieces.len() == 0 {
        Seq::empty()
    } else {
        let rest = words_of(pieces.drop_last());
        let w = trim_seq(pieces.last());
        if w.len() > 0 { rest.push(w) } else { rest }
    }
}

proof fn lemma_split_seps_len(s: Seq<char>)
    ensures
        split_seps(s).len() >= 1,
    decreases s.len(),
{
    if s.len() > 0 {
        lemma_split_seps_len(s.drop_last());
    }
}

/// The tags typed in the tag dialog: split at commas, spaces, tabs and line
/// breaks, trimmed, empty ones left out.
pub fn tag_words(value: &str) -> (out: Vec<String>)
    ensures
        views(out@) == words_of(split_seps(value@)),
{
    let v = chars_of(value);
    let mut pieces: Vec<String> = Vec::new();
    let mut cur: Vec<char> = Vec::new();
    let mut i: usize = 0;
    proof {
        assert(value@.take(0) =~= Seq::<char>::empty());
    }
    while i < v.len()
        invariant
            i <= v.len(),
            v@ == value@,
            views(pieces@).push(cur@) == split_seps(value@.take(i as int)),
        decreases v.len() - i,
    {
        proof {
            assert(value@.take(i + 1).drop_last() =~= value@.take(i as int));
            assert(value@.take(i + 1).last() == v@[i as int]);
            lemma_split_seps_len(value@.take(i as int));
        }
        let c = v[i];
        let ghost before = views(pieces@).push(cur@);
        if c == ',' || c == ' ' || c == '\t' || c == '\n' {
            let piece = string_of(&cur);
            pieces.push(piece);
            cur = Vec::new();
            proof {
                assert(views(pieces@).push(cur@) =~= before.push(Seq::empty()));
            }
        } else {
            cur.push(c);
            proof {
                assert(views(pieces@).push(cur@) =~= before.update(before.len() - 1, before.last().push(c)));
            }
        }
        i = i + 1;
    }
    proof {
        assert(value@.take(v.len() as int) =~= value@);
    }
    let last = string_of(&cur);
    pieces.push(last);
    let ghost ps = views(pieces@);
    assert(ps == split_seps(value@));
    let mut out: Vec<String> = Vec::new();
    let mut k: usize = 0;
    while k < pieces.len()
        invariant
            k <= pieces.len(),
            ps == views(pieces@),
            views(out@) == words_of(ps.take(k as int)),
        decreases pieces.len() - k,
    {
        proof {
            assert(ps.take(k + 1).drop_last() =~= ps.take(k as int));
            assert(ps.take(k + 1).last() == pieces@[k as int]@);
        }
        let w = trim(pieces[k].as_str());
        if w.unicode_len() > 0 {
            let ghost prev = views(out@);
            out.push(w.to_owned());
            assert(views(out@) =~= prev.push(trim_seq(pieces@[k as int]@)));
        }
        k = k + 1;
    }
    proof {
        assert(ps.take(pieces.len() as int) =~= ps);
    }
    out
}

/// The command line a confirmed text dialog runs, given its value.
pub open spec fn input_args_spec(action: InputAction, value: Seq<char>) -> Seq<Seq<char>> {
    match action {
        InputAction::Create => seq!["ctl"@, "profile"@, "create"@, value],
        InputAction::Rename(slug) => seq!["ctl"@, "profile"@, "rename"@, slug@, value],
        InputAction::Copy(slug) => seq!["ctl"@, "profile"@, "copy"@, slug@, value],
        InputAction::NewMod => seq!["ctl"@, "init"@, value],
        InputAction::RenameMod(folder) => seq!["ctl"@, "rename"@, folder@, value],
        InputAction::RenameModFolder(folder) => seq!["ctl"@, "rename"@, folder@, value, "--folder"@],
        InputAction::SetTags(folder) => seq!["ctl"@, "tag"@, "set"@, folder@] + words_of(split_seps(value)),
        InputAction::NewGroup => seq!["ctl"@, "group"@, "create"@, value],
        InputAction::RenameGroup(ident) => seq!["ctl"@, "group"@, "rename"@, ident@, value],
    }
}

pub(crate) fn strs(parts: &Vec<&str>) -> (out: Vec<String>)
    ensures
        views(out@) == parts@.map_values(|p: &str| p@),
{
    let mut out: Vec<String> = Vec::new();
    let mut i: usize = 0;
    while i < parts.len()
        invariant
            i <= parts.len(),
            views(out@) == parts@.take(i as int).map_values(|p: &str| p@),
        decreases parts.len() - i,
    {
        let ghost prev = views(out@);
        out.push(String::from_str(parts[i]));
        proof {
            assert(views(out@) =~= prev.push(parts@[i as int]@));
            assert(parts@.take(i + 1).map_values(|p: &str| p@) =~= parts@.take(i as int).map_values(|p: &str| p@).push(parts@[i as int]@));
        }
        i = i + 1;
    }
    proof {
        assert(parts@.take(parts.len() as int) =~= parts@);
    }
    out
}

/// The command line a confirmed text dialog runs with the value typed.
pub fn input_args(action: &InputAction, value: &str) -> (args: Vec<String>)
    ensures
        views(args@) == input_args_spec(*action, value@),
{
    let args = match action {
        InputAction::Create => strs(&vec!["ctl", "profile", "create", value]),
        InputAction::Rename(slug) => strs(&vec!["ctl", "profile", "rename", slug.as_str(), value]),
        InputAction::Copy(slug) => strs(&vec!["ctl", "profile", "copy", slug.as_str(), value]),
        InputAction::NewMod => strs(&vec!["ctl", "init", value]),
        InputAction::RenameMod(folder) => strs(&vec!["ctl", "rename", folder.as_str(), value]),
        InputAction::RenameModFolder(folder) => strs(&vec!["ctl", "rename", folder.as_str(), value, "--folder"]),
        InputAction::SetTags(folder) => {
            let mut a = strs(&vec!["ctl", "tag", "set", folder.as_str()]);
            let words = tag_words(value);
            let ghost head = views(a@);
            let mut i: usize = 0;
            while i < words.len()
                invariant
                    i <= words.len(),
                    views(a@) == head + views(words@).take(i as int),
                decreases words.len() - i,
            {
                let ghost prev = views(a@);
                a.push(words[i].clone());
                proof {
                    assert(views(a@) =~= prev.push(words@[i as int]@));
                    assert(views(words@).take(i + 1) =~= views(words@).take(i as int).push(words@[i as int]@));
                }
                i = i + 1;
            }
            proof {
                assert(views(words@).take(words.len() as int) =~= views(words@));
            }
            a
        },
        InputAction::NewGroup => strs(&vec!["ctl", "group", "create", value]),
        InputAction::RenameGroup(ident) => strs(&vec!["ctl", "group", "rename", ident.as_str(), value]),
    };
    assert(views(args@) =~= input_args_spec(*action, value@));
    args
}

/// What a confirmation dialog does when accepted.
#[derive(Debug, Clone)]
pub enum ConfirmAction {
    DeleteProfile(String),
    DeleteMod(String),
    DeleteGroup(String),
    DeleteUserData(String),
}

/// The command line an accepted confirmation runs (`active` is the active
/// profile's slug).
pub open spec fn confirm_args_spec(action: ConfirmAction, active: Seq<char>) -> Seq<Seq<char>> {
    match action {
        ConfirmAction::DeleteProfile(slug) => seq!["ctl"@, "profile"@, "delete"@, slug@, "--yes"@],
        ConfirmAction::DeleteMod(folder) => seq!["ctl"@, "remove"@, folder@, "--yes"@, "--profile"@, active],
        ConfirmAction::DeleteGroup(ident) => seq!["ctl"@, "group"@, "delete"@, ident@, "--yes"@],
        ConfirmAction::DeleteUserData(rel) => seq!["ctl"@, "data"@, "remove"@, rel@, "--yes"@, "--profile"@, active],
    }
}

/// The command line an accepted confirmation runs.
pub fn confirm_args(action: &ConfirmAction, active: &str) -> (args: Vec<String>)
    ensures
        views(args@) == confirm_args_spec(*action, active@),
{
    let args = match action {
        ConfirmAction::DeleteProfile(slug) => strs(&vec!["ctl", "profile", "delete", slug.as_str(), "--yes"]),
        ConfirmAction::DeleteMod(folder) => strs(&vec!["ctl", "remove", folder.as_str(), "--yes", "--profile", active]),
        ConfirmAction::DeleteGroup(ident) => strs(&vec!["ctl", "group", "delete", ident.as_str(), "--yes"]),
        ConfirmAction::DeleteUserData(rel) => strs(&vec!["ctl", "data", "remove", rel.as_str(), "--yes", "--profile", active]),
    };
    assert(views(args@) =~= confirm_args_spec(*action, active@));
    args
}

/// A text dialog accepts its value once trimmed, and only when something is
/// left, except the tags dialog, where an empty value clears the tags.
pub open spec fn submission_spec(action: InputAction, value: Seq<char>) -> Option<Seq<Seq<char>>> {
    if trim_seq(value).len() > 0 || action is SetTags {
        Some(input_args_spec(action, trim_seq(value)))
    } else {
        None
    }
}

/// The command a text dialog runs when the user confirms it, or nothing when
/// the value is not accepted (the dialog then stays open).
pub fn submit_input(action: &InputAction, value: &str) -> (args: Option<Vec<String>>)
    ensures
        match args {
            Some(a) => submission_spec(*action, value@) == Some(views(a@)),
            None => submission_spec(*action, value@) is None,
        },
{
    let v = trim(value);
    let is_tags = match action {
        InputAction::SetTags(_) => true,
        _ => false,
    };
    if v.unicode_len() > 0 || is_tags {
        Some(input_args(action, v))
    } else {
        None
    }
}

} // verus!
