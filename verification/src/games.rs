use vstd::prelude::*;
use crate::text::{has_prefix, has_suffix, lower, to_lowercase, starts_with_str, ends_with_str};
use crate::meta::str_is;

verus! {

/// Description of one supported game and its conventions.
#[derive(Debug, Clone, Copy)]
pub struct GameSpec {
    /// Stable key used in `config.toml` (`game = "<key>"`).
    pub key: &'static str,
    /// Human-readable name.
    pub name: &'static str,
    /// UMU/Proton game id (`GAMEID`).
    pub umu_game_id: &'static str,
    /// Default game executable.
    pub exe: &'static str,
    /// Default `DXVK_HUD` value used with `--debug`.
    pub dxvk_hud: &'static str,
    /// Extra executable names treated as high-severity conflicts.
    pub exe_names: &'static [&'static str],
    /// Path prefix of the mod-loader tree (lower-severity conflicts).
    pub loader_prefix: &'static str,
    /// Per-profile user-data folder inside the game dir, relative to the game root.
    pub user_data_dir: Option<&'static str>,
}

/// `.exe`
pub open spec fn exe_suffix() -> Seq<char> {
    seq!['.', 'e', 'x', 'e']
}

impl GameSpec {
    /// The extra executable names, as character sequences.
    pub open spec fn exe_names_view(&self) -> Seq<Seq<char>> {
        self.exe_names@.map_values(|n: &str| n@)
    }

    /// True when a game-relative path is a game executable (high severity):
    /// its lowercase form ends in `.exe` or is one of `exe_names`.
    pub fn is_executable(&self, path: &str) -> (r: bool)
        ensures
            r == (has_suffix(lower(path@), exe_suffix()) || self.exe_names_view().contains(lower(path@))),
    {
        let p = to_lowercase(path);
        proof {
            reveal_strlit(".exe");
            assert(".exe"@ =~= exe_suffix());
        }
        if ends_with_str(p.as_str(), ".exe") {
            return true;
        }
        let mut i: usize = 0;
        while i < self.exe_names.len()
            invariant
                i <= self.exe_names@.len(),
                p@ == lower(path@),
                forall|k: int| 0 <= k < i ==> self.exe_names_view()[k] != p@,
            decreases self.exe_names@.len() - i,
        {
            if str_is(p.as_str(), self.exe_names[i]) {
                assert(self.exe_names_view()[i as int] == p@);
                return true;
            }
            i = i + 1;
        }
        proof {
            if self.exe_names_view().contains(p@) {
                let k = choose|k: int| 0 <= k < self.exe_names_view().len() && self.exe_names_view()[k] == p@;
            }
        }
        false
    }

    /// True when a game-relative path lives under the mod-loader tree.
    pub fn is_loader_path(&self, path: &str) -> (r: bool)
        ensures
            r == has_prefix(lower(path@), self.loader_prefix@),
    {
        let p = to_lowercase(path);
        starts_with_str(p.as_str(), self.loader_prefix)
    }
}

/// The key of the built-in GTA San Andreas spec.
pub open spec fn gta_sa_key() -> Seq<char> {
    "gta_sa"@
}

/// `g` is the built-in GTA San Andreas spec.
pub open spec fn is_gta_sa(g: GameSpec) -> bool {
    &&& g.key@ == gta_sa_key()
    &&& g.name@ == "GTA San Andreas"@
    &&& g.umu_game_id@ == "umu-gtasa"@
    &&& g.exe@ == "gta_sa.exe"@
    &&& g.dxvk_hud@ == "devinfo,fps,frametimes,submissions,compiler,version,api,pipelines,memory,gpuload,drawcalls"@
    &&& g.exe_names_view() == seq!["gta_sa.exe"@, "gta_sa.pdb"@]
    &&& g.loader_prefix@ == "modloader/"@
    &&& (g.user_data_dir matches Some(d) && d@ == "userfiles"@)
}

/// GTA San Andreas.
pub fn gta_sa() -> (g: GameSpec)
    ensures
        is_gta_sa(g),
{
    let g = GameSpec {
        key: "gta_sa",
        name: "GTA San Andreas",
        umu_game_id: "umu-gtasa",
        exe: "gta_sa.exe",
        dxvk_hud: "devinfo,fps,frametimes,submissions,compiler,version,api,pipelines,memory,gpuload,drawcalls",
        exe_names: &["gta_sa.exe", "gta_sa.pdb"],
        loader_prefix: "modloader/",
        // PortableGTA redirects the user files to `<game root>/userfiles`.
        user_data_dir: Some("userfiles"),
    };
    assert(g.exe_names_view() =~= seq!["gta_sa.exe"@, "gta_sa.pdb"@]);
    g
}

/// The default game, used when the config does not select one.
pub fn default_spec() -> (g: GameSpec)
    ensures
        is_gta_sa(g),
{
    gta_sa()
}

/// Looks up a game spec by its `key` (only `gta_sa` is built in).
pub fn spec_for(key: &str) -> (g: Option<GameSpec>)
    ensures
        g is Some <==> key@ == gta_sa_key(),
        g matches Some(s) ==> is_gta_sa(s),
{
    if str_is(key, "gta_sa") {
        Some(gta_sa())
    } else {
        None
    }
}

/// Resolves a configured game key to a spec, falling back to the default when
/// it is missing or unknown.
pub fn resolve(key: Option<&str>) -> (g: GameSpec)
    ensures
        is_gta_sa(g),
{
    match key {
        Some(k) => match spec_for(k) {
            Some(s) => s,
            None => default_spec(),
        },
        None => default_spec(),
    }
}

} // verus!
