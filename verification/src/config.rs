use vstd::prelude::*;
use crate::paths::{join, join_path};

verus! {

/// The settings of `config.toml`.
#[derive(Debug, Clone)]
pub struct Config {
    pub game_root: String,
    pub proton_path: String,
    pub game_id: Option<String>,
    pub game_exe: Option<String>,
    pub proton_use_wined3d: Option<bool>,
    pub proton_disable_ntsync: Option<bool>,
    pub proton_disable_upscalers: Option<bool>,
    pub dxvk_hud: Option<String>,
    pub auto_discover: Option<bool>,
    pub mods_dir: Option<String>,
    pub default_profile: Option<String>,
}

/// The value of an optional text setting, or its default.
pub open spec fn or_default(o: Option<String>, d: Seq<char>) -> Seq<char> {
    match o {
        Some(s) => s@,
        None => d,
    }
}

/// The default `DXVK_HUD` value used with `--debug`.
pub open spec fn default_dxvk_hud() -> Seq<char> {
    "devinfo,fps,frametimes,submissions,compiler,version,api,pipelines,memory,gpuload,drawcalls"@
}

impl Config {
    /// UMU/Proton game id; `umu-gtasa` by default.
    pub fn game_id(&self) -> (r: &str)
        ensures
            r@ == or_default(self.game_id, "umu-gtasa"@),
    {
        match &self.game_id {
            Some(s) => s.as_str(),
            None => "umu-gtasa",
        }
    }

    /// Game executable; `gta_sa.exe` by default.
    pub fn game_exe(&self) -> (r: &str)
        ensures
            r@ == or_default(self.game_exe, "gta_sa.exe"@),
    {
        match &self.game_exe {
            Some(s) => s.as_str(),
            None => "gta_sa.exe",
        }
    }

    /// Whether Proton uses WineD3D; on by default.
    pub fn proton_use_wined3d(&self) -> (r: bool)
        ensures
            r == (match self.proton_use_wined3d { Some(b) => b, None => true }),
    {
        match self.proton_use_wined3d {
            Some(b) => b,
            None => true,
        }
    }

    /// Whether NTSYNC is disabled; off by default.
    pub fn proton_disable_ntsync(&self) -> (r: bool)
        ensures
            r == (match self.proton_disable_ntsync { Some(b) => b, None => false }),
    {
        match self.proton_disable_ntsync {
            Some(b) => b,
            None => false,
        }
    }

    /// Whether Proton's upscaler downloads are disabled; off by default.
    pub fn proton_disable_upscalers(&self) -> (r: bool)
        ensures
            r == (match self.proton_disable_upscalers { Some(b) => b, None => false }),
    {
        match self.proton_disable_upscalers {
            Some(b) => b,
            None => false,
        }
    }

    /// Whether launching rescans the mods; off by default.
    pub fn auto_discover(&self) -> (r: bool)
        ensures
            r == (match self.auto_discover { Some(b) => b, None => false }),
    {
        match self.auto_discover {
            Some(b) => b,
            None => false,
        }
    }

    /// `DXVK_HUD` used with `--debug`.
    pub fn dxvk_hud(&self) -> (r: &str)
        ensures
            r@ == or_default(self.dxvk_hud, default_dxvk_hud()),
    {
        match &self.dxvk_hud {
            Some(s) => s.as_str(),
            None => "devinfo,fps,frametimes,submissions,compiler,version,api,pipelines,memory,gpuload,drawcalls",
        }
    }

    /// The profile launched when none is given.
    pub fn default_profile(&self) -> (r: Option<&str>)
        ensures
            match r {
                Some(s) => self.default_profile matches Some(d) && s@ == d@,
                None => self.default_profile is None,
            },
    {
        match &self.default_profile {
            Some(s) => Some(s.as_str()),
            None => None,
        }
    }
}

/// The directories derived from the game root.
#[derive(Debug, Clone)]
pub struct RuntimePaths {
    pub base_game: String,
    pub mods_dir: String,
    pub wine_prefix: String,
    pub profiles_root: String,
    pub merged: String,
}

/// The overlay directories of one profile.
#[derive(Debug, Clone)]
pub struct ProfilePaths {
    pub upper: String,
    pub work: String,
    pub log_dir: String,
}

impl RuntimePaths {
    /// `base`, `pfx`, `run/profiles` and `run/merged` under the game root; the
    /// mods directory from the config or `mods` under the game root.
    pub fn from_config(config: &Config) -> (p: Self)
        ensures
            p.base_game@ == join_path(config.game_root@, "base"@),
            p.mods_dir@ == (match config.mods_dir {
                Some(m) => m@,
                None => join_path(config.game_root@, "mods"@),
            }),
            p.wine_prefix@ == join_path(config.game_root@, "pfx"@),
            p.profiles_root@ == join_path(config.game_root@, "run/profiles"@),
            p.merged@ == join_path(config.game_root@, "run/merged"@),
    {
        let root = config.game_root.as_str();
        let mods_dir = match &config.mods_dir {
            Some(m) => m.clone(),
            None => join(root, "mods"),
        };
        RuntimePaths {
            profiles_root: join(root, "run/profiles"),
            merged: join(root, "run/merged"),
            base_game: join(root, "base"),
            mods_dir,
            wine_prefix: join(root, "pfx"),
        }
    }

    /// `upper`, `work` and `logs` under `run/profiles/<slug>`.
    pub fn profile_paths(&self, slug: &str) -> (p: ProfilePaths)
        ensures
            p.upper@ == join_path(join_path(self.profiles_root@, slug@), "upper"@),
            p.work@ == join_path(join_path(self.profiles_root@, slug@), "work"@),
            p.log_dir@ == join_path(join_path(self.profiles_root@, slug@), "logs"@),
    {
        let base = join(self.profiles_root.as_str(), slug);
        ProfilePaths {
            upper: join(base.as_str(), "upper"),
            work: join(base.as_str(), "work"),
            log_dir: join(base.as_str(), "logs"),
        }
    }
}

/// The launcher lock file: in `$XDG_RUNTIME_DIR`, or `/tmp` when it is unset.
pub fn lockfile_path(runtime_dir: Option<&str>) -> (p: String)
    ensures
        p@ == join_path(match runtime_dir {
            Some(d) => d@,
            None => "/tmp"@,
        }, "gta-mo-launcher.lock"@),
{
    let dir = match runtime_dir {
        Some(d) => d,
        None => "/tmp",
    };
    join(dir, "gta-mo-launcher.lock")
}

/// The database: `$GTA_MO_DB` when set, else `gta-mo/organizer.db` in the
/// data directory (or in `.` when there is none).
pub fn db_path(env_db: Option<&str>, data_dir: Option<&str>) -> (p: String)
    ensures
        p@ == (match env_db {
            Some(e) => e@,
            None => join_path(match data_dir {
                Some(d) => d@,
                None => "."@,
            }, "gta-mo/organizer.db"@),
        }),
{
    match env_db {
        Some(e) => String::from_str(e),
        None => {
            let dir = match data_dir {
                Some(d) => d,
                None => ".",
            };
            join(dir, "gta-mo/organizer.db")
        },
    }
}

} // verus!
