use vstd::prelude::*;
use crate::config::{Config, ProfilePaths, RuntimePaths, default_dxvk_hud, or_default};
use crate::db::Profile;
use crate::paths::{join, join_path};
use crate::resolver::DepPrompt;
use crate::cli::opt_view_str;
use crate::constraints::{pair_views, views};
use crate::text::{join_with, join_strings, nat_decimal, push_nat_decimal};

verus! {

/// Launches the game over the overlay of a profile's mods.
pub struct LaunchEngine;

#[derive(Debug, Clone)]
pub struct LaunchOptions {
    pub dry_run: bool,
    pub debug: bool,
    pub discover: bool,
    pub clean: bool,
    pub auto_discover: bool,
    pub profile: Option<String>,
    pub deps_enable: bool,
    pub deps_ignore: bool,
}

impl Default for LaunchOptions {
    /// Everything off but automatic discovery; the active profile.
    fn default() -> (o: Self)
        ensures
            !o.dry_run && !o.debug && !o.discover && !o.clean,
            o.auto_discover,
            o.profile is None,
            !o.deps_enable && !o.deps_ignore,
    {
        LaunchOptions {
            dry_run: false,
            debug: false,
            discover: false,
            clean: false,
            auto_discover: true,
            profile: None,
            deps_enable: false,
            deps_ignore: false,
        }
    }
}

pub struct LaunchResult {
    pub log: String,
}

/// What a launch does before touching the profile.
#[derive(Debug, Clone, Copy, PartialEq, Eq, Structural)]
pub enum LaunchStart {
    /// Only rescan the mods directory.
    DiscoverOnly,
    /// Remove orphaned mods (after a rescan when `discover` is set).
    Clean,
    /// Resolve the profile and launch.
    Launch,
}

/// The steps a launch takes, decided from the options and the config.
#[derive(Debug, Clone)]
pub struct LaunchPlan {
    /// Rescan the mods directory first.
    pub discover: bool,
    pub start: LaunchStart,
    /// How disabled dependencies are handled.
    pub prompt: DepPrompt,
    /// Progress lines reported before the run stops or goes on.
    pub log: Vec<String>,
    /// The result of a run that stops early (discovery only, cleaning).
    pub result: Option<String>,
}

/// The progress lines of a launch: the rescan, then the cleaning.
pub open spec fn plan_log(discover: bool, clean: bool) -> Seq<Seq<char>> {
    (if discover { seq!["Auto-descubriendo mods..."@] } else { Seq::empty() })
        + (if clean { seq!["Eliminando mods hu\u{e9}rfanos..."@] } else { Seq::empty() })
}

/// `<field> no es un directorio válido: <value>`
pub open spec fn not_dir_msg(field: Seq<char>, value: Seq<char>) -> Seq<char> {
    field + " no es un directorio válido: "@ + value
}

/// `directorio base del juego no encontrado: <path>`
pub open spec fn no_base_msg(path: Seq<char>) -> Seq<char> {
    "directorio base del juego no encontrado: "@ + path
}

/// `yes` and `no` as `{}` writes a `bool`.
pub open spec fn bool_text(b: bool) -> Seq<char> {
    if b { "true"@ } else { "false"@ }
}

/// `NAME: value` lines of a dry run are padded to a common column.
pub open spec fn numbered(i: nat, path: Seq<char>, suffix: Seq<char>) -> Seq<char> {
    "  "@ + nat_decimal(i) + ". "@ + path + suffix + "\n"@
}

/// The numbered lowerdir layers: the mods in priority order, then the base game.
pub open spec fn layer_lines(mods_dir: Seq<char>, resolved: Seq<Seq<char>>, n: nat) -> Seq<char>
    decreases resolved.len(),
{
    if resolved.len() == 0 {
        Seq::empty()
    } else {
        layer_lines(mods_dir, resolved.drop_last(), n) + numbered(n + resolved.len(), join_path(mods_dir, resolved.last()), Seq::empty())
    }
}

/// The head of the dry-run report: banner and profile.
pub open spec fn report_head(profile_name: Seq<char>, profile_slug: Seq<char>) -> Seq<char> {
    "\n=== DRY RUN: no se montara overlay ni se lanzara el juego ===\n\n"@
        + "Perfil: "@ + profile_name + " ("@ + profile_slug + ")\n"@
        + "lowerdir capas (ordenadas mayor -> menor prioridad):\n"@
}

/// The numbered layers, or the clean game alone.
pub open spec fn report_layers(paths: RuntimePaths, resolved: Seq<Seq<char>>) -> Seq<char> {
    if resolved.len() == 0 {
        numbered(1, paths.base_game@, " (juego limpio)"@)
    } else {
        layer_lines(paths.mods_dir@, resolved, 0) + numbered(resolved.len() + 1, paths.base_game@, " (base)"@)
    }
}

/// The overlay directories.
pub open spec fn report_dirs(paths: RuntimePaths, upper: Seq<char>, work: Seq<char>) -> Seq<char> {
    "\n"@ + "upperdir: "@ + upper + "\n"@ + "workdir:  "@ + work + "\n"@
        + "merged:   "@ + paths.merged@ + "\n"@ + "\n"@
}

/// The Proton settings.
pub open spec fn report_env(cfg: Config, paths: RuntimePaths) -> Seq<char> {
    "WINEPREFIX:                "@ + paths.wine_prefix@ + "\n"@
        + "PROTONPATH:                "@ + cfg.proton_path@ + "\n"@
        + "GAMEID:                    "@ + or_default(cfg.game_id, "umu-gtasa"@) + "\n"@
        + "GAME_EXE:                  "@ + or_default(cfg.game_exe, "gta_sa.exe"@) + "\n"@
        + "PROTON_USE_WINED3D:        "@ + bool_text(match cfg.proton_use_wined3d { Some(b) => b, None => true }) + "\n"@
        + "PROTON_DISABLE_NTSYNC:     "@ + bool_text(match cfg.proton_disable_ntsync { Some(b) => b, None => false }) + "\n"@
        + "PROTON_DISABLE_UPSCALERS:  "@ + bool_text(match cfg.proton_disable_upscalers { Some(b) => b, None => false }) + "\n"@
        + "AUTO_DISCOVER:             "@ + bool_text(match cfg.auto_discover { Some(b) => b, None => false }) + "\n"@
}

/// The debug settings, when `debug`.
pub open spec fn report_debug(cfg: Config, log_dir: Seq<char>, debug: bool) -> Seq<char> {
    if debug {
        "\n[DEBUG] Modo debug activado:\n"@
            + "  PROTON_LOG:              1\n"@
            + "  DXVK_LOG_LEVEL:          debug\n"@
            + "  DXVK_LOG_PATH:           "@ + log_dir + "\n"@
            + "  DXVK_HUD:                "@ + or_default(cfg.dxvk_hud, default_dxvk_hud()) + "\n"@
            + "  WINEDEBUG:               +loaddll\n"@
    } else {
        Seq::empty()
    }
}

/// The dry-run report: profile, layers, overlay directories, Proton settings,
/// the debug settings when `debug`, and the executable.
pub open spec fn dry_run_spec(cfg: Config, paths: RuntimePaths, profile_name: Seq<char>, profile_slug: Seq<char>,
    upper: Seq<char>, work: Seq<char>, log_dir: Seq<char>, resolved: Seq<Seq<char>>, debug: bool) -> Seq<char>
{
    report_head(profile_name, profile_slug) + report_layers(paths, resolved) + report_dirs(paths, upper, work)
        + report_env(cfg, paths) + report_debug(cfg, log_dir, debug)
        + "Ejecutable:                "@ + join_path(paths.merged@, or_default(cfg.game_exe, "gta_sa.exe"@)) + "\n"@
}

/// The environment the game runs with, in the order it is set: Wine prefix,
/// Proton path, game id, the WineD3D and NTSYNC switches, the upscaler
/// switches when disabled, and the logging settings when `debug`.
pub open spec fn env_spec(cfg: Config, wine_prefix: Seq<char>, log_dir: Seq<char>, debug: bool) -> Seq<(Seq<char>, Seq<char>)> {
    let base = seq![
        ("WINEPREFIX"@, wine_prefix),
        ("PROTONPATH"@, cfg.proton_path@),
        ("GAMEID"@, or_default(cfg.game_id, "umu-gtasa"@)),
        ("PROTON_USE_WINED3D"@, if (match cfg.proton_use_wined3d { Some(b) => b, None => true }) { "1"@ } else { "0"@ }),
        ("PROTON_DISABLE_NTSYNC"@, if (match cfg.proton_disable_ntsync { Some(b) => b, None => false }) { "1"@ } else { "0"@ }),
    ];
    let ups = if (match cfg.proton_disable_upscalers { Some(b) => b, None => false }) {
        seq![
            ("PROTON_FSR3_UPGRADE"@, "0"@),
            ("PROTON_FSR4_UPGRADE"@, "0"@),
            ("PROTON_FSR4_RDNA3_UPGRADE"@, "0"@),
            ("PROTON_MLFG_UPGRADE"@, "0"@),
            ("PROTON_DLSS_UPGRADE"@, "0"@),
            ("PROTON_XESS_UPGRADE"@, "0"@),
            ("PROTON_USE_OPTISCALER"@, "0"@),
        ]
    } else {
        Seq::empty()
    };
    let dbg = if debug {
        seq![
            ("PROTON_LOG"@, "1"@),
            ("DXVK_LOG_LEVEL"@, "debug"@),
            ("DXVK_LOG_PATH"@, log_dir),
            ("DXVK_HUD"@, or_default(cfg.dxvk_hud, default_dxvk_hud())),
            ("WINEDEBUG"@, "+loaddll"@),
        ]
    } else {
        Seq::empty()
    };
    base + ups + dbg
}

/// The variables as plain values.
pub open spec fn env_view(v: Seq<(String, String)>) -> Seq<(Seq<char>, Seq<char>)> {
    v.map_values(|p: (String, String)| (p.0@, p.1@))
}

fn var(name: &str, value: &str) -> (p: (String, String))
    ensures
        p.0@ == name@,
        p.1@ == value@,
{
    (String::from_str(name), String::from_str(value))
}

fn flag(b: bool) -> (s: &'static str)
    ensures
        s@ == (if b { "1"@ } else { "0"@ }),
{
    if b { "1" } else { "0" }
}

fn bool_str(b: bool) -> (s: &'static str)
    ensures
        s@ == bool_text(b),
{
    if b { "true" } else { "false" }
}

fn push_numbered(out: &mut String, i: u64, path: &str, suffix: &str)
    ensures
        final(out)@ == old(out)@ + numbered(i as nat, path@, suffix@),
{
    out.append("  ");
    push_nat_decimal(out, i as u128);
    out.append(". ");
    out.append(path);
    out.append(suffix);
    out.append("\n");
}

/// Whether a program can be found on `PATH`, as `which::which` finds it.
/// It depends on the machine, so nothing is promised of the answer.
#[verifier::external_body]
fn on_path(cmd: &str) -> (found: bool)
{
    which::which(cmd).is_ok()
}

/// The programs a launch needs.
pub open spec fn required_tools() -> Seq<Seq<char>> {
    seq!["fuse-overlayfs"@, "umu-run"@]
}

/// The tools of `tools` whose availability is false, in order.
pub open spec fn missing_tools(tools: Seq<Seq<char>>, available: Seq<bool>) -> Seq<Seq<char>>
    decreases tools.len(),
{
    if tools.len() == 0 {
        Seq::empty()
    } else {
        let rest = missing_tools(tools.drop_last(), available);
        if available[tools.len() - 1] { rest } else { rest.push(tools.last()) }
    }
}

/// `Faltan dependencias: <missing>. Asegurate de tener fuse-overlayfs y umu-launcher instalados.`
pub open spec fn missing_tools_msg(missing: Seq<Seq<char>>) -> Seq<char> {
    "Faltan dependencias: "@ + join_with(missing, ", "@) + ". Asegurate de tener fuse-overlayfs y umu-launcher instalados."@
}

/// The outcome of checking `tools` when `available[i]` tells whether
/// `tools[i]` was found: an error naming the missing ones.
pub open spec fn tools_check(tools: Seq<Seq<char>>, available: Seq<bool>) -> Result<(), Seq<char>> {
    let missing = missing_tools(tools, available);
    if missing.len() == 0 { Ok(()) } else { Err(missing_tools_msg(missing)) }
}

/// The outcome of the launch's tool check given which required tools were
/// found.
pub open spec fn system_deps_spec(available: Seq<bool>) -> Result<(), Seq<char>> {
    tools_check(required_tools(), available)
}

/// A check outcome as plain text.
pub open spec fn outcome_view(r: Result<(), String>) -> Result<(), Seq<char>> {
    match r {
        Ok(()) => Ok(()),
        Err(m) => Err(m@),
    }
}

impl LaunchEngine {
    /// The programs that must be on `PATH` for a launch, in the order they
    /// are checked.
    pub fn required_tool_names() -> (v: Vec<String>)
        ensures
            v@.map_values(|s: String| s@) == required_tools(),
    {
        let v = vec![String::from_str("fuse-overlayfs"), String::from_str("umu-run")];
        assert(v@.map_values(|s: String| s@) =~= required_tools());
        v
    }

    /// The tool check for `tools`, `available[i]` telling whether `tools[i]`
    /// was found: an error naming the missing ones, in order.
    pub fn system_deps_result(tools: &Vec<String>, available: &Vec<bool>) -> (r: Result<(), String>)
        requires
            available.len() == tools.len(),
        ensures
            outcome_view(r) == tools_check(tools@.map_values(|s: String| s@), available@),
    {
        let ghost tv = tools@.map_values(|s: String| s@);
        let mut missing: Vec<String> = Vec::new();
        let mut i: usize = 0;
        while i < tools.len()
            invariant
                i <= tools.len(),
                available.len() == tools.len(),
                tv == tools@.map_values(|s: String| s@),
                missing@.map_values(|s: String| s@) == missing_tools(tv.take(i as int), available@),
            decreases tools.len() - i,
        {
            proof {
                assert(tv.take(i + 1).drop_last() =~= tv.take(i as int));
                assert(tv.take(i + 1).last() == tools@[i as int]@);
            }
            if !available[i] {
                let ghost prev = missing@.map_values(|s: String| s@);
                missing.push(tools[i].clone());
                assert(missing@.map_values(|s: String| s@) =~= prev.push(tools@[i as int]@));
            }
            i = i + 1;
        }
        proof {
            assert(tv.take(tools.len() as int) =~= tv);
        }
        if missing.len() == 0 {
            return Ok(());
        }
        let mut m = String::from_str("Faltan dependencias: ");
        let joined = join_strings(&missing, ", ");
        m.append(joined.as_str());
        m.append(". Asegurate de tener fuse-overlayfs y umu-launcher instalados.");
        Err(m)
    }

    /// Looks up each of `required_tool_names` on `PATH`, in order, and
    /// reports the tool check for what was found. Which tools are found
    /// depends on the machine; the outcome is the check for some
    /// availability of the two.
    pub fn check_system_deps() -> (r: Result<(), String>)
        ensures
            exists|available: Seq<bool>|
                available.len() == required_tools().len()
                && outcome_view(r) == #[trigger] system_deps_spec(available),
    {
        let tools = LaunchEngine::required_tool_names();
        let mut available: Vec<bool> = Vec::new();
        let mut i: usize = 0;
        while i < tools.len()
            invariant
                i <= tools.len(),
                available.len() == i,
                tools@.map_values(|s: String| s@) == required_tools(),
            decreases tools.len() - i,
        {
            let found = on_path(tools[i].as_str());
            available.push(found);
            i = i + 1;
        }
        let r = LaunchEngine::system_deps_result(&tools, &available);
        assert(outcome_view(r) == system_deps_spec(available@));
        r
    }

    /// The steps of a launch: rescan when asked (or when automatic discovery
    /// is on in both the options and the config); `discover` alone stops
    /// after the rescan, `clean` removes orphans and stops; otherwise the
    /// profile is resolved, disabled dependencies handled as `deps_enable`
    /// (enable them) or `deps_ignore` (leave them) say, else by asking.
    pub fn run(opts: &LaunchOptions, cfg: &Config) -> (plan: LaunchPlan)
        ensures
            plan.discover == (opts.discover || (opts.auto_discover && (match cfg.auto_discover { Some(b) => b, None => false }))),
            plan.start == (if opts.clean { LaunchStart::Clean } else if opts.discover { LaunchStart::DiscoverOnly } else { LaunchStart::Launch }),
            plan.prompt == (if opts.deps_enable { DepPrompt::AutoEnable } else if opts.deps_ignore { DepPrompt::Ignore } else { DepPrompt::Prompt }),
            views(plan.log@) == plan_log(plan.discover, opts.clean),
            (match plan.result { Some(t) => Some(t@), None => None }) == (if opts.clean {
                Some("Limpieza completada."@)
            } else if opts.discover {
                Some("Descubrimiento completado."@)
            } else {
                None
            }),
    {
        let discover = opts.discover || (opts.auto_discover && cfg.auto_discover());
        let start = if opts.clean {
            LaunchStart::Clean
        } else if opts.discover {
            LaunchStart::DiscoverOnly
        } else {
            LaunchStart::Launch
        };
        let prompt = if opts.deps_enable {
            DepPrompt::AutoEnable
        } else if opts.deps_ignore {
            DepPrompt::Ignore
        } else {
            DepPrompt::Prompt
        };
        let mut log: Vec<String> = Vec::new();
        if discover {
            log.push("Auto-descubriendo mods...".to_owned());
        }
        if opts.clean {
            log.push("Eliminando mods hu\u{e9}rfanos...".to_owned());
        }
        assert(views(log@) =~= plan_log(discover, opts.clean));
        let result = if opts.clean {
            Some("Limpieza completada.".to_owned())
        } else if opts.discover {
            Some("Descubrimiento completado.".to_owned())
        } else {
            None
        };
        LaunchPlan { discover, start, prompt, log, result }
    }

    /// Checks the configured directories, given whether the game root, the
    /// Proton path and the base game directory are directories; the first that
    /// is not is reported.
    pub fn validate_paths(cfg: &Config, game_root_is_dir: bool, proton_is_dir: bool, base_game_is_dir: bool) -> (r: Result<(), String>)
        ensures
            match r {
                Ok(()) => game_root_is_dir && proton_is_dir && base_game_is_dir,
                Err(msg) => if !game_root_is_dir {
                    msg@ == not_dir_msg("game_root"@, cfg.game_root@)
                } else if !proton_is_dir {
                    msg@ == not_dir_msg("proton_path"@, cfg.proton_path@)
                } else {
                    !base_game_is_dir && msg@ == no_base_msg(join_path(cfg.game_root@, "base"@))
                },
            },
    {
        if !game_root_is_dir {
            let mut m = String::from_str("game_root");
            m.append(" no es un directorio válido: ");
            m.append(cfg.game_root.as_str());
            return Err(m);
        }
        if !proton_is_dir {
            let mut m = String::from_str("proton_path");
            m.append(" no es un directorio válido: ");
            m.append(cfg.proton_path.as_str());
            return Err(m);
        }
        if !base_game_is_dir {
            let paths = RuntimePaths::from_config(cfg);
            let mut m = String::from_str("directorio base del juego no encontrado: ");
            m.append(paths.base_game.as_str());
            return Err(m);
        }
        Ok(())
    }

    /// The fuse-overlayfs `lowerdir` option: every resolved mod folder (highest
    /// priority first), then the base game, joined with `:`.
    pub fn build_lowerdir(mods_dir: &str, resolved: &Vec<String>, base_game: &str) -> (r: String)
        ensures
            r@ == join_with(resolved@.map_values(|f: String| join_path(mods_dir@, f@)).push(base_game@), ":"@),
    {
        let mut layers: Vec<String> = Vec::new();
        let mut i: usize = 0;
        while i < resolved.len()
            invariant
                i <= resolved.len(),
                layers@.map_values(|l: String| l@) == resolved@.take(i as int).map_values(|f: String| join_path(mods_dir@, f@)),
            decreases resolved.len() - i,
        {
            let ghost prev = layers@.map_values(|l: String| l@);
            layers.push(join(mods_dir, resolved[i].as_str()));
            proof {
                assert(resolved@.take(i + 1) =~= resolved@.take(i as int).push(resolved@[i as int]));
                assert(layers@.map_values(|l: String| l@) =~= prev.push(join_path(mods_dir@, resolved@[i as int]@)));
                assert(layers@.map_values(|l: String| l@) =~= resolved@.take(i + 1).map_values(|f: String| join_path(mods_dir@, f@)));
            }
            i = i + 1;
        }
        let ghost before = layers@.map_values(|l: String| l@);
        layers.push(String::from_str(base_game));
        proof {
            assert(resolved@.take(resolved.len() as int) =~= resolved@);
            assert(layers@.map_values(|l: String| l@) =~= before.push(base_game@));
        }
        join_strings(&layers, ":")
    }

    /// The environment variables the game is launched with, in order.
    pub fn setup_env(cfg: &Config, wine_prefix: &str, log_dir: &str, debug: bool) -> (vars: Vec<(String, String)>)
        ensures
            env_view(vars@) == env_spec(*cfg, wine_prefix@, log_dir@, debug),
    {
        let mut vars: Vec<(String, String)> = Vec::new();
        vars.push(var("WINEPREFIX", wine_prefix));
        vars.push(var("PROTONPATH", cfg.proton_path.as_str()));
        vars.push(var("GAMEID", cfg.game_id()));
        vars.push(var("PROTON_USE_WINED3D", flag(cfg.proton_use_wined3d())));
        vars.push(var("PROTON_DISABLE_NTSYNC", flag(cfg.proton_disable_ntsync())));
        if cfg.proton_disable_upscalers() {
            vars.push(var("PROTON_FSR3_UPGRADE", "0"));
            vars.push(var("PROTON_FSR4_UPGRADE", "0"));
            vars.push(var("PROTON_FSR4_RDNA3_UPGRADE", "0"));
            vars.push(var("PROTON_MLFG_UPGRADE", "0"));
            vars.push(var("PROTON_DLSS_UPGRADE", "0"));
            vars.push(var("PROTON_XESS_UPGRADE", "0"));
            vars.push(var("PROTON_USE_OPTISCALER", "0"));
        }
        if debug {
            vars.push(var("PROTON_LOG", "1"));
            vars.push(var("DXVK_LOG_LEVEL", "debug"));
            vars.push(var("DXVK_LOG_PATH", log_dir));
            vars.push(var("DXVK_HUD", cfg.dxvk_hud()));
            vars.push(var("WINEDEBUG", "+loaddll"));
        }
        proof {
            assert(env_view(vars@) =~= env_spec(*cfg, wine_prefix@, log_dir@, debug));
        }
        vars
    }

    /// The report printed by a dry run instead of mounting and launching.
    pub fn dry_run_report(cfg: &Config, paths: &RuntimePaths, profile: &Profile, ppaths: &ProfilePaths, resolved: &Vec<String>, debug: bool) -> (out: String)
        requires
            resolved.len() < u64::MAX,
        ensures
            out@ == dry_run_spec(*cfg, *paths, profile.name@, profile.slug@, ppaths.upper@, ppaths.work@,
                ppaths.log_dir@, resolved@.map_values(|f: String| f@), debug),
    {
        let mut out = report_head_exec(profile);
        let layers = report_layers_exec(paths, resolved);
        out.append(layers.as_str());
        let dirs = report_dirs_exec(paths, ppaths);
        out.append(dirs.as_str());
        let env = report_env_exec(cfg, paths);
        out.append(env.as_str());
        let dbg = report_debug_exec(cfg, ppaths, debug);
        out.append(dbg.as_str());
        let exe = join(paths.merged.as_str(), cfg.game_exe());
        out.append("Ejecutable:                ");
        out.append(exe.as_str());
        out.append("\n");
        out
    }

    /// The log of a launch: the resolved mods in priority order.
    pub fn priority_log(resolved: &Vec<String>) -> (out: String)
        ensures
            out@ == "Mods en orden de prioridad:\n"@ + mod_list(resolved@.map_values(|f: String| f@)),
    {
        let ghost rv = resolved@.map_values(|f: String| f@);
        let mut out = String::from_str("Mods en orden de prioridad:\n");
        let ghost head = out@;
        let mut i: usize = 0;
        while i < resolved.len()
            invariant
                i <= resolved.len(),
                rv == resolved@.map_values(|f: String| f@),
                out@ == head + mod_list(rv.take(i as int)),
            decreases resolved.len() - i,
        {
            out.append("  - ");
            out.append(resolved[i].as_str());
            out.append("\n");
            proof {
                assert(rv.take(i + 1).drop_last() =~= rv.take(i as int));
                assert(rv.take(i + 1).last() == resolved@[i as int]@);
                assert(out@ =~= head + mod_list(rv.take(i + 1)));
            }
            i = i + 1;
        }
        proof {
            assert(rv.take(resolved.len() as int) =~= rv);
        }
        out
    }
}

/// `  - <folder>` lines.
pub open spec fn mod_list(fs: Seq<Seq<char>>) -> Seq<char>
    decreases fs.len(),
{
    if fs.len() == 0 {
        Seq::empty()
    } else {
        mod_list(fs.drop_last()) + "  - "@ + fs.last() + "\n"@
    }
}

/// `<field> no es un directorio valido: <value>` (wording of the standalone
/// launcher).
pub open spec fn not_dir_msg_plain(field: Seq<char>, value: Seq<char>) -> Seq<char> {
    field + " no es un directorio valido: "@ + value
}

/// The standalone launcher's check of the configured directories, given
/// whether each is a directory; the first that is not is reported.
pub fn validate_config_paths(cfg: &Config, game_root_is_dir: bool, proton_is_dir: bool, base_game_is_dir: bool) -> (r: Result<(), String>)
    ensures
        match r {
            Ok(()) => game_root_is_dir && proton_is_dir && base_game_is_dir,
            Err(msg) => if !game_root_is_dir {
                msg@ == not_dir_msg_plain("game_root"@, cfg.game_root@)
            } else if !proton_is_dir {
                msg@ == not_dir_msg_plain("proton_path"@, cfg.proton_path@)
            } else {
                !base_game_is_dir && msg@ == no_base_msg(join_path(cfg.game_root@, "base"@))
            },
        },
{
    if !game_root_is_dir {
        let mut m = String::from_str("game_root");
        m.append(" no es un directorio valido: ");
        m.append(cfg.game_root.as_str());
        return Err(m);
    }
    if !proton_is_dir {
        let mut m = String::from_str("proton_path");
        m.append(" no es un directorio valido: ");
        m.append(cfg.proton_path.as_str());
        return Err(m);
    }
    if !base_game_is_dir {
        let paths = RuntimePaths::from_config(cfg);
        let mut m = String::from_str("directorio base del juego no encontrado: ");
        m.append(paths.base_game.as_str());
        return Err(m);
    }
    Ok(())
}

/// The standalone launcher's `lowerdir` option (same layering as the engine's).
pub fn build_lowerdir(mods_dir: &str, resolved: &Vec<String>, base_game: &str) -> (r: String)
    ensures
        r@ == join_with(resolved@.map_values(|f: String| join_path(mods_dir@, f@)).push(base_game@), ":"@),
{
    LaunchEngine::build_lowerdir(mods_dir, resolved, base_game)
}

fn report_head_exec(profile: &Profile) -> (out: String)
    ensures
        out@ == report_head(profile.name@, profile.slug@),
{
    let mut out = String::from_str("\n=== DRY RUN: no se montara overlay ni se lanzara el juego ===\n\n");
    out.append("Perfil: ");
    out.append(profile.name.as_str());
    out.append(" (");
    out.append(profile.slug.as_str());
    out.append(")\n");
    out.append("lowerdir capas (ordenadas mayor -> menor prioridad):\n");
    out
}

fn report_layers_exec(paths: &RuntimePaths, resolved: &Vec<String>) -> (out: String)
    requires
        resolved.len() < u64::MAX,
    ensures
        out@ == report_layers(*paths, resolved@.map_values(|f: String| f@)),
{
    let ghost rv = resolved@.map_values(|f: String| f@);
    let mut out = String::new();
    if resolved.len() == 0 {
        push_numbered(&mut out, 1, paths.base_game.as_str(), " (juego limpio)");
        return out;
    }
    let mut i: usize = 0;
    while i < resolved.len()
        invariant
            i <= resolved.len(),
            resolved.len() < u64::MAX,
            rv == resolved@.map_values(|f: String| f@),
            out@ == layer_lines(paths.mods_dir@, rv.take(i as int), 0),
        decreases resolved.len() - i,
    {
        let p = join(paths.mods_dir.as_str(), resolved[i].as_str());
        let ghost prev = out@;
        push_numbered(&mut out, i as u64 + 1, p.as_str(), "");
        proof {
            reveal_strlit("");
            assert(rv.take(i + 1).drop_last() =~= rv.take(i as int));
            assert(rv.take(i + 1).last() == resolved@[i as int]@);
            assert(""@ =~= Seq::<char>::empty());
            assert(out@ =~= layer_lines(paths.mods_dir@, rv.take(i + 1), 0));
        }
        i = i + 1;
    }
    proof {
        assert(rv.take(resolved.len() as int) =~= rv);
    }
    push_numbered(&mut out, resolved.len() as u64 + 1, paths.base_game.as_str(), " (base)");
    out
}

fn report_dirs_exec(paths: &RuntimePaths, ppaths: &ProfilePaths) -> (out: String)
    ensures
        out@ == report_dirs(*paths, ppaths.upper@, ppaths.work@),
{
    let mut out = String::from_str("\n");
    out.append("upperdir: ");
    out.append(ppaths.upper.as_str());
    out.append("\n");
    out.append("workdir:  ");
    out.append(ppaths.work.as_str());
    out.append("\n");
    out.append("merged:   ");
    out.append(paths.merged.as_str());
    out.append("\n");
    out.append("\n");
    out
}

fn report_env_exec(cfg: &Config, paths: &RuntimePaths) -> (out: String)
    ensures
        out@ == report_env(*cfg, *paths),
{
    let mut out = String::from_str("WINEPREFIX:                ");
    out.append(paths.wine_prefix.as_str());
    out.append("\n");
    out.append("PROTONPATH:                ");
    out.append(cfg.proton_path.as_str());
    out.append("\n");
    out.append("GAMEID:                    ");
    out.append(cfg.game_id());
    out.append("\n");
    out.append("GAME_EXE:                  ");
    out.append(cfg.game_exe());
    out.append("\n");
    out.append("PROTON_USE_WINED3D:        ");
    out.append(bool_str(cfg.proton_use_wined3d()));
    out.append("\n");
    out.append("PROTON_DISABLE_NTSYNC:     ");
    out.append(bool_str(cfg.proton_disable_ntsync()));
    out.append("\n");
    out.append("PROTON_DISABLE_UPSCALERS:  ");
    out.append(bool_str(cfg.proton_disable_upscalers()));
    out.append("\n");
    out.append("AUTO_DISCOVER:             ");
    out.append(bool_str(cfg.auto_discover()));
    out.append("\n");
    out
}

fn report_debug_exec(cfg: &Config, ppaths: &ProfilePaths, debug: bool) -> (out: String)
    ensures
        out@ == report_debug(*cfg, ppaths.log_dir@, debug),
{
    let mut out = String::new();
    if debug {
        out.append("\n[DEBUG] Modo debug activado:\n");
        out.append("  PROTON_LOG:              1\n");
        out.append("  DXVK_LOG_LEVEL:          debug\n");
        out.append("  DXVK_LOG_PATH:           ");
        out.append(ppaths.log_dir.as_str());
        out.append("\n");
        out.append("  DXVK_HUD:                ");
        out.append(cfg.dxvk_hud());
        out.append("\n");
        out.append("  WINEDEBUG:               +loaddll\n");
    } else {
        assert(out@ =~= Seq::<char>::empty());
    }
    out
}

/// The switches of `gta-mo launch` and `gta-mo steam`.
#[derive(Debug, Clone, Copy)]
pub struct LaunchFlags {
    pub dry_run: bool,
    pub debug: bool,
    pub discover: bool,
    pub clean: bool,
    pub deps_enable: bool,
    pub deps_ignore: bool,
    pub no_auto_discover: bool,
}

/// The options a launch runs with: the switches as given, automatic
/// discovery unless it was turned off, and the chosen profile.
pub fn launch_options(f: LaunchFlags, profile: Option<&str>) -> (o: LaunchOptions)
    ensures
        o.dry_run == f.dry_run,
        o.debug == f.debug,
        o.discover == f.discover,
        o.clean == f.clean,
        o.auto_discover == !f.no_auto_discover,
        o.deps_enable == f.deps_enable,
        o.deps_ignore == f.deps_ignore,
        (match o.profile {
            Some(p) => Some(p@),
            None => None,
        }) == opt_view_str(profile),
{
    let p = match profile {
        Some(x) => Some(x.to_owned()),
        None => None,
    };
    LaunchOptions {
        dry_run: f.dry_run,
        debug: f.debug,
        discover: f.discover,
        clean: f.clean,
        auto_discover: !f.no_auto_discover,
        profile: p,
        deps_enable: f.deps_enable,
        deps_ignore: f.deps_ignore,
    }
}

/// A switch on the command line, when it is set.
pub open spec fn switch(on: bool, name: Seq<char>) -> Seq<Seq<char>> {
    if on { seq![name] } else { Seq::empty() }
}

/// The arguments `gta-mo steam` hands on to itself once inside its own user
/// and mount namespace: each switch that is set, in a fixed order, then the
/// profile.
pub open spec fn steam_args_spec(f: LaunchFlags, profile: Option<Seq<char>>) -> Seq<Seq<char>> {
    switch(f.dry_run, "--dry-run"@)
        + switch(f.debug, "--debug"@)
        + switch(f.discover, "--discover"@)
        + switch(f.clean, "--clean"@)
        + switch(f.deps_enable, "--deps-enable"@)
        + switch(f.deps_ignore, "--deps-ignore"@)
        + switch(f.no_auto_discover, "--no-auto-discover"@)
        + match profile {
            Some(p) => seq!["--profile"@, p],
            None => Seq::empty(),
        }
}

fn push_switch(out: &mut Vec<String>, on: bool, name: &str)
    ensures
        views(final(out)@) == views(old(out)@) + switch(on, name@),
{
    let ghost prev = views(out@);
    if on {
        out.push(name.to_owned());
    }
    assert(views(out@) =~= prev + switch(on, name@));
}

/// The arguments of the inner `gta-mo steam` run.
pub fn steam_args(f: LaunchFlags, profile: Option<&str>) -> (out: Vec<String>)
    ensures
        views(out@) == steam_args_spec(f, opt_view_str(profile)),
{
    let mut out: Vec<String> = Vec::new();
    push_switch(&mut out, f.dry_run, "--dry-run");
    push_switch(&mut out, f.debug, "--debug");
    push_switch(&mut out, f.discover, "--discover");
    push_switch(&mut out, f.clean, "--clean");
    push_switch(&mut out, f.deps_enable, "--deps-enable");
    push_switch(&mut out, f.deps_ignore, "--deps-ignore");
    push_switch(&mut out, f.no_auto_discover, "--no-auto-discover");
    let ghost prev = views(out@);
    match profile {
        Some(p) => {
            out.push("--profile".to_owned());
            out.push(p.to_owned());
        },
        None => {},
    }
    let ghost tail: Seq<Seq<char>> = match opt_view_str(profile) {
        Some(p) => seq!["--profile"@, p],
        None => Seq::empty(),
    };
    assert(views(out@) =~= prev + tail);
    assert(views(out@) =~= steam_args_spec(f, opt_view_str(profile)));
    out
}

/// The variables that tell the inner run which user to become again after
/// mounting: set only when the caller is not root.
pub open spec fn drop_ids_spec(uid: u32, gid: u32) -> Seq<(Seq<char>, Seq<char>)> {
    if uid != 0 {
        seq![("GTA_MO_DROP_UID"@, nat_decimal(uid as nat)), ("GTA_MO_DROP_GID"@, nat_decimal(gid as nat))]
    } else {
        Seq::empty()
    }
}

/// The user and group ids handed to the inner `gta-mo steam` run.
pub fn drop_ids_env(uid: u32, gid: u32) -> (vars: Vec<(String, String)>)
    ensures
        pair_views(vars@) == drop_ids_spec(uid, gid),
{
    let mut vars: Vec<(String, String)> = Vec::new();
    if uid != 0 {
        let mut u = String::new();
        push_nat_decimal(&mut u, uid as u128);
        let mut g = String::new();
        push_nat_decimal(&mut g, gid as u128);
        vars.push(("GTA_MO_DROP_UID".to_owned(), u));
        vars.push(("GTA_MO_DROP_GID".to_owned(), g));
    }
    assert(pair_views(vars@) =~= drop_ids_spec(uid, gid));
    vars
}

/// The launch environment sets `PROTON_DISABLE_NTSYNC` (exactly once in the
/// Proton switches, never to anything but "0" or "1"): to "1" exactly when
/// the configuration asks to disable NTSYNC, which is off by default.
pub proof fn lemma_ntsync_follows_config(cfg: Config, wine_prefix: Seq<char>, log_dir: Seq<char>, debug: bool)
    ensures
        exists|i: int| 0 <= i < env_spec(cfg, wine_prefix, log_dir, debug).len()
            && (#[trigger] env_spec(cfg, wine_prefix, log_dir, debug)[i]).0 == "PROTON_DISABLE_NTSYNC"@,
        forall|i: int| 0 <= i < env_spec(cfg, wine_prefix, log_dir, debug).len()
            && (#[trigger] env_spec(cfg, wine_prefix, log_dir, debug)[i]).0 == "PROTON_DISABLE_NTSYNC"@
            ==> (env_spec(cfg, wine_prefix, log_dir, debug)[i].1 == "1"@) == (cfg.proton_disable_ntsync == Some(true))
                && (env_spec(cfg, wine_prefix, log_dir, debug)[i].1 == "1"@ || env_spec(cfg, wine_prefix, log_dir, debug)[i].1 == "0"@),
{
    reveal_strlit("WINEPREFIX");
    reveal_strlit("PROTONPATH");
    reveal_strlit("GAMEID");
    reveal_strlit("PROTON_USE_WINED3D");
    reveal_strlit("PROTON_DISABLE_NTSYNC");
    reveal_strlit("PROTON_FSR3_UPGRADE");
    reveal_strlit("PROTON_FSR4_UPGRADE");
    reveal_strlit("PROTON_FSR4_RDNA3_UPGRADE");
    reveal_strlit("PROTON_MLFG_UPGRADE");
    reveal_strlit("PROTON_DLSS_UPGRADE");
    reveal_strlit("PROTON_XESS_UPGRADE");
    reveal_strlit("PROTON_USE_OPTISCALER");
    reveal_strlit("PROTON_LOG");
    reveal_strlit("DXVK_LOG_LEVEL");
    reveal_strlit("DXVK_LOG_PATH");
    reveal_strlit("DXVK_HUD");
    reveal_strlit("WINEDEBUG");
    reveal_strlit("1");
    reveal_strlit("0");
    let e = env_spec(cfg, wine_prefix, log_dir, debug);
    assert(e[4].0 == "PROTON_DISABLE_NTSYNC"@);
    assert forall|i: int| 0 <= i < e.len() && (#[trigger] e[i]).0 == "PROTON_DISABLE_NTSYNC"@
        implies (e[i].1 == "1"@) == (cfg.proton_disable_ntsync == Some(true)) && (e[i].1 == "1"@ || e[i].1 == "0"@) by {
        assert(i == 4) by {
            if i != 4 {
                assert(e[i].0 != "PROTON_DISABLE_NTSYNC"@) by {
                    if e[i].0.len() == "PROTON_DISABLE_NTSYNC"@.len() {
                        assert(e[i].0[7] != "PROTON_DISABLE_NTSYNC"@[7] || e[i].0[8] != "PROTON_DISABLE_NTSYNC"@[8]);
                    }
                }
            }
        }
        assert("1"@ != "0"@) by {
            assert("1"@[0] != "0"@[0]);
        }
    }
}

} // verus!
