//! The folders that the manager may change, and the configuration that the settings adjust.
use vstd::prelude::*;
use crate::text::{chars_of, string_from, trim, trim_seq, lower_seq, eq_ignore_case};
use crate::paths::{
    components, rooted, is_prefix_comps, parent_spec, join_name_spec, join_name_str, parent_chars,
    comps_of, is_rooted_exec, comps_prefix, vv,
};
use crate::logs::{
    same_components, same_components_exec, push_unique_spec, push_unique_path, strings_view,
};
use crate::settings::{
    AppConfig, UiSettingsDto, sanitize_days_spec, sanitize_entries_spec,
    sanitize_save_backup_retention_days, sanitize_save_backup_max_entries,
};

verus! {

broadcast use vstd::string::group_string_axioms;

pub open spec fn disabled_name() -> Seq<char> {
    "mods.disabled"@
}

/// The folder beside the game's mods folder where disabled mods are kept.
pub open spec fn game_disabled_dir_spec(mods: Seq<char>) -> Seq<char> {
    match parent_spec(mods) {
        Some(p) => join_name_spec(p, disabled_name()),
        None => join_name_spec(mods, disabled_name()),
    }
}

pub fn game_disabled_dir(game_mods_dir: &str) -> (r: String)
    ensures
        r@ == game_disabled_dir_spec(game_mods_dir@),
{
    let p = chars_of(game_mods_dir);
    match parent_chars(p.as_slice()) {
        Some(parent) => {
            let ps = string_from(parent.as_slice());
            join_name_str(ps.as_str(), "mods.disabled")
        },
        None => join_name_str(game_mods_dir, "mods.disabled"),
    }
}

/// Two paths name the same place: equal as paths, or equal as text ignoring ASCII case.
pub fn same_path(left: &str, right: &str) -> (r: bool)
    ensures
        r == (same_components(left@, right@) || lower_seq(left@) == lower_seq(right@)),
{
    if same_components_exec(left, right) {
        return true;
    }
    let l = chars_of(left);
    let rr = chars_of(right);
    eq_ignore_case(l.as_slice(), rr.as_slice())
}

pub open spec fn managed_roots_spec(config: &AppConfig) -> Seq<Seq<char>> {
    push_unique_spec(
        seq![config.game_mods_dir@, game_disabled_dir_spec(config.game_mods_dir@)],
        join_name_spec(config.workspace_dir@, disabled_name()),
    )
}

/// The folders that the manager itself moves mods between.
pub fn managed_mod_roots(config: &AppConfig) -> (r: Vec<String>)
    ensures
        strings_view(r@) == managed_roots_spec(config),
{
    let mut roots: Vec<String> = Vec::new();
    roots.push(config.game_mods_dir.clone());
    roots.push(game_disabled_dir(config.game_mods_dir.as_str()));
    assert(strings_view(roots@) =~= seq![config.game_mods_dir@, game_disabled_dir_spec(config.game_mods_dir@)]);
    let w = join_name_str(config.workspace_dir.as_str(), "mods.disabled");
    push_unique_path(&mut roots, w);
    roots
}

pub open spec fn replaceable_roots_spec(config: &AppConfig) -> Seq<Seq<char>> {
    managed_roots_spec(config) + strings_view(config.external_manager_dirs@)
}

/// The managed folders and those of outside mod managers.
pub fn replaceable_mod_roots(config: &AppConfig) -> (r: Vec<String>)
    ensures
        strings_view(r@) == replaceable_roots_spec(config),
{
    let mut roots = managed_mod_roots(config);
    let ghost start = strings_view(roots@);
    let mut i: usize = 0;
    while i < config.external_manager_dirs.len()
        invariant
            i <= config.external_manager_dirs@.len(),
            strings_view(roots@) == start + strings_view(config.external_manager_dirs@).take(i as int),
        decreases config.external_manager_dirs.len() - i,
    {
        let ghost before = roots@;
        roots.push(config.external_manager_dirs[i].clone());
        i += 1;
        proof {
            assert(strings_view(roots@) =~= strings_view(before).push(
                config.external_manager_dirs@[i - 1]@,
            ));
            assert(strings_view(config.external_manager_dirs@).take(i as int) =~= strings_view(
                config.external_manager_dirs@,
            ).take(i - 1).push(config.external_manager_dirs@[i - 1]@));
        }
    }
    assert(strings_view(config.external_manager_dirs@).take(i as int) =~= strings_view(
        config.external_manager_dirs@,
    ));
    roots
}

/// Mods may be deleted from the folders where they may be replaced.
pub fn deletable_mod_roots(config: &AppConfig) -> (r: Vec<String>)
    ensures
        strings_view(r@) == replaceable_roots_spec(config),
{
    replaceable_mod_roots(config)
}

/// `Path::starts_with`: the components of `root` lead those of `p`, and both are rooted alike.
pub open spec fn path_starts_with(p: Seq<char>, root: Seq<char>) -> bool {
    rooted(p) == rooted(root) && is_prefix_comps(components(root), components(p))
}

pub fn path_starts_with_exec(p: &str, root: &str) -> (r: bool)
    ensures
        r == path_starts_with(p@, root@),
{
    let pc = chars_of(p);
    let rc = chars_of(root);
    let a = comps_of(pc.as_slice());
    let b = comps_of(rc.as_slice());
    is_rooted_exec(pc.as_slice()) == is_rooted_exec(rc.as_slice()) && comps_prefix(
        b.as_slice(),
        a.as_slice(),
    )
}

/// A path lies under one of the folders where mods may be replaced.
pub fn is_replaceable_mod_path(path: &str, config: &AppConfig) -> (r: bool)
    ensures
        r == exists|i: int|
            0 <= i < replaceable_roots_spec(config).len() && path_starts_with(
                path@,
                #[trigger] replaceable_roots_spec(config)[i],
            ),
{
    let roots = replaceable_mod_roots(config);
    let mut i: usize = 0;
    while i < roots.len()
        invariant
            i <= roots@.len(),
            strings_view(roots@) == replaceable_roots_spec(config),
            forall|j: int| 0 <= j < i ==> !path_starts_with(path@, #[trigger] strings_view(roots@)[j]),
        decreases roots.len() - i,
    {
        let hit = path_starts_with_exec(path, roots[i].as_str());
        assert(strings_view(roots@)[i as int] == roots@[i as int]@);
        if hit {
            return true;
        }
        i += 1;
    }
    false
}

/// The settings file's place in the state folder.
pub fn ui_settings_path(config: &AppConfig) -> (r: String)
    ensures
        r@ == join_name_spec(config.state_dir@, "tauri_settings.tsv"@),
{
    join_name_str(config.state_dir.as_str(), "tauri_settings.tsv")
}

pub open spec fn opt_view(o: Option<String>) -> Option<Seq<char>> {
    match o {
        Some(s) => Some(s@),
        None => None,
    }
}

/// What `configured_config` reads of a configuration.
pub open spec fn config_summary(c: &AppConfig) -> (
    Seq<char>,
    Option<Seq<char>>,
    Option<Seq<char>>,
    Seq<char>,
    u32,
    usize,
    Seq<char>,
) {
    (
        c.translation_work_dir@,
        opt_view(c.game_exe_path),
        opt_view(c.save_dir),
        c.save_backup_dir@,
        c.save_backup_retention_days,
        c.save_backup_max_entries,
        c.vendor_dir@,
    )
}

/// The configuration with the bundled tools folder, where one was found, and the saved
/// settings, where they could be read: a non-blank setting replaces the path it names, and
/// the backup limits are sanitised.
pub open spec fn configured_spec(
    base: &AppConfig,
    vendor_dir: Option<Seq<char>>,
    settings: Option<&UiSettingsDto>,
) -> (Seq<char>, Option<Seq<char>>, Option<Seq<char>>, Seq<char>, u32, usize, Seq<char>) {
    let vendor = match vendor_dir {
        Some(v) => v,
        None => base.vendor_dir@,
    };
    match settings {
        None => (
            base.translation_work_dir@,
            opt_view(base.game_exe_path),
            opt_view(base.save_dir),
            base.save_backup_dir@,
            base.save_backup_retention_days,
            base.save_backup_max_entries,
            vendor,
        ),
        Some(s) => (
            if trim_seq(s.translation_work_dir@).len() > 0 {
                s.translation_work_dir@
            } else {
                base.translation_work_dir@
            },
            if trim_seq(s.game_exe_path@).len() > 0 {
                Some(s.game_exe_path@)
            } else {
                opt_view(base.game_exe_path)
            },
            if trim_seq(s.save_dir@).len() > 0 {
                Some(s.save_dir@)
            } else {
                opt_view(base.save_dir)
            },
            if trim_seq(s.save_backup_dir@).len() > 0 {
                s.save_backup_dir@
            } else {
                base.save_backup_dir@
            },
            sanitize_days_spec(s.save_backup_retention_days),
            sanitize_entries_spec(s.save_backup_max_entries) as usize,
            vendor,
        ),
    }
}

fn blank(s: &str) -> (r: bool)
    ensures
        r == (trim_seq(s@).len() == 0),
{
    let c = chars_of(s);
    trim(c.as_slice()).len() == 0
}

/// The configuration in effect: `base` adjusted by the bundled tools folder and the saved
/// settings. The other fields are kept.
pub fn configured_config(base: AppConfig, vendor_dir: Option<String>, settings: Option<
    &UiSettingsDto,
>) -> (r: AppConfig)
    ensures
        config_summary(&r) == configured_spec(
            &base,
            match vendor_dir {
                Some(v) => Some(v@),
                None => None,
            },
            settings,
        ),
        r.workspace_dir@ == base.workspace_dir@,
        r.game_dir@ == base.game_dir@,
        r.game_mods_dir@ == base.game_mods_dir@,
        r.presets_dir@ == base.presets_dir@,
        r.state_dir@ == base.state_dir@,
        strings_view(r.external_manager_dirs@) == strings_view(base.external_manager_dirs@),
{
    let mut config = base;
    if let Some(v) = vendor_dir {
        config.vendor_dir = v;
    }
    if let Some(s) = settings {
        if !blank(s.translation_work_dir.as_str()) {
            config.translation_work_dir = s.translation_work_dir.clone();
        }
        if !blank(s.game_exe_path.as_str()) {
            config.game_exe_path = Some(s.game_exe_path.clone());
        }
        if !blank(s.save_dir.as_str()) {
            config.save_dir = Some(s.save_dir.clone());
        }
        if !blank(s.save_backup_dir.as_str()) {
            config.save_backup_dir = s.save_backup_dir.clone();
        }
        config.save_backup_retention_days = sanitize_save_backup_retention_days(
            s.save_backup_retention_days,
        );
        config.save_backup_max_entries = sanitize_save_backup_max_entries(
            s.save_backup_max_entries,
        ) as usize;
    }
    config
}

} // verus!
