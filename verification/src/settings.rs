//! Where the manager keeps things, and the settings file the dashboard writes.
use vstd::prelude::*;
use crate::text::{
    chars_of, lines, lines_seq, lower_seq, parse_u32, parse_u32_spec, string_from, trim, trim_seq,
    eq_ignore_case, dec_seq, terminated, no_char, push_all, format_u64, is_ws, leading_ws,
    trailing_ws, lemma_terminated_push, lemma_lines_terminated, lemma_dec_digits,
    lemma_leading_ws, lemma_trailing_ws, all_digits, unsigned_body, lemma_leading_ws_le,
    lemma_trailing_ws_le,
};
use crate::language::{is_text, normalize_target_language, normalize_target_language_spec};
use crate::paths::{join_name_spec, join_name_str};

verus! {

broadcast use vstd::string::group_string_axioms;

/// The directories and limits that the manager works with. Paths are kept as text.
pub struct AppConfig {
    pub workspace_dir: String,
    pub game_dir: String,
    pub game_mods_dir: String,
    pub presets_dir: String,
    pub translation_work_dir: String,
    pub state_dir: String,
    pub vendor_dir: String,
    pub save_backup_dir: String,
    pub save_dir: Option<String>,
    pub game_exe_path: Option<String>,
    pub external_manager_dirs: Vec<String>,
    pub save_backup_retention_days: u32,
    pub save_backup_max_entries: usize,
}

/// The settings that the dashboard shows and edits.
pub struct UiSettingsDto {
    pub translation_work_dir: String,
    pub target_language: String,
    pub game_exe_path: String,
    pub game_log_path: String,
    pub save_dir: String,
    pub save_backup_dir: String,
    pub save_backup_retention_days: u32,
    pub save_backup_max_entries: u32,
    pub deleted_retention_days: u32,
    pub mod_view_mode: String,
}

/// The settings as plain values.
pub struct SettingsView {
    pub translation_work_dir: Seq<char>,
    pub target_language: Seq<char>,
    pub game_exe_path: Seq<char>,
    pub game_log_path: Seq<char>,
    pub save_dir: Seq<char>,
    pub save_backup_dir: Seq<char>,
    pub save_backup_retention_days: u32,
    pub save_backup_max_entries: u32,
    pub deleted_retention_days: u32,
    pub mod_view_mode: Seq<char>,
}

impl View for UiSettingsDto {
    type V = SettingsView;

    open spec fn view(&self) -> SettingsView {
        SettingsView {
            translation_work_dir: self.translation_work_dir@,
            target_language: self.target_language@,
            game_exe_path: self.game_exe_path@,
            game_log_path: self.game_log_path@,
            save_dir: self.save_dir@,
            save_backup_dir: self.save_backup_dir@,
            save_backup_retention_days: self.save_backup_retention_days,
            save_backup_max_entries: self.save_backup_max_entries,
            deleted_retention_days: self.deleted_retention_days,
            mod_view_mode: self.mod_view_mode@,
        }
    }
}

pub open spec fn sanitize_days_spec(days: u32) -> u32 {
    if days < 365 {
        days
    } else {
        365
    }
}

pub open spec fn sanitize_entries_spec(entries: u32) -> u32 {
    if entries < 1 {
        1
    } else if entries > 200 {
        200
    } else {
        entries
    }
}

/// Deleted mods are kept at most a year.
pub fn sanitize_deleted_retention_days(days: u32) -> (r: u32)
    ensures
        r == sanitize_days_spec(days),
{
    if days < 365 {
        days
    } else {
        365
    }
}

/// Save backups are kept at most a year.
pub fn sanitize_save_backup_retention_days(days: u32) -> (r: u32)
    ensures
        r == sanitize_days_spec(days),
{
    if days < 365 {
        days
    } else {
        365
    }
}

/// Between one and two hundred save backups are kept.
pub fn sanitize_save_backup_max_entries(entries: u32) -> (r: u32)
    ensures
        r == sanitize_entries_spec(entries),
{
    if entries < 1 {
        1
    } else if entries > 200 {
        200
    } else {
        entries
    }
}

pub open spec fn mod_view_mode_spec(value: Seq<char>) -> Seq<char> {
    if lower_seq(value) == lower_seq("simple"@) {
        "simple"@
    } else {
        "detail"@
    }
}

/// `simple` in any case of letters is the simple view; anything else is the detailed one.
pub fn normalize_mod_view_mode(value: &str) -> (r: &'static str)
    ensures
        r@ == mod_view_mode_spec(value@),
{
    let v = chars_of(value);
    let s = chars_of("simple");
    if eq_ignore_case(v.as_slice(), s.as_slice()) {
        "simple"
    } else {
        "detail"
    }
}

pub open spec fn opt_text(o: Option<String>) -> Seq<char> {
    match o {
        Some(s) => s@,
        None => Seq::<char>::empty(),
    }
}

/// The game executable shown before one is saved: the configured one, else the one found
/// in the game folder, else none.
pub open spec fn default_exe_spec(config: &AppConfig, detected_exe: Option<String>) -> Seq<char> {
    match config.game_exe_path {
        Some(p) => p@,
        None => opt_text(detected_exe),
    }
}

/// The settings that hold before a settings file is written. `detected_exe` is the game
/// folder's `SlayTheSpire2.exe` where that file exists.
pub open spec fn default_settings_spec(config: &AppConfig, default_log: Option<String>, detected_exe: Option<String>) -> SettingsView {
    SettingsView {
        translation_work_dir: config.translation_work_dir@,
        target_language: "kor"@,
        game_exe_path: default_exe_spec(config, detected_exe),
        game_log_path: opt_text(default_log),
        save_dir: opt_text(config.save_dir),
        save_backup_dir: config.save_backup_dir@,
        save_backup_retention_days: config.save_backup_retention_days,
        save_backup_max_entries: config.save_backup_max_entries as u32,
        deleted_retention_days: 30,
        mod_view_mode: "detail"@,
    }
}

/// Index of the first `c` in `s`.
pub open spec fn first_index_of(s: Seq<char>, c: char, i: int) -> bool {
    0 <= i < s.len() && s[i] == c && forall|j: int| 0 <= j < i ==> s[j] != c
}

/// What `str::split_once(c)` gives.
pub open spec fn split_once_spec(s: Seq<char>, c: char) -> Option<(Seq<char>, Seq<char>)> {
    if exists|i: int| first_index_of(s, c, i) {
        let i = choose|i: int| first_index_of(s, c, i);
        Some((s.take(i), s.skip(i + 1)))
    } else {
        None
    }
}

pub proof fn lemma_first_index_unique(s: Seq<char>, c: char, i: int, k: int)
    requires
        first_index_of(s, c, i),
        first_index_of(s, c, k),
    ensures
        i == k,
{
    if i < k {
        assert(s[i] != c);
    } else if k < i {
        assert(s[k] != c);
    }
}

/// `str::split_once`.
pub fn split_once(s: &[char], c: char) -> (r: Option<(Vec<char>, Vec<char>)>)
    ensures
        match r {
            Some((a, b)) => split_once_spec(s@, c) == Some((a@, b@)),
            None => split_once_spec(s@, c) is None,
        },
{
    let mut i: usize = 0;
    while i < s.len()
        invariant
            i <= s.len(),
            forall|j: int| 0 <= j < i ==> s@[j] != c,
        decreases s.len() - i,
    {
        if s[i] == c {
            let mut a: Vec<char> = Vec::new();
            let mut k: usize = 0;
            while k < i
                invariant
                    k <= i < s.len(),
                    a@ == s@.take(k as int),
                decreases i - k,
            {
                a.push(s[k]);
                k += 1;
                assert(a@ =~= s@.take(k as int));
            }
            let mut b: Vec<char> = Vec::new();
            let mut m: usize = i + 1;
            while m < s.len()
                invariant
                    i + 1 <= m <= s.len(),
                    b@ == s@.subrange(i + 1, m as int),
                decreases s.len() - m,
            {
                b.push(s[m]);
                m += 1;
                assert(b@ =~= s@.subrange(i + 1, m as int));
            }
            proof {
                assert(first_index_of(s@, c, i as int));
                let k2 = choose|k2: int| first_index_of(s@, c, k2);
                lemma_first_index_unique(s@, c, i as int, k2);
                assert(b@ =~= s@.skip(i + 1));
            }
            return Some((a, b));
        }
        i += 1;
    }
    proof {
        assert forall|k: int| !first_index_of(s@, c, k) by {
            if first_index_of(s@, c, k) {
                assert(s@[k] != c);
            }
        }
    }
    None
}

/// What one `key<TAB>value` line of the settings file changes. `t` is the trimmed value.
pub open spec fn apply_setting_spec(s: SettingsView, key: Seq<char>, t: Seq<char>) -> SettingsView {
    if key == "translation_work_dir"@ && t.len() > 0 {
        SettingsView { translation_work_dir: t, ..s }
    } else if key == "target_language"@ && t.len() > 0 {
        SettingsView { target_language: normalize_target_language_spec(t), ..s }
    } else if key == "game_exe_path"@ && t.len() > 0 {
        SettingsView { game_exe_path: t, ..s }
    } else if key == "game_log_path"@ {
        SettingsView { game_log_path: t, ..s }
    } else if key == "save_dir"@ {
        SettingsView { save_dir: t, ..s }
    } else if key == "save_backup_dir"@ && t.len() > 0 {
        SettingsView { save_backup_dir: t, ..s }
    } else if key == "save_backup_retention_days"@ {
        match parse_u32_spec(t) {
            Some(d) => SettingsView { save_backup_retention_days: sanitize_days_spec(d), ..s },
            None => s,
        }
    } else if key == "save_backup_max_entries"@ {
        match parse_u32_spec(t) {
            Some(d) => SettingsView { save_backup_max_entries: sanitize_entries_spec(d), ..s },
            None => s,
        }
    } else if key == "deleted_retention_days"@ {
        match parse_u32_spec(t) {
            Some(d) => SettingsView { deleted_retention_days: sanitize_days_spec(d), ..s },
            None => s,
        }
    } else if key == "mod_view_mode"@ && t.len() > 0 {
        SettingsView { mod_view_mode: mod_view_mode_spec(t), ..s }
    } else {
        s
    }
}

pub open spec fn apply_line_spec(s: SettingsView, line: Seq<char>) -> SettingsView {
    match split_once_spec(line, '\t') {
        Some((k, v)) => apply_setting_spec(s, k, trim_seq(v)),
        None => s,
    }
}

pub open spec fn apply_lines_spec(s: SettingsView, ls: Seq<Seq<char>>) -> SettingsView
    decreases ls.len(),
{
    if ls.len() == 0 {
        s
    } else {
        apply_line_spec(apply_lines_spec(s, ls.drop_last()), ls.last())
    }
}

/// The settings read from the file's text over the defaults; a maximum of zero backups
/// reads as fourteen.
pub open spec fn parse_settings_spec(defaults: SettingsView, content: Seq<char>) -> SettingsView {
    let s = apply_lines_spec(defaults, lines_seq(content));
    if s.save_backup_max_entries == 0 {
        SettingsView { save_backup_max_entries: 14, ..s }
    } else {
        s
    }
}

/// The settings in effect: the defaults where no settings file exists, else the file read
/// over them.
pub open spec fn read_settings_spec(
    config: &AppConfig,
    default_log: Option<String>,
    detected_exe: Option<String>,
    content: Option<Seq<char>>,
) -> SettingsView {
    match content {
        None => default_settings_spec(config, default_log, detected_exe),
        Some(c) => parse_settings_spec(default_settings_spec(config, default_log, detected_exe), c),
    }
}

fn copy_opt_text(o: &Option<String>) -> (r: String)
    ensures
        r@ == opt_text(*o),
{
    match o {
        Some(s) => s.clone(),
        None => String::new(),
    }
}

fn default_ui_settings(config: &AppConfig, default_log: &Option<String>, detected_exe: &Option<String>) -> (r:
    UiSettingsDto)
    ensures
        r@ == default_settings_spec(config, *default_log, *detected_exe),
{
    let exe = match &config.game_exe_path {
        Some(p) => p.clone(),
        None => copy_opt_text(detected_exe),
    };
    UiSettingsDto {
        translation_work_dir: config.translation_work_dir.clone(),
        target_language: "kor".to_string(),
        game_exe_path: exe,
        game_log_path: copy_opt_text(default_log),
        save_dir: copy_opt_text(&config.save_dir),
        save_backup_dir: config.save_backup_dir.clone(),
        save_backup_retention_days: config.save_backup_retention_days,
        save_backup_max_entries: config.save_backup_max_entries as u32,
        deleted_retention_days: 30,
        mod_view_mode: "detail".to_string(),
    }
}

fn apply_setting(s: &mut UiSettingsDto, key: &[char], t: &[char])
    ensures
        final(s)@ == apply_setting_spec(old(s)@, key@, t@),
{
    let nonempty = t.len() > 0;
    if is_text(key, "translation_work_dir") && nonempty {
        s.translation_work_dir = string_from(t);
    } else if is_text(key, "target_language") && nonempty {
        let v = string_from(t);
        s.target_language = normalize_target_language(v.as_str());
    } else if is_text(key, "game_exe_path") && nonempty {
        s.game_exe_path = string_from(t);
    } else if is_text(key, "game_log_path") {
        s.game_log_path = string_from(t);
    } else if is_text(key, "save_dir") {
        s.save_dir = string_from(t);
    } else if is_text(key, "save_backup_dir") && nonempty {
        s.save_backup_dir = string_from(t);
    } else if is_text(key, "save_backup_retention_days") {
        if let Some(d) = parse_u32(t) {
            s.save_backup_retention_days = sanitize_save_backup_retention_days(d);
        }
    } else if is_text(key, "save_backup_max_entries") {
        if let Some(d) = parse_u32(t) {
            s.save_backup_max_entries = sanitize_save_backup_max_entries(d);
        }
    } else if is_text(key, "deleted_retention_days") {
        if let Some(d) = parse_u32(t) {
            s.deleted_retention_days = sanitize_deleted_retention_days(d);
        }
    } else if is_text(key, "mod_view_mode") && nonempty {
        let v = string_from(t);
        s.mod_view_mode = normalize_mod_view_mode(v.as_str()).to_string();
    }
}

/// The settings in effect. `content` is the text of the settings file, or `None` where
/// there is none; `default_log` is the game's usual log path where it is known;
/// `detected_exe` is the game folder's executable where it exists. A blank saved game
/// executable keeps the default.
pub fn read_ui_settings(
    config: &AppConfig,
    default_log: Option<String>,
    detected_exe: Option<String>,
    content: Option<&str>,
) -> (r: UiSettingsDto)
    ensures
        r@ == read_settings_spec(
            config,
            default_log,
            detected_exe,
            match content {
                Some(c) => Some(c@),
                None => None,
            },
        ),
{
    let mut s = default_ui_settings(config, &default_log, &detected_exe);
    match content {
        None => s,
        Some(c) => {
            let cc = chars_of(c);
            let ls = lines(cc.as_slice());
            let ghost defaults = s@;
            let ghost lsq = lines_seq(c@);
            let mut i: usize = 0;
            while i < ls.len()
                invariant
                    i <= ls@.len(),
                    ls@.len() == lsq.len(),
                    forall|k: int| 0 <= k < ls@.len() ==> #[trigger] ls@[k]@ == lsq[k],
                    s@ == apply_lines_spec(defaults, lsq.take(i as int)),
                decreases ls.len() - i,
            {
                let ghost before = s@;
                match split_once(ls[i].as_slice(), '\t') {
                    Some((k, v)) => {
                        let t = trim(v.as_slice());
                        apply_setting(&mut s, k.as_slice(), t.as_slice());
                    },
                    None => {},
                }
                proof {
                    assert(lsq.take(i + 1).drop_last() =~= lsq.take(i as int));
                    assert(lsq.take(i + 1).last() == lsq[i as int]);
                }
                i += 1;
            }
            proof {
                assert(lsq.take(ls@.len() as int) =~= lsq);
            }
            if s.save_backup_max_entries == 0 {
                s.save_backup_max_entries = 14;
            }
            s
        },
    }
}


pub open spec fn setting_line(key: Seq<char>, value: Seq<char>) -> Seq<char> {
    key + seq!['\t'] + value
}

/// The lines of the settings file, in the order they are written.
pub open spec fn settings_lines(s: SettingsView) -> Seq<Seq<char>> {
    seq![
        setting_line("translation_work_dir"@, s.translation_work_dir),
        setting_line("target_language"@, s.target_language),
        setting_line("game_exe_path"@, s.game_exe_path),
        setting_line("game_log_path"@, s.game_log_path),
        setting_line("save_dir"@, s.save_dir),
        setting_line("save_backup_dir"@, s.save_backup_dir),
        setting_line("save_backup_retention_days"@, dec_seq(s.save_backup_retention_days as nat)),
        setting_line("save_backup_max_entries"@, dec_seq(s.save_backup_max_entries as nat)),
        setting_line("deleted_retention_days"@, dec_seq(s.deleted_retention_days as nat)),
        setting_line("mod_view_mode"@, s.mod_view_mode),
    ]
}

pub open spec fn settings_text_spec(s: SettingsView) -> Seq<char> {
    terminated(settings_lines(s))
}

fn push_setting_line(out: &mut Vec<char>, key: &str, value: &[char])
    ensures
        final(out)@ == old(out)@ + setting_line(key@, value@).push('\n'),
{
    let k = chars_of(key);
    push_all(out, k.as_slice());
    out.push('\t');
    push_all(out, value);
    out.push('\n');
    assert(final(out)@ =~= old(out)@ + setting_line(key@, value@).push('\n'));
}

/// The text of the settings file: one `key<TAB>value` line per setting.
pub fn ui_settings_text(settings: &UiSettingsDto) -> (r: String)
    ensures
        r@ == settings_text_spec(settings@),
{
    let s = settings;
    let mut out: Vec<char> = Vec::new();
    let ghost mut ls: Seq<Seq<char>> = Seq::empty();
    let ghost v = settings@;
    assert(out@ == terminated(ls));
    let c = chars_of(s.translation_work_dir.as_str());
    push_setting_line(&mut out, "translation_work_dir", c.as_slice());
    proof {
        lemma_terminated_push(ls, setting_line("translation_work_dir"@, v.translation_work_dir));
        ls = ls.push(setting_line("translation_work_dir"@, v.translation_work_dir));
    }
    let c = chars_of(s.target_language.as_str());
    push_setting_line(&mut out, "target_language", c.as_slice());
    proof {
        lemma_terminated_push(ls, setting_line("target_language"@, v.target_language));
        ls = ls.push(setting_line("target_language"@, v.target_language));
    }
    let c = chars_of(s.game_exe_path.as_str());
    push_setting_line(&mut out, "game_exe_path", c.as_slice());
    proof {
        lemma_terminated_push(ls, setting_line("game_exe_path"@, v.game_exe_path));
        ls = ls.push(setting_line("game_exe_path"@, v.game_exe_path));
    }
    let c = chars_of(s.game_log_path.as_str());
    push_setting_line(&mut out, "game_log_path", c.as_slice());
    proof {
        lemma_terminated_push(ls, setting_line("game_log_path"@, v.game_log_path));
        ls = ls.push(setting_line("game_log_path"@, v.game_log_path));
    }
    let c = chars_of(s.save_dir.as_str());
    push_setting_line(&mut out, "save_dir", c.as_slice());
    proof {
        lemma_terminated_push(ls, setting_line("save_dir"@, v.save_dir));
        ls = ls.push(setting_line("save_dir"@, v.save_dir));
    }
    let c = chars_of(s.save_backup_dir.as_str());
    push_setting_line(&mut out, "save_backup_dir", c.as_slice());
    proof {
        lemma_terminated_push(ls, setting_line("save_backup_dir"@, v.save_backup_dir));
        ls = ls.push(setting_line("save_backup_dir"@, v.save_backup_dir));
    }
    let c = format_u64(s.save_backup_retention_days as u64);
    push_setting_line(&mut out, "save_backup_retention_days", c.as_slice());
    proof {
        let l = setting_line("save_backup_retention_days"@, dec_seq(v.save_backup_retention_days as nat));
        lemma_terminated_push(ls, l);
        ls = ls.push(l);
    }
    let c = format_u64(s.save_backup_max_entries as u64);
    push_setting_line(&mut out, "save_backup_max_entries", c.as_slice());
    proof {
        let l = setting_line("save_backup_max_entries"@, dec_seq(v.save_backup_max_entries as nat));
        lemma_terminated_push(ls, l);
        ls = ls.push(l);
    }
    let c = format_u64(s.deleted_retention_days as u64);
    push_setting_line(&mut out, "deleted_retention_days", c.as_slice());
    proof {
        let l = setting_line("deleted_retention_days"@, dec_seq(v.deleted_retention_days as nat));
        lemma_terminated_push(ls, l);
        ls = ls.push(l);
    }
    let c = chars_of(s.mod_view_mode.as_str());
    push_setting_line(&mut out, "mod_view_mode", c.as_slice());
    proof {
        lemma_terminated_push(ls, setting_line("mod_view_mode"@, v.mod_view_mode));
        ls = ls.push(setting_line("mod_view_mode"@, v.mod_view_mode));
        assert(ls =~= settings_lines(v));
    }
    string_from(out.as_slice())
}


/// A value that the settings file keeps as it is: no line break, and no whitespace at either
/// end.
pub open spec fn plain_value(v: Seq<char>) -> bool {
    trim_seq(v) == v && no_char(v, '\n')
}

/// Settings as saving leaves them: trimmed values, the path settings that fall back to a
/// default when empty filled in, a normalised language and view, and sanitised numbers.
pub open spec fn settings_well_formed(s: SettingsView) -> bool {
    &&& plain_value(s.translation_work_dir) && s.translation_work_dir.len() > 0
    &&& plain_value(s.target_language) && s.target_language.len() > 0
    &&& s.target_language != "ko"@
    &&& plain_value(s.game_exe_path)
    &&& plain_value(s.game_log_path)
    &&& plain_value(s.save_dir)
    &&& plain_value(s.save_backup_dir) && s.save_backup_dir.len() > 0
    &&& s.save_backup_retention_days <= 365
    &&& 1 <= s.save_backup_max_entries <= 200
    &&& s.deleted_retention_days <= 365
    &&& (s.mod_view_mode == "simple"@ || s.mod_view_mode == "detail"@)
}

pub proof fn lemma_split_setting_line(key: Seq<char>, value: Seq<char>)
    requires
        no_char(key, '\t'),
    ensures
        split_once_spec(setting_line(key, value), '\t') == Some((key, value)),
{
    let l = setting_line(key, value);
    assert(l[key.len() as int] == '\t');
    assert forall|j: int| 0 <= j < key.len() implies l[j] != '\t' by {
        assert(l[j] == key[j]);
    }
    assert(first_index_of(l, '\t', key.len() as int));
    let k = choose|k: int| first_index_of(l, '\t', k);
    lemma_first_index_unique(l, '\t', key.len() as int, k);
    assert(l.take(key.len() as int) =~= key);
    assert(l.skip(key.len() as int + 1) =~= value);
}

proof fn lemma_dec_plain(n: nat)
    ensures
        plain_value(dec_seq(n)),
        parse_u32_spec(dec_seq(n)) == (if n <= u32::MAX { Some(n as u32) } else { None::<u32> }),
{
    lemma_dec_digits(n);
    let s = dec_seq(n);
    assert(!is_ws(s[0]));
    lemma_leading_ws(s, 0);
    assert(!is_ws(s[s.len() - 1]));
    lemma_trailing_ws(s, 0);
    assert(s.skip(0) =~= s);
    assert(s.take(s.len() as int) =~= s);
    assert forall|i: int| 0 <= i < s.len() implies s[i] != '\n' by {
        assert(all_digits(s));
    }
    assert(s[0] != '+');
    assert(unsigned_body(s) == s);
}

pub proof fn lemma_plain_line(key: Seq<char>, value: Seq<char>)
    requires
        plain_value(value),
        no_char(key, '\n'),
        key.len() > 0,
    ensures
        no_char(setting_line(key, value), '\n'),
        !(setting_line(key, value).len() > 0 && setting_line(key, value).last() == '\r'),
{
    let l = setting_line(key, value);
    assert forall|i: int| 0 <= i < l.len() implies l[i] != '\n' by {
        if i < key.len() {
            assert(l[i] == key[i]);
        } else if i > key.len() {
            assert(l[i] == value[i - key.len() - 1]);
        }
    }
    if value.len() > 0 {
        assert(l.last() == value.last());
        if is_ws(value.last()) {
            lemma_leading_ws_le(value);
            let t = value.skip(leading_ws(value) as int);
            if leading_ws(value) < value.len() {
                assert(t.last() == value.last());
                assert(trailing_ws(t) > 0);
            }
            lemma_trailing_ws_le(t);
            assert(trim_seq(value).len() < value.len());
        }
    }
}



proof fn lemma_plain_word(v: Seq<char>)
    requires
        v.len() > 0,
        forall|i: int| 0 <= i < v.len() ==> !is_ws(#[trigger] v[i]) && v[i] != '\n',
    ensures
        plain_value(v),
{
    assert(!is_ws(v[0]));
    lemma_leading_ws(v, 0);
    assert(!is_ws(v[v.len() - 1]));
    lemma_trailing_ws(v, 0);
    assert(v.skip(0) =~= v);
    assert(v.take(v.len() as int) =~= v);
}

/// Writing settings and reading the file back gives the same settings, whatever the
/// defaults, for settings as saving leaves them; a blank game executable reads back as
/// the default, so it round-trips where the default is blank too.
#[verifier::rlimit(80)]
#[verifier::spinoff_prover]
pub proof fn lemma_settings_round_trip(defaults: SettingsView, s: SettingsView)
    requires
        settings_well_formed(s),
        s.game_exe_path.len() > 0 || defaults.game_exe_path.len() == 0,
    ensures
        parse_settings_spec(defaults, settings_text_spec(s)) == s,
{
    reveal_strlit("translation_work_dir");
    reveal_strlit("target_language");
    reveal_strlit("game_exe_path");
    reveal_strlit("game_log_path");
    reveal_strlit("save_dir");
    reveal_strlit("save_backup_dir");
    reveal_strlit("save_backup_retention_days");
    reveal_strlit("save_backup_max_entries");
    reveal_strlit("deleted_retention_days");
    reveal_strlit("mod_view_mode");
    reveal_strlit("ko");
    reveal_strlit("simple");
    reveal_strlit("detail");
    lemma_dec_plain(s.save_backup_retention_days as nat);
    lemma_dec_plain(s.save_backup_max_entries as nat);
    lemma_dec_plain(s.deleted_retention_days as nat);
    lemma_plain_word("simple"@);
    lemma_plain_word("detail"@);
    let ls = settings_lines(s);
    assert forall|i: int| 0 <= i < ls.len() implies no_char(#[trigger] ls[i], '\n') && !(
    ls[i].len() > 0 && ls[i].last() == '\r') by {
        if i == 0 {
            lemma_plain_line("translation_work_dir"@, s.translation_work_dir);
        } else if i == 1 {
            lemma_plain_line("target_language"@, s.target_language);
        } else if i == 2 {
            lemma_plain_line("game_exe_path"@, s.game_exe_path);
        } else if i == 3 {
            lemma_plain_line("game_log_path"@, s.game_log_path);
        } else if i == 4 {
            lemma_plain_line("save_dir"@, s.save_dir);
        } else if i == 5 {
            lemma_plain_line("save_backup_dir"@, s.save_backup_dir);
        } else if i == 6 {
            lemma_plain_line("save_backup_retention_days"@, dec_seq(s.save_backup_retention_days as nat));
        } else if i == 7 {
            lemma_plain_line("save_backup_max_entries"@, dec_seq(s.save_backup_max_entries as nat));
        } else if i == 8 {
            lemma_plain_line("deleted_retention_days"@, dec_seq(s.deleted_retention_days as nat));
        } else {
            lemma_plain_word("simple"@);
            lemma_plain_word("detail"@);
            lemma_plain_line("mod_view_mode"@, s.mod_view_mode);
        }
    }
    lemma_lines_terminated(ls);
    lemma_split_setting_line("translation_work_dir"@, s.translation_work_dir);
    lemma_split_setting_line("target_language"@, s.target_language);
    lemma_split_setting_line("game_exe_path"@, s.game_exe_path);
    lemma_split_setting_line("game_log_path"@, s.game_log_path);
    lemma_split_setting_line("save_dir"@, s.save_dir);
    lemma_split_setting_line("save_backup_dir"@, s.save_backup_dir);
    lemma_split_setting_line("save_backup_retention_days"@, dec_seq(s.save_backup_retention_days as nat));
    lemma_split_setting_line("save_backup_max_entries"@, dec_seq(s.save_backup_max_entries as nat));
    lemma_split_setting_line("deleted_retention_days"@, dec_seq(s.deleted_retention_days as nat));
    lemma_split_setting_line("mod_view_mode"@, s.mod_view_mode);
    assert(lower_seq("detail"@) != lower_seq("simple"@)) by {
        assert(lower_seq("detail"@)[0] == 'd');
    }
    assert("save_backup_dir"@ != "target_language"@) by {
        assert("save_backup_dir"@[0] != "target_language"@[0]);
    }
    assert("game_exe_path"@ != "game_log_path"@) by {
        assert("game_exe_path"@[5] != "game_log_path"@[5]);
    }
    assert("mod_view_mode"@ != "game_log_path"@) by {
        assert("mod_view_mode"@[0] != "game_log_path"@[0]);
    }
    assert("mod_view_mode"@ != "game_exe_path"@) by {
        assert("mod_view_mode"@[0] != "game_exe_path"@[0]);
    }
    let s0 = defaults;
    let s1 = apply_line_spec(s0, ls[0]);
    let s2 = apply_line_spec(s1, ls[1]);
    let s3 = apply_line_spec(s2, ls[2]);
    let s4 = apply_line_spec(s3, ls[3]);
    let s5 = apply_line_spec(s4, ls[4]);
    let s6 = apply_line_spec(s5, ls[5]);
    let s7 = apply_line_spec(s6, ls[6]);
    let s8 = apply_line_spec(s7, ls[7]);
    let s9 = apply_line_spec(s8, ls[8]);
    let s10 = apply_line_spec(s9, ls[9]);
    assert(apply_lines_spec(defaults, ls.take(0)) == s0);
    assert(ls.take(1).drop_last() =~= ls.take(0));
    assert(apply_lines_spec(defaults, ls.take(1)) == s1);
    assert(ls.take(2).drop_last() =~= ls.take(1));
    assert(apply_lines_spec(defaults, ls.take(2)) == s2);
    assert(ls.take(3).drop_last() =~= ls.take(2));
    assert(apply_lines_spec(defaults, ls.take(3)) == s3);
    assert(ls.take(4).drop_last() =~= ls.take(3));
    assert(apply_lines_spec(defaults, ls.take(4)) == s4);
    assert(ls.take(5).drop_last() =~= ls.take(4));
    assert(apply_lines_spec(defaults, ls.take(5)) == s5);
    assert(ls.take(6).drop_last() =~= ls.take(5));
    assert(apply_lines_spec(defaults, ls.take(6)) == s6);
    assert(ls.take(7).drop_last() =~= ls.take(6));
    assert(apply_lines_spec(defaults, ls.take(7)) == s7);
    assert(ls.take(8).drop_last() =~= ls.take(7));
    assert(apply_lines_spec(defaults, ls.take(8)) == s8);
    assert(ls.take(9).drop_last() =~= ls.take(8));
    assert(apply_lines_spec(defaults, ls.take(9)) == s9);
    assert(ls.take(10).drop_last() =~= ls.take(9));
    assert(apply_lines_spec(defaults, ls.take(10)) == s10);
    assert(ls.take(10) =~= ls);
    assert(s10.translation_work_dir == s.translation_work_dir);
    assert(s10.target_language == s.target_language);
    assert(s10.game_exe_path == s.game_exe_path);
    assert(s10.game_log_path == s.game_log_path);
    assert(s10.save_dir == s.save_dir);
    assert(s10.save_backup_dir == s.save_backup_dir);
    assert(s10.save_backup_retention_days == s.save_backup_retention_days);
    assert(s10.save_backup_max_entries == s.save_backup_max_entries);
    assert(s10.deleted_retention_days == s.deleted_retention_days);
    assert(s10.mod_view_mode == s.mod_view_mode);
    assert(s10 == s);
}

fn trimmed(s: &str) -> (r: String)
    ensures
        r@ == trim_seq(s@),
{
    string_from(trim(chars_of(s).as_slice()).as_slice())
}

/// The settings that saving writes from what the dashboard sent: paths trimmed, the
/// language trimmed and normalised, the numbers sanitised, the view normalised.
pub fn settings_to_save(
    translation_work_dir: &str,
    target_language: &str,
    game_exe_path: &str,
    game_log_path: &str,
    save_dir: &str,
    save_backup_dir: &str,
    save_backup_retention_days: u32,
    save_backup_max_entries: u32,
    deleted_retention_days: u32,
    mod_view_mode: &str,
) -> (r: UiSettingsDto)
    ensures
        r@ == (SettingsView {
            translation_work_dir: trim_seq(translation_work_dir@),
            target_language: normalize_target_language_spec(trim_seq(target_language@)),
            game_exe_path: trim_seq(game_exe_path@),
            game_log_path: trim_seq(game_log_path@),
            save_dir: trim_seq(save_dir@),
            save_backup_dir: trim_seq(save_backup_dir@),
            save_backup_retention_days: sanitize_days_spec(save_backup_retention_days),
            save_backup_max_entries: sanitize_entries_spec(save_backup_max_entries),
            deleted_retention_days: sanitize_days_spec(deleted_retention_days),
            mod_view_mode: mod_view_mode_spec(mod_view_mode@),
        }),
{
    let lang = trimmed(target_language);
    UiSettingsDto {
        translation_work_dir: trimmed(translation_work_dir),
        target_language: normalize_target_language(lang.as_str()),
        game_exe_path: trimmed(game_exe_path),
        game_log_path: trimmed(game_log_path),
        save_dir: trimmed(save_dir),
        save_backup_dir: trimmed(save_backup_dir),
        save_backup_retention_days: sanitize_save_backup_retention_days(save_backup_retention_days),
        save_backup_max_entries: sanitize_save_backup_max_entries(save_backup_max_entries),
        deleted_retention_days: sanitize_deleted_retention_days(deleted_retention_days),
        mod_view_mode: normalize_mod_view_mode(mod_view_mode).to_string(),
    }
}

/// Whether settings may be saved: not while the game runs, and a game executable or log
/// path, where one is given, must name a file (`exe_is_file`, `log_is_file`).
pub fn check_settings_to_save(settings: &UiSettingsDto, game_running: bool, exe_is_file: bool, log_is_file: bool) -> (r:
    Result<(), String>)
    ensures
        game_running ==> (r matches Err(m) && m@ == "게임 실행 중에는 설정을 변경할 수 없습니다."@),
        !game_running && settings.game_exe_path@.len() > 0 && !exe_is_file ==> (r matches Err(m) && m@
            == "게임 실행 파일 경로가 올바르지 않습니다."@),
        !game_running && (settings.game_exe_path@.len() == 0 || exe_is_file) && settings.game_log_path@.len() > 0
            && !log_is_file ==> (r matches Err(m) && m@ == "게임 로그 파일 경로가 올바르지 않습니다."@),
        r is Ok <==> !game_running && (settings.game_exe_path@.len() == 0 || exe_is_file) && (
        settings.game_log_path@.len() == 0 || log_is_file),
{
    if game_running {
        return Err("게임 실행 중에는 설정을 변경할 수 없습니다.".to_string());
    }
    if settings.game_exe_path.unicode_len() > 0 && !exe_is_file {
        return Err("게임 실행 파일 경로가 올바르지 않습니다.".to_string());
    }
    if settings.game_log_path.unicode_len() > 0 && !log_is_file {
        return Err("게임 로그 파일 경로가 올바르지 않습니다.".to_string());
    }
    Ok(())
}

/// The settings after the dashboard changes only the view mode.
pub fn with_mod_view_mode(settings: UiSettingsDto, mod_view_mode: &str) -> (r: UiSettingsDto)
    ensures
        r@ == (SettingsView { mod_view_mode: mod_view_mode_spec(mod_view_mode@), ..settings@ }),
{
    let mut s = settings;
    s.mod_view_mode = normalize_mod_view_mode(mod_view_mode).to_string();
    s
}

} // verus!
