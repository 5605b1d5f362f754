//! Overwriting a managed mod with a dropped one: which checks refuse it, and how the new
//! files take the old one's place.
use vstd::prelude::*;
use crate::text::{chars_of, string_from, cat, lower_seq, dec_seq, u64_text, push_all};
use crate::paths::{file_name_spec, file_name_exec, join_name_spec, join_name_str, parent_spec, parent_chars};
use crate::settings::AppConfig;
use crate::roots::{same_path, game_disabled_dir, game_disabled_dir_spec, path_starts_with, path_starts_with_exec};
use crate::logs::same_components;
use crate::dashboard::{vault_entry_spec, vault_entry_root_for_path};

verus! {

broadcast use vstd::string::group_string_axioms;

/// Two paths name the same place, as `same_path` decides.
pub open spec fn same_place(a: Seq<char>, b: Seq<char>) -> bool {
    same_components(a, b) || lower_seq(a) == lower_seq(b)
}

/// Where the dropped mod lands: beside the target, under the dropped mod's own name.
pub open spec fn replacement_target_spec(source: Seq<char>, target: Seq<char>) -> Result<Seq<char>, Seq<char>> {
    match parent_spec(target) {
        None => Err("대상 상위 폴더를 읽을 수 없습니다: "@ + target),
        Some(parent) => match file_name_spec(source) {
            None => Err("파일 이름을 읽을 수 없습니다: "@ + source),
            Some(name) => Ok(join_name_spec(parent, name)),
        },
    }
}

pub fn replacement_target_path(source: &str, target: &str) -> (r: Result<String, String>)
    ensures
        match r {
            Ok(p) => replacement_target_spec(source@, target@) == Ok::<Seq<char>, Seq<char>>(p@),
            Err(m) => replacement_target_spec(source@, target@) == Err::<Seq<char>, Seq<char>>(m@),
        },
{
    let parent = match parent_chars(chars_of(target).as_slice()) {
        Some(p) => string_from(p.as_slice()),
        None => return Err(cat("대상 상위 폴더를 읽을 수 없습니다: ", target)),
    };
    let name = match file_name_exec(chars_of(source).as_slice()) {
        Some(n) => string_from(n.as_slice()),
        None => return Err(cat("파일 이름을 읽을 수 없습니다: ", source)),
    };
    Ok(join_name_str(parent.as_str(), name.as_str()))
}

/// How a dropped mod replaces a managed one.
pub enum ReplacePlan {
    /// The target is in the vault: the dropped mod is imported as a new mod, and the vault
    /// folder that holds the target is removed once the import is there.
    ImportToVault { vault_entry_dir: String },
    /// The new files have the target's own name: they are copied to a staging place in
    /// `parent` first, the target is removed, and the staged copy is moved to `replacement`.
    Staged { parent: String, file_name: String, replacement: String },
    /// The new files are copied to `replacement` beside the target, then the target is removed.
    Direct { replacement: String },
}

/// What is known on disk before replacing.
pub struct ReplaceFacts {
    pub target_exists: bool,
    /// The target is a mod that the manager keeps.
    pub target_is_managed: bool,
    /// Something is already at `replacement_target_path(source, target)`.
    pub replacement_exists: bool,
}

pub open spec fn managed_source(source: Seq<char>, config: &AppConfig, vault_dir: Seq<char>) -> bool {
    ||| path_starts_with(source, vault_dir)
    ||| path_starts_with(source, config.game_mods_dir@)
    ||| path_starts_with(source, game_disabled_dir_spec(config.game_mods_dir@))
}

/// The checks in order: the target must exist, differ from the source, the source must not be
/// a mod already kept by the manager, and the target must be one; then a vault target is
/// replaced by importing, and any other by copying beside it, unless another mod already
/// has the new name.
pub open spec fn replace_plan_ok(
    source: Seq<char>,
    target: Seq<char>,
    config: &AppConfig,
    vault_dir: Seq<char>,
    facts: ReplaceFacts,
    r: Result<ReplacePlan, String>,
) -> bool {
    if !facts.target_exists {
        r matches Err(m) && m@ == "덮어쓸 모드를 찾을 수 없습니다: "@ + target
    } else if same_place(source, target) {
        r matches Err(m) && m@ == "같은 경로로는 덮어쓸 수 없습니다."@
    } else if managed_source(source, config, vault_dir) {
        r matches Err(m) && m@ == "이미 관리 중인 모드는 드래그 등록 대상으로 사용할 수 없습니다."@
    } else if !facts.target_is_managed {
        r matches Err(m) && m@ == "관리 중인 모드만 덮어쓸 수 있습니다: "@ + target
    } else if vault_entry_spec(target, vault_dir) is Some {
        r matches Ok(ReplacePlan::ImportToVault { vault_entry_dir }) && Some(vault_entry_dir@) == vault_entry_spec(
            target,
            vault_dir,
        )
    } else {
        match replacement_target_spec(source, target) {
            Err(e) => r matches Err(m) && m@ == e,
            Ok(rep) => if facts.replacement_exists && !same_place(rep, target) {
                r matches Err(m) && m@ == "새 버전 이름의 대상이 이미 존재합니다: "@ + rep
            } else if same_place(rep, target) {
                r matches Ok(ReplacePlan::Staged { parent, file_name, replacement }) && Some(parent@) == parent_spec(
                    target,
                ) && Some(file_name@) == file_name_spec(source) && replacement@ == rep
            } else {
                r matches Ok(ReplacePlan::Direct { replacement }) && replacement@ == rep
            },
        }
    }
}

/// Decides how the mod at `source` replaces the managed mod at `target`.
pub fn replace_existing_mod_plan(
    source: &str,
    target: &str,
    config: &AppConfig,
    vault_dir: &str,
    facts: ReplaceFacts,
) -> (r: Result<ReplacePlan, String>)
    ensures
        replace_plan_ok(source@, target@, config, vault_dir@, facts, r),
{
    if !facts.target_exists {
        return Err(cat("덮어쓸 모드를 찾을 수 없습니다: ", target));
    }
    if same_path(source, target) {
        return Err("같은 경로로는 덮어쓸 수 없습니다.".to_string());
    }
    let disabled = game_disabled_dir(config.game_mods_dir.as_str());
    if path_starts_with_exec(source, vault_dir) || path_starts_with_exec(source, config.game_mods_dir.as_str())
        || path_starts_with_exec(source, disabled.as_str()) {
        return Err("이미 관리 중인 모드는 드래그 등록 대상으로 사용할 수 없습니다.".to_string());
    }
    if !facts.target_is_managed {
        return Err(cat("관리 중인 모드만 덮어쓸 수 있습니다: ", target));
    }
    if let Some(entry) = vault_entry_root_for_path(target, vault_dir) {
        return Ok(ReplacePlan::ImportToVault { vault_entry_dir: entry });
    }
    let replacement = replacement_target_path(source, target)?;
    let same = same_path(replacement.as_str(), target);
    if facts.replacement_exists && !same {
        return Err(cat("새 버전 이름의 대상이 이미 존재합니다: ", replacement.as_str()));
    }
    if same {
        let parent = match parent_chars(chars_of(target).as_slice()) {
            Some(p) => string_from(p.as_slice()),
            None => return Err(cat("대상 상위 폴더를 읽을 수 없습니다: ", target)),
        };
        let file_name = match file_name_exec(chars_of(source).as_slice()) {
            Some(n) => string_from(n.as_slice()),
            None => return Err(cat("파일 이름을 읽을 수 없습니다: ", source)),
        };
        return Ok(ReplacePlan::Staged { parent, file_name, replacement });
    }
    Ok(ReplacePlan::Direct { replacement })
}

/// A staging name for a replacement in `parent`: `.drop-import-<stamp>-<index>-<name>`, or
/// without the index once the numbered ones are used up.
pub open spec fn staged_candidate_spec(parent: Seq<char>, stamp: Seq<char>, index: Option<u32>, file_name: Seq<char>) -> Seq<char> {
    join_name_spec(
        parent,
        match index {
            Some(i) => ".drop-import-"@ + stamp + seq!['-'] + dec_seq(i as nat) + seq!['-'] + file_name,
            None => ".drop-import-"@ + stamp + seq!['-'] + file_name,
        },
    )
}

pub fn staged_replacement_candidate(parent: &str, stamp: &str, index: Option<u32>, file_name: &str) -> (r: String)
    ensures
        r@ == staged_candidate_spec(parent@, stamp@, index, file_name@),
{
    let mut name = chars_of(".drop-import-");
    push_all(&mut name, chars_of(stamp).as_slice());
    name.push('-');
    if let Some(i) = index {
        let n = u64_text(i as u64);
        push_all(&mut name, chars_of(n.as_str()).as_slice());
        name.push('-');
    }
    push_all(&mut name, chars_of(file_name).as_slice());
    proof {
        match index {
            Some(i) => assert(name@ =~= ".drop-import-"@ + stamp@ + seq!['-'] + dec_seq(i as nat) + seq!['-'] + file_name@),
            None => assert(name@ =~= ".drop-import-"@ + stamp@ + seq!['-'] + file_name@),
        }
    }
    join_name_str(parent, string_from(name.as_slice()).as_str())
}

} // verus!
