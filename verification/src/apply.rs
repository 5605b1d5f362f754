//! Where a finished translation is installed, and the context file that remembers which
//! mod a working folder was extracted from.
use vstd::prelude::*;
use crate::text::{chars_of, string_from, trim, trim_seq, lines, lines_seq, push_all, terminated, no_char};
use crate::paths::{
    components, rooted, join_path, has_named, first_named, last_named, source_name, localization_name,
    comps_of, is_rooted_exec, join_comps, sub_comps, find_named, source_root_index, vv, is_pck_contents_name,
    file_name_spec, stem_of, join_name_spec, join_name_str, lemma_first_named_unique, ext_is,
};
use crate::roots::opt_view;
use crate::settings::{AppConfig, split_once, split_once_spec, setting_line, plain_value, lemma_split_setting_line, lemma_plain_line};
use crate::language::is_text;

verus! {

broadcast use vstd::string::group_string_axioms;

/// What a working folder remembers of where its files came from.
pub struct TranslationContext {
    pub mod_key: Option<String>,
    pub extraction_source_path: Option<String>,
    pub input_pck_path: Option<String>,
    pub pck_contents_root: Option<String>,
    pub pck_stem: Option<String>,
    pub translation_patch_source_path: Option<String>,
    pub translation_patch_pck_stem: Option<String>,
}

pub struct ContextView {
    pub mod_key: Option<Seq<char>>,
    pub extraction_source_path: Option<Seq<char>>,
    pub input_pck_path: Option<Seq<char>>,
    pub pck_contents_root: Option<Seq<char>>,
    pub pck_stem: Option<Seq<char>>,
    pub translation_patch_source_path: Option<Seq<char>>,
    pub translation_patch_pck_stem: Option<Seq<char>>,
}

impl View for TranslationContext {
    type V = ContextView;

    open spec fn view(&self) -> ContextView {
        ContextView {
            mod_key: opt_view(self.mod_key),
            extraction_source_path: opt_view(self.extraction_source_path),
            input_pck_path: opt_view(self.input_pck_path),
            pck_contents_root: opt_view(self.pck_contents_root),
            pck_stem: opt_view(self.pck_stem),
            translation_patch_source_path: opt_view(self.translation_patch_source_path),
            translation_patch_pck_stem: opt_view(self.translation_patch_pck_stem),
        }
    }
}

pub open spec fn empty_context() -> ContextView {
    ContextView {
        mod_key: None,
        extraction_source_path: None,
        input_pck_path: None,
        pck_contents_root: None,
        pck_stem: None,
        translation_patch_source_path: None,
        translation_patch_pck_stem: None,
    }
}

/// What one `key<TAB>value` line of the context file sets; `t` is the trimmed value, and a
/// blank value sets nothing.
pub open spec fn apply_context_spec(c: ContextView, key: Seq<char>, t: Seq<char>) -> ContextView {
    if t.len() == 0 {
        c
    } else if key == "mod_key"@ {
        ContextView { mod_key: Some(t), ..c }
    } else if key == "extraction_source_path"@ {
        ContextView { extraction_source_path: Some(t), ..c }
    } else if key == "input_pck_path"@ {
        ContextView { input_pck_path: Some(t), ..c }
    } else if key == "pck_contents_root"@ {
        ContextView { pck_contents_root: Some(t), ..c }
    } else if key == "pck_stem"@ {
        ContextView { pck_stem: Some(t), ..c }
    } else if key == "translation_patch_source_path"@ {
        ContextView { translation_patch_source_path: Some(t), ..c }
    } else if key == "translation_patch_pck_stem"@ {
        ContextView { translation_patch_pck_stem: Some(t), ..c }
    } else {
        c
    }
}

pub open spec fn context_lines_spec(c: ContextView, ls: Seq<Seq<char>>) -> ContextView
    decreases ls.len(),
{
    if ls.len() == 0 {
        c
    } else {
        let prev = context_lines_spec(c, ls.drop_last());
        match split_once_spec(ls.last(), '\t') {
            Some((k, v)) => apply_context_spec(prev, k, trim_seq(v)),
            None => prev,
        }
    }
}

pub open spec fn parse_context_spec(content: Seq<char>) -> ContextView {
    context_lines_spec(empty_context(), lines_seq(content))
}

fn set_context(c: &mut TranslationContext, key: &[char], t: &[char])
    ensures
        final(c)@ == apply_context_spec(old(c)@, key@, t@),
{
    if t.len() == 0 {
        return ;
    }
    let v = string_from(t);
    if is_text(key, "mod_key") {
        c.mod_key = Some(v);
    } else if is_text(key, "extraction_source_path") {
        c.extraction_source_path = Some(v);
    } else if is_text(key, "input_pck_path") {
        c.input_pck_path = Some(v);
    } else if is_text(key, "pck_contents_root") {
        c.pck_contents_root = Some(v);
    } else if is_text(key, "pck_stem") {
        c.pck_stem = Some(v);
    } else if is_text(key, "translation_patch_source_path") {
        c.translation_patch_source_path = Some(v);
    } else if is_text(key, "translation_patch_pck_stem") {
        c.translation_patch_pck_stem = Some(v);
    }
}

/// The context read from the context file's text.
pub fn read_translation_context(content: &str) -> (r: TranslationContext)
    ensures
        r@ == parse_context_spec(content@),
{
    let mut c = TranslationContext {
        mod_key: None,
        extraction_source_path: None,
        input_pck_path: None,
        pck_contents_root: None,
        pck_stem: None,
        translation_patch_source_path: None,
        translation_patch_pck_stem: None,
    };
    let ls = lines(chars_of(content).as_slice());
    let ghost lq = lines_seq(content@);
    let mut i: usize = 0;
    while i < ls.len()
        invariant
            i <= ls@.len(),
            ls@.len() == lq.len(),
            forall|k: int| 0 <= k < ls@.len() ==> #[trigger] ls@[k]@ == lq[k],
            c@ == context_lines_spec(empty_context(), lq.take(i as int)),
        decreases ls.len() - i,
    {
        proof {
            assert(lq.take(i + 1).drop_last() =~= lq.take(i as int));
            assert(lq.take(i + 1).last() == lq[i as int]);
        }
        match split_once(ls[i].as_slice(), '\t') {
            Some((k, v)) => {
                let t = trim(v.as_slice());
                set_context(&mut c, k.as_slice(), t.as_slice());
            },
            None => {},
        }
        i += 1;
    }
    assert(lq.take(i as int) =~= lq);
    c
}

/// What is written to a new context file.
pub struct TranslationContextWriteRequest {
    pub mod_key: String,
    pub resource_path: String,
    pub extraction_source: String,
    pub pck_contents_root: Option<String>,
    pub pck_stem: String,
    pub translation_patch_source: Option<String>,
    pub translation_patch_pck_stem: Option<String>,
}

/// The lines of the context file: the mod, the resource and the source always, the others
/// where they are set.
pub open spec fn context_lines(r: TranslationContextWriteRequest) -> Seq<Seq<char>> {
    let base = seq![
        setting_line("mod_key"@, r.mod_key@),
        setting_line("resource_path"@, r.resource_path@),
        setting_line("extraction_source_path"@, r.extraction_source@),
    ];
    let a = match r.pck_contents_root {
        Some(p) => base.push(setting_line("pck_contents_root"@, p@)),
        None => base,
    };
    let b = if r.pck_stem@.len() > 0 { a.push(setting_line("pck_stem"@, r.pck_stem@)) } else { a };
    let c = match r.translation_patch_source {
        Some(p) => b.push(setting_line("translation_patch_source_path"@, p@)),
        None => b,
    };
    match r.translation_patch_pck_stem {
        Some(s) => if s@.len() > 0 { c.push(setting_line("translation_patch_pck_stem"@, s@)) } else { c },
        None => c,
    }
}

fn push_setting_line(out: &mut Vec<char>, key: &str, value: &str, ls: Ghost<Seq<Seq<char>>>)
    requires
        old(out)@ == terminated(ls@),
    ensures
        final(out)@ == terminated(ls@.push(setting_line(key@, value@))),
{
    push_all(out, chars_of(key).as_slice());
    out.push('\t');
    push_all(out, chars_of(value).as_slice());
    out.push('\n');
    proof {
        crate::text::lemma_terminated_push(ls@, setting_line(key@, value@));
        assert(final(out)@ =~= terminated(ls@) + setting_line(key@, value@).push('\n'));
    }
}

/// The text of a context file.
pub fn write_translation_context(request: &TranslationContextWriteRequest) -> (r: String)
    ensures
        r@ == terminated(context_lines(*request)),
{
    let r = request;
    let mut out: Vec<char> = Vec::new();
    let ghost mut ls: Seq<Seq<char>> = Seq::empty();
    push_setting_line(&mut out, "mod_key", r.mod_key.as_str(), Ghost(ls));
    proof { ls = ls.push(setting_line("mod_key"@, r.mod_key@)); }
    push_setting_line(&mut out, "resource_path", r.resource_path.as_str(), Ghost(ls));
    proof { ls = ls.push(setting_line("resource_path"@, r.resource_path@)); }
    push_setting_line(&mut out, "extraction_source_path", r.extraction_source.as_str(), Ghost(ls));
    proof { ls = ls.push(setting_line("extraction_source_path"@, r.extraction_source@)); }
    if let Some(p) = &r.pck_contents_root {
        push_setting_line(&mut out, "pck_contents_root", p.as_str(), Ghost(ls));
        proof { ls = ls.push(setting_line("pck_contents_root"@, p@)); }
    }
    if !r.pck_stem.as_str().is_empty() {
        push_setting_line(&mut out, "pck_stem", r.pck_stem.as_str(), Ghost(ls));
        proof { ls = ls.push(setting_line("pck_stem"@, r.pck_stem@)); }
    }
    if let Some(p) = &r.translation_patch_source {
        push_setting_line(&mut out, "translation_patch_source_path", p.as_str(), Ghost(ls));
        proof { ls = ls.push(setting_line("translation_patch_source_path"@, p@)); }
    }
    if let Some(s) = &r.translation_patch_pck_stem {
        if !s.as_str().is_empty() {
            push_setting_line(&mut out, "translation_patch_pck_stem", s.as_str(), Ghost(ls));
            proof { ls = ls.push(setting_line("translation_patch_pck_stem"@, s@)); }
        }
    }
    assert(ls =~= context_lines(*request));
    string_from(out.as_slice())
}

/// The context for applying a sheet directly: where the working files came from a
/// translation patch, the patch's source and stem stand in, and no input PCK is used.
pub open spec fn direct_apply_spec(c: ContextView) -> ContextView {
    match c.translation_patch_source_path {
        None => c,
        Some(source) => ContextView {
            extraction_source_path: Some(source),
            input_pck_path: None,
            pck_stem: match c.translation_patch_pck_stem {
                Some(s) => Some(s),
                None => c.pck_stem,
            },
            ..c
        },
    }
}

impl TranslationContext {
    pub fn direct_apply_context(&self) -> (r: TranslationContext)
        ensures
            r@ == direct_apply_spec(self@),
    {
        let copy = |o: &Option<String>| -> (r: Option<String>)
            ensures
                opt_view(r) == opt_view(*o),
            { crate::model::copy_opt(o) };
        match &self.translation_patch_source_path {
            None => TranslationContext {
                mod_key: copy(&self.mod_key),
                extraction_source_path: copy(&self.extraction_source_path),
                input_pck_path: copy(&self.input_pck_path),
                pck_contents_root: copy(&self.pck_contents_root),
                pck_stem: copy(&self.pck_stem),
                translation_patch_source_path: None,
                translation_patch_pck_stem: copy(&self.translation_patch_pck_stem),
            },
            Some(source) => TranslationContext {
                mod_key: copy(&self.mod_key),
                extraction_source_path: Some(source.clone()),
                input_pck_path: None,
                pck_contents_root: copy(&self.pck_contents_root),
                pck_stem: match &self.translation_patch_pck_stem {
                    Some(s) => Some(s.clone()),
                    None => copy(&self.pck_stem),
                },
                translation_patch_source_path: Some(source.clone()),
                translation_patch_pck_stem: copy(&self.translation_patch_pck_stem),
            },
        }
    }
}

/// The components of a working file after its nearest `source` folder.
pub open spec fn source_relative(source: Seq<char>) -> Option<Seq<Seq<char>>> {
    let c = components(source);
    if has_named(c, source_name()) {
        let j = choose|j: int| last_named(c, source_name(), j);
        Some(c.skip(j + 1))
    } else {
        None
    }
}

/// `Path::join` of a relative path given by its components.
pub open spec fn join_rel(base: Seq<char>, rel: Seq<Seq<char>>) -> Seq<char> {
    join_path(rooted(base), components(base) + rel)
}

/// Where a hard-coded translation is installed: the working file's path below its `source`
/// folder, under the install root.
pub open spec fn hardcoded_target_spec(source: Seq<char>, install: Seq<char>) -> Option<Seq<char>> {
    match source_relative(source) {
        Some(rel) => Some(join_rel(install, rel)),
        None => None,
    }
}

/// The relative path with the language folder under its first `localization` replaced.
pub open spec fn relocalized(rel: Seq<Seq<char>>, language: Seq<char>) -> Option<Seq<Seq<char>>> {
    if has_named(rel, localization_name()) {
        let i = choose|i: int| first_named(rel, localization_name(), i);
        if i + 1 < rel.len() {
            Some(rel.update(i + 1, language))
        } else {
            None
        }
    } else {
        None
    }
}

fn relative_comps(source: &str) -> (r: Option<Vec<Vec<char>>>)
    ensures
        match r {
            Some(v) => source_relative(source@) == Some(vv(v@)),
            None => source_relative(source@) is None,
        },
{
    let p = chars_of(source);
    let comps = comps_of(p.as_slice());
    assert(vv(comps@).len() == comps@.len());
    match source_root_index(p.as_slice(), comps.as_slice()) {
        None => None,
        Some(j) => {
            proof {
                let c = components(source@);
                let k = choose|k: int| last_named(c, source_name(), k);
                crate::paths::lemma_last_named_unique(c, source_name(), j as int, k);
            }
            let rel = sub_comps(comps.as_slice(), j + 1, comps.len());
            assert(vv(comps@).subrange(j + 1, comps@.len() as int) =~= vv(comps@).skip(j + 1));
            Some(rel)
        },
    }
}

pub(crate) fn join_rel_exec(base: &str, rel: &Vec<Vec<char>>) -> (r: String)
    ensures
        r@ == join_rel(base@, vv(rel@)),
{
    let b = chars_of(base);
    let mut comps = comps_of(b.as_slice());
    let ghost start = vv(comps@);
    let mut i: usize = 0;
    while i < rel.len()
        invariant
            i <= rel@.len(),
            vv(comps@) == start + vv(rel@).take(i as int),
        decreases rel.len() - i,
    {
        let ghost before = comps@;
        comps.push(rel[i].clone());
        proof {
            assert(vv(comps@) =~= vv(before).push(rel@[i as int]@));
            assert(vv(rel@).take(i + 1) =~= vv(rel@).take(i as int).push(rel@[i as int]@));
        }
        i += 1;
    }
    assert(vv(rel@).take(i as int) =~= vv(rel@));
    let out = join_comps(is_rooted_exec(b.as_slice()), comps.as_slice(), '\\');
    string_from(out.as_slice())
}

/// Where a hard-coded translation goes and the root it is installed under, where the root
/// is known (`install_root`) and the working file lies below a `source` folder.
pub fn hardcoded_translation_target_path(source_path: &str, install_root: Option<String>) -> (r: Option<
    (String, String),
>)
    ensures
        match r {
            Some((root, target)) => install_root matches Some(i) && root@ == i@ && hardcoded_target_spec(
                source_path@,
                i@,
            ) == Some(target@),
            None => install_root is None || hardcoded_target_spec(source_path@, install_root->0@) is None,
        },
{
    let rel = match relative_comps(source_path) {
        Some(r) => r,
        None => return None,
    };
    let root = match install_root {
        Some(i) => i,
        None => return None,
    };
    let target = join_rel_exec(root.as_str(), &rel);
    Some((root, target))
}

/// Where a language folder translation goes: like a hard-coded one, with the language
/// folder renamed to the target language; never for files inside an extracted PCK or
/// those from an input PCK or with a PCK stem.
pub open spec fn folder_target_spec(
    context: ContextView,
    source: Seq<char>,
    language: Seq<char>,
    install: Seq<char>,
) -> Option<Seq<char>> {
    let inside_pck = exists|i: int| 0 <= i < components(source).len() && is_pck_contents_name(#[trigger] components(source)[i]);
    if inside_pck || context.input_pck_path is Some || context.pck_stem is Some {
        None
    } else {
        match source_relative(source) {
            Some(rel) => match relocalized(rel, language) {
                Some(t) => Some(join_rel(install, t)),
                None => None,
            },
            None => None,
        }
    }
}

pub fn folder_translation_target_path(
    context: &TranslationContext,
    source_path: &str,
    target_language: &str,
    install_root: Option<String>,
) -> (r: Option<(String, String)>)
    ensures
        match r {
            Some((root, target)) => install_root matches Some(i) && root@ == i@ && folder_target_spec(
                context@,
                source_path@,
                target_language@,
                i@,
            ) == Some(target@),
            None => install_root is None || folder_target_spec(
                context@,
                source_path@,
                target_language@,
                install_root->0@,
            ) is None,
        },
{
    if crate::paths::path_inside_pck_contents(source_path) || context.input_pck_path.is_some()
        || context.pck_stem.is_some() {
        return None;
    }
    let mut rel = match relative_comps(source_path) {
        Some(r) => r,
        None => return None,
    };
    let name = chars_of("localization");
    proof {
        reveal_strlit("localization");
        assert(name@ =~= localization_name());
    }
    let i = match find_named(rel.as_slice(), name.as_slice()) {
        Some(i) => i,
        None => return None,
    };
    proof {
        let k = choose|k: int| first_named(vv(rel@), localization_name(), k);
        lemma_first_named_unique(vv(rel@), localization_name(), i as int, k);
    }
    assert(vv(rel@).len() == rel@.len());
    assert(i < rel.len());
    if i + 1 >= rel.len() {
        return None;
    }
    let ghost before = vv(rel@);
    rel.set(i + 1, chars_of(target_language));
    assert(vv(rel@) =~= before.update(i + 1, target_language@));
    let root = match install_root {
        Some(r) => r,
        None => return None,
    };
    let target = join_rel_exec(root.as_str(), &rel);
    Some((root, target))
}

/// What the file system and the scan say of the places a translation may be installed.
pub struct InstallFacts {
    pub record_extraction_source: Option<String>,
    pub record_extraction_source_is_dir: bool,
    pub record_path: Option<String>,
    pub record_path_is_dir: bool,
    pub context_source_is_dir: bool,
    pub context_source_is_file: bool,
}

pub open spec fn some_if(b: bool, v: Option<String>) -> Option<Seq<char>> {
    if b && v is Some {
        Some(v->0@)
    } else {
        None
    }
}

/// The root a translation is installed under: the found mod's extraction folder or the mod
/// folder itself, where they are folders; else the context's source folder; else, for an
/// archive source, the folder it was or would be unpacked to in the game's mods folder.
/// `facts.record_*` describe the mod that the context or the `selected` folder names,
/// where the scan found it.
pub open spec fn install_root_spec(context: ContextView, config: &AppConfig, facts: InstallFacts) -> Option<Seq<char>> {
    match some_if(facts.record_extraction_source_is_dir, facts.record_extraction_source) {
        Some(p) => Some(p),
        None => match some_if(facts.record_path_is_dir, facts.record_path) {
            Some(p) => Some(p),
            None => match context.extraction_source_path {
                None => None,
                Some(source) => if facts.context_source_is_dir {
                    Some(source)
                } else if ext_is(source, "zip"@) || ext_is(source, "7z"@) || ext_is(source, "rar"@) {
                    match crate::deleted::install_dir_spec(source, config.game_mods_dir@, facts.context_source_is_file) {
                        Some(d) => Some(d),
                        None => match file_name_spec(source) {
                            Some(n) => Some(join_name_spec(config.game_mods_dir@, stem_of(n))),
                            None => None,
                        },
                    }
                } else {
                    None
                },
            },
        },
    }
}

pub fn folder_translation_install_root(context: &TranslationContext, config: &AppConfig, facts: &InstallFacts) -> (r:
    Option<String>)
    ensures
        opt_view(r) == install_root_spec(context@, config, *facts),
{
    if facts.record_extraction_source_is_dir {
        if let Some(p) = &facts.record_extraction_source {
            return Some(p.clone());
        }
    }
    if facts.record_path_is_dir {
        if let Some(p) = &facts.record_path {
            return Some(p.clone());
        }
    }
    let source = match &context.extraction_source_path {
        Some(s) => s,
        None => return None,
    };
    if facts.context_source_is_dir {
        return Some(source.clone());
    }
    if crate::model::is_supported_archive_path(source.as_str()) {
        match crate::deleted::active_mod_install_dir(source.as_str(), config, facts.context_source_is_file) {
            Some(d) => return Some(d),
            None => {},
        }
        return match crate::paths::file_name_exec(chars_of(source.as_str()).as_slice()) {
            Some(n) => {
                let st = crate::paths::stem_exec(n.as_slice());
                Some(join_name_str(config.game_mods_dir.as_str(), string_from(st.as_slice()).as_str()))
            },
            None => None,
        };
    }
    None
}


/// A context request whose values the context file keeps as they are: each trimmed and on
/// one line, with the mod and the source given and no optional path left empty.
pub open spec fn request_well_formed(r: TranslationContextWriteRequest) -> bool {
    &&& plain_value(r.mod_key@) && r.mod_key@.len() > 0
    &&& plain_value(r.resource_path@)
    &&& plain_value(r.extraction_source@) && r.extraction_source@.len() > 0
    &&& (r.pck_contents_root matches Some(p) ==> plain_value(p@) && p@.len() > 0)
    &&& plain_value(r.pck_stem@)
    &&& (r.translation_patch_source matches Some(p) ==> plain_value(p@) && p@.len() > 0)
    &&& (r.translation_patch_pck_stem matches Some(p) ==> plain_value(p@))
}

/// The context that a request writes.
pub open spec fn request_context(r: TranslationContextWriteRequest) -> ContextView {
    ContextView {
        mod_key: Some(r.mod_key@),
        extraction_source_path: Some(r.extraction_source@),
        input_pck_path: None,
        pck_contents_root: opt_view(r.pck_contents_root),
        pck_stem: if r.pck_stem@.len() > 0 { Some(r.pck_stem@) } else { None },
        translation_patch_source_path: opt_view(r.translation_patch_source),
        translation_patch_pck_stem: match r.translation_patch_pck_stem {
            Some(s) => if s@.len() > 0 { Some(s@) } else { None },
            None => None,
        },
    }
}

proof fn lemma_context_step(c: ContextView, ls: Seq<Seq<char>>, key: Seq<char>, value: Seq<char>)
    requires
        no_char(key, '\t'),
    ensures
        context_lines_spec(c, ls.push(setting_line(key, value))) == apply_context_spec(
            context_lines_spec(c, ls),
            key,
            trim_seq(value),
        ),
{
    assert(ls.push(setting_line(key, value)).drop_last() =~= ls);
    lemma_split_setting_line(key, value);
}

/// Writing a context and reading the file back gives the context that was written.
#[verifier::rlimit(60)]
pub proof fn lemma_context_round_trip(r: TranslationContextWriteRequest)
    requires
        request_well_formed(r),
    ensures
        parse_context_spec(terminated(context_lines(r))) == request_context(r),
{
    reveal_strlit("mod_key");
    reveal_strlit("resource_path");
    reveal_strlit("extraction_source_path");
    reveal_strlit("input_pck_path");
    reveal_strlit("pck_contents_root");
    reveal_strlit("pck_stem");
    reveal_strlit("translation_patch_source_path");
    reveal_strlit("translation_patch_pck_stem");
    let ls = context_lines(r);
    assert forall|i: int| 0 <= i < ls.len() implies no_char(#[trigger] ls[i], '\n') && !(ls[i].len() > 0
        && ls[i].last() == '\r') by {
        let base = seq![
            setting_line("mod_key"@, r.mod_key@),
            setting_line("resource_path"@, r.resource_path@),
            setting_line("extraction_source_path"@, r.extraction_source@),
        ];
        lemma_plain_line("mod_key"@, r.mod_key@);
        lemma_plain_line("resource_path"@, r.resource_path@);
        lemma_plain_line("extraction_source_path"@, r.extraction_source@);
        lemma_plain_line("pck_stem"@, r.pck_stem@);
        if let Some(p) = r.pck_contents_root {
            lemma_plain_line("pck_contents_root"@, p@);
        }
        if let Some(p) = r.translation_patch_source {
            lemma_plain_line("translation_patch_source_path"@, p@);
        }
        if let Some(p) = r.translation_patch_pck_stem {
            lemma_plain_line("translation_patch_pck_stem"@, p@);
        }
    }
    lemma_lines_terminated_ctx(ls);
    let e = empty_context();
    let l0 = Seq::<Seq<char>>::empty();
    let l1 = l0.push(setting_line("mod_key"@, r.mod_key@));
    lemma_context_step(e, l0, "mod_key"@, r.mod_key@);
    let l2 = l1.push(setting_line("resource_path"@, r.resource_path@));
    lemma_context_step(e, l1, "resource_path"@, r.resource_path@);
    let l3 = l2.push(setting_line("extraction_source_path"@, r.extraction_source@));
    lemma_context_step(e, l2, "extraction_source_path"@, r.extraction_source@);
    let c3 = context_lines_spec(e, l3);
    assert(c3 == ContextView {
        mod_key: Some(r.mod_key@),
        extraction_source_path: Some(r.extraction_source@),
        ..e
    });
    let l4 = match r.pck_contents_root {
        Some(p) => l3.push(setting_line("pck_contents_root"@, p@)),
        None => l3,
    };
    if let Some(p) = r.pck_contents_root {
        lemma_context_step(e, l3, "pck_contents_root"@, p@);
    }
    let l5 = if r.pck_stem@.len() > 0 { l4.push(setting_line("pck_stem"@, r.pck_stem@)) } else { l4 };
    if r.pck_stem@.len() > 0 {
        lemma_context_step(e, l4, "pck_stem"@, r.pck_stem@);
    }
    let l6 = match r.translation_patch_source {
        Some(p) => l5.push(setting_line("translation_patch_source_path"@, p@)),
        None => l5,
    };
    if let Some(p) = r.translation_patch_source {
        lemma_context_step(e, l5, "translation_patch_source_path"@, p@);
    }
    if let Some(s) = r.translation_patch_pck_stem {
        if s@.len() > 0 {
            lemma_context_step(e, l6, "translation_patch_pck_stem"@, s@);
        }
    }
    assert(l3 =~= seq![
        setting_line("mod_key"@, r.mod_key@),
        setting_line("resource_path"@, r.resource_path@),
        setting_line("extraction_source_path"@, r.extraction_source@),
    ]);
}

proof fn lemma_lines_terminated_ctx(ls: Seq<Seq<char>>)
    requires
        forall|i: int| 0 <= i < ls.len() ==> no_char(#[trigger] ls[i], '\n') && !(ls[i].len() > 0 && ls[i].last() == '\r'),
    ensures
        lines_seq(terminated(ls)) == ls,
{
    crate::text::lemma_lines_terminated(ls);
}

} // verus!
