//! Translation sheets as the dashboard edits them: entries and their status, the report
//! after saving, CSV export, and the record of applied translations.
use vstd::prelude::*;
use crate::text::{
    chars_of, string_from, cat, trim, trim_seq, seq_eq, starts_with, push_all, split_char, split_seq,
    lines, lines_seq, join_seqs, parse_u64, parse_u64_spec, format_u64, dec_seq, terminated, no_char,
    contains_seq, find, lemma_terminated_push, lemma_lines_terminated, lemma_parse_format_u64,
    lemma_dec_digits, all_digits,
};
use crate::roots::opt_view;
use crate::settings::AppConfig;
use crate::paths::{join_name_spec, join_name_str, file_name_spec, file_name_exec, stem_of, stem_exec};
use crate::deleted::{
    escape_cache_field, unescape_cache_field, escape_spec, unescape_spec, lemma_unescape_escape,
    lemma_escape_plain, lemma_split_join, nonempty_parts, stem_char,
};
use crate::dashboard::display_path;

verus! {

broadcast use vstd::string::group_string_axioms;

#[derive(Clone, Copy, PartialEq, Eq, Structural, Debug)]
pub enum JsonTranslationStatus {
    New,
    Ready,
    Updated,
    Missing,
    Removed,
}

pub open spec fn status_label_spec(s: JsonTranslationStatus) -> Seq<char> {
    match s {
        JsonTranslationStatus::New => "new"@,
        JsonTranslationStatus::Ready => "ready"@,
        JsonTranslationStatus::Updated => "updated"@,
        JsonTranslationStatus::Missing => "missing"@,
        JsonTranslationStatus::Removed => "removed"@,
    }
}

pub fn status_label(status: JsonTranslationStatus) -> (r: &'static str)
    ensures
        r@ == status_label_spec(status),
{
    match status {
        JsonTranslationStatus::New => "new",
        JsonTranslationStatus::Ready => "ready",
        JsonTranslationStatus::Updated => "updated",
        JsonTranslationStatus::Missing => "missing",
        JsonTranslationStatus::Removed => "removed",
    }
}

/// One entry of a translation sheet.
pub struct JsonTranslationEntry {
    pub key: String,
    pub slot_id: Option<String>,
    pub source_value: String,
    pub translated_value: String,
    pub status: JsonTranslationStatus,
}

/// An entry as the editor sends and receives it: the status is text.
pub struct JsonEntryDto {
    pub key: String,
    pub slot_id: Option<String>,
    pub previous_source_value: Option<String>,
    pub source_value: String,
    pub translated_value: String,
    pub status: String,
}

pub struct JsonTranslationSheet {
    pub source_path: String,
    pub target_language: String,
    pub updated_epoch: u64,
    pub entries: Vec<JsonTranslationEntry>,
}

pub struct JsonSheetDto {
    pub source_path: String,
    pub target_language: String,
    pub updated_epoch: u64,
    pub entries: Vec<JsonEntryDto>,
}

/// An entry counts for translation unless it was removed or its source is blank.
pub open spec fn translatable_spec(e: JsonTranslationEntry) -> bool {
    e.status != JsonTranslationStatus::Removed && trim_seq(e.source_value@).len() > 0
}

pub fn json_entry_is_translatable(entry: &JsonTranslationEntry) -> (r: bool)
    ensures
        r == translatable_spec(*entry),
{
    entry.status != JsonTranslationStatus::Removed && trim(chars_of(entry.source_value.as_str()).as_slice()).len()
        > 0
}

/// The status that a status text names.
pub open spec fn status_of(text: Seq<char>) -> Option<JsonTranslationStatus> {
    if text == "new"@ {
        Some(JsonTranslationStatus::New)
    } else if text == "ready"@ {
        Some(JsonTranslationStatus::Ready)
    } else if text == "updated"@ {
        Some(JsonTranslationStatus::Updated)
    } else if text == "missing"@ {
        Some(JsonTranslationStatus::Missing)
    } else if text == "removed"@ {
        Some(JsonTranslationStatus::Removed)
    } else {
        None
    }
}

/// An entry from the editor; an unknown status is an error that names it.
pub fn json_entry_from_dto(entry: JsonEntryDto) -> (r: Result<JsonTranslationEntry, String>)
    ensures
        match r {
            Ok(e) => status_of(entry.status@) == Some(e.status) && e.key@ == entry.key@ && opt_view(e.slot_id)
                == opt_view(entry.slot_id) && e.source_value@ == entry.source_value@ && e.translated_value@
                == entry.translated_value@,
            Err(m) => status_of(entry.status@) is None && m@ == "알 수 없는 번역 상태: "@ + entry.status@,
        },
{
    let s = chars_of(entry.status.as_str());
    let status = if crate::language::is_text(s.as_slice(), "new") {
        JsonTranslationStatus::New
    } else if crate::language::is_text(s.as_slice(), "ready") {
        JsonTranslationStatus::Ready
    } else if crate::language::is_text(s.as_slice(), "updated") {
        JsonTranslationStatus::Updated
    } else if crate::language::is_text(s.as_slice(), "missing") {
        JsonTranslationStatus::Missing
    } else if crate::language::is_text(s.as_slice(), "removed") {
        JsonTranslationStatus::Removed
    } else {
        return Err(cat("알 수 없는 번역 상태: ", entry.status.as_str()));
    };
    Ok(
        JsonTranslationEntry {
            key: entry.key,
            slot_id: entry.slot_id,
            source_value: entry.source_value,
            translated_value: entry.translated_value,
            status,
        },
    )
}

pub fn json_entry_dto(entry: JsonTranslationEntry) -> (r: JsonEntryDto)
    ensures
        r.key@ == entry.key@,
        opt_view(r.slot_id) == opt_view(entry.slot_id),
        r.previous_source_value is None,
        r.source_value@ == entry.source_value@,
        r.translated_value@ == entry.translated_value@,
        r.status@ == status_label_spec(entry.status),
{
    JsonEntryDto {
        key: entry.key,
        slot_id: entry.slot_id,
        previous_source_value: None,
        source_value: entry.source_value,
        translated_value: entry.translated_value,
        status: status_label(entry.status).to_string(),
    }
}

/// A status text read back as the status it names gives that status.
pub proof fn lemma_status_round_trip(s: JsonTranslationStatus)
    ensures
        status_of(status_label_spec(s)) == Some(s),
{
    reveal_strlit("new");
    reveal_strlit("ready");
    reveal_strlit("updated");
    reveal_strlit("missing");
    reveal_strlit("removed");
    assert("new"@[0] == 'n' && "ready"@[0] == 'r' && "updated"@[0] == 'u' && "missing"@[0] == 'm'
        && "removed"@[0] == 'r');
    assert("ready"@.len() != "removed"@.len());
}

/// The sheet from the editor, stamped with `now` where the clock could be read and else
/// with the editor's time; the first entry with an unknown status makes it an error.
pub fn json_sheet_from_dto(sheet: JsonSheetDto, now: Option<u64>) -> (r: Result<JsonTranslationSheet, String>)
    ensures
        match r {
            Ok(s) => s.source_path@ == sheet.source_path@ && s.target_language@ == sheet.target_language@
                && s.updated_epoch == match now {
                Some(n) => n,
                None => sheet.updated_epoch,
            } && s.entries@.len() == sheet.entries@.len() && forall|i: int|
                0 <= i < s.entries@.len() ==> status_of(sheet.entries@[i].status@) == Some(
                    (#[trigger] s.entries@[i]).status,
                ) && s.entries@[i].key@ == sheet.entries@[i].key@ && s.entries@[i].source_value@
                    == sheet.entries@[i].source_value@ && s.entries@[i].translated_value@
                    == sheet.entries@[i].translated_value@,
            Err(m) => exists|i: int|
                0 <= i < sheet.entries@.len() && status_of(#[trigger] sheet.entries@[i].status@) is None && m@
                    == "알 수 없는 번역 상태: "@ + sheet.entries@[i].status@ && forall|j: int|
                    0 <= j < i ==> status_of(#[trigger] sheet.entries@[j].status@) is Some,
        },
{
    let mut entries: Vec<JsonTranslationEntry> = Vec::new();
    let mut i: usize = 0;
    while i < sheet.entries.len()
        invariant
            i <= sheet.entries@.len(),
            entries@.len() == i,
            forall|k: int|
                0 <= k < i ==> status_of(sheet.entries@[k].status@) == Some((#[trigger] entries@[k]).status)
                    && entries@[k].key@ == sheet.entries@[k].key@ && entries@[k].source_value@
                    == sheet.entries@[k].source_value@ && entries@[k].translated_value@
                    == sheet.entries@[k].translated_value@,
        decreases sheet.entries.len() - i,
    {
        let src = &sheet.entries[i];
        let e = JsonEntryDto {
            key: src.key.clone(),
            slot_id: crate::model::copy_opt(&src.slot_id),
            previous_source_value: crate::model::copy_opt(&src.previous_source_value),
            source_value: src.source_value.clone(),
            translated_value: src.translated_value.clone(),
            status: src.status.clone(),
        };
        match json_entry_from_dto(e) {
            Ok(x) => entries.push(x),
            Err(m) => {
                proof {
                    assert forall|j: int| 0 <= j < i implies status_of(#[trigger] sheet.entries@[j].status@) is Some by {
                        assert(status_of(sheet.entries@[j].status@) == Some(entries@[j].status));
                    }
                }
                return Err(m);
            },
        }
        i += 1;
    }
    let updated_epoch = match now {
        Some(n) => n,
        None => sheet.updated_epoch,
    };
    Ok(
        JsonTranslationSheet {
            source_path: sheet.source_path,
            target_language: sheet.target_language,
            updated_epoch,
            entries,
        },
    )
}

pub fn json_sheet_dto(sheet: JsonTranslationSheet) -> (r: JsonSheetDto)
    ensures
        r.source_path@ == sheet.source_path@,
        r.target_language@ == sheet.target_language@,
        r.updated_epoch == sheet.updated_epoch,
        r.entries@.len() == sheet.entries@.len(),
        forall|i: int|
            0 <= i < r.entries@.len() ==> (#[trigger] r.entries@[i]).status@ == status_label_spec(
                sheet.entries@[i].status,
            ) && r.entries@[i].key@ == sheet.entries@[i].key@ && r.entries@[i].source_value@
                == sheet.entries@[i].source_value@ && r.entries@[i].translated_value@
                == sheet.entries@[i].translated_value@,
{
    let ghost orig = sheet.entries@;
    let total = sheet.entries.len();
    let mut rest = sheet.entries;
    let mut entries: Vec<JsonEntryDto> = Vec::new();
    let mut i: usize = 0;
    while i < total
        invariant
            total == orig.len(),
            i <= total,
            rest@ == orig.skip(i as int),
            entries@.len() == i,
            forall|k: int|
                0 <= k < i ==> (#[trigger] entries@[k]).status@ == status_label_spec(orig[k].status)
                    && entries@[k].key@ == orig[k].key@ && entries@[k].source_value@ == orig[k].source_value@
                    && entries@[k].translated_value@ == orig[k].translated_value@,
        decreases total - i,
    {
        assert(rest@[0] == orig[i as int]);
        let e = rest.remove(0);
        assert(rest@ =~= orig.skip(i + 1));
        entries.push(json_entry_dto(e));
        i += 1;
    }
    JsonSheetDto {
        source_path: sheet.source_path,
        target_language: sheet.target_language,
        updated_epoch: sheet.updated_epoch,
        entries,
    }
}

/// The counts of a saved sheet.
pub struct JsonSheetReport {
    pub sheet_path: String,
    pub entries: usize,
    pub new_entries: usize,
    pub updated_entries: usize,
    pub missing_entries: usize,
    pub removed_entries: usize,
}

pub struct JsonSheetReportDto {
    pub sheet_path: String,
    pub entries: usize,
    pub new_entries: usize,
    pub updated_entries: usize,
    pub missing_entries: usize,
    pub removed_entries: usize,
}

pub fn json_report_dto(report: JsonSheetReport) -> (r: JsonSheetReportDto)
    ensures
        r.sheet_path@ == report.sheet_path@,
        r.entries == report.entries,
        r.new_entries == report.new_entries,
        r.updated_entries == report.updated_entries,
        r.missing_entries == report.missing_entries,
        r.removed_entries == report.removed_entries,
{
    JsonSheetReportDto {
        sheet_path: display_path(report.sheet_path.as_str()),
        entries: report.entries,
        new_entries: report.new_entries,
        updated_entries: report.updated_entries,
        missing_entries: report.missing_entries,
        removed_entries: report.removed_entries,
    }
}

/// Entries that count for translation and have a status; removed entries are counted
/// whatever their source.
pub open spec fn count_status(es: Seq<JsonTranslationEntry>, s: JsonTranslationStatus) -> nat
    decreases es.len(),
{
    if es.len() == 0 {
        0
    } else {
        count_status(es.drop_last(), s) + if es.last().status == s && (s == JsonTranslationStatus::Removed
            || translatable_spec(es.last())) {
            1nat
        } else {
            0nat
        }
    }
}

pub open spec fn count_translatable(es: Seq<JsonTranslationEntry>) -> nat
    decreases es.len(),
{
    if es.len() == 0 {
        0
    } else {
        count_translatable(es.drop_last()) + if translatable_spec(es.last()) {
            1nat
        } else {
            0nat
        }
    }
}

/// The report for a saved sheet: the translatable entries, and how many of them are new,
/// updated or missing, and how many entries were removed.
pub fn create_report_for_saved_sheet(path: &str, sheet: &JsonTranslationSheet) -> (r: JsonSheetReport)
    ensures
        r.sheet_path@ == path@,
        r.entries == count_translatable(sheet.entries@),
        r.new_entries == count_status(sheet.entries@, JsonTranslationStatus::New),
        r.updated_entries == count_status(sheet.entries@, JsonTranslationStatus::Updated),
        r.missing_entries == count_status(sheet.entries@, JsonTranslationStatus::Missing),
        r.removed_entries == count_status(sheet.entries@, JsonTranslationStatus::Removed),
{
    let mut entries: usize = 0;
    let mut new_entries: usize = 0;
    let mut updated_entries: usize = 0;
    let mut missing_entries: usize = 0;
    let mut removed_entries: usize = 0;
    let mut i: usize = 0;
    while i < sheet.entries.len()
        invariant
            i <= sheet.entries@.len(),
            entries == count_translatable(sheet.entries@.take(i as int)),
            new_entries == count_status(sheet.entries@.take(i as int), JsonTranslationStatus::New),
            updated_entries == count_status(sheet.entries@.take(i as int), JsonTranslationStatus::Updated),
            missing_entries == count_status(sheet.entries@.take(i as int), JsonTranslationStatus::Missing),
            removed_entries == count_status(sheet.entries@.take(i as int), JsonTranslationStatus::Removed),
            entries <= i,
            new_entries <= i,
            updated_entries <= i,
            missing_entries <= i,
            removed_entries <= i,
        decreases sheet.entries.len() - i,
    {
        let e = &sheet.entries[i];
        let translatable = json_entry_is_translatable(e);
        proof {
            let t = sheet.entries@.take(i + 1);
            assert(t.drop_last() =~= sheet.entries@.take(i as int));
            assert(t.last() == sheet.entries@[i as int]);
        }
        match e.status {
            JsonTranslationStatus::New => {
                if translatable {
                    new_entries += 1;
                }
            },
            JsonTranslationStatus::Updated => {
                if translatable {
                    updated_entries += 1;
                }
            },
            JsonTranslationStatus::Missing => {
                if translatable {
                    missing_entries += 1;
                }
            },
            JsonTranslationStatus::Removed => {
                removed_entries += 1;
            },
            JsonTranslationStatus::Ready => {},
        }
        if translatable {
            entries += 1;
        }
        i += 1;
    }
    assert(sheet.entries@.take(i as int) =~= sheet.entries@);
    JsonSheetReport {
        sheet_path: path.to_string(),
        entries,
        new_entries,
        updated_entries,
        missing_entries,
        removed_entries,
    }
}

pub open spec fn file_prefix() -> Seq<char> {
    "file://"@
}

/// The file and key of a sheet key: `file://FILE#KEY` names a key of another file, any
/// other key one of `source.json`.
pub open spec fn split_key_spec(key: Seq<char>) -> (Seq<char>, Seq<char>) {
    if key.len() >= 7 && key.take(7) == file_prefix() {
        let rest = key.skip(7);
        match crate::settings::split_once_spec(rest, '#') {
            Some((file, k)) => (file, k),
            None => (rest, Seq::empty()),
        }
    } else {
        ("source.json"@, key)
    }
}

pub fn split_translation_key(key: &str) -> (r: (String, String))
    ensures
        (r.0@, r.1@) == split_key_spec(key@),
{
    let k = chars_of(key);
    let p = chars_of("file://");
    proof {
        reveal_strlit("file://");
    }
    if !starts_with(k.as_slice(), p.as_slice()) {
        return ("source.json".to_string(), key.to_string());
    }
    let mut rest: Vec<char> = Vec::new();
    let mut i: usize = 7;
    while i < k.len()
        invariant
            7 <= i <= k@.len(),
            rest@ == k@.subrange(7, i as int),
        decreases k.len() - i,
    {
        rest.push(k[i]);
        i += 1;
        assert(rest@ =~= k@.subrange(7, i as int));
    }
    assert(rest@ =~= k@.skip(7));
    match crate::settings::split_once(rest.as_slice(), '#') {
        Some((a, b)) => (string_from(a.as_slice()), string_from(b.as_slice())),
        None => (string_from(rest.as_slice()), String::new()),
    }
}

pub open spec fn needs_quotes(v: Seq<char>) -> bool {
    exists|i: int| 0 <= i < v.len() && (v[i] == ',' || v[i] == '"' || v[i] == '\n' || v[i] == '\r')
}

pub open spec fn double_quotes(v: Seq<char>) -> Seq<char>
    decreases v.len(),
{
    if v.len() == 0 {
        Seq::empty()
    } else if v.last() == '"' {
        double_quotes(v.drop_last()) + seq!['"', '"']
    } else {
        double_quotes(v.drop_last()).push(v.last())
    }
}

/// A CSV field: quoted, with quotes doubled, where it holds a comma, quote or line break.
pub open spec fn csv_field_spec(v: Seq<char>) -> Seq<char> {
    if needs_quotes(v) {
        seq!['"'] + double_quotes(v) + seq!['"']
    } else {
        v
    }
}

pub fn csv_field(value: &str) -> (r: String)
    ensures
        r@ == csv_field_spec(value@),
{
    let v = chars_of(value);
    let mut quote = false;
    let mut body: Vec<char> = Vec::new();
    let mut i: usize = 0;
    while i < v.len()
        invariant
            i <= v@.len(),
            body@ == double_quotes(v@.take(i as int)),
            quote == exists|j: int| 0 <= j < i && (v@[j] == ',' || v@[j] == '"' || v@[j] == '\n' || v@[j] == '\r'),
        decreases v.len() - i,
    {
        let c = v[i];
        if c == ',' || c == '"' || c == '\n' || c == '\r' {
            quote = true;
        }
        if c == '"' {
            body.push('"');
            body.push('"');
        } else {
            body.push(c);
        }
        proof {
            assert(v@.take(i + 1).drop_last() =~= v@.take(i as int));
        }
        i += 1;
    }
    assert(v@.take(i as int) =~= v@);
    if quote {
        let mut out: Vec<char> = Vec::new();
        out.push('"');
        push_all(&mut out, body.as_slice());
        out.push('"');
        assert(out@ =~= seq!['"'] + double_quotes(value@) + seq!['"']);
        string_from(out.as_slice())
    } else {
        value.to_string()
    }
}

pub open spec fn sheet_stem(source: Seq<char>) -> Seq<char> {
    let raw = match file_name_spec(source) {
        Some(n) => stem_of(n),
        None => "translation"@,
    };
    let mapped = raw.map_values(|c: char| stem_char(c));
    join_seqs(nonempty_parts(split_seq(mapped, '-')), seq!['-'])
}

/// Where a new sheet for a source file is kept: `json_sheets` in the work folder, named by
/// the source's stem made safe and the target language.
pub open spec fn default_sheet_spec(config: &AppConfig, source: Seq<char>, target_language: Seq<char>) -> Seq<char> {
    join_name_spec(
        join_name_spec(config.translation_work_dir@, "json_sheets"@),
        sheet_stem(source) + seq!['.'] + target_language + ".translation.json"@,
    )
}

pub fn default_sheet_path(config: &AppConfig, source: &str, target_language: &str) -> (r: String)
    ensures
        r@ == default_sheet_spec(config, source@, target_language@),
{
    let raw = match file_name_exec(chars_of(source).as_slice()) {
        Some(n) => stem_exec(n.as_slice()),
        None => chars_of("translation"),
    };
    let ghost stem = raw@;
    let mut name = crate::deleted::stem_parts_joined(raw.as_slice());
    let ghost joined = name@;
    name.push('.');
    push_all(&mut name, chars_of(target_language).as_slice());
    push_all(&mut name, chars_of(".translation.json").as_slice());
    assert(joined == sheet_stem(source@));
    assert(name@ =~= sheet_stem(source@) + seq!['.'] + target_language@ + ".translation.json"@);
    let name = string_from(name.as_slice());
    let dir = join_name_str(config.translation_work_dir.as_str(), "json_sheets");
    join_name_str(dir.as_str(), name.as_str())
}


/// A translation applied to a mod, as the history remembers it.
pub struct TranslationApplyRecord {
    pub mod_key: String,
    pub target_language: String,
    pub applied_epoch: u64,
    pub applied_entries: usize,
    pub output_path: String,
    pub installed_mod_path: Option<String>,
    pub packed_pck_path: Option<String>,
}

pub struct ApplyView {
    pub mod_key: Seq<char>,
    pub target_language: Seq<char>,
    pub applied_epoch: u64,
    pub applied_entries: usize,
    pub output_path: Seq<char>,
    pub installed_mod_path: Option<Seq<char>>,
    pub packed_pck_path: Option<Seq<char>>,
}

impl View for TranslationApplyRecord {
    type V = ApplyView;

    open spec fn view(&self) -> ApplyView {
        ApplyView {
            mod_key: self.mod_key@,
            target_language: self.target_language@,
            applied_epoch: self.applied_epoch,
            applied_entries: self.applied_entries,
            output_path: self.output_path@,
            installed_mod_path: opt_view(self.installed_mod_path),
            packed_pck_path: opt_view(self.packed_pck_path),
        }
    }
}

pub fn translation_apply_history_path(config: &AppConfig) -> (r: String)
    ensures
        r@ == join_name_spec(config.state_dir@, "translation_apply_history.tsv"@),
{
    join_name_str(config.state_dir.as_str(), "translation_apply_history.tsv")
}

pub open spec fn optional_path_spec(v: Seq<char>) -> Option<Seq<char>> {
    if v.len() == 0 {
        None
    } else {
        Some(unescape_spec(v))
    }
}

/// An empty field is no path; another is an escaped path.
pub fn optional_unescaped_path(value: &str) -> (r: Option<String>)
    ensures
        opt_view(r) == optional_path_spec(value@),
{
    if value.is_empty() {
        None
    } else {
        Some(unescape_cache_field(value))
    }
}

pub open spec fn history_header() -> Seq<char> {
    "mod_key\ttarget_language\tapplied_epoch\tapplied_entries\toutput_path\tinstalled_mod_path\tpacked_pck_path"@
}

pub open spec fn opt_field(o: Option<Seq<char>>) -> Seq<char> {
    match o {
        Some(p) => escape_spec(p),
        None => Seq::empty(),
    }
}

pub open spec fn history_row(r: ApplyView) -> Seq<char> {
    join_seqs(
        seq![
            escape_spec(r.mod_key),
            escape_spec(r.target_language),
            dec_seq(r.applied_epoch as nat),
            dec_seq(r.applied_entries as nat),
            escape_spec(r.output_path),
            opt_field(r.installed_mod_path),
            opt_field(r.packed_pck_path),
        ],
        seq!['\t'],
    )
}

/// The history's text after a record is added: the text there was (a header where there
/// was none), closed by a line break, then the record's line.
pub open spec fn history_append_spec(existing: Option<Seq<char>>, r: ApplyView) -> Seq<char> {
    let base = match existing {
        Some(t) => t,
        None => history_header().push('\n'),
    };
    let closed = if base.len() > 0 && base.last() == '\n' { base } else { base.push('\n') };
    closed + history_row(r).push('\n')
}

fn opt_field_exec(o: &Option<String>) -> (r: Vec<char>)
    ensures
        r@ == opt_field(opt_view(*o)),
{
    match o {
        Some(p) => chars_of(escape_cache_field(p.as_str()).as_str()),
        None => Vec::new(),
    }
}

/// The history's text with a record added; `existing` is its text, where it exists.
pub fn write_translation_apply_record(existing: Option<&str>, record: &TranslationApplyRecord) -> (r: String)
    ensures
        r@ == history_append_spec(
            match existing {
                Some(t) => Some(t@),
                None => None,
            },
            record@,
        ),
{
    let mut out = match existing {
        Some(t) => chars_of(t),
        None => {
            let mut h = chars_of(
                "mod_key\ttarget_language\tapplied_epoch\tapplied_entries\toutput_path\tinstalled_mod_path\tpacked_pck_path",
            );
            h.push('\n');
            h
        },
    };
    if !(out.len() > 0 && out[out.len() - 1] == '\n') {
        out.push('\n');
    }
    let ghost closed = out@;
    let fields = [
        chars_of(escape_cache_field(record.mod_key.as_str()).as_str()),
        chars_of(escape_cache_field(record.target_language.as_str()).as_str()),
        format_u64(record.applied_epoch),
        format_u64(record.applied_entries as u64),
        chars_of(escape_cache_field(display_path(record.output_path.as_str()).as_str()).as_str()),
        opt_field_exec(&record.installed_mod_path),
        opt_field_exec(&record.packed_pck_path),
    ];
    let mut row: Vec<char> = Vec::new();
    push_all(&mut row, fields[0].as_slice());
    row.push('\t');
    push_all(&mut row, fields[1].as_slice());
    row.push('\t');
    push_all(&mut row, fields[2].as_slice());
    row.push('\t');
    push_all(&mut row, fields[3].as_slice());
    row.push('\t');
    push_all(&mut row, fields[4].as_slice());
    row.push('\t');
    push_all(&mut row, fields[5].as_slice());
    row.push('\t');
    push_all(&mut row, fields[6].as_slice());
    proof {
        let fs = seq![
            escape_spec(record@.mod_key),
            escape_spec(record@.target_language),
            dec_seq(record@.applied_epoch as nat),
            dec_seq(record@.applied_entries as nat),
            escape_spec(record@.output_path),
            opt_field(record@.installed_mod_path),
            opt_field(record@.packed_pck_path),
        ];
        reveal_with_fuel(join_seqs, 8);
        assert(fs.drop_last().drop_last().drop_last().drop_last().drop_last().drop_last() =~= seq![fs[0]]);
        assert(fs.drop_last().drop_last().drop_last().drop_last().drop_last() =~= seq![fs[0], fs[1]]);
        assert(fs.drop_last().drop_last().drop_last().drop_last() =~= seq![fs[0], fs[1], fs[2]]);
        assert(fs.drop_last().drop_last().drop_last() =~= seq![fs[0], fs[1], fs[2], fs[3]]);
        assert(fs.drop_last().drop_last() =~= seq![fs[0], fs[1], fs[2], fs[3], fs[4]]);
        assert(fs.drop_last() =~= seq![fs[0], fs[1], fs[2], fs[3], fs[4], fs[5]]);
        assert(row@ =~= history_row(record@));
    }
    push_all(&mut out, row.as_slice());
    out.push('\n');
    assert(out@ =~= history_append_spec(
        match existing {
            Some(t) => Some(t@),
            None => None,
        },
        record@,
    ));
    string_from(out.as_slice())
}

pub open spec fn parse_usize_spec(s: Seq<char>) -> Option<usize> {
    match parse_u64_spec(s) {
        Some(v) => if v <= usize::MAX {
            Some(v as usize)
        } else {
            None
        },
        None => None,
    }
}

/// One line of the history read back, where it has seven fields and two numbers.
pub open spec fn parse_history_row(line: Seq<char>) -> Option<ApplyView> {
    let parts = split_seq(line, '\t');
    if parts.len() != 7 {
        None
    } else {
        match (parse_u64_spec(parts[2]), parse_usize_spec(parts[3])) {
            (Some(e), Some(n)) => Some(
                ApplyView {
                    mod_key: unescape_spec(parts[0]),
                    target_language: unescape_spec(parts[1]),
                    applied_epoch: e,
                    applied_entries: n,
                    output_path: unescape_spec(parts[4]),
                    installed_mod_path: optional_path_spec(parts[5]),
                    packed_pck_path: optional_path_spec(parts[6]),
                },
            ),
            _ => None,
        }
    }
}

pub open spec fn history_rows(content: Seq<char>) -> Seq<Seq<char>> {
    let ls = lines_seq(content);
    if ls.len() > 0 && ls[0].len() >= 8 && ls[0].take(8) == "mod_key\t"@ {
        ls.skip(1)
    } else {
        ls
    }
}

/// The record a key ends with after reading the rows in order: a row replaces the record
/// kept so far only when it was applied later.
pub open spec fn latest_record(rows: Seq<Seq<char>>, key: Seq<char>) -> Option<ApplyView>
    decreases rows.len(),
{
    if rows.len() == 0 {
        None
    } else {
        let prev = latest_record(rows.drop_last(), key);
        match parse_history_row(rows.last()) {
            Some(r) => if r.mod_key == key && (prev is None || prev->0.applied_epoch < r.applied_epoch) {
                Some(r)
            } else {
                prev
            },
            None => prev,
        }
    }
}

pub open spec fn history_index_ok(content: Seq<char>, out: Seq<TranslationApplyRecord>) -> bool {
    &&& forall|i: int, j: int| 0 <= i < j < out.len() ==> out[i].mod_key@ != out[j].mod_key@
    &&& forall|i: int| 0 <= i < out.len() ==> latest_record(history_rows(content), (#[trigger] out[i]).mod_key@) == Some(out[i]@)
    &&& forall|k: Seq<char>|
        #[trigger] latest_record(history_rows(content), k) is Some ==> exists|i: int| 0 <= i < out.len() && (#[trigger] out[i]).mod_key@ == k
}

fn parse_history_row_exec(line: &[char]) -> (r: Option<TranslationApplyRecord>)
    ensures
        match r {
            Some(x) => parse_history_row(line@) == Some(x@),
            None => parse_history_row(line@) is None,
        },
{
    let parts = split_char(line, '\t');
    if parts.len() != 7 {
        return None;
    }
    let e = match parse_u64(parts[2].as_slice()) {
        Some(e) => e,
        None => return None,
    };
    let n = match parse_u64(parts[3].as_slice()) {
        Some(n) => if n <= usize::MAX as u64 {
            n as usize
        } else {
            return None;
        },
        None => return None,
    };
    Some(
        TranslationApplyRecord {
            mod_key: unescape_cache_field(string_from(parts[0].as_slice()).as_str()),
            target_language: unescape_cache_field(string_from(parts[1].as_slice()).as_str()),
            applied_epoch: e,
            applied_entries: n,
            output_path: unescape_cache_field(string_from(parts[4].as_slice()).as_str()),
            installed_mod_path: optional_unescaped_path(string_from(parts[5].as_slice()).as_str()),
            packed_pck_path: optional_unescaped_path(string_from(parts[6].as_slice()).as_str()),
        },
    )
}

/// The latest applied translation of each mod in the history's text, each mod once.
pub fn read_translation_apply_index(content: &str) -> (r: Vec<TranslationApplyRecord>)
    ensures
        history_index_ok(content@, r@),
{
    let c = chars_of(content);
    let ls = lines(c.as_slice());
    let ghost lq = lines_seq(content@);
    let mut start: usize = 0;
    if ls.len() > 0 {
        let h = chars_of("mod_key\t");
        proof {
            reveal_strlit("mod_key\t");
        }
        if starts_with(ls[0].as_slice(), h.as_slice()) {
            start = 1;
        }
        proof {
            assert(ls@[0]@ == lq[0]);
        }
    }
    let ghost rows = history_rows(content@);
    assert(rows == lq.skip(start as int)) by {
        if start == 0 {
            assert(lq.skip(0) =~= lq);
        }
    }
    let mut out: Vec<TranslationApplyRecord> = Vec::new();
    let mut i: usize = start;
    while i < ls.len()
        invariant
            start <= i <= ls@.len(),
            ls@.len() == lq.len(),
            forall|k: int| 0 <= k < ls@.len() ==> #[trigger] ls@[k]@ == lq[k],
            rows == lq.skip(start as int),
            forall|a: int, b: int| 0 <= a < b < out@.len() ==> out@[a].mod_key@ != out@[b].mod_key@,
            forall|a: int| 0 <= a < out@.len() ==> latest_record(rows.take(i - start), (#[trigger] out@[a]).mod_key@) == Some(out@[a]@),
            forall|k: Seq<char>| #[trigger] latest_record(rows.take(i - start), k) is Some ==> exists|a: int| 0 <= a < out@.len() && (#[trigger] out@[a]).mod_key@ == k,
        decreases ls.len() - i,
    {
        let ghost pre = rows.take(i - start);
        let ghost nxt = rows.take(i + 1 - start);
        proof {
            assert(nxt.drop_last() =~= pre);
            assert(nxt.last() == lq[i as int]);
        }
        match parse_history_row_exec(ls[i].as_slice()) {
            None => {
                proof {
                    assert forall|k: Seq<char>| latest_record(nxt, k) == latest_record(pre, k) by {}
                }
            },
            Some(rec) => {
                let key = chars_of(rec.mod_key.as_str());
                let mut j: usize = 0;
                while j < out.len() && !seq_eq(chars_of(out[j].mod_key.as_str()).as_slice(), key.as_slice())
                    invariant
                        j <= out@.len(),
                        key@ == rec.mod_key@,
                        forall|m: int| 0 <= m < j ==> (#[trigger] out@[m]).mod_key@ != rec.mod_key@,
                    decreases out.len() - j,
                {
                    j += 1;
                }
                let ghost before = out@;
                proof {
                    assert forall|k: Seq<char>| k != rec.mod_key@ implies latest_record(nxt, k) == latest_record(pre, k) by {}
                }
                if j < out.len() {
                    if out[j].applied_epoch < rec.applied_epoch {
                        out.set(j, rec);
                    }
                    proof {
                        assert(before[j as int].mod_key@ == rec@.mod_key);
                        assert forall|a: int| 0 <= a < out@.len() implies latest_record(nxt, (#[trigger] out@[a]).mod_key@) == Some(out@[a]@) by {
                            if a != j {
                                assert(out@[a] == before[a]);
                                assert(before[a].mod_key@ != before[j as int].mod_key@);
                            }
                        }
                        assert forall|k: Seq<char>| latest_record(nxt, k) is Some implies exists|a: int| 0 <= a < out@.len() && (#[trigger] out@[a]).mod_key@ == k by {
                            if k == rec@.mod_key {
                                assert(out@[j as int].mod_key@ == k);
                            } else {
                                let a = choose|a: int| 0 <= a < before.len() && (#[trigger] before[a]).mod_key@ == k;
                                if a == j {
                                    assert(out@[a].mod_key@ == before[a].mod_key@);
                                } else {
                                    assert(out@[a] == before[a]);
                                }
                            }
                        }
                        assert forall|a: int, b: int| 0 <= a < b < out@.len() implies out@[a].mod_key@ != out@[b].mod_key@ by {
                            assert(out@[a].mod_key@ == before[a].mod_key@ && out@[b].mod_key@ == before[b].mod_key@);
                        }
                    }
                } else {
                    proof {
                        if latest_record(pre, rec@.mod_key) is Some {
                            let a = choose|a: int| 0 <= a < before.len() && (#[trigger] before[a]).mod_key@ == rec@.mod_key;
                            assert(before[a].mod_key@ != rec@.mod_key);
                        }
                    }
                    out.push(rec);
                    proof {
                        assert forall|a: int| 0 <= a < out@.len() implies latest_record(nxt, (#[trigger] out@[a]).mod_key@) == Some(out@[a]@) by {
                            if a < before.len() {
                                assert(out@[a] == before[a]);
                            }
                        }
                        assert forall|k: Seq<char>| latest_record(nxt, k) is Some implies exists|a: int| 0 <= a < out@.len() && (#[trigger] out@[a]).mod_key@ == k by {
                            if k == out@[before.len() as int].mod_key@ {
                            } else {
                                let a = choose|a: int| 0 <= a < before.len() && (#[trigger] before[a]).mod_key@ == k;
                                assert(out@[a] == before[a]);
                            }
                        }
                        assert forall|a: int, b: int| 0 <= a < b < out@.len() implies out@[a].mod_key@ != out@[b].mod_key@ by {
                            if b == before.len() {
                                assert(out@[a] == before[a]);
                            } else {
                                assert(out@[a] == before[a] && out@[b] == before[b]);
                            }
                        }
                    }
                }
            },
        }
        i += 1;
    }
    assert(rows.take(i - start) =~= rows);
    out
}


pub struct JsonValidationIssue {
    pub key: String,
    pub kind: String,
    pub message: String,
}

/// What checking a sheet found.
pub struct JsonValidationReport {
    pub valid: bool,
    pub total_entries: usize,
    pub missing_entries: Vec<String>,
    pub updated_entries: Vec<String>,
    pub removed_entries: Vec<String>,
    pub format_issues: Vec<JsonValidationIssue>,
}

pub struct JsonValidationIssueDto {
    pub key: String,
    pub kind: String,
    pub message: String,
}

pub struct JsonValidationDto {
    pub valid: bool,
    pub total_entries: usize,
    pub missing_entries: Vec<String>,
    pub updated_entries: Vec<String>,
    pub removed_entries: Vec<String>,
    pub format_issues: Vec<JsonValidationIssueDto>,
}

pub fn json_validation_dto(report: JsonValidationReport) -> (r: JsonValidationDto)
    ensures
        r.valid == report.valid,
        r.total_entries == report.total_entries,
        r.missing_entries == report.missing_entries,
        r.updated_entries == report.updated_entries,
        r.removed_entries == report.removed_entries,
        r.format_issues@.len() == report.format_issues@.len(),
        forall|i: int|
            0 <= i < r.format_issues@.len() ==> (#[trigger] r.format_issues@[i]).key@ == report.format_issues@[i].key@
                && r.format_issues@[i].kind@ == report.format_issues@[i].kind@ && r.format_issues@[i].message@
                == report.format_issues@[i].message@,
{
    let mut issues: Vec<JsonValidationIssueDto> = Vec::new();
    let mut i: usize = 0;
    while i < report.format_issues.len()
        invariant
            i <= report.format_issues@.len(),
            issues@.len() == i,
            forall|k: int|
                0 <= k < i ==> (#[trigger] issues@[k]).key@ == report.format_issues@[k].key@ && issues@[k].kind@
                    == report.format_issues@[k].kind@ && issues@[k].message@ == report.format_issues@[k].message@,
        decreases report.format_issues.len() - i,
    {
        let it = &report.format_issues[i];
        issues.push(
            JsonValidationIssueDto { key: it.key.clone(), kind: it.kind.clone(), message: it.message.clone() },
        );
        i += 1;
    }
    JsonValidationDto {
        valid: report.valid,
        total_entries: report.total_entries,
        missing_entries: report.missing_entries,
        updated_entries: report.updated_entries,
        removed_entries: report.removed_entries,
        format_issues: issues,
    }
}

/// What applying a sheet produced.
pub struct PckPatchReport {
    pub language_output_path: String,
    pub packed_pck_path: Option<String>,
    pub installed_mod_path: Option<String>,
    pub applied_entries: usize,
}

pub struct JsonApplyDto {
    pub output_path: String,
    pub applied_entries: usize,
    pub language_output_path: String,
    pub packed_pck_path: String,
    pub installed_mod_path: String,
}

/// The result of applying a sheet: the packed PCK where one was made, else the language
/// folder; missing paths are shown empty.
pub fn json_apply_dto(report: PckPatchReport) -> (r: JsonApplyDto)
    ensures
        r.output_path@ == match report.packed_pck_path {
            Some(p) => p@,
            None => report.language_output_path@,
        },
        r.applied_entries == report.applied_entries,
        r.language_output_path@ == report.language_output_path@,
        r.packed_pck_path@ == crate::settings::opt_text(report.packed_pck_path),
        r.installed_mod_path@ == crate::settings::opt_text(report.installed_mod_path),
{
    let output_path = match &report.packed_pck_path {
        Some(p) => display_path(p.as_str()),
        None => display_path(report.language_output_path.as_str()),
    };
    let packed = match &report.packed_pck_path {
        Some(p) => display_path(p.as_str()),
        None => String::new(),
    };
    let installed = match &report.installed_mod_path {
        Some(p) => display_path(p.as_str()),
        None => String::new(),
    };
    JsonApplyDto {
        output_path,
        applied_entries: report.applied_entries,
        language_output_path: display_path(report.language_output_path.as_str()),
        packed_pck_path: packed,
        installed_mod_path: installed,
    }
}

pub struct JsonImportReport {
    pub input_path: String,
    pub matched_entries: usize,
    pub unmatched_entries: usize,
}

pub struct JsonImportDto {
    pub input_path: String,
    pub matched_entries: usize,
    pub unmatched_entries: usize,
}

pub fn json_import_dto(report: JsonImportReport) -> (r: JsonImportDto)
    ensures
        r.input_path@ == report.input_path@,
        r.matched_entries == report.matched_entries,
        r.unmatched_entries == report.unmatched_entries,
{
    JsonImportDto {
        input_path: display_path(report.input_path.as_str()),
        matched_entries: report.matched_entries,
        unmatched_entries: report.unmatched_entries,
    }
}

/// The mod a sheet belongs to: the one its translation context names, else the folder
/// after `selected` in its source path. `context_mod_key` is the context's key, where a
/// context was read.
pub fn mod_key_for_translation_sheet(context_mod_key: Option<String>, source_path: &str) -> (r: Option<String>)
    ensures
        opt_view(r) == match context_mod_key {
            Some(k) => Some(k@),
            None => crate::paths::after_named_spec(source_path@, crate::paths::selected_name()),
        },
{
    match context_mod_key {
        Some(k) => Some(k),
        None => crate::paths::mod_key_from_selected_source(source_path),
    }
}

/// Where the patched file of a hard-coded source is written: `patched` beside the sheet,
/// under the source's file name (`translated.dll` where it has none).
pub open spec fn hardcoded_output_spec(sheet_path: Seq<char>, source_path: Seq<char>) -> Seq<char> {
    let name = match file_name_spec(source_path) {
        Some(n) => n,
        None => "translated.dll"@,
    };
    let dir = match crate::paths::parent_spec(sheet_path) {
        Some(p) => p,
        None => seq!['.'],
    };
    join_name_spec(join_name_spec(dir, "patched"@), name)
}

pub fn default_hardcoded_output_path(sheet_path: &str, source_path: &str) -> (r: String)
    ensures
        r@ == hardcoded_output_spec(sheet_path@, source_path@),
{
    let name = match file_name_exec(chars_of(source_path).as_slice()) {
        Some(n) => string_from(n.as_slice()),
        None => "translated.dll".to_string(),
    };
    let dir = match crate::paths::parent_chars(chars_of(sheet_path).as_slice()) {
        Some(p) => string_from(p.as_slice()),
        None => {
            let mut d: Vec<char> = Vec::new();
            d.push('.');
            string_from(d.as_slice())
        },
    };
    let p = join_name_str(dir.as_str(), "patched");
    join_name_str(p.as_str(), name.as_str())
}

/// A sheet entry at the place the editor numbers it.
pub struct TranslationSlot {
    pub id: String,
    pub entry: JsonTranslationEntry,
}

pub open spec fn csv_header() -> Seq<char> {
    "id,source_value,translated_value,status,file,key"@
}

/// One CSV row: slot id, source, translation, status, then the file and key of the entry.
pub open spec fn csv_row_spec(s: TranslationSlot) -> Seq<char> {
    let (file, key) = split_key_spec(s.entry.key@);
    join_seqs(
        seq![
            csv_field_spec(s.id@),
            csv_field_spec(s.entry.source_value@),
            csv_field_spec(s.entry.translated_value@),
            csv_field_spec(status_label_spec(s.entry.status)),
            csv_field_spec(file),
            csv_field_spec(key),
        ],
        seq![','],
    )
}

pub open spec fn csv_rows_spec(slots: Seq<TranslationSlot>) -> Seq<Seq<char>> {
    Seq::new(slots.len(), |i: int| csv_row_spec(slots[i]))
}

/// The CSV text of the slots: the header line, then one line per slot, each ended by a
/// line break.
pub open spec fn translation_csv_spec(slots: Seq<TranslationSlot>) -> Seq<char> {
    terminated(seq![csv_header()] + csv_rows_spec(slots))
}

proof fn lemma_join_six(a: Seq<Seq<char>>, sep: Seq<char>)
    requires
        a.len() == 6,
    ensures
        join_seqs(a, sep) == a[0] + sep + a[1] + sep + a[2] + sep + a[3] + sep + a[4] + sep + a[5],
{
    let t1 = a.take(1);
    let t2 = a.take(2);
    let t3 = a.take(3);
    let t4 = a.take(4);
    let t5 = a.take(5);
    assert(t2.drop_last() =~= t1);
    assert(t3.drop_last() =~= t2);
    assert(t4.drop_last() =~= t3);
    assert(t5.drop_last() =~= t4);
    assert(a.drop_last() =~= t5);
    assert(join_seqs(t1, sep) == a[0]);
    assert(join_seqs(t2, sep) == a[0] + sep + a[1]);
    assert(join_seqs(t3, sep) == a[0] + sep + a[1] + sep + a[2]);
    assert(join_seqs(t4, sep) == a[0] + sep + a[1] + sep + a[2] + sep + a[3]);
    assert(join_seqs(t5, sep) == a[0] + sep + a[1] + sep + a[2] + sep + a[3] + sep + a[4]);
}

fn push_csv_field(out: &mut Vec<char>, value: &str)
    ensures
        final(out)@ == old(out)@ + csv_field_spec(value@),
{
    let f = csv_field(value);
    let c = chars_of(f.as_str());
    push_all(out, c.as_slice());
}

fn csv_row(slot: &TranslationSlot) -> (r: Vec<char>)
    ensures
        r@ == csv_row_spec(*slot),
{
    let (file, key) = split_translation_key(slot.entry.key.as_str());
    let mut out: Vec<char> = Vec::new();
    push_csv_field(&mut out, slot.id.as_str());
    out.push(',');
    push_csv_field(&mut out, slot.entry.source_value.as_str());
    out.push(',');
    push_csv_field(&mut out, slot.entry.translated_value.as_str());
    out.push(',');
    push_csv_field(&mut out, status_label(slot.entry.status));
    out.push(',');
    push_csv_field(&mut out, file.as_str());
    out.push(',');
    push_csv_field(&mut out, key.as_str());
    proof {
        let (fs, ks) = split_key_spec(slot.entry.key@);
        let parts = seq![
            csv_field_spec(slot.id@),
            csv_field_spec(slot.entry.source_value@),
            csv_field_spec(slot.entry.translated_value@),
            csv_field_spec(status_label_spec(slot.entry.status)),
            csv_field_spec(fs),
            csv_field_spec(ks),
        ];
        lemma_join_six(parts, seq![',']);
        assert(out@ =~= parts[0] + seq![','] + parts[1] + seq![','] + parts[2] + seq![','] + parts[3]
            + seq![','] + parts[4] + seq![','] + parts[5]);
    }
    out
}

/// The CSV export of a sheet's slots, as the translation editor hands them over.
pub fn translation_csv(slots: &Vec<TranslationSlot>) -> (r: String)
    ensures
        r@ == translation_csv_spec(slots@),
{
    let mut out: Vec<char> = Vec::new();
    let h = chars_of("id,source_value,translated_value,status,file,key");
    push_all(&mut out, h.as_slice());
    out.push('\n');
    let ghost mut ls: Seq<Seq<char>> = seq![csv_header()];
    proof {
        assert(seq![csv_header()].drop_last() =~= Seq::<Seq<char>>::empty());
        assert(terminated(Seq::<Seq<char>>::empty()) == Seq::<char>::empty());
        assert(h@ == csv_header());
        assert(out@ =~= terminated(ls));
    }
    let mut i: usize = 0;
    while i < slots.len()
        invariant
            i <= slots@.len(),
            ls == seq![csv_header()] + csv_rows_spec(slots@).take(i as int),
            out@ == terminated(ls),
        decreases slots.len() - i,
    {
        let row = csv_row(&slots[i]);
        push_all(&mut out, row.as_slice());
        out.push('\n');
        proof {
            lemma_terminated_push(ls, row@);
            ls = ls.push(row@);
            assert(ls =~= seq![csv_header()] + csv_rows_spec(slots@).take(i + 1));
            assert(out@ =~= terminated(ls));
        }
        i += 1;
    }
    proof {
        assert(csv_rows_spec(slots@).take(slots@.len() as int) =~= csv_rows_spec(slots@));
    }
    string_from(out.as_slice())
}

/// Law of ties in the apply history: the record a mod key ends with is its earliest row among
/// those applied latest; every earlier row of that key was applied before it.
pub proof fn lemma_latest_record_first_of_ties(rows: Seq<Seq<char>>, key: Seq<char>)
    ensures
        latest_record(rows, key) is Some ==> exists|i0: int|
            0 <= i0 < rows.len() && parse_history_row(#[trigger] rows[i0]) == latest_record(rows, key) && forall|j: int|
                0 <= j < i0 && (#[trigger] parse_history_row(rows[j])) is Some && parse_history_row(rows[j])->0.mod_key
                    == key ==> parse_history_row(rows[j])->0.applied_epoch < latest_record(rows, key)->0.applied_epoch,
    decreases rows.len(),
{
    if rows.len() > 0 {
        let init = rows.drop_last();
        lemma_latest_record_first_of_ties(init, key);
        lemma_latest_record_is_latest(init, key);
        let prev = latest_record(init, key);
        let cur = latest_record(rows, key);
        if cur is Some {
            if prev == cur {
                let i0 = choose|i0: int|
                    0 <= i0 < init.len() && parse_history_row(#[trigger] init[i0]) == latest_record(init, key) && forall|
                        j: int,
                    |
                        0 <= j < i0 && (#[trigger] parse_history_row(init[j])) is Some && parse_history_row(
                            init[j],
                        )->0.mod_key == key ==> parse_history_row(init[j])->0.applied_epoch < latest_record(
                            init,
                            key,
                        )->0.applied_epoch;
                assert(rows[i0] == init[i0]);
                assert forall|j: int|
                    0 <= j < i0 && (#[trigger] parse_history_row(rows[j])) is Some && parse_history_row(rows[j])->0.mod_key
                        == key implies parse_history_row(rows[j])->0.applied_epoch < cur->0.applied_epoch by {
                    assert(rows[j] == init[j]);
                }
            } else {
                let i0 = rows.len() - 1;
                assert(parse_history_row(rows[i0]) == cur);
                assert forall|j: int|
                    0 <= j < i0 && (#[trigger] parse_history_row(rows[j])) is Some && parse_history_row(rows[j])->0.mod_key
                        == key implies parse_history_row(rows[j])->0.applied_epoch < cur->0.applied_epoch by {
                    assert(rows[j] == init[j]);
                    assert(parse_history_row(init[j]) == parse_history_row(rows[j]));
                }
            }
        }
    }
}

/// Law of the apply history: the record a mod key ends with is one of its rows, and no row
/// of that key was applied later than it; a key with a row has a record.
pub proof fn lemma_latest_record_is_latest(rows: Seq<Seq<char>>, key: Seq<char>)
    ensures
        latest_record(rows, key) matches Some(r) ==> r.mod_key == key && exists|i: int|
            0 <= i < rows.len() && parse_history_row(#[trigger] rows[i]) == Some(r),
        forall|i: int|
            0 <= i < rows.len() && (#[trigger] parse_history_row(rows[i])) is Some && parse_history_row(rows[i])->0.mod_key
                == key ==> latest_record(rows, key) is Some && parse_history_row(rows[i])->0.applied_epoch <= latest_record(
                rows,
                key,
            )->0.applied_epoch,
    decreases rows.len(),
{
    if rows.len() > 0 {
        let init = rows.drop_last();
        lemma_latest_record_is_latest(init, key);
        let prev = latest_record(init, key);
        let cur = latest_record(rows, key);
        if let Some(r) = cur {
            if prev == cur {
                let i = choose|i: int| 0 <= i < init.len() && parse_history_row(#[trigger] init[i]) == Some(r);
                assert(rows[i] == init[i]);
            } else {
                assert(parse_history_row(rows[rows.len() - 1]) == Some(r));
            }
        }
        assert forall|i: int|
            0 <= i < rows.len() && (#[trigger] parse_history_row(rows[i])) is Some && parse_history_row(rows[i])->0.mod_key
                == key implies latest_record(rows, key) is Some && parse_history_row(rows[i])->0.applied_epoch
                <= latest_record(rows, key)->0.applied_epoch by {
            if i < rows.len() - 1 {
                assert(rows[i] == init[i]);
                assert(parse_history_row(init[i]) == parse_history_row(rows[i]));
            }
        }
    }
}

} // verus!
