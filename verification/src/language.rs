//! Language codes found in mod files, and their labels.
use vstd::prelude::*;
use crate::text::{chars_of, seq_eq};

verus! {

broadcast use vstd::string::group_string_axioms;

/// Whether some characters spell a given text.
pub fn is_text(t: &[char], lit: &str) -> (r: bool)
    ensures
        r == (t@ == lit@),
{
    let l = chars_of(lit);
    seq_eq(t, l.as_slice())
}

/// The language code that a file-name token stands for.
pub open spec fn normalize_language_code_spec(t: Seq<char>) -> Seq<char> {
    if t == "kr"@ || t == "kor"@ || t == "korean"@ {
        "kor"@
    } else if t == "eng"@ || t == "english"@ {
        "en"@
    } else if t == "jpn"@ || t == "jp"@ || t == "japanese"@ {
        "ja"@
    } else if t == "zhs"@ || t == "chs"@ || t == "sc"@ || t == "simplified"@ {
        "zh-cn"@
    } else if t == "zht"@ || t == "cht"@ || t == "tc"@ || t == "traditional"@ {
        "zh-tw"@
    } else if t == "deu"@ || t == "ger"@ || t == "german"@ {
        "de"@
    } else if t == "fra"@ || t == "fre"@ || t == "french"@ {
        "fr"@
    } else if t == "spa"@ || t == "spanish"@ {
        "es"@
    } else if t == "rus"@ || t == "russian"@ {
        "ru"@
    } else if t == "por"@ || t == "portuguese"@ {
        "pt"@
    } else if t == "italian"@ {
        "it"@
    } else {
        t
    }
}

pub fn normalize_language_code(token: &str) -> (r: String)
    ensures
        r@ == normalize_language_code_spec(token@),
{
    let t = chars_of(token);
    let t = t.as_slice();
    if is_text(t, "kr") || is_text(t, "kor") || is_text(t, "korean") {
        "kor".to_string()
    } else if is_text(t, "eng") || is_text(t, "english") {
        "en".to_string()
    } else if is_text(t, "jpn") || is_text(t, "jp") || is_text(t, "japanese") {
        "ja".to_string()
    } else if is_text(t, "zhs") || is_text(t, "chs") || is_text(t, "sc") || is_text(t, "simplified") {
        "zh-cn".to_string()
    } else if is_text(t, "zht") || is_text(t, "cht") || is_text(t, "tc") || is_text(t, "traditional") {
        "zh-tw".to_string()
    } else if is_text(t, "deu") || is_text(t, "ger") || is_text(t, "german") {
        "de".to_string()
    } else if is_text(t, "fra") || is_text(t, "fre") || is_text(t, "french") {
        "fr".to_string()
    } else if is_text(t, "spa") || is_text(t, "spanish") {
        "es".to_string()
    } else if is_text(t, "rus") || is_text(t, "russian") {
        "ru".to_string()
    } else if is_text(t, "por") || is_text(t, "portuguese") {
        "pt".to_string()
    } else if is_text(t, "italian") {
        "it".to_string()
    } else {
        token.to_string()
    }
}

pub open spec fn is_known_language_code_spec(c: Seq<char>) -> bool {
    ||| c == "ko"@
    ||| c == "kor"@
    ||| c == "en"@
    ||| c == "ja"@
    ||| c == "zh"@
    ||| c == "zh-cn"@
    ||| c == "zh-tw"@
    ||| c == "de"@
    ||| c == "fr"@
    ||| c == "es"@
    ||| c == "ru"@
    ||| c == "pt"@
    ||| c == "it"@
    ||| c == "pl"@
    ||| c == "tr"@
    ||| c == "vi"@
    ||| c == "th"@
    ||| c == "id"@
}

pub fn is_known_language_code(code: &str) -> (r: bool)
    ensures
        r == is_known_language_code_spec(code@),
{
    let c = chars_of(code);
    let c = c.as_slice();
    is_text(c, "ko") || is_text(c, "kor") || is_text(c, "en") || is_text(c, "ja") || is_text(c, "zh")
        || is_text(c, "zh-cn") || is_text(c, "zh-tw") || is_text(c, "de") || is_text(c, "fr")
        || is_text(c, "es") || is_text(c, "ru") || is_text(c, "pt") || is_text(c, "it") || is_text(
        c,
        "pl",
    ) || is_text(c, "tr") || is_text(c, "vi") || is_text(c, "th") || is_text(c, "id")
}

/// The name of a language in that language.
pub open spec fn language_label_spec(c: Seq<char>) -> Seq<char> {
    if c == "ko"@ || c == "kor"@ {
        "한국어"@
    } else if c == "en"@ {
        "English"@
    } else if c == "ja"@ {
        "日本語"@
    } else if c == "zh"@ || c == "zh-cn"@ {
        "简体中文"@
    } else if c == "zh-tw"@ {
        "繁體中文"@
    } else if c == "de"@ {
        "Deutsch"@
    } else if c == "fr"@ {
        "Français"@
    } else if c == "es"@ {
        "Español"@
    } else if c == "ru"@ {
        "Русский"@
    } else if c == "pt"@ {
        "Português"@
    } else if c == "it"@ {
        "Italiano"@
    } else if c == "pl"@ {
        "Polski"@
    } else if c == "tr"@ {
        "Türkçe"@
    } else if c == "vi"@ {
        "Tiếng Việt"@
    } else if c == "th"@ {
        "ไทย"@
    } else if c == "id"@ {
        "Indonesia"@
    } else {
        "Unknown"@
    }
}

pub fn language_label(code: &str) -> (r: &'static str)
    ensures
        r@ == language_label_spec(code@),
{
    let c = chars_of(code);
    let c = c.as_slice();
    if is_text(c, "ko") || is_text(c, "kor") {
        "한국어"
    } else if is_text(c, "en") {
        "English"
    } else if is_text(c, "ja") {
        "日本語"
    } else if is_text(c, "zh") || is_text(c, "zh-cn") {
        "简体中文"
    } else if is_text(c, "zh-tw") {
        "繁體中文"
    } else if is_text(c, "de") {
        "Deutsch"
    } else if is_text(c, "fr") {
        "Français"
    } else if is_text(c, "es") {
        "Español"
    } else if is_text(c, "ru") {
        "Русский"
    } else if is_text(c, "pt") {
        "Português"
    } else if is_text(c, "it") {
        "Italiano"
    } else if is_text(c, "pl") {
        "Polski"
    } else if is_text(c, "tr") {
        "Türkçe"
    } else if is_text(c, "vi") {
        "Tiếng Việt"
    } else if is_text(c, "th") {
        "ไทย"
    } else if is_text(c, "id") {
        "Indonesia"
    } else {
        "Unknown"
    }
}

/// The target language as settings keep it: `ko` is written `kor`.
pub open spec fn normalize_target_language_spec(v: Seq<char>) -> Seq<char> {
    if v == "ko"@ {
        "kor"@
    } else {
        v
    }
}

pub fn normalize_target_language(value: &str) -> (r: String)
    ensures
        r@ == normalize_target_language_spec(value@),
{
    let v = chars_of(value);
    if is_text(v.as_slice(), "ko") {
        "kor".to_string()
    } else {
        value.to_string()
    }
}

} // verus!
