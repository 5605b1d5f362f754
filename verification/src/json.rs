//! JSON as the manager reads mod manifests: comments stripped from the text, and a value
//! model that the manifest rules read and update.
use vstd::prelude::*;
use crate::text::{chars_of, string_from, seq_eq, trim, trim_seq};

verus! {

broadcast use vstd::string::group_string_axioms;

/// Where the comment stripper stands after some characters.
pub enum StripState {
    /// Outside strings and comments.
    Code,
    /// A `/` was read outside a string; the next character says whether a comment starts.
    Slash,
    /// Inside a string; `escaped` after a backslash.
    InString { escaped: bool },
    /// Inside a `//` comment.
    LineComment,
    /// Inside a `/* */` comment; `star` after a `*`.
    BlockComment { star: bool },
}

/// One character read in `Code`: a quote opens a string, a slash waits for the next one.
pub open spec fn code_step(c: char) -> (StripState, Seq<char>) {
    if c == '"' {
        (StripState::InString { escaped: false }, seq![c])
    } else if c == '/' {
        (StripState::Slash, Seq::empty())
    } else {
        (StripState::Code, seq![c])
    }
}

/// One character read: the next state and what is written.
pub open spec fn strip_step(st: StripState, c: char) -> (StripState, Seq<char>) {
    match st {
        StripState::Code => code_step(c),
        StripState::Slash => if c == '/' {
            (StripState::LineComment, Seq::empty())
        } else if c == '*' {
            (StripState::BlockComment { star: false }, Seq::empty())
        } else {
            (code_step(c).0, seq!['/'] + code_step(c).1)
        },
        StripState::InString { escaped } => if escaped {
            (StripState::InString { escaped: false }, seq![c])
        } else if c == '\\' {
            (StripState::InString { escaped: true }, seq![c])
        } else if c == '"' {
            (StripState::Code, seq![c])
        } else {
            (StripState::InString { escaped: false }, seq![c])
        },
        StripState::LineComment => if c == '\n' {
            (StripState::Code, seq!['\n'])
        } else {
            (StripState::LineComment, Seq::empty())
        },
        StripState::BlockComment { star } => if star && c == '/' {
            (StripState::Code, Seq::empty())
        } else {
            (StripState::BlockComment { star: c == '*' }, Seq::empty())
        },
    }
}

/// The state and the text written after reading `s`.
pub open spec fn strip_run(s: Seq<char>) -> (StripState, Seq<char>)
    decreases s.len(),
{
    if s.len() == 0 {
        (StripState::Code, Seq::empty())
    } else {
        let (st, out) = strip_run(s.drop_last());
        let (st2, e) = strip_step(st, s.last());
        (st2, out + e)
    }
}

/// JSON text with `//` and `/* */` comments taken out; a comment that runs to a line break
/// keeps the break, and comment marks inside strings are text.
pub open spec fn strip_comments_spec(s: Seq<char>) -> Seq<char> {
    let (st, out) = strip_run(s);
    match st {
        StripState::Slash => out.push('/'),
        _ => out,
    }
}

fn strip_step_exec(st: &StripState, c: char, out: &mut Vec<char>) -> (r: StripState)
    ensures
        r == strip_step(*st, c).0,
        final(out)@ == old(out)@ + strip_step(*st, c).1,
{
    match st {
        StripState::Code => {
            if c == '"' {
                out.push(c);
                StripState::InString { escaped: false }
            } else if c == '/' {
                assert(out@ =~= old(out)@ + Seq::<char>::empty());
                StripState::Slash
            } else {
                out.push(c);
                StripState::Code
            }
        },
        StripState::Slash => {
            if c == '/' {
                assert(out@ =~= old(out)@ + Seq::<char>::empty());
                StripState::LineComment
            } else if c == '*' {
                assert(out@ =~= old(out)@ + Seq::<char>::empty());
                StripState::BlockComment { star: false }
            } else {
                out.push('/');
                if c == '"' {
                    out.push(c);
                    assert(out@ =~= old(out)@ + (seq!['/'] + seq![c]));
                    StripState::InString { escaped: false }
                } else {
                    out.push(c);
                    assert(out@ =~= old(out)@ + (seq!['/'] + seq![c]));
                    StripState::Code
                }
            }
        },
        StripState::InString { escaped } => {
            out.push(c);
            if *escaped {
                StripState::InString { escaped: false }
            } else if c == '\\' {
                StripState::InString { escaped: true }
            } else if c == '"' {
                StripState::Code
            } else {
                StripState::InString { escaped: false }
            }
        },
        StripState::LineComment => {
            if c == '\n' {
                out.push('\n');
                StripState::Code
            } else {
                assert(out@ =~= old(out)@ + Seq::<char>::empty());
                StripState::LineComment
            }
        },
        StripState::BlockComment { star } => {
            assert(out@ =~= old(out)@ + Seq::<char>::empty());
            if *star && c == '/' {
                StripState::Code
            } else {
                StripState::BlockComment { star: c == '*' }
            }
        },
    }
}

/// Takes the comments out of a manifest's text.
pub fn strip_json_comments(input: &str) -> (r: String)
    ensures
        r@ == strip_comments_spec(input@),
{
    let v = chars_of(input);
    let mut out: Vec<char> = Vec::new();
    let mut st = StripState::Code;
    let mut i: usize = 0;
    while i < v.len()
        invariant
            i <= v@.len(),
            (st, out@) == strip_run(v@.take(i as int)),
        decreases v.len() - i,
    {
        proof {
            assert(v@.take(i + 1).drop_last() =~= v@.take(i as int));
        }
        st = strip_step_exec(&st, v[i], &mut out);
        i += 1;
    }
    assert(v@.take(i as int) =~= v@);
    if let StripState::Slash = st {
        out.push('/');
    }
    string_from(out.as_slice())
}

/// A JSON value. An object keeps its members as (key, value) pairs, each key once.
pub enum JsonValue {
    Null,
    Bool(bool),
    Number(String),
    Str(String),
    Array(Vec<JsonValue>),
    Object(Vec<(String, JsonValue)>),
}

pub open spec fn member_at(pairs: Seq<(String, JsonValue)>, key: Seq<char>, i: int) -> bool {
    0 <= i < pairs.len() && pairs[i].0@ == key && forall|j: int| 0 <= j < i ==> (#[trigger] pairs[j]).0@ != key
}

/// The member of an object's pairs under `key`.
pub open spec fn pairs_get(pairs: Seq<(String, JsonValue)>, key: Seq<char>) -> Option<JsonValue> {
    if exists|i: int| member_at(pairs, key, i) {
        Some(pairs[choose|i: int| member_at(pairs, key, i)].1)
    } else {
        None
    }
}

/// The member of an object under `key`; nothing for other values.
pub open spec fn json_get(v: JsonValue, key: Seq<char>) -> Option<JsonValue> {
    match v {
        JsonValue::Object(pairs) => pairs_get(pairs@, key),
        _ => None,
    }
}

/// No key is held twice.
pub open spec fn keys_unique(pairs: Seq<(String, JsonValue)>) -> bool {
    forall|i: int, j: int| 0 <= i < j < pairs.len() ==> (#[trigger] pairs[i]).0@ != (#[trigger] pairs[j]).0@
}

/// Sets the member `key` of an object's pairs: in place where the key is held, else added.
pub fn object_insert(pairs: &mut Vec<(String, JsonValue)>, key: &str, val: JsonValue)
    ensures
        pairs_get(final(pairs)@, key@) == Some(val),
        forall|k: Seq<char>| k != key@ ==> pairs_get(final(pairs)@, k) == pairs_get(old(pairs)@, k),
        keys_unique(old(pairs)@) ==> keys_unique(final(pairs)@),
{
    let ghost before = pairs@;
    match member_index(pairs, key) {
        Some(i) => {
            let k = pairs[i].0.clone();
            pairs.set(i, (k, val));
            proof {
                assert(member_at(pairs@, key@, i as int));
                let c = choose|c: int| member_at(pairs@, key@, c);
                lemma_member_unique(pairs@, key@, i as int, c);
                assert forall|j: int| 0 <= j < pairs@.len() implies (#[trigger] pairs@[j]).0@ == before[j].0@ by {
                }
                lemma_member_prefix(pairs@, before, pairs@.len() as int);
                assert forall|k: Seq<char>| k != key@ implies pairs_get(pairs@, k) == pairs_get(before, k) by {
                    assert forall|m: int| member_at(pairs@, k, m) <==> member_at(before, k, m) by {
                        if 0 <= m < pairs@.len() {
                            assert(member_at(pairs@, k, m) <==> member_at(before, k, m));
                        }
                    }
                    if exists|m: int| member_at(pairs@, k, m) {
                        let m1 = choose|m: int| member_at(pairs@, k, m);
                        let m2 = choose|m: int| member_at(before, k, m);
                        lemma_member_unique(before, k, m1, m2);
                        assert(m1 != i);
                    }
                }
                assert forall|a: int, b: int| 0 <= a < b < pairs@.len() && keys_unique(before) implies (#[trigger] pairs@[a]).0@
                    != (#[trigger] pairs@[b]).0@ by {
                    assert(pairs@[a].0@ == before[a].0@);
                    assert(pairs@[b].0@ == before[b].0@);
                }
            }
        },
        None => {
            pairs.push((key.to_string(), val));
            proof {
                let n = before.len() as int;
                assert(member_at(pairs@, key@, n)) by {
                    assert forall|j: int| 0 <= j < n implies (#[trigger] pairs@[j]).0@ != key@ by {
                        assert(pairs@[j] == before[j]);
                        assert(!member_at(before, key@, j));
                        if before[j].0@ == key@ {
                            assert(exists|m: int| 0 <= m <= j && before[m].0@ == key@);
                            lemma_first_member(before, key@, j);
                        }
                    }
                }
                let c = choose|c: int| member_at(pairs@, key@, c);
                lemma_member_unique(pairs@, key@, n, c);
                assert forall|j: int| 0 <= j < n implies (#[trigger] pairs@[j]).0@ == before[j].0@ by {
                    assert(pairs@[j] == before[j]);
                }
                lemma_member_prefix(pairs@, before, n);
                assert forall|k: Seq<char>| k != key@ implies pairs_get(pairs@, k) == pairs_get(before, k) by {
                    assert forall|m: int| member_at(pairs@, k, m) <==> member_at(before, k, m) by {
                        if 0 <= m < before.len() {
                            assert(member_at(pairs@, k, m) <==> member_at(before, k, m));
                        }
                    }
                    if exists|m: int| member_at(pairs@, k, m) {
                        let m1 = choose|m: int| member_at(pairs@, k, m);
                        let m2 = choose|m: int| member_at(before, k, m);
                        lemma_member_unique(before, k, m1, m2);
                    }
                }
                assert forall|a: int, b: int| 0 <= a < b < pairs@.len() && keys_unique(before) implies (#[trigger] pairs@[a]).0@
                    != (#[trigger] pairs@[b]).0@ by {
                    if b < n {
                        assert(pairs@[a] == before[a]);
                        assert(pairs@[b] == before[b]);
                    } else {
                        assert(pairs@[a] == before[a]);
                        if before[a].0@ == key@ {
                            lemma_first_member(before, key@, a);
                        }
                    }
                }
            }
        },
    }
}

/// Pairs that agree on their first `n` keys agree on which of those places first holds a key.
pub proof fn lemma_member_prefix(a: Seq<(String, JsonValue)>, b: Seq<(String, JsonValue)>, n: int)
    requires
        0 <= n <= a.len(),
        n <= b.len(),
        forall|i: int| 0 <= i < n ==> (#[trigger] a[i]).0@ == b[i].0@,
    ensures
        forall|k: Seq<char>, m: int| 0 <= m < n ==> (member_at(a, k, m) <==> member_at(b, k, m)),
{
    assert forall|k: Seq<char>, m: int| 0 <= m < n implies (member_at(a, k, m) <==> member_at(b, k, m)) by {
        if member_at(a, k, m) {
            assert forall|j: int| 0 <= j < m implies (#[trigger] b[j]).0@ != k by {
                assert(a[j].0@ == b[j].0@);
            }
        }
        if member_at(b, k, m) {
            assert forall|j: int| 0 <= j < m implies (#[trigger] a[j]).0@ != k by {
                assert(a[j].0@ == b[j].0@);
            }
        }
    }
}

/// Where a key is held at all, it has a first place.
pub proof fn lemma_first_member(pairs: Seq<(String, JsonValue)>, key: Seq<char>, j: int)
    requires
        0 <= j < pairs.len(),
        pairs[j].0@ == key,
    ensures
        exists|m: int| member_at(pairs, key, m),
    decreases j,
{
    if exists|m: int| 0 <= m < j && pairs[m].0@ == key {
        let m = choose|m: int| 0 <= m < j && pairs[m].0@ == key;
        lemma_first_member(pairs, key, m);
    } else {
        assert(member_at(pairs, key, j));
    }
}

pub open spec fn json_str(v: JsonValue) -> Option<Seq<char>> {
    match v {
        JsonValue::Str(s) => Some(s@),
        _ => None,
    }
}

pub open spec fn json_get_str(v: JsonValue, key: Seq<char>) -> Option<Seq<char>> {
    match json_get(v, key) {
        Some(x) => json_str(x),
        None => None,
    }
}

pub proof fn lemma_member_unique(pairs: Seq<(String, JsonValue)>, key: Seq<char>, i: int, j: int)
    requires
        member_at(pairs, key, i),
        member_at(pairs, key, j),
    ensures
        i == j,
{
    if i < j {
        assert(pairs[i].0@ != key);
    } else if j < i {
        assert(pairs[j].0@ != key);
    }
}

/// The position of `key` among an object's members.
pub fn member_index(pairs: &Vec<(String, JsonValue)>, key: &str) -> (r: Option<usize>)
    ensures
        match r {
            Some(i) => member_at(pairs@, key@, i as int),
            None => forall|i: int| !member_at(pairs@, key@, i),
        },
{
    let k = chars_of(key);
    let mut i: usize = 0;
    while i < pairs.len()
        invariant
            i <= pairs@.len(),
            k@ == key@,
            forall|j: int| 0 <= j < i ==> (#[trigger] pairs@[j]).0@ != key@,
        decreases pairs.len() - i,
    {
        if seq_eq(chars_of(pairs[i].0.as_str()).as_slice(), k.as_slice()) {
            return Some(i);
        }
        i += 1;
    }
    proof {
        assert forall|j: int| !member_at(pairs@, key@, j) by {
            if 0 <= j < pairs@.len() {
                assert(pairs@[j].0@ != key@);
            }
        }
    }
    None
}

/// `Value::get` with a key.
pub fn json_get_exec<'a>(v: &'a JsonValue, key: &str) -> (r: Option<&'a JsonValue>)
    ensures
        match r {
            Some(x) => json_get(*v, key@) == Some(*x),
            None => json_get(*v, key@) is None,
        },
{
    match v {
        JsonValue::Object(pairs) => match member_index(pairs, key) {
            Some(i) => {
                proof {
                    let c = choose|c: int| member_at(pairs@, key@, c);
                    lemma_member_unique(pairs@, key@, i as int, c);
                }
                Some(&pairs[i].1)
            },
            None => None,
        },
        _ => None,
    }
}

/// `Value::as_str`.
pub fn json_str_exec(v: &JsonValue) -> (r: Option<&String>)
    ensures
        match r {
            Some(s) => json_str(*v) == Some(s@),
            None => json_str(*v) is None,
        },
{
    match v {
        JsonValue::Str(s) => Some(s),
        _ => None,
    }
}

pub fn json_get_str_exec<'a>(v: &'a JsonValue, key: &str) -> (r: Option<&'a String>)
    ensures
        match r {
            Some(s) => json_get_str(*v, key@) == Some(s@),
            None => json_get_str(*v, key@) is None,
        },
{
    match json_get_exec(v, key) {
        Some(x) => json_str_exec(x),
        None => None,
    }
}

/// Number of byte-order marks a text begins with.
pub open spec fn leading_boms(s: Seq<char>) -> nat
    decreases s.len(),
{
    if s.len() > 0 && s[0] == '\u{feff}' {
        1 + leading_boms(s.skip(1))
    } else {
        0
    }
}

pub proof fn lemma_leading_boms(s: Seq<char>, k: int)
    requires
        0 <= k <= s.len(),
        forall|j: int| 0 <= j < k ==> #[trigger] s[j] == '\u{feff}',
        k == s.len() || s[k] != '\u{feff}',
    ensures
        leading_boms(s) == k,
    decreases k,
{
    if k > 0 {
        let t = s.skip(1);
        assert forall|j: int| 0 <= j < k - 1 implies #[trigger] t[j] == '\u{feff}' by {
            assert(t[j] == s[j + 1]);
        }
        if k < s.len() {
            assert(t[k - 1] == s[k]);
        }
        lemma_leading_boms(t, k - 1);
    }
}

/// The JSON text of a manifest file: leading byte-order marks dropped, comments taken out.
pub fn manifest_json_text(content: &str) -> (r: String)
    ensures
        r@ == strip_comments_spec(content@.skip(leading_boms(content@) as int)),
{
    let v = chars_of(content);
    let mut i: usize = 0;
    while i < v.len() && v[i] == '\u{feff}'
        invariant
            i <= v@.len(),
            forall|j: int| 0 <= j < i ==> #[trigger] v@[j] == '\u{feff}',
        decreases v.len() - i,
    {
        i += 1;
    }
    proof {
        lemma_leading_boms(v@, i as int);
    }
    let mut rest: Vec<char> = Vec::new();
    let mut k: usize = i;
    while k < v.len()
        invariant
            i <= k <= v@.len(),
            rest@ == v@.subrange(i as int, k as int),
        decreases v.len() - k,
    {
        rest.push(v[k]);
        k += 1;
        assert(rest@ =~= v@.subrange(i as int, k as int));
    }
    assert(rest@ =~= content@.skip(i as int));
    strip_json_comments(string_from(rest.as_slice()).as_str())
}

/// The strings in a value that hold more than whitespace: what a translation file offers
/// to translate.
pub open spec fn string_leaves(v: JsonValue) -> nat
    decreases v, 0nat,
{
    match v {
        JsonValue::Str(s) => if trim_seq(s@).len() > 0 {
            1
        } else {
            0
        },
        JsonValue::Array(items) => leaves_list(items@),
        JsonValue::Object(pairs) => leaves_pairs(pairs@),
        _ => 0,
    }
}

pub open spec fn leaves_list(items: Seq<JsonValue>) -> nat
    decreases items, 1nat,
{
    if items.len() == 0 {
        0
    } else {
        leaves_list(items.drop_last()) + string_leaves(items[items.len() - 1])
    }
}

pub open spec fn leaves_pairs(pairs: Seq<(String, JsonValue)>) -> nat
    decreases pairs, 1nat,
{
    if pairs.len() == 0 {
        0
    } else {
        leaves_pairs(pairs.drop_last()) + string_leaves(pairs[pairs.len() - 1].1)
    }
}

proof fn lemma_leaves_list_prefix(items: Seq<JsonValue>, k: int)
    requires
        0 <= k <= items.len(),
    ensures
        leaves_list(items.take(k)) <= leaves_list(items),
    decreases items.len() - k,
{
    if k < items.len() {
        assert(items.take(k + 1).drop_last() =~= items.take(k));
        lemma_leaves_list_prefix(items, k + 1);
    } else {
        assert(items.take(k) =~= items);
    }
}

proof fn lemma_leaves_pairs_prefix(pairs: Seq<(String, JsonValue)>, k: int)
    requires
        0 <= k <= pairs.len(),
    ensures
        leaves_pairs(pairs.take(k)) <= leaves_pairs(pairs),
    decreases pairs.len() - k,
{
    if k < pairs.len() {
        assert(pairs.take(k + 1).drop_last() =~= pairs.take(k));
        lemma_leaves_pairs_prefix(pairs, k + 1);
    } else {
        assert(pairs.take(k) =~= pairs);
    }
}

/// How many strings with more than whitespace a value holds, at any depth.
pub fn count_json_string_leaves(value: &JsonValue) -> (r: usize)
    requires
        string_leaves(*value) <= usize::MAX,
    ensures
        r == string_leaves(*value),
    decreases value,
{
    match value {
        JsonValue::Str(s) => {
            let t = trim(chars_of(s.as_str()).as_slice());
            if t.len() > 0 {
                1
            } else {
                0
            }
        },
        JsonValue::Array(items) => {
            let mut total: usize = 0;
            let mut i: usize = 0;
            while i < items.len()
                invariant
                    i <= items@.len(),
                    *value == JsonValue::Array(*items),
                    leaves_list(items@) <= usize::MAX,
                    total == leaves_list(items@.take(i as int)),
                decreases items.len() - i,
            {
                proof {
                    let t = items@.take(i + 1);
                    assert(t.drop_last() =~= items@.take(i as int));
                    assert(t[t.len() - 1] == items@[i as int]);
                    lemma_leaves_list_prefix(items@, i + 1);
                    assert(decreases_to!(*value => (*value)->Array_0));
                    assert(decreases_to!(*items => items@));
                    assert(decreases_to!(items@ => items@[i as int]));
                }
                let n = count_json_string_leaves(&items[i]);
                total = total + n;
                i += 1;
            }
            assert(items@.take(i as int) =~= items@);
            total
        },
        JsonValue::Object(pairs) => {
            let mut total: usize = 0;
            let mut i: usize = 0;
            while i < pairs.len()
                invariant
                    i <= pairs@.len(),
                    *value == JsonValue::Object(*pairs),
                    leaves_pairs(pairs@) <= usize::MAX,
                    total == leaves_pairs(pairs@.take(i as int)),
                decreases pairs.len() - i,
            {
                proof {
                    let t = pairs@.take(i + 1);
                    assert(t.drop_last() =~= pairs@.take(i as int));
                    assert(t[t.len() - 1] == pairs@[i as int]);
                    lemma_leaves_pairs_prefix(pairs@, i + 1);
                    assert(decreases_to!(*value => (*value)->Object_0));
                    assert(decreases_to!(*pairs => pairs@));
                    assert(decreases_to!(pairs@ => pairs@[i as int]));
                    assert(decreases_to!(pairs@[i as int] => pairs@[i as int].1));
                }
                let n = count_json_string_leaves(&pairs[i].1);
                total = total + n;
                i += 1;
            }
            assert(pairs@.take(i as int) =~= pairs@);
            total
        },
        _ => 0,
    }
}

/// The keys a translation file offers: for a `.json` or `.loc` file, the non-blank strings
/// of its content as parsed (`None` where it could not be read or parsed, which counts
/// none); other files count none.
pub fn count_translation_file_keys(path: &str, parsed: Option<&JsonValue>) -> (r: usize)
    requires
        parsed matches Some(v) ==> string_leaves(*v) <= usize::MAX,
    ensures
        r == if crate::paths::ext_is(path@, "json"@) || crate::paths::ext_is(path@, "loc"@) {
            match parsed {
                Some(v) => string_leaves(*v),
                None => 0,
            }
        } else {
            0
        },
{
    let p = chars_of(path);
    let j = chars_of("json");
    let l = chars_of("loc");
    if crate::paths::ext_is_exec(p.as_slice(), j.as_slice()) || crate::paths::ext_is_exec(p.as_slice(), l.as_slice()) {
        match parsed {
            Some(v) => count_json_string_leaves(v),
            None => 0,
        }
    } else {
        0
    }
}

/// The text a manifest file's JSON is read from: leading byte-order marks dropped, comments
/// taken out.
pub open spec fn manifest_text_spec(content: Seq<char>) -> Seq<char> {
    strip_comments_spec(content.skip(leading_boms(content) as int))
}

/// `serde_json::Value`, the value that serde_json parses text into and prints from.
#[verifier::external_type_specification]
#[verifier::external_body]
pub struct ExSerdeJsonValue(serde_json::Value);

/// What `serde_json::from_str::<serde_json::Value>` makes of a text, taken member for member
/// into the library's value model; `None` where serde_json refuses the text.
pub uninterp spec fn parsed_json(text: Seq<char>) -> Option<JsonValue>;

/// What `serde_json::to_string_pretty` writes for a value.
pub uninterp spec fn pretty_json(v: JsonValue) -> Seq<char>;

/// Parses a text with `serde_json::from_str::<serde_json::Value>` and takes the value into the
/// library's model. Trusted: the result is `parsed_json` of the text, so it depends on the
/// text alone (serde_json keeps an object's members in key order and has no state). What
/// serde_json accepts is not restated here.
#[verifier::external_body]
pub(crate) fn parse_json_text(text: &str) -> (r: Option<JsonValue>)
    ensures
        r == parsed_json(text@),
{
    serde_json::from_str::<serde_json::Value>(text).ok().map(from_serde_value)
}

/// Writes a value with `serde_json::to_string_pretty`, after taking it into a
/// `serde_json::Value`. Trusted: the result is `pretty_json` of the value. Serialising a
/// `serde_json::Value` does not fail (its keys are strings), so the error arm is never taken.
#[verifier::external_body]
pub(crate) fn json_text_pretty(v: &JsonValue) -> (r: String)
    ensures
        r@ == pretty_json(*v),
{
    serde_json::to_string_pretty(&to_serde_value(v)).unwrap_or_default()
}

/// Takes a `serde_json::Value` into the library's model, variant for variant. Used only by
/// `parse_json_text`.
#[verifier::external_body]
fn from_serde_value(value: serde_json::Value) -> JsonValue {
    match value {
        serde_json::Value::Null => JsonValue::Null,
        serde_json::Value::Bool(b) => JsonValue::Bool(b),
        serde_json::Value::Number(n) => JsonValue::Number(n.to_string()),
        serde_json::Value::String(s) => JsonValue::Str(s),
        serde_json::Value::Array(items) => JsonValue::Array(items.into_iter().map(from_serde_value).collect()),
        serde_json::Value::Object(map) => JsonValue::Object(map.into_iter().map(|(k, v)| (k, from_serde_value(v))).collect()),
    }
}

/// Takes a value of the library's model into a `serde_json::Value`, variant for variant; a
/// number's text is read back with `serde_json::Number`'s `FromStr`. Used only by
/// `json_text_pretty`.
#[verifier::external_body]
fn to_serde_value(v: &JsonValue) -> serde_json::Value {
    match v {
        JsonValue::Null => serde_json::Value::Null,
        JsonValue::Bool(b) => serde_json::Value::Bool(*b),
        JsonValue::Number(n) => n.parse::<serde_json::Number>().map_or(serde_json::Value::Null, serde_json::Value::Number),
        JsonValue::Str(s) => serde_json::Value::String(s.clone()),
        JsonValue::Array(items) => serde_json::Value::Array(items.iter().map(to_serde_value).collect()),
        JsonValue::Object(pairs) => serde_json::Value::Object(pairs.iter().map(|(k, x)| (k.clone(), to_serde_value(x))).collect()),
    }
}

} // verus!
