//! Reading log lines: string tokens, the input format, JSON fields, and the
//! severity levels.
use vstd::prelude::*;
use vstd::string::StringSliceAdditionalSpecFns;

use crate::config::InputFormat;
use crate::fast_index::is_token_char;
use crate::index::string_views;
use crate::json::{entries_view, entry_view, json_object_members, parse_json_object, JsonEntry, JsonScalar};
use crate::text::{
    ascii_chars, ascii_string, lemma_ascii_encode, chars_equal, contains_chars, has_substring, str_chars, to_uppercase,
    trim, trim_bounds, unicode_uppercase,
};
use crate::tokens::{
    byte_tokens, fnv_hash, hashed_tokens, is_token_byte, joined_tokens, lemma_hash_ignores_case,
    lemma_token_shape, lemma_tokens_of_joined, lemma_tokens_same_but_case, lemma_tokens_skip_run,
    lemma_tokens_skip_separator, lemma_tokens_split, lemma_tokens_word, lower_byte, lower_bytes,
    same_but_case, upper_byte, upper_bytes,
};
use vstd::utf8::encode_utf8;

verus! {

/// The token strings of a byte sequence: its tokens, ASCII-lowercased.
pub open spec fn token_strings(bytes: Seq<u8>) -> Seq<Seq<char>> {
    byte_tokens(bytes).map_values(|t: Seq<u8>| ascii_chars(lower_bytes(t)))
}

/// The ASCII lowercase of a token, as a string.
pub fn fast_lowercase(token: &[u8]) -> (s: String)
    requires
        forall|i: int| 0 <= i < token.len() ==> is_token_byte(#[trigger] token@[i]),
    ensures
        s@ == ascii_chars(lower_bytes(token@)),
{
    let mut out: Vec<u8> = Vec::new();
    for i in 0..token.len()
        invariant
            forall|k: int| 0 <= k < token.len() ==> is_token_byte(#[trigger] token@[k]),
            out@ == lower_bytes(token@.take(i as int)),
    {
        let b = token[i];
        let l = if b >= 65 && b <= 90 {
            b + 32
        } else {
            b
        };
        proof {
            assert(lower_bytes(token@.take(i + 1)) =~= lower_bytes(token@.take(i as int)).push(
                lower_byte(b),
            ));
        }
        out.push(l);
    }
    proof {
        assert(token@.take(token@.len() as int) =~= token@);
        assert forall|k: int| 0 <= k < out.len() implies #[trigger] out@[k] < 128 by {
            assert(is_token_byte(token@[k]));
        }
    }
    ascii_string(out)
}

/// The tokens of `text`, ASCII-lowercased, in order.
pub fn tokenize(text: &str) -> (tokens: Vec<String>)
    ensures
        string_views(tokens@) == token_strings(text.spec_bytes()),
{
    let bytes = text.as_bytes();
    let n = bytes.len();
    let mut tokens: Vec<String> = Vec::new();
    let ghost mut done: Seq<Seq<u8>> = Seq::empty();
    let mut i: usize = 0;
    proof {
        assert(bytes@.skip(0) =~= bytes@);
    }
    while i < n
        invariant
            n == bytes@.len(),
            bytes@ == text.spec_bytes(),
            i <= n,
            byte_tokens(bytes@) == done + byte_tokens(bytes@.skip(i as int)),
            string_views(tokens@) == done.map_values(|t: Seq<u8>| ascii_chars(lower_bytes(t))),
        decreases n - i,
    {
        if !is_token_char(bytes[i]) {
            proof {
                lemma_tokens_skip_separator(bytes@, i as int);
            }
            i += 1;
        } else {
            let mut j = i;
            while j < n && is_token_char(bytes[j])
                invariant
                    n == bytes@.len(),
                    i <= j <= n,
                    forall|k: int| i <= k < j ==> is_token_byte(#[trigger] bytes@[k]),
                decreases n - j,
            {
                j += 1;
            }
            proof {
                lemma_tokens_skip_run(bytes@, i as int, j as int);
            }
            if j - i >= 2 {
                let slice = &bytes[i..j];
                proof {
                    assert forall|k: int| 0 <= k < slice@.len() implies is_token_byte(#[trigger] slice@[k]) by {
                        assert(slice@[k] == bytes@[i + k]);
                    }
                }
                let s = fast_lowercase(slice);
                let ghost tok = bytes@.subrange(i as int, j as int);
                let ghost prev = string_views(tokens@);
                proof {
                    assert(slice@ == tok);
                    assert(s@ == ascii_chars(lower_bytes(tok)));
                }
                tokens.push(s);
                proof {
                    assert(string_views(tokens@) =~= prev.push(s@));
                    assert(string_views(tokens@) =~= done.push(tok).map_values(
                        |t: Seq<u8>| ascii_chars(lower_bytes(t)),
                    ));
                    assert(done + seq![tok] =~= done.push(tok));
                    done = done.push(tok);
                }
            } else {
                proof {
                    assert(done + Seq::<Seq<u8>>::empty() =~= done);
                }
            }
            proof {
                assert(byte_tokens(bytes@) =~= done + byte_tokens(bytes@.skip(j as int)));
            }
            i = j;
        }
    }
    proof {
        assert(bytes@.skip(n as int) =~= Seq::<u8>::empty());
        assert(done + Seq::<Seq<u8>>::empty() =~= done);
    }
    tokens
}

/// A trimmed line that starts with `{` and ends with `}` looks like JSON.
pub open spec fn looks_like_json(t: Seq<char>) -> bool {
    t.len() > 0 && t[0] == '{' && t.last() == '}'
}

/// JSON lines when the line, without surrounding white space, starts with
/// `{` and ends with `}`; plain text otherwise.
pub fn detect_format(first_line: &str) -> (format: InputFormat)
    ensures
        format == (if looks_like_json(trim(first_line@)) {
            InputFormat::JsonLines
        } else {
            InputFormat::PlainText
        }),
{
    let cs = str_chars(first_line);
    let (start, end) = trim_bounds(cs.as_slice());
    if start < end && cs[start] == '{' && cs[end - 1] == '}' {
        InputFormat::JsonLines
    } else {
        InputFormat::PlainText
    }
}


/// The value of the first member whose key is `key`: whether it is a JSON
/// string, and its text.
pub open spec fn member_value(members: Seq<(Seq<char>, bool, Seq<char>)>, key: Seq<char>) -> Option<
    (bool, Seq<char>),
>
    decreases members.len(),
{
    if members.len() == 0 {
        None
    } else if members[0].0 == key {
        Some((members[0].1, members[0].2))
    } else {
        member_value(members.drop_first(), key)
    }
}

/// The keys a severity level is read from, in order of preference.
pub open spec fn level_keys() -> Seq<Seq<char>> {
    seq![
        seq!['l', 'e', 'v', 'e', 'l'],
        seq!['s', 'e', 'v', 'e', 'r', 'i', 't', 'y'],
        seq!['l', 'o', 'g', '_', 'l', 'e', 'v', 'e', 'l'],
        seq!['l', 'o', 'g', 'l', 'e', 'v', 'e', 'l'],
    ]
}

/// The value of the first of `keys` that the object has.
pub open spec fn first_present(members: Seq<(Seq<char>, bool, Seq<char>)>, keys: Seq<Seq<char>>) -> Option<
    (bool, Seq<char>),
>
    decreases keys.len(),
{
    if keys.len() == 0 {
        None
    } else {
        match member_value(members, keys[0]) {
            Some(v) => Some(v),
            None => first_present(members, keys.drop_first()),
        }
    }
}

/// The severity level of an object: the first of its level keys that it
/// has, when that value is a JSON string, in uppercase.
pub open spec fn json_level(members: Seq<(Seq<char>, bool, Seq<char>)>) -> Option<Seq<char>> {
    match first_present(members, level_keys()) {
        Some((true, t)) => Some(unicode_uppercase(t)),
        _ => None,
    }
}

/// For each of `fields` the object has, in the order of `fields`, the field
/// and the text of its value.
pub open spec fn boosted_values(members: Seq<(Seq<char>, bool, Seq<char>)>, fields: Seq<Seq<char>>) -> Seq<
    (Seq<char>, Seq<char>),
>
    decreases fields.len(),
{
    if fields.len() == 0 {
        Seq::empty()
    } else {
        boosted_values(members, fields.drop_last()) + match member_value(members, fields.last()) {
            Some(v) => seq![(fields.last(), v.1)],
            None => Seq::empty(),
        }
    }
}

/// The fields of a JSON log line that the scoring reads.
pub struct JsonFields {
    pub level: Option<String>,
    pub field_values: Vec<(String, String)>,
}

/// An optional string by its characters.
pub open spec fn opt_string_view(o: Option<String>) -> Option<Seq<char>> {
    match o {
        Some(s) => Some(s@),
        None => None,
    }
}

/// Pairs of strings by their characters.
pub open spec fn pairs_view(v: Seq<(String, String)>) -> Seq<(Seq<char>, Seq<char>)> {
    v.map_values(|p: (String, String)| (p.0@, p.1@))
}

/// The fields read from the members of an object.
pub open spec fn fields_match(f: JsonFields, members: Seq<(Seq<char>, bool, Seq<char>)>, boost_fields: Seq<Seq<char>>) -> bool {
    &&& opt_string_view(f.level) == json_level(members)
    &&& pairs_view(f.field_values@) == boosted_values(members, boost_fields)
}

/// The position of the first member whose key is `key`.
pub fn find_member(members: &[JsonEntry], key: &[char]) -> (pos: Option<usize>)
    ensures
        match pos {
            Some(i) => i < members.len() && member_value(entries_view(members@), key@) == Some(
                (entry_view(members@[i as int]).1, entry_view(members@[i as int]).2),
            ),
            None => member_value(entries_view(members@), key@) is None,
        },
{
    let ghost m = entries_view(members@);
    let mut i: usize = 0;
    proof {
        assert(m.skip(0) =~= m);
    }
    while i < members.len()
        invariant
            i <= members.len(),
            m == entries_view(members@),
            member_value(m, key@) == member_value(m.skip(i as int), key@),
        decreases members.len() - i,
    {
        let cs = str_chars(members[i].key.as_str());
        proof {
            assert(m.skip(i as int)[0] == entry_view(members@[i as int]));
            assert(m.skip(i as int).drop_first() =~= m.skip(i + 1));
        }
        if chars_equal(cs.as_slice(), key) {
            return Some(i);
        }
        i += 1;
    }
    None
}

/// The text of a member's value.
fn scalar_text(v: &JsonScalar) -> (t: String)
    ensures
        t@ == match v {
            JsonScalar::Text(s) => s@,
            JsonScalar::Other(s) => s@,
        },
{
    match v {
        JsonScalar::Text(s) => s.clone(),
        JsonScalar::Other(s) => s.clone(),
    }
}

/// Reads the severity level and the boost fields from the members of a JSON
/// object: the level is the first of `level`, `severity`, `log_level`,
/// `loglevel` that the object has, uppercased when its value is a string;
/// each boost field the object has comes with the text of its value.
pub fn json_fields_from_members(members: &[JsonEntry], boost_fields: &[String]) -> (f: JsonFields)
    ensures
        fields_match(f, entries_view(members@), string_views(boost_fields@)),
{
    let ghost m = entries_view(members@);
    let keys: Vec<Vec<char>> = vec![
        vec!['l', 'e', 'v', 'e', 'l'],
        vec!['s', 'e', 'v', 'e', 'r', 'i', 't', 'y'],
        vec!['l', 'o', 'g', '_', 'l', 'e', 'v', 'e', 'l'],
        vec!['l', 'o', 'g', 'l', 'e', 'v', 'e', 'l'],
    ];
    let ghost kv = keys@.map_values(|k: Vec<char>| k@);
    proof {
        assert(kv =~= level_keys());
    }
    let mut level: Option<String> = None;
    let mut k: usize = 0;
    proof {
        assert(kv.skip(0) =~= kv);
    }
    while k < keys.len()
        invariant_except_break
            k <= keys.len(),
            level is None,
            first_present(m, kv) == first_present(m, kv.skip(k as int)),
        invariant
            kv == keys@.map_values(|k: Vec<char>| k@),
            kv == level_keys(),
            m == entries_view(members@),
        ensures
            opt_string_view(level) == json_level(m),
        decreases keys.len() - k,
    {
        proof {
            assert(kv.skip(k as int)[0] == keys@[k as int]@);
            assert(kv.skip(k as int).drop_first() =~= kv.skip(k + 1));
        }
        match find_member(members, keys[k].as_slice()) {
            Some(i) => {
                match &members[i].value {
                    JsonScalar::Text(s) => {
                        level = Some(to_uppercase(s.as_str()));
                    },
                    JsonScalar::Other(_) => {},
                }
                break;
            },
            None => {},
        }
        k += 1;
        proof {
            if k == keys.len() {
                assert(kv.skip(k as int) =~= Seq::<Seq<char>>::empty());
            }
        }
    }
    let mut field_values: Vec<(String, String)> = Vec::new();
    let ghost fv = string_views(boost_fields@);
    for j in 0..boost_fields.len()
        invariant
            fv == string_views(boost_fields@),
            m == entries_view(members@),
            pairs_view(field_values@) == boosted_values(m, fv.take(j as int)),
    {
        let name = &boost_fields[j];
        let cs = str_chars(name.as_str());
        proof {
            assert(fv.take(j + 1).drop_last() =~= fv.take(j as int));
            assert(fv.take(j + 1).last() == name@);
        }
        match find_member(members, cs.as_slice()) {
            Some(i) => {
                let text = scalar_text(&members[i].value);
                let ghost prev = pairs_view(field_values@);
                field_values.push((name.clone(), text));
                proof {
                    assert(pairs_view(field_values@) =~= prev + seq![(name@, m[i as int].2)]);
                }
            },
            None => {
                proof {
                    assert(pairs_view(field_values@) =~= pairs_view(field_values@) + Seq::<(Seq<char>, Seq<char>)>::empty());
                }
            },
        }
    }
    proof {
        assert(fv.take(fv.len() as int) =~= fv);
    }
    JsonFields { level, field_values }
}

/// The JSON fields of a line: `None` when the line is not a JSON object.
fn parse_json_fields(line: &str, boost_fields: &[String]) -> (f: Option<JsonFields>)
    ensures
        match json_object_members(line@) {
            None => f is None,
            Some(m) => f matches Some(g) && fields_match(g, m, string_views(boost_fields@)),
        },
{
    match parse_json_object(line) {
        Some(members) => Some(json_fields_from_members(members.as_slice(), boost_fields)),
        None => None,
    }
}

/// The JSON fields of a line: `None` when the line is not a JSON object.
pub fn parse_json_fields_only(line: &str, boost_fields: &[String]) -> (f: Option<JsonFields>)
    ensures
        match json_object_members(line@) {
            None => f is None,
            Some(m) => f matches Some(g) && fields_match(g, m, string_views(boost_fields@)),
        },
{
    parse_json_fields(line, boost_fields)
}

/// A log line: its tokens, and its JSON fields when it is read as JSON.
pub struct ParsedLine {
    pub tokens: Vec<String>,
    pub json_fields: Option<JsonFields>,
}

/// Tokenizes a line and, when `is_json`, reads its JSON fields.
pub fn parse_line(line: &str, is_json: bool, boost_fields: &[String]) -> (parsed: ParsedLine)
    ensures
        string_views(parsed.tokens@) == token_strings(line.spec_bytes()),
        !is_json ==> parsed.json_fields is None,
        is_json ==> match json_object_members(line@) {
            None => parsed.json_fields is None,
            Some(m) => parsed.json_fields matches Some(g) && fields_match(
                g,
                m,
                string_views(boost_fields@),
            ),
        },
{
    let tokens = tokenize(line);
    let json_fields = if is_json {
        parse_json_fields(line, boost_fields)
    } else {
        None
    };
    ParsedLine { tokens, json_fields }
}

/// The severity levels counted as errors.
pub open spec fn error_levels() -> Seq<Seq<char>> {
    seq![
        seq!['E', 'R', 'R', 'O', 'R'],
        seq!['F', 'A', 'T', 'A', 'L'],
        seq!['C', 'R', 'I', 'T', 'I', 'C', 'A', 'L'],
        seq!['P', 'A', 'N', 'I', 'C'],
        seq!['A', 'L', 'E', 'R', 'T'],
        seq!['E', 'M', 'E', 'R', 'G', 'E', 'N', 'C', 'Y'],
    ]
}

/// Whether `level` is one of the given words.
fn is_one_of(level: &str, words: &Vec<Vec<char>>) -> (r: bool)
    ensures
        r == words@.map_values(|w: Vec<char>| w@).contains(level@),
{
    let cs = str_chars(level);
    let ghost ws = words@.map_values(|w: Vec<char>| w@);
    for i in 0..words.len()
        invariant
            ws == words@.map_values(|w: Vec<char>| w@),
            cs@ == level@,
            !ws.take(i as int).contains(level@),
    {
        proof {
            assert(ws.take(i + 1) =~= ws.take(i as int).push(ws[i as int]));
            crate::sorted::lemma_push_contains(ws.take(i as int), ws[i as int]);
        }
        if chars_equal(cs.as_slice(), words[i].as_slice()) {
            proof {
                assert(ws[i as int] == level@);
            }
            return true;
        }
    }
    proof {
        assert(ws.take(ws.len() as int) =~= ws);
    }
    false
}

/// Whether the level is ERROR, FATAL, CRITICAL, PANIC, ALERT or EMERGENCY.
pub fn is_error_level(level: &str) -> (r: bool)
    ensures
        r == error_levels().contains(level@),
{
    let words: Vec<Vec<char>> = vec![
        vec!['E', 'R', 'R', 'O', 'R'],
        vec!['F', 'A', 'T', 'A', 'L'],
        vec!['C', 'R', 'I', 'T', 'I', 'C', 'A', 'L'],
        vec!['P', 'A', 'N', 'I', 'C'],
        vec!['A', 'L', 'E', 'R', 'T'],
        vec!['E', 'M', 'E', 'R', 'G', 'E', 'N', 'C', 'Y'],
    ];
    proof {
        assert(words@.map_values(|w: Vec<char>| w@) =~= error_levels());
    }
    is_one_of(level, &words)
}

/// The severity levels counted as warnings.
pub open spec fn warn_levels() -> Seq<Seq<char>> {
    seq![seq!['W', 'A', 'R', 'N'], seq!['W', 'A', 'R', 'N', 'I', 'N', 'G']]
}

/// Whether the level is WARN or WARNING.
pub fn is_warn_level(level: &str) -> (r: bool)
    ensures
        r == warn_levels().contains(level@),
{
    let words: Vec<Vec<char>> = vec![
        vec!['W', 'A', 'R', 'N'],
        vec!['W', 'A', 'R', 'N', 'I', 'N', 'G'],
    ];
    proof {
        assert(words@.map_values(|w: Vec<char>| w@) =~= warn_levels());
    }
    is_one_of(level, &words)
}

/// The quoted severity words whose presence marks a line as an error line.
pub open spec fn error_markers() -> Seq<Seq<char>> {
    seq![
        seq!['"', 'E', 'R', 'R', 'O', 'R', '"'],
        seq!['"', 'F', 'A', 'T', 'A', 'L', '"'],
        seq!['"', 'C', 'R', 'I', 'T', 'I', 'C', 'A', 'L', '"'],
        seq!['"', 'P', 'A', 'N', 'I', 'C', '"'],
        seq!['"', 'e', 'r', 'r', 'o', 'r', '"'],
        seq!['"', 'f', 'a', 't', 'a', 'l', '"'],
        seq!['"', 'c', 'r', 'i', 't', 'i', 'c', 'a', 'l', '"'],
    ]
}

/// The line holds one of the error markers.
pub open spec fn is_error_marked(line: Seq<char>) -> bool {
    exists|k: int| 0 <= k < error_markers().len() && #[trigger] has_substring(line, error_markers()[k])
}

/// Whether the line holds one of the quoted words "ERROR", "FATAL",
/// "CRITICAL", "PANIC", "error", "fatal", "critical" (quotes included).
pub fn fast_is_error_line(line: &str) -> (r: bool)
    ensures
        r == is_error_marked(line@),
{
    let cs = str_chars(line);
    let markers: Vec<Vec<char>> = vec![
        vec!['"', 'E', 'R', 'R', 'O', 'R', '"'],
        vec!['"', 'F', 'A', 'T', 'A', 'L', '"'],
        vec!['"', 'C', 'R', 'I', 'T', 'I', 'C', 'A', 'L', '"'],
        vec!['"', 'P', 'A', 'N', 'I', 'C', '"'],
        vec!['"', 'e', 'r', 'r', 'o', 'r', '"'],
        vec!['"', 'f', 'a', 't', 'a', 'l', '"'],
        vec!['"', 'c', 'r', 'i', 't', 'i', 'c', 'a', 'l', '"'],
    ];
    let ghost mv = markers@.map_values(|w: Vec<char>| w@);
    proof {
        assert(mv =~= error_markers());
    }
    for i in 0..markers.len()
        invariant
            mv == markers@.map_values(|w: Vec<char>| w@),
            mv == error_markers(),
            cs@ == line@,
            forall|k: int| 0 <= k < i ==> !#[trigger] has_substring(line@, error_markers()[k]),
    {
        if contains_chars(cs.as_slice(), markers[i].as_slice()) {
            proof {
                assert(markers@[i as int]@ == error_markers()[i as int]);
            }
            return true;
        }
    }
    false
}


/// The byte codes of characters.
pub open spec fn char_bytes(cs: Seq<char>) -> Seq<u8> {
    cs.map_values(|c: char| c as u8)
}

/// Both tokenizers read the same tokens: for any text, the hashed tokenizer
/// yields as many hashes as the string tokenizer yields strings, and each
/// hash is the hash of the string token at the same position.
pub proof fn lemma_tokenizers_agree(b: Seq<u8>)
    ensures
        hashed_tokens(b).len() == token_strings(b).len(),
        forall|i: int|
            0 <= i < hashed_tokens(b).len() ==> #[trigger] hashed_tokens(b)[i] == fnv_hash(
                char_bytes(token_strings(b)[i]),
            ),
{
    assert forall|i: int|
        0 <= i < hashed_tokens(b).len() implies #[trigger] hashed_tokens(b)[i] == fnv_hash(
            char_bytes(token_strings(b)[i]),
        ) by {
        let t = byte_tokens(b)[i];
        let l = lower_bytes(t);
        assert(char_bytes(ascii_chars(l)) =~= l) by {
            assert forall|k: int| 0 <= k < l.len() implies #[trigger] char_bytes(ascii_chars(l))[k] == l[k] by {
                assert((l[k] as char) as u8 == l[k]);
            }
        }
        assert(lower_bytes(l) =~= lower_bytes(t));
        lemma_hash_ignores_case(t, l);
    }
}


/// Strings joined by single spaces, as `join(" ")` writes them.
pub open spec fn joined_with_spaces(ts: Seq<Seq<char>>) -> Seq<char>
    decreases ts.len(),
{
    if ts.len() == 0 {
        Seq::empty()
    } else if ts.len() == 1 {
        ts[0]
    } else {
        ts[0] + seq![' '] + joined_with_spaces(ts.drop_first())
    }
}

/// The characters of ASCII byte sequences.
pub open spec fn ascii_all(ts: Seq<Seq<u8>>) -> Seq<Seq<char>> {
    ts.map_values(|t: Seq<u8>| ascii_chars(t))
}

proof fn lemma_join_ascii(ts: Seq<Seq<u8>>)
    requires
        forall|i: int, k: int| 0 <= i < ts.len() && 0 <= k < ts[i].len() ==> #[trigger] ts[i][k] < 128,
    ensures
        joined_with_spaces(ascii_all(ts)) == ascii_chars(joined_tokens(ts)),
        forall|k: int| 0 <= k < joined_tokens(ts).len() ==> #[trigger] joined_tokens(ts)[k] < 128,
    decreases ts.len(),
{
    if ts.len() == 0 {
        assert(ascii_chars(joined_tokens(ts)) =~= Seq::<char>::empty());
    } else if ts.len() == 1 {
        assert(ascii_all(ts)[0] == ascii_chars(ts[0]));
        assert forall|k: int| 0 <= k < joined_tokens(ts).len() implies #[trigger] joined_tokens(ts)[k] < 128 by {
            assert(joined_tokens(ts)[k] == ts[0][k]);
        }
    } else {
        let d = ts.drop_first();
        assert forall|i: int, k: int| 0 <= i < d.len() && 0 <= k < d[i].len() implies #[trigger] d[i][k] < 128 by {
            assert(d[i] == ts[i + 1]);
        }
        lemma_join_ascii(d);
        assert(ascii_all(ts).drop_first() =~= ascii_all(d));
        assert(ascii_all(ts)[0] == ascii_chars(ts[0]));
        let j = joined_tokens(ts);
        let jd = joined_tokens(d);
        assert(j == ts[0] + seq![32u8] + jd);
        assert((32u8 as char) == ' ');
        assert(ascii_chars(j) =~= ascii_chars(ts[0]) + seq![' '] + ascii_chars(jd));
        assert forall|k: int| 0 <= k < j.len() implies #[trigger] j[k] < 128 by {
            if k < ts[0].len() {
                assert(j[k] == ts[0][k]);
            } else if k > ts[0].len() {
                assert(j[k] == jd[k - ts[0].len() - 1]);
            }
        }
    }
}

/// Tokenizing is idempotent: the text made of a text's tokens joined by
/// single spaces has exactly those tokens. (`b` is the text's UTF-8; the
/// joined tokens are ASCII, so their UTF-8 is their character codes.)
pub proof fn lemma_tokenize_idempotent(b: Seq<u8>)
    ensures
        token_strings(encode_utf8(joined_with_spaces(token_strings(b)))) == token_strings(b),
{
    let t = byte_tokens(b);
    let l = t.map_values(|x: Seq<u8>| lower_bytes(x));
    lemma_token_shape(b);
    assert forall|i: int| 0 <= i < l.len() implies (#[trigger] l[i]).len() >= 2 by {
        assert(l[i] == lower_bytes(t[i]));
    }
    assert forall|i: int, k: int| 0 <= i < l.len() && 0 <= k < l[i].len() implies is_token_byte(
        #[trigger] l[i][k],
    ) by {
        assert(l[i] == lower_bytes(t[i]));
        assert(is_token_byte(t[i][k]));
    }
    assert forall|i: int, k: int| 0 <= i < l.len() && 0 <= k < l[i].len() implies #[trigger] l[i][k] < 128 by {
        assert(is_token_byte(l[i][k]));
    }
    assert(token_strings(b) =~= ascii_all(l)) by {
        assert forall|i: int| 0 <= i < l.len() implies token_strings(b)[i] == ascii_all(l)[i] by {
            assert(l[i] == lower_bytes(t[i]));
        }
    }
    lemma_join_ascii(l);
    let j = joined_tokens(l);
    lemma_ascii_encode(j);
    lemma_tokens_of_joined(l);
    assert(token_strings(j) =~= ascii_all(l)) by {
        assert forall|i: int| 0 <= i < l.len() implies token_strings(j)[i] == ascii_all(l)[i] by {
            assert(byte_tokens(j)[i] == l[i]);
            assert(lower_bytes(l[i]) =~= l[i]) by {
                assert(l[i] == lower_bytes(t[i]));
            }
        }
    }
}

/// Tokenizing ignores ASCII case: lowering or raising the ASCII letters of
/// the text's bytes, as `to_ascii_lowercase` and `to_ascii_uppercase` do
/// (they leave the bytes of other characters alone), gives the same tokens.
pub proof fn lemma_tokenize_ignores_case(b: Seq<u8>)
    ensures
        token_strings(lower_bytes(b)) == token_strings(b),
        token_strings(upper_bytes(b)) == token_strings(b),
{
    let lo = lower_bytes(b);
    let up = upper_bytes(b);
    assert(same_but_case(lo, b)) by {
        assert forall|i: int| 0 <= i < lo.len() implies is_token_byte(#[trigger] lo[i]) == is_token_byte(b[i])
            && lower_byte(lo[i]) == lower_byte(b[i]) by {
            assert(lo[i] == lower_byte(b[i]));
        }
    }
    assert(same_but_case(up, b)) by {
        assert forall|i: int| 0 <= i < up.len() implies is_token_byte(#[trigger] up[i]) == is_token_byte(b[i])
            && lower_byte(up[i]) == lower_byte(b[i]) by {
            assert(up[i] == upper_byte(b[i]));
        }
    }
    lemma_tokens_same_but_case(lo, b);
    lemma_tokens_same_but_case(up, b);
    assert(token_strings(lo) =~= token_strings(b)) by {
        assert forall|i: int| 0 <= i < token_strings(b).len() implies token_strings(lo)[i] == token_strings(b)[i] by {
            assert(lower_bytes(byte_tokens(lo)[i]) == lower_bytes(byte_tokens(b)[i]));
        }
    }
    assert(token_strings(up) =~= token_strings(b)) by {
        assert forall|i: int| 0 <= i < token_strings(b).len() implies token_strings(up)[i] == token_strings(b)[i] by {
            assert(lower_bytes(byte_tokens(up)[i]) == lower_bytes(byte_tokens(b)[i]));
        }
    }
}


/// Every token the tokenizers read is a word: at least two characters, each
/// an ASCII digit, a lowercase ASCII letter or `_`.
pub proof fn lemma_tokens_are_words(b: Seq<u8>)
    ensures
        forall|i: int| 0 <= i < token_strings(b).len() ==> (#[trigger] token_strings(b)[i]).len() >= 2,
        forall|i: int, k: int|
            0 <= i < token_strings(b).len() && 0 <= k < token_strings(b)[i].len() ==> {
                let c = #[trigger] token_strings(b)[i][k];
                ('0' <= c <= '9') || ('a' <= c <= 'z') || c == '_'
            },
{
    lemma_token_shape(b);
    assert forall|i: int, k: int|
        0 <= i < token_strings(b).len() && 0 <= k < token_strings(b)[i].len() implies {
            let c = #[trigger] token_strings(b)[i][k];
            ('0' <= c <= '9') || ('a' <= c <= 'z') || c == '_'
        } by {
        let t = byte_tokens(b)[i];
        assert(token_strings(b)[i] == ascii_chars(lower_bytes(t)));
        assert(is_token_byte(t[k]));
        assert(token_strings(b)[i][k] == lower_byte(t[k]) as char);
    }
    assert forall|i: int| 0 <= i < token_strings(b).len() implies (#[trigger] token_strings(b)[i]).len() >= 2 by {
        assert(token_strings(b)[i] == ascii_chars(lower_bytes(byte_tokens(b)[i])));
    }
}

/// A byte that is not an ASCII letter, digit or `_` (such as `.`, `-`,
/// `=`, a space) always separates tokens: both tokenizers read
/// `a + [c] + b` as the tokens of `a` followed by the tokens of `b`.
pub proof fn lemma_separator_splits_tokens(a: Seq<u8>, c: u8, b: Seq<u8>)
    requires
        !((48 <= c <= 57) || (65 <= c <= 90) || (97 <= c <= 122) || c == 95),
    ensures
        token_strings(a + seq![c] + b) == token_strings(a) + token_strings(b),
        hashed_tokens(a + seq![c] + b) == hashed_tokens(a) + hashed_tokens(b),
{
    lemma_tokens_split(a, c, b);
    assert(token_strings(a + seq![c] + b) =~= token_strings(a) + token_strings(b));
    assert(hashed_tokens(a + seq![c] + b) =~= hashed_tokens(a) + hashed_tokens(b));
}

/// A text made only of ASCII letters, digits and `_` is a single token when
/// it has at least two bytes: its ASCII lowercase for the string
/// tokenizer, its hash for the hashed one; a shorter text has no token.
pub proof fn lemma_word_is_one_token(t: Seq<u8>)
    requires
        forall|k: int|
            0 <= k < t.len() ==> (48 <= #[trigger] t[k] <= 57) || (65 <= t[k] <= 90) || (97 <= t[k] <= 122)
                || t[k] == 95,
    ensures
        token_strings(t) == if t.len() >= 2 {
            seq![Seq::new(t.len(), |k: int| (if 65 <= t[k] <= 90 { t[k] + 32 } else { t[k] as int }) as char)]
        } else {
            Seq::<Seq<char>>::empty()
        },
        hashed_tokens(t) == if t.len() >= 2 {
            seq![fnv_hash(t)]
        } else {
            Seq::<u64>::empty()
        },
{
    assert forall|k: int| 0 <= k < t.len() implies is_token_byte(#[trigger] t[k]) by {}
    lemma_tokens_word(t);
    if t.len() >= 2 {
        let w = Seq::new(t.len(), |k: int| (if 65 <= t[k] <= 90 { t[k] + 32 } else { t[k] as int }) as char);
        assert(ascii_chars(lower_bytes(t)) =~= w);
        assert(token_strings(t) =~= seq![w]);
        assert(hashed_tokens(t) =~= seq![fnv_hash(t)]);
    } else {
        assert(token_strings(t) =~= Seq::<Seq<char>>::empty());
        assert(hashed_tokens(t) =~= Seq::<u64>::empty());
    }
}


/// A line that holds any of the quoted words "ERROR", "FATAL", "CRITICAL",
/// "PANIC", "error", "fatal" or "critical" (quotes included), at any
/// position `i`, is an error line.
pub proof fn lemma_error_words_mark_line(line: Seq<char>, i: int)
    requires
        0 <= i,
    ensures
        i + 7 <= line.len() && line.subrange(i, i + 7) == seq!['"', 'E', 'R', 'R', 'O', 'R', '"'] ==> is_error_marked(line),
        i + 7 <= line.len() && line.subrange(i, i + 7) == seq!['"', 'F', 'A', 'T', 'A', 'L', '"'] ==> is_error_marked(line),
        i + 10 <= line.len() && line.subrange(i, i + 10) == seq!['"', 'C', 'R', 'I', 'T', 'I', 'C', 'A', 'L', '"'] ==> is_error_marked(line),
        i + 7 <= line.len() && line.subrange(i, i + 7) == seq!['"', 'P', 'A', 'N', 'I', 'C', '"'] ==> is_error_marked(line),
        i + 7 <= line.len() && line.subrange(i, i + 7) == seq!['"', 'e', 'r', 'r', 'o', 'r', '"'] ==> is_error_marked(line),
        i + 7 <= line.len() && line.subrange(i, i + 7) == seq!['"', 'f', 'a', 't', 'a', 'l', '"'] ==> is_error_marked(line),
        i + 10 <= line.len() && line.subrange(i, i + 10) == seq!['"', 'c', 'r', 'i', 't', 'i', 'c', 'a', 'l', '"'] ==> is_error_marked(line),
{
    if i + 7 <= line.len() && line.subrange(i, i + 7) == seq!['"', 'E', 'R', 'R', 'O', 'R', '"'] {
        assert(error_markers()[0] == seq!['"', 'E', 'R', 'R', 'O', 'R', '"']);
        assert(has_substring(line, error_markers()[0]));
    }
    if i + 7 <= line.len() && line.subrange(i, i + 7) == seq!['"', 'F', 'A', 'T', 'A', 'L', '"'] {
        assert(error_markers()[1] == seq!['"', 'F', 'A', 'T', 'A', 'L', '"']);
        assert(has_substring(line, error_markers()[1]));
    }
    if i + 10 <= line.len() && line.subrange(i, i + 10) == seq!['"', 'C', 'R', 'I', 'T', 'I', 'C', 'A', 'L', '"'] {
        assert(error_markers()[2] == seq!['"', 'C', 'R', 'I', 'T', 'I', 'C', 'A', 'L', '"']);
        assert(has_substring(line, error_markers()[2]));
    }
    if i + 7 <= line.len() && line.subrange(i, i + 7) == seq!['"', 'P', 'A', 'N', 'I', 'C', '"'] {
        assert(error_markers()[3] == seq!['"', 'P', 'A', 'N', 'I', 'C', '"']);
        assert(has_substring(line, error_markers()[3]));
    }
    if i + 7 <= line.len() && line.subrange(i, i + 7) == seq!['"', 'e', 'r', 'r', 'o', 'r', '"'] {
        assert(error_markers()[4] == seq!['"', 'e', 'r', 'r', 'o', 'r', '"']);
        assert(has_substring(line, error_markers()[4]));
    }
    if i + 7 <= line.len() && line.subrange(i, i + 7) == seq!['"', 'f', 'a', 't', 'a', 'l', '"'] {
        assert(error_markers()[5] == seq!['"', 'f', 'a', 't', 'a', 'l', '"']);
        assert(has_substring(line, error_markers()[5]));
    }
    if i + 10 <= line.len() && line.subrange(i, i + 10) == seq!['"', 'c', 'r', 'i', 't', 'i', 'c', 'a', 'l', '"'] {
        assert(error_markers()[6] == seq!['"', 'c', 'r', 'i', 't', 'i', 'c', 'a', 'l', '"']);
        assert(has_substring(line, error_markers()[6]));
    }
}

/// An error line holds one of those quoted words somewhere.
pub proof fn lemma_error_line_holds_word(line: Seq<char>)
    requires
        is_error_marked(line),
    ensures
        exists|i: int|
            0 <= i && ((i + 7 <= line.len() && #[trigger] line.subrange(i, i + 7) == seq!['"', 'E', 'R', 'R', 'O', 'R', '"'])
                || (i + 7 <= line.len() && line.subrange(i, i + 7) == seq!['"', 'F', 'A', 'T', 'A', 'L', '"'])
                || (i + 10 <= line.len() && line.subrange(i, i + 10) == seq!['"', 'C', 'R', 'I', 'T', 'I', 'C', 'A', 'L', '"'])
                || (i + 7 <= line.len() && line.subrange(i, i + 7) == seq!['"', 'P', 'A', 'N', 'I', 'C', '"'])
                || (i + 7 <= line.len() && line.subrange(i, i + 7) == seq!['"', 'e', 'r', 'r', 'o', 'r', '"'])
                || (i + 7 <= line.len() && line.subrange(i, i + 7) == seq!['"', 'f', 'a', 't', 'a', 'l', '"'])
                || (i + 10 <= line.len() && line.subrange(i, i + 10) == seq!['"', 'c', 'r', 'i', 't', 'i', 'c', 'a', 'l', '"'])),
{
    let k = choose|k: int| 0 <= k < error_markers().len() && #[trigger] has_substring(line, error_markers()[k]);
    let w = error_markers()[k];
    let i = choose|i: int| 0 <= i && i + w.len() <= line.len() && #[trigger] line.subrange(i, i + w.len()) == w;
    // Mentions the quantifier's trigger at the chosen position.
    assert(line.subrange(i, i + 7) == line.subrange(i, i + 7));
}

} // verus!
